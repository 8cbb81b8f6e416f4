use tfidf_search::string_map::{hash_str, StringMap};

#[test]
fn string_map_keeps_entries_in_insertion_order() {
    let mut m: StringMap<u64> = StringMap::new();
    assert_eq!(m.len(), 0);
    m.insert("b".to_string(), 2);
    m.insert("a".to_string(), 1);
    assert_eq!(m.len(), 2);
    assert_eq!(m.key_at(0), "b");
    assert_eq!(m.key_at(1), "a");
    assert_eq!(*m.value_at(0), 2);
    assert_eq!(m.position("a"), Some(1));
    assert_eq!(m.position("c"), None);
}

#[test]
fn string_map_finds_values_by_key() {
    let mut m: StringMap<u64> = StringMap::new();
    m.insert("cat".to_string(), 7);
    m.insert("dog".to_string(), 9);
    assert_eq!(m.get("dog"), Some(&9));
    assert_eq!(m.get("cat"), Some(&7));
    assert_eq!(m.get("do"), None);
    assert!(m.contains_key("cat"));
    assert!(!m.contains_key("Cat"));
}

#[test]
fn string_map_insert_replaces_the_value_of_a_key_it_holds() {
    let mut m: StringMap<u64> = StringMap::new();
    m.insert("cat".to_string(), 7);
    m.insert("dog".to_string(), 9);
    m.insert("cat".to_string(), 1);
    assert_eq!(m.len(), 2);
    assert_eq!(m.key_at(0), "cat");
    assert_eq!(m.get("cat"), Some(&1));
    assert_eq!(m.get("dog"), Some(&9));
}

#[test]
fn string_map_replaces_a_value_in_place() {
    let mut m: StringMap<u64> = StringMap::new();
    m.insert("cat".to_string(), 7);
    m.insert("dog".to_string(), 9);
    m.set_value_at(0, 8);
    assert_eq!(m.get("cat"), Some(&8));
    assert_eq!(m.get("dog"), Some(&9));
    assert_eq!(m.len(), 2);
}

#[test]
fn hash_is_a_polynomial_in_the_characters() {
    assert_eq!(hash_str(""), 0);
    assert_eq!(hash_str("a"), 97);
    assert_eq!(hash_str("ab"), 97 * 31 + 98);
    assert_eq!(hash_str("abc"), (97 * 31 + 98) * 31 + 99);
    assert_eq!(hash_str("é"), 233);
}

#[test]
fn hash_wraps_around() {
    let mut expected: u64 = 0;
    for c in "a text long enough to overflow sixty-four bits".chars() {
        expected = expected.wrapping_mul(31).wrapping_add(c as u64);
    }
    assert_eq!(hash_str("a text long enough to overflow sixty-four bits"), expected);
}

#[test]
fn string_map_holds_many_keys() {
    let mut m: StringMap<usize> = StringMap::new();
    for i in 0..2000usize {
        m.insert(format!("key{}", i), i);
    }
    assert_eq!(m.len(), 2000);
    for i in (0..2000usize).step_by(7) {
        assert_eq!(m.get(&format!("key{}", i)), Some(&i));
        assert_eq!(m.position(&format!("key{}", i)), Some(i));
    }
    assert_eq!(m.get("key2000"), None);
    assert_eq!(m.get("key"), None);
}

#[test]
fn keys_with_the_same_hash_are_told_apart() {
    assert_eq!(hash_str("Aa"), hash_str("BB"));
    let mut m: StringMap<u64> = StringMap::new();
    m.insert("Aa".to_string(), 1);
    m.insert("BB".to_string(), 2);
    m.insert("AaAa".to_string(), 3);
    m.insert("BBBB".to_string(), 4);
    m.insert("AaBB".to_string(), 5);
    assert_eq!(m.len(), 5);
    assert_eq!(m.get("Aa"), Some(&1));
    assert_eq!(m.get("BB"), Some(&2));
    assert_eq!(m.get("AaAa"), Some(&3));
    assert_eq!(m.get("BBBB"), Some(&4));
    assert_eq!(m.get("AaBB"), Some(&5));
    assert_eq!(m.get("BBAa"), None);
    m.insert("BB".to_string(), 7);
    assert_eq!(m.get("BB"), Some(&7));
    assert_eq!(m.get("Aa"), Some(&1));
    assert_eq!(m.len(), 5);
}
