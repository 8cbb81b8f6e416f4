use tfidf_search::text::{str_eq, str_lt};

const SAMPLES: [&str; 14] =
    ["", "a", "A", "ab", "abc", "abd", "b", "é", "e", "zebra", "zé", "日本", "日本語", "a\u{10ffff}"];

#[test]
fn str_eq_tells_equal_strings_from_others() {
    assert!(str_eq("", ""));
    assert!(str_eq("dog", "dog"));
    assert!(str_eq("naïve", "naïve"));
    assert!(!str_eq("dog", "dot"));
    assert!(!str_eq("dog", "do"));
    assert!(!str_eq("do", "dog"));
    assert!(!str_eq("", "a"));
    assert!(!str_eq("Dog", "dog"));
}

#[test]
fn str_eq_agrees_with_equality_of_strings() {
    for a in SAMPLES {
        for b in SAMPLES {
            assert_eq!(str_eq(a, b), a == b);
        }
    }
}

#[test]
fn str_lt_puts_a_proper_prefix_first() {
    assert!(str_lt("", "a"));
    assert!(str_lt("ab", "abc"));
    assert!(!str_lt("abc", "ab"));
    assert!(!str_lt("", ""));
    assert!(!str_lt("abc", "abc"));
}

#[test]
fn str_lt_goes_by_the_first_character_that_differs() {
    assert!(str_lt("abc", "abd"));
    assert!(!str_lt("abd", "abc"));
    assert!(str_lt("B", "a"));
    assert!(str_lt("z", "é"));
    assert!(str_lt("az", "b"));
}

#[test]
fn str_lt_agrees_with_the_order_of_strings() {
    for a in SAMPLES {
        for b in SAMPLES {
            assert_eq!(str_lt(a, b), a < b);
        }
    }
}
