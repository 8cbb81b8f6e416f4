//! A table from strings to values that keeps its entries in the order in
//! which they were inserted and holds no key twice.
//!
//! It stands where a `HashMap<String, V>` would: vstd says what a `HashMap`
//! holds only for keys of which it knows that equal keys hash alike, and it
//! knows that of integers, not of strings. So the strings are hashed here,
//! and the `HashMap` inside is keyed by the hash.

use crate::text::str_eq;
use std::collections::HashMap;
use vstd::prelude::*;

verus! {

/// The hash of a text: a polynomial in its characters, in arithmetic that
/// wraps around.
pub open spec fn hash_of(s: Seq<char>) -> u64
    decreases s.len(),
{
    if s.len() == 0 {
        0
    } else {
        hash_of(s.drop_last()).wrapping_mul(31).wrapping_add(s.last() as u64)
    }
}

/// Computes `hash_of`.
pub fn hash_str(text: &str) -> (h: u64)
    ensures
        h == hash_of(text@),
{
    let mut h: u64 = 0;
    assert(text@.take(0) == Seq::<char>::empty());
    for c in it: text.chars()
        invariant
            it.seq() == text@,
            h == hash_of(it.seq().take(it.index())),
    {
        assert(it.seq().take(it.index() + 1).drop_last() == it.seq().take(it.index()));
        h = h.wrapping_mul(31).wrapping_add(c as u64);
    }
    assert(text@.take(text@.len() as int) == text@);
    h
}

/// The entries stand in two vectors, in insertion order. Beside them an
/// index leads from the hash of a key to the positions of the keys with that
/// hash, so that a lookup compares only those.
pub struct StringMap<V> {
    keys: Vec<String>,
    values: Vec<V>,
    index: HashMap<u64, Vec<usize>>,
}

impl<V> StringMap<V> {
    /// The keys, in insertion order.
    pub closed spec fn keys(&self) -> Seq<Seq<char>> {
        Seq::new(self.keys@.len(), |i: int| self.keys@[i]@)
    }

    /// The values, each at the position of its key.
    pub closed spec fn values(&self) -> Seq<V> {
        self.values@
    }

    /// The index lists every key under its hash, and lists nothing but
    /// positions of keys.
    pub closed spec fn indexed(&self) -> bool {
        &&& forall|i: int|
            0 <= i < self.keys@.len() ==> {
                &&& self.index@.contains_key(hash_of(#[trigger] self.keys@[i]@))
                &&& self.index@[hash_of(self.keys@[i]@)]@.contains(i as usize)
            }
        &&& forall|h: u64, k: int|
            self.index@.contains_key(h) && 0 <= k < self.index@[h]@.len()
                ==> #[trigger] self.index@[h]@[k] < self.keys@.len()
    }

    /// Every key has one value, no key occurs twice, and the index is in
    /// order.
    pub open spec fn wf(&self) -> bool {
        &&& self.keys().len() == self.values().len()
        &&& self.keys().no_duplicates()
        &&& self.indexed()
    }

    /// Whether `key` is one of the keys.
    pub open spec fn contains(&self, key: Seq<char>) -> bool {
        self.keys().contains(key)
    }

    /// The value stored under `key`; meaningful where `contains(key)`.
    pub open spec fn value_of(&self, key: Seq<char>) -> V {
        self.values()[self.keys().index_of(key)]
    }

    /// The table without entries.
    pub fn new() -> (r: Self)
        ensures
            r.wf(),
            r.keys() == Seq::<Seq<char>>::empty(),
            r.values() == Seq::<V>::empty(),
    {
        StringMap { keys: Vec::new(), values: Vec::new(), index: HashMap::new() }
    }

    /// The number of entries.
    pub fn len(&self) -> (r: usize)
        requires
            self.wf(),
        ensures
            r == self.keys().len(),
    {
        self.keys.len()
    }

    /// Where `key` stands among the keys, if it is one of them.
    pub fn position(&self, key: &str) -> (r: Option<usize>)
        requires
            self.wf(),
        ensures
            match r {
                Some(i) => i < self.keys().len() && self.keys()[i as int] == key@,
                None => !self.contains(key@),
            },
    {
        broadcast use vstd::std_specs::hash::group_hash_axioms;

        let h = hash_str(key);
        let n = self.keys.len();
        match self.index.get(&h) {
            Some(bucket) => {
                let mut k: usize = 0;
                while k < bucket.len()
                    invariant
                        self.wf(),
                        n == self.keys@.len(),
                        h == hash_of(key@),
                        self.index@.contains_key(h),
                        *bucket == self.index@[h],
                        k <= bucket@.len(),
                        forall|j: int| 0 <= j < k ==> self.keys()[bucket@[j] as int] != key@,
                    decreases bucket@.len() - k,
                {
                    let i = bucket[k];
                    if str_eq(self.keys[i].as_str(), key) {
                        return Some(i);
                    }
                    k += 1;
                }
                proof {
                    if self.contains(key@) {
                        let i = choose|i: int| 0 <= i < self.keys().len() && self.keys()[i] == key@;
                        assert(self.keys@[i]@ == key@);
                        assert(bucket@.contains(i as usize));
                        let j = choose|j: int| 0 <= j < bucket@.len() && bucket@[j] == i as usize;
                        assert(self.keys()[bucket@[j] as int] != key@);
                    }
                }
                None
            },
            None => {
                proof {
                    if self.contains(key@) {
                        let i = choose|i: int| 0 <= i < self.keys().len() && self.keys()[i] == key@;
                        assert(self.keys@[i]@ == key@);
                    }
                }
                None
            },
        }
    }

    /// Whether the table holds `key`.
    pub fn contains_key(&self, key: &str) -> (r: bool)
        requires
            self.wf(),
        ensures
            r == self.contains(key@),
    {
        self.position(key).is_some()
    }

    /// The value stored under `key`, if the table holds it.
    pub fn get(&self, key: &str) -> (r: Option<&V>)
        requires
            self.wf(),
        ensures
            match r {
                Some(v) => self.contains(key@) && *v == self.value_of(key@),
                None => !self.contains(key@),
            },
    {
        match self.position(key) {
            Some(i) => Some(&self.values[i]),
            None => None,
        }
    }

    /// The key at position `i`.
    pub fn key_at(&self, i: usize) -> (r: &String)
        requires
            self.wf(),
            i < self.keys().len(),
        ensures
            r@ == self.keys()[i as int],
    {
        &self.keys[i]
    }

    /// The value at position `i`.
    pub fn value_at(&self, i: usize) -> (r: &V)
        requires
            self.wf(),
            i < self.keys().len(),
        ensures
            *r == self.values()[i as int],
    {
        &self.values[i]
    }

    /// Replaces the value at position `i`, leaving every key in place.
    pub fn set_value_at(&mut self, i: usize, value: V)
        requires
            old(self).wf(),
            i < old(self).keys().len(),
        ensures
            final(self).wf(),
            final(self).keys() == old(self).keys(),
            final(self).values() == old(self).values().update(i as int, value),
    {
        self.values.set(i, value);
    }

    /// Stores `value` under `key`. A key that the table holds keeps its
    /// position and gets the new value; a new key is appended.
    pub fn insert(&mut self, key: String, value: V)
        requires
            old(self).wf(),
        ensures
            final(self).wf(),
            final(self).contains(key@),
            final(self).value_of(key@) == value,
            old(self).contains(key@) ==> {
                &&& final(self).keys() == old(self).keys()
                &&& final(self).values() == old(self).values().update(
                    old(self).keys().index_of(key@),
                    value,
                )
            },
            !old(self).contains(key@) ==> {
                &&& final(self).keys() == old(self).keys().push(key@)
                &&& final(self).values() == old(self).values().push(value)
            },
    {
        match self.position(key.as_str()) {
            Some(i) => {
                proof {
                    let j = old(self).keys().index_of(key@);
                    assert(old(self).keys()[j] == key@);
                    assert(j == i);
                }
                self.set_value_at(i, value);
            },
            None => {
                self.push_new(key, value);
                proof {
                    let n = old(self).keys().len() as int;
                    assert(self.keys()[n] == key@);
                    let j = self.keys().index_of(key@);
                    assert(self.keys()[j] == key@);
                    assert(j == n);
                }
            },
        }
    }

    /// Appends an entry for a key that the table does not hold yet.
    pub(crate) fn push_new(&mut self, key: String, value: V)
        requires
            old(self).wf(),
            !old(self).contains(key@),
        ensures
            final(self).wf(),
            final(self).keys() == old(self).keys().push(key@),
            final(self).values() == old(self).values().push(value),
    {
        broadcast use vstd::std_specs::hash::group_hash_axioms;

        let ghost k = key@;
        let n = self.keys.len();
        let h = hash_str(key.as_str());
        let ghost old_index = self.index@;
        let mut bucket = match self.index.remove(&h) {
            Some(bucket) => bucket,
            None => Vec::new(),
        };
        let ghost old_bucket = bucket@;
        bucket.push(n);
        let ghost new_bucket = bucket@;
        self.index.insert(h, bucket);
        self.keys.push(key);
        self.values.push(value);
        assert(self.keys() =~= old(self).keys().push(k));
        proof {
            assert forall|i: int| 0 <= i < self.keys@.len() implies {
                &&& self.index@.contains_key(hash_of(#[trigger] self.keys@[i]@))
                &&& self.index@[hash_of(self.keys@[i]@)]@.contains(i as usize)
            } by {
                if i < n {
                    assert(self.keys@[i] == old(self).keys@[i]);
                    let hi = hash_of(self.keys@[i]@);
                    assert(old_index.contains_key(hi));
                    if hi == h {
                        assert(old_bucket == old_index[h]@);
                        let j = choose|j: int|
                            0 <= j < old_bucket.len() && old_bucket[j] == i as usize;
                        assert(new_bucket[j] == i as usize);
                    }
                } else {
                    assert(new_bucket[new_bucket.len() - 1] == n);
                }
            }
        }
    }
}

} // verus!
