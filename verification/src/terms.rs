//! Term frequencies: how often each term occurs in a text, kept as exact
//! counts beside the number of terms they were counted from.

use crate::lexer::{tokenize, tokens};
use crate::string_map::StringMap;
use crate::text::views;
use vstd::prelude::*;

verus! {

/// The fraction `num / den`; it stands for zero where `num` is zero,
/// whatever `den` is.
pub struct Fraction {
    pub num: nat,
    pub den: nat,
}

/// A `Fraction` in machine integers.
#[derive(Clone, Copy, Debug, PartialEq, Eq)]
pub struct Ratio {
    pub num: u128,
    pub den: u128,
}

impl View for Ratio {
    type V = Fraction;

    open spec fn view(&self) -> Fraction {
        Fraction { num: self.num as nat, den: self.den as nat }
    }
}

/// How often `t` occurs in `s`.
pub open spec fn occurrences(s: Seq<Seq<char>>, t: Seq<char>) -> nat
    decreases s.len(),
{
    if s.len() == 0 {
        0
    } else {
        occurrences(s.drop_last(), t) + if s.last() == t {
            1nat
        } else {
            0nat
        }
    }
}

/// The terms of `s` without repetitions, in the order of their first
/// occurrence.
pub open spec fn distinct(s: Seq<Seq<char>>) -> Seq<Seq<char>>
    decreases s.len(),
{
    if s.len() == 0 {
        Seq::empty()
    } else {
        let before = distinct(s.drop_last());
        if before.contains(s.last()) {
            before
        } else {
            before.push(s.last())
        }
    }
}

/// The sum of the numbers in `s`.
pub open spec fn sum(s: Seq<u64>) -> nat
    decreases s.len(),
{
    if s.len() == 0 {
        0
    } else {
        sum(s.drop_last()) + s.last() as nat
    }
}

/// `distinct` holds no term twice, and holds exactly the terms that occur.
pub proof fn lemma_distinct(s: Seq<Seq<char>>)
    ensures
        distinct(s).no_duplicates(),
        forall|t: Seq<char>| #[trigger] distinct(s).contains(t) <==> occurrences(s, t) > 0,
        forall|t: Seq<char>| #[trigger] s.contains(t) <==> occurrences(s, t) > 0,
    decreases s.len(),
{
    if s.len() > 0 {
        let init = s.drop_last();
        let before = distinct(init);
        lemma_distinct(init);
        assert forall|t: Seq<char>| #[trigger] s.contains(t) <==> occurrences(s, t) > 0 by {
            if s.contains(t) {
                let i = choose|i: int| 0 <= i < s.len() && s[i] == t;
                if i < s.len() - 1 {
                    assert(init[i] == t);
                    assert(init.contains(t));
                }
            }
            if occurrences(s, t) > 0 {
                if s.last() == t {
                    assert(s[s.len() - 1] == t);
                } else {
                    assert(init.contains(t));
                    let i = choose|i: int| 0 <= i < init.len() && init[i] == t;
                    assert(s[i] == t);
                }
            }
        }
        assert forall|t: Seq<char>| #[trigger]
            distinct(s).contains(t) <==> occurrences(s, t) > 0 by {
            if before.contains(s.last()) {
            } else {
                let d = before.push(s.last());
                if d.contains(t) {
                    let i = choose|i: int| 0 <= i < d.len() && d[i] == t;
                    if i < before.len() {
                        assert(before[i] == t);
                        assert(before.contains(t));
                    }
                }
                if occurrences(s, t) > 0 {
                    if s.last() == t {
                        assert(d[before.len() as int] == t);
                    } else {
                        assert(before.contains(t));
                        let i = choose|i: int| 0 <= i < before.len() && before[i] == t;
                        assert(d[i] == t);
                    }
                }
            }
        }
    }
}

/// No term occurs more often than there are terms.
pub proof fn lemma_occurrences_bound(s: Seq<Seq<char>>, t: Seq<char>)
    ensures
        occurrences(s, t) <= s.len(),
    decreases s.len(),
{
    if s.len() > 0 {
        lemma_occurrences_bound(s.drop_last(), t);
    }
}

/// No entry is larger than the sum of all.
pub proof fn lemma_sum_bounds(s: Seq<u64>, i: int)
    requires
        0 <= i < s.len(),
    ensures
        s[i] <= sum(s),
    decreases s.len(),
{
    if i < s.len() - 1 {
        lemma_sum_bounds(s.drop_last(), i);
    }
}

/// The sum of the first entries is no larger than the sum of all.
pub proof fn lemma_sum_take(s: Seq<u64>, n: int)
    requires
        0 <= n <= s.len(),
    ensures
        sum(s.take(n)) <= sum(s),
    decreases s.len(),
{
    if n < s.len() {
        lemma_sum_take(s.drop_last(), n);
        assert(s.drop_last().take(n) == s.take(n));
    } else {
        assert(s.take(n) == s);
    }
}

/// The terms of a list of terms with their counts.
pub open spec fn pair_terms(entries: Seq<(String, u64)>) -> Seq<Seq<char>> {
    Seq::new(entries.len(), |i: int| entries[i].0@)
}

/// The counts of a list of terms with their counts.
pub open spec fn pair_counts(entries: Seq<(String, u64)>) -> Seq<u64> {
    Seq::new(entries.len(), |i: int| entries[i].1)
}

/// A list of terms with their counts is one that a text can have: no term
/// twice, no count of zero, and a total that a machine integer holds.
pub open spec fn valid_counts(entries: Seq<(String, u64)>) -> bool {
    &&& pair_terms(entries).no_duplicates()
    &&& forall|i: int| 0 <= i < entries.len() ==> (#[trigger] entries[i]).1 > 0
    &&& sum(pair_counts(entries)) <= u64::MAX
}

/// Changing one entry changes the sum by the same amount.
pub proof fn lemma_sum_update(s: Seq<u64>, i: int, v: u64)
    requires
        0 <= i < s.len(),
    ensures
        sum(s.update(i, v)) == sum(s) - s[i] + v,
    decreases s.len(),
{
    if i < s.len() - 1 {
        lemma_sum_update(s.drop_last(), i, v);
        assert(s.update(i, v).drop_last() == s.drop_last().update(i, v));
    } else {
        assert(s.update(i, v).drop_last() == s.drop_last());
    }
}

/// The counts of the terms of one text.
pub struct TermFreqs {
    counts: StringMap<u64>,
    total: u64,
}

impl TermFreqs {
    /// The distinct terms, in the order of their first occurrence.
    pub closed spec fn terms(&self) -> Seq<Seq<char>> {
        self.counts.keys()
    }

    /// The count of each term, at the position of the term.
    pub closed spec fn counts(&self) -> Seq<u64> {
        self.counts.values()
    }

    /// The number of terms that were counted, repetitions included.
    pub closed spec fn total(&self) -> nat {
        self.total as nat
    }

    /// No term is listed twice, every listed term was seen at least once,
    /// and the counts add up to the total.
    pub closed spec fn wf(&self) -> bool {
        &&& self.counts.wf()
        &&& forall|i: int| 0 <= i < self.counts.values().len() ==> self.counts.values()[i] > 0
        &&& sum(self.counts.values()) == self.total
    }

    /// Whether `term` was seen.
    pub open spec fn contains(&self, term: Seq<char>) -> bool {
        self.terms().contains(term)
    }

    /// How often `term` was seen; zero for a term that was not.
    pub open spec fn count(&self, term: Seq<char>) -> nat {
        if self.terms().contains(term) {
            self.counts()[self.terms().index_of(term)] as nat
        } else {
            0
        }
    }

    /// The counts describe the term sequence `s`.
    pub open spec fn counts_of(&self, s: Seq<Seq<char>>) -> bool {
        &&& self.wf()
        &&& self.terms() == distinct(s)
        &&& self.total() == s.len()
        &&& forall|t: Seq<char>| #[trigger] self.count(t) == occurrences(s, t)
    }

    /// What `wf` says, for callers in other modules.
    pub proof fn lemma_wf(&self)
        requires
            self.wf(),
        ensures
            self.terms().len() == self.counts().len(),
            self.terms().no_duplicates(),
            forall|i: int| 0 <= i < self.counts().len() ==> #[trigger] self.counts()[i] > 0,
            sum(self.counts()) == self.total(),
            forall|i: int|
                0 <= i < self.terms().len() ==> self.count(#[trigger] self.terms()[i])
                    == self.counts()[i],
            forall|t: Seq<char>| self.contains(t) <==> #[trigger] self.count(t) > 0,
    {
        assert forall|i: int| 0 <= i < self.terms().len() implies self.count(
            #[trigger] self.terms()[i],
        ) == self.counts()[i] by {
            let t = self.terms()[i];
            assert(self.terms().contains(t));
            let j = self.terms().index_of(t);
            assert(self.terms()[j] == t);
        }
    }

    /// The frequencies of a text add up to one: the counts of its terms
    /// add up to the number they are taken over. Only a text without terms
    /// has a table without entries, and a total of zero.
    pub proof fn lemma_frequencies_sum_to_one(&self)
        requires
            self.wf(),
        ensures
            sum(self.counts()) == self.total(),
            self.total() == 0 <==> self.terms().len() == 0,
    {
        self.lemma_wf();
        if self.terms().len() > 0 {
            lemma_sum_bounds(self.counts(), 0);
        }
    }

    /// No term was seen more often than terms were counted.
    pub proof fn lemma_count_bound(&self, term: Seq<char>)
        requires
            self.wf(),
        ensures
            self.count(term) <= self.total(),
    {
        if self.terms().contains(term) {
            let j = self.terms().index_of(term);
            assert(self.terms()[j] == term);
            lemma_sum_bounds(self.counts(), j);
        }
    }

    /// The counts of a text without terms.
    pub fn new() -> (r: Self)
        ensures
            r.wf(),
            r.terms().len() == 0,
            r.total() == 0,
            r.counts_of(Seq::empty()),
    {
        let r = TermFreqs { counts: StringMap::new(), total: 0 };
        assert(r.counts_of(Seq::empty())) by {
            assert(r.terms() == distinct(Seq::empty()));
        }
        r
    }

    /// Counts the terms of `terms`.
    pub fn from_terms(terms: &Vec<String>) -> (r: Self)
        ensures
            r.counts_of(views(terms@)),
    {
        let ghost all = views(terms@);
        let mut counts: StringMap<u64> = StringMap::new();
        let mut i: usize = 0;
        assert(all.take(0) == Seq::<Seq<char>>::empty());
        while i < terms.len()
            invariant
                all == views(terms@),
                i <= terms@.len(),
                counts.wf(),
                counts.keys() == distinct(all.take(i as int)),
                forall|k: int|
                    0 <= k < counts.keys().len() ==> #[trigger] counts.values()[k] == occurrences(
                        all.take(i as int),
                        counts.keys()[k],
                    ),
                sum(counts.values()) == i,
            decreases terms@.len() - i,
        {
            let ghost seen = all.take(i as int);
            let ghost next = all.take(i + 1);
            let ghost old_keys = counts.keys();
            let ghost old_values = counts.values();
            proof {
                assert(next.drop_last() == seen);
                lemma_distinct(seen);
            }
            let term = &terms[i];
            match counts.position(term.as_str()) {
                Some(j) => {
                    let c = *counts.value_at(j);
                    proof {
                        lemma_sum_bounds(old_values, j as int);
                        lemma_sum_update(old_values, j as int, (c + 1) as u64);
                    }
                    counts.set_value_at(j, c + 1);
                    assert(old_keys.contains(term@));
                },
                None => {
                    counts.push_new(term.clone(), 1);
                    assert(old_values.push(1u64).drop_last() == old_values);
                },
            }
            i += 1;
        }
        assert(all.take(i as int) == all);
        let r = TermFreqs { counts, total: i as u64 };
        proof {
            lemma_distinct(all);
            assert forall|k: int| 0 <= k < r.counts.values().len() implies r.counts.values()[k]
                > 0 by {
                assert(distinct(all).contains(r.counts.keys()[k]));
            }
            r.lemma_wf();
        }
        r
    }

    /// The table with the terms and counts of `entries`, in their order,
    /// where `entries` is such a list as a text can have.
    pub fn from_counts(entries: &Vec<(String, u64)>) -> (r: Option<Self>)
        ensures
            match r {
                Some(t) => {
                    &&& valid_counts(entries@)
                    &&& t.wf()
                    &&& t.terms() == pair_terms(entries@)
                    &&& t.counts() == pair_counts(entries@)
                },
                None => !valid_counts(entries@),
            },
    {
        let ghost terms = pair_terms(entries@);
        let ghost all = pair_counts(entries@);
        let mut counts: StringMap<u64> = StringMap::new();
        let mut total: u64 = 0;
        let mut i: usize = 0;
        while i < entries.len()
            invariant
                terms == pair_terms(entries@),
                all == pair_counts(entries@),
                i <= entries@.len(),
                counts.wf(),
                counts.keys() == terms.take(i as int),
                counts.values() == all.take(i as int),
                forall|k: int| 0 <= k < i ==> (#[trigger] entries@[k]).1 > 0,
                total == sum(all.take(i as int)),
            decreases entries@.len() - i,
        {
            let term = &entries[i].0;
            let count = entries[i].1;
            proof {
                assert(all.take(i + 1).drop_last() == all.take(i as int));
                lemma_sum_take(all, i + 1);
            }
            if count == 0 {
                return None;
            }
            if count > u64::MAX - total {
                return None;
            }
            if counts.contains_key(term.as_str()) {
                proof {
                    let k = choose|k: int|
                        0 <= k < terms.take(i as int).len() && terms.take(i as int)[k] == term@;
                    assert(terms[k] == terms[i as int]);
                }
                return None;
            }
            counts.push_new(term.clone(), count);
            total = total + count;
            i += 1;
            assert(counts.keys() == terms.take(i as int));
            assert(counts.values() == all.take(i as int));
        }
        proof {
            assert(terms.take(i as int) == terms);
            assert(all.take(i as int) == all);
        }
        Some(TermFreqs { counts, total })
    }

    /// The terms with their counts, in the order of the table.
    pub fn to_counts(&self) -> (r: Vec<(String, u64)>)
        requires
            self.wf(),
        ensures
            pair_terms(r@) == self.terms(),
            pair_counts(r@) == self.counts(),
            valid_counts(r@),
    {
        let mut entries: Vec<(String, u64)> = Vec::new();
        let mut i: usize = 0;
        while i < self.counts.len()
            invariant
                self.wf(),
                i <= self.counts.keys().len(),
                entries@.len() == i,
                forall|k: int|
                    0 <= k < i ==> (#[trigger] entries@[k]).0@ == self.counts.keys()[k]
                        && entries@[k].1 == self.counts.values()[k],
            decreases self.counts.keys().len() - i,
        {
            entries.push((self.counts.key_at(i).clone(), *self.counts.value_at(i)));
            i += 1;
        }
        assert(pair_terms(entries@) == self.terms());
        assert(pair_counts(entries@) == self.counts());
        entries
    }

    /// The number of distinct terms.
    pub fn len(&self) -> (r: usize)
        requires
            self.wf(),
        ensures
            r == self.terms().len(),
    {
        self.counts.len()
    }

    /// The distinct term at position `i`.
    pub fn term_at(&self, i: usize) -> (r: &String)
        requires
            self.wf(),
            i < self.terms().len(),
        ensures
            r@ == self.terms()[i as int],
    {
        self.counts.key_at(i)
    }

    /// The count of the distinct term at position `i`.
    pub fn count_at(&self, i: usize) -> (r: u64)
        requires
            self.wf(),
            i < self.terms().len(),
        ensures
            r == self.counts()[i as int],
            r == self.count(self.terms()[i as int]),
            r > 0,
    {
        proof {
            self.lemma_wf();
        }
        *self.counts.value_at(i)
    }

    /// How often `term` was seen; zero for a term that was not.
    pub fn count_of(&self, term: &str) -> (r: u64)
        requires
            self.wf(),
        ensures
            r == self.count(term@),
    {
        proof {
            self.lemma_wf();
        }
        match self.counts.position(term) {
            Some(i) => *self.counts.value_at(i),
            None => 0,
        }
    }

    /// The number of terms that were counted, repetitions included.
    pub fn total_count(&self) -> (r: u64)
        requires
            self.wf(),
        ensures
            r == self.total(),
    {
        self.total
    }

    /// The share of `term` among all terms counted.
    pub fn frequency(&self, term: &str) -> (r: Ratio)
        requires
            self.wf(),
        ensures
            r@ == (Fraction { num: self.count(term@), den: self.total() }),
            r.num <= r.den,
    {
        let num = self.count_of(term);
        proof {
            self.lemma_wf();
            if self.terms().contains(term@) {
                lemma_sum_bounds(self.counts(), self.terms().index_of(term@));
            }
        }
        Ratio { num: num as u128, den: self.total as u128 }
    }
}

/// The term frequencies of `content`: its terms counted, over their number.
pub fn compute_tfs(content: &str) -> (r: TermFreqs)
    ensures
        r.counts_of(tokens(content@)),
{
    let terms = tokenize(content);
    TermFreqs::from_terms(&terms)
}

} // verus!
