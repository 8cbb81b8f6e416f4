//! The order of a result list: by score, highest first, and among equal
//! scores by document identifier.

use crate::text::{
    lemma_lex_lt_irreflexive, lemma_lex_lt_total, lemma_lex_lt_transitive, lex_lt, str_lt,
};
use vstd::prelude::*;

verus! {

/// A document with its score. The score is an integer that orders as the
/// similarity it stands for.
#[derive(Debug)]
pub struct Ranked {
    pub doc: String,
    pub score: u32,
}

/// `a` stands before `b` in a result list: it has the higher score, or the
/// same score and the identifier that comes first.
pub open spec fn ranks_before(a: Ranked, b: Ranked) -> bool {
    a.score > b.score || (a.score == b.score && lex_lt(a.doc@, b.doc@))
}

/// No entry of `v` stands behind one that it ranks before.
pub open spec fn is_ranked(v: Seq<Ranked>) -> bool {
    forall|i: int, j: int| 0 <= i < j < v.len() ==> !ranks_before(v[j], v[i])
}

/// No two entries of `v` name the same document.
pub open spec fn distinct_docs(v: Seq<Ranked>) -> bool {
    forall|i: int, j: int| 0 <= i < j < v.len() ==> v[i].doc@ != v[j].doc@
}

/// No entry stands before itself.
pub proof fn lemma_ranks_before_irreflexive(a: Ranked)
    ensures
        !ranks_before(a, a),
{
    lemma_lex_lt_irreflexive(a.doc@);
}

/// What stands before an entry stands before all that the entry stands
/// before.
pub proof fn lemma_ranks_before_transitive(a: Ranked, b: Ranked, c: Ranked)
    requires
        ranks_before(a, b),
        ranks_before(b, c),
    ensures
        ranks_before(a, c),
{
    if a.score == b.score && b.score == c.score {
        lemma_lex_lt_transitive(a.doc@, b.doc@, c.doc@);
    }
}

/// In a ranked list of distinct documents each entry has a higher score
/// than the next, or the same score and an identifier that comes first.
pub proof fn lemma_adjacent_strictly_ordered(v: Seq<Ranked>, i: int)
    requires
        is_ranked(v),
        distinct_docs(v),
        0 <= i,
        i + 1 < v.len(),
    ensures
        v[i].score > v[i + 1].score || (v[i].score == v[i + 1].score && lex_lt(
            v[i].doc@,
            v[i + 1].doc@,
        )),
{
    assert(!ranks_before(v[i + 1], v[i]));
    if v[i].score == v[i + 1].score {
        lemma_lex_lt_total(v[i].doc@, v[i + 1].doc@);
    }
}

/// Whether `a` stands before `b` in a result list.
pub fn comes_before(a: &Ranked, b: &Ranked) -> (r: bool)
    ensures
        r == ranks_before(*a, *b),
{
    a.score > b.score || (a.score == b.score && str_lt(a.doc.as_str(), b.doc.as_str()))
}

/// Of three entries of which the first stands before the third, the second
/// stands behind the first or before the third.
pub proof fn lemma_ranks_before_splits(a: Ranked, b: Ranked, c: Ranked)
    requires
        ranks_before(a, c),
    ensures
        ranks_before(a, b) || ranks_before(b, c),
{
    if a.score == b.score && b.score == c.score {
        if a.doc@ != b.doc@ {
            lemma_lex_lt_total(a.doc@, b.doc@);
            if lex_lt(b.doc@, a.doc@) {
                lemma_lex_lt_transitive(b.doc@, a.doc@, c.doc@);
            }
        }
    }
}

/// A list that holds the entries of a list of distinct documents, each as
/// often, is a list of distinct documents.
pub proof fn lemma_distinct_docs_kept(from: Seq<Ranked>, to: Seq<Ranked>)
    requires
        to.to_multiset() == from.to_multiset(),
        distinct_docs(from),
    ensures
        distinct_docs(to),
{
    broadcast use vstd::seq_lib::group_to_multiset_ensures;

    from.lemma_multiset_has_no_duplicates();
    to.lemma_multiset_has_no_duplicates_conv();
    assert forall|i: int, j: int| 0 <= i < j < to.len() implies to[i].doc@ != to[j].doc@ by {
        assert(to.contains(to[i]));
        assert(to.contains(to[j]));
        vstd::seq_lib::to_multiset_contains(to, to[i]);
        vstd::seq_lib::to_multiset_contains(to, to[j]);
        vstd::seq_lib::to_multiset_contains(from, to[i]);
        vstd::seq_lib::to_multiset_contains(from, to[j]);
        let a = choose|a: int| 0 <= a < from.len() && from[a] == to[i];
        let b = choose|b: int| 0 <= b < from.len() && from[b] == to[j];
        assert(a != b);
    }
}

/// A second entry for the same document with the same score.
fn copy_of(entry: &Ranked) -> (r: Ranked)
    ensures
        r == *entry,
{
    Ranked { doc: entry.doc.clone(), score: entry.score }
}

/// Merges two ranked lists into one. Of two entries that rank alike the
/// one from `left` comes first.
fn merge(left: &Vec<Ranked>, right: &Vec<Ranked>) -> (r: Vec<Ranked>)
    requires
        is_ranked(left@),
        is_ranked(right@),
        left@.len() + right@.len() <= usize::MAX,
    ensures
        is_ranked(r@),
        r@.to_multiset() == left@.to_multiset().add(right@.to_multiset()),
{
    broadcast use vstd::seq_lib::group_to_multiset_ensures;
    broadcast use vstd::multiset::group_multiset_axioms;

    let mut out: Vec<Ranked> = Vec::new();
    let mut i: usize = 0;
    let mut j: usize = 0;
    assert(left@.take(0) == Seq::<Ranked>::empty());
    assert(right@.take(0) == Seq::<Ranked>::empty());
    assert(out@.to_multiset() =~= left@.take(0).to_multiset().add(right@.take(0).to_multiset()));
    while i < left.len() || j < right.len()
        invariant
            i <= left@.len(),
            j <= right@.len(),
            is_ranked(left@),
            is_ranked(right@),
            is_ranked(out@),
            out@.len() == i + j,
            out@.to_multiset() == left@.take(i as int).to_multiset().add(
                right@.take(j as int).to_multiset(),
            ),
            forall|k: int|
                0 <= k < out@.len() && i < left@.len() ==> !ranks_before(left@[i as int], out@[k]),
            forall|k: int|
                0 <= k < out@.len() && j < right@.len() ==> !ranks_before(
                    right@[j as int],
                    out@[k],
                ),
        decreases left@.len() - i + right@.len() - j,
    {
        let ghost before = out@;
        let from_left = if i == left.len() {
            false
        } else if j == right.len() {
            true
        } else {
            !comes_before(&right[j], &left[i])
        };
        if from_left {
            let x = copy_of(&left[i]);
            out.push(x);
            proof {
                assert(left@.take(i + 1) == left@.take(i as int).push(x));
                vstd::seq_lib::to_multiset_build(before, x);
                vstd::seq_lib::to_multiset_build(left@.take(i as int), x);
                if i + 1 < left@.len() {
                    let next = left@[i + 1];
                    assert(!ranks_before(next, x));
                    assert forall|k: int| 0 <= k < before.len() implies !ranks_before(
                        next,
                        before[k],
                    ) by {
                        if ranks_before(next, before[k]) {
                            lemma_ranks_before_splits(next, x, before[k]);
                        }
                    }
                }
            }
            i += 1;
        } else {
            let x = copy_of(&right[j]);
            out.push(x);
            proof {
                assert(right@.take(j + 1) == right@.take(j as int).push(x));
                vstd::seq_lib::to_multiset_build(before, x);
                vstd::seq_lib::to_multiset_build(right@.take(j as int), x);
                if i < left@.len() {
                    if ranks_before(left@[i as int], x) {
                        lemma_ranks_before_transitive(x, left@[i as int], x);
                        lemma_ranks_before_irreflexive(x);
                    }
                }
                if j + 1 < right@.len() {
                    let next = right@[j + 1];
                    assert(!ranks_before(next, x));
                    assert forall|k: int| 0 <= k < before.len() implies !ranks_before(
                        next,
                        before[k],
                    ) by {
                        if ranks_before(next, before[k]) {
                            lemma_ranks_before_splits(next, x, before[k]);
                        }
                    }
                }
            }
            j += 1;
        }
        assert forall|a: int, b: int| 0 <= a < b < out@.len() implies !ranks_before(
            out@[b],
            out@[a],
        ) by {
            if b < before.len() {
                assert(out@[a] == before[a] && out@[b] == before[b]);
            } else {
                assert(out@[a] == before[a]);
            }
        }
    }
    assert(left@.take(i as int) == left@);
    assert(right@.take(j as int) == right@);
    out
}

/// Ranks the entries of `scored` from position `from` up to `to`.
fn rank_range(scored: &Vec<Ranked>, from: usize, to: usize) -> (r: Vec<Ranked>)
    requires
        from <= to <= scored@.len(),
    ensures
        is_ranked(r@),
        r@.to_multiset() == scored@.subrange(from as int, to as int).to_multiset(),
    decreases to - from,
{
    broadcast use vstd::seq_lib::group_to_multiset_ensures;

    if to - from == 0 {
        let r: Vec<Ranked> = Vec::new();
        assert(scored@.subrange(from as int, to as int) == Seq::<Ranked>::empty());
        r
    } else if to - from == 1 {
        let mut r: Vec<Ranked> = Vec::new();
        r.push(copy_of(&scored[from]));
        assert(scored@.subrange(from as int, to as int) == r@);
        r
    } else {
        let mid = from + (to - from) / 2;
        let left = rank_range(scored, from, mid);
        let right = rank_range(scored, mid, to);
        proof {
            let whole = scored@.subrange(from as int, to as int);
            let first = scored@.subrange(from as int, mid as int);
            let second = scored@.subrange(mid as int, to as int);
            assert(whole == first + second);
            vstd::seq_lib::lemma_multiset_commutative(first, second);
            vstd::seq_lib::to_multiset_len(left@);
            vstd::seq_lib::to_multiset_len(first);
            vstd::seq_lib::to_multiset_len(right@);
            vstd::seq_lib::to_multiset_len(second);
        }
        merge(&left, &right)
    }
}

/// Orders scored documents by score, highest first, and documents of equal
/// score by identifier. Nothing is added or dropped.
pub fn rank(scored: Vec<Ranked>) -> (r: Vec<Ranked>)
    ensures
        r@.to_multiset() == scored@.to_multiset(),
        is_ranked(r@),
        distinct_docs(scored@) ==> distinct_docs(r@),
{
    let r = rank_range(&scored, 0, scored.len());
    proof {
        assert(scored@.subrange(0, scored@.len() as int) == scored@);
        if distinct_docs(scored@) {
            lemma_distinct_docs_kept(scored@, r@);
        }
    }
    r
}

/// The entries of `scored` whose similarity is defined, in their order,
/// each with its score.
pub open spec fn defined(scored: Seq<(String, Option<u32>)>) -> Seq<Ranked>
    decreases scored.len(),
{
    if scored.len() == 0 {
        Seq::empty()
    } else {
        let before = defined(scored.drop_last());
        match scored.last().1 {
            Some(score) => before.push(Ranked { doc: scored.last().0, score }),
            None => before,
        }
    }
}

/// The result list for documents of which each has a similarity or has
/// none: those without are left out, and the others are ranked.
pub fn rank_scored(scored: Vec<(String, Option<u32>)>) -> (r: Vec<Ranked>)
    ensures
        r@.to_multiset() == defined(scored@).to_multiset(),
        is_ranked(r@),
        distinct_docs(defined(scored@)) ==> distinct_docs(r@),
{
    let mut kept: Vec<Ranked> = Vec::new();
    let n = scored.len();
    let mut i: usize = 0;
    assert(scored@.take(0) == Seq::<(String, Option<u32>)>::empty());
    while i < n
        invariant
            n == scored@.len(),
            i <= n,
            kept@ == defined(scored@.take(i as int)),
        decreases n - i,
    {
        assert(scored@.take(i + 1).drop_last() == scored@.take(i as int));
        match scored[i].1 {
            Some(score) => {
                kept.push(Ranked { doc: scored[i].0.clone(), score });
            },
            None => {},
        }
        i += 1;
    }
    assert(scored@.take(n as int) == scored@);
    rank(kept)
}

} // verus!
