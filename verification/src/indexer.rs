//! The corpus index: the term frequencies of every document, and for every
//! term the number of documents that hold it.

use crate::lexer::{tokenize, tokens};
use crate::string_map::StringMap;
use crate::terms::{
    distinct, lemma_distinct, lemma_occurrences_bound, occurrences, pair_counts, pair_terms,
    valid_counts, Fraction, Ratio, TermFreqs,
};
use crate::text::views;
use vstd::prelude::*;

verus! {

/// In how many of the tables `tfs` the term `t` occurs.
pub open spec fn holders(tfs: Seq<TermFreqs>, t: Seq<char>) -> nat
    decreases tfs.len(),
{
    if tfs.len() == 0 {
        0
    } else {
        holders(tfs.drop_last(), t) + if tfs.last().contains(t) {
            1nat
        } else {
            0nat
        }
    }
}

/// No term is held by more tables than there are.
pub proof fn lemma_holders_bound(tfs: Seq<TermFreqs>, t: Seq<char>)
    ensures
        holders(tfs, t) <= tfs.len(),
    decreases tfs.len(),
{
    if tfs.len() > 0 {
        lemma_holders_bound(tfs.drop_last(), t);
    }
}

/// One coordinate of a TF-IDF vector, kept exact: it stands for the term
/// frequency `tf` times the decimal logarithm of `idf`.
pub struct ExactWeight {
    pub tf: Fraction,
    pub idf: Fraction,
}

impl ExactWeight {
    /// The weight stands for a number above zero: the term occurs, and not
    /// in every document.
    pub open spec fn is_positive(self) -> bool {
        self.tf.num > 0 && self.idf.num > self.idf.den
    }

    /// The weight stands for a number that is defined and not negative: a
    /// frequency of at most one, and the logarithm of a ratio of at least
    /// one.
    pub open spec fn is_sound(self) -> bool {
        &&& self.tf.num <= self.tf.den
        &&& 1 <= self.idf.den <= self.idf.num
    }
}

/// An `ExactWeight` in machine integers.
#[derive(Clone, Copy, Debug, PartialEq, Eq)]
pub struct Weight {
    pub tf: Ratio,
    pub idf: Ratio,
}

impl View for Weight {
    type V = ExactWeight;

    open spec fn view(&self) -> ExactWeight {
        ExactWeight { tf: self.tf@, idf: self.idf@ }
    }
}

/// The exact weights that a vector of machine weights stands for.
pub open spec fn exact(v: Seq<Weight>) -> Seq<ExactWeight> {
    Seq::new(v.len(), |i: int| v[i]@)
}

/// Some coordinate of `v` is above zero, so that `v` has a length above
/// zero and a cosine with another such vector.
pub open spec fn has_positive(v: Seq<ExactWeight>) -> bool {
    exists|i: int| 0 <= i < v.len() && (#[trigger] v[i]).is_positive()
}

fn any_positive(v: &Vec<Weight>) -> (r: bool)
    ensures
        r == has_positive(exact(v@)),
{
    let mut i: usize = 0;
    while i < v.len()
        invariant
            i <= v@.len(),
            forall|j: int| 0 <= j < i ==> !(#[trigger] exact(v@)[j]).is_positive(),
        decreases v@.len() - i,
    {
        if v[i].tf.num > 0 && v[i].idf.num > v[i].idf.den {
            assert(exact(v@)[i as int].is_positive());
            return true;
        }
        i += 1;
    }
    false
}

/// A document that can be scored against a query, with its TF-IDF vector
/// over the positions of the query's terms.
#[derive(Debug)]
pub struct Candidate {
    pub doc: String,
    pub weights: Vec<Weight>,
}

/// What a query asks of the index: its own TF-IDF vector, and every
/// document whose vector has a cosine with it.
#[derive(Debug)]
pub struct Scoring {
    pub query: Vec<Weight>,
    pub candidates: Vec<Candidate>,
}

/// A document as it is kept outside the index: its identifier, and its
/// terms with their counts.
#[derive(Debug, PartialEq, Eq)]
pub struct StoredDocument {
    pub id: String,
    pub terms: Vec<(String, u64)>,
}

/// The identifiers of stored documents.
pub open spec fn stored_ids(stored: Seq<StoredDocument>) -> Seq<Seq<char>> {
    Seq::new(stored.len(), |i: int| stored[i].id@)
}

/// Stored documents from which an index can be made: no identifier
/// twice, and for each document a list of terms that a text can have.
pub open spec fn valid_stored(stored: Seq<StoredDocument>) -> bool {
    &&& stored_ids(stored).no_duplicates()
    &&& forall|i: int| 0 <= i < stored.len() ==> valid_counts((#[trigger] stored[i]).terms@)
}

/// The corpus index. Documents stand in the order in which they were
/// indexed.
pub struct Indexer {
    documents: StringMap<TermFreqs>,
    doc_freq: StringMap<u64>,
}

impl Default for Indexer {
    fn default() -> (r: Self)
        ensures
            r.wf(),
            r.doc_count() == 0,
    {
        Indexer::new()
    }
}

impl Indexer {
    /// The identifiers of the documents, in the order in which they were
    /// indexed.
    pub closed spec fn doc_ids(&self) -> Seq<Seq<char>> {
        self.documents.keys()
    }

    /// The term frequencies of each document, at the position of its
    /// identifier.
    pub closed spec fn tfs(&self) -> Seq<TermFreqs> {
        self.documents.values()
    }

    /// The document frequency that is stored for `term`; zero where none
    /// is.
    pub closed spec fn df(&self, term: Seq<char>) -> nat {
        if self.doc_freq.contains(term) {
            self.doc_freq.value_of(term) as nat
        } else {
            0
        }
    }

    /// The number of documents.
    pub open spec fn doc_count(&self) -> nat {
        self.doc_ids().len()
    }

    /// Whether a document is indexed under `id`.
    pub open spec fn contains_doc(&self, id: Seq<char>) -> bool {
        self.doc_ids().contains(id)
    }

    /// No identifier occurs twice, every table is well formed, and the
    /// stored document frequency of every term is the number of documents
    /// that hold it.
    pub closed spec fn wf(&self) -> bool {
        &&& self.documents.wf()
        &&& self.doc_freq.wf()
        &&& forall|i: int|
            0 <= i < self.documents.values().len() ==> #[trigger] self.documents.values()[i].wf()
        &&& forall|j: int|
            0 <= j < self.doc_freq.keys().len() ==> #[trigger] self.doc_freq.values()[j] == holders(
                self.documents.values(),
                self.doc_freq.keys()[j],
            )
        &&& forall|t: Seq<char>|
            !self.doc_freq.contains(t) ==> #[trigger] holders(self.documents.values(), t) == 0
    }

    /// What `wf` says, for callers in other modules.
    pub proof fn lemma_wf(&self)
        requires
            self.wf(),
        ensures
            self.doc_ids().len() == self.tfs().len(),
            self.doc_ids().no_duplicates(),
            forall|i: int| 0 <= i < self.tfs().len() ==> #[trigger] self.tfs()[i].wf(),
            forall|t: Seq<char>| #[trigger] self.df(t) == holders(self.tfs(), t),
            forall|t: Seq<char>| #[trigger] self.df(t) <= self.doc_count(),
    {
        assert forall|t: Seq<char>| #[trigger] self.df(t) <= self.doc_count() by {
            lemma_holders_bound(self.tfs(), t);
        }
    }

    /// The index without documents.
    pub fn new() -> (r: Self)
        ensures
            r.wf(),
            r.doc_count() == 0,
    {
        Indexer { documents: StringMap::new(), doc_freq: StringMap::new() }
    }

    /// The number of documents.
    pub fn len(&self) -> (r: usize)
        requires
            self.wf(),
        ensures
            r == self.doc_count(),
    {
        self.documents.len()
    }

    /// Whether a document is indexed under `id`.
    pub fn contains(&self, id: &str) -> (r: bool)
        requires
            self.wf(),
        ensures
            r == self.contains_doc(id@),
    {
        self.documents.contains_key(id)
    }

    /// The identifier of the document at position `i`.
    pub fn doc_id_at(&self, i: usize) -> (r: &String)
        requires
            self.wf(),
            i < self.doc_count(),
        ensures
            r@ == self.doc_ids()[i as int],
    {
        self.documents.key_at(i)
    }

    /// The term frequencies of the document at position `i`.
    pub fn tfs_at(&self, i: usize) -> (r: &TermFreqs)
        requires
            self.wf(),
            i < self.doc_count(),
        ensures
            *r == self.tfs()[i as int],
            r.wf(),
    {
        self.documents.value_at(i)
    }

    /// In how many documents `term` occurs.
    pub fn document_frequency(&self, term: &str) -> (r: u64)
        requires
            self.wf(),
        ensures
            r == self.df(term@),
            r == holders(self.tfs(), term@),
            r <= self.doc_count(),
    {
        proof {
            self.lemma_wf();
        }
        match self.doc_freq.get(term) {
            Some(n) => *n,
            None => 0,
        }
    }

    /// Adds a document under an identifier that the index does not hold
    /// yet, and counts it for each of its terms. An identifier that is
    /// already there keeps its document: the index stays as it is and the
    /// answer is `false`.
    pub fn add_document(&mut self, id: String, tfs: TermFreqs) -> (added: bool)
        requires
            old(self).wf(),
            tfs.wf(),
        ensures
            final(self).wf(),
            added == !old(self).contains_doc(id@),
            added ==> final(self).doc_ids() == old(self).doc_ids().push(id@),
            added ==> final(self).tfs() == old(self).tfs().push(tfs),
            !added ==> *final(self) == *old(self),
    {
        if self.documents.contains_key(id.as_str()) {
            return false;
        }
        let ghost before = old(self).documents.values();
        let ghost after = before.push(tfs);
        self.documents.push_new(id, tfs);
        let last = self.documents.len() - 1;
        let n = self.documents.value_at(last).len();
        let mut k: usize = 0;
        proof {
            tfs.lemma_wf();
            assert(after.drop_last() == before);
        }
        while k < n
            invariant
                n == tfs.terms().len(),
                k <= n,
                tfs.wf(),
                tfs.terms().no_duplicates(),
                self.documents.wf(),
                self.documents.keys() == old(self).documents.keys().push(id@),
                self.documents.values() == after,
                after == before.push(tfs),
                last == before.len(),
                last < usize::MAX,
                self.doc_freq.wf(),
                forall|j: int|
                    0 <= j < self.doc_freq.keys().len() ==> #[trigger] self.doc_freq.values()[j]
                        == holders(before, self.doc_freq.keys()[j]) + if tfs.terms().take(
                        k as int,
                    ).contains(self.doc_freq.keys()[j]) {
                        1nat
                    } else {
                        0nat
                    },
                forall|t: Seq<char>|
                    !(#[trigger] self.doc_freq.contains(t)) ==> holders(before, t) == 0
                        && !tfs.terms().take(k as int).contains(t),
            decreases n - k,
        {
            let term = self.documents.value_at(last).term_at(k);
            let ghost done = tfs.terms().take(k as int);
            let ghost done_next = tfs.terms().take(k + 1);
            let ghost old_keys = self.doc_freq.keys();
            let ghost old_df = self.doc_freq;
            proof {
                assert(done_next == done.push(term@));
                lemma_push_contains(done, term@);
                lemma_holders_bound(before, term@);
            }
            match self.doc_freq.position(term.as_str()) {
                Some(j) => {
                    let c = *self.doc_freq.value_at(j);
                    assert(c == holders(before, term@));
                    self.doc_freq.set_value_at(j, c + 1);
                },
                None => {
                    self.doc_freq.push_new(term.clone(), 1);
                    proof {
                        lemma_push_contains(old_keys, term@);
                    }
                },
            }
            proof {
                assert forall|t: Seq<char>| !(#[trigger] self.doc_freq.contains(t)) implies holders(
                    before,
                    t,
                ) == 0 && !done_next.contains(t) by {
                    if old_df.contains(t) {
                        let i = choose|i: int| 0 <= i < old_keys.len() && old_keys[i] == t;
                        assert(self.doc_freq.keys()[i] == t);
                    }
                    assert(!old_df.contains(t));
                    assert(t != term@);
                }
            }
            k += 1;
        }
        proof {
            assert(tfs.terms().take(n as int) == tfs.terms());
        }
        true
    }

    /// The ratio whose logarithm is the inverse document frequency of
    /// `term`: documents plus one over holders of the term plus one.
    pub open spec fn idf_of(&self, term: Seq<char>) -> Fraction {
        Fraction { num: self.doc_count() + 1, den: self.df(term) + 1 }
    }

    /// The weight of the query `q` at position `i`: the share of the term
    /// at `i` among the query's terms, with the term's `idf_of`.
    pub open spec fn query_weight(&self, q: Seq<Seq<char>>, i: int) -> ExactWeight {
        ExactWeight {
            tf: Fraction { num: occurrences(q, q[i]), den: q.len() },
            idf: self.idf_of(q[i]),
        }
    }

    /// The weight of document `d` at position `i` of the query `q`: the
    /// share of the term at `i` among the document's terms, with the term's
    /// `idf_of`.
    pub open spec fn doc_weight(&self, d: int, q: Seq<Seq<char>>, i: int) -> ExactWeight {
        ExactWeight {
            tf: Fraction { num: self.tfs()[d].count(q[i]), den: self.tfs()[d].total() },
            idf: self.idf_of(q[i]),
        }
    }

    /// The TF-IDF vector of the query `q`, one weight for each of its
    /// terms, repeated terms included.
    pub open spec fn query_vector(&self, q: Seq<Seq<char>>) -> Seq<ExactWeight> {
        Seq::new(q.len(), |i: int| self.query_weight(q, i))
    }

    /// The TF-IDF vector of document `d` over the positions of the query
    /// `q`.
    pub open spec fn doc_vector(&self, d: int, q: Seq<Seq<char>>) -> Seq<ExactWeight> {
        Seq::new(q.len(), |i: int| self.doc_weight(d, q, i))
    }

    /// The positions below `upto` of the documents whose vector for `q` has
    /// a coordinate above zero, in ascending order.
    pub open spec fn scorable(&self, q: Seq<Seq<char>>, upto: int) -> Seq<int>
        decreases upto,
    {
        if upto <= 0 {
            Seq::empty()
        } else {
            let below = self.scorable(q, upto - 1);
            if has_positive(self.doc_vector(upto - 1, q)) {
                below.push(upto - 1)
            } else {
                below
            }
        }
    }

    /// The inverse document frequency of `term`, as the ratio of which it
    /// is the logarithm.
    pub fn compute_idf_term(&self, term: &str) -> (r: Ratio)
        requires
            self.wf(),
        ensures
            r@ == self.idf_of(term@),
            1 <= r.den <= r.num,
    {
        let docs_number = self.documents.len() as u128 + 1;
        let docs_number_for_term = self.document_frequency(term) as u128 + 1;
        Ratio { num: docs_number, den: docs_number_for_term }
    }

    /// The inverse document frequency of each distinct term among the terms
    /// `terms` of a query.
    pub fn compute_idfs_query(&self, terms: &Vec<String>) -> (r: StringMap<Ratio>)
        requires
            self.wf(),
        ensures
            r.wf(),
            r.keys() == distinct(views(terms@)),
            forall|k: int|
                0 <= k < r.keys().len() ==> (#[trigger] r.values()[k])@ == self.idf_of(
                    r.keys()[k],
                ),
            forall|t: Seq<char>|
                views(terms@).contains(t) ==> r.contains(t) && r.value_of(t)@ == self.idf_of(t),
    {
        let ghost all = views(terms@);
        let mut idfs: StringMap<Ratio> = StringMap::new();
        let mut i: usize = 0;
        assert(all.take(0) == Seq::<Seq<char>>::empty());
        while i < terms.len()
            invariant
                self.wf(),
                all == views(terms@),
                i <= terms@.len(),
                idfs.wf(),
                idfs.keys() == distinct(all.take(i as int)),
                forall|k: int|
                    0 <= k < idfs.keys().len() ==> (#[trigger] idfs.values()[k])@ == self.idf_of(
                        idfs.keys()[k],
                    ),
            decreases terms@.len() - i,
        {
            proof {
                assert(all.take(i + 1).drop_last() == all.take(i as int));
            }
            let term = &terms[i];
            if !idfs.contains_key(term.as_str()) {
                let idf = self.compute_idf_term(term.as_str());
                idfs.push_new(term.clone(), idf);
            }
            i += 1;
        }
        proof {
            assert(all.take(i as int) == all);
            lemma_distinct(all);
            assert forall|t: Seq<char>| all.contains(t) implies idfs.contains(t) && idfs.value_of(
                t,
            )@ == self.idf_of(t) by {
                assert(distinct(all).contains(t));
                let k = idfs.keys().index_of(t);
                assert(idfs.keys()[k] == t);
            }
        }
        idfs
    }

    /// The weight of `term` in the document at position `doc`.
    pub fn compute_tf_idf_term(&self, doc: usize, term: &str, idf: Ratio) -> (r: Weight)
        requires
            self.wf(),
            doc < self.doc_count(),
        ensures
            r@ == (ExactWeight {
                tf: Fraction {
                    num: self.tfs()[doc as int].count(term@),
                    den: self.tfs()[doc as int].total(),
                },
                idf: idf@,
            }),
            r.idf == idf,
    {
        let tf = self.documents.value_at(doc).frequency(term);
        Weight { tf, idf }
    }

    /// The TF-IDF vector of the document at position `doc` over the terms
    /// `terms` of a query, with the inverse document frequencies taken from
    /// `idfs`, which has to hold every one of the terms, as
    /// `compute_idfs_query` gives them.
    pub fn compute_tf_idf_query_doc(
        &self,
        doc: usize,
        terms: &Vec<String>,
        idfs: &StringMap<Ratio>,
    ) -> (r: Vec<Weight>)
        requires
            self.wf(),
            doc < self.doc_count(),
            idfs.wf(),
            forall|t: Seq<char>| views(terms@).contains(t) ==> idfs.contains(t),
        ensures
            r@.len() == views(terms@).len(),
            forall|i: int|
                0 <= i < r@.len() ==> (#[trigger] r@[i])@ == (ExactWeight {
                    tf: Fraction {
                        num: self.tfs()[doc as int].count(views(terms@)[i]),
                        den: self.tfs()[doc as int].total(),
                    },
                    idf: idfs.value_of(views(terms@)[i])@,
                }),
    {
        let ghost q = views(terms@);
        let mut v: Vec<Weight> = Vec::new();
        let mut i: usize = 0;
        while i < terms.len()
            invariant
                self.wf(),
                doc < self.doc_count(),
                idfs.wf(),
                q == views(terms@),
                forall|t: Seq<char>| q.contains(t) ==> idfs.contains(t),
                i <= terms@.len(),
                v@.len() == i,
                forall|k: int|
                    0 <= k < i ==> (#[trigger] v@[k])@ == (ExactWeight {
                        tf: Fraction {
                            num: self.tfs()[doc as int].count(q[k]),
                            den: self.tfs()[doc as int].total(),
                        },
                        idf: idfs.value_of(q[k])@,
                    }),
            decreases terms@.len() - i,
        {
            let term = &terms[i];
            assert(q[i as int] == term@);
            assert(q.contains(term@));
            let idf = *idfs.get(term.as_str()).unwrap();
            let w = self.compute_tf_idf_term(doc, term.as_str(), idf);
            v.push(w);
            i += 1;
        }
        v
    }

    /// The TF-IDF vector of a query with the terms `terms`, with the inverse
    /// document frequencies taken from `idfs`, which has to hold every one
    /// of the terms, as `compute_idfs_query` gives them.
    pub fn compute_tf_idf_query(&self, terms: &Vec<String>, idfs: &StringMap<Ratio>) -> (r: Vec<
        Weight,
    >)
        requires
            self.wf(),
            idfs.wf(),
            forall|t: Seq<char>| views(terms@).contains(t) ==> idfs.contains(t),
        ensures
            r@.len() == views(terms@).len(),
            forall|i: int|
                0 <= i < r@.len() ==> (#[trigger] r@[i])@ == (ExactWeight {
                    tf: Fraction {
                        num: occurrences(views(terms@), views(terms@)[i]),
                        den: views(terms@).len(),
                    },
                    idf: idfs.value_of(views(terms@)[i])@,
                }),
    {
        let tfs = TermFreqs::from_terms(terms);
        let ghost q = views(terms@);
        let mut v: Vec<Weight> = Vec::new();
        let mut i: usize = 0;
        while i < terms.len()
            invariant
                idfs.wf(),
                tfs.counts_of(q),
                q == views(terms@),
                forall|t: Seq<char>| q.contains(t) ==> idfs.contains(t),
                i <= terms@.len(),
                v@.len() == i,
                forall|k: int|
                    0 <= k < i ==> (#[trigger] v@[k])@ == (ExactWeight {
                        tf: Fraction { num: occurrences(q, q[k]), den: q.len() },
                        idf: idfs.value_of(q[k])@,
                    }),
            decreases terms@.len() - i,
        {
            let term = &terms[i];
            assert(q[i as int] == term@);
            assert(q.contains(term@));
            let tf = tfs.frequency(term.as_str());
            let idf = *idfs.get(term.as_str()).unwrap();
            v.push(Weight { tf, idf });
            i += 1;
        }
        v
    }

    /// What is needed to rank the documents against `query`: the query's
    /// TF-IDF vector, and for each document that shares a term of weight
    /// with the query, in index order, the document's vector. Documents
    /// whose vector is zero throughout have no cosine with the query and are
    /// left out.
    pub fn get_docs_for_query(&self, query: &str) -> (r: Scoring)
        requires
            self.wf(),
        ensures
            r.query@.len() == tokens(query@).len(),
            exact(r.query@) == self.query_vector(tokens(query@)),
            r.candidates@.len() == self.scorable(tokens(query@), self.doc_count() as int).len(),
            forall|k: int|
                0 <= k < r.candidates@.len() ==> {
                    let d = self.scorable(tokens(query@), self.doc_count() as int)[k];
                    &&& (#[trigger] r.candidates@[k]).doc@ == self.doc_ids()[d]
                    &&& r.candidates@[k].weights@.len() == tokens(query@).len()
                    &&& exact(r.candidates@[k].weights@) == self.doc_vector(d, tokens(query@))
                },
    {
        let terms = tokenize(query);
        self.score_terms(&terms)
    }

    /// What is needed to rank the documents against a query with the terms
    /// `terms`: the query's TF-IDF vector, one weight for each term, and for
    /// each document that shares a term of weight with the query, in index
    /// order, the document's vector over the same terms.
    pub fn score_terms(&self, terms: &Vec<String>) -> (r: Scoring)
        requires
            self.wf(),
        ensures
            r.query@.len() == terms@.len(),
            exact(r.query@) == self.query_vector(views(terms@)),
            r.candidates@.len() == self.scorable(views(terms@), self.doc_count() as int).len(),
            forall|k: int|
                0 <= k < r.candidates@.len() ==> {
                    let d = self.scorable(views(terms@), self.doc_count() as int)[k];
                    &&& (#[trigger] r.candidates@[k]).doc@ == self.doc_ids()[d]
                    &&& r.candidates@[k].weights@.len() == terms@.len()
                    &&& exact(r.candidates@[k].weights@) == self.doc_vector(d, views(terms@))
                },
    {
        let ghost q = views(terms@);
        let idfs = self.compute_idfs_query(terms);
        let tf_idf_query = self.compute_tf_idf_query(terms, &idfs);
        assert(exact(tf_idf_query@) =~= self.query_vector(q)) by {
            assert forall|i: int| 0 <= i < q.len() implies exact(tf_idf_query@)[i]
                == self.query_weight(q, i) by {
                assert(q.contains(q[i]));
            }
        }
        let mut candidates: Vec<Candidate> = Vec::new();
        let n = self.documents.len();
        let mut d: usize = 0;
        while d < n
            invariant
                self.wf(),
                n == self.doc_count(),
                d <= n,
                q == views(terms@),
                idfs.wf(),
                forall|t: Seq<char>|
                    q.contains(t) ==> idfs.contains(t) && idfs.value_of(t)@ == self.idf_of(t),
                candidates@.len() == self.scorable(q, d as int).len(),
                forall|k: int|
                    0 <= k < candidates@.len() ==> {
                        let e = self.scorable(q, d as int)[k];
                        &&& (#[trigger] candidates@[k]).doc@ == self.doc_ids()[e]
                        &&& candidates@[k].weights@.len() == terms@.len()
                        &&& exact(candidates@[k].weights@) == self.doc_vector(e, q)
                    },
            decreases n - d,
        {
            let tf_idf = self.compute_tf_idf_query_doc(d, terms, &idfs);
            proof {
                assert(exact(tf_idf@) =~= self.doc_vector(d as int, q));
            }
            if any_positive(&tf_idf) {
                let doc = self.documents.key_at(d).clone();
                candidates.push(Candidate { doc, weights: tf_idf });
            }
            d += 1;
        }
        Scoring { query: tf_idf_query, candidates }
    }
}

impl Indexer {
    /// `stored` holds the documents of this index, in its order, each with
    /// its terms and their counts.
    pub open spec fn stored_as(&self, stored: Seq<StoredDocument>) -> bool {
        &&& stored_ids(stored) == self.doc_ids()
        &&& stored.len() == self.tfs().len()
        &&& forall|i: int|
            0 <= i < stored.len() ==> {
                &&& pair_terms((#[trigger] stored[i]).terms@) == self.tfs()[i].terms()
                &&& pair_counts(stored[i].terms@) == self.tfs()[i].counts()
            }
    }

    /// The documents of the index as plain values, from which
    /// `from_documents` makes the index again.
    pub fn to_documents(&self) -> (r: Vec<StoredDocument>)
        requires
            self.wf(),
        ensures
            self.stored_as(r@),
            valid_stored(r@),
    {
        proof {
            self.lemma_wf();
        }
        let mut stored: Vec<StoredDocument> = Vec::new();
        let mut i: usize = 0;
        while i < self.documents.len()
            invariant
                self.wf(),
                i <= self.doc_ids().len(),
                self.doc_ids().len() == self.tfs().len(),
                stored@.len() == i,
                forall|k: int|
                    0 <= k < i ==> {
                        &&& (#[trigger] stored@[k]).id@ == self.doc_ids()[k]
                        &&& pair_terms(stored@[k].terms@) == self.tfs()[k].terms()
                        &&& pair_counts(stored@[k].terms@) == self.tfs()[k].counts()
                        &&& valid_counts(stored@[k].terms@)
                    },
            decreases self.doc_ids().len() - i,
        {
            let id = self.documents.key_at(i).clone();
            let terms = self.documents.value_at(i).to_counts();
            stored.push(StoredDocument { id, terms });
            i += 1;
        }
        assert(stored_ids(stored@) == self.doc_ids());
        stored
    }

    /// The index of the documents `stored`, in their order, where they are
    /// such that an index can be made of them.
    pub fn from_documents(stored: &Vec<StoredDocument>) -> (r: Option<Self>)
        ensures
            match r {
                Some(ix) => valid_stored(stored@) && ix.wf() && ix.stored_as(stored@),
                None => !valid_stored(stored@),
            },
    {
        let mut ix = Indexer::new();
        let mut i: usize = 0;
        let ghost ids = stored_ids(stored@);
        assert(ids.take(0) == Seq::<Seq<char>>::empty());
        while i < stored.len()
            invariant
                ids == stored_ids(stored@),
                i <= stored@.len(),
                ix.wf(),
                ix.doc_ids() == ids.take(i as int),
                ix.tfs().len() == i,
                forall|k: int|
                    0 <= k < i ==> {
                        &&& valid_counts((#[trigger] stored@[k]).terms@)
                        &&& pair_terms(stored@[k].terms@) == ix.tfs()[k].terms()
                        &&& pair_counts(stored@[k].terms@) == ix.tfs()[k].counts()
                    },
            decreases stored@.len() - i,
        {
            let tfs = match TermFreqs::from_counts(&stored[i].terms) {
                Some(tfs) => tfs,
                None => {
                    return None;
                },
            };
            proof {
                ix.lemma_wf();
            }
            if !ix.add_document(stored[i].id.clone(), tfs) {
                proof {
                    let k = choose|k: int|
                        0 <= k < ids.take(i as int).len() && ids.take(i as int)[k] == ids[i as int];
                    assert(ids[k] == ids[i as int]);
                }
                return None;
            }
            i += 1;
            proof {
                assert(ix.doc_ids() == ids.take(i as int));
            }
        }
        proof {
            assert(ids.take(i as int) == ids);
            ix.lemma_wf();
        }
        Some(ix)
    }

    /// Two indexes of the same documents give every query the same
    /// vectors and find the same documents scorable: this is what keeping
    /// an index as `to_documents` gives it and making it again with
    /// `from_documents` preserves.
    pub proof fn lemma_same_documents_same_scoring(
        &self,
        other: Indexer,
        stored: Seq<StoredDocument>,
        q: Seq<Seq<char>>,
    )
        requires
            self.wf(),
            other.wf(),
            self.stored_as(stored),
            other.stored_as(stored),
        ensures
            other.doc_ids() == self.doc_ids(),
            other.query_vector(q) == self.query_vector(q),
            forall|d: int|
                0 <= d < self.doc_count() ==> #[trigger] other.doc_vector(d, q) == self.doc_vector(
                    d,
                    q,
                ),
            forall|upto: int|
                0 <= upto <= self.doc_count() ==> #[trigger] other.scorable(q, upto)
                    == self.scorable(q, upto),
    {
        self.lemma_wf();
        other.lemma_wf();
        let n = self.doc_count() as int;
        assert forall|d: int, t: Seq<char>| 0 <= d < n implies {
            &&& self.tfs()[d].count(t) == other.tfs()[d].count(t)
            &&& self.tfs()[d].total() == other.tfs()[d].total()
            &&& self.tfs()[d].contains(t) == other.tfs()[d].contains(t)
        } by {
            assert(pair_terms(stored[d].terms@) == self.tfs()[d].terms());
            assert(pair_terms(stored[d].terms@) == other.tfs()[d].terms());
            self.tfs()[d].lemma_wf();
            other.tfs()[d].lemma_wf();
        }
        assert forall|t: Seq<char>| self.df(t) == other.df(t) by {
            lemma_holders_agree(self.tfs(), other.tfs(), t);
        }
        assert(other.query_vector(q) =~= self.query_vector(q));
        assert forall|d: int| 0 <= d < n implies #[trigger] other.doc_vector(d, q)
            == self.doc_vector(d, q) by {
            assert(other.doc_vector(d, q) =~= self.doc_vector(d, q));
        }
        assert forall|upto: int| 0 <= upto <= n implies #[trigger] other.scorable(q, upto)
            == self.scorable(q, upto) by {
            self.lemma_scorable_agrees(other, q, upto);
        }
    }

    proof fn lemma_scorable_agrees(&self, other: Indexer, q: Seq<Seq<char>>, upto: int)
        requires
            forall|d: int|
                0 <= d < upto ==> #[trigger] other.doc_vector(d, q) == self.doc_vector(d, q),
        ensures
            other.scorable(q, upto) == self.scorable(q, upto),
        decreases upto,
    {
        if upto > 0 {
            self.lemma_scorable_agrees(other, q, upto - 1);
        }
    }

    /// `scorable` lists, in ascending order, exactly the documents below
    /// `upto` whose vector for `q` has a coordinate above zero.
    pub proof fn lemma_scorable(&self, q: Seq<Seq<char>>, upto: int)
        ensures
            forall|k: int|
                0 <= k < self.scorable(q, upto).len() ==> {
                    &&& 0 <= (#[trigger] self.scorable(q, upto)[k]) < upto
                    &&& has_positive(self.doc_vector(self.scorable(q, upto)[k], q))
                },
            forall|j: int, k: int|
                0 <= j < k < self.scorable(q, upto).len() ==> self.scorable(q, upto)[j]
                    < self.scorable(q, upto)[k],
            forall|d: int|
                0 <= d < upto && has_positive(self.doc_vector(d, q)) ==> self.scorable(
                    q,
                    upto,
                ).contains(d),
        decreases upto,
    {
        if upto > 0 {
            self.lemma_scorable(q, upto - 1);
            let below = self.scorable(q, upto - 1);
            let all = self.scorable(q, upto);
            assert forall|d: int|
                0 <= d < upto && has_positive(self.doc_vector(d, q)) implies all.contains(d) by {
                if d < upto - 1 {
                    assert(below.contains(d));
                    let k = choose|k: int| 0 <= k < below.len() && below[k] == d;
                    assert(all[k] == d);
                } else {
                    assert(all == below.push(d));
                    assert(all[all.len() - 1] == d);
                }
            }
        }
    }

    /// Every weight of a query vector or a document vector stands for a
    /// number that is defined and not negative.
    pub proof fn lemma_weights_sound(&self, q: Seq<Seq<char>>, d: int, i: int)
        requires
            self.wf(),
            0 <= d < self.doc_count(),
            0 <= i < q.len(),
        ensures
            self.query_weight(q, i).is_sound(),
            self.doc_weight(d, q, i).is_sound(),
    {
        self.lemma_wf();
        lemma_occurrences_bound(q, q[i]);
        let tfs = self.tfs()[d];
        assert(tfs.wf());
        tfs.lemma_wf();
        tfs.lemma_count_bound(q[i]);
        assert(self.df(q[i]) <= self.doc_count());
    }

    /// A document that is scorable has a cosine with the query: where its
    /// vector has a coordinate above zero, the query's vector has one too.
    pub proof fn lemma_scorable_has_cosine(&self, q: Seq<Seq<char>>, d: int)
        requires
            self.wf(),
            0 <= d < self.doc_count(),
            has_positive(self.doc_vector(d, q)),
        ensures
            has_positive(self.query_vector(q)),
    {
        let v = self.doc_vector(d, q);
        let i = choose|i: int| 0 <= i < v.len() && (#[trigger] v[i]).is_positive();
        lemma_distinct(q);
        assert(q.contains(q[i]));
        lemma_occurrences_bound(q, q[i]);
        assert(self.query_vector(q)[i].is_positive());
    }

    /// A document without any term of the query is not scorable.
    pub proof fn lemma_no_shared_term(&self, q: Seq<Seq<char>>, d: int)
        requires
            self.wf(),
            0 <= d < self.doc_count(),
            forall|i: int| 0 <= i < q.len() ==> !self.tfs()[d].contains(#[trigger] q[i]),
        ensures
            !has_positive(self.doc_vector(d, q)),
    {
        self.lemma_wf();
        let tfs = self.tfs()[d];
        assert(tfs.wf());
        tfs.lemma_wf();
        assert forall|i: int| 0 <= i < q.len() implies !(#[trigger] self.doc_vector(
            d,
            q,
        )[i]).is_positive() by {
            assert(!tfs.contains(q[i]));
            assert(tfs.count(q[i]) == 0);
        }
    }

    /// A document whose terms are those of the query has the query's own
    /// vector.
    pub proof fn lemma_same_text_same_vector(&self, q: Seq<Seq<char>>, d: int)
        requires
            self.wf(),
            0 <= d < self.doc_count(),
            self.tfs()[d].counts_of(q),
        ensures
            self.doc_vector(d, q) == self.query_vector(q),
    {
        assert(self.doc_vector(d, q) =~= self.query_vector(q));
    }

    /// A query without terms has no scorable document.
    pub proof fn lemma_empty_query(&self, upto: int)
        ensures
            self.scorable(Seq::empty(), upto).len() == 0,
        decreases upto,
    {
        if upto > 0 {
            self.lemma_empty_query(upto - 1);
        }
    }
}

/// Tables that hold the same terms, one by one, give every term the same
/// number of holders.
pub proof fn lemma_holders_agree(a: Seq<TermFreqs>, b: Seq<TermFreqs>, t: Seq<char>)
    requires
        a.len() == b.len(),
        forall|i: int| 0 <= i < a.len() ==> (#[trigger] a[i]).contains(t) == b[i].contains(t),
    ensures
        holders(a, t) == holders(b, t),
    decreases a.len(),
{
    if a.len() > 0 {
        lemma_holders_agree(a.drop_last(), b.drop_last(), t);
    }
}

/// A sequence with one more element holds what it held before, and that
/// element.
pub proof fn lemma_push_contains<A>(s: Seq<A>, a: A)
    ensures
        forall|x: A| #[trigger] s.push(a).contains(x) <==> (s.contains(x) || x == a),
{
    assert forall|x: A| #[trigger] s.push(a).contains(x) <==> (s.contains(x) || x == a) by {
        if s.push(a).contains(x) {
            let i = choose|i: int| 0 <= i < s.push(a).len() && s.push(a)[i] == x;
            if i < s.len() {
                assert(s[i] == x);
            }
        }
        if s.contains(x) {
            let i = choose|i: int| 0 <= i < s.len() && s[i] == x;
            assert(s.push(a)[i] == x);
        }
        if x == a {
            assert(s.push(a)[s.len() as int] == x);
        }
    }
}

} // verus!
