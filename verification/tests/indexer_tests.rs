use tfidf_search::indexer::{Indexer, Scoring, StoredDocument, Weight};
use tfidf_search::lexer::tokenize;
use tfidf_search::ranking::rank_scored;
use tfidf_search::terms::{compute_tfs, Ratio};
use tfidf_search::walker::index_content;

fn corpus(docs: &[(&str, &str)]) -> Indexer {
    let mut ix = Indexer::new();
    for (id, text) in docs {
        assert!(index_content(id, text, &mut ix));
    }
    ix
}

fn terms(list: &[&str]) -> Vec<String> {
    list.iter().map(|t| t.to_string()).collect()
}

fn ratio(r: Ratio) -> f32 {
    if r.num == 0 {
        0.0
    } else {
        r.num as f32 / r.den as f32
    }
}

fn value(w: &Weight) -> f32 {
    ratio(w.tf) * (w.idf.num as f32 / w.idf.den as f32).log10()
}

fn dot(a: &[f32], b: &[f32]) -> f32 {
    a.iter().zip(b.iter()).map(|(a, b)| a * b).sum()
}

fn cos_sim(a: &[f32], b: &[f32]) -> f32 {
    dot(a, b) / (dot(a, a).sqrt() * dot(b, b).sqrt())
}

fn score(ix: &Indexer, query: &str) -> Vec<(String, f32)> {
    let Scoring { query, candidates } = ix.get_docs_for_query(query);
    let q: Vec<f32> = query.iter().map(value).collect();
    let mut scored = Vec::new();
    for c in candidates {
        let d: Vec<f32> = c.weights.iter().map(value).collect();
        let s = cos_sim(&d, &q);
        scored.push((c.doc, if s.is_nan() { None } else { Some(s.to_bits()) }));
    }
    rank_scored(scored).into_iter().map(|r| (r.doc, f32::from_bits(r.score))).collect()
}

fn ids(results: &[(String, f32)]) -> Vec<String> {
    results.iter().map(|(d, _)| d.clone()).collect()
}

fn w(tf: (u128, u128), idf: (u128, u128)) -> Weight {
    Weight { tf: Ratio { num: tf.0, den: tf.1 }, idf: Ratio { num: idf.0, den: idf.1 } }
}

#[test]
fn default_index_is_empty() {
    let ix = Indexer::default();
    assert_eq!(ix.len(), 0);
    assert!(ix.get_docs_for_query("dog").candidates.is_empty());
}

#[test]
fn new_index_is_empty() {
    let ix = Indexer::new();
    assert_eq!(ix.len(), 0);
    assert!(!ix.contains("a"));
    assert_eq!(ix.document_frequency("dog"), 0);
    assert!(ix.to_documents().is_empty());
}

#[test]
fn documents_are_kept_in_the_order_indexed() {
    let ix = corpus(&[("b.txt", "cat dog dog"), ("a.txt", "dog dog dog")]);
    assert_eq!(ix.len(), 2);
    assert_eq!(ix.doc_id_at(0), "b.txt");
    assert_eq!(ix.doc_id_at(1), "a.txt");
    assert!(ix.contains("a.txt"));
    assert!(!ix.contains("c.txt"));
    assert_eq!(ix.tfs_at(0).count_of("dog"), 2);
    assert_eq!(ix.tfs_at(1).total_count(), 3);
}

#[test]
fn document_frequency_counts_documents_not_occurrences() {
    let ix = corpus(&[("a", "cat dog dog"), ("b", "dog dog dog"), ("c", "bird")]);
    assert_eq!(ix.document_frequency("dog"), 2);
    assert_eq!(ix.document_frequency("cat"), 1);
    assert_eq!(ix.document_frequency("bird"), 1);
    assert_eq!(ix.document_frequency("cow"), 0);
}

#[test]
fn document_frequency_is_the_number_of_holders() {
    let ix = corpus(&[("a", "x y z x"), ("b", "y y"), ("c", ""), ("d", "z y q"), ("e", "q")]);
    for term in ["x", "y", "z", "q", "w"] {
        let mut holders = 0;
        for i in 0..ix.len() {
            if ix.tfs_at(i).count_of(term) > 0 {
                holders += 1;
            }
        }
        assert_eq!(ix.document_frequency(term), holders);
    }
}

#[test]
fn an_identifier_that_is_there_keeps_its_document() {
    let mut ix = corpus(&[("a", "cat dog")]);
    assert!(!ix.add_document("a".to_string(), compute_tfs("bird bird")));
    assert!(!index_content("a", "bird", &mut ix));
    assert_eq!(ix.len(), 1);
    assert_eq!(ix.document_frequency("bird"), 0);
    assert_eq!(ix.document_frequency("cat"), 1);
    assert_eq!(ix.tfs_at(0).count_of("cat"), 1);
}

#[test]
fn idf_is_documents_plus_one_over_holders_plus_one() {
    let ix = corpus(&[("a", "cat dog dog"), ("b", "dog dog dog"), ("c", "bird")]);
    assert_eq!(ix.compute_idf_term("dog"), Ratio { num: 4, den: 3 });
    assert_eq!(ix.compute_idf_term("cat"), Ratio { num: 4, den: 2 });
    assert_eq!(ix.compute_idf_term("cow"), Ratio { num: 4, den: 1 });
    assert_eq!(Indexer::new().compute_idf_term("dog"), Ratio { num: 1, den: 1 });
}

#[test]
fn idfs_of_a_query_list_each_distinct_term_once() {
    let ix = corpus(&[("a", "cat dog dog"), ("b", "dog dog dog"), ("c", "bird")]);
    let idfs = ix.compute_idfs_query(&tokenize("dog cat dogs cow"));
    assert_eq!(idfs.len(), 3);
    assert_eq!(idfs.key_at(0), "dog");
    assert_eq!(idfs.key_at(1), "cat");
    assert_eq!(idfs.key_at(2), "cow");
    assert_eq!(idfs.get("dog"), Some(&Ratio { num: 4, den: 3 }));
    assert_eq!(idfs.get("cow"), Some(&Ratio { num: 4, den: 1 }));
}

#[test]
fn the_weight_of_a_term_is_its_frequency_with_the_idf() {
    let ix = corpus(&[("a", "cat dog dog"), ("b", "bird")]);
    let idf = Ratio { num: 3, den: 2 };
    assert_eq!(ix.compute_tf_idf_term(0, "dog", idf), w((2, 3), (3, 2)));
    assert_eq!(ix.compute_tf_idf_term(0, "bird", idf), w((0, 3), (3, 2)));
    assert_eq!(ix.compute_tf_idf_term(1, "bird", idf), w((1, 1), (3, 2)));
}

#[test]
fn query_vector_has_one_weight_for_each_term_repeated_ones_included() {
    let ix = corpus(&[("a", "cat dog dog"), ("b", "dog dog dog"), ("c", "bird")]);
    let query = terms(&["dog", "cat", "dog"]);
    let idfs = ix.compute_idfs_query(&query);
    let q = ix.compute_tf_idf_query(&query, &idfs);
    assert_eq!(q, vec![w((2, 3), (4, 3)), w((1, 3), (4, 2)), w((2, 3), (4, 3))]);
    let d = ix.compute_tf_idf_query_doc(0, &query, &idfs);
    assert_eq!(d, vec![w((2, 3), (4, 3)), w((1, 3), (4, 2)), w((2, 3), (4, 3))]);
    let d = ix.compute_tf_idf_query_doc(1, &query, &idfs);
    assert_eq!(d, vec![w((3, 3), (4, 3)), w((0, 3), (4, 2)), w((3, 3), (4, 3))]);
}

#[test]
fn get_docs_for_query_gives_the_vectors_of_the_scorable_documents() {
    let ix = corpus(&[("a", "cat dog dog"), ("b", "dog dog dog"), ("c", "bird")]);
    let scoring = ix.get_docs_for_query("dog");
    assert_eq!(scoring.query, vec![w((1, 1), (4, 3))]);
    assert_eq!(scoring.candidates.len(), 2);
    assert_eq!(scoring.candidates[0].doc, "a");
    assert_eq!(scoring.candidates[0].weights, vec![w((2, 3), (4, 3))]);
    assert_eq!(scoring.candidates[1].doc, "b");
    assert_eq!(scoring.candidates[1].weights, vec![w((3, 3), (4, 3))]);
}

#[test]
fn a_term_that_every_document_holds_has_no_weight() {
    let ix = corpus(&[("a", "cat dog dog"), ("b", "dog dog dog")]);
    let scoring = ix.get_docs_for_query("dog");
    assert_eq!(scoring.query, vec![w((1, 1), (3, 3))]);
    assert!(scoring.candidates.is_empty());
    assert!(score(&ix, "dog").is_empty());
    assert_eq!(ids(&score(&ix, "dog cat")), vec!["a"]);
}

#[test]
fn documents_without_the_term_are_left_out() {
    let ix = corpus(&[("A", "cat dog dog"), ("B", "dog dog dog"), ("C", "bird seed")]);
    let results = score(&ix, "dog");
    let mut found = ids(&results);
    found.sort();
    assert_eq!(found, vec!["A", "B"]);
    for (_, s) in &results {
        assert!(!s.is_nan());
        assert!((s - 1.0).abs() < 1e-6);
    }
}

#[test]
fn the_document_with_more_of_the_query_ranks_first() {
    let ix = corpus(&[("A", "cat cat dog"), ("B", "dog dog cat"), ("C", "bird seed"), ("D", "cat")]);
    let results = score(&ix, "dog dog cat");
    assert_eq!(ids(&results), vec!["B", "A", "D"]);
    assert!(results[0].1 > results[1].1);
    assert!(results[1].1 > results[2].1);
}

#[test]
fn a_query_equal_to_a_document_scores_one() {
    let text = "the quick brown fox jumps over the lazy dog";
    let ix = corpus(&[("fox.txt", text), ("other.txt", "completely unrelated words 42")]);
    let scoring = ix.get_docs_for_query(text);
    assert_eq!(scoring.candidates.len(), 1);
    assert_eq!(scoring.candidates[0].weights, scoring.query);
    let results = score(&ix, text);
    assert_eq!(ids(&results), vec!["fox.txt"]);
    assert!((results[0].1 - 1.0).abs() < 1e-6);
}

#[test]
fn an_empty_query_has_no_results() {
    let ix = corpus(&[("a", "cat dog dog"), ("b", "dog dog dog"), ("c", "bird")]);
    let scoring = ix.get_docs_for_query("");
    assert!(scoring.query.is_empty());
    assert!(scoring.candidates.is_empty());
    assert!(score(&ix, "").is_empty());
    assert!(score(&ix, "   \n").is_empty());
}

#[test]
fn an_empty_corpus_has_no_results() {
    let ix = Indexer::new();
    assert!(score(&ix, "dog").is_empty());
    assert_eq!(ix.get_docs_for_query("dog dog").query, vec![w((2, 2), (1, 1)), w((2, 2), (1, 1))]);
}

#[test]
fn a_query_of_unknown_terms_has_no_results() {
    let ix = corpus(&[("a", "cat dog dog"), ("b", "dog dog dog"), ("c", "bird")]);
    let scoring = ix.get_docs_for_query("cow horse");
    assert_eq!(scoring.query, vec![w((1, 2), (4, 1)), w((1, 2), (4, 1))]);
    assert!(scoring.candidates.is_empty());
    assert!(score(&ix, "cow horse").is_empty());
}

#[test]
fn an_empty_document_is_never_scored() {
    let ix = corpus(&[("empty", ""), ("a", "cat"), ("b", "dog")]);
    assert_eq!(ix.tfs_at(0).total_count(), 0);
    assert_eq!(ids(&score(&ix, "cat dog")), vec!["a", "b"]);
}

#[test]
fn scores_lie_between_zero_and_one_and_results_are_ordered() {
    let ix = corpus(&[
        ("d1", "apple banana cherry apple"),
        ("d2", "banana banana kiwi"),
        ("d3", "cherry kiwi kiwi apple plum"),
        ("d4", "plum"),
        ("d5", "apple"),
        ("d6", "grape melon"),
    ]);
    for query in ["apple", "banana kiwi", "cherry cherry plum apple", "kiwi grape", "melon apple banana"] {
        let results = score(&ix, query);
        assert!(!results.is_empty());
        for (_, s) in &results {
            assert!(!s.is_nan());
            assert!(*s >= 0.0 && *s <= 1.0 + 1e-6);
        }
        for pair in results.windows(2) {
            assert!(pair[0].1 > pair[1].1 || (pair[0].1 == pair[1].1 && pair[0].0 < pair[1].0));
        }
    }
}

#[test]
fn stored_documents_list_terms_with_counts() {
    let ix = corpus(&[("a", "cat dog dog"), ("b", "bird")]);
    let stored = ix.to_documents();
    assert_eq!(
        stored,
        vec![
            StoredDocument { id: "a".to_string(), terms: vec![("cat".to_string(), 1), ("dog".to_string(), 2)] },
            StoredDocument { id: "b".to_string(), terms: vec![("bird".to_string(), 1)] },
        ]
    );
}

#[test]
fn an_index_made_again_from_its_documents_scores_alike() {
    let ix = corpus(&[
        ("d1", "apple banana cherry apple"),
        ("d2", "banana banana kiwi"),
        ("d3", "cherry kiwi kiwi apple plum"),
        ("d4", ""),
        ("d5", "apple"),
    ]);
    let restored = Indexer::from_documents(&ix.to_documents()).unwrap();
    assert_eq!(restored.len(), ix.len());
    assert_eq!(restored.to_documents(), ix.to_documents());
    for term in ["apple", "banana", "kiwi", "plum", "melon"] {
        assert_eq!(restored.document_frequency(term), ix.document_frequency(term));
    }
    for query in ["apple", "banana kiwi", "cherry cherry plum apple", "melon", "", "plum kiwi"] {
        let a = ix.get_docs_for_query(query);
        let b = restored.get_docs_for_query(query);
        assert_eq!(a.query, b.query);
        assert_eq!(a.candidates.len(), b.candidates.len());
        for (x, y) in a.candidates.iter().zip(b.candidates.iter()) {
            assert_eq!(x.doc, y.doc);
            assert_eq!(x.weights, y.weights);
        }
        assert_eq!(score(&ix, query), score(&restored, query));
    }
}

#[test]
fn from_documents_refuses_an_identifier_listed_twice() {
    let stored = vec![
        StoredDocument { id: "a".to_string(), terms: vec![("cat".to_string(), 1)] },
        StoredDocument { id: "a".to_string(), terms: vec![("dog".to_string(), 1)] },
    ];
    assert!(Indexer::from_documents(&stored).is_none());
}

#[test]
fn from_documents_refuses_terms_that_no_text_has() {
    let twice = vec![StoredDocument { id: "a".to_string(), terms: vec![("cat".to_string(), 1), ("cat".to_string(), 1)] }];
    assert!(Indexer::from_documents(&twice).is_none());
    let zero = vec![StoredDocument { id: "a".to_string(), terms: vec![("cat".to_string(), 0)] }];
    assert!(Indexer::from_documents(&zero).is_none());
}

#[test]
fn the_query_dog_finds_both_documents_that_hold_it() {
    let ix = corpus(&[("A", "cat dog dog"), ("B", "dog dog dog"), ("C", "cat")]);
    let scoring = ix.get_docs_for_query("dog");
    assert_eq!(scoring.query, vec![w((1, 1), (4, 3))]);
    assert_eq!(scoring.candidates.len(), 2);
    assert_eq!(scoring.candidates[0].doc, "A");
    assert_eq!(scoring.candidates[0].weights, vec![w((2, 3), (4, 3))]);
    assert_eq!(scoring.candidates[1].doc, "B");
    assert_eq!(scoring.candidates[1].weights, vec![w((3, 3), (4, 3))]);
    let results = score(&ix, "dog");
    assert_eq!(results.len(), 2);
    assert!(results.iter().all(|(doc, _)| doc != "C"));
    assert!(results.iter().all(|(_, s)| (s - 1.0).abs() < 1e-6));
}

#[test]
fn an_index_written_as_json_and_read_again_scores_alike() {
    let ix = corpus(&[
        ("docs/one.txt", "apple banana cherry apple"),
        ("docs/two.html", "banana banana kiwi"),
        ("docs/three.txt", "cherry kiwi kiwi apple plum"),
    ]);
    let plain: Vec<(String, Vec<(String, u64)>)> =
        ix.to_documents().into_iter().map(|d| (d.id, d.terms)).collect();
    let json = serde_json::to_string(&plain).unwrap();
    let read: Vec<(String, Vec<(String, u64)>)> = serde_json::from_str(&json).unwrap();
    let stored: Vec<StoredDocument> =
        read.into_iter().map(|(id, terms)| StoredDocument { id, terms }).collect();
    let restored = Indexer::from_documents(&stored).unwrap();
    for query in ["apple", "banana kiwi", "cherry cherry plum apple", "melon", "", "plum kiwi"] {
        assert_eq!(score(&ix, query), score(&restored, query));
    }
    assert_eq!(restored.to_documents(), ix.to_documents());
}

#[test]
fn score_terms_takes_the_terms_as_they_are() {
    let ix = corpus(&[("a", "cat dog dog"), ("b", "dog dog dog"), ("c", "bird")]);
    let scoring = ix.score_terms(&terms(&["dog", "cat", "dog"]));
    assert_eq!(scoring.query, vec![w((2, 3), (4, 3)), w((1, 3), (4, 2)), w((2, 3), (4, 3))]);
    assert_eq!(scoring.candidates.len(), 2);
    assert_eq!(scoring.candidates[0].doc, "a");
    assert_eq!(scoring.candidates[0].weights, vec![w((2, 3), (4, 3)), w((1, 3), (4, 2)), w((2, 3), (4, 3))]);
    assert_eq!(scoring.candidates[1].doc, "b");
    assert_eq!(scoring.candidates[1].weights, vec![w((3, 3), (4, 3)), w((0, 3), (4, 2)), w((3, 3), (4, 3))]);
    let unstemmed = ix.score_terms(&terms(&["dogs"]));
    assert_eq!(unstemmed.query, vec![w((1, 1), (4, 1))]);
    assert!(unstemmed.candidates.is_empty());
    let none = ix.score_terms(&Vec::new());
    assert!(none.query.is_empty());
    assert!(none.candidates.is_empty());
}

#[test]
fn get_docs_for_query_scores_the_terms_of_the_query() {
    let ix = corpus(&[("a", "cat dog dog"), ("b", "dog dog dog"), ("c", "bird")]);
    for query in ["dog", "Dogs, cats!", "bird dog bird", "", "cow"] {
        let by_query = ix.get_docs_for_query(query);
        let by_terms = ix.score_terms(&tokenize(query));
        assert_eq!(by_query.query, by_terms.query);
        assert_eq!(by_query.candidates.len(), by_terms.candidates.len());
        for (x, y) in by_query.candidates.iter().zip(by_terms.candidates.iter()) {
            assert_eq!(x.doc, y.doc);
            assert_eq!(x.weights, y.weights);
        }
    }
}
