//! A small full-text search engine core: tokenization with stemming,
//! term- and document-frequency accounting, and the ranking of documents
//! against a free-text query by TF-IDF and cosine similarity.
//!
//! Everything here works on exact values. A term frequency is a count over
//! a total, an inverse document frequency is the ratio whose logarithm it
//! is, and a score is an integer that orders as the similarity does. The
//! logarithms, the square roots and the divisions of the cosine are left to
//! the caller, who gets from [`indexer::Indexer::get_docs_for_query`] the
//! vectors to compute with and hands the scores to [`ranking::rank_scored`].
//!
//! Nothing here touches the file system either. [`walker::index_dir`] is one
//! step of a walk over a directory tree: the caller lists directories and
//! reads files, and is told what to do with each entry.

pub mod indexer;
pub mod lexer;
pub mod parsing;
pub mod ranking;
pub mod string_map;
pub mod terms;
pub mod text;
pub mod walker;
