//! Ranked retrieval core of a small full-text search engine.
//!
//! Given a universe of candidate document ids, an ordered pipeline of ranking
//! rules, a pagination window and an optional distinct field, the bucket-sort
//! driver produces an ordered page of document ids together with one score
//! vector per returned document and the superset of all candidates seen.

pub mod bitmap;
pub mod order;
pub mod score;
pub mod context;
pub mod distinct;
pub mod ranking_rules;
pub mod bucket_sort;
pub mod interner;
pub mod words;
