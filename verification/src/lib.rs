//! Text reuse detection between two lemmatized books.
//!
//! The pipeline slices each book's flat lemma stream into overlapping
//! windows, filters the quadratic window-pair space by shared shingles,
//! runs a Smith-Waterman local alignment over candidate pairs, converts
//! accepted alignments into edges with absolute coordinates, and merges
//! overlapping edges into maximal spans.
//!
//! All similarity ratios are carried as per-mille integers (a value of
//! 1000 stands for a ratio of 1.0), so that every metric stays in exact
//! integer arithmetic.

pub mod align;
pub mod compare;
pub mod db;
pub mod extract;
pub mod filter;
pub mod merge;
pub mod models;
pub mod output;
pub mod window;
