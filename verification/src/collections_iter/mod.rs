//! Text analysis with collections and iterators: word statistics, word
//! filters and number sequences.
pub mod analyzer;
pub mod filters;
pub mod stats;
