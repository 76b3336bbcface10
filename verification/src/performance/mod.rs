//! Pairs of implementations of the same computation, a slower and a faster
//! one, each verified against the same specification.
pub mod algorithms;
pub mod iterators;
