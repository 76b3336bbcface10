//! Closures and functional style: a data pipeline, function combinators,
//! stateful counters and hand-written iterators.
pub mod pipeline;
pub mod combinators;
pub mod iterators;
