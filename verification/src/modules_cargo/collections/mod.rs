//! Collection types.
pub mod stack;


