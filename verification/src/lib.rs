//! A collection of small, self-contained Rust lessons — calculators, text
//! analysis, generic containers, smart pointers, closures and performance
//! idioms — each written as verified code with its contract.

pub mod ownership;
pub mod text;
pub mod arith;
pub mod modules_cargo;
pub mod testing_docs;
pub mod collections_iter;
pub mod generics;
pub mod smart_pointers;
pub mod closures;
pub mod serde_config;
pub mod error_handling;
pub mod structs_traits;
pub mod performance;
pub mod unsafe_ffi;
