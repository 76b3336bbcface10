//! The safe side of foreign-function and raw-pointer code: the C library
//! functions that are wrapped, stated and computed in safe Rust, the
//! functions exported to C, and a swap without pointers.
pub mod ffi;
pub mod raw_pointers;
