//! A small library organised in modules: `math` (arithmetic), `strings`
//! (case conversion and word tools) and `collections` (a generic stack).
use vstd::prelude::*;

pub mod collections;
pub mod math;
pub mod strings;



verus! {

/// The library's version.
pub const VERSION: &'static str = "0.1.0";

/// The library's name.
pub const NAME: &'static str = "modules-cargo";

} // verus!
