//! A small library demonstrating tests and documentation: a calculator and
//! a set of input validators.
use vstd::prelude::*;

pub mod calculator;
pub mod validator;

verus! {

/// The library's version.
pub const VERSION: &'static str = "0.1.0";

} // verus!
