//! Arithmetic functions.
pub mod basic;

pub use basic::{add, divide, gcd, is_prime, lcm, multiply, power, subtract};
