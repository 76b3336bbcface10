//! Basic arithmetic on integers.
use vstd::prelude::*;
use crate::arith;

verus! {

/// `a + b`; the sum must fit in an `i64`.
pub fn add(a: i64, b: i64) -> (r: i64)
    requires
        i64::MIN <= a + b <= i64::MAX,
    ensures
        r == a + b,
{
    a + b
}

/// `a - b`; the difference must fit in an `i64`.
pub fn subtract(a: i64, b: i64) -> (r: i64)
    requires
        i64::MIN <= a - b <= i64::MAX,
    ensures
        r == a - b,
{
    a - b
}

/// `a * b`; the product must fit in an `i64`.
pub fn multiply(a: i64, b: i64) -> (r: i64)
    requires
        i64::MIN <= a * b <= i64::MAX,
    ensures
        r == a * b,
{
    a * b
}

/// `a / b` rounded toward zero, or `None` when `b` is zero.
pub fn divide(a: i64, b: i64) -> (r: Option<i64>)
    requires
        !(a == i64::MIN && b == -1),
    ensures
        b == 0 ==> r is None,
        b != 0 ==> r == Some(arith::trunc_div(a as int, b as int) as i64),
{
    if b == 0 {
        None
    } else {
        Some(arith::i64_div(a, b))
    }
}

/// `base` to the power `exp`; the power must fit in an `i64`.
pub fn power(base: i64, exp: u32) -> (r: i64)
    requires
        i64::MIN <= arith::power(base as int, exp as nat) <= i64::MAX,
    ensures
        r == arith::power(base as int, exp as nat),
{
    arith::i64_pow(base, exp)
}

/// Greatest common divisor, by Euclid's algorithm.
pub fn gcd(a: u64, b: u64) -> (g: u64)
    ensures
        g == arith::gcd(a as nat, b as nat),
{
    arith::u64_gcd(a, b)
}

/// Least common multiple, computed as `a / gcd(a, b) * b`; `a` and `b` must
/// not both be zero and the result must fit in a `u64`.
pub fn lcm(a: u64, b: u64) -> (l: u64)
    requires
        a != 0 || b != 0,
        (a as nat / arith::gcd(a as nat, b as nat)) * b <= u64::MAX,
    ensures
        l == (a as nat / arith::gcd(a as nat, b as nat)) * b,
{
    let g = arith::u64_gcd(a, b);
    proof {
        arith::lemma_gcd_positive(a as nat, b as nat);
    }
    a / g * b
}

/// Whether `n` is prime.
pub fn is_prime(n: u64) -> (b: bool)
    ensures
        b == arith::is_prime(n as int),
{
    arith::u64_is_prime(n)
}

} // verus!
