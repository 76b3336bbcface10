//! Calculator functions with complete test coverage.
use vstd::prelude::*;
use crate::arith;

verus! {

/// `a + b`; the sum must fit in an `i64`.
pub fn add(a: i64, b: i64) -> (r: i64)
    requires
        i64::MIN <= a + b <= i64::MAX,
    ensures
        r == a + b,
{
    a + b
}

/// `a - b`; the difference must fit in an `i64`.
pub fn subtract(a: i64, b: i64) -> (r: i64)
    requires
        i64::MIN <= a - b <= i64::MAX,
    ensures
        r == a - b,
{
    a - b
}

/// `a * b`; the product must fit in an `i64`.
pub fn multiply(a: i64, b: i64) -> (r: i64)
    requires
        i64::MIN <= a * b <= i64::MAX,
    ensures
        r == a * b,
{
    a * b
}

/// `a / b` rounded toward zero, or `None` when `b` is zero.
pub fn divide(a: i64, b: i64) -> (r: Option<i64>)
    requires
        !(a == i64::MIN && b == -1),
    ensures
        b == 0 ==> r is None,
        b != 0 ==> r == Some(arith::trunc_div(a as int, b as int) as i64),
{
    if b == 0 {
        None
    } else {
        Some(arith::i64_div(a, b))
    }
}

/// `n!`.
pub open spec fn fact(n: nat) -> nat
    decreases n,
{
    if n <= 1 {
        1
    } else {
        n * fact((n - 1) as nat)
    }
}

/// The factorial: `0! == 1! == 1` and `(n + 1)! == (n + 1) * n!`.
pub proof fn law_fact(n: nat)
    ensures
        fact(0) == 1,
        fact(1) == 1,
        fact(n + 1) == (n + 1) * fact(n),
{
    if n == 0 {
        assert(fact(1) == 1);
    }
}

proof fn lemma_fact_mono(n: nat)
    requires
        n <= 20,
    ensures
        fact(n) <= fact(20),
    decreases 20 - n,
{
    if n < 20 {
        lemma_fact_mono(n + 1);
        if n == 0 {
            assert(fact(1) == 1 && fact(0) == 1);
        } else {
            assert((((n + 1) as nat) - 1) as nat == n);
            assert(fact(n + 1) == (n + 1) * fact(n));
            assert(fact(n) <= (n + 1) * fact(n)) by (nonlinear_arith);
        }
    }
}

proof fn lemma_fact_bound(n: nat)
    requires
        n <= 20,
    ensures
        fact(n) <= 2432902008176640000,
{
    assert(fact(1) == 1);
    assert(fact(2) == 2);
    assert(fact(3) == 6);
    assert(fact(4) == 24);
    assert(fact(5) == 120);
    assert(fact(6) == 720);
    assert(fact(7) == 5040);
    assert(fact(8) == 40320);
    assert(fact(9) == 362880);
    assert(fact(10) == 3628800);
    assert(fact(11) == 39916800);
    assert(fact(12) == 479001600);
    assert(fact(13) == 6227020800);
    assert(fact(14) == 87178291200);
    assert(fact(15) == 1307674368000);
    assert(fact(16) == 20922789888000);
    assert(fact(17) == 355687428096000);
    assert(fact(18) == 6402373705728000);
    assert(fact(19) == 121645100408832000);
    assert(fact(20) == 2432902008176640000);
    lemma_fact_mono(n);
}

/// `n!` for `n <= 20` (larger inputs would overflow a `u64`).
pub fn factorial(n: u32) -> (r: u64)
    requires
        n <= 20,
    ensures
        r == fact(n as nat),
    decreases n,
{
    if n <= 1 {
        1
    } else {
        let f = factorial(n - 1);
        proof {
            lemma_fact_bound(n as nat);
        }
        n as u64 * f
    }
}

/// `base` to the power `exp`; the power must fit in an `i64`.
pub fn power(base: i64, exp: u32) -> (r: i64)
    requires
        i64::MIN <= arith::power(base as int, exp as nat) <= i64::MAX,
    ensures
        r == arith::power(base as int, exp as nat),
{
    arith::i64_pow(base, exp)
}

/// The integer part of the square root of `n`; always `Some`.
pub fn sqrt(n: u64) -> (r: Option<u64>)
    ensures
        r matches Some(s) && arith::is_isqrt(n as int, s as int),
{
    if n == 0 {
        return Some(0);
    }
    Some(arith::u64_isqrt(n))
}

/// Addition is commutative: `add(a, b) == add(b, a)` whenever either is defined.
pub proof fn law_add_commutative(a: i64, b: i64)
    ensures
        a + b == b + a,
{
}

/// Multiplication is commutative: `multiply(a, b) == multiply(b, a)`.
pub proof fn law_multiply_commutative(a: i64, b: i64)
    ensures
        a * b == b * a,
{
    assert(a * b == b * a) by (nonlinear_arith);
}

/// Addition is associative: `add(add(a, b), c) == add(a, add(b, c))`.
pub proof fn law_add_associative(a: i64, b: i64, c: i64)
    ensures
        (a + b) + c == a + (b + c),
{
}

} // verus!
