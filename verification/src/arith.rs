//! Integer arithmetic shared by the calculator lessons: truncating division,
//! powers, greatest common divisors, primality and integer square roots,
//! each with its mathematical definition.
use vstd::prelude::*;
use vstd::arithmetic::power::pow;

verus! {

/// Absolute value.
pub open spec fn abs(a: int) -> int {
    if a >= 0 {
        a
    } else {
        -a
    }
}

/// Division rounding toward zero, as Rust's `/` on signed integers does.
pub open spec fn trunc_div(a: int, b: int) -> int {
    if (a >= 0) == (b >= 0) {
        abs(a) / abs(b)
    } else {
        -(abs(a) / abs(b))
    }
}

/// `a / b` on `i64`, rounding toward zero.
pub fn i64_div(a: i64, b: i64) -> (q: i64)
    requires
        b != 0,
        !(a == i64::MIN && b == -1),
    ensures
        q == trunc_div(a as int, b as int),
{
    let ua: u64 = if a >= 0 {
        a as u64
    } else if a == i64::MIN {
        9223372036854775808u64
    } else {
        (-a) as u64
    };
    let ub: u64 = if b >= 0 {
        b as u64
    } else if b == i64::MIN {
        9223372036854775808u64
    } else {
        (-b) as u64
    };
    assert(ua == abs(a as int) && ub == abs(b as int));
    let uq = ua / ub;
    assert(uq <= ua) by (nonlinear_arith)
        requires
            uq == ua / ub,
            ub >= 1,
    ;
    if (a >= 0) == (b >= 0) {
        if uq > 9223372036854775807u64 {
            // only |i64::MIN| / 1 is that large, and then the signs differ
            assert(ua == 9223372036854775808u64 && ub == 1) by (nonlinear_arith)
                requires
                    uq == ua / ub,
                    ub >= 1,
                    ua <= 9223372036854775808u64,
                    uq > 9223372036854775807u64,
            ;
            assert(false);
        }
        uq as i64
    } else {
        if uq == 9223372036854775808u64 {
            i64::MIN
        } else {
            -(uq as i64)
        }
    }
}

/// `base` raised to `exp`.
pub open spec fn power(base: int, exp: nat) -> int {
    pow(base, exp)
}

proof fn lemma_pow_abs_mono(base: int, i: nat, j: nat)
    requires
        i <= j,
        abs(base) >= 1,
    ensures
        abs(pow(base, i)) <= abs(pow(base, j)),
    decreases j,
{
    vstd::arithmetic::power::lemma_pow_adds(base, i, 0);
    if i < j {
        lemma_pow_abs_mono(base, i, (j - 1) as nat);
        vstd::arithmetic::power::lemma_pow1(base);
        vstd::arithmetic::power::lemma_pow_adds(base, (j - 1) as nat, 1);
        let p = pow(base, (j - 1) as nat);
        assert(abs(p * base) == abs(p) * abs(base)) by (nonlinear_arith);
        assert(abs(p) * abs(base) >= abs(p)) by (nonlinear_arith)
            requires
                abs(base) >= 1,
        ;
    }
}

proof fn lemma_pow_unit(base: int, k: nat)
    requires
        abs(base) == 1,
    ensures
        abs(pow(base, k)) == 1,
    decreases k,
{
    if k == 0 {
        vstd::arithmetic::power::lemma_pow0(base);
    } else {
        lemma_pow_unit(base, (k - 1) as nat);
        vstd::arithmetic::power::lemma_pow1(base);
        vstd::arithmetic::power::lemma_pow_adds(base, (k - 1) as nat, 1);
        let p = pow(base, (k - 1) as nat);
        assert(abs(p * base) == abs(p) * abs(base)) by (nonlinear_arith);
    }
}

/// `base.pow(exp)` on `i64`; the power must fit, as `pow` panics otherwise.
pub fn i64_pow(base: i64, exp: u32) -> (r: i64)
    requires
        i64::MIN <= power(base as int, exp as nat) <= i64::MAX,
    ensures
        r == power(base as int, exp as nat),
{
    let mut r: i64 = 1;
    let mut i: u32 = 0;
    proof {
        vstd::arithmetic::power::lemma_pow0(base as int);
    }
    while i < exp
        invariant
            i <= exp,
            r == pow(base as int, i as nat),
            i64::MIN <= pow(base as int, exp as nat) <= i64::MAX,
        decreases exp - i,
    {
        proof {
            vstd::arithmetic::power::lemma_pow1(base as int);
            vstd::arithmetic::power::lemma_pow_adds(base as int, i as nat, 1);
            let next = pow(base as int, (i + 1) as nat);
            assert(next == r * base);
            if i + 1 < exp && abs(base as int) >= 1 {
                lemma_pow_abs_mono(base as int, (i + 2) as nat, exp as nat);
                vstd::arithmetic::power::lemma_pow_adds(base as int, (i + 1) as nat, 1);
                let after = pow(base as int, (i + 2) as nat);
                assert(after == next * base);
                assert(abs(after) == abs(next) * abs(base as int)) by (nonlinear_arith)
                    requires
                        after == next * base,
                ;
                if abs(base as int) >= 2 {
                    assert(abs(next) * 2 <= abs(after)) by (nonlinear_arith)
                        requires
                            abs(after) == abs(next) * abs(base as int),
                            abs(base as int) >= 2,
                            abs(next) >= 0,
                    ;
                } else {
                    assert(abs(next) == abs(after)) by (nonlinear_arith)
                        requires
                            abs(after) == abs(next) * abs(base as int),
                            abs(base as int) == 1,
                    ;
                }
            } else if base == 0 {
                vstd::arithmetic::power::lemma0_pow((i + 1) as nat);
            }
            assert(i64::MIN <= next <= i64::MAX) by {
                if i + 1 < exp && abs(base as int) >= 1 {
                    assert(abs(next) <= abs(pow(base as int, exp as nat)));
                    assert(abs(pow(base as int, exp as nat)) <= 0x8000_0000_0000_0000);
                    if abs(base as int) >= 2 {
                        assert(abs(next) <= 0x4000_0000_0000_0000);
                    } else {
                        lemma_pow_unit(base as int, (i + 1) as nat);
                    }
                }
            }
        }
        r = r * base;
        i = i + 1;
    }
    r
}

/// Greatest common divisor by Euclid's recurrence.
pub open spec fn gcd(a: nat, b: nat) -> nat
    decreases b,
{
    if b == 0 {
        a
    } else {
        gcd(b, a % b)
    }
}

/// The greatest common divisor is zero only when both arguments are.
pub proof fn lemma_gcd_positive(a: nat, b: nat)
    requires
        a != 0 || b != 0,
    ensures
        gcd(a, b) > 0,
    decreases b,
{
    if b != 0 {
        lemma_gcd_positive(b, a % b);
    }
}

/// The greatest common divisor divides both numbers, and every common
/// divisor of the two divides it.
pub proof fn law_gcd(a: nat, b: nat, d: nat)
    ensures
        gcd(a, b) > 0 ==> a % gcd(a, b) == 0 && b % gcd(a, b) == 0,
        d > 0 && a % d == 0 && b % d == 0 ==> gcd(a, b) % d == 0,
    decreases b,
{
    if b != 0 {
        law_gcd(b, a % b, d);
        let g = gcd(a, b);
        let q = a / b;
        let r = a % b;
        assert(a == b * q + r) by (nonlinear_arith)
            requires
                b > 0,
                q == a / b,
                r == a % b,
        ;
        if g > 0 {
            assert(a % g == 0) by (nonlinear_arith)
                requires
                    g > 0,
                    b % g == 0,
                    r % g == 0,
                    a == b * q + r,
                    q >= 0,
                    r >= 0,
            {
                let k1 = b / g;
                let k2 = r / g;
                assert(b == g * k1);
                assert(r == g * k2);
                assert(a == g * (k1 * q + k2));
            }
        }
        if d > 0 && a % d == 0 && b % d == 0 {
            assert(r % d == 0) by (nonlinear_arith)
                requires
                    d > 0,
                    a % d == 0,
                    b % d == 0,
                    a == b * q + r,
                    q >= 0,
                    r >= 0,
            {
                let k1 = a / d;
                let k2 = b / d;
                assert(a == d * k1);
                assert(b == d * k2);
                assert(r == d * (k1 - k2 * q));
            }
        }
    } else if a > 0 {
        assert(a % a == 0) by (nonlinear_arith)
            requires
                a > 0,
        ;
    }
}

/// `d` divides `n`.
pub open spec fn divides(d: nat, n: nat) -> bool {
    exists|k: nat| #[trigger] (d * k) == n
}

/// Euclid's algorithm on `u64`.
pub fn u64_gcd(a: u64, b: u64) -> (g: u64)
    ensures
        g == gcd(a as nat, b as nat),
{
    let mut x = a;
    let mut y = b;
    while y != 0
        invariant
            gcd(x as nat, y as nat) == gcd(a as nat, b as nat),
        decreases y,
    {
        let t = y;
        y = x % y;
        x = t;
    }
    x
}

/// `n` is prime: at least 2, with no divisor strictly between 1 and itself.
pub open spec fn is_prime(n: int) -> bool {
    n >= 2 && forall|d: int| 2 <= d < n ==> #[trigger] (n % d) != 0
}

proof fn lemma_small_divisor(n: int, d: int)
    requires
        2 <= d < n,
        n % d == 0,
    ensures
        exists|e: int| 2 <= e < n && #[trigger] (n % e) == 0 && e * e <= n,
{
    let q = n / d;
    assert(n == d * q) by (nonlinear_arith)
        requires
            n % d == 0,
            d > 0,
            q == n / d,
    ;
    assert(q >= 2 && q < n) by (nonlinear_arith)
        requires
            n == d * q,
            2 <= d < n,
    ;
    assert(n % q == 0) by (nonlinear_arith)
        requires
            n == d * q,
            q >= 2,
    ;
    if d * d <= n {
        assert(2 <= d < n && n % d == 0 && d * d <= n);
    } else {
        assert(q * q <= n) by (nonlinear_arith)
            requires
                n == d * q,
                d * d > n,
                q > 0,
                d > 0,
        ;
        assert(2 <= q < n && n % q == 0 && q * q <= n);
    }
}

/// Whether `n` is prime, trying 2 and then odd divisors up to its square root.
pub fn u64_is_prime(n: u64) -> (b: bool)
    ensures
        b == is_prime(n as int),
{
    if n < 2 {
        return false;
    }
    if n == 2 {
        return true;
    }
    if n % 2 == 0 {
        assert(!is_prime(n as int)) by {
            assert((n as int) % 2 == 0);
        }
        return false;
    }
    let mut i: u64 = 3;
    while i <= n / i
        invariant
            3 <= i,
            i % 2 == 1,
            n > 2,
            n % 2 == 1,
            forall|d: int| 2 <= d < i ==> #[trigger] ((n as int) % d) != 0,
        decreases n - i,
    {
        assert(i * i <= n) by (nonlinear_arith)
            requires
                i <= n / i,
                i > 0,
        ;
        if n % i == 0 {
            assert(!is_prime(n as int)) by {
                assert(i < n) by (nonlinear_arith)
                    requires
                        i * i <= n,
                        i >= 3,
                ;
                assert(2 <= (i as int) < (n as int) && (n as int) % (i as int) == 0);
            }
            return false;
        }
        assert((n as int) % ((i + 1) as int) != 0) by {
            // i + 1 is even and n is odd
            assert(((i + 1) as int) % 2 == 0);
            if (n as int) % ((i + 1) as int) == 0 {
                let k = (n as int) / ((i + 1) as int);
                assert((n as int) == ((i + 1) as int) * k) by (nonlinear_arith)
                    requires
                        (n as int) % ((i + 1) as int) == 0,
                        i + 1 > 0,
                        k == (n as int) / ((i + 1) as int),
                ;
                let m = ((i + 1) as int) / 2;
                assert((n as int) == 2 * (m * k)) by (nonlinear_arith)
                    requires
                        (n as int) == ((i + 1) as int) * k,
                        ((i + 1) as int) == 2 * m,
                ;
                assert((n as int) % 2 == 0);
            }
        }
        assert(i * i <= n && i < n) by (nonlinear_arith)
            requires
                i * i <= n,
                i >= 3,
        ;
        i = i + 2;
    }
    assert(is_prime(n as int)) by {
        assert forall|d: int| 2 <= d < n implies #[trigger] ((n as int) % d) != 0 by {
            if (n as int) % d == 0 {
                lemma_small_divisor(n as int, d);
                let e = choose|e: int| 2 <= e < n && #[trigger] ((n as int) % e) == 0 && e * e
                    <= n;
                assert(e < i) by (nonlinear_arith)
                    requires
                        e * e <= n,
                        i > n / i,
                        i > 0,
                        e >= 0,
                ;
            }
        }
    }
    true
}

/// The integer square root: the largest `r` with `r * r <= n`.
pub open spec fn is_isqrt(n: int, r: int) -> bool {
    r >= 0 && r * r <= n && n < (r + 1) * (r + 1)
}

/// The integer part of the square root of `n`, by bisection.
pub fn u64_isqrt(n: u64) -> (r: u64)
    ensures
        is_isqrt(n as int, r as int),
{
    // invariant: lo * lo <= n < hi * hi
    let mut lo: u64 = 0;
    let mut hi: u64 = 4294967296;
    assert(n < 4294967296 * 4294967296);
    while hi - lo > 1
        invariant
            lo < hi <= 4294967296,
            lo * lo <= n,
            n < hi * hi,
        decreases hi - lo,
    {
        let mid = lo + (hi - lo) / 2;
        assert(lo < mid < hi);
        assert(mid * mid <= 4294967296 * 4294967296) by (nonlinear_arith)
            requires
                mid <= 4294967296,
        ;
        if mid <= n / mid {
            assert(mid * mid <= n) by (nonlinear_arith)
                requires
                    mid <= n / mid,
                    mid > 0,
            ;
            lo = mid;
        } else {
            assert(n < mid * mid) by (nonlinear_arith)
                requires
                    mid > n / mid,
                    mid > 0,
            ;
            hi = mid;
        }
    }
    assert(hi == lo + 1);
    lo
}

} // verus!
