//! Number sequences: Fibonacci numbers, primes and arithmetic progressions;
//! and the integer statistics of a list: its smallest and largest values and
//! its most frequent ones.
use vstd::prelude::*;
use crate::arith;

verus! {

/// The Fibonacci numbers: 0, 1, 1, 2, 3, 5, ...
pub open spec fn fib(n: nat) -> nat
    decreases n,
{
    if n == 0 {
        0
    } else if n == 1 {
        1
    } else {
        fib((n - 2) as nat) + fib((n - 1) as nat)
    }
}

/// The Fibonacci numbers never decrease.
pub proof fn lemma_fib_mono(i: nat, j: nat)
    requires
        i <= j,
    ensures
        fib(i) <= fib(j),
    decreases j - i,
{
    if i < j {
        lemma_fib_mono(i, (j - 1) as nat);
        if j >= 2 {
            assert(fib(j) == fib((j - 2) as nat) + fib((j - 1) as nat));
        }
    }
}

/// The number of primes `p` with `2 <= p <= m`.
pub open spec fn count_primes(m: int) -> nat
    decreases m,
{
    if m < 2 {
        0
    } else {
        count_primes(m - 1) + if arith::is_prime(m) {
            1nat
        } else {
            0nat
        }
    }
}

/// `diff * i` and `start + diff * i` both fit in an `i32`.
pub open spec fn fits_term(start: i32, diff: i32, i: i32) -> bool {
    &&& i32::MIN <= diff * i <= i32::MAX
    &&& i32::MIN <= start + diff * i <= i32::MAX
}

/// `s` is strictly increasing.
pub open spec fn increasing(s: Seq<u32>) -> bool {
    forall|i: int, j: int| 0 <= i < j < s.len() ==> s[i] < s[j]
}

/// How many times `x` occurs in `s`.
pub open spec fn occurrences(s: Seq<i32>, x: i32) -> nat
    decreases s.len(),
{
    if s.len() == 0 {
        0
    } else {
        occurrences(s.drop_last(), x) + if s.last() == x {
            1nat
        } else {
            0nat
        }
    }
}

/// The Fibonacci numbers start 0, 1 and each next one is the sum of the two
/// before it.
pub proof fn law_fib(n: nat)
    ensures
        fib(0) == 0,
        fib(1) == 1,
        fib(n + 2) == fib(n) + fib(n + 1),
{
}

/// The number of occurrences of `x` is the number of items equal to it.
pub proof fn law_occurrences(s: Seq<i32>, x: i32)
    ensures
        occurrences(s, x) == s.filter(|y: i32| y == x).len(),
    decreases s.len(),
{
    reveal_with_fuel(Seq::filter, 1);
    if s.len() > 0 {
        law_occurrences(s.drop_last(), x);
        assert(s.drop_last().push(s.last()) =~= s);
    }
}

/// `x` occurs in `s`, and no value occurs in `s` more often.
pub open spec fn is_mode(s: Seq<i32>, x: i32) -> bool {
    &&& s.contains(x)
    &&& forall|y: i32| s.contains(y) ==> occurrences(s, y) <= occurrences(s, x)
}

/// The smallest and the largest value of `numbers`; `None` when it is empty.
pub fn min_max(numbers: &[i32]) -> (r: Option<(i32, i32)>)
    ensures
        numbers@.len() == 0 <==> r is None,
        r matches Some((lo, hi)) ==> {
            &&& numbers@.contains(lo)
            &&& numbers@.contains(hi)
            &&& forall|i: int| 0 <= i < numbers@.len() ==> lo <= #[trigger] numbers@[i] <= hi
        },
{
    if numbers.len() == 0 {
        return None;
    }
    let mut lo = numbers[0];
    let mut hi = numbers[0];
    let mut i: usize = 1;
    while i < numbers.len()
        invariant
            1 <= i <= numbers@.len(),
            numbers@.contains(lo),
            numbers@.contains(hi),
            forall|j: int| 0 <= j < i ==> lo <= #[trigger] numbers@[j] <= hi,
        decreases numbers.len() - i,
    {
        let x = numbers[i];
        if x < lo {
            lo = x;
        }
        if x > hi {
            hi = x;
        }
        i = i + 1;
    }
    Some((lo, hi))
}

/// The number of times `x` occurs in `numbers`.
fn occurrences_of(numbers: &[i32], x: i32) -> (n: usize)
    ensures
        n == occurrences(numbers@, x),
{
    let mut n: usize = 0;
    let mut i: usize = 0;
    while i < numbers.len()
        invariant
            i <= numbers@.len(),
            n == occurrences(numbers@.take(i as int), x),
            n <= i,
        decreases numbers.len() - i,
    {
        assert(numbers@.take(i + 1).drop_last() =~= numbers@.take(i as int));
        if numbers[i] == x {
            n = n + 1;
        }
        i = i + 1;
    }
    assert(numbers@.take(i as int) =~= numbers@);
    n
}

/// The most frequent values of `numbers`, each once, in the order in which
/// they first occur (the order is not part of what is promised: the set of
/// values is).
pub fn modes(numbers: &[i32]) -> (r: Vec<i32>)
    ensures
        r@.no_duplicates(),
        forall|x: i32| r@.contains(x) <==> is_mode(numbers@, x),
{
    let mut counts: Vec<usize> = Vec::new();
    let mut top: usize = 0;
    let mut i: usize = 0;
    while i < numbers.len()
        invariant
            i <= numbers@.len(),
            counts@.len() == i,
            forall|j: int| 0 <= j < i ==> #[trigger] counts@[j] == occurrences(numbers@, numbers@[j]),
            forall|j: int| 0 <= j < i ==> #[trigger] counts@[j] <= top,
            i == 0 ==> top == 0,
            i > 0 ==> exists|j: int| 0 <= j < i && #[trigger] counts@[j] == top,
        decreases numbers.len() - i,
    {
        let c = occurrences_of(numbers, numbers[i]);
        let ghost before = counts@;
        let ghost old_top = top;
        counts.push(c);
        assert(forall|j: int| 0 <= j < i ==> counts@[j] == before[j]);
        if c > top {
            top = c;
        }
        proof {
            if c >= old_top {
                assert(counts@[i as int] == top);
            } else {
                let j = choose|j: int| 0 <= j < i && #[trigger] before[j] == old_top;
                assert(counts@[j] == top);
            }
        }
        i = i + 1;
    }
    let mut r: Vec<i32> = Vec::new();
    let mut k: usize = 0;
    while k < numbers.len()
        invariant
            k <= numbers@.len(),
            counts@.len() == numbers@.len(),
            forall|j: int| 0 <= j < numbers@.len() ==> #[trigger] counts@[j] == occurrences(numbers@, numbers@[j]),
            forall|j: int| 0 <= j < numbers@.len() ==> #[trigger] counts@[j] <= top,
            r@.no_duplicates(),
            forall|x: i32| r@.contains(x) <==> exists|j: int| 0 <= j < k && numbers@[j] == x && #[trigger] counts@[j] == top,
        decreases numbers.len() - k,
    {
        let x = numbers[k];
        if counts[k] == top {
            let mut seen = false;
            let mut m: usize = 0;
            while m < r.len()
                invariant
                    m <= r@.len(),
                    seen == exists|q: int| 0 <= q < m && r@[q] == x,
                decreases r.len() - m,
            {
                if r[m] == x {
                    seen = true;
                }
                m = m + 1;
            }
            if !seen {
                let ghost before = r@;
                r.push(x);
                assert forall|x2: i32| r@.contains(x2) <==> exists|j: int| 0 <= j < k + 1 && numbers@[j] == x2 && #[trigger] counts@[j] == top by {
                    if r@.contains(x2) {
                        let q = choose|q: int| 0 <= q < r@.len() && r@[q] == x2;
                        if q < before.len() {
                            assert(before.contains(x2));
                        } else {
                            assert(numbers@[k as int] == x2);
                        }
                    }
                    if exists|j: int| 0 <= j < k + 1 && numbers@[j] == x2 && #[trigger] counts@[j] == top {
                        let j = choose|j: int| 0 <= j < k + 1 && numbers@[j] == x2 && #[trigger] counts@[j] == top;
                        if j < k {
                            assert(before.contains(x2));
                            let q = choose|q: int| 0 <= q < before.len() && before[q] == x2;
                            assert(r@[q] == x2);
                        } else {
                            assert(r@[before.len() as int] == x2);
                        }
                    }
                }
            } else {
                assert forall|x2: i32| r@.contains(x2) <==> exists|j: int| 0 <= j < k + 1 && numbers@[j] == x2 && #[trigger] counts@[j] == top by {
                    if exists|j: int| 0 <= j < k + 1 && numbers@[j] == x2 && #[trigger] counts@[j] == top {
                        let j = choose|j: int| 0 <= j < k + 1 && numbers@[j] == x2 && #[trigger] counts@[j] == top;
                        if j == k {
                            let q = choose|q: int| 0 <= q < r@.len() && r@[q] == x;
                            assert(r@[q] == x2);
                        }
                    }
                }
            }
        }
        k = k + 1;
    }
    assert forall|x: i32| r@.contains(x) <==> is_mode(numbers@, x) by {
        if r@.contains(x) {
            let j = choose|j: int| 0 <= j < numbers@.len() && numbers@[j] == x && #[trigger] counts@[j] == top;
            assert(numbers@.contains(x));
            assert forall|y: i32| numbers@.contains(y) implies occurrences(numbers@, y) <= occurrences(numbers@, x) by {
                let jy = choose|jy: int| 0 <= jy < numbers@.len() && numbers@[jy] == y;
                assert(counts@[jy] <= top);
            }
        }
        if is_mode(numbers@, x) {
            let jx = choose|jx: int| 0 <= jx < numbers@.len() && numbers@[jx] == x;
            let jt = choose|jt: int| 0 <= jt < numbers@.len() && #[trigger] counts@[jt] == top;
            assert(numbers@.contains(numbers@[jt]));
            assert(counts@[jx] == top);
        }
    }
    r
}

/// A namespace for sequence generators.
pub struct NumberSequence;

impl NumberSequence {
    /// The first `n` Fibonacci numbers; the last of them must fit in a `u64`.
    pub fn fibonacci(n: usize) -> (r: Vec<u64>)
        requires
            n < 2 || fib((n - 1) as nat) <= u64::MAX,
        ensures
            r@.len() == n,
            forall|i: int| 0 <= i < n ==> #[trigger] r@[i] == fib(i as nat),
    {
        let mut f: Vec<u64> = Vec::new();
        f.push(0);
        f.push(1);
        let mut i: usize = 2;
        while i < n
            invariant
                2 <= i,
                i <= n || n < 2,
                f@.len() == i,
                forall|k: int| 0 <= k < i ==> #[trigger] f@[k] == fib(k as nat),
                n < 2 || fib((n - 1) as nat) <= u64::MAX,
            decreases n - i,
        {
            proof {
                lemma_fib_mono(i as nat, (n - 1) as nat);
                assert(fib(i as nat) == fib((i - 2) as nat) + fib((i - 1) as nat));
            }
            let next = f[i - 1] + f[i - 2];
            f.push(next);
            i = i + 1;
        }
        let mut r: Vec<u64> = Vec::new();
        let mut k: usize = 0;
        while k < n && k < f.len()
            invariant
                k <= n,
                k <= f@.len(),
                n <= f@.len() || f@.len() == 2,
                f@.len() >= 2,
                forall|j: int| 0 <= j < f@.len() ==> #[trigger] f@[j] == fib(j as nat),
                r@ == f@.take(k as int),
            decreases n - k,
        {
            r.push(f[k]);
            k = k + 1;
            assert(r@ =~= f@.take(k as int));
        }
        r
    }

    /// The first `n` primes in increasing order; there must be that many
    /// primes that fit in a `u32`.
    pub fn primes(n: usize) -> (r: Vec<u32>)
        requires
            n <= count_primes(u32::MAX as int),
        ensures
            r@.len() == n,
            increasing(r@),
            forall|i: int| 0 <= i < n ==> arith::is_prime(#[trigger] r@[i] as int),
            n > 0 ==> forall|p: int|
                arith::is_prime(p) && p < r@[n - 1] ==> exists|i: int|
                    0 <= i < n && #[trigger] r@[i] == p,
    {
        let mut ps: Vec<u32> = Vec::new();
        if n == 0 {
            return ps;
        }
        let mut candidate: u32 = 2;
        loop
            invariant
                2 <= candidate,
                ps@.len() < n,
                ps@.len() == count_primes(candidate - 1),
                n <= count_primes(u32::MAX as int),
                increasing(ps@),
                forall|i: int| 0 <= i < ps@.len() ==> #[trigger] ps@[i] < candidate,
                forall|i: int| 0 <= i < ps@.len() ==> arith::is_prime(#[trigger] ps@[i] as int),
                forall|p: int|
                    arith::is_prime(p) && p < candidate ==> exists|i: int|
                        0 <= i < ps@.len() && #[trigger] ps@[i] == p,
            ensures
                ps@.len() == n,
                increasing(ps@),
                forall|i: int| 0 <= i < ps@.len() ==> arith::is_prime(#[trigger] ps@[i] as int),
                forall|p: int|
                    arith::is_prime(p) && p < ps@[n - 1] ==> exists|i: int|
                        0 <= i < ps@.len() && #[trigger] ps@[i] == p,
            decreases u32::MAX - candidate,
        {
            let ghost before = ps@;
            if Self::is_prime(candidate) {
                ps.push(candidate);
                assert forall|p: int|
                    arith::is_prime(p) && p < candidate + 1 implies exists|i: int|
                        0 <= i < ps@.len() && #[trigger] ps@[i] == p by {
                    if p == candidate {
                        assert(ps@[before.len() as int] == p);
                    } else {
                        let i = choose|i: int| 0 <= i < before.len() && #[trigger] before[i] == p;
                        assert(ps@[i] == p);
                    }
                }
            } else {
                assert forall|p: int|
                    arith::is_prime(p) && p < candidate + 1 implies exists|i: int|
                        0 <= i < ps@.len() && #[trigger] ps@[i] == p by {
                    assert(p != candidate);
                }
            }
            assert(ps@.len() == count_primes(candidate as int));
            if ps.len() >= n {
                assert(ps@[n - 1] < candidate + 1);
                return ps;
            }
            if candidate == u32::MAX {
                assert(false);
            }
            candidate = candidate + 1;
        }
    }

    /// Whether `n` is prime.
    fn is_prime(n: u32) -> (b: bool)
        ensures
            b == arith::is_prime(n as int),
    {
        arith::u64_is_prime(n as u64)
    }

    /// `count` terms `start + diff * i`, where `i` is taken as an `i32`
    /// (wrapping, as `as i32` does); every product and term must fit in an `i32`.
    pub fn arithmetic(start: i32, diff: i32, count: usize) -> (r: Vec<i32>)
        requires
            forall|i: int| 0 <= i < count ==> fits_term(start, diff, #[trigger] (i as i32)),
        ensures
            r@.len() == count,
            forall|i: int| 0 <= i < count ==> #[trigger] r@[i] == start + diff * (i as i32),
    {
        let mut r: Vec<i32> = Vec::new();
        let mut i: usize = 0;
        while i < count
            invariant
                i <= count,
                r@.len() == i,
                forall|k: int| 0 <= k < i ==> #[trigger] r@[k] == start + diff * (k as i32),
                forall|k: int| 0 <= k < count ==> fits_term(start, diff, #[trigger] (k as i32)),
            decreases count - i,
        {
            let ii: i32 = #[verifier::truncate] (i as i32);
            assert(fits_term(start, diff, (i as int) as i32));
            assert(ii == (i as int) as i32);
            r.push(start + diff * ii);
            i = i + 1;
        }
        r
    }
}

} // verus!
