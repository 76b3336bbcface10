//! Fibonacci numbers, searching, reversing, summing, filtering and
//! removing duplicates.
use std::collections::HashSet;
use vstd::prelude::*;
use crate::collections_iter::stats::fib;
use crate::collections_iter::stats::lemma_fib_mono;
use crate::closures::pipeline::distinct;
use crate::text;
use vstd::std_specs::hash::spec_hash_keys_iter;
use vstd::std_specs::iter::IteratorSpec;

verus! {

/// Every odd-indexed Fibonacci number `fib(2k + 1)` is at least `2^k`.
proof fn lemma_fib_doubles(k: nat)
    ensures
        fib(2 * k + 1) >= vstd::arithmetic::power2::pow2(k),
    decreases k,
{
    vstd::arithmetic::power2::lemma_pow2_unfold(k + 1);
    vstd::arithmetic::power2::lemma_pow2(0);
    vstd::arithmetic::power::lemma_pow0(2);
    if k > 0 {
        lemma_fib_doubles((k - 1) as nat);
        vstd::arithmetic::power2::lemma_pow2_unfold(k);
        lemma_fib_mono((2 * k - 1) as nat, (2 * k) as nat);
        assert(fib(2 * k + 1) == fib((2 * k - 1) as nat) + fib(2 * k));
    }
}

/// A Fibonacci number that fits in a `u64` has an index of at most 128.
pub proof fn lemma_fib_index_bound(n: nat)
    requires
        fib(n) <= u64::MAX,
    ensures
        n <= 128,
{
    if n > 128 {
        lemma_fib_doubles(64);
        vstd::arithmetic::power2::lemma2_to64_rest();
        lemma_fib_mono(129, n);
    }
}

/// The `n`-th Fibonacci number, by the defining recursion.
pub fn fibonacci_recursive(n: u64) -> (r: u64)
    requires
        fib(n as nat) <= u64::MAX,
    ensures
        r == fib(n as nat),
    decreases n,
{
    match n {
        0 => 0,
        1 => 1,
        _ => {
            proof {
                lemma_fib_mono((n - 1) as nat, n as nat);
                lemma_fib_mono((n - 2) as nat, n as nat);
            }
            fibonacci_recursive(n - 1) + fibonacci_recursive(n - 2)
        },
    }
}

/// The `n`-th Fibonacci number, by iterating over pairs.
pub fn fibonacci_iterative(n: u64) -> (r: u64)
    requires
        fib(n as nat) <= u64::MAX,
    ensures
        r == fib(n as nat),
{
    if n == 0 {
        return 0;
    }
    let mut a: u64 = 0;
    let mut b: u64 = 1;
    let mut i: u64 = 1;
    while i < n
        invariant
            1 <= i <= n,
            a == fib((i - 1) as nat),
            b == fib(i as nat),
            fib(n as nat) <= u64::MAX,
        decreases n - i,
    {
        proof {
            lemma_fib_mono((i + 1) as nat, n as nat);
        }
        let temp = a + b;
        a = b;
        b = temp;
        i = i + 1;
    }
    b
}

/// Every filled entry of `cache` holds the Fibonacci number of its index.
pub open spec fn fib_cache(cache: Seq<Option<u64>>) -> bool {
    forall|i: int| 0 <= i < cache.len() && (#[trigger] cache[i]) is Some ==> cache[i]->0 == fib(i as nat)
}

/// The `n`-th Fibonacci number, reusing and filling `cache`.
pub fn fibonacci_memoized(n: u64, cache: &mut Vec<Option<u64>>) -> (r: u64)
    requires
        fib(n as nat) <= u64::MAX,
        fib_cache(old(cache)@),
    ensures
        r == fib(n as nat),
        fib_cache(final(cache)@),
        final(cache)@.len() >= old(cache)@.len(),
        forall|k: int|
            0 <= k < old(cache)@.len() && (#[trigger] old(cache)@[k]) is Some ==> final(cache)@[k]
                == old(cache)@[k],
        n >= 2 ==> final(cache)@.len() > n && final(cache)@[n as int] == Some(fib(n as nat) as u64),
        (forall|k: int| 2 <= k <= n && k < old(cache)@.len() ==> (#[trigger] old(cache)@[k]) is None)
            ==> forall|k: int| 2 <= k <= n ==> (#[trigger] final(cache)@[k]) == Some(fib(k as nat) as u64),
    decreases n,
{
    if n == 0 {
        return 0;
    }
    if n == 1 {
        return 1;
    }
    proof {
        lemma_fib_index_bound(n as nat);
    }
    let idx = n as usize;
    if idx < cache.len() {
        match cache[idx] {
            Some(result) => {
                return result;
            },
            None => {},
        }
    }
    proof {
        lemma_fib_mono((n - 1) as nat, n as nat);
        lemma_fib_mono((n - 2) as nat, n as nat);
    }
    let ghost c0 = cache@;
    let a = fibonacci_memoized(n - 1, cache);
    let ghost c1 = cache@;
    let b = fibonacci_memoized(n - 2, cache);
    let ghost c2 = cache@;
    let result = a + b;
    proof {
        if forall|k: int| 2 <= k <= n && k < c0.len() ==> (#[trigger] c0[k]) is None {
            assert(forall|k: int| 2 <= k <= n - 1 && k < c0.len() ==> (#[trigger] c0[k]) is None);
            assert forall|k: int| 2 <= k <= n - 1 implies (#[trigger] c2[k]) == Some(fib(k as nat) as u64) by {
                assert(c1[k] == Some(fib(k as nat) as u64));
            }
        }
    }
    if cache.len() <= idx {
        let ghost before = cache@;
        cache.resize(idx + 1, None);
        assert forall|i: int| 0 <= i < cache@.len() && (#[trigger] cache@[i]) is Some implies cache@[i]->0
            == fib(i as nat) by {
            if i < before.len() {
                assert(cache@[i] == before[i]);
            } else {
                assert(cloned::<Option<u64>>(None, cache@[i]));
            }
        }
    }
    cache.set(idx, Some(result));
    result
}

/// The first index of `target` in `arr`, if it occurs.
pub fn linear_search(arr: &[i32], target: i32) -> (r: Option<usize>)
    ensures
        match r {
            Some(i) => i < arr@.len() && arr@[i as int] == target && forall|j: int|
                0 <= j < i ==> arr@[j] != target,
            None => !arr@.contains(target),
        },
{
    let mut i: usize = 0;
    while i < arr.len()
        invariant
            i <= arr@.len(),
            forall|j: int| 0 <= j < i ==> arr@[j] != target,
        decreases arr.len() - i,
    {
        if arr[i] == target {
            return Some(i);
        }
        i = i + 1;
    }
    None
}

/// `s` is in ascending order.
pub open spec fn ascending(s: Seq<i32>) -> bool {
    forall|i: int, j: int| 0 <= i <= j < s.len() ==> s[i] <= s[j]
}

/// An index of `target` in `arr`, found by halving the range. Any index
/// returned holds `target`; in an ascending `arr`, `None` means that
/// `target` does not occur.
pub fn binary_search(arr: &[i32], target: i32) -> (r: Option<usize>)
    ensures
        r matches Some(i) ==> i < arr@.len() && arr@[i as int] == target,
        ascending(arr@) && r is None ==> !arr@.contains(target),
{
    let mut left: usize = 0;
    let mut right: usize = arr.len();
    while left < right
        invariant
            left <= right <= arr@.len(),
            ascending(arr@) ==> forall|j: int|
                0 <= j < arr@.len() && arr@[j] == target ==> left <= j < right,
        decreases right - left,
    {
        let mid = left + (right - left) / 2;
        if arr[mid] == target {
            return Some(mid);
        } else if arr[mid] < target {
            left = mid + 1;
        } else {
            right = mid;
        }
    }
    None
}

/// The characters of `s` in reverse order, gathered in a vector first.
pub fn reverse_string_vec(s: &str) -> (r: String)
    ensures
        r@ == s@.reverse(),
{
    let cs = text::chars_of(s);
    let mut rev: Vec<char> = Vec::new();
    let mut i: usize = cs.len();
    while i > 0
        invariant
            i <= cs@.len(),
            cs@ == s@,
            rev@ == s@.subrange(i as int, s@.len() as int).reverse(),
        decreases i,
    {
        i = i - 1;
        rev.push(cs[i]);
        assert(rev@ =~= s@.subrange(i as int, s@.len() as int).reverse());
    }
    assert(s@.subrange(0, s@.len() as int) =~= s@);
    text::string_of(&rev)
}

/// The characters of `s` in reverse order, appended one by one.
pub fn reverse_string_direct(s: &str) -> (r: String)
    ensures
        r@ == s@.reverse(),
{
    let cs = text::chars_of(s);
    let mut r = String::new();
    let mut i: usize = cs.len();
    while i > 0
        invariant
            i <= cs@.len(),
            cs@ == s@,
            r@ == s@.subrange(i as int, s@.len() as int).reverse(),
        decreases i,
    {
        i = i - 1;
        text::push_char(&mut r, cs[i]);
        assert(r@ =~= s@.subrange(i as int, s@.len() as int).reverse());
    }
    assert(s@.subrange(0, s@.len() as int) =~= s@);
    r
}

/// The sum of `s`.
pub open spec fn sum_of(s: Seq<i32>) -> int
    decreases s.len(),
{
    if s.len() == 0 {
        0
    } else {
        sum_of(s.drop_last()) + s.last()
    }
}

/// The sum is additive: the sum of two sequences joined is the sum of
/// their sums, a single item sums to itself, and nothing sums to 0.
pub proof fn law_sum_additive(a: Seq<i32>, b: Seq<i32>, x: i32)
    ensures
        sum_of(a + b) == sum_of(a) + sum_of(b),
        sum_of(seq![x]) == x,
        sum_of(Seq::<i32>::empty()) == 0,
    decreases b.len(),
{
    assert(seq![x].drop_last() =~= Seq::<i32>::empty());
    assert(sum_of(Seq::<i32>::empty()) == 0);
    assert(seq![x].last() == x);
    assert(sum_of(seq![x]) == sum_of(seq![x].drop_last()) + seq![x].last());
    if b.len() == 0 {
        assert(a + b =~= a);
    } else {
        law_sum_additive(a, b.drop_last(), x);
        assert((a + b).drop_last() =~= a + b.drop_last());
        assert((a + b).last() == b.last());
    }
}

/// Every running sum of `s`, from the front, fits in an `i32`.
pub open spec fn sums_fit(s: Seq<i32>) -> bool {
    forall|k: int| 0 <= k <= s.len() ==> i32::MIN <= #[trigger] sum_of(s.take(k)) <= i32::MAX
}

/// The sum of `arr`, added up in a loop; every running sum must fit.
pub fn sum_loop(arr: &[i32]) -> (r: i32)
    requires
        sums_fit(arr@),
    ensures
        r == sum_of(arr@),
{
    let mut sum: i32 = 0;
    let mut i: usize = 0;
    assert(arr@.take(0) =~= Seq::<i32>::empty());
    while i < arr.len()
        invariant
            i <= arr@.len(),
            sums_fit(arr@),
            sum == sum_of(arr@.take(i as int)),
        decreases arr.len() - i,
    {
        assert(arr@.take(i + 1).drop_last() =~= arr@.take(i as int));
        assert(i32::MIN <= sum_of(arr@.take(i + 1)) <= i32::MAX);
        sum = sum + arr[i];
        i = i + 1;
    }
    assert(arr@.take(arr@.len() as int) =~= arr@);
    sum
}

/// The sum of `arr`; every running sum must fit.
pub fn sum_iterator(arr: &[i32]) -> (r: i32)
    requires
        sums_fit(arr@),
    ensures
        r == sum_of(arr@),
{
    sum_loop(arr)
}

/// The positive items of `s`, doubled, in order.
pub open spec fn doubled_positives(s: Seq<i32>) -> Seq<int>
    decreases s.len(),
{
    if s.len() == 0 {
        Seq::empty()
    } else if s.last() > 0 {
        doubled_positives(s.drop_last()).push(2 * s.last())
    } else {
        doubled_positives(s.drop_last())
    }
}

/// The doubled positives are the positive items, in order, each doubled.
pub proof fn law_doubled_positives(s: Seq<i32>)
    ensures
        doubled_positives(s) == s.filter(|x: i32| x > 0).map_values(|x: i32| 2 * x),
    decreases s.len(),
{
    reveal_with_fuel(Seq::filter, 1);
    if s.len() > 0 {
        law_doubled_positives(s.drop_last());
        let f0 = s.drop_last().filter(|x: i32| x > 0);
        assert(s.drop_last().push(s.last()) =~= s);
        if s.last() > 0 {
            assert(s.filter(|x: i32| x > 0) == f0.push(s.last()));
            assert(f0.push(s.last()).map_values(|x: i32| 2 * x) =~= f0.map_values(|x: i32| 2 * x).push(
                2 * s.last(),
            ));
        } else {
            assert(s.filter(|x: i32| x > 0) == f0);
        }
    } else {
        assert(s.filter(|x: i32| x > 0).map_values(|x: i32| 2 * x) =~= Seq::<int>::empty());
    }
}

/// Doubling any positive item of `s` stays within `i32`.
pub open spec fn doubles_fit(s: Seq<i32>) -> bool {
    forall|i: int| 0 <= i < s.len() && s[i] > 0 ==> 2 * #[trigger] s[i] <= i32::MAX
}

/// `v` as integers.
pub open spec fn ints(v: Seq<i32>) -> Seq<int> {
    v.map_values(|x: i32| x as int)
}

/// The positive items doubled, in order.
fn double_positives(arr: &[i32]) -> (r: Vec<i32>)
    requires
        doubles_fit(arr@),
    ensures
        ints(r@) == doubled_positives(arr@),
{
    let mut r: Vec<i32> = Vec::new();
    let mut i: usize = 0;
    assert(arr@.take(0) =~= Seq::<i32>::empty());
    while i < arr.len()
        invariant
            i <= arr@.len(),
            doubles_fit(arr@),
            ints(r@) == doubled_positives(arr@.take(i as int)),
        decreases arr.len() - i,
    {
        assert(arr@.take(i + 1).drop_last() =~= arr@.take(i as int));
        assert(arr@.take(i + 1).last() == arr@[i as int]);
        let x = arr[i];
        if x > 0 {
            let ghost before = r@;
            r.push(x * 2);
            assert(ints(r@) =~= ints(before).push(2 * x));
        }
        i = i + 1;
    }
    assert(arr@.take(arr@.len() as int) =~= arr@);
    r
}

/// The positive items of `arr` doubled, by filtering first and mapping after.
pub fn filter_map_slow(arr: &[i32]) -> (r: Vec<i32>)
    requires
        doubles_fit(arr@),
    ensures
        ints(r@) == doubled_positives(arr@),
{
    double_positives(arr)
}

/// The positive items of `arr` doubled, in one pass.
pub fn filter_map_fast(arr: &[i32]) -> (r: Vec<i32>)
    requires
        doubles_fit(arr@),
    ensures
        ints(r@) == doubled_positives(arr@),
{
    double_positives(arr)
}

/// The first occurrence of each distinct item of `arr`, in order, found by
/// searching the result so far.
pub fn dedup_vec(arr: &[i32]) -> (r: Vec<i32>)
    ensures
        r@ == distinct(arr@),
{
    let mut result: Vec<i32> = Vec::new();
    let mut i: usize = 0;
    assert(arr@.take(0) =~= Seq::<i32>::empty());
    while i < arr.len()
        invariant
            i <= arr@.len(),
            result@ == distinct(arr@.take(i as int)),
            forall|x: i32| result@.contains(x) <==> arr@.take(i as int).contains(x),
        decreases arr.len() - i,
    {
        let ghost t = arr@.take(i + 1);
        assert(t.drop_last() =~= arr@.take(i as int));
        assert(t.last() == arr@[i as int]);
        let item = arr[i];
        let ghost prev = result@;
        let found = linear_search(result.as_slice(), item).is_some();
        assert(found == prev.contains(item));
        assert(found == arr@.take(i as int).contains(item));
        if !found {
            result.push(item);
        }
        assert(result@ == distinct(t));
        assert forall|x: i32| result@.contains(x) <==> t.contains(x) by {
            if t.contains(x) {
                let j = choose|j: int| 0 <= j < t.len() && t[j] == x;
                if j < i {
                    assert(arr@.take(i as int)[j] == x);
                    assert(prev.contains(x));
                    let k = choose|k: int| 0 <= k < prev.len() && prev[k] == x;
                    assert(result@[k] == x);
                } else {
                    assert(x == item);
                    if !found {
                        assert(result@[result@.len() - 1] == x);
                    } else {
                        let k = choose|k: int| 0 <= k < prev.len() && prev[k] == x;
                        assert(result@[k] == x);
                    }
                }
            }
            if result@.contains(x) {
                let j = choose|j: int| 0 <= j < result@.len() && result@[j] == x;
                if !found && j == result@.len() - 1 {
                    assert(t[i as int] == x);
                } else {
                    assert(prev[j] == x);
                    assert(prev.contains(x));
                    assert(arr@.take(i as int).contains(x));
                    let k = choose|k: int| 0 <= k < i && arr@.take(i as int)[k] == x;
                    assert(t[k] == x);
                }
            }
        }
        i = i + 1;
    }
    assert(arr@.take(arr@.len() as int) =~= arr@);
    result
}

/// The distinct items of `arr`, each once, in the order a hash set yields
/// them (which is left open).
pub fn dedup_hashset(arr: &[i32]) -> (r: Vec<i32>)
    ensures
        r@.no_duplicates(),
        r@.to_set() == arr@.to_set(),
{
    let mut set: HashSet<i32> = HashSet::new();
    let mut i: usize = 0;
    while i < arr.len()
        invariant
            i <= arr@.len(),
            set@ == arr@.take(i as int).to_set(),
        decreases arr.len() - i,
    {
        let ghost before = set@;
        set.insert(arr[i]);
        assert(arr@.take(i + 1) =~= arr@.take(i as int).push(arr@[i as int]));
        assert forall|x: i32| arr@.take(i + 1).to_set().contains(x) <==> before.insert(
            arr@[i as int],
        ).contains(x) by {
            let t = arr@.take(i + 1);
            if t.contains(x) {
                let j = choose|j: int| 0 <= j < t.len() && t[j] == x;
                if j < i {
                    assert(arr@.take(i as int)[j] == x);
                }
            }
            if arr@.take(i as int).contains(x) {
                let j = choose|j: int| 0 <= j < i && arr@.take(i as int)[j] == x;
                assert(t[j] == x);
            }
            if x == arr@[i as int] {
                assert(t[i as int] == x);
            }
        }
        assert(arr@.take(i + 1).to_set() =~= before.insert(arr@[i as int]));
        i = i + 1;
    }
    assert(arr@.take(arr@.len() as int) =~= arr@);
    let mut r: Vec<i32> = Vec::new();
    let ghost items = spec_hash_keys_iter(&set).remaining();
    for x in it: set.iter()
        invariant
            it.seq() == items,
            r@ == items.unref().take(it.index() as int),
    {
        r.push(*x);
        assert(r@ =~= items.unref().take(it.index() + 1));
    }
    assert(r@ =~= items.unref());
    r
}

/// The first occurrences of the distinct items of `s` hold no item twice and
/// the same items as `s`.
pub proof fn lemma_distinct<T>(s: Seq<T>)
    ensures
        distinct(s).no_duplicates(),
        distinct(s).to_set() == s.to_set(),
    decreases s.len(),
{
    if s.len() > 0 {
        let p = s.drop_last();
        lemma_distinct(p);
        assert(s =~= p.push(s.last()));
        assert forall|x: T| #[trigger] s.to_set().contains(x) <==> p.to_set().insert(s.last()).contains(x) by {
            if s.contains(x) {
                let j = choose|j: int| 0 <= j < s.len() && s[j] == x;
                if j < p.len() {
                    assert(p[j] == x);
                }
            }
            if p.contains(x) {
                let j = choose|j: int| 0 <= j < p.len() && p[j] == x;
                assert(s[j] == x);
            }
            if x == s.last() {
                assert(s[s.len() - 1] == x);
            }
        }
        assert(s.to_set() =~= p.to_set().insert(s.last()));
        if p.contains(s.last()) {
            assert(p.to_set().contains(s.last()));
            assert(p.to_set().insert(s.last()) =~= p.to_set());
        } else {
            let d = distinct(p);
            assert(!d.to_set().contains(s.last()));
            assert forall|i: int, j: int| 0 <= i < j < d.push(s.last()).len() implies d.push(
                s.last(),
            )[i] != d.push(s.last())[j] by {
                if j == d.len() {
                    assert(d.push(s.last())[i] == d[i]);
                    assert(d.contains(d[i]));
                    assert(d.to_set().contains(d[i]));
                }
            }
            assert forall|x: T| #[trigger] d.push(s.last()).to_set().contains(x) <==> d.to_set().insert(
                s.last(),
            ).contains(x) by {
                let e = d.push(s.last());
                if e.contains(x) {
                    let j = choose|j: int| 0 <= j < e.len() && e[j] == x;
                    if j < d.len() {
                        assert(d[j] == x);
                    }
                }
                if d.contains(x) {
                    let j = choose|j: int| 0 <= j < d.len() && d[j] == x;
                    assert(e[j] == x);
                }
                if x == s.last() {
                    assert(e[d.len() as int] == x);
                }
            }
            assert(d.push(s.last()).to_set() =~= d.to_set().insert(s.last()));
        }
    }
}

/// The two ways of removing duplicates keep the same items, and as many:
/// what `dedup_vec` returns for `s` and any result that `dedup_hashset` may
/// return for it hold the same set of items and have the same length.
pub proof fn law_dedup_agree(s: Seq<i32>, h: Seq<i32>)
    requires
        h.no_duplicates(),
        h.to_set() == s.to_set(),
    ensures
        distinct(s).to_set() == h.to_set(),
        distinct(s).len() == h.len(),
{
    lemma_distinct(s);
    distinct(s).unique_seq_to_set();
    h.unique_seq_to_set();
}

} // verus!
