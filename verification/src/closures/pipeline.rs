//! A pipeline of values transformed by closures, and stateful counters.
use std::collections::HashSet;
use std::hash::Hash;
use vstd::prelude::*;
use vstd::std_specs::hash::obeys_key_model;

verus! {

/// The items of `s` whose flag in `keep` is set, in order.
pub open spec fn select<T>(s: Seq<T>, keep: Seq<bool>) -> Seq<T>
    decreases s.len(),
{
    if s.len() == 0 || keep.len() == 0 {
        Seq::empty()
    } else if keep.last() {
        select(s.drop_last(), keep.drop_last()).push(s.last())
    } else {
        select(s.drop_last(), keep.drop_last())
    }
}

/// `accs` are the running values of folding `s` with `f` from `init`:
/// `accs[0]` is `init` and each next one is a possible result of `f`.
pub open spec fn fold_steps<T, B, F: Fn(B, T) -> B>(f: F, init: B, s: Seq<T>, accs: Seq<B>) -> bool {
    &&& accs.len() == s.len() + 1
    &&& accs[0] == init
    &&& forall|i: int| 0 <= i < s.len() ==> call_ensures(f, (accs[i], s[i]), #[trigger] accs[i + 1])
}

/// The first occurrence of each distinct item of `s`, in order.
pub open spec fn distinct<T>(s: Seq<T>) -> Seq<T>
    decreases s.len(),
{
    if s.len() == 0 {
        Seq::empty()
    } else if s.drop_last().contains(s.last()) {
        distinct(s.drop_last())
    } else {
        distinct(s.drop_last()).push(s.last())
    }
}

/// Selecting by flags keeps exactly the items whose flag is set, in order:
/// pairing each item with its flag, keeping the pairs whose flag is set,
/// and dropping the flags.
pub proof fn law_select_filters<T>(s: Seq<T>, keep: Seq<bool>)
    requires
        keep.len() == s.len(),
    ensures
        select(s, keep) == Seq::new(s.len(), |i: int| (s[i], keep[i])).filter(|p: (T, bool)| p.1).map_values(
            |p: (T, bool)| p.0,
        ),
    decreases s.len(),
{
    reveal_with_fuel(Seq::filter, 1);
    let z = Seq::new(s.len(), |i: int| (s[i], keep[i]));
    if s.len() == 0 {
        assert(z.filter(|p: (T, bool)| p.1) =~= Seq::<(T, bool)>::empty());
        assert(z.filter(|p: (T, bool)| p.1).map_values(|p: (T, bool)| p.0) =~= Seq::<T>::empty());
    } else {
        law_select_filters(s.drop_last(), keep.drop_last());
        let z0 = Seq::new(s.drop_last().len(), |i: int| (s.drop_last()[i], keep.drop_last()[i]));
        assert(z.drop_last() =~= z0);
        assert(z.last() == (s.last(), keep.last()));
        let f0 = z0.filter(|p: (T, bool)| p.1);
        if keep.last() {
            assert(z.filter(|p: (T, bool)| p.1) == f0.push(z.last()));
            assert(f0.push(z.last()).map_values(|p: (T, bool)| p.0) =~= f0.map_values(|p: (T, bool)| p.0).push(
                s.last(),
            ));
        } else {
            assert(z.filter(|p: (T, bool)| p.1) == f0);
        }
    }
}

/// The distinct items hold each item of `s` once and nothing else.
pub proof fn law_distinct_items<T>(s: Seq<T>)
    ensures
        distinct(s).no_duplicates(),
        forall|x: T| distinct(s).contains(x) <==> s.contains(x),
    decreases s.len(),
{
    if s.len() > 0 {
        law_distinct_items(s.drop_last());
        let d = distinct(s.drop_last());
        assert(s =~= s.drop_last().push(s.last()));
        assert forall|x: T| distinct(s).contains(x) <==> s.contains(x) by {
            if s.contains(x) && x != s.last() {
                let i = choose|i: int| 0 <= i < s.len() && s[i] == x;
                assert(s.drop_last()[i] == x);
            }
            if s.drop_last().contains(x) {
                let i = choose|i: int| 0 <= i < s.drop_last().len() && s.drop_last()[i] == x;
                assert(s[i] == x);
            }
            if !s.drop_last().contains(s.last()) {
                let e = d.push(s.last());
                assert(e.last() == s.last());
                if e.contains(x) && x != s.last() {
                    let i = choose|i: int| 0 <= i < e.len() && e[i] == x;
                    assert(d[i] == x);
                }
                if d.contains(x) {
                    let i = choose|i: int| 0 <= i < d.len() && d[i] == x;
                    assert(e[i] == x);
                }
            }
        }
        if !s.drop_last().contains(s.last()) {
            let e = d.push(s.last());
            assert forall|i: int, j: int| 0 <= i < j < e.len() implies e[i] != e[j] by {
                if j == e.len() - 1 {
                    assert(d.contains(e[i]));
                }
            }
        }
    }
}

/// A clone of a `T` is always equal to the original.
pub open spec fn clones_exactly<T: Clone>() -> bool {
    forall|a: T, b: T| cloned(a, b) ==> a == b
}

/// Values that go through a chain of transformations.
pub struct Pipeline<T> {
    data: Vec<T>,
}

impl<T> View for Pipeline<T> {
    type V = Seq<T>;

    closed spec fn view(&self) -> Seq<T> {
        self.data@
    }
}

impl<T> Pipeline<T> {
    /// A pipeline holding `data`.
    pub fn new(data: Vec<T>) -> (p: Self)
        ensures
            p@ == data@,
    {
        Pipeline { data }
    }

    /// Applies `f` to every value.
    pub fn map<F, U>(self, f: F) -> (p: Pipeline<U>)
        where F: Fn(T) -> U,
        requires
            forall|i: int| 0 <= i < self@.len() ==> call_requires(f, (#[trigger] self@[i],)),
        ensures
            p@.len() == self@.len(),
            forall|i: int| 0 <= i < p@.len() ==> call_ensures(f, (self@[i],), #[trigger] p@[i]),
    {
        let ghost s = self@;
        let mut out: Vec<U> = Vec::new();
        for x in it: self.data.into_iter()
            invariant
                it.seq() == s,
                forall|i: int| 0 <= i < s.len() ==> call_requires(f, (#[trigger] s[i],)),
                out@.len() == it.index(),
                forall|i: int| 0 <= i < out@.len() ==> call_ensures(f, (s[i],), #[trigger] out@[i]),
        {
            out.push(f(x));
        }
        Pipeline { data: out }
    }

    /// Keeps the values that `predicate` accepts, in order.
    pub fn filter<F>(self, predicate: F) -> (p: Pipeline<T>)
        where F: Fn(&T) -> bool,
        requires
            forall|i: int| 0 <= i < self@.len() ==> call_requires(predicate, (&#[trigger] self@[i],)),
        ensures
            exists|keep: Seq<bool>|
                {
                    &&& keep.len() == self@.len()
                    &&& forall|i: int|
                        0 <= i < self@.len() ==> call_ensures(
                            predicate,
                            (&self@[i],),
                            #[trigger] keep[i],
                        )
                    &&& p@ == select(self@, keep)
                },
    {
        let ghost s = self@;
        let ghost mut keep: Seq<bool> = Seq::empty();
        let mut out: Vec<T> = Vec::new();
        for x in it: self.data.into_iter()
            invariant
                it.seq() == s,
                forall|i: int| 0 <= i < s.len() ==> call_requires(predicate, (&#[trigger] s[i],)),
                keep.len() == it.index(),
                forall|i: int|
                    0 <= i < keep.len() ==> call_ensures(predicate, (&s[i],), #[trigger] keep[i]),
                out@ == select(s.take(it.index() as int), keep),
        {
            let ghost k = it.index() as int;
            let ghost old_keep = keep;
            let b = predicate(&x);
            proof {
                assert(s.take(k + 1).drop_last() =~= s.take(k));
                assert(s.take(k + 1).last() == x);
                keep = keep.push(b);
                assert(keep.drop_last() =~= old_keep);
            }
            if b {
                out.push(x);
            }
        }
        assert(s.take(s.len() as int) =~= s);
        Pipeline { data: out }
    }

    /// The values.
    pub fn collect(self) -> (v: Vec<T>)
        ensures
            v@ == self@,
    {
        self.data
    }

    /// Folds the values from the front with `f`, starting from `init`.
    pub fn fold<F, B>(self, init: B, f: F) -> (r: B)
        where F: Fn(B, T) -> B,
        requires
            forall|b: B, i: int| 0 <= i < self@.len() ==> #[trigger] call_requires(f, (b, self@[i])),
        ensures
            exists|accs: Seq<B>| fold_steps(f, init, self@, accs) && r == accs.last(),
    {
        let ghost s = self@;
        let ghost mut accs: Seq<B> = seq![init];
        let mut acc = init;
        for x in it: self.data.into_iter()
            invariant
                it.seq() == s,
                forall|b: B, i: int| 0 <= i < s.len() ==> #[trigger] call_requires(f, (b, s[i])),
                accs.len() == it.index() + 1,
                accs[0] == init,
                acc == accs.last(),
                forall|i: int|
                    0 <= i < it.index() ==> call_ensures(f, (accs[i], s[i]), #[trigger] accs[i + 1]),
        {
            let ghost k = it.index() as int;
            let next = f(acc, x);
            proof {
                accs = accs.push(next);
            }
            acc = next;
        }
        assert(fold_steps(f, init, s, accs));
        acc
    }

    /// The first value, if any.
    pub fn first(self) -> (r: Option<T>)
        ensures
            self@.len() == 0 ==> r is None,
            self@.len() > 0 ==> r == Some(self@[0]),
    {
        let mut data = self.data;
        if data.len() == 0 {
            None
        } else {
            Some(data.remove(0))
        }
    }

    /// The last value, if any.
    pub fn last(self) -> (r: Option<T>)
        ensures
            self@.len() == 0 ==> r is None,
            self@.len() > 0 ==> r == Some(self@.last()),
    {
        let mut data = self.data;
        data.pop()
    }

    /// The number of values.
    pub fn len(&self) -> (n: usize)
        ensures
            n == self@.len(),
    {
        self.data.len()
    }

    /// Whether there is no value.
    pub fn is_empty(&self) -> (b: bool)
        ensures
            b == (self@.len() == 0),
    {
        self.data.is_empty()
    }
}

impl<T: Clone> Pipeline<T> {
    /// Keeps one of each group of equal values. Every value kept comes from
    /// the pipeline; for a key type whose `Eq` and `Hash` agree and whose
    /// clones are exact, what is kept is the first occurrence of each
    /// distinct value, in order.
    pub fn unique(self) -> (p: Pipeline<T>)
        where T: Eq + Hash,
        ensures
            p@.len() <= self@.len(),
            forall|i: int| 0 <= i < p@.len() ==> self@.contains(#[trigger] p@[i]),
            obeys_key_model::<T>() && clones_exactly::<T>() ==> p@ == distinct(self@),
    {
        let ghost s = self@;
        let mut seen: HashSet<T> = HashSet::new();
        let mut out: Vec<T> = Vec::new();
        for x in it: self.data.into_iter()
            invariant
                it.seq() == s,
                out@.len() <= it.index(),
                forall|i: int| 0 <= i < out@.len() ==> s.contains(#[trigger] out@[i]),
                obeys_key_model::<T>() && clones_exactly::<T>() ==> {
                    &&& out@ == distinct(s.take(it.index() as int))
                    &&& seen@ == s.take(it.index() as int).to_set()
                },
        {
            let ghost k = it.index() as int;
            let c = x.clone();
            let fresh = seen.insert(c);
            proof {
                let t = s.take(k + 1);
                assert(t.drop_last() =~= s.take(k));
                assert(t.last() == x);
                assert(s[k] == x);
                if obeys_key_model::<T>() && clones_exactly::<T>() {
                    assert(cloned(x, c));
                    assert(c == x);
                    assert(t.to_set() =~= s.take(k).to_set().insert(x)) by {
                        assert forall|y: T| t.to_set().contains(y) <==> s.take(k).to_set().insert(x).contains(y) by {
                            if t.contains(y) {
                                let j = choose|j: int| 0 <= j < t.len() && t[j] == y;
                                if j < k {
                                    assert(s.take(k)[j] == y);
                                }
                            }
                            if s.take(k).contains(y) {
                                let j = choose|j: int| 0 <= j < k && s.take(k)[j] == y;
                                assert(t[j] == y);
                            }
                            if y == x {
                                assert(t[k] == y);
                            }
                        }
                    }
                    assert(fresh == !s.take(k).contains(x));
                }
            }
            if fresh {
                out.push(x);
            }
        }
        proof {
            assert(s.take(s.len() as int) =~= s);
        }
        Pipeline { data: out }
    }
}

/// A counter that yields 1, 2, 3, ... on successive calls.
pub struct Counter {
    count: i32,
}

impl Counter {
    /// How many times the counter has been called.
    pub closed spec fn count(&self) -> int {
        self.count as int
    }

    /// Advances the counter and returns its new value.
    pub fn call(&mut self) -> (r: i32)
        requires
            old(self).count() < i32::MAX,
        ensures
            r == old(self).count() + 1,
            final(self).count() == r,
    {
        self.count = self.count + 1;
        self.count
    }
}

/// A counter that has not been called yet.
pub fn make_counter() -> (c: Counter)
    ensures
        c.count() == 0,
{
    Counter { count: 0 }
}

/// A running sum that adds each argument and returns the new total.
pub struct Accumulator {
    sum: i32,
}

impl Accumulator {
    /// The running total.
    pub closed spec fn total(&self) -> int {
        self.sum as int
    }

    /// Adds `x` and returns the new total, which must fit in an `i32`.
    pub fn call(&mut self, x: i32) -> (r: i32)
        requires
            i32::MIN <= old(self).total() + x <= i32::MAX,
        ensures
            r == old(self).total() + x,
            final(self).total() == r,
    {
        self.sum = self.sum + x;
        self.sum
    }
}

/// An accumulator whose total starts at `initial`.
pub fn make_accumulator(initial: i32) -> (a: Accumulator)
    ensures
        a.total() == initial,
{
    Accumulator { sum: initial }
}

/// `xs` are the values of applying `f` `n` times from `initial`.
pub open spec fn apply_steps<F: FnMut(i32) -> i32>(f: F, initial: i32, n: nat, xs: Seq<i32>) -> bool {
    &&& xs.len() == n + 1
    &&& xs[0] == initial
    &&& forall|i: int| 0 <= i < n ==> call_ensures(f, (xs[i],), #[trigger] xs[i + 1])
}

/// Applies `f` to `initial` `n` times in a row.
pub fn apply_n_times<F>(mut f: F, n: usize, initial: i32) -> (r: i32)
    where F: FnMut(i32) -> i32,
    requires
        forall|x: i32| call_requires(f, (x,)),
    ensures
        exists|xs: Seq<i32>| apply_steps(f, initial, n as nat, xs) && r == xs.last(),
{
    let ghost f0 = f;
    let mut result = initial;
    let ghost mut xs: Seq<i32> = seq![initial];
    let mut i: usize = 0;
    while i < n
        invariant
            f == f0,
            forall|x: i32| call_requires(f, (x,)),
            i <= n,
            xs.len() == i + 1,
            xs[0] == initial,
            result == xs.last(),
            forall|j: int| 0 <= j < i ==> call_ensures(f, (xs[j],), #[trigger] xs[j + 1]),
        decreases n - i,
    {
        result = f(result);
        proof {
            xs = xs.push(result);
        }
        i = i + 1;
    }
    result
}

} // verus!
