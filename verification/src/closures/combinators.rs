//! Functions that build functions, and a memoizing wrapper.
use std::collections::HashMap;
use std::hash::Hash;
use vstd::prelude::*;
use vstd::std_specs::hash::obeys_key_model;

verus! {

/// `f` after `g`: `x` goes to `f(g(x))`.
pub fn compose<F, G, A, B, C>(f: F, g: G) -> (h: impl Fn(A) -> C)
    where F: Fn(B) -> C, G: Fn(A) -> B,
    requires
        forall|a: A| call_requires(g, (a,)),
        forall|b: B| call_requires(f, (b,)),
    ensures
        forall|a: A| call_requires(h, (a,)),
        forall|a: A, c: C| #[trigger] call_ensures(h, (a,), c) ==> composed(f, g, a, c),
{
    move |x: A| -> (c: C)
        requires
            forall|a: A| call_requires(g, (a,)),
            forall|b: B| call_requires(f, (b,)),
        ensures
            exists|b: B| call_ensures(g, (x,), b) && call_ensures(f, (b,), c),
        {
            let b = g(x);
            f(b)
        }
}

/// `f` then `g`: `x` goes to `g(f(x))`.
pub fn pipe<F, G, A, B, C>(f: F, g: G) -> (h: impl Fn(A) -> C)
    where F: Fn(A) -> B, G: Fn(B) -> C,
    requires
        forall|a: A| call_requires(f, (a,)),
        forall|b: B| call_requires(g, (b,)),
    ensures
        forall|a: A| call_requires(h, (a,)),
        forall|a: A, c: C| #[trigger] call_ensures(h, (a,), c) ==> composed(g, f, a, c),
{
    move |x: A| -> (c: C)
        requires
            forall|a: A| call_requires(f, (a,)),
            forall|b: B| call_requires(g, (b,)),
        ensures
            exists|b: B| call_ensures(f, (x,), b) && call_ensures(g, (b,), c),
        {
            let b = f(x);
            g(b)
        }
}

/// `f` with its first argument fixed to `x`.
pub fn partial<F>(f: F, x: i32) -> (h: impl Fn(i32) -> i32)
    where F: Fn(i32, i32) -> i32,
    requires
        forall|y: i32| call_requires(f, (x, y)),
    ensures
        forall|y: i32| call_requires(h, (y,)),
        forall|y: i32, r: i32| call_ensures(h, (y,), r) ==> call_ensures(f, (x, y), r),
{
    move |y: i32| -> (r: i32)
        requires
            forall|y: i32| call_requires(f, (x, y)),
        ensures
            call_ensures(f, (x, y), r),
        { f(x, y) }
}

/// A function of no argument that returns clones of `value`.
pub fn constant<T: Clone>(value: T) -> (h: impl Fn() -> T)
    ensures
        call_requires(h, ()),
        forall|r: T| call_ensures(h, (), r) ==> cloned(value, r),
{
    move || -> (r: T)
        ensures
            cloned(value, r),
        { value.clone() }
}

/// The function that returns its argument.
pub fn identity<T>() -> (h: impl Fn(T) -> T)
    ensures
        forall|x: T| call_requires(h, (x,)),
        forall|x: T, r: T| call_ensures(h, (x,), r) ==> r == x,
{
    |x: T| -> (r: T)
        ensures
            r == x,
        { x }
}

/// A function of no argument that calls `then_fn` when `condition` holds
/// and `else_fn` otherwise.
pub fn if_then_else<F, G, T>(condition: bool, then_fn: F, else_fn: G) -> (h: impl Fn() -> T)
    where F: Fn() -> T, G: Fn() -> T,
    requires
        condition ==> call_requires(then_fn, ()),
        !condition ==> call_requires(else_fn, ()),
    ensures
        call_requires(h, ()),
        forall|r: T|
            call_ensures(h, (), r) ==> if condition {
                call_ensures(then_fn, (), r)
            } else {
                call_ensures(else_fn, (), r)
            },
{
    move || -> (r: T)
        requires
            condition ==> call_requires(then_fn, ()),
            !condition ==> call_requires(else_fn, ()),
        ensures
            if condition {
                call_ensures(then_fn, (), r)
            } else {
                call_ensures(else_fn, (), r)
            },
        {
            if condition {
                then_fn()
            } else {
                else_fn()
            }
        }
}

/// `xs` are the values of applying `f` `n` times from `x`, and `cs` the
/// clones it was applied to: each next value is `f` of a clone of the one
/// before.
pub open spec fn repeat_steps<F: Fn(T) -> T, T: Clone>(
    f: F,
    x: T,
    n: nat,
    xs: Seq<T>,
    cs: Seq<T>,
) -> bool {
    &&& xs.len() == n + 1
    &&& cs.len() == n
    &&& xs[0] == x
    &&& forall|i: int|
        0 <= i < n ==> cloned(xs[i], #[trigger] cs[i]) && call_ensures(f, (cs[i],), xs[i + 1])
}

/// The function that applies `f` `n` times in a row, each time to a clone
/// of the value so far.
pub fn repeat<F, T>(f: F, n: usize) -> (h: impl Fn(T) -> T)
    where F: Fn(T) -> T, T: Clone,
    requires
        forall|x: T| call_requires(f, (x,)),
    ensures
        forall|x: T| call_requires(h, (x,)),
        forall|x: T, r: T|
            call_ensures(h, (x,), r) ==> exists|xs: Seq<T>, cs: Seq<T>|
                repeat_steps(f, x, n as nat, xs, cs) && r == xs.last(),
{
    move |x0: T| -> (r: T)
        requires
            forall|x: T| call_requires(f, (x,)),
        ensures
            exists|xs: Seq<T>, cs: Seq<T>| repeat_steps(f, x0, n as nat, xs, cs) && r == xs.last(),
        {
            let mut x = x0;
            let ghost mut xs: Seq<T> = seq![x0];
            let ghost mut cs: Seq<T> = Seq::empty();
            let mut i: usize = 0;
            while i < n
                invariant
                    forall|y: T| call_requires(f, (y,)),
                    i <= n,
                    xs.len() == i + 1,
                    cs.len() == i,
                    xs[0] == x0,
                    x == xs.last(),
                    forall|j: int|
                        0 <= j < i ==> cloned(xs[j], #[trigger] cs[j]) && call_ensures(
                            f,
                            (cs[j],),
                            xs[j + 1],
                        ),
                decreases n - i,
            {
                let c = x.clone();
                let y = f(c);
                proof {
                    xs = xs.push(y);
                    cs = cs.push(c);
                }
                x = y;
                i = i + 1;
            }
            assert(repeat_steps(f, x0, n as nat, xs, cs));
            x
        }
}

/// Applying `f` `n` times and then `m` times more is applying it `n + m`
/// times: the two chains of values, joined where the first ends, are a
/// chain of `n + m` steps from the same start to the same end.
pub proof fn law_repeat_add<F: Fn(T) -> T, T: Clone>(
    f: F,
    x: T,
    n: nat,
    m: nat,
    xs1: Seq<T>,
    cs1: Seq<T>,
    xs2: Seq<T>,
    cs2: Seq<T>,
)
    requires
        repeat_steps(f, x, n, xs1, cs1),
        repeat_steps(f, xs1.last(), m, xs2, cs2),
    ensures
        repeat_steps(f, x, n + m, xs1 + xs2.drop_first(), cs1 + cs2),
        (xs1 + xs2.drop_first()).last() == xs2.last(),
{
    let xs = xs1 + xs2.drop_first();
    let cs = cs1 + cs2;
    assert forall|i: int| 0 <= i < n + m implies cloned(xs[i], #[trigger] cs[i]) && call_ensures(
        f,
        (cs[i],),
        xs[i + 1],
    ) by {
        if i < n {
            assert(xs[i] == xs1[i] && cs[i] == cs1[i]);
            if i + 1 < n + 1 {
                assert(xs[i + 1] == xs1[i + 1]);
            }
        } else {
            let j = i - n;
            assert(cs[i] == cs2[j]);
            assert(xs[i + 1] == xs2[j + 1]);
            if j == 0 {
                assert(xs[i] == xs1.last());
            } else {
                assert(xs[i] == xs2[j]);
            }
        }
    }
    if m == 0 {
        assert(xs =~= xs1);
    }
}

/// What the functions built by [`compose`] and [`pipe`] may return for `a`:
/// `f` applied to what `g` returned for `a`.
pub open spec fn composed<F: Fn(B) -> C, G: Fn(A) -> B, A, B, C>(f: F, g: G, a: A, c: C) -> bool {
    exists|b: B| call_ensures(g, (a,), b) && call_ensures(f, (b,), c)
}

/// Composition is associative: `h` after (`f` after `g`) and (`h` after
/// `f`) after `g` allow the same results.
pub proof fn law_compose_assoc<F: Fn(B) -> C, G: Fn(A) -> B, H: Fn(C) -> D, A, B, C, D>(
    f: F,
    g: G,
    h: H,
    a: A,
    d: D,
)
    ensures
        (exists|c: C| composed(f, g, a, c) && call_ensures(h, (c,), d)) <==> (exists|b: B|
            call_ensures(g, (a,), b) && composed(h, f, b, d)),
{
    if exists|c: C| composed(f, g, a, c) && call_ensures(h, (c,), d) {
        let c = choose|c: C| composed(f, g, a, c) && call_ensures(h, (c,), d);
        let b = choose|b: B| call_ensures(g, (a,), b) && call_ensures(f, (b,), c);
        assert(composed(h, f, b, d));
    }
    if exists|b: B| call_ensures(g, (a,), b) && composed(h, f, b, d) {
        let b = choose|b: B| call_ensures(g, (a,), b) && composed(h, f, b, d);
        let c = choose|c: C| call_ensures(f, (b,), c) && call_ensures(h, (c,), d);
        assert(composed(f, g, a, c));
    }
}

/// `f` gives one result for each argument.
pub open spec fn deterministic<F: Fn(A) -> B, A, B>(f: F) -> bool {
    forall|a: A, b1: B, b2: B|
        #[trigger] call_ensures(f, (a,), b1) && #[trigger] call_ensures(f, (a,), b2) ==> b1 == b2
}

/// Cloning a `T` gives back an equal value.
pub open spec fn exact_clone<T: Clone>() -> bool {
    forall|a: T, b: T| #[trigger] cloned(a, b) ==> a == b
}

proof fn lemma_steps_agree<F: Fn(T) -> T, T: Clone>(
    f: F,
    x: T,
    n: nat,
    xs1: Seq<T>,
    cs1: Seq<T>,
    xs2: Seq<T>,
    cs2: Seq<T>,
    i: int,
)
    requires
        deterministic(f),
        exact_clone::<T>(),
        repeat_steps(f, x, n, xs1, cs1),
        repeat_steps(f, x, n, xs2, cs2),
        0 <= i <= n,
    ensures
        xs1[i] == xs2[i],
    decreases i,
{
    if i > 0 {
        lemma_steps_agree(f, x, n, xs1, cs1, xs2, cs2, i - 1);
        assert(cloned(xs1[i - 1], cs1[i - 1]));
        assert(cloned(xs2[i - 1], cs2[i - 1]));
        assert(call_ensures(f, (cs1[i - 1],), xs1[i]));
        assert(call_ensures(f, (cs2[i - 1],), xs2[i]));
    }
}

/// For a function that gives one result per argument, and a type whose
/// clones equal the original, `repeat(f, n)` is a function: any two runs
/// from `x` pass through the same values and end at the same one. With
/// [`law_repeat_add`], `repeat(f, n + m)(x) == repeat(f, m)(repeat(f, n)(x))`.
pub proof fn law_repeat_pure<F: Fn(T) -> T, T: Clone>(
    f: F,
    x: T,
    n: nat,
    xs1: Seq<T>,
    cs1: Seq<T>,
    xs2: Seq<T>,
    cs2: Seq<T>,
)
    requires
        deterministic(f),
        exact_clone::<T>(),
        repeat_steps(f, x, n, xs1, cs1),
        repeat_steps(f, x, n, xs2, cs2),
    ensures
        xs1 == xs2,
        xs1.last() == xs2.last(),
{
    assert forall|i: int| 0 <= i < xs1.len() implies xs1[i] == xs2[i] by {
        lemma_steps_agree(f, x, n, xs1, cs1, xs2, cs2, i);
    }
    assert(xs1 =~= xs2);
}

/// For functions that give one result per argument, `compose(f, g)` (and
/// `pipe(g, f)`, which allows the same results) gives one result per
/// argument, and `h` after (`f` after `g`) gives the same result as
/// (`h` after `f`) after `g`.
pub proof fn law_compose_pure<F: Fn(B) -> C, G: Fn(A) -> B, H: Fn(C) -> D, A, B, C, D>(
    f: F,
    g: G,
    h: H,
    a: A,
    c1: C,
    c2: C,
    d1: D,
    d2: D,
)
    requires
        deterministic(f),
        deterministic(g),
        deterministic(h),
    ensures
        composed(f, g, a, c1) && composed(f, g, a, c2) ==> c1 == c2,
        (exists|c: C| composed(f, g, a, c) && call_ensures(h, (c,), d1)) && (exists|b: B|
            call_ensures(g, (a,), b) && composed(h, f, b, d2)) ==> d1 == d2,
{
    if composed(f, g, a, c1) && composed(f, g, a, c2) {
        let b1 = choose|b: B| call_ensures(g, (a,), b) && call_ensures(f, (b,), c1);
        let b2 = choose|b: B| call_ensures(g, (a,), b) && call_ensures(f, (b,), c2);
        assert(b1 == b2);
    }
    if (exists|c: C| composed(f, g, a, c) && call_ensures(h, (c,), d1)) && (exists|b: B|
        call_ensures(g, (a,), b) && composed(h, f, b, d2)) {
        let c = choose|c: C| composed(f, g, a, c) && call_ensures(h, (c,), d1);
        let b = choose|b: B| call_ensures(g, (a,), b) && composed(h, f, b, d2);
        let c_ = choose|c_: C| call_ensures(f, (b,), c_) && call_ensures(h, (c_,), d2);
        assert(composed(f, g, a, c_));
        let b1 = choose|b1: B| call_ensures(g, (a,), b1) && call_ensures(f, (b1,), c);
        assert(b1 == b);
        assert(c == c_);
    }
}

/// A function together with a cache of the results it has returned.
#[verifier::reject_recursive_types(A)]
#[verifier::reject_recursive_types(R)]
pub struct Memoized<F, A, R> where F: FnMut(A) -> R, A: Hash + Eq + Clone, R: Clone {
    func: F,
    cache: HashMap<A, R>,
    called: Ghost<Seq<A>>,
}

impl<F, A, R> Memoized<F, A, R> where F: FnMut(A) -> R, A: Hash + Eq + Clone, R: Clone {
    /// The results cached so far, by argument.
    pub closed spec fn cached(&self) -> Map<A, R> {
        self.cache@
    }

    /// The wrapped function.
    pub closed spec fn function(&self) -> F {
        self.func
    }

    /// The arguments the wrapped function has been called for (each time on
    /// a clone of the argument), in the order of the calls.
    pub closed spec fn calls(&self) -> Seq<A> {
        self.called@
    }

    /// For argument types whose `Eq` and `Hash` agree: the function has been
    /// called at most once per argument, and exactly for the arguments whose
    /// results are cached.
    pub open spec fn wf(&self) -> bool {
        obeys_key_model::<A>() ==> {
            &&& self.calls().no_duplicates()
            &&& forall|a: A| #[trigger] self.calls().contains(a) <==> self.cached().contains_key(a)
        }
    }

    /// A memoized function runs at most once per argument: no argument
    /// occurs twice among its calls, for argument types whose `Eq` and
    /// `Hash` agree.
    pub proof fn law_calls_once(&self, i: int, j: int)
        requires
            self.wf(),
            obeys_key_model::<A>(),
            0 <= i < j < self.calls().len(),
        ensures
            self.calls()[i] != self.calls()[j],
    {
    }

    /// Wraps `func` with an empty cache.
    pub fn new(func: F) -> (m: Self)
        ensures
            m.wf(),
            m.cached() == Map::<A, R>::empty(),
            m.function() == func,
            m.calls() == Seq::<A>::empty(),
    {
        Memoized { func, cache: HashMap::new(), called: Ghost(Seq::empty()) }
    }

    /// The result for `arg`: a clone of the cached one when there is one;
    /// otherwise `func` is called on a clone of `arg` and its result is
    /// cached under `arg`. Stated for argument types whose `Eq` and `Hash`
    /// agree.
    pub fn call(&mut self, arg: A) -> (r: R)
        requires
            old(self).wf(),
            forall|a: A| call_requires(old(self).function(), (a,)),
        ensures
            final(self).wf(),
            final(self).function() == old(self).function(),
            obeys_key_model::<A>() ==> {
                if old(self).cached().contains_key(arg) {
                    &&& cloned(old(self).cached()[arg], r)
                    &&& final(self).cached() == old(self).cached()
                    &&& final(self).calls() == old(self).calls()
                } else {
                    &&& final(self).calls() == old(self).calls().push(arg)
                    &&& exists|a: A|
                        cloned(arg, a) && call_ensures(old(self).function(), (a,), final(self).cached()[arg])
                    &&& cloned(final(self).cached()[arg], r)
                    &&& final(self).cached() == old(self).cached().insert(arg, final(self).cached()[arg])
                }
            },
    {
        match self.cache.get(&arg) {
            Some(result) => {
                let r = result.clone();
                assert(cloned(*result, r));
                r
            },
            None => {
                let a = arg.clone();
                assert(old(self).function() == self.func);
                assert(call_requires(self.func, (a,)));
                let result = (self.func)(a);
                assert(call_ensures(old(self).func, (a,), result));
                let copy = result.clone();
                assert(cloned(arg, a));
                assert(cloned(result, copy));
                let ghost key = arg;
                self.cache.insert(arg, result);
                self.called = Ghost(self.called@.push(key));
                proof {
                    if obeys_key_model::<A>() {
                        let c = old(self).calls();
                        assert(!c.contains(key));
                        assert forall|a2: A| #[trigger] self.calls().contains(a2) <==> self.cached().contains_key(a2) by {
                            if self.calls().contains(a2) && a2 != key {
                                let q = choose|q: int| 0 <= q < self.calls().len() && self.calls()[q] == a2;
                                assert(c[q] == a2);
                            }
                            if c.contains(a2) {
                                let q = choose|q: int| 0 <= q < c.len() && c[q] == a2;
                                assert(self.calls()[q] == a2);
                            }
                            assert(self.calls()[c.len() as int] == key);
                        }
                        assert forall|i: int, j: int| 0 <= i < j < self.calls().len() implies self.calls()[i] != self.calls()[j] by {
                            if j == c.len() {
                                assert(c.contains(self.calls()[i]));
                            }
                        }
                    }
                }
                assert(obeys_key_model::<A>() ==> self.cached()[arg] == result);
                copy
            },
        }
    }
}

} // verus!
