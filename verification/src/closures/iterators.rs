//! Hand-written iterators. Each offers `next`, which yields the following
//! item or `None`.
use vstd::prelude::*;
use vstd::std_specs::iter::IteratorSpec;
use crate::collections_iter::stats::fib;

verus! {

/// The Fibonacci numbers 0, 1, 1, 2, 3, 5, ...
pub struct Fibonacci {
    curr: u64,
    next: u64,
    pos: Ghost<nat>,
}

impl Fibonacci {
    /// How many numbers have been yielded.
    pub closed spec fn position(&self) -> nat {
        self.pos@
    }

    /// The state holds the two Fibonacci numbers at the current position.
    pub closed spec fn wf(&self) -> bool {
        &&& self.curr == fib(self.pos@)
        &&& self.next == fib(self.pos@ + 1)
    }

    /// The sequence from its start.
    pub fn new() -> (f: Self)
        ensures
            f.wf(),
            f.position() == 0,
    {
        Fibonacci { curr: 0, next: 1, pos: Ghost(0) }
    }

    /// Yields the Fibonacci number at the current position and moves on. The
    /// number two places further, which is computed on the way, must fit in
    /// a `u64`.
    pub fn next(&mut self) -> (r: Option<u64>)
        requires
            old(self).wf(),
            fib(old(self).position() + 2) <= u64::MAX,
        ensures
            final(self).wf(),
            final(self).position() == old(self).position() + 1,
            r == Some(fib(old(self).position()) as u64),
    {
        let current = self.curr;
        assert(fib(self.pos@ + 2) == fib(self.pos@) + fib(self.pos@ + 1));
        self.curr = self.next;
        self.next = current + self.next;
        self.pos = Ghost(self.pos@ + 1);
        Some(current)
    }
}

impl Default for Fibonacci {
    fn default() -> (f: Self)
        ensures
            f.wf(),
            f.position() == 0,
    {
        Self::new()
    }
}

/// The numbers `start`, `start + step`, ... that are below `end`.
pub struct StepBy {
    current: i32,
    end: i32,
    step: i32,
}

impl StepBy {
    /// The next number to yield.
    pub closed spec fn current(&self) -> i32 {
        self.current
    }

    /// The bound that the numbers stay below.
    pub closed spec fn end(&self) -> i32 {
        self.end
    }

    /// The distance between consecutive numbers.
    pub closed spec fn step(&self) -> i32 {
        self.step
    }

    /// Counts from `start` towards `end` by `step`.
    pub fn new(start: i32, end: i32, step: i32) -> (s: Self)
        ensures
            s.current() == start,
            s.end() == end,
            s.step() == step,
    {
        StepBy { current: start, end, step }
    }

    /// Yields the current number while it is below the end, then moves on by
    /// the step (which must not overflow an `i32`).
    pub fn next(&mut self) -> (r: Option<i32>)
        requires
            old(self).current() < old(self).end() ==> i32::MIN <= old(self).current() + old(
                self,
            ).step() <= i32::MAX,
        ensures
            final(self).end() == old(self).end(),
            final(self).step() == old(self).step(),
            old(self).current() < old(self).end() ==> {
                &&& r == Some(old(self).current())
                &&& final(self).current() == old(self).current() + old(self).step()
            },
            old(self).current() >= old(self).end() ==> r is None && final(self).current() == old(
                self,
            ).current(),
    {
        if self.current < self.end {
            let result = self.current;
            self.current = self.current + self.step;
            Some(result)
        } else {
            None
        }
    }
}

/// The windows of `window_size` consecutive items of a slice, from the left.
pub struct Windows<'a, T> {
    slice: &'a [T],
    window_size: usize,
    index: usize,
}

impl<'a, T> Windows<'a, T> {
    /// The slice the windows are taken from.
    pub closed spec fn items(&self) -> Seq<T> {
        self.slice@
    }

    /// The number of items in a window.
    pub closed spec fn size(&self) -> nat {
        self.window_size as nat
    }

    /// Where the next window starts.
    pub closed spec fn index(&self) -> nat {
        self.index as nat
    }

    /// The windows of `window_size` items of `slice`.
    pub fn new(slice: &'a [T], window_size: usize) -> (w: Self)
        ensures
            w.items() == slice@,
            w.size() == window_size,
            w.index() == 0,
    {
        Windows { slice, window_size, index: 0 }
    }

    /// Yields the next window, if it fits in the slice, and moves on by one
    /// (the index must stay representable, which matters only for empty
    /// windows).
    pub fn next(&mut self) -> (r: Option<&'a [T]>)
        requires
            old(self).index() + old(self).size() <= old(self).items().len() ==> old(self).index()
                < usize::MAX,
        ensures
            final(self).items() == old(self).items(),
            final(self).size() == old(self).size(),
            old(self).index() + old(self).size() <= old(self).items().len() ==> {
                &&& r is Some
                &&& r->0@ == old(self).items().subrange(
                    old(self).index() as int,
                    (old(self).index() + old(self).size()) as int,
                )
                &&& final(self).index() == old(self).index() + 1
            },
            old(self).index() + old(self).size() > old(self).items().len() ==> r is None
                && final(self).index() == old(self).index(),
    {
        if self.window_size <= self.slice.len() && self.index <= self.slice.len() - self.window_size {
            let window = slice_range(self.slice, self.index, self.index + self.window_size);
            self.index = self.index + 1;
            Some(window)
        } else {
            None
        }
    }
}

/// The items `start..end` of `s`, as a sub-slice.
fn slice_range<'a, T>(s: &'a [T], start: usize, end: usize) -> (r: &'a [T])
    requires
        start <= end <= s@.len(),
    ensures
        r@ == s@.subrange(start as int, end as int),
{
    &s[start..end]
}

/// The items of an iterator, each passed through a function when it is
/// yielded.
pub struct LazyMap<I, F> {
    iter: I,
    func: F,
}

impl<I, F, B> LazyMap<I, F> where I: Iterator, F: FnMut(I::Item) -> B {
    /// The underlying iterator.
    pub closed spec fn inner(&self) -> I {
        self.iter
    }

    /// The function applied to each item.
    pub closed spec fn function(&self) -> F {
        self.func
    }

    /// Takes the next item of the underlying iterator and yields `func` of
    /// it. What is stated of the underlying iterator holds when it follows
    /// vstd's iterator specification.
    pub fn next(&mut self) -> (r: Option<B>)
        requires
            forall|x: I::Item| call_requires(old(self).function(), (x,)),
        ensures
            final(self).function() == old(self).function(),
            old(self).inner().obeys_prophetic_iter_laws() ==> {
                &&& old(self).inner().remaining().len() > 0 ==> {
                    &&& r is Some
                    &&& call_ensures(old(self).function(), (old(self).inner().remaining()[0],), r->0)
                    &&& final(self).inner().remaining() == old(self).inner().remaining().drop_first()
                }
                &&& old(self).inner().remaining().len() == 0 ==> r is None
            },
    {
        match self.iter.next() {
            Some(x) => {
                assert(old(self).function() == self.func);
                Some((self.func)(x))
            },
            None => None,
        }
    }
}

/// `func` applied to the items of `iter` as they are yielded.
pub fn lazy_map<I, F, B>(iter: I, func: F) -> (m: LazyMap<I, F>)
    where I: Iterator, F: FnMut(I::Item) -> B,
    ensures
        m.inner() == iter,
        m.function() == func,
{
    LazyMap { iter, func }
}

/// The items of an iterator, over and over: when it runs out it restarts
/// from a clone of the original.
pub struct Cycle<I: Clone> {
    original: I,
    current: I,
}

impl<I: Clone + Iterator> Cycle<I> {
    /// The iterator that is being drained.
    pub closed spec fn current(&self) -> I {
        self.current
    }

    /// The iterator that each new pass is cloned from.
    pub closed spec fn original(&self) -> I {
        self.original
    }

    /// Cycles through the items of `iter`.
    pub fn new(iter: I) -> (c: Self)
        ensures
            c.current() == iter,
            cloned(iter, c.original()),
    {
        Cycle { original: iter.clone(), current: iter }
    }

    /// Yields the next item of the current pass; when the pass is over,
    /// starts a new one from a clone of the original and yields its first
    /// item. What is stated holds when the current pass follows vstd's
    /// iterator specification.
    pub fn next(&mut self) -> (r: Option<I::Item>)
        ensures
            final(self).original() == old(self).original(),
            old(self).current().obeys_prophetic_iter_laws() && old(
                self,
            ).current().remaining().len() > 0 ==> {
                &&& r == Some(old(self).current().remaining()[0])
                &&& final(self).current().remaining() == old(self).current().remaining().drop_first()
            },
            old(self).current().obeys_prophetic_iter_laws() && old(
                self,
            ).current().remaining().len() == 0 ==> exists|c: I|
                #![trigger cloned(old(self).original(), c)]
                cloned(old(self).original(), c) && (c.obeys_prophetic_iter_laws() ==> {
                    &&& c.remaining().len() > 0 ==> r == Some(c.remaining()[0])
                        && final(self).current().remaining() == c.remaining().drop_first()
                    &&& c.remaining().len() == 0 ==> r is None
                }),
    {
        match self.current.next() {
            Some(item) => Some(item),
            None => {
                let fresh = self.original.clone();
                let ghost c = fresh;
                self.current = fresh;
                let r = self.current.next();
                assert(cloned(old(self).original(), c));
                r
            },
        }
    }
}

} // verus!
