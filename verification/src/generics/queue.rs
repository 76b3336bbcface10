//! A first-in, first-out queue and a pair of values.
use vstd::prelude::*;

verus! {

/// A first-in, first-out queue.
#[derive(Debug, Clone)]
pub struct Queue<T> {
    items: Vec<T>,
}

impl<T> View for Queue<T> {
    type V = Seq<T>;

    /// The items, the oldest first.
    closed spec fn view(&self) -> Seq<T> {
        self.items@
    }
}

impl<T> Queue<T> {
    /// An empty queue.
    pub fn new() -> (q: Self)
        ensures
            q@ == Seq::<T>::empty(),
    {
        Queue { items: Vec::new() }
    }

    /// Adds `item` at the back.
    pub fn enqueue(&mut self, item: T)
        ensures
            final(self)@ == old(self)@.push(item),
    {
        self.items.push(item);
    }

    /// Removes and returns the item at the front, if any.
    pub fn dequeue(&mut self) -> (r: Option<T>)
        ensures
            old(self)@.len() == 0 ==> r is None && final(self)@ == old(self)@,
            old(self)@.len() > 0 ==> r == Some(old(self)@[0]) && final(self)@ == old(self)@.drop_first(),
    {
        if self.items.is_empty() {
            None
        } else {
            let x = self.items.remove(0);
            assert(self@ =~= old(self)@.drop_first());
            Some(x)
        }
    }

    /// The item at the front, if any.
    pub fn front(&self) -> (r: Option<&T>)
        ensures
            self@.len() == 0 ==> r is None,
            self@.len() > 0 ==> r == Some(&self@[0]),
    {
        self.items.first()
    }

    /// Whether the queue is empty.
    pub fn is_empty(&self) -> (b: bool)
        ensures
            b == (self@.len() == 0),
    {
        self.items.is_empty()
    }

    /// The number of items.
    pub fn len(&self) -> (n: usize)
        ensures
            n == self@.len(),
    {
        self.items.len()
    }

    /// Removes every item.
    pub fn clear(&mut self)
        ensures
            final(self)@ == Seq::<T>::empty(),
    {
        self.items.clear();
    }
}

impl<T> Default for Queue<T> {
    fn default() -> (q: Self)
        ensures
            q@ == Seq::<T>::empty(),
    {
        Self::new()
    }
}

/// Two values, possibly of different types.
#[derive(Debug, Clone, PartialEq)]
pub struct Pair<T, U> {
    pub first: T,
    pub second: U,
}

impl<T, U> Pair<T, U> {
    /// The pair of `first` and `second`.
    pub fn new(first: T, second: U) -> (p: Self)
        ensures
            p.first == first,
            p.second == second,
    {
        Pair { first, second }
    }

    /// The same two values in the other order.
    pub fn swap(self) -> (p: Pair<U, T>)
        ensures
            p.first == self.second,
            p.second == self.first,
    {
        Pair { first: self.second, second: self.first }
    }

    /// The first value.
    pub fn first(&self) -> (r: &T)
        ensures
            *r == self.first,
    {
        &self.first
    }

    /// The second value.
    pub fn second(&self) -> (r: &U)
        ensures
            *r == self.second,
    {
        &self.second
    }
}

impl<T: Clone> Pair<T, T> {
    /// A pair of `value` and a clone of it; the clone comes first.
    pub fn duplicate(value: T) -> (p: Self)
        ensures
            cloned(value, p.first),
            p.second == value,
    {
        Pair { first: value.clone(), second: value }
    }
}

/// Items leave a queue in the order they entered it: enqueuing `x` behind a
/// non-empty queue does not change which item is dequeued next, and what
/// remains after that is the rest with `x` behind it.
pub proof fn law_first_in_first_out<T>(q: Seq<T>, x: T)
    requires
        q.len() > 0,
    ensures
        q.push(x)[0] == q[0],
        q.push(x).drop_first() == q.drop_first().push(x),
{
    assert(q.push(x).drop_first() =~= q.drop_first().push(x));
}

} // verus!
