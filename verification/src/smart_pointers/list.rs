//! A list with cheap insertion at both ends and removal at the front.
use std::collections::VecDeque;
use vstd::prelude::*;

verus! {

/// A double-ended list.
pub struct DoublyLinkedList<T> {
    items: VecDeque<T>,
}

impl<T> View for DoublyLinkedList<T> {
    type V = Seq<T>;

    /// The values, front first.
    closed spec fn view(&self) -> Seq<T> {
        self.items@
    }
}

impl<T> DoublyLinkedList<T> {
    /// An empty list.
    pub fn new() -> (l: Self)
        ensures
            l@ == Seq::<T>::empty(),
    {
        DoublyLinkedList { items: VecDeque::new() }
    }

    /// Puts `value` in front.
    pub fn push_front(&mut self, value: T)
        ensures
            final(self)@ == seq![value] + old(self)@,
    {
        self.items.push_front(value);
    }

    /// Puts `value` at the back.
    pub fn push_back(&mut self, value: T)
        ensures
            final(self)@ == old(self)@.push(value),
    {
        self.items.push_back(value);
    }

    /// Removes and returns the front value, if any.
    pub fn pop_front(&mut self) -> (r: Option<T>)
        ensures
            old(self)@.len() == 0 ==> r is None && final(self)@ == old(self)@,
            old(self)@.len() > 0 ==> r == Some(old(self)@[0]) && final(self)@ == old(self)@.drop_first(),
    {
        self.items.pop_front()
    }

    /// The number of values.
    pub fn len(&self) -> (n: usize)
        ensures
            n == self@.len(),
    {
        self.items.len()
    }

    /// Whether the list is empty.
    pub fn is_empty(&self) -> (b: bool)
        ensures
            b == (self@.len() == 0),
    {
        self.items.len() == 0
    }

    /// Clones of the values, front first.
    pub fn to_vec(&self) -> (r: Vec<T>)
        where T: Clone,
        ensures
            r@.len() == self@.len(),
            forall|i: int| 0 <= i < r@.len() ==> cloned(#[trigger] self@[i], r@[i]),
    {
        let mut result: Vec<T> = Vec::new();
        let mut i: usize = 0;
        while i < self.items.len()
            invariant
                i <= self@.len(),
                result@.len() == i,
                forall|j: int| 0 <= j < i ==> cloned(#[trigger] self@[j], result@[j]),
            decreases self@.len() - i,
        {
            let v = self.items[i].clone();
            result.push(v);
            i = i + 1;
        }
        result
    }
}

impl<T> Default for DoublyLinkedList<T> {
    fn default() -> (l: Self)
        ensures
            l@ == Seq::<T>::empty(),
    {
        Self::new()
    }
}

} // verus!
