//! A last-in, first-out stack and the largest and smallest items of a slice.
use vstd::prelude::*;
use vstd::std_specs::cmp::PartialOrdIs;
use vstd::std_specs::cmp::PartialOrdSpec;

verus! {

/// A last-in, first-out stack.
#[derive(Debug, Clone)]
pub struct Stack<T> {
    items: Vec<T>,
}

impl<T> View for Stack<T> {
    type V = Seq<T>;

    /// The items, the bottom one first.
    closed spec fn view(&self) -> Seq<T> {
        self.items@
    }
}

impl<T> Stack<T> {
    /// An empty stack.
    pub fn new() -> (s: Self)
        ensures
            s@ == Seq::<T>::empty(),
    {
        Stack { items: Vec::new() }
    }

    /// Puts `item` on top.
    pub fn push(&mut self, item: T)
        ensures
            final(self)@ == old(self)@.push(item),
    {
        self.items.push(item);
    }

    /// Removes and returns the top item, if any.
    pub fn pop(&mut self) -> (r: Option<T>)
        ensures
            old(self)@.len() == 0 ==> r is None && final(self)@ == old(self)@,
            old(self)@.len() > 0 ==> r == Some(old(self)@.last()) && final(self)@ == old(self)@.drop_last(),
    {
        self.items.pop()
    }

    /// The top item, if any.
    pub fn peek(&self) -> (r: Option<&T>)
        ensures
            self@.len() == 0 ==> r is None,
            self@.len() > 0 ==> r == Some(&self@.last()),
    {
        self.items.last()
    }

    /// Whether the stack is empty.
    pub fn is_empty(&self) -> (b: bool)
        ensures
            b == (self@.len() == 0),
    {
        self.items.is_empty()
    }

    /// The number of items.
    pub fn len(&self) -> (n: usize)
        ensures
            n == self@.len(),
    {
        self.items.len()
    }

    /// Removes every item.
    pub fn clear(&mut self)
        ensures
            final(self)@ == Seq::<T>::empty(),
    {
        self.items.clear();
    }
}

impl<T> Default for Stack<T> {
    fn default() -> (s: Self)
        ensures
            s@ == Seq::<T>::empty(),
    {
        Self::new()
    }
}

/// `T`'s comparison operators follow its `partial_cmp` specification.
pub open spec fn obeys_order<T: PartialOrd>() -> bool {
    T::obeys_partial_cmp_spec()
}

/// The index of the first item among `s[0..n]` that no later item in that
/// range is greater than, scanning left to right and replacing the current
/// candidate only by a strictly greater item.
pub open spec fn max_index<T: PartialOrd>(s: Seq<T>, n: int) -> int
    decreases n,
{
    if n <= 1 {
        0
    } else {
        let m = max_index(s, n - 1);
        if s[n - 1].is_gt(&s[m]) {
            n - 1
        } else {
            m
        }
    }
}

/// The same scan keeping the candidate that no later item is smaller than.
pub open spec fn min_index<T: PartialOrd>(s: Seq<T>, n: int) -> int
    decreases n,
{
    if n <= 1 {
        0
    } else {
        let m = min_index(s, n - 1);
        if s[n - 1].is_lt(&s[m]) {
            n - 1
        } else {
            m
        }
    }
}

/// For an order whose `>` and `<` are transitive, the scan finds a largest
/// item among `s[0..n]` (none is greater) and a smallest one (none is
/// smaller), each at an index in that range.
pub proof fn law_max_min_index<T: PartialOrd>(s: Seq<T>, n: int)
    requires
        vstd::laws_cmp::obeys_partial_cmp_spec_properties::<T>(),
        0 < n <= s.len(),
    ensures
        0 <= max_index(s, n) < n,
        forall|i: int| 0 <= i < n ==> !(#[trigger] s[i]).is_gt(&s[max_index(s, n)]),
        0 <= min_index(s, n) < n,
        forall|i: int| 0 <= i < n ==> !(#[trigger] s[i]).is_lt(&s[min_index(s, n)]),
    decreases n,
{
    reveal(vstd::laws_cmp::obeys_partial_cmp_spec_properties);
    if n > 1 {
        law_max_min_index(s, n - 1);
        let m = max_index(s, n - 1);
        if s[n - 1].is_gt(&s[m]) {
            assert forall|i: int| 0 <= i < n implies !(#[trigger] s[i]).is_gt(&s[n - 1]) by {
                if i < n - 1 && s[i].is_gt(&s[n - 1]) {
                    assert(s[i].partial_cmp_spec(&s[m]) == Some(core::cmp::Ordering::Greater));
                }
                if i == n - 1 && s[i].is_gt(&s[n - 1]) {
                    assert(s[n - 1].partial_cmp_spec(&s[n - 1]) == Some(core::cmp::Ordering::Less));
                }
            }
        }
        let k = min_index(s, n - 1);
        if s[n - 1].is_lt(&s[k]) {
            assert forall|i: int| 0 <= i < n implies !(#[trigger] s[i]).is_lt(&s[n - 1]) by {
                if i < n - 1 && s[i].is_lt(&s[n - 1]) {
                    assert(s[i].partial_cmp_spec(&s[k]) == Some(core::cmp::Ordering::Less));
                }
                if i == n - 1 && s[i].is_lt(&s[n - 1]) {
                    assert(s[n - 1].partial_cmp_spec(&s[n - 1]) == Some(core::cmp::Ordering::Greater));
                }
            }
        }
    }
}

/// The largest item of `list` (the first of equal largest ones), or `None`
/// when it is empty. Which item is found is stated for types whose `>`
/// follows their `partial_cmp` specification.
pub fn find_max<T: PartialOrd>(list: &[T]) -> (r: Option<&T>)
    ensures
        list@.len() == 0 <==> r is None,
        obeys_order::<T>() && list@.len() > 0 ==> r == Some(
            &list@[max_index(list@, list@.len() as int)],
        ),
{
    if list.len() == 0 {
        return None;
    }
    let mut m: usize = 0;
    let mut i: usize = 1;
    while i < list.len()
        invariant
            1 <= i <= list@.len(),
            m < i,
            obeys_order::<T>() ==> m == max_index(list@, i as int),
        decreases list.len() - i,
    {
        if list[i] > list[m] {
            m = i;
        }
        i = i + 1;
    }
    Some(&list[m])
}

/// The smallest item of `list` (the first of equal smallest ones), or
/// `None` when it is empty. Which item is found is stated for types whose
/// `<` follows their `partial_cmp` specification.
pub fn find_min<T: PartialOrd>(list: &[T]) -> (r: Option<&T>)
    ensures
        list@.len() == 0 <==> r is None,
        obeys_order::<T>() && list@.len() > 0 ==> r == Some(
            &list@[min_index(list@, list@.len() as int)],
        ),
{
    if list.len() == 0 {
        return None;
    }
    let mut m: usize = 0;
    let mut i: usize = 1;
    while i < list.len()
        invariant
            1 <= i <= list@.len(),
            m < i,
            obeys_order::<T>() ==> m == min_index(list@, i as int),
        decreases list.len() - i,
    {
        if list[i] < list[m] {
            m = i;
        }
        i = i + 1;
    }
    Some(&list[m])
}

/// Popping right after pushing `x` gives back `x` and leaves the stack as it
/// was before the push (the model of `push` and `pop`).
pub proof fn law_pop_undoes_push<T>(s: Seq<T>, x: T)
    ensures
        s.push(x).len() > 0,
        s.push(x).last() == x,
        s.push(x).drop_last() == s,
{
    assert(s.push(x).drop_last() =~= s);
}

} // verus!
