//! A singly linked list of boxed nodes, and borrowed views of strings.
use vstd::prelude::*;
use crate::text;
use crate::text::byte_len;

verus! {

/// A node of a [`LinkedList`].
#[derive(Debug)]
pub struct Node<T> {
    pub value: T,
    pub next: Option<Box<Node<T>>>,
}

/// The values held by the chain of nodes starting at `n`, front first.
pub open spec fn chain<T>(n: Option<Box<Node<T>>>) -> Seq<T>
    decreases n,
{
    match n {
        None => Seq::empty(),
        Some(b) => seq![b.value] + chain(b.next),
    }
}

/// A singly linked list that keeps its length.
#[derive(Debug)]
pub struct LinkedList<T> {
    head: Option<Box<Node<T>>>,
    size: usize,
}

impl<T> View for LinkedList<T> {
    type V = Seq<T>;

    closed spec fn view(&self) -> Seq<T> {
        chain(self.head)
    }
}

impl<T> LinkedList<T> {
    /// The stored length is the number of nodes.
    pub closed spec fn wf(&self) -> bool {
        self.size == chain(self.head).len()
    }

    /// An empty list.
    pub fn new() -> (l: Self)
        ensures
            l.wf(),
            l@ == Seq::<T>::empty(),
    {
        LinkedList { head: None, size: 0 }
    }

    /// Puts `value` in front.
    pub fn push_front(&mut self, value: T)
        requires
            old(self).wf(),
            old(self)@.len() < usize::MAX,
        ensures
            final(self).wf(),
            final(self)@ == seq![value] + old(self)@,
    {
        let new_node = Box::new(Node { value, next: self.head.take() });
        self.head = Some(new_node);
        self.size = self.size + 1;
    }

    /// Removes and returns the front value, if any.
    pub fn pop_front(&mut self) -> (r: Option<T>)
        requires
            old(self).wf(),
        ensures
            final(self).wf(),
            old(self)@.len() == 0 ==> r is None && final(self)@ == old(self)@,
            old(self)@.len() > 0 ==> r == Some(old(self)@[0]) && final(self)@ == old(self)@.drop_first(),
    {
        match self.head.take() {
            None => None,
            Some(node) => {
                let node = *node;
                assert(chain(Some(Box::new(node))).drop_first() =~= chain(node.next));
                self.head = node.next;
                self.size = self.size - 1;
                Some(node.value)
            },
        }
    }

    /// The front value, if any.
    pub fn front(&self) -> (r: Option<&T>)
        ensures
            self@.len() == 0 ==> r is None,
            self@.len() > 0 ==> r == Some(&self@[0]),
    {
        match &self.head {
            None => None,
            Some(node) => Some(&node.value),
        }
    }

    /// Whether the list is empty.
    pub fn is_empty(&self) -> (b: bool)
        ensures
            b == (self@.len() == 0),
    {
        self.head.is_none()
    }

    /// The number of values.
    pub fn len(&self) -> (n: usize)
        requires
            self.wf(),
        ensures
            n == self@.len(),
    {
        self.size
    }

    /// Removes every value.
    pub fn clear(&mut self)
        ensures
            final(self).wf(),
            final(self)@ == Seq::<T>::empty(),
    {
        self.head = None;
        self.size = 0;
    }
}

/// Popping right after pushing `x` yields `x` and gives back the values
/// (and so the length) that the list had before the push.
pub proof fn law_pop_after_push<T>(before: Seq<T>, x: T)
    ensures
        (seq![x] + before).len() > 0,
        (seq![x] + before)[0] == x,
        (seq![x] + before).drop_first() == before,
        (seq![x] + before).drop_first().len() == before.len(),
{
    assert((seq![x] + before).drop_first() =~= before);
}

impl<T> Default for LinkedList<T> {
    fn default() -> (l: Self)
        ensures
            l.wf(),
            l@ == Seq::<T>::empty(),
    {
        Self::new()
    }
}

/// A borrowed value.
#[derive(Debug)]
pub struct RefWrapper<'a, T> {
    value: &'a T,
}

impl<'a, T> RefWrapper<'a, T> {
    /// The value that the wrapper borrows.
    pub closed spec fn borrowed(&self) -> T {
        *self.value
    }

    /// Wraps a borrow of `value`.
    pub fn new(value: &'a T) -> (w: Self)
        ensures
            w.borrowed() == *value,
    {
        RefWrapper { value }
    }

    /// The borrowed value.
    pub fn get(&self) -> (r: &T)
        ensures
            *r == self.borrowed(),
    {
        self.value
    }
}

/// Whichever of `x` and `y` is longer in bytes; `y` when they are equally long.
pub fn longest<'a>(x: &'a str, y: &'a str) -> (r: &'a str)
    ensures
        r == (if byte_len(x@) > byte_len(y@) {
            x
        } else {
            y
        }),
{
    if text::utf8_len(x) > text::utf8_len(y) {
        x
    } else {
        y
    }
}

/// `r` is the longest prefix of `s` that holds no `c`.
pub open spec fn prefix_before(s: Seq<char>, c: char, r: Seq<char>) -> bool {
    &&& r.len() <= s.len()
    &&& r == s.take(r.len() as int)
    &&& !r.contains(c)
    &&& r.len() < s.len() ==> s[r.len() as int] == c
}

/// Scans `s` for the first `c`: its index (or the length of `s`) and the
/// number of bytes before it.
fn scan_to(s: &str, c: char) -> (r: (usize, usize))
    ensures
        r.0 <= s@.len(),
        r.1 == byte_len(s@.take(r.0 as int)),
        prefix_before(s@, c, s@.take(r.0 as int)),
{
    let n = text::utf8_len(s);
    let cs = text::chars_of(s);
    let mut k: usize = 0;
    let mut off: usize = 0;
    while k < cs.len()
        invariant
            cs@ == s@,
            n == byte_len(s@),
            k <= cs@.len(),
            off == byte_len(s@.take(k as int)),
            forall|j: int| 0 <= j < k ==> s@[j] != c,
        decreases cs.len() - k,
    {
        if cs[k] == c {
            assert(!s@.take(k as int).contains(c));
            return (k, off);
        }
        proof {
            text::lemma_prefix_len(s@, k as int);
        }
        let w = text::char_len_utf8(cs[k]);
        off = off + w;
        k = k + 1;
    }
    assert(!s@.take(k as int).contains(c));
    (k, off)
}

/// The first word of `s`: everything before its first space (all of `s`
/// when it has none).
pub fn first_word(s: &str) -> (r: &str)
    ensures
        prefix_before(s@, ' ', r@),
{
    let (k, off) = scan_to(s, ' ');
    text::str_prefix(s, Ghost(k as int), off)
}

/// A borrowed piece of text.
#[derive(Debug)]
pub struct Excerpt<'a> {
    pub text: &'a str,
}

impl<'a> Excerpt<'a> {
    /// An excerpt of `text`.
    pub fn new(text: &'a str) -> (e: Self)
        ensures
            e.text == text,
    {
        Excerpt { text }
    }

    /// The text up to and including its first `.`; the whole text when it
    /// has none.
    pub fn first_sentence(&self) -> (r: &str)
        ensures
            !self.text@.contains('.') ==> r@ == self.text@,
            self.text@.contains('.') ==> {
                &&& r@.len() > 0
                &&& r@.last() == '.'
                &&& prefix_before(self.text@, '.', r@.drop_last())
            },
    {
        let (k, off) = scan_to(self.text, '.');
        let n = text::utf8_len(self.text);
        if off < n {
            proof {
                if k == self.text@.len() {
                    assert(self.text@.take(k as int) =~= self.text@);
                }
                text::lemma_prefix_len(self.text@, k as int);
                assert(self.text@[k as int] == '.');
                vstd::utf8::is_ascii_chars_encode_utf8(seq!['.']);
                assert(self.text@.take(k + 1).drop_last() =~= self.text@.take(k as int));
            }
            text::str_prefix(self.text, Ghost(k + 1), off + 1)
        } else {
            proof {
                if k < self.text@.len() {
                    text::lemma_prefix_len(self.text@, k as int);
                    vstd::utf8::is_ascii_chars_encode_utf8(seq!['.']);
                }
                assert(self.text@.take(k as int) =~= self.text@);
            }
            self.text
        }
    }

    /// The length of the text in bytes.
    pub fn len(&self) -> (n: usize)
        ensures
            n == byte_len(self.text@),
    {
        text::utf8_len(self.text)
    }

    /// Whether the text is empty.
    pub fn is_empty(&self) -> (b: bool)
        ensures
            b == (self.text@.len() == 0),
    {
        self.text.is_empty()
    }
}

/// Popping the front right after pushing `x` in front gives back `x` and
/// leaves the list as it was.
pub proof fn law_pop_front_undoes_push_front<T>(s: Seq<T>, x: T)
    ensures
        (seq![x] + s).len() > 0,
        (seq![x] + s)[0] == x,
        (seq![x] + s).drop_first() == s,
{
    assert((seq![x] + s).drop_first() =~= s);
}

} // verus!
