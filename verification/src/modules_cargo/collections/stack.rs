//! A generic last-in-first-out stack, and a bracket checker built on it.
use vstd::prelude::*;
use crate::text;

verus! {

/// A last-in-first-out stack; its view lists the elements bottom to top.
#[derive(Debug, Clone)]
pub struct Stack<T> {
    elements: Vec<T>,
}

impl<T> View for Stack<T> {
    type V = Seq<T>;

    closed spec fn view(&self) -> Seq<T> {
        self.elements@
    }
}

impl<T> Stack<T> {
    /// Creates an empty stack.
    pub fn new() -> (s: Self)
        ensures
            s@ == Seq::<T>::empty(),
    {
        Stack { elements: Vec::new() }
    }

    /// Pushes `item` on top.
    pub fn push(&mut self, item: T)
        ensures
            final(self)@ == old(self)@.push(item),
    {
        self.elements.push(item);
    }

    /// Removes and returns the top element, or `None` when empty.
    pub fn pop(&mut self) -> (r: Option<T>)
        ensures
            old(self)@.len() == 0 ==> r is None && final(self)@ == old(self)@,
            old(self)@.len() > 0 ==> r == Some(old(self)@.last()) && final(self)@
                == old(self)@.drop_last(),
    {
        self.elements.pop()
    }

    /// The top element, without removing it.
    pub fn peek(&self) -> (r: Option<&T>)
        ensures
            r == (if self@.len() > 0 { Some(&self@.last()) } else { None }),
    {
        self.elements.last()
    }

    /// Whether the stack holds no element.
    pub fn is_empty(&self) -> (b: bool)
        ensures
            b == (self@.len() == 0),
    {
        self.elements.is_empty()
    }

    /// The number of elements.
    pub fn size(&self) -> (n: usize)
        ensures
            n == self@.len(),
    {
        self.elements.len()
    }

    /// Removes every element.
    pub fn clear(&mut self)
        ensures
            final(self)@ == Seq::<T>::empty(),
    {
        self.elements.clear();
    }

    /// The elements, bottom first.
    pub fn into_vec(self) -> (v: Vec<T>)
        ensures
            v@ == self@,
    {
        self.elements
    }
}

impl<T> Default for Stack<T> {
    fn default() -> (s: Self)
        ensures
            s@ == Seq::<T>::empty(),
    {
        Self::new()
    }
}

/// The opening bracket that `c` closes (only meaningful for `)`, `]`, `}`).
pub open spec fn opener_of(c: char) -> char {
    if c == ')' {
        '('
    } else if c == ']' {
        '['
    } else {
        '{'
    }
}

/// `c` is one of `(`, `[`, `{`.
pub open spec fn is_opener(c: char) -> bool {
    c == '(' || c == '[' || c == '{'
}

/// `c` is one of `)`, `]`, `}`.
pub open spec fn is_closer(c: char) -> bool {
    c == ')' || c == ']' || c == '}'
}

/// Scans `s` with the brackets still open in `open` (innermost last): the
/// brackets left open at the end, or `None` at the first closing bracket that
/// does not match the innermost open one. Other characters are skipped.
pub open spec fn bracket_scan(s: Seq<char>, open: Seq<char>) -> Option<Seq<char>>
    decreases s.len(),
{
    if s.len() == 0 {
        Some(open)
    } else {
        let c = s[0];
        if is_opener(c) {
            bracket_scan(s.drop_first(), open.push(c))
        } else if is_closer(c) {
            if open.len() > 0 && open.last() == opener_of(c) {
                bracket_scan(s.drop_first(), open.drop_last())
            } else {
                None
            }
        } else {
            bracket_scan(s.drop_first(), open)
        }
    }
}

/// Every bracket of `s` is closed by a matching bracket, properly nested.
pub open spec fn balanced(s: Seq<char>) -> bool {
    bracket_scan(s, Seq::empty()) == Some(Seq::<char>::empty())
}

/// Counting `x` from the front of `s`.
proof fn lemma_count_front(s: Seq<char>, x: char)
    requires
        s.len() > 0,
    ensures
        text::count_char(s, x) == text::count_char(s.drop_first(), x) + if s[0] == x {
            1nat
        } else {
            0nat
        },
    decreases s.len(),
{
    if s.len() > 1 {
        lemma_count_front(s.drop_last(), x);
        assert(s.drop_last().drop_first() =~= s.drop_first().drop_last());
        assert(s.drop_first().last() == s.last());
    } else {
        assert(s.drop_last() =~= Seq::<char>::empty());
        assert(s.drop_first() =~= Seq::<char>::empty());
    }
}

proof fn lemma_scan_counts(s: Seq<char>, open: Seq<char>, o: char, c: char)
    requires
        (o == '(' && c == ')') || (o == '[' && c == ']') || (o == '{' && c == '}'),
        bracket_scan(s, open) is Some,
    ensures
        text::count_char(open, o) + text::count_char(s, o) == text::count_char(s, c)
            + text::count_char(bracket_scan(s, open)->0, o),
    decreases s.len(),
{
    if s.len() > 0 {
        let ch = s[0];
        let rest = s.drop_first();
        lemma_count_front(s, o);
        lemma_count_front(s, c);
        if is_opener(ch) {
            lemma_scan_counts(rest, open.push(ch), o, c);
            assert(open.push(ch).drop_last() =~= open);
        } else if is_closer(ch) {
            lemma_scan_counts(rest, open.drop_last(), o, c);
            assert(open.drop_last().push(open.last()) =~= open);
            assert(open =~= open.drop_last().push(open.last()));
            assert(text::count_char(open, o) == text::count_char(open.drop_last(), o) + if open.last() == o {
                1nat
            } else {
                0nat
            });
        } else {
            lemma_scan_counts(rest, open, o, c);
        }
    }
}

/// In a balanced text every kind of bracket is closed as often as it is
/// opened: as many `(` as `)`, `[` as `]`, and `{` as `}`. So a text with
/// one `{` and no `}` is not balanced.
pub proof fn law_balanced_counts(s: Seq<char>)
    requires
        balanced(s),
    ensures
        text::count_char(s, '(') == text::count_char(s, ')'),
        text::count_char(s, '[') == text::count_char(s, ']'),
        text::count_char(s, '{') == text::count_char(s, '}'),
{
    let e = Seq::<char>::empty();
    assert(text::count_char(e, '(') == 0 && text::count_char(e, '[') == 0 && text::count_char(e, '{') == 0);
    lemma_scan_counts(s, e, '(', ')');
    lemma_scan_counts(s, e, '[', ']');
    lemma_scan_counts(s, e, '{', '}');
}

/// Whether the brackets `()`, `[]` and `{}` in `s` are balanced and properly
/// nested; other characters are ignored.
pub fn is_balanced(s: &str) -> (b: bool)
    ensures
        b == balanced(s@),
        b ==> text::count_char(s@, '(') == text::count_char(s@, ')'),
        b ==> text::count_char(s@, '[') == text::count_char(s@, ']'),
        b ==> text::count_char(s@, '{') == text::count_char(s@, '}'),
{
    let cs = text::chars_of(s);
    let mut stack: Stack<char> = Stack::new();
    let mut i: usize = 0;
    assert(s@.skip(0) =~= s@);
    while i < cs.len()
        invariant
            i <= cs@.len(),
            cs@ == s@,
            bracket_scan(s@, Seq::empty()) == bracket_scan(s@.skip(i as int), stack@),
        decreases cs.len() - i,
    {
        let ch = cs[i];
        assert(s@.skip(i as int).drop_first() =~= s@.skip(i + 1));
        assert(s@.skip(i as int)[0] == ch);
        if ch == '(' || ch == '[' || ch == '{' {
            stack.push(ch);
        } else if ch == ')' || ch == ']' || ch == '}' {
            let want = if ch == ')' {
                '('
            } else if ch == ']' {
                '['
            } else {
                '{'
            };
            let top = stack.pop();
            match top {
                Some(t) => {
                    if t != want {
                        return false;
                    }
                },
                None => {
                    return false;
                },
            }
        }
        i = i + 1;
    }
    assert(s@.skip(i as int) =~= Seq::<char>::empty());
    let r = stack.is_empty();
    assert(r ==> stack@ =~= Seq::<char>::empty());
    proof {
        if r {
            law_balanced_counts(s@);
        }
    }
    r
}

} // verus!
