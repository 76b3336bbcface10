//! A calculator that keeps a history of its results. The arithmetic itself
//! is on floating-point numbers and is done outside the verified library;
//! here are the input checks, the operators and the history.
use vstd::prelude::*;
use crate::ownership::history::History;
use crate::text;

verus! {

/// An arithmetic operator.
#[derive(Debug, Clone, Copy, PartialEq, Eq, Structural)]
pub enum Operator {
    Add,
    Sub,
    Mul,
    Div,
}

/// The message for input that is not three words.
pub open spec fn format_message() -> Seq<char> {
    "格式错误！请使用：<数字> <运算符> <数字>"@
}

/// The operator that `op` spells, if any.
pub open spec fn operator_of(op: Seq<char>) -> Option<Operator> {
    if op == seq!['+'] {
        Some(Operator::Add)
    } else if op == seq!['-'] {
        Some(Operator::Sub)
    } else if op == seq!['*'] {
        Some(Operator::Mul)
    } else if op == seq!['/'] {
        Some(Operator::Div)
    } else {
        None
    }
}

/// The four spellings are different texts.
proof fn lemma_spellings_differ()
    ensures
        seq!['+'] != seq!['-'],
        seq!['+'] != seq!['*'],
        seq!['+'] != seq!['/'],
        seq!['-'] != seq!['*'],
        seq!['-'] != seq!['/'],
        seq!['*'] != seq!['/'],
{
    assert(seq!['+'][0] == '+' && seq!['-'][0] == '-' && seq!['*'][0] == '*' && seq!['/'][0] == '/');
}

/// The four operators are spelled `+`, `-`, `*` and `/`, each by one
/// character; no other text is an operator, and different texts never
/// spell the same operator.
pub proof fn law_operator_spellings(a: Seq<char>, b: Seq<char>)
    ensures
        operator_of(seq!['+']) == Some(Operator::Add),
        operator_of(seq!['-']) == Some(Operator::Sub),
        operator_of(seq!['*']) == Some(Operator::Mul),
        operator_of(seq!['/']) == Some(Operator::Div),
        operator_of(a) is Some <==> (a == seq!['+'] || a == seq!['-'] || a == seq!['*'] || a
            == seq!['/']),
        operator_of(a) is Some && operator_of(a) == operator_of(b) ==> a == b,
{
    lemma_spellings_differ();
}

/// Whether `s` is the single character `c`.
fn is_single(s: &str, c: char) -> (b: bool)
    ensures
        b == (s@ == seq![c]),
{
    let cs = text::chars_of(s);
    if cs.len() == 1 && cs[0] == c {
        assert(s@ =~= seq![c]);
        true
    } else {
        false
    }
}

impl Operator {
    /// The operator that `op` spells (`+`, `-`, `*` or `/`), or a message
    /// naming the unsupported operator.
    pub fn parse(op: &str) -> (r: Result<Operator, String>)
        ensures
            match operator_of(op@) {
                Some(o) => r == Ok::<Operator, String>(o),
                None => r is Err && r->Err_0@ == "不支持的运算符: "@ + op@,
            },
            op@ == seq!['+'] ==> r == Ok::<Operator, String>(Operator::Add),
            op@ == seq!['-'] ==> r == Ok::<Operator, String>(Operator::Sub),
            op@ == seq!['*'] ==> r == Ok::<Operator, String>(Operator::Mul),
            op@ == seq!['/'] ==> r == Ok::<Operator, String>(Operator::Div),
            r is Ok <==> (op@ == seq!['+'] || op@ == seq!['-'] || op@ == seq!['*'] || op@ == seq!['/']),
    {
        proof {
            lemma_spellings_differ();
        }
        if is_single(op, '+') {
            Ok(Operator::Add)
        } else if is_single(op, '-') {
            Ok(Operator::Sub)
        } else if is_single(op, '*') {
            Ok(Operator::Mul)
        } else if is_single(op, '/') {
            Ok(Operator::Div)
        } else {
            let mut m = "不支持的运算符: ".to_owned();
            text::push_str(&mut m, op);
            Err(m)
        }
    }
}

/// A calculator with a history of its calculations.
pub struct Calculator {
    history: History,
}

impl Calculator {
    /// The calculations recorded so far, oldest first.
    pub closed spec fn records(&self) -> Seq<String> {
        self.history@
    }

    /// A calculator with an empty history.
    pub fn new() -> (c: Self)
        ensures
            c.records() == Seq::<String>::empty(),
    {
        Calculator { history: History::new() }
    }

    /// The three words of a calculation `<number> <operator> <number>`, or
    /// the format message when `input` does not have exactly three words.
    pub fn split_input(input: &str) -> (r: Result<Vec<String>, String>)
        ensures
            text::words(input@).len() == 3 ==> r is Ok && text::views(r->Ok_0@) == text::words(
                input@,
            ),
            text::words(input@).len() != 3 ==> r is Err && r->Err_0@ == format_message(),
    {
        let parts = text::split_whitespace(input);
        if parts.len() != 3 {
            proof {
                assert(text::views(parts@).len() == parts@.len());
            }
            Err("格式错误！请使用：<数字> <运算符> <数字>".to_owned())
        } else {
            Ok(parts)
        }
    }

    /// Adds a calculation record to the history; the history owns it.
    pub fn record(&mut self, entry: String)
        ensures
            final(self).records() == old(self).records().push(entry),
    {
        self.history.add(entry);
    }

    /// The history.
    pub fn history(&self) -> (h: &History)
        ensures
            h@ == self.records(),
    {
        &self.history
    }

    /// Empties the history.
    pub fn clear_history(&mut self)
        ensures
            final(self).records() == Seq::<String>::empty(),
    {
        self.history.clear();
    }
}

} // verus!
