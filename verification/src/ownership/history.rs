//! A history of calculation records, showing ownership (records are moved
//! in) and borrowing (records are read out by reference).
use vstd::prelude::*;
use vstd::std_specs::iter::IteratorSpec;

verus! {

/// An append-only log of calculation records.
pub struct History {
    records: Vec<String>,
}

impl View for History {
    type V = Seq<String>;

    closed spec fn view(&self) -> Seq<String> {
        self.records@
    }
}

impl History {
    /// Creates an empty history.
    pub fn new() -> (h: Self)
        ensures
            h@ == Seq::<String>::empty(),
    {
        History { records: Vec::new() }
    }

    /// Appends a record; the history takes ownership of it.
    pub fn add(&mut self, record: String)
        ensures
            final(self)@ == old(self)@.push(record),
    {
        self.records.push(record);
    }

    /// Iterates over the records, oldest first.
    pub fn iter(&self) -> (it: std::slice::Iter<'_, String>)
        ensures
            it.remaining().unref() == self@,
    {
        self.records.iter()
    }

    /// Whether no record has been added since creation or the last `clear`.
    pub fn is_empty(&self) -> (b: bool)
        ensures
            b == (self@.len() == 0),
    {
        self.records.is_empty()
    }

    /// The number of records.
    pub fn len(&self) -> (n: usize)
        ensures
            n == self@.len(),
    {
        self.records.len()
    }

    /// Removes every record.
    pub fn clear(&mut self)
        ensures
            final(self)@ == Seq::<String>::empty(),
    {
        self.records.clear();
    }

    /// The record at `index`, if there is one.
    pub fn get(&self, index: usize) -> (r: Option<&String>)
        ensures
            r == (if index < self@.len() { Some(&self@[index as int]) } else { None }),
    {
        if index < self.records.len() {
            Some(&self.records[index])
        } else {
            None
        }
    }

    /// The most recent record, if there is one.
    pub fn last(&self) -> (r: Option<&String>)
        ensures
            r == (if self@.len() > 0 { Some(&self@[self@.len() - 1]) } else { None }),
    {
        self.records.last()
    }
}

impl Default for History {
    fn default() -> (h: Self)
        ensures
            h@ == Seq::<String>::empty(),
    {
        Self::new()
    }
}

} // verus!
