//! A custom box, a shared pointer with a strong count, and a named resource.
use std::ops::Deref;
use std::rc::Rc;
use vstd::prelude::*;

verus! {

/// A value owned through a custom pointer type.
pub struct MyBox<T> {
    data: T,
}

impl<T> MyBox<T> {
    /// The value the box holds.
    pub closed spec fn contents(&self) -> T {
        self.data
    }

    /// A box holding `data`.
    pub fn new(data: T) -> (b: Self)
        ensures
            b.contents() == data,
    {
        MyBox { data }
    }

    /// The value the box holds.
    pub fn get(&self) -> (r: &T)
        ensures
            *r == self.contents(),
    {
        &self.data
    }
}

impl<T> Deref for MyBox<T> {
    type Target = T;

    fn deref(&self) -> (r: &T)
        ensures
            *r == self.contents(),
    {
        &self.data
    }
}

/// A value shared by every clone of the pointer; the strong count says
/// how many clones are alive.
pub struct SimpleRc<T> {
    data: Rc<T>,
}

impl<T> SimpleRc<T> {
    /// The shared value.
    pub closed spec fn contents(&self) -> T {
        *self.data
    }

    /// A new shared value; its count is one.
    pub fn new(value: T) -> (p: Self)
        ensures
            p.contents() == value,
    {
        SimpleRc { data: Rc::new(value) }
    }

    /// How many pointers to the value are alive; at least this one.
    pub fn strong_count(&self) -> (n: usize)
        ensures
            n >= 1,
    {
        rc_strong_count(&self.data)
    }

    /// The shared value.
    pub fn get(&self) -> (r: &T)
        ensures
            *r == self.contents(),
    {
        &*self.data
    }
}

impl<T> Clone for SimpleRc<T> {
    /// Another pointer to the same value.
    fn clone(&self) -> (p: Self)
        ensures
            p.contents() == self.contents(),
    {
        SimpleRc { data: rc_clone(&self.data) }
    }
}

impl<T> Deref for SimpleRc<T> {
    type Target = T;

    fn deref(&self) -> (r: &T)
        ensures
            *r == self.contents(),
    {
        &*self.data
    }
}

/// Calls `Rc::strong_count`. Claims, as `rc` is itself one strong
/// pointer, that the count is at least one; the count depends on the other
/// clones alive and is otherwise left open.
#[verifier::external_body]
fn rc_strong_count<T>(rc: &Rc<T>) -> (n: usize)
    ensures
        n >= 1,
{
    Rc::strong_count(rc)
}

/// Calls `Rc::clone`: another pointer to the same value.
#[verifier::external_body]
fn rc_clone<T>(rc: &Rc<T>) -> (r: Rc<T>)
    ensures
        *r == **rc,
{
    Rc::clone(rc)
}

/// A value with a name.
pub struct Resource<T> {
    data: T,
    name: String,
}

impl<T> Resource<T> {
    /// The held value.
    pub closed spec fn contents(&self) -> T {
        self.data
    }

    /// The resource's name.
    pub closed spec fn name_spec(&self) -> Seq<char> {
        self.name@
    }

    /// A resource holding `data` under `name`.
    pub fn new(data: T, name: String) -> (r: Self)
        ensures
            r.contents() == data,
            r.name_spec() == name@,
    {
        Resource { data, name }
    }

    /// The held value.
    pub fn get(&self) -> (r: &T)
        ensures
            *r == self.contents(),
    {
        &self.data
    }

    /// The resource's name.
    pub fn name(&self) -> (r: &str)
        ensures
            r@ == self.name_spec(),
    {
        self.name.as_str()
    }
}

} // verus!
