//! Swapping two values through references.
use vstd::prelude::*;

verus! {

/// Exchanges the values of `a` and `b`.
pub fn safe_swap(a: &mut i32, b: &mut i32)
    ensures
        *final(a) == *old(b),
        *final(b) == *old(a),
{
    std::mem::swap(a, b);
}

} // verus!
