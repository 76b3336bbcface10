//! `abs`, `strlen` and `strcmp` with the meaning the C library gives them,
//! and the arithmetic exported to C.
use std::cmp::Ordering;
use vstd::prelude::*;
use vstd::utf8::encode_utf8;

verus! {

/// `a + b`, for C callers; the sum must fit in an `i32`.
pub fn rust_add(a: i32, b: i32) -> (r: i32)
    requires
        i32::MIN <= a + b <= i32::MAX,
    ensures
        r == a + b,
{
    a + b
}

/// `a * b`, for C callers; the product must fit in an `i32`.
pub fn rust_multiply(a: i32, b: i32) -> (r: i32)
    requires
        i32::MIN <= a * b <= i32::MAX,
    ensures
        r == a * b,
{
    a * b
}

/// How the byte strings `a` and `b` compare, byte by byte as unsigned
/// values, a proper prefix coming first (what C's `strcmp` decides).
pub open spec fn byte_order(a: Seq<u8>, b: Seq<u8>) -> Ordering
    decreases a.len(),
{
    if a.len() == 0 {
        if b.len() == 0 {
            Ordering::Equal
        } else {
            Ordering::Less
        }
    } else if b.len() == 0 {
        Ordering::Greater
    } else if a[0] < b[0] {
        Ordering::Less
    } else if a[0] > b[0] {
        Ordering::Greater
    } else {
        byte_order(a.drop_first(), b.drop_first())
    }
}

/// Byte strings compare equal exactly when they are the same, and swapping
/// them turns `Less` into `Greater` and back; a proper prefix comes first.
pub proof fn law_byte_order(a: Seq<u8>, b: Seq<u8>)
    ensures
        (byte_order(a, b) == Ordering::Equal) <==> a == b,
        (byte_order(a, b) == Ordering::Less) <==> (byte_order(b, a) == Ordering::Greater),
        a.len() < b.len() && (forall|i: int| 0 <= i < a.len() ==> a[i] == b[i]) ==> byte_order(a, b)
            == Ordering::Less,
    decreases a.len(),
{
    if a.len() > 0 && b.len() > 0 {
        law_byte_order(a.drop_first(), b.drop_first());
        if a[0] == b[0] {
            if a.drop_first() == b.drop_first() {
                assert(a =~= seq![a[0]] + a.drop_first());
                assert(b =~= seq![b[0]] + b.drop_first());
            }
            if a.len() < b.len() && (forall|i: int| 0 <= i < a.len() ==> a[i] == b[i]) {
                assert(forall|i: int| 0 <= i < a.drop_first().len() ==> a.drop_first()[i] == a[i + 1]);
                assert(forall|i: int| 0 <= i < a.drop_first().len() ==> b.drop_first()[i] == b[i + 1]);
            }
        } else {
            assert(a[0] != b[0]);
            if a == b {
                assert(false);
            }

        }
    } else if a.len() == 0 && b.len() > 0 {
        assert(a != b);
    } else if a.len() > 0 && b.len() == 0 {
        assert(a != b);
    } else {
        assert(a =~= b);
    }
}

/// The bytes of `s` from index `i` on.
pub open spec fn from_index(s: Seq<u8>, i: usize) -> Seq<u8> {
    s.skip(i as int)
}

/// Safe forms of C library functions. A string handed to C must hold no
/// NUL character.
pub struct SafeFFI;

impl SafeFFI {
    /// The absolute value of `n` (which is not `i32::MIN`), as C's `abs`.
    pub fn abs(n: i32) -> (r: i32)
        requires
            n != i32::MIN,
        ensures
            r == if n < 0 {
                -n
            } else {
                n as int
            },
    {
        if n < 0 {
            -n
        } else {
            n
        }
    }

    /// The number of bytes of `s`, as C's `strlen` counts them.
    pub fn strlen(s: &str) -> (r: usize)
        requires
            !s@.contains('\0'),
        ensures
            r == encode_utf8(s@).len(),
    {
        s.as_bytes().len()
    }

    /// How `s1` and `s2` compare, as C's `strcmp` decides.
    pub fn strcmp(s1: &str, s2: &str) -> (r: Ordering)
        requires
            !s1@.contains('\0'),
            !s2@.contains('\0'),
        ensures
            r == byte_order(encode_utf8(s1@), encode_utf8(s2@)),
    {
        let a = s1.as_bytes();
        let b = s2.as_bytes();
        let mut i: usize = 0;
        assert(from_index(a@, 0) =~= a@);
        assert(from_index(b@, 0) =~= b@);
        while i < a.len() && i < b.len()
            invariant
                a@ == encode_utf8(s1@),
                b@ == encode_utf8(s2@),
                i <= a@.len(),
                i <= b@.len(),
                byte_order(a@, b@) == byte_order(from_index(a@, i), from_index(b@, i)),
            decreases a.len() - i,
        {
            if a[i] < b[i] {
                return Ordering::Less;
            }
            if a[i] > b[i] {
                return Ordering::Greater;
            }
            assert(from_index(a@, i).drop_first() =~= a@.skip(i + 1));
            assert(from_index(b@, i).drop_first() =~= b@.skip(i + 1));
            i = i + 1;
        }
        if i < a.len() {
            Ordering::Greater
        } else if i < b.len() {
            Ordering::Less
        } else {
            Ordering::Equal
        }
    }
}

} // verus!
