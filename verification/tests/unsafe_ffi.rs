use rust_lessons::unsafe_ffi::ffi::{rust_add, rust_multiply, SafeFFI};
use rust_lessons::unsafe_ffi::raw_pointers::safe_swap;
use std::cmp::Ordering;

#[test]
fn test_safe_ffi() {
    assert_eq!(SafeFFI::abs(-42), 42);
    assert_eq!(SafeFFI::strlen("test"), 4);
    assert_eq!(SafeFFI::strcmp("a", "a"), Ordering::Equal);
    assert_eq!(SafeFFI::strcmp("a", "b"), Ordering::Less);
}

#[test]
fn test_integration_safe_abstractions() {
    assert_eq!(SafeFFI::abs(-99), 99);
    assert_eq!(SafeFFI::strlen("hello"), 5);
    assert_eq!(SafeFFI::strcmp("x", "x"), Ordering::Equal);
}

#[test]
fn safe_ffi_edge_cases() {
    assert_eq!(SafeFFI::abs(0), 0);
    assert_eq!(SafeFFI::abs(i32::MAX), i32::MAX);
    assert_eq!(SafeFFI::strlen(""), 0);
    assert_eq!(SafeFFI::strlen("é"), 2);
    assert_eq!(SafeFFI::strcmp("ab", "a"), Ordering::Greater);
    assert_eq!(SafeFFI::strcmp("", "a"), Ordering::Less);
    assert_eq!(SafeFFI::strcmp("xyz", "abc"), Ordering::Greater);
    assert_eq!(SafeFFI::strcmp("é", "z"), Ordering::Greater);
}

#[test]
fn test_rust_add() {
    assert_eq!(rust_add(2, 3), 5);
    assert_eq!(rust_add(-1, 1), 0);
}

#[test]
fn test_rust_multiply() {
    assert_eq!(rust_multiply(4, 5), 20);
    assert_eq!(rust_multiply(0, 100), 0);
}

#[test]
fn test_exported_functions() {
    assert_eq!(rust_add(100, 200), 300);
    assert_eq!(rust_multiply(7, 8), 56);
}

#[test]
fn test_safe_swap() {
    let mut a = 1;
    let mut b = 2;

    safe_swap(&mut a, &mut b);

    assert_eq!(a, 2);
    assert_eq!(b, 1);
}
