use rust_lessons::modules_cargo::collections::stack::{is_balanced, Stack};
use rust_lessons::modules_cargo::math;
use rust_lessons::modules_cargo::math::basic::{add, divide, gcd, is_prime, lcm, multiply, power, subtract};
use rust_lessons::modules_cargo::strings::transform::{
    is_palindrome, reverse_words, to_camel_case, to_pascal_case, to_snake_case, truncate, word_count,
};
use rust_lessons::modules_cargo::{NAME, VERSION};

// ---- lib ----

#[test]
fn lib_test_version() {
    assert!(!VERSION.is_empty());
}

#[test]
fn test_name() {
    assert_eq!(NAME, "modules-cargo");
}

#[test]
fn test_math_module() {
    assert_eq!(math::basic::add(2, 3), 5);
    assert_eq!(math::basic::multiply(4, 5), 20);
}

#[test]
fn test_strings_module() {
    assert_eq!(to_camel_case("hello_world"), "helloWorld");
}

#[test]
fn test_collections_module() {
    let mut stack = Stack::new();
    stack.push(1);
    assert_eq!(stack.pop(), Some(1));
}

// ---- math::basic ----

#[test]
fn test_add() {
    assert_eq!(add(2, 3), 5);
}

#[test]
fn basic_test_subtract() {
    assert_eq!(subtract(10, 3), 7);
}

#[test]
fn basic_test_multiply() {
    assert_eq!(multiply(4, 5), 20);
}

#[test]
fn test_divide() {
    assert_eq!(divide(10, 2), Some(5));
    assert_eq!(divide(10, 0), None);
}

#[test]
fn basic_test_power() {
    assert_eq!(power(2, 10), 1024);
}

#[test]
fn test_gcd() {
    assert_eq!(gcd(48, 18), 6);
}

#[test]
fn test_lcm() {
    assert_eq!(lcm(4, 6), 12);
}

#[test]
fn test_is_prime() {
    assert!(is_prime(2));
    assert!(is_prime(17));
    assert!(!is_prime(1));
    assert!(!is_prime(15));
}

#[test]
fn divide_rounds_toward_zero() {
    assert_eq!(divide(-7, 2), Some(-3));
    assert_eq!(divide(7, -2), Some(-3));
    assert_eq!(divide(-7, -2), Some(3));
    assert_eq!(divide(i64::MIN, 1), Some(i64::MIN));
    assert_eq!(divide(i64::MIN, 2), Some(i64::MIN / 2));
}

#[test]
fn power_edge_cases() {
    assert_eq!(power(-2, 63), i64::MIN);
    assert_eq!(power(-1, 7), -1);
    assert_eq!(power(0, 0), 1);
    assert_eq!(power(0, 5), 0);
}

#[test]
fn gcd_and_lcm_edge_cases() {
    assert_eq!(gcd(0, 7), 7);
    assert_eq!(gcd(7, 0), 7);
    assert_eq!(gcd(0, 0), 0);
    assert_eq!(lcm(0, 5), 0);
    assert_eq!(lcm(21, 6), 42);
}

#[test]
fn is_prime_larger_values() {
    assert!(is_prime(4294967291));
    assert!(!is_prime(4294967291 * 3));
    assert!(!is_prime(25));
    assert!(!is_prime(49));
    assert!(is_prime(3));
    assert!(!is_prime(0));
}

// ---- collections::stack ----

#[test]
fn test_stack_push_pop() {
    let mut stack = Stack::new();
    stack.push(1);
    stack.push(2);
    stack.push(3);

    assert_eq!(stack.pop(), Some(3));
    assert_eq!(stack.pop(), Some(2));
    assert_eq!(stack.pop(), Some(1));
    assert_eq!(stack.pop(), None);
}

#[test]
fn stack_test_stack_peek() {
    let mut stack = Stack::new();
    assert_eq!(stack.peek(), None);

    stack.push(42);
    assert_eq!(stack.peek(), Some(&42));
    assert_eq!(stack.size(), 1);
    let mut generic = rust_lessons::generics::stack::Stack::new();
    assert_eq!(generic.peek(), None);
    generic.push(42);
    assert_eq!(generic.peek(), Some(&42));
    assert_eq!(generic.len(), 1);
}

#[test]
fn test_stack_is_empty() {
    let mut stack: Stack<i32> = Stack::new();
    assert!(stack.is_empty());

    stack.push(1);
    assert!(!stack.is_empty());

    stack.pop();
    assert!(stack.is_empty());
}

#[test]
fn test_stack_clear() {
    let mut stack = Stack::new();
    stack.push(1);
    stack.push(2);
    stack.clear();
    assert!(stack.is_empty());
}

#[test]
fn test_stack_generic() {
    let mut stack: Stack<String> = Stack::new();
    stack.push("hello".to_string());
    stack.push("world".to_string());
    assert_eq!(stack.pop(), Some("world".to_string()));
}

#[test]
fn test_is_balanced() {
    assert!(is_balanced("()[]{}"));
    assert!(is_balanced("({[]})"));
    assert!(is_balanced(""));
    assert!(!is_balanced("([)]"));
    assert!(!is_balanced("("));
    assert!(!is_balanced(")"));
}

#[test]
fn stack_into_vec_keeps_order() {
    let mut stack = Stack::new();
    stack.push(1);
    stack.push(2);
    stack.push(3);
    assert_eq!(stack.into_vec(), vec![1, 2, 3]);
}

#[test]
fn is_balanced_ignores_other_characters() {
    assert!(is_balanced("fn main() { let v = [1, 2]; }"));
    assert!(!is_balanced("a(b]c"));
}

// ---- strings::transform ----

#[test]
fn test_to_camel_case() {
    assert_eq!(to_camel_case("hello_world"), "helloWorld");
    assert_eq!(to_camel_case("foo_bar_baz"), "fooBarBaz");
    assert_eq!(to_camel_case("hello"), "hello");
}

#[test]
fn test_to_pascal_case() {
    assert_eq!(to_pascal_case("hello_world"), "HelloWorld");
    assert_eq!(to_pascal_case("foo_bar_baz"), "FooBarBaz");
}

#[test]
fn test_to_snake_case() {
    assert_eq!(to_snake_case("HelloWorld"), "hello_world");
    assert_eq!(to_snake_case("camelCase"), "camel_case");
    assert_eq!(to_snake_case("hello"), "hello");
}

#[test]
fn test_truncate() {
    assert_eq!(truncate("Hello, World!", 8), "Hello...");
    assert_eq!(truncate("Hi", 8), "Hi");
    assert_eq!(truncate("Hello", 5), "Hello");
}

#[test]
fn test_word_count() {
    assert_eq!(word_count("hello world rust"), 3);
    assert_eq!(word_count("  spaces  "), 1);
    assert_eq!(word_count(""), 0);
}

#[test]
fn transform_test_reverse_words() {
    assert_eq!(reverse_words("hello world rust"), "rust world hello");
    assert_eq!(reverse_words("one"), "one");
}

#[test]
fn test_is_palindrome() {
    assert!(is_palindrome("racecar"));
    assert!(is_palindrome("A man a plan a canal Panama"));
    assert!(!is_palindrome("hello"));
}

#[test]
fn case_conversions_edge_cases() {
    assert_eq!(to_camel_case("Hello_world"), "helloWorld");
    assert_eq!(to_camel_case("__a"), "A");
    assert_eq!(to_pascal_case("__a__b"), "AB");
    assert_eq!(to_pascal_case(""), "");
    assert_eq!(to_snake_case("ABC"), "a_b_c");
}

#[test]
fn truncate_short_limits() {
    assert_eq!(truncate("Hello", 2), "...");
    assert_eq!(truncate("", 0), "");
}

#[test]
fn reverse_words_collapses_spaces() {
    assert_eq!(reverse_words("  a   b  "), "b a");
    assert_eq!(reverse_words(""), "");
}

#[test]
fn snake_case_undoes_camel_case() {
    for s in ["foo_bar_baz", "a", "x1_y2", "hello_world", "abc"] {
        assert_eq!(to_snake_case(&to_camel_case(s)), s);
    }
    assert_eq!(to_camel_case("foo_bar_baz"), "fooBarBaz");
}
