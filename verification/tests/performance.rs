use rust_lessons::performance::algorithms::{
    binary_search, dedup_hashset, dedup_vec, fibonacci_iterative, fibonacci_memoized,
    fibonacci_recursive, filter_map_fast, filter_map_slow, linear_search, reverse_string_direct,
    reverse_string_vec, sum_iterator, sum_loop,
};
use rust_lessons::performance::iterators::{
    build_vec_fast, build_vec_fastest, build_vec_slow, chain_fast, chain_slow, concat_fast,
    concat_slow, flatten_fast, flatten_slow, process_fast, process_slow, process_string_fast,
    process_string_slow, sum_fast, sum_slow, transform_fast, transform_slow,
};
use std::borrow::Cow;

#[test]
fn algorithms_test_fibonacci() {
    assert_eq!(fibonacci_recursive(10), 55);
    assert_eq!(fibonacci_iterative(10), 55);

    let mut cache = vec![None; 11];
    assert_eq!(fibonacci_memoized(10, &mut cache), 55);
}

#[test]
fn fibonacci_small_and_large() {
    assert_eq!(fibonacci_recursive(0), 0);
    assert_eq!(fibonacci_iterative(0), 0);
    assert_eq!(fibonacci_iterative(1), 1);
    assert_eq!(fibonacci_iterative(93), 12200160415121876738);
    let mut cache = Vec::new();
    assert_eq!(fibonacci_memoized(93, &mut cache), 12200160415121876738);
    assert_eq!(cache[50], Some(12586269025));
    assert_eq!(fibonacci_memoized(50, &mut cache), 12586269025);
}

#[test]
fn test_search() {
    let arr = vec![1, 3, 5, 7, 9, 11, 13];

    assert_eq!(linear_search(&arr, 7), Some(3));
    assert_eq!(binary_search(&arr, 7), Some(3));

    assert_eq!(linear_search(&arr, 8), None);
    assert_eq!(binary_search(&arr, 8), None);
}

#[test]
fn search_edge_cases() {
    let empty: Vec<i32> = Vec::new();
    assert_eq!(linear_search(&empty, 1), None);
    assert_eq!(binary_search(&empty, 1), None);
    assert_eq!(linear_search(&[4, 4, 4], 4), Some(0));
    assert_eq!(binary_search(&[1, 3], 1), Some(0));
    assert_eq!(binary_search(&[1, 3], 3), Some(1));
}

#[test]
fn test_reverse_string() {
    let s = "hello";
    assert_eq!(reverse_string_vec(s), "olleh");
    assert_eq!(reverse_string_direct(s), "olleh");
}

#[test]
fn reverse_string_unicode_and_empty() {
    assert_eq!(reverse_string_vec("añb"), "bña");
    assert_eq!(reverse_string_direct(""), "");
}

#[test]
fn algorithms_test_sum() {
    let arr = vec![1, 2, 3, 4, 5];
    assert_eq!(sum_loop(&arr), 15);
    assert_eq!(sum_iterator(&arr), 15);
}

#[test]
fn test_filter_map() {
    let arr = vec![-2, -1, 0, 1, 2, 3];
    let expected = vec![2, 4, 6];

    assert_eq!(filter_map_slow(&arr), expected);
    assert_eq!(filter_map_fast(&arr), expected);
}

#[test]
fn test_dedup() {
    let arr = vec![1, 2, 2, 3, 1, 4, 3];

    let result1 = dedup_vec(&arr);
    let result2 = dedup_hashset(&arr);

    assert_eq!(result1.len(), 4);
    assert_eq!(result2.len(), 4);
}

#[test]
fn dedup_keeps_first_occurrences() {
    assert_eq!(dedup_vec(&[3, 1, 3, 2, 1]), vec![3, 1, 2]);
    let mut h = dedup_hashset(&[3, 1, 3, 2, 1]);
    h.sort();
    assert_eq!(h, vec![1, 2, 3]);
}

#[test]
fn test_fibonacci_performance() {
    let n = 20;
    assert_eq!(fibonacci_recursive(n), fibonacci_iterative(n));
}

#[test]
fn test_process() {
    let data = vec![-5, -1, 0, 10, 20, 50, 100, 200];
    let expected = vec![20, 40];

    assert_eq!(process_slow(&data), expected);
    assert_eq!(process_fast(&data), expected);
}

#[test]
fn test_process_string() {
    let s1 = "This is good";
    let s2 = "This is bad";

    assert_eq!(process_string_slow(s1), "This is good");
    assert_eq!(process_string_slow(s2), "This is good");

    assert_eq!(process_string_fast(s1), "This is good");
    assert_eq!(process_string_fast(s2), "This is good");
}

#[test]
fn process_string_replaces_every_occurrence() {
    assert_eq!(process_string_slow("bad badbad"), "good goodgood");
    assert_eq!(process_string_fast("babad"), "bagood");
}

#[test]
fn test_concat() {
    let strings = vec!["Hello".to_string(), " ".to_string(), "World".to_string()];

    assert_eq!(concat_slow(&strings), "Hello World");
    assert_eq!(concat_fast(&strings), "Hello World");
}

#[test]
fn test_build_vec() {
    assert_eq!(build_vec_slow().len(), 1000);
    assert_eq!(build_vec_fast().len(), 1000);
    assert_eq!(build_vec_fastest().len(), 1000);
}

#[test]
fn build_vec_contents() {
    let v = build_vec_fastest();
    assert_eq!(v[0], 0);
    assert_eq!(v[999], 999);
    assert_eq!(build_vec_slow(), build_vec_fast());
}

#[test]
fn test_transform() {
    let data = vec![1, 2, 3, 4, 5];
    let expected = vec![2, 4, 6, 8, 10];

    assert_eq!(transform_slow(data.clone()), expected);
    assert_eq!(transform_fast(data), expected);
}

#[test]
fn iterators_test_sum() {
    let data = vec![1, 2, 3, 4, 5];
    assert_eq!(sum_fast(&data), 15);
    assert_eq!(sum_slow(data), 15);
}

#[test]
fn test_chain() {
    let a = vec![1, 2, 3];
    let b = vec![4, 5, 6];
    let expected = vec![1, 2, 3, 4, 5, 6];

    assert_eq!(chain_slow(&a, &b), expected);
    assert_eq!(chain_fast(&a, &b), expected);
}

#[test]
fn iterators_test_flatten() {
    let data = vec![vec![1, 2], vec![3, 4], vec![5, 6]];
    let expected = vec![1, 2, 3, 4, 5, 6];

    assert_eq!(flatten_slow(&data), expected);
    assert_eq!(flatten_fast(&data), expected);
}

#[test]
fn test_cow_no_allocation() {
    let s = "this is good";
    let result = process_string_fast(s);

    if let Cow::Borrowed(borrowed) = result {
        assert_eq!(borrowed, s);
    } else {
        panic!("Expected Cow::Borrowed, got Cow::Owned");
    }
}

#[test]
fn test_cow_with_allocation() {
    let s = "this is bad";
    let result = process_string_fast(s);

    if let Cow::Owned(owned) = result {
        assert_eq!(owned, "this is good");
    } else {
        panic!("Expected Cow::Owned, got Cow::Borrowed");
    }
}
