use rust_lessons::closures::combinators::{
    compose, constant, identity, if_then_else, partial, pipe, repeat, Memoized,
};
use rust_lessons::closures::iterators::{lazy_map, Cycle, Fibonacci, StepBy, Windows};
use rust_lessons::closures::pipeline::{apply_n_times, make_accumulator, make_counter, Pipeline};

fn take_fib(n: usize) -> Vec<u64> {
    let mut f = Fibonacci::new();
    let mut out = Vec::new();
    for _ in 0..n {
        out.push(f.next().unwrap());
    }
    out
}

#[test]
fn test_pipeline_map() {
    let result = Pipeline::new(vec![1, 2, 3]).map(|x| x * 2).collect();
    assert_eq!(result, vec![2, 4, 6]);
}

#[test]
fn test_pipeline_filter() {
    let result = Pipeline::new(vec![1, 2, 3, 4, 5]).filter(|&x| x % 2 == 0).collect();
    assert_eq!(result, vec![2, 4]);
}

#[test]
fn test_pipeline_chain() {
    let result = Pipeline::new(vec![1, 2, 3, 4, 5])
        .filter(|&x| x % 2 == 0)
        .map(|x| x * x)
        .collect();
    assert_eq!(result, vec![4, 16]);
}

#[test]
fn test_pipeline_fold() {
    let sum = Pipeline::new(vec![1, 2, 3, 4, 5]).fold(0, |acc, x| acc + x);
    assert_eq!(sum, 15);
}

#[test]
fn test_make_counter() {
    let mut counter = make_counter();
    assert_eq!(counter.call(), 1);
    assert_eq!(counter.call(), 2);
    assert_eq!(counter.call(), 3);
}

#[test]
fn test_make_accumulator() {
    let mut acc = make_accumulator(0);
    assert_eq!(acc.call(5), 5);
    assert_eq!(acc.call(10), 15);
    assert_eq!(acc.call(3), 18);
}

#[test]
fn test_apply_n_times() {
    let double = |x| x * 2;
    let result = apply_n_times(double, 3, 1);
    assert_eq!(result, 8);
}

#[test]
fn apply_zero_times_is_identity() {
    assert_eq!(apply_n_times(|x| x + 1, 0, 7), 7);
}

#[test]
fn test_pipeline_first_last() {
    let data = vec![1, 2, 3, 4, 5];
    let pipeline1 = Pipeline::new(data.clone());
    let pipeline2 = Pipeline::new(data);

    assert_eq!(pipeline1.first(), Some(1));
    assert_eq!(pipeline2.last(), Some(5));
}

#[test]
fn pipeline_empty_and_unique() {
    let empty: Pipeline<i32> = Pipeline::new(Vec::new());
    assert!(empty.is_empty());
    assert_eq!(empty.len(), 0);
    assert_eq!(Pipeline::new(Vec::<i32>::new()).first(), None);
    assert_eq!(Pipeline::new(Vec::<i32>::new()).last(), None);
    let unique = Pipeline::new(vec![3, 1, 3, 2, 1]).unique().collect();
    assert_eq!(unique, vec![3, 1, 2]);
}

#[test]
fn combinators_test_compose() {
    let add_one = |x| x + 1;
    let double = |x| x * 2;
    let f = compose(double, add_one);
    assert_eq!(f(5), 12);
}

#[test]
fn test_pipe() {
    let add_one = |x| x + 1;
    let double = |x| x * 2;
    let f = pipe(add_one, double);
    assert_eq!(f(5), 12);
}

#[test]
fn test_partial() {
    let add = |x, y| x + y;
    let add_five = partial(add, 5);
    assert_eq!(add_five(3), 8);
    assert_eq!(add_five(10), 15);
}

#[test]
fn test_constant() {
    let get_42 = constant(42);
    assert_eq!(get_42(), 42);
    assert_eq!(get_42(), 42);
}

#[test]
fn test_identity() {
    let id = identity();
    assert_eq!(id(42), 42);

    let id_str = identity();
    assert_eq!(id_str("hello"), "hello");
}

#[test]
fn test_if_then_else() {
    let f = if_then_else(true, || 1, || 2);
    assert_eq!(f(), 1);

    let g = if_then_else(false, || 1, || 2);
    assert_eq!(g(), 2);
}

#[test]
fn combinators_test_repeat() {
    let double = |x| x * 2;
    let f = repeat(double, 3);
    assert_eq!(f(1), 8);
}

#[test]
fn pipe_and_compose_order_differ() {
    let add_one = |x: i32| x + 1;
    let double = |x: i32| x * 2;
    assert_eq!(compose(add_one, double)(5), 11);
    assert_eq!(pipe(add_one, double)(5), 12);
    assert_eq!(repeat(add_one, 0)(9), 9);
}

#[test]
fn test_memoized() {
    let mut fib = Memoized::new(|n: u32| if n <= 1 { n as u64 } else { n as u64 });

    assert_eq!(fib.call(0), 0);
    assert_eq!(fib.call(1), 1);
    assert_eq!(fib.call(5), 5);
}

#[test]
fn memoized_returns_cached_value() {
    let mut calls = 0u32;
    let mut m = Memoized::new(|n: u32| {
        calls += 1;
        n * 10 + calls
    });
    assert_eq!(m.call(2), 21);
    assert_eq!(m.call(2), 21);
    assert_eq!(m.call(3), 32);
}

#[test]
fn test_compose_multiple() {
    let add_one = |x| x + 1;
    let double = |x| x * 2;
    let square = |x| x * x;

    let f = compose(square, compose(double, add_one));
    assert_eq!(f(2), 36);
}

#[test]
fn iterators_test_fibonacci() {
    let fib = take_fib(10);
    assert_eq!(fib, vec![0, 1, 1, 2, 3, 5, 8, 13, 21, 34]);
}

#[test]
fn test_step_by() {
    let mut it = StepBy::new(0, 10, 2);
    let mut result: Vec<i32> = Vec::new();
    while let Some(x) = it.next() {
        result.push(x);
    }
    assert_eq!(result, vec![0, 2, 4, 6, 8]);
}

#[test]
fn step_by_empty_range() {
    let mut it = StepBy::new(5, 5, 1);
    assert_eq!(it.next(), None);
    assert_eq!(it.next(), None);
}

#[test]
fn test_windows() {
    let data = vec![1, 2, 3, 4, 5];
    let mut it = Windows::new(&data, 3);
    let mut windows: Vec<&[i32]> = Vec::new();
    while let Some(w) = it.next() {
        windows.push(w);
    }
    assert_eq!(windows, vec![&[1, 2, 3][..], &[2, 3, 4][..], &[3, 4, 5][..]]);
}

#[test]
fn windows_larger_than_slice() {
    let data = vec![1, 2];
    let mut it = Windows::new(&data, 3);
    assert_eq!(it.next(), None);
}

#[test]
fn test_lazy_map() {
    let numbers = vec![1, 2, 3, 4, 5];
    let mut it = lazy_map(numbers.into_iter(), |x| x * 2);
    let mut doubled: Vec<i32> = Vec::new();
    while let Some(x) = it.next() {
        doubled.push(x);
    }
    assert_eq!(doubled, vec![2, 4, 6, 8, 10]);
}

#[test]
fn test_cycle() {
    let data = vec![1, 2, 3];
    let mut it = Cycle::new(data.into_iter());
    let mut cycled: Vec<i32> = Vec::new();
    for _ in 0..8 {
        cycled.push(it.next().unwrap());
    }
    assert_eq!(cycled, vec![1, 2, 3, 1, 2, 3, 1, 2]);
}

#[test]
fn test_iterator_chain() {
    let result: i32 = take_fib(10)
        .into_iter()
        .filter(|&x| x % 2 == 0)
        .map(|x| x as i32)
        .sum();
    assert_eq!(result, 44);
}

#[test]
fn test_windows_small() {
    let data = vec![1, 2];
    let mut it = Windows::new(&data, 2);
    let mut windows: Vec<&[i32]> = Vec::new();
    while let Some(w) = it.next() {
        windows.push(w);
    }
    assert_eq!(windows, vec![&[1, 2][..]]);
}

#[test]
fn test_closure_basic() {
    let add = |x, y| x + y;
    assert_eq!(add(2, 3), 5);
}

#[test]
fn test_closure_capture() {
    let x = 10;
    let add_x = |y| x + y;
    assert_eq!(add_x(5), 15);
}

#[test]
fn test_pipeline() {
    let result = Pipeline::new(vec![1, 2, 3, 4, 5])
        .filter(|&x| x % 2 == 0)
        .map(|x| x * x)
        .collect();
    assert_eq!(result, vec![4, 16]);
}

#[test]
fn main_test_compose() {
    let add_one = |x| x + 1;
    let double = |x| x * 2;
    let f = compose(double, add_one);
    assert_eq!(f(5), 12);
}

#[test]
fn main_test_fibonacci() {
    let fib = take_fib(5);
    assert_eq!(fib, vec![0, 1, 1, 2, 3]);
}

#[test]
fn repeat_counts_add_up() {
    let double = |x: i64| x * 2;
    let five = repeat(double, 5);
    let two_then_three = |x: i64| repeat(double, 3)(repeat(double, 2)(x));
    for x in [-3i64, 0, 1, 7] {
        assert_eq!(five(x), two_then_three(x));
    }
}

#[test]
fn compose_is_associative() {
    let add_one = |x: i32| x + 1;
    let double = |x: i32| x * 2;
    let square = |x: i32| x * x;
    let left = compose(square, compose(double, add_one));
    let right = compose(compose(square, double), add_one);
    for x in [-4, 0, 2, 9] {
        assert_eq!(left(x), right(x));
    }
    assert_eq!(left(2), 36);
    assert_eq!(compose(double, add_one)(5), pipe(add_one, double)(5));
}

#[test]
fn cycle_restarts_from_the_original() {
    let mut c = Cycle::new(vec![1, 2].into_iter());
    let got: Vec<Option<i32>> = (0..5).map(|_| c.next()).collect();
    assert_eq!(got, vec![Some(1), Some(2), Some(1), Some(2), Some(1)]);
    let mut empty = Cycle::new(Vec::<i32>::new().into_iter());
    assert_eq!(empty.next(), None);
    assert_eq!(empty.next(), None);
}
