use rust_lessons::collections_iter::analyzer::TextAnalyzer;
use rust_lessons::collections_iter::filters::TextFilter;
use rust_lessons::collections_iter::stats::{min_max, modes, NumberSequence};

fn strings(v: &[&str]) -> Vec<String> {
    v.iter().map(|s| s.to_string()).collect()
}

#[test]
fn test_words() {
    let analyzer = TextAnalyzer::new("Hello, World! Hello Rust.".to_string());
    let words = analyzer.words();
    assert_eq!(words, vec!["hello", "world", "hello", "rust"]);
}

#[test]
fn test_word_frequency() {
    let analyzer = TextAnalyzer::new("the quick brown fox jumps over the lazy dog".to_string());
    let freq = analyzer.word_frequency();
    assert_eq!(freq.get("the"), Some(&2));
    assert_eq!(freq.get("quick"), Some(&1));
}

#[test]
fn test_top_words() {
    let analyzer = TextAnalyzer::new("the the the quick quick brown".to_string());
    let top = analyzer.top_words(2);
    assert_eq!(top[0].0, "the");
    assert_eq!(top[0].1, 3);
    assert_eq!(top[1].0, "quick");
    assert_eq!(top[1].1, 2);
}

#[test]
fn test_char_stats() {
    let analyzer = TextAnalyzer::new("Hello, World!".to_string());
    let stats = analyzer.char_stats();
    assert_eq!(stats.letters, 10);
    assert_eq!(stats.spaces, 1);
    assert_eq!(stats.punctuation, 2);
}

#[test]
fn test_search_word() {
    let analyzer = TextAnalyzer::new("Hello World\nHello Rust\nGoodbye World".to_string());
    let results = analyzer.search_word("hello");
    assert_eq!(results.len(), 2);
    assert_eq!(results[0].0, 1);
    assert_eq!(results[1].0, 2);
}

#[test]
fn test_long_words() {
    let analyzer = TextAnalyzer::new("the quick brown fox".to_string());
    let long = analyzer.long_words(5);
    assert_eq!(long, vec!["quick", "brown"]);
}

#[test]
fn test_unique_word_count() {
    let analyzer = TextAnalyzer::new("the the quick brown".to_string());
    assert_eq!(analyzer.unique_word_count(), 3);
}

#[test]
fn test_total_word_count() {
    let analyzer = TextAnalyzer::new("the the quick brown".to_string());
    assert_eq!(analyzer.total_word_count(), 4);
}

#[test]
fn analyzer_empty_text() {
    let analyzer = TextAnalyzer::new(String::new());
    assert!(analyzer.words().is_empty());
    assert_eq!(analyzer.unique_word_count(), 0);
    assert_eq!(analyzer.total_word_count(), 0);
    assert!(analyzer.top_words(3).is_empty());
    let stats = analyzer.char_stats();
    assert_eq!(stats.total, 0);
}

#[test]
fn top_words_ties_have_equal_counts() {
    let analyzer = TextAnalyzer::new("b a c a b c".to_string());
    let top = analyzer.top_words(3);
    assert_eq!(top.len(), 3);
    let mut names: Vec<String> = top.iter().map(|p| p.0.clone()).collect();
    names.sort();
    assert_eq!(names, vec!["a", "b", "c"]);
    assert!(top.iter().all(|p| p.1 == 2));
}

#[test]
fn char_stats_counts_digits() {
    let analyzer = TextAnalyzer::new("a1 b22".to_string());
    let stats = analyzer.char_stats();
    assert_eq!(stats.total, 6);
    assert_eq!(stats.letters, 2);
    assert_eq!(stats.digits, 3);
    assert_eq!(stats.spaces, 1);
    assert_eq!(stats.punctuation, 0);
}

#[test]
fn test_remove_stop_words() {
    let words = strings(&["the", "quick", "brown", "fox"]);
    let filtered = TextFilter::remove_stop_words(words);
    assert_eq!(filtered, vec!["quick", "brown", "fox"]);
}

#[test]
fn test_filter_short_words() {
    let words = strings(&["hi", "hello", "world"]);
    let filtered = TextFilter::filter_short_words(words, 4);
    assert_eq!(filtered, vec!["hello", "world"]);
}

#[test]
fn test_to_uppercase() {
    let words = strings(&["hello", "world"]);
    let upper = TextFilter::to_uppercase(words);
    assert_eq!(upper, vec!["HELLO", "WORLD"]);
}

#[test]
fn to_lowercase_lowers_every_word() {
    let words = strings(&["HeLLo", "WORLD"]);
    assert_eq!(TextFilter::to_lowercase(words), vec!["hello", "world"]);
}

#[test]
fn filters_test_reverse_words() {
    let words = strings(&["hello", "world"]);
    let reversed = TextFilter::reverse_words(words);
    assert_eq!(reversed, vec!["olleh", "dlrow"]);
}

#[test]
fn test_deduplicate() {
    let words = strings(&["hello", "world", "hello"]);
    let unique = TextFilter::deduplicate(words);
    assert_eq!(unique, vec!["hello", "world"]);
}

#[test]
fn test_sort_by_length() {
    let words = strings(&["world", "hi", "hello"]);
    let sorted = TextFilter::sort_by_length(words);
    assert_eq!(sorted, vec!["hi", "world", "hello"]);
}

#[test]
fn test_sort_alphabetically() {
    let words = strings(&["zebra", "apple", "banana"]);
    let sorted = TextFilter::sort_alphabetically(words);
    assert_eq!(sorted, vec!["apple", "banana", "zebra"]);
}

#[test]
fn filters_on_empty_input() {
    assert!(TextFilter::remove_stop_words(Vec::new()).is_empty());
    assert!(TextFilter::deduplicate(Vec::new()).is_empty());
    assert!(TextFilter::sort_by_length(Vec::new()).is_empty());
    assert!(TextFilter::sort_alphabetically(Vec::new()).is_empty());
}

#[test]
fn test_even_squares_sum() {
    let result: i32 = (1..=10).filter(|x| x % 2 == 0).map(|x| x * x).sum();
    assert_eq!(result, 220);
}

#[test]
fn test_group_by_parity() {
    let numbers = vec![1, 2, 3, 4, 5, 6];
    let (evens, odds): (Vec<i32>, Vec<i32>) = numbers.into_iter().partition(|x| x % 2 == 0);
    assert_eq!(evens, vec![2, 4, 6]);
    assert_eq!(odds, vec![1, 3, 5]);
}

#[test]
fn main_test_flatten() {
    let nested = vec![vec![1, 2], vec![3, 4], vec![5, 6]];
    let flat: Vec<i32> = nested.into_iter().flatten().collect();
    assert_eq!(flat, vec![1, 2, 3, 4, 5, 6]);
}

#[test]
fn test_zip_and_unzip() {
    let names = vec!["Alice", "Bob", "Carol"];
    let scores = vec![95, 87, 92];
    let combined: Vec<_> = names.into_iter().zip(scores.into_iter()).collect();
    assert_eq!(combined.len(), 3);
    assert_eq!(combined[0], ("Alice", 95));
}

#[test]
fn stats_test_fibonacci() {
    let fib = NumberSequence::fibonacci(7);
    assert_eq!(fib, vec![0, 1, 1, 2, 3, 5, 8]);
}

#[test]
fn fibonacci_short_lengths() {
    assert!(NumberSequence::fibonacci(0).is_empty());
    assert_eq!(NumberSequence::fibonacci(1), vec![0]);
    assert_eq!(NumberSequence::fibonacci(2), vec![0, 1]);
}

#[test]
fn test_primes() {
    let primes = NumberSequence::primes(5);
    assert_eq!(primes, vec![2, 3, 5, 7, 11]);
}

#[test]
fn primes_none_and_more() {
    assert!(NumberSequence::primes(0).is_empty());
    assert_eq!(NumberSequence::primes(10), vec![2, 3, 5, 7, 11, 13, 17, 19, 23, 29]);
}

#[test]
fn test_arithmetic() {
    let seq = NumberSequence::arithmetic(2, 3, 5);
    assert_eq!(seq, vec![2, 5, 8, 11, 14]);
}

#[test]
fn arithmetic_negative_step() {
    assert_eq!(NumberSequence::arithmetic(10, -4, 4), vec![10, 6, 2, -2]);
    assert!(NumberSequence::arithmetic(1, 1, 0).is_empty());
}

#[test]
fn test_statistics_mode() {
    let numbers = vec![1, 2, 2, 3, 3, 3, 4];
    assert_eq!(modes(&numbers), vec![3]);
}

#[test]
fn test_statistics_range() {
    let numbers = vec![1, 5, 3, 9, 2];
    let (min, max) = min_max(&numbers).unwrap();
    assert_eq!(min, 1);
    assert_eq!(max, 9);
    assert_eq!(max - min, 8);
}

#[test]
fn modes_keep_every_value_of_top_frequency() {
    let mut m = modes(&[4, 1, 4, 1, 2]);
    m.sort();
    assert_eq!(m, vec![1, 4]);
    assert_eq!(modes(&[]), Vec::<i32>::new());
    assert_eq!(modes(&[7]), vec![7]);
    assert_eq!(min_max(&[]), None);
    assert_eq!(min_max(&[-3]), Some((-3, -3)));
}

#[test]
fn test_line_stats() {
    let analyzer = TextAnalyzer::new("Line 1\nLine 2\nLine 3".to_string());
    let (total_lines, non_empty_lines, _) = analyzer.line_counts();
    assert_eq!(total_lines, 3);
    assert_eq!(non_empty_lines, 3);
}

#[test]
fn line_counts_skip_blank_lines() {
    let analyzer = TextAnalyzer::new("a\n \t\n\nb\n".to_string());
    assert_eq!(analyzer.line_counts(), (4, 2, 4));
    assert_eq!(TextAnalyzer::new(String::new()).line_counts(), (0, 0, 0));
    assert_eq!(TextAnalyzer::new("ab\r\néé\n".to_string()).line_counts(), (2, 2, 6));
}

#[test]
fn top_words_len_is_bounded_by_distinct_words() {
    let analyzer = TextAnalyzer::new("the the the quick quick brown".to_string());
    let freq = analyzer.word_frequency();
    assert_eq!(analyzer.top_words(10).len(), freq.len());
    assert_eq!(analyzer.top_words(2).len(), 2);
}
