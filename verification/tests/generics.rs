use rust_lessons::generics::cache::{Cache, CacheItem, TtlCache};
use rust_lessons::generics::list::{first_word, longest, Excerpt, LinkedList, RefWrapper};
use rust_lessons::generics::queue::{Pair, Queue};
use rust_lessons::generics::stack::{find_max, find_min, Stack};

#[test]
fn test_cache_basic() {
    let mut cache = Cache::new(3);
    assert!(cache.insert("key1", 100));
    assert!(cache.insert("key2", 200));
    assert!(cache.insert("key3", 300));

    assert_eq!(cache.get(&"key1"), Some(&100));
    assert_eq!(cache.get(&"key2"), Some(&200));
    assert_eq!(cache.len(), 3);
}

#[test]
fn test_cache_full() {
    let mut cache = Cache::new(2);
    assert!(cache.insert("key1", 100));
    assert!(cache.insert("key2", 200));
    assert!(!cache.insert("key3", 300));

    assert!(cache.is_full());
}

#[test]
fn test_cache_update() {
    let mut cache = Cache::new(2);
    cache.insert("key1", 100);
    cache.insert("key1", 200);

    assert_eq!(cache.get(&"key1"), Some(&200));
    assert_eq!(cache.len(), 1);
}

#[test]
fn test_cache_remove() {
    let mut cache = Cache::new(3);
    cache.insert("key1", 100);
    cache.insert("key2", 200);

    assert_eq!(cache.remove(&"key1"), Some(100));
    assert_eq!(cache.get(&"key1"), None);
    assert_eq!(cache.len(), 1);
}

#[test]
fn test_cache_generic_types() {
    let mut cache: Cache<String, Vec<i32>> = Cache::new(5);
    cache.insert("numbers".to_string(), vec![1, 2, 3]);

    assert_eq!(cache.get(&"numbers".to_string()), Some(&vec![1, 2, 3]));
}

#[test]
fn cache_full_refuses_every_insert() {
    let mut cache = Cache::new(1);
    assert!(cache.insert(1u64, 10));
    assert!(!cache.insert(1u64, 11));
    assert!(!cache.insert(2u64, 20));
    assert_eq!(cache.get(&1), Some(&10));
    assert!(cache.contains(&1));
    assert!(!cache.contains(&2));
    assert_eq!(cache.len(), 1);
}

#[test]
fn cache_get_mut_writes_through() {
    let mut cache = Cache::new(2);
    cache.insert("a", 1);
    if let Some(v) = cache.get_mut(&"a") {
        *v = 5;
    }
    assert_eq!(cache.get(&"a"), Some(&5));
    assert!(cache.get_mut(&"b").is_none());
}

#[test]
fn cache_clear_and_zero_capacity() {
    let mut cache = Cache::new(2);
    cache.insert("a", 1);
    cache.clear();
    assert!(cache.is_empty());
    let mut none: Cache<&str, i32> = Cache::new(0);
    assert!(none.is_full());
    assert!(!none.insert("a", 1));
}

#[test]
fn test_ttl_cache() {
    let mut cache = TtlCache::new(10, 60);

    cache.insert("key1", "value1", 0);
    cache.insert("key2", "value2", 10);

    assert_eq!(cache.get(&"key1", 30), Some(&"value1"));
    assert_eq!(cache.get(&"key2", 30), Some(&"value2"));

    assert_eq!(cache.get(&"key1", 70), None);
    assert_eq!(cache.get(&"key2", 80), None);
}

#[test]
fn test_ttl_cache_cleanup() {
    let mut cache = TtlCache::new(10, 60);

    cache.insert("key1", "value1", 0);
    cache.insert("key2", "value2", 10);
    cache.insert("key3", "value3", 50);

    assert_eq!(cache.len(), 3);

    let removed = cache.cleanup(100);
    assert_eq!(removed, 2);
    assert_eq!(cache.len(), 1);
}

#[test]
fn ttl_boundary_is_not_expired() {
    let item = CacheItem::new("v", 10);
    assert!(!item.is_expired(70, 60));
    assert!(item.is_expired(71, 60));
    let mut cache = TtlCache::new(1, 60);
    assert!(cache.insert("a", 1, 10));
    assert!(!cache.insert("b", 2, 10));
    assert_eq!(cache.get(&"a", 70), Some(&1));
    assert_eq!(cache.cleanup(70), 0);
    assert!(!cache.is_empty());
}

#[test]
fn test_linked_list_basic() {
    let mut list = LinkedList::new();
    list.push_front(1);
    list.push_front(2);
    list.push_front(3);

    assert_eq!(list.len(), 3);
    assert_eq!(list.pop_front(), Some(3));
    assert_eq!(list.pop_front(), Some(2));
    assert_eq!(list.len(), 1);
}

#[test]
fn test_linked_list_front() {
    let mut list = LinkedList::new();
    assert_eq!(list.front(), None);

    list.push_front(42);
    assert_eq!(list.front(), Some(&42));
}

#[test]
fn linked_list_clear_and_empty_pop() {
    let mut list: LinkedList<i32> = LinkedList::default();
    assert!(list.is_empty());
    assert_eq!(list.pop_front(), None);
    list.push_front(1);
    list.clear();
    assert!(list.is_empty());
    assert_eq!(list.len(), 0);
}

#[test]
fn test_ref_wrapper() {
    let value = 42;
    let wrapper = RefWrapper::new(&value);
    assert_eq!(*wrapper.get(), 42);
}

#[test]
fn list_test_longest() {
    let s1 = "hello";
    let s2 = "world!";
    assert_eq!(longest(s1, s2), "world!");

    let s3 = "short";
    let s4 = "longer string";
    assert_eq!(longest(s3, s4), "longer string");
}

#[test]
fn longest_prefers_second_on_tie_and_counts_bytes() {
    assert_eq!(longest("abc", "xyz"), "xyz");
    assert_eq!(longest("é", "ab"), "ab");
    assert_eq!(longest("éé", "abc"), "éé");
}

#[test]
fn test_first_word() {
    assert_eq!(first_word("hello world"), "hello");
    assert_eq!(first_word("rust"), "rust");
    assert_eq!(first_word(""), "");
}

#[test]
fn first_word_edge_cases() {
    assert_eq!(first_word(" leading"), "");
    assert_eq!(first_word("héllo wörld"), "héllo");
}

#[test]
fn test_excerpt() {
    let text = "Hello world. This is Rust.";
    let excerpt = Excerpt::new(text);
    assert_eq!(excerpt.first_sentence(), "Hello world.");
    assert_eq!(excerpt.len(), 26);
}

#[test]
fn test_excerpt_no_period() {
    let text = "No period here";
    let excerpt = Excerpt::new(text);
    assert_eq!(excerpt.first_sentence(), "No period here");
}

#[test]
fn excerpt_edge_cases() {
    assert_eq!(Excerpt::new("ünï. rest").first_sentence(), "ünï.");
    assert_eq!(Excerpt::new(".").first_sentence(), ".");
    assert!(Excerpt::new("").is_empty());
    assert_eq!(Excerpt::new("é").len(), 2);
}

#[test]
fn test_lifetime_scope() {
    let string1 = String::from("long string");
    let result;
    {
        let string2 = String::from("short");
        result = longest(string1.as_str(), string2.as_str());
        assert_eq!(result, "long string");
    }
}

#[test]
fn test_generic_stack() {
    let mut stack = Stack::new();
    stack.push(1);
    stack.push(2);
    assert_eq!(stack.pop(), Some(2));
}

#[test]
fn test_generic_queue() {
    let mut queue = Queue::new();
    queue.enqueue(1);
    queue.enqueue(2);
    assert_eq!(queue.dequeue(), Some(1));
}

#[test]
fn main_test_pair_swap() {
    let pair = Pair::new(1, "hello");
    let swapped = pair.swap();
    assert_eq!(swapped.first, "hello");
    assert_eq!(swapped.second, 1);
}

#[test]
fn test_find_max_min() {
    let numbers = vec![3, 7, 2, 9, 1];
    assert_eq!(find_max(&numbers), Some(&9));
    assert_eq!(find_min(&numbers), Some(&1));
}

#[test]
fn main_test_longest() {
    let s1 = "hello";
    let s2 = "world!";
    assert_eq!(longest(s1, s2), "world!");
}

#[test]
fn test_cache() {
    let mut cache = Cache::new(2);
    cache.insert("key1", 100);
    cache.insert("key2", 200);
    assert_eq!(cache.get(&"key1"), Some(&100));
}

#[test]
fn test_queue_basic() {
    let mut queue = Queue::new();
    queue.enqueue(1);
    queue.enqueue(2);
    queue.enqueue(3);

    assert_eq!(queue.dequeue(), Some(1));
    assert_eq!(queue.dequeue(), Some(2));
    assert_eq!(queue.len(), 1);
}

#[test]
fn test_queue_front() {
    let mut queue = Queue::new();
    assert_eq!(queue.front(), None);

    queue.enqueue(42);
    assert_eq!(queue.front(), Some(&42));
    assert_eq!(queue.len(), 1);
}

#[test]
fn test_queue_generic() {
    let mut queue: Queue<String> = Queue::new();
    queue.enqueue("first".to_string());
    queue.enqueue("second".to_string());

    assert_eq!(queue.dequeue(), Some("first".to_string()));
}

#[test]
fn queue_empty_and_clear() {
    let mut queue: Queue<i32> = Queue::default();
    assert!(queue.is_empty());
    assert_eq!(queue.dequeue(), None);
    queue.enqueue(1);
    queue.clear();
    assert!(queue.is_empty());
}

#[test]
fn test_pair_basic() {
    let pair = Pair::new(1, "hello");
    assert_eq!(pair.first, 1);
    assert_eq!(pair.second, "hello");
}

#[test]
fn queue_test_pair_swap() {
    let pair = Pair::new(1, "hello");
    let swapped = pair.swap();
    assert_eq!(swapped.first, "hello");
    assert_eq!(swapped.second, 1);
}

#[test]
fn test_pair_duplicate() {
    let pair = Pair::duplicate(42);
    assert_eq!(pair.first, 42);
    assert_eq!(pair.second, 42);
}

#[test]
fn test_pair_different_types() {
    let pair = Pair::new(vec![1, 2, 3], "numbers");
    assert_eq!(pair.first().len(), 3);
    assert_eq!(*pair.second(), "numbers");
}

#[test]
fn test_stack_basic() {
    let mut stack = Stack::new();
    stack.push(1);
    stack.push(2);
    stack.push(3);

    assert_eq!(stack.len(), 3);
    assert_eq!(stack.pop(), Some(3));
    assert_eq!(stack.pop(), Some(2));
    assert_eq!(stack.len(), 1);
}

#[test]
fn test_stack_generic_string() {
    let mut stack: Stack<String> = Stack::new();
    stack.push("hello".to_string());
    stack.push("world".to_string());

    assert_eq!(stack.pop(), Some("world".to_string()));
}

#[test]
fn stack_empty_and_clear() {
    let mut stack: Stack<i32> = Stack::default();
    assert!(stack.is_empty());
    assert_eq!(stack.pop(), None);
    stack.push(1);
    stack.clear();
    assert!(stack.is_empty());
}

#[test]
fn test_find_max() {
    let numbers = vec![3, 7, 2, 9, 1];
    assert_eq!(find_max(&numbers), Some(&9));

    let strings = vec!["apple", "zebra", "banana"];
    assert_eq!(find_max(&strings), Some(&"zebra"));

    let empty: Vec<i32> = vec![];
    assert_eq!(find_max(&empty), None);
}

#[test]
fn test_find_min() {
    let numbers = vec![3, 7, 2, 9, 1];
    assert_eq!(find_min(&numbers), Some(&1));
}

#[test]
fn find_max_min_keep_first_of_equals() {
    let pairs = [(1, 'a'), (1, 'b')];
    let firsts: Vec<i32> = pairs.iter().map(|p| p.0).collect();
    assert!(std::ptr::eq(find_max(&firsts).unwrap(), &firsts[0]));
    assert!(std::ptr::eq(find_min(&firsts).unwrap(), &firsts[0]));
    let empty: Vec<i32> = vec![];
    assert_eq!(find_min(&empty), None);
}

#[test]
fn pop_after_push_gives_back_the_list() {
    let mut list = LinkedList::new();
    list.push_front(1);
    list.push_front(2);
    list.push_front(9);
    assert_eq!(list.pop_front(), Some(9));
    assert_eq!(list.len(), 2);
    assert_eq!(list.pop_front(), Some(2));
    assert_eq!(list.pop_front(), Some(1));
    assert_eq!(list.pop_front(), None);
    assert_eq!(list.len(), 0);
}

#[test]
fn freshness_is_the_opposite_of_expiry() {
    let item = CacheItem::new("v", 10);
    assert!(item.is_fresh(70, 60));
    assert!(!item.is_expired(70, 60));
    assert!(!item.is_fresh(71, 60));
    assert!(item.is_expired(71, 60));
    // An item stamped after `now` has not expired.
    assert!(item.is_fresh(5, 0));
}

#[test]
fn cleanup_counts_and_keeps_the_fresh_items() {
    let mut cache = TtlCache::new(10, 5);
    cache.insert(1, 'a', 0);
    cache.insert(2, 'b', 5);
    cache.insert(3, 'c', 9);
    assert_eq!(cache.cleanup(10), 1);
    assert_eq!(cache.get(&1, 10), None);
    assert_eq!(cache.get(&2, 10), Some(&'b'));
    assert_eq!(cache.get(&3, 10), Some(&'c'));
    assert_eq!(cache.cleanup(10), 0);
}
