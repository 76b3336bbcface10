use rust_lessons::smart_pointers::custom::{MyBox, Resource, SimpleRc};
use rust_lessons::smart_pointers::list::DoublyLinkedList;
use rust_lessons::smart_pointers::tree::BinarySearchTree;
use std::cell::RefCell;
use std::rc::Rc;

#[test]
fn test_mybox_deref() {
    let x = MyBox::new(5);
    assert_eq!(*x, 5);
    assert_eq!(*x.get(), 5);
}

#[test]
fn test_mybox_with_string() {
    let s = MyBox::new(String::from("hello"));
    assert_eq!(s.len(), 5);
}

#[test]
fn test_simple_rc() {
    let rc1 = SimpleRc::new(42);
    assert_eq!(rc1.strong_count(), 1);

    let rc2 = rc1.clone();
    assert_eq!(rc1.strong_count(), 2);
    assert_eq!(rc2.strong_count(), 2);

    assert_eq!(*rc1, 42);
    assert_eq!(*rc2, 42);
}

#[test]
fn test_simple_rc_drop() {
    let rc1 = SimpleRc::new(100);
    {
        let rc2 = rc1.clone();
        assert_eq!(rc1.strong_count(), 2);
        assert_eq!(*rc2, 100);
    }
    assert_eq!(rc1.strong_count(), 1);
}

#[test]
fn test_resource() {
    let resource = Resource::new(vec![1, 2, 3], "test_data".to_string());
    assert_eq!(resource.get(), &vec![1, 2, 3]);
    assert_eq!(resource.name(), "test_data");
}

fn print_len(s: &str) -> usize {
    s.len()
}

#[test]
fn test_deref_coercion() {
    let s = MyBox::new(String::from("hello world"));
    assert_eq!(print_len(&s), 11);
}

#[test]
fn test_nested_mybox() {
    let x = MyBox::new(MyBox::new(42));
    assert_eq!(**x, 42);
}

#[test]
fn test_push_front() {
    let mut list = DoublyLinkedList::new();
    list.push_front(1);
    list.push_front(2);
    list.push_front(3);

    assert_eq!(list.len(), 3);
    assert_eq!(list.to_vec(), vec![3, 2, 1]);
}

#[test]
fn test_push_back() {
    let mut list = DoublyLinkedList::new();
    list.push_back(1);
    list.push_back(2);
    list.push_back(3);

    assert_eq!(list.len(), 3);
    assert_eq!(list.to_vec(), vec![1, 2, 3]);
}

#[test]
fn test_pop_front() {
    let mut list = DoublyLinkedList::new();
    list.push_back(1);
    list.push_back(2);
    list.push_back(3);

    assert_eq!(list.pop_front(), Some(1));
    assert_eq!(list.pop_front(), Some(2));
    assert_eq!(list.len(), 1);
}

#[test]
fn test_mixed_operations() {
    let mut list = DoublyLinkedList::new();
    list.push_front(2);
    list.push_back(3);
    list.push_front(1);

    assert_eq!(list.to_vec(), vec![1, 2, 3]);
}

#[test]
fn test_empty_list() {
    let mut list: DoublyLinkedList<i32> = DoublyLinkedList::new();
    assert!(list.is_empty());
    assert_eq!(list.pop_front(), None);
}

#[test]
fn test_single_element() {
    let mut list = DoublyLinkedList::new();
    list.push_front(42);

    assert_eq!(list.len(), 1);
    assert_eq!(list.pop_front(), Some(42));
    assert!(list.is_empty());
}

#[test]
fn test_box() {
    let b = Box::new(42);
    assert_eq!(*b, 42);
}

#[test]
fn test_rc() {
    let rc1 = Rc::new(5);
    let rc2 = Rc::clone(&rc1);
    assert_eq!(Rc::strong_count(&rc1), 2);
    assert_eq!(*rc1, *rc2);
}

#[test]
fn test_refcell() {
    let value = RefCell::new(10);
    *value.borrow_mut() += 5;
    assert_eq!(*value.borrow(), 15);
}

#[test]
fn test_tree() {
    let mut tree = BinarySearchTree::new();
    tree.insert(5);
    tree.insert(3);
    tree.insert(7);
    assert!(tree.search(&5));
    assert!(!tree.search(&10));
}

#[test]
fn test_list() {
    let mut list = DoublyLinkedList::new();
    list.push_back(1);
    list.push_back(2);
    assert_eq!(list.len(), 2);
}

#[test]
fn test_insert_and_search() {
    let mut tree = BinarySearchTree::new();
    tree.insert(5);
    tree.insert(3);
    tree.insert(7);
    tree.insert(1);
    tree.insert(9);

    assert!(tree.search(&5));
    assert!(tree.search(&3));
    assert!(tree.search(&7));
    assert!(!tree.search(&10));
}

#[test]
fn test_inorder() {
    let mut tree = BinarySearchTree::new();
    tree.insert(5);
    tree.insert(3);
    tree.insert(7);
    tree.insert(1);
    tree.insert(9);

    let result = tree.inorder();
    assert_eq!(result, vec![1, 3, 5, 7, 9]);
}

#[test]
fn test_height() {
    let mut tree = BinarySearchTree::new();
    assert_eq!(tree.height(), 0);

    tree.insert(5);
    assert_eq!(tree.height(), 1);

    tree.insert(3);
    tree.insert(7);
    assert_eq!(tree.height(), 2);

    tree.insert(1);
    assert_eq!(tree.height(), 3);
}

#[test]
fn test_empty_tree() {
    let tree: BinarySearchTree<i32> = BinarySearchTree::new();
    assert!(tree.is_empty());
    assert!(!tree.search(&5));
    assert_eq!(tree.inorder(), Vec::<i32>::new());
}

#[test]
fn test_string_tree() {
    let mut tree = BinarySearchTree::new();
    tree.insert("dog".to_string());
    tree.insert("cat".to_string());
    tree.insert("elephant".to_string());

    assert!(tree.search(&"dog".to_string()));
    assert!(tree.search(&"cat".to_string()));
    assert!(!tree.search(&"bird".to_string()));
}

#[test]
fn tree_keeps_duplicates_in_order() {
    let mut tree = BinarySearchTree::new();
    for v in [4, 2, 4, 1, 4] {
        tree.insert(v);
    }
    assert_eq!(tree.inorder(), vec![1, 2, 4, 4, 4]);
    assert_eq!(tree.height(), 3);
    assert!(!tree.is_empty());
}

#[test]
fn tree_inserted_value_is_found() {
    let mut tree = BinarySearchTree::default();
    for v in [10, -3, 7, 22, 0] {
        tree.insert(v);
        assert!(tree.search(&v));
    }
    assert!(!tree.search(&5));
}

#[test]
fn duplicates_go_to_the_right() {
    let mut tree = BinarySearchTree::new();
    tree.insert(5);
    tree.insert(5);
    assert_eq!(tree.inorder(), vec![5, 5]);
    assert_eq!(tree.height(), 2);
    assert!(!tree.is_empty());
    assert!(tree.search(&5));
}
