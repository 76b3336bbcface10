//! Owning pointers: a custom box, a resource holder, a shared counted
//! pointer, a double-ended list and a binary search tree.
pub mod custom;
pub mod list;
pub mod tree;
