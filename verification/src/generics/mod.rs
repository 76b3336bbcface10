//! Generic containers and borrowed views: key-value caches, a singly linked
//! list, a FIFO queue, a LIFO stack and a few functions over string slices.
pub mod cache;
pub mod list;
pub mod queue;
pub mod stack;
