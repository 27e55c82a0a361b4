//! Linked data structures built from owned nodes: a stack, a singly linked
//! list, a binary search tree, and the small pointer types of the book module.
pub mod book;
pub mod list;
pub mod stack;
pub mod tree;

pub use stack::test_stack;
