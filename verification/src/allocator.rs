//! The allocator crate: a buddy allocator over an implicit binary tree.
pub mod buddy_allocator;
pub mod tree;
pub mod usage;
