//! Memory management of the first kernel.
pub mod buddy_allocator;
pub mod linked_list;
pub mod range;
