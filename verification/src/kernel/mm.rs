pub mod address;
pub mod buffer;
pub mod frame_allocator;
pub mod heap_allocator;
pub mod memory;
pub mod page_table;
