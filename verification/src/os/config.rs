//! Constants of the first kernel.
use vstd::prelude::*;

verus! {

/// Number of free lists of the buddy allocator: blocks of `2^0` up to
/// `2^31` bytes.
pub const BUDDY_ALLOCATOR_LEVEL: usize = 32;

pub const VIRT_UART: usize = 0x10000000;

pub const KERNEL_HEAP_SIZE: usize = 0x800000;

pub const MEMORY_END: usize = 0x88000000;

pub const PAGE_SIZE: usize = 0x1000;

pub const PAGE_SIZE_BITS: usize = 12;

} // verus!
