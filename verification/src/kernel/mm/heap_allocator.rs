//! Sizing of the kernel heap's buddy allocator.
use vstd::prelude::*;

verus! {

/// Entries of the allocator's tree for a heap of `total` bytes and blocks
/// of at least `minimum` bytes: twice the number of leaves.
pub fn get_alloc_num(total: usize, minimum: usize) -> (r: usize)
    requires
        minimum > 0,
    ensures
        r == (total << 1usize) / minimum,
{
    (total << 1usize) / minimum
}

} // verus!
