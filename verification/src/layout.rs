//! The size and alignment of a requested memory block.
use vstd::prelude::*;

verus! {

use vstd::arithmetic::power2::is_pow2;
use crate::bits::npow2;
use crate::allocator::tree::max_of;

/// Size and alignment of a memory request, as handed to a global allocator.
#[derive(Clone, Copy, Debug)]
pub struct Layout {
    pub size: usize,
    pub align: usize,
}

impl Layout {
    /// The alignment is a power of two and the size, rounded up to it, fits in `isize`.
    pub open spec fn valid(self) -> bool {
        &&& is_pow2(self.align as int)
        &&& self.size + self.align - 1 <= isize::MAX
    }
}

/// Bytes a buddy allocator sets aside for `layout`: a power of two at least
/// the alignment, the allocator's minimum block and the requested size.
pub open spec fn request_size(layout: Layout, minimum: int) -> int {
    max_of(max_of(layout.align as int, minimum), npow2(layout.size as nat) as int)
}

/// The reserved size is a power of two covering the size, the alignment
/// and the allocator's minimum block.
pub proof fn lemma_request_size(layout: Layout, minimum: int)
    requires
        layout.valid(),
        is_pow2(minimum),
    ensures
        is_pow2(request_size(layout, minimum)),
        request_size(layout, minimum) >= minimum,
        request_size(layout, minimum) >= layout.size,
        request_size(layout, minimum) >= layout.align,
{
    crate::bits::lemma_npow2(layout.size as nat);
}

} // verus!
