//! A user process's view of its shared buffer page.
use vstd::prelude::*;

verus! {

/// Words of the buffer page.
pub const BUFFER_SIZE: usize = 0x1000;

/// Copies `data` to the start of the buffer, seen as `buffer`: at most
/// `BUFFER_SIZE` words fit.
pub fn write_to_buffer(buffer: &mut [usize], data: &[usize])
    requires
        data@.len() <= BUFFER_SIZE,
        data@.len() <= old(buffer)@.len(),
    ensures
        final(buffer)@ == data@ + old(buffer)@.subrange(data@.len() as int, old(buffer)@.len() as int),
{
    crate::kernel::mm::buffer::write_to_buffer(buffer, data);
}

/// The first `N` words of the buffer.
pub fn read_from_buffer<const N: usize>(buffer: &[usize]) -> (r: [usize; N])
    requires
        N <= BUFFER_SIZE,
        N <= buffer@.len(),
    ensures
        r@ == buffer@.subrange(0, N as int),
{
    crate::kernel::mm::buffer::read_from_buffer(buffer)
}

} // verus!
