//! Constants of the microkernel.
use vstd::prelude::*;

verus! {

pub const VIRT_UART: usize = 0x10000000;

pub const USER_STACK_SIZE: usize = 4096 * 2;

pub const KERNEL_STACK_SIZE: usize = 4096 * 2;

pub const KERNEL_HEAP_SIZE: usize = 0x800000;

pub const MEMORY_END: usize = 0x88000000;

/// Bytes of physical memory at the top reserved for the shared buffers.
pub const BUFFER_SIZE: usize = 0x100000;

/// End of the physical frames handed out by the frame allocator.
pub const FRAME_END: usize = 0x87f00000;

pub const PAGE_SIZE: usize = 0x1000;

pub const PAGE_SIZE_BITS: usize = 12;

pub const TIME_PERIOD: usize = 1000000;

pub const MTIME_ADDR: usize = 0x0200bff8;

pub const MTIMECMP_ADDR: usize = 0x02004000;

pub const CPU_NUMBER: usize = 8;

pub const BIGSTRIDE: isize = 10000;

/// The highest page of the address space, shared by all address spaces.
pub open spec fn trampoline() -> int {
    usize::MAX - PAGE_SIZE + 1
}

/// The page below the trampoline holds a task's trap context.
pub open spec fn trap_context() -> int {
    trampoline() - PAGE_SIZE
}


/// The address of the trap context page.
pub fn trap_context_addr() -> (r: usize)
    ensures
        r == trap_context(),
{
    usize::MAX - PAGE_SIZE + 1 - PAGE_SIZE
}

} // verus!
