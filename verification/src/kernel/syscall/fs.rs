//! Reading standard input and writing standard output on behalf of a task.
use vstd::prelude::*;

verus! {

use crate::kernel::config::PAGE_SIZE;
use crate::kernel::mm::address::{PhysAddr, PhysPageNum, PPN_MASK};
use crate::kernel::mm::memory::PhysMemory;
use crate::kernel::mm::page_table::{
    chunk_at,
    chunk_count,
    pte_ppn,
    translated_byte_buffer,
    va_readable,
    va_to_pa,
    walk,
    walkable,
};

pub const FD_STDIN: usize = 0;

pub const FD_STDOUT: usize = 1;

/// A write to standard output: the pieces of physical memory holding the
/// `len` bytes at `buf` in the address space `token`, to be printed in
/// order, and the call's result.
pub fn sys_write(mem: &PhysMemory, token: usize, fd: usize, buf: usize, len: usize) -> (r: (
    Vec<(PhysPageNum, usize, usize)>,
    isize,
))
    requires
        fd == FD_STDOUT,
        buf + len + PAGE_SIZE <= usize::MAX,
        walkable(*mem, (token as u64 & PPN_MASK) as usize),
        forall|v: int|
            (buf / PAGE_SIZE) as int <= v < (buf / PAGE_SIZE) as int + chunk_count(buf as int, len as int)
                ==> #[trigger] walk(*mem, (token as u64 & PPN_MASK) as usize, v) is Some,
    ensures
        r.0.len() == chunk_count(buf as int, len as int),
        forall|k: int|
            0 <= k < r.0.len() ==> #[trigger] r.0@[k] == chunk_at(
                *mem,
                (token as u64 & PPN_MASK) as usize,
                buf as int,
                len as int,
                k,
            ),
        r.1 == len as isize,
{
    let pieces = translated_byte_buffer(mem, token, buf, len);
    (pieces, len as isize)
}

/// What a read of standard input does next.
#[derive(Clone, Copy, Debug, PartialEq, Eq, Structural)]
pub enum ReadStep {
    /// No character has arrived: yield and read again.
    Yield,
    /// The character was stored; the call returns this.
    Done(isize),
}

/// One attempt of a one-byte read from standard input into `buf` of the
/// address space `token`, given the character `ch` the console returned
/// (0 when none arrived).
pub fn sys_read(mem: &mut PhysMemory, token: usize, fd: usize, buf: usize, len: usize, ch: u8) -> (r: ReadStep)
    requires
        fd == FD_STDIN,
        len == 1,
        usize::MAX == u64::MAX,
        buf + 1 + PAGE_SIZE <= usize::MAX,
        walkable(*old(mem), (token as u64 & PPN_MASK) as usize),
        va_readable(*old(mem), (token as u64 & PPN_MASK) as usize, buf as int),
    ensures
        ch == 0 ==> r == ReadStep::Yield && *final(mem) == *old(mem),
        ch != 0 ==> r == ReadStep::Done(1) && final(mem).wf() && final(mem).first() == old(mem).first()
            && final(mem).count() == old(mem).count() && forall|q: int|
            0 <= q && old(mem).has(q / (PAGE_SIZE as int)) ==> #[trigger] final(mem).byte_at(q) == if q
                == va_to_pa(*old(mem), (token as u64 & PPN_MASK) as usize, buf as int) {
                ch
            } else {
                old(mem).byte_at(q)
            },
{
    if ch == 0 {
        return ReadStep::Yield;
    }
    let ghost root = (token as u64 & PPN_MASK) as usize;
    let buffers = translated_byte_buffer(mem, token, buf, len);
    proof {
        assert(chunk_count(buf as int, 1) == 1);
        assert(buffers@[0] == chunk_at(*mem, root, buf as int, 1, 0));
    }
    let (ppn, start, _) = buffers[0];
    proof {
        crate::kernel::mm::page_table::lemma_ppn_bound(walk(*mem, root, (buf / PAGE_SIZE) as int)->0);
    }
    mem.write_byte(PhysAddr(ppn.0 * PAGE_SIZE + start), ch);
    ReadStep::Done(1)
}

} // verus!
