//! The shared buffers through which the kernel and the manager exchange
//! messages: one page per process above the frames.
use vstd::prelude::*;

verus! {

use crate::kernel::config::{FRAME_END, PAGE_SIZE};

/// The buffer page `[bottom, top)` of process `pid`.
pub fn buffer_position(pid: usize) -> (r: (usize, usize))
    requires
        FRAME_END + (pid + 1) * PAGE_SIZE <= usize::MAX,
    ensures
        r.0 == FRAME_END + pid * PAGE_SIZE,
        r.1 == r.0 + PAGE_SIZE,
{
    let bottom = FRAME_END + pid * PAGE_SIZE;
    let top = bottom + PAGE_SIZE;
    (bottom, top)
}

/// Copies `data` to the start of a process's buffer, seen as `buffer`:
/// at most `PAGE_SIZE` words fit.
pub fn write_to_buffer(buffer: &mut [usize], data: &[usize])
    requires
        data@.len() <= PAGE_SIZE,
        data@.len() <= old(buffer)@.len(),
    ensures
        final(buffer)@ == data@ + old(buffer)@.subrange(data@.len() as int, old(buffer)@.len() as int),
{
    let n = data.len();
    let mut i: usize = 0;
    while i < n
        invariant
            n == data@.len(),
            i <= n,
            n <= buffer@.len(),
            buffer@.len() == old(buffer)@.len(),
            forall|k: int| 0 <= k < i ==> buffer@[k] == data@[k],
            forall|k: int| i <= k < buffer@.len() ==> buffer@[k] == old(buffer)@[k],
        decreases n - i,
    {
        buffer[i] = data[i];
        i = i + 1;
    }
    proof {
        assert(buffer@ =~= data@ + old(buffer)@.subrange(n as int, old(buffer)@.len() as int));
    }
}

/// The first `N` words of a process's buffer.
pub fn read_from_buffer<const N: usize>(buffer: &[usize]) -> (r: [usize; N])
    requires
        N <= PAGE_SIZE,
        N <= buffer@.len(),
    ensures
        r@ == buffer@.subrange(0, N as int),
{
    let mut array: [usize; N] = [0;N];
    let mut i: usize = 0;
    while i < N
        invariant
            i <= N,
            N <= buffer@.len(),
            array@.len() == N,
            forall|k: int| 0 <= k < i ==> array@[k] == buffer@[k],
        decreases N - i,
    {
        array[i] = buffer[i];
        i = i + 1;
    }
    proof {
        assert(array@ =~= buffer@.subrange(0, N as int));
    }
    array
}


/// Reading the first `n` words of a buffer just written with `data` gives
/// back the first `n` words of `data`.
pub proof fn lemma_read_after_write(before: Seq<usize>, data: Seq<usize>, after: Seq<usize>, n: int)
    requires
        data.len() <= before.len(),
        after == data + before.subrange(data.len() as int, before.len() as int),
        0 <= n <= data.len(),
    ensures
        after.subrange(0, n) == data.subrange(0, n),
{
    assert(after.subrange(0, n) =~= data.subrange(0, n));
}

/// The buffers of two different processes do not overlap.
pub proof fn lemma_buffers_apart(a: int, b: int)
    requires
        0 <= a < b,
    ensures
        FRAME_END + a * PAGE_SIZE + PAGE_SIZE <= FRAME_END + b * PAGE_SIZE,
{
    assert(a * PAGE_SIZE + PAGE_SIZE <= b * PAGE_SIZE) by (nonlinear_arith)
        requires
            0 <= a < b,
    ;
}

} // verus!
