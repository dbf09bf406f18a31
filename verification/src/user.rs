//! The user library: the decisions of its blocking calls, and the process
//! bookkeeping of the manager.
pub mod process;

use vstd::prelude::*;

verus! {

/// Bytes of the user heap.
pub const USER_HEAP_SIZE: usize = 16384;

/// Smallest block of the user heap.
pub const ALLOC_MINIMUM: usize = 256;

/// Entries of the user heap allocator's tree: twice the number of leaves.
pub fn get_alloc_num(total: usize, minimum: usize) -> (r: usize)
    requires
        minimum > 0,
        2 * total <= usize::MAX,
    ensures
        r == (2 * total) / (minimum as int),
{
    2 * total / minimum
}

/// What a waiting call does with the answer of one `waitpid` system call.
#[derive(Clone, Copy, Debug, PartialEq, Eq, Structural)]
pub enum WaitStep {
    /// The awaited child has not exited yet: yield and ask again.
    Retry,
    /// Return this result: an exited child's pid, or -1 when there is no such child.
    Done(isize),
}

/// `wait` asks for any child: it retries on -2 and returns anything else.
pub fn wait(result: isize) -> (step: WaitStep)
    ensures
        result == -2 ==> step == WaitStep::Retry,
        result != -2 ==> step == WaitStep::Done(result),
{
    if result == -2 {
        WaitStep::Retry
    } else {
        WaitStep::Done(result)
    }
}

/// `waitpid` asks for the child `pid` (passed to the system call as
/// `pid as isize`): it retries on -2 and returns anything else.
pub fn waitpid(pid: usize, result: isize) -> (step: WaitStep)
    ensures
        result == -2 ==> step == WaitStep::Retry,
        result != -2 ==> step == WaitStep::Done(result),
{
    wait(result)
}

/// Whether a task that started sleeping at `start` for `period_ms` still
/// sleeps (and yields) at time `now`.
pub fn sleep(start: isize, period_ms: usize, now: isize) -> (more: bool)
    requires
        isize::MIN <= start + period_ms as isize <= isize::MAX,
    ensures
        more == (now < start + period_ms as isize),
{
    now < start + period_ms as isize
}

} // verus!
