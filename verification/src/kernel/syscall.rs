//! System call numbers, decoding, and the decisions of the process calls.
pub mod fs;

use vstd::prelude::*;

verus! {

use crate::kernel::config::{KERNEL_STACK_SIZE, PAGE_SIZE, trampoline, trap_context};
use crate::kernel::mm::memory::PhysMemory;
use crate::kernel::mm::page_table::{PageTable, walk, walkable};
use crate::kernel::task::manager::{TaskManager, push, INIT_PID, MANAGER_PID};
use crate::kernel::task::processor::{
    Processor, ScheduleAction, get_cur_task, scheduled, suspend_and_yield, exit_and_yield,
};
use crate::kernel::task::stack::{lemma_stack_stays, same_but_stack, stack_in_place, stack_page, stack_top};
use crate::kernel::mm::address::vpn_indexes;
use crate::kernel::mm::page_table::mapped_at;
use crate::kernel::mm::frame_allocator::StackFrameAllocator;
use crate::kernel::task::task::{Task, TaskStatus, stack_mappable, trap_frame, with_status};
use crate::kernel::trap::context::{CONTEXT_WORDS, KERNEL_SP_SLOT, same_context, set_register};
use std::collections::BTreeMap;

broadcast use {vstd::laws_cmp::group_laws_cmp, vstd::std_specs::btree::group_btree_axioms};

pub const SYSCALL_READ: usize = 63;

pub const SYSCALL_WRITE: usize = 64;

pub const SYSCALL_EXIT: usize = 93;

pub const SYSCALL_YIELD: usize = 124;

pub const SYSCALL_GETPID: usize = 172;

pub const SYSCALL_FORK: usize = 220;

pub const SYSCALL_EXEC: usize = 221;

pub const SYSCALL_GET_TIME: usize = 169;

pub const SYSCALL_WAITPID: usize = 260;

pub const SYSCALL_SET_PRIORITY: usize = 140;

/// A decoded system call with its arguments.
#[derive(Clone, Copy, Debug, PartialEq, Eq, Structural)]
pub enum Syscall {
    Read { fd: usize, buf: usize, len: usize },
    Write { fd: usize, buf: usize, len: usize },
    Exit { exit_code: isize },
    Fork,
    Yield,
    GetPid,
    Exec { path: usize },
    Waitpid { pid: isize, exit_code_ptr: usize },
    GetTime,
    SetPriority { prio: usize },
}

pub open spec fn is_supported(syscall_id: usize) -> bool {
    syscall_id == SYSCALL_READ || syscall_id == SYSCALL_WRITE || syscall_id == SYSCALL_EXIT
        || syscall_id == SYSCALL_FORK || syscall_id == SYSCALL_YIELD || syscall_id
        == SYSCALL_GETPID || syscall_id == SYSCALL_EXEC || syscall_id == SYSCALL_WAITPID
        || syscall_id == SYSCALL_GET_TIME || syscall_id == SYSCALL_SET_PRIORITY
}

/// The kernel knows exactly ten system calls, by their RISC-V Linux style
/// numbers: read 63, write 64, exit 93, yield 124, set_priority 140,
/// get_time 169, getpid 172, fork 220, exec 221 and waitpid 260.
pub proof fn lemma_known_calls(syscall_id: usize)
    ensures
        is_supported(syscall_id) <==> (syscall_id == 63 || syscall_id == 64 || syscall_id == 93 || syscall_id
            == 124 || syscall_id == 140 || syscall_id == 169 || syscall_id == 172 || syscall_id == 220
            || syscall_id == 221 || syscall_id == 260),
{
}

/// Whether the kernel knows the system call `syscall_id`.
pub fn supported(syscall_id: usize) -> (r: bool)
    ensures
        r == is_supported(syscall_id),
        r <==> (syscall_id == 63 || syscall_id == 64 || syscall_id == 93 || syscall_id == 124 || syscall_id
            == 140 || syscall_id == 169 || syscall_id == 172 || syscall_id == 220 || syscall_id == 221
            || syscall_id == 260),
{
    syscall_id == SYSCALL_READ || syscall_id == SYSCALL_WRITE || syscall_id == SYSCALL_EXIT
        || syscall_id == SYSCALL_FORK || syscall_id == SYSCALL_YIELD || syscall_id
        == SYSCALL_GETPID || syscall_id == SYSCALL_EXEC || syscall_id == SYSCALL_WAITPID
        || syscall_id == SYSCALL_GET_TIME || syscall_id == SYSCALL_SET_PRIORITY
}

/// Decodes the system call `syscall_id` with register arguments `args`.
pub fn syscall(syscall_id: usize, args: [usize; 3]) -> (r: Syscall)
    requires
        is_supported(syscall_id),
    ensures
        syscall_id == SYSCALL_READ ==> r == (Syscall::Read { fd: args@[0], buf: args@[1], len: args@[2] }),
        syscall_id == SYSCALL_WRITE ==> r == (Syscall::Write { fd: args@[0], buf: args@[1], len: args@[2] }),
        syscall_id == SYSCALL_EXIT ==> r == (Syscall::Exit { exit_code: args@[0] as isize }),
        syscall_id == SYSCALL_FORK ==> r == Syscall::Fork,
        syscall_id == SYSCALL_YIELD ==> r == Syscall::Yield,
        syscall_id == SYSCALL_GETPID ==> r == Syscall::GetPid,
        syscall_id == SYSCALL_EXEC ==> r == (Syscall::Exec { path: args@[0] }),
        syscall_id == SYSCALL_WAITPID ==> r == (Syscall::Waitpid {
            pid: args@[0] as isize,
            exit_code_ptr: args@[1],
        }),
        syscall_id == SYSCALL_GET_TIME ==> r == Syscall::GetTime,
        syscall_id == SYSCALL_SET_PRIORITY ==> r == (Syscall::SetPriority { prio: args@[0] }),
{
    if syscall_id == SYSCALL_READ {
        Syscall::Read { fd: args[0], buf: args[1], len: args[2] }
    } else if syscall_id == SYSCALL_WRITE {
        Syscall::Write { fd: args[0], buf: args[1], len: args[2] }
    } else if syscall_id == SYSCALL_EXIT {
        Syscall::Exit { exit_code: args[0] as isize }
    } else if syscall_id == SYSCALL_FORK {
        Syscall::Fork
    } else if syscall_id == SYSCALL_YIELD {
        Syscall::Yield
    } else if syscall_id == SYSCALL_GETPID {
        Syscall::GetPid
    } else if syscall_id == SYSCALL_EXEC {
        Syscall::Exec { path: args[0] }
    } else if syscall_id == SYSCALL_WAITPID {
        Syscall::Waitpid { pid: args[0] as isize, exit_code_ptr: args[1] }
    } else if syscall_id == SYSCALL_GET_TIME {
        Syscall::GetTime
    } else {
        Syscall::SetPriority { prio: args[0] }
    }
}

/// The pid of the running task.
pub fn sys_getpid(processor: &Processor) -> (r: isize)
    requires
        processor.cur is Some,
    ensures
        r == processor.cur->0 as isize,
{
    get_cur_task(processor) as isize
}

/// The time in units of 10000 ticks of the machine timer reading `time`.
pub fn sys_get_time(time: usize) -> (r: isize)
    ensures
        r == (time / 10000) as isize,
{
    (time / 10000) as isize
}

/// The running task exits: the manager runs next, then whatever is ready.
/// The manager task itself never exits.
pub fn sys_exit(
    manager: &mut TaskManager,
    processor: &mut Processor,
    tasks: &mut BTreeMap<usize, Task>,
    exit_code: isize,
) -> (act: ScheduleAction)
    requires
        old(processor).cur is Some,
        old(processor).cur->0 != MANAGER_PID,
    ensures
        final(manager).requests() == seq![1isize, -1isize],
        final(processor).cur is None,
        ({
            let pid = old(processor).cur->0;
            &&& pid == INIT_PID ==> act == (ScheduleAction::Shutdown { failure: exit_code != 0 })
                && final(manager).registered() == old(manager).registered() && final(tasks)@ == old(tasks)@
            &&& pid != INIT_PID ==> act == (ScheduleAction::Exit {
                pid,
                message: [SYSCALL_EXIT, pid, exit_code as usize],
            }) && final(manager).registered() == old(manager).registered().remove(pid)
                && final(tasks)@ == old(tasks)@
        }),
        final(manager).ready() == old(manager).ready(),
{
    manager.set_server(vec![1, -1]);
    exit_and_yield(manager, processor, tasks, exit_code)
}

/// The running task gives up the processor, marked ready; the call
/// returns 0 when it runs again.
pub fn sys_yield(
    manager: &mut TaskManager,
    processor: &mut Processor,
    tasks: &mut BTreeMap<usize, Task>,
) -> (r: (ScheduleAction, isize))
    requires
        old(processor).cur is Some,
    ensures
        r.1 == 0,
        final(processor).cur is None,
        scheduled(*old(manager), *final(manager), old(tasks)@, final(tasks)@, old(processor).cur->0, true, 0, r.0),
{
    let act = suspend_and_yield(manager, processor, tasks);
    (act, 0)
}

/// A request to the manager and the switch that hands it the processor.
#[derive(Clone, Copy, Debug)]
pub struct ManagerCall<const N: usize> {
    pub message: [usize; N],
    pub action: ScheduleAction,
}

/// First half of fork: asks the manager for the child's pid and lets it
/// run next, then the parent again.
pub fn sys_fork(
    manager: &mut TaskManager,
    processor: &mut Processor,
    tasks: &mut BTreeMap<usize, Task>,
) -> (call: ManagerCall<2>)
    requires
        old(processor).cur is Some,
    ensures
        final(processor).cur is None,
        ({
            let pid = old(processor).cur->0;
            &&& call.message@ == seq![SYSCALL_FORK, pid]
            &&& call.action == (ScheduleAction::Yield { pid })
            &&& final(manager).requests() == seq![1isize, pid as isize]
            &&& final(manager).ready() == old(manager).ready()
            &&& final(manager).registered() == old(manager).registered()
            &&& old(tasks)@.contains_key(pid) ==> final(tasks)@ == old(tasks)@.insert(
                pid,
                with_status(old(tasks)@[pid], TaskStatus::Ready),
            )
            &&& !old(tasks)@.contains_key(pid) ==> final(tasks)@ == old(tasks)@
        }),
{
    let pid = get_cur_task(processor);
    let message = [SYSCALL_FORK, pid];
    manager.set_server(vec![1, pid as isize]);
    let action = suspend_and_yield(manager, processor, tasks);
    ManagerCall { message, action }
}

/// Second half of fork, once the manager answered with the child's pid
/// `new_pid` and the parent runs again: the child, made by `Task::fork`
/// from the running task in `memory`, the copy of its address space, sees
/// 0 as the result of the call; it is queued, registered and put in the
/// task table. The parent's call returns the child's pid.
pub fn sys_fork_resume(
    manager: &mut TaskManager,
    processor: &Processor,
    tasks: &mut BTreeMap<usize, Task>,
    kernel: &mut PageTable,
    mem: &mut PhysMemory,
    fa: &mut StackFrameAllocator,
    new_pid: usize,
    memory: PageTable,
    trap_return: usize,
) -> (r: isize)
    requires
        processor.cur is Some,
        old(tasks)@.contains_key(processor.cur->0),
        walkable(*old(mem), memory.root()),
        walk(*old(mem), memory.root(), trap_context() / PAGE_SIZE as int) is Some,
        old(mem).has(trap_frame(*old(mem), memory) as int),
        new_pid * (KERNEL_STACK_SIZE + PAGE_SIZE) + KERNEL_STACK_SIZE <= trampoline(),
        stack_mappable(*old(kernel), *old(mem), *old(fa), new_pid as int),
    ensures
        r == new_pid as isize,
        old(manager).requests().len() == 0 ==> final(manager).ready() == old(manager).ready().push(new_pid),
        old(manager).requests().len() > 0 ==> final(manager).ready() == old(manager).ready(),
        final(manager).registered() == old(manager).registered().insert(new_pid),
        final(manager).requests() == old(manager).requests(),
        final(tasks)@ == old(tasks)@.insert(new_pid, final(tasks)@[new_pid]),
        ({
            let parent = old(tasks)@[processor.cur->0].inner.trap_ctx.0;
            let child = final(tasks)@[new_pid];
            let frame = child.inner.trap_ctx.0;
            &&& child.pid == new_pid
            &&& child.kernel_stack.owner() == new_pid
            &&& child.kernel_stack.frame(0) != child.kernel_stack.frame(1)
            &&& forall|k: int| 0 <= k < 2 ==> !old(fa).in_use().contains(#[trigger] child.kernel_stack.frame(k))
            &&& old(fa).in_use().contains(frame) && !old(kernel).dirs().contains(frame) ==> stack_in_place(
                *final(kernel),
                *final(fa),
                *final(mem),
                child.kernel_stack,
            ) && same_but_stack(*old(kernel), *old(mem), *final(kernel), *final(mem), new_pid as int)
            &&& frame == trap_frame(*old(mem), memory)
            &&& child.inner.task_ctx.ra == trap_return
            &&& child.inner.task_ctx.sp == stack_top(new_pid as int)
            &&& child.inner.task_status == TaskStatus::Ready
            &&& child.inner.memory == memory
            &&& final(mem).entry(frame as int, 10) == 0
            &&& final(mem).entry(frame as int, KERNEL_SP_SLOT as int) == stack_top(new_pid as int)
            &&& forall|q: usize, j: int|
                old(mem).has(q as int) && old(fa).in_use().contains(q) && !old(kernel).dirs().contains(q) && 0 <= j
                    < 512 && !(q == frame && (j == 10 || j == KERNEL_SP_SLOT)) ==> #[trigger] final(mem).entry(q as int, j)
                    == old(mem).entry(q as int, j)
            &&& old(fa).in_use().contains(frame) && !old(kernel).dirs().contains(frame) && same_context(
                *old(mem),
                frame,
                parent,
            ) ==> forall|i: int|
                0 <= i < CONTEXT_WORDS && i != 10 && i != KERNEL_SP_SLOT ==> #[trigger] final(mem).entry(frame as int, i)
                    == old(mem).entry(parent as int, i)
        }),
{
    let cur = get_cur_task(processor);
    let ghost m0 = *mem;
    let ghost k0 = *kernel;
    let ghost fa0 = *fa;
    let child = tasks.get(&cur).unwrap().fork(memory, kernel, mem, fa, new_pid, trap_return);
    let ghost m1 = *mem;
    set_register(mem, child.inner.trap_ctx, 10, 0);
    proof {
        let c = child.inner.trap_ctx.0;
        if fa0.in_use().contains(c) && !k0.dirs().contains(c) {
            assert(!kernel.dirs().contains(c));
            assert forall|q: usize, j: int|
                #![trigger mem.entry(q as int, j)]
                kernel.dirs().contains(q) && m1.has(q as int) && 0 <= j < 512 implies mem.entry(q as int, j)
                    == m1.entry(q as int, j) by {
                assert(q != c);
            }
            lemma_stack_stays(*kernel, *fa, m1, *mem, child.kernel_stack);
            assert forall|a: int, b: int, x: int|
                0 <= a < 512 && 0 <= b < 512 && 0 <= x < 512 && seq![a, b, x] != vpn_indexes(
                    stack_page(new_pid as int),
                ) && seq![a, b, x] != vpn_indexes(stack_page(new_pid as int) + 1) implies #[trigger] mapped_at(
                *mem,
                kernel.root(),
                a,
                b,
                x,
            ) == mapped_at(m0, k0.root(), a, b, x) by {
                assert(mapped_at(*mem, kernel.root(), a, b, x) == mapped_at(m1, kernel.root(), a, b, x));
            }
        }
    }
    push(manager, new_pid);
    manager.insert_task(new_pid);
    tasks.insert(new_pid, child);
    new_pid as isize
}

/// First half of waitpid: asks the manager about the child `pid` (-1 for
/// any child) and lets it run next, then the caller again.
pub fn sys_waitpid(
    manager: &mut TaskManager,
    processor: &mut Processor,
    tasks: &mut BTreeMap<usize, Task>,
    pid: isize,
) -> (call: ManagerCall<3>)
    requires
        old(processor).cur is Some,
    ensures
        final(processor).cur is None,
        ({
            let cur = old(processor).cur->0;
            &&& call.message@ == seq![SYSCALL_WAITPID, cur, pid as usize]
            &&& call.action == (ScheduleAction::Yield { pid: cur })
            &&& final(manager).requests() == seq![1isize, cur as isize]
            &&& final(manager).ready() == old(manager).ready()
            &&& final(manager).registered() == old(manager).registered()
            &&& old(tasks)@.contains_key(cur) ==> final(tasks)@ == old(tasks)@.insert(
                cur,
                with_status(old(tasks)@[cur], TaskStatus::Ready),
            )
            &&& !old(tasks)@.contains_key(cur) ==> final(tasks)@ == old(tasks)@
        }),
{
    let cur_pid = get_cur_task(processor);
    let message = [SYSCALL_WAITPID, cur_pid, pid as usize];
    manager.set_server(vec![1, cur_pid as isize]);
    let action = suspend_and_yield(manager, processor, tasks);
    ManagerCall { message, action }
}

/// Second half of waitpid, from the manager's answer `[exist, child, code]`:
/// -1 when no such child exists, -2 when none of them has exited yet,
/// otherwise the child's pid, with its exit code to store for the caller.
pub fn sys_waitpid_resume(reply: [usize; 3]) -> (r: (isize, Option<i32>))
    ensures
        reply@[0] == 0 ==> r == (-1isize, None::<i32>),
        reply@[0] != 0 && reply@[1] as isize == -1 ==> r == (-2isize, None::<i32>),
        reply@[0] != 0 && reply@[1] as isize != -1 ==> r == (reply@[1] as isize, Some(reply@[2] as i32)),
{
    let exist = reply[0];
    let child_pid = reply[1] as isize;
    let exit_code = reply[2] as i32;
    if exist == 0 {
        (-1, None)
    } else {
        if child_pid == -1 {
            (-2, None)
        } else {
            (child_pid, Some(exit_code))
        }
    }
}

} // verus!
