//! What the kernel does with a trap from user mode.
pub mod context;

use vstd::prelude::*;

verus! {

use crate::kernel::config::{PAGE_SIZE, trampoline, trap_context, trap_context_addr};
use crate::kernel::mm::memory::PhysMemory;
use crate::kernel::task::manager::{TaskManager, INIT_PID, MANAGER_PID};
use crate::kernel::syscall::SYSCALL_EXIT;
use crate::kernel::task::processor::{
    Processor, ScheduleAction, get_cur_task, scheduled, suspend_and_yield, exit_and_yield,
};
use crate::kernel::task::task::Task;
use context::{SEPC_SLOT, set_register, step_syscall};
use std::collections::BTreeMap;

broadcast use {vstd::laws_cmp::group_laws_cmp, vstd::std_specs::btree::group_btree_axioms};

/// The cause of a trap, as read from `scause`.
#[derive(Clone, Copy, Debug, PartialEq, Eq, Structural)]
pub enum TrapCause {
    UserEnvCall,
    StoreFault,
    StorePageFault,
    LoadFault,
    LoadPageFault,
    IllegalInstruction,
    SupervisorSoft,
    /// Any other exception or interrupt, by its `scause` code.
    Other { code: usize },
}

/// Whether the trap is a bad memory access or an illegal instruction,
/// which ends the task with exit code 0.
pub open spec fn is_fault(cause: TrapCause) -> bool {
    ||| cause == TrapCause::StoreFault
    ||| cause == TrapCause::StorePageFault
    ||| cause == TrapCause::LoadFault
    ||| cause == TrapCause::LoadPageFault
    ||| cause == TrapCause::IllegalInstruction
}

/// The bad memory accesses (store and load faults, page faults or not)
/// and the illegal instruction are exactly the traps that are not a system
/// call, a software interrupt or another cause.
pub proof fn lemma_faults(cause: TrapCause)
    ensures
        is_fault(cause) <==> !(cause is UserEnvCall || cause is SupervisorSoft || cause is Other),
        cause is StoreFault || cause is StorePageFault || cause is LoadFault || cause is LoadPageFault
            || cause is IllegalInstruction ==> is_fault(cause),
{
}

/// What the kernel does next after a trap from user mode.
#[derive(Clone, Copy, Debug, PartialEq, Eq)]
pub enum TrapStep {
    /// `sepc` stepped past `ecall`: run system call `id` with `args`, then
    /// store its result with `finish_syscall`.
    Syscall { id: usize, args: [usize; 3] },
    /// The running task gave up the processor: carry out the action.
    Switch(ScheduleAction),
    /// The kernel cannot handle this trap.
    Unsupported,
}

/// The frame holding the trap context of the running task.
pub open spec fn cur_frame(processor: Processor, tasks: Map<usize, Task>) -> usize {
    tasks[processor.cur->0].inner.trap_ctx.0
}

/// Handles a trap from user mode by the running task. A system call steps
/// `sepc` past `ecall` and hands out the call number `x[17]` and the
/// arguments `x[10..13]`; a bad memory access or an illegal instruction ends
/// the task with exit code 0; a software interrupt makes the task yield.
pub fn trap_handler(
    cause: TrapCause,
    manager: &mut TaskManager,
    processor: &mut Processor,
    tasks: &mut BTreeMap<usize, Task>,
    mem: &mut PhysMemory,
) -> (r: TrapStep)
    requires
        old(processor).cur is Some,
        cause == TrapCause::UserEnvCall ==> {
            let frame = cur_frame(*old(processor), old(tasks)@);
            &&& usize::MAX == u64::MAX
            &&& old(tasks)@.contains_key(old(processor).cur->0)
            &&& old(mem).wf()
            &&& old(mem).has(frame as int)
            &&& old(mem).entry(frame as int, SEPC_SLOT as int) + 4 <= u64::MAX
        },
        is_fault(cause) ==> old(processor).cur->0 != MANAGER_PID,
    ensures
        cause == TrapCause::UserEnvCall ==> {
            let frame = cur_frame(*old(processor), old(tasks)@) as int;
            &&& r matches TrapStep::Syscall { id, args }
            &&& id == old(mem).entry(frame, 17) as usize
            &&& args@ == seq![
                old(mem).entry(frame, 10) as usize,
                old(mem).entry(frame, 11) as usize,
                old(mem).entry(frame, 12) as usize,
            ]
            &&& final(mem).wf()
            &&& final(mem).first() == old(mem).first()
            &&& final(mem).count() == old(mem).count()
            &&& final(mem).entry(frame, SEPC_SLOT as int) == old(mem).entry(frame, SEPC_SLOT as int) + 4
            &&& forall|q: int, j: int|
                old(mem).has(q) && 0 <= j < 512 && !(q == frame && j == SEPC_SLOT) ==> #[trigger] final(mem).entry(q, j)
                    == old(mem).entry(q, j)
            &&& *final(manager) == *old(manager)
            &&& *final(processor) == *old(processor)
            &&& final(tasks)@ == old(tasks)@
        },
        is_fault(cause) ==> r is Switch && final(processor).cur is None && scheduled(
            *old(manager),
            *final(manager),
            old(tasks)@,
            final(tasks)@,
            old(processor).cur->0,
            false,
            0,
            r->0,
        ) && *final(mem) == *old(mem),
        cause == TrapCause::SupervisorSoft ==> r is Switch && final(processor).cur is None && scheduled(
            *old(manager),
            *final(manager),
            old(tasks)@,
            final(tasks)@,
            old(processor).cur->0,
            true,
            0,
            r->0,
        ) && *final(mem) == *old(mem),
        r is Unsupported <==> cause is Other,
        cause is StoreFault || cause is StorePageFault || cause is LoadFault || cause is LoadPageFault
            || cause is IllegalInstruction ==> r == TrapStep::Switch(
            if old(processor).cur->0 == INIT_PID {
                ScheduleAction::Shutdown { failure: false }
            } else {
                ScheduleAction::Exit { pid: old(processor).cur->0, message: [SYSCALL_EXIT, old(processor).cur->0, 0] }
            },
        ),
        cause is Other ==> r == TrapStep::Unsupported && *final(manager) == *old(manager) && *final(processor)
            == *old(processor) && final(tasks)@ == old(tasks)@ && *final(mem) == *old(mem),
{
    match cause {
        TrapCause::UserEnvCall => {
            let pid = get_cur_task(processor);
            let frame = tasks.get(&pid).unwrap().inner.trap_ctx;
            let (id, args) = step_syscall(mem, frame);
            TrapStep::Syscall { id, args }
        },
        TrapCause::StoreFault | TrapCause::StorePageFault | TrapCause::LoadFault
        | TrapCause::LoadPageFault | TrapCause::IllegalInstruction => {
            TrapStep::Switch(exit_and_yield(manager, processor, tasks, 0))
        },
        TrapCause::SupervisorSoft => TrapStep::Switch(suspend_and_yield(manager, processor, tasks)),
        TrapCause::Other { .. } => TrapStep::Unsupported,
    }
}

/// Stores the result of a system call in `x[10]` of the running task's
/// trap context, once that task runs again.
pub fn finish_syscall(processor: &Processor, tasks: &BTreeMap<usize, Task>, mem: &mut PhysMemory, result: isize)
    requires
        processor.cur is Some,
        tasks@.contains_key(processor.cur->0),
        old(mem).wf(),
        old(mem).has(cur_frame(*processor, tasks@) as int),
    ensures
        ({
            let frame = cur_frame(*processor, tasks@) as int;
            &&& final(mem).entry(frame, 10) == result as usize as u64
            &&& forall|q: int, j: int|
                old(mem).has(q) && 0 <= j < 512 && !(q == frame && j == 10) ==> #[trigger] final(mem).entry(q, j)
                    == old(mem).entry(q, j)
        }),
        final(mem).wf(),
        final(mem).first() == old(mem).first(),
        final(mem).count() == old(mem).count(),
{
    let pid = get_cur_task(processor);
    let frame = tasks.get(&pid).unwrap().inner.trap_ctx;
    set_register(mem, frame, 10, result as usize);
}

/// Where returning to user mode jumps: the address of `__restore` in the
/// trampoline page, which maps the trap code from `__alltraps` on; and the
/// trap context address handed to it.
pub fn trap_return_target(alltraps: usize, restore: usize) -> (r: (usize, usize))
    requires
        alltraps <= restore,
        restore - alltraps < PAGE_SIZE,
    ensures
        r.0 == restore - alltraps + trampoline(),
        r.1 == trap_context(),
{
    (restore - alltraps + (usize::MAX - PAGE_SIZE + 1), trap_context_addr())
}

} // verus!
