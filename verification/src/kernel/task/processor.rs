//! The processor: the task it runs and the decisions taken when that task
//! gives up the processor.
use vstd::prelude::*;

verus! {

use super::manager::{TaskManager, push, INIT_PID, MANAGER_PID};
use super::task::{Task, TaskContext, TaskStatus, set_status, with_status};
use std::collections::BTreeMap;

broadcast use {vstd::laws_cmp::group_laws_cmp, vstd::std_specs::btree::group_btree_axioms};
use crate::kernel::syscall::SYSCALL_EXIT;

/// The running task (by pid) and the context of the idle loop.
pub struct Processor {
    pub cur: Option<usize>,
    pub idle_task_ctx: TaskContext,
}

impl Processor {
    pub fn new() -> (p: Self)
        ensures
            p.cur is None,
            p.idle_task_ctx.ra == 0 && p.idle_task_ctx.sp == 0,
            forall|i: int| 0 <= i < 12 ==> p.idle_task_ctx.s@[i] == 0,
    {
        Processor { cur: None, idle_task_ctx: TaskContext::empty() }
    }

    /// The saved context of the idle loop, for a switch to or from it.
    pub fn idle_task_ctx_ptr(&mut self) -> (r: &mut TaskContext)
        ensures
            *r == old(self).idle_task_ctx,
            final(self).idle_task_ctx == *final(r),
            final(self).cur == old(self).cur,
    {
        &mut self.idle_task_ctx
    }

    pub fn cur_task(&self) -> (r: Option<usize>)
        ensures
            r == self.cur,
    {
        self.cur
    }

    pub fn take_cur_task(&mut self) -> (r: Option<usize>)
        ensures
            r == old(self).cur,
            final(self).cur is None,
            final(self).idle_task_ctx == old(self).idle_task_ctx,
    {
        self.cur.take()
    }
}

/// The running task; there must be one.
pub fn get_cur_task(processor: &Processor) -> (pid: usize)
    requires
        processor.cur is Some,
    ensures
        processor.cur == Some(pid),
{
    processor.cur_task().unwrap()
}

/// Takes the running task off the processor; there must be one.
pub fn take_cur_task(processor: &mut Processor) -> (pid: usize)
    requires
        old(processor).cur is Some,
    ensures
        old(processor).cur == Some(pid),
        final(processor).cur is None,
        final(processor).idle_task_ctx == old(processor).idle_task_ctx,
{
    processor.take_cur_task().unwrap()
}

/// One round of the idle loop: the task `get_front` picks becomes the
/// running task, marked running in `tasks`, and the caller switches to it;
/// with no task to run, the caller stops the machine.
pub fn run_next(
    manager: &mut TaskManager,
    processor: &mut Processor,
    tasks: &mut BTreeMap<usize, Task>,
) -> (r: Option<usize>)
    ensures
        r == old(manager).front_choice(),
        r is Some ==> final(processor).cur == r,
        r is None ==> final(processor).cur == old(processor).cur,
        final(processor).idle_task_ctx == old(processor).idle_task_ctx,
        r is Some && old(tasks)@.contains_key(r->0) ==> final(tasks)@ == old(tasks)@.insert(
            r->0,
            with_status(old(tasks)@[r->0], TaskStatus::Running),
        ),
        r is None || !old(tasks)@.contains_key(r->0) ==> final(tasks)@ == old(tasks)@,
        final(manager).registered() == old(manager).registered(),
        old(manager).requests().len() > 0 ==> final(manager).requests() == old(manager).requests().drop_first(),
        old(manager).requests().len() == 0 ==> final(manager).requests() == old(manager).requests(),
        old(manager).requests().len() == 0 || old(manager).requests()[0] == -1 ==> (if old(manager).ready().len() == 0 {
            final(manager).ready() == old(manager).ready()
        } else {
            final(manager).ready() == old(manager).ready().drop_first()
        }),
        old(manager).requests().len() > 0 && old(manager).requests()[0] != -1 ==> final(manager).ready() == old(manager).ready(),
{
    let task = manager.get_front();
    if let Some(pid) = task {
        set_status(tasks, pid, TaskStatus::Running);
        processor.cur = Some(pid);
    }
    task
}

/// What the processor does after the running task gave it up.
#[derive(Clone, Copy, Debug, PartialEq, Eq)]
pub enum ScheduleAction {
    /// The task was marked ready (and queued unless the manager decides);
    /// switch to the idle loop.
    Yield { pid: usize },
    /// The init task exited: shut down, reporting failure for a nonzero exit code.
    Shutdown { failure: bool },
    /// A task exited and was unregistered: write `message` to the manager's
    /// buffer, drop the task with `reap` and switch to the idle loop.
    Exit { pid: usize, message: [usize; 3] },
}

/// What `schedule(add, exit_code)` does when task `pid` gives up the
/// processor, from the manager `m0` and task table `t0` to `m1` and `t1`,
/// deciding `act`.
pub open spec fn scheduled(
    m0: TaskManager,
    m1: TaskManager,
    t0: Map<usize, Task>,
    t1: Map<usize, Task>,
    pid: usize,
    add: bool,
    exit_code: isize,
    act: ScheduleAction,
) -> bool {
    &&& m1.requests() == m0.requests()
    &&& add ==> {
        &&& act == (ScheduleAction::Yield { pid })
        &&& m0.requests().len() == 0 ==> m1.ready() == m0.ready().push(pid)
        &&& m0.requests().len() > 0 ==> m1.ready() == m0.ready()
        &&& m1.registered() == m0.registered()
        &&& t0.contains_key(pid) ==> t1 == t0.insert(pid, with_status(t0[pid], TaskStatus::Ready))
        &&& !t0.contains_key(pid) ==> t1 == t0
    }
    &&& !add && pid == INIT_PID ==> {
        &&& act == (ScheduleAction::Shutdown { failure: exit_code != 0 })
        &&& m1.ready() == m0.ready()
        &&& m1.registered() == m0.registered()
        &&& t1 == t0
    }
    &&& !add && pid != INIT_PID ==> {
        &&& act == (ScheduleAction::Exit { pid, message: [SYSCALL_EXIT, pid, exit_code as usize] })
        &&& m1.registered() == m0.registered().remove(pid)
        &&& m1.ready() == m0.ready()
        &&& t1 == t0
    }
}

/// Takes the running task off the processor and decides what happens to
/// it: with `add` it is marked ready and queued again, otherwise it exits
/// with `exit_code`. The manager task, which the kernel always keeps, never
/// exits.
pub fn schedule(
    manager: &mut TaskManager,
    processor: &mut Processor,
    tasks: &mut BTreeMap<usize, Task>,
    add: bool,
    exit_code: isize,
) -> (act: ScheduleAction)
    requires
        old(processor).cur is Some,
        !add ==> old(processor).cur->0 != MANAGER_PID,
    ensures
        final(processor).cur is None,
        final(processor).idle_task_ctx == old(processor).idle_task_ctx,
        scheduled(
            *old(manager),
            *final(manager),
            old(tasks)@,
            final(tasks)@,
            old(processor).cur->0,
            add,
            exit_code,
            act,
        ),
{
    let pid = take_cur_task(processor);
    if add {
        set_status(tasks, pid, TaskStatus::Ready);
        push(manager, pid);
        ScheduleAction::Yield { pid }
    } else {
        if pid == INIT_PID {
            return ScheduleAction::Shutdown { failure: exit_code != 0 };
        }
        manager.remove_task(pid);
        ScheduleAction::Exit { pid, message: [SYSCALL_EXIT, pid, exit_code as usize] }
    }
}

/// The running task gives up the processor and stays ready.
pub fn suspend_and_yield(
    manager: &mut TaskManager,
    processor: &mut Processor,
    tasks: &mut BTreeMap<usize, Task>,
) -> (act: ScheduleAction)
    requires
        old(processor).cur is Some,
    ensures
        final(processor).cur is None,
        final(processor).idle_task_ctx == old(processor).idle_task_ctx,
        scheduled(*old(manager), *final(manager), old(tasks)@, final(tasks)@, old(processor).cur->0, true, 0, act),
{
    schedule(manager, processor, tasks, true, 0)
}

/// The running task exits with `exit_code`.
pub fn exit_and_yield(
    manager: &mut TaskManager,
    processor: &mut Processor,
    tasks: &mut BTreeMap<usize, Task>,
    exit_code: isize,
) -> (act: ScheduleAction)
    requires
        old(processor).cur is Some,
        old(processor).cur->0 != MANAGER_PID,
    ensures
        final(processor).cur is None,
        final(processor).idle_task_ctx == old(processor).idle_task_ctx,
        scheduled(
            *old(manager),
            *final(manager),
            old(tasks)@,
            final(tasks)@,
            old(processor).cur->0,
            false,
            exit_code,
            act,
        ),
{
    schedule(manager, processor, tasks, false, exit_code)
}

} // verus!
