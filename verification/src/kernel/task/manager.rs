//! The ready queue, the table of forked tasks, and the queue of tasks the
//! manager asked to run next. Tasks are named by their process identifiers;
//! the init task is process 0 and the manager task process 1.
use vstd::prelude::*;

verus! {

use std::collections::{BTreeSet, VecDeque};

broadcast use vstd::laws_cmp::group_laws_cmp;

pub struct TaskManager {
    ready_tasks: VecDeque<usize>,
    tasks: BTreeSet<usize>,
    server: VecDeque<isize>,
}

/// Pid of the init task.
pub const INIT_PID: usize = 0;

/// Pid of the manager task.
pub const MANAGER_PID: usize = 1;

/// The task a scheduling request names: `-1` for the head of the ready
/// queue (handled by the caller), `0` and `1` for the init and manager
/// tasks, any other value for that forked task if it is registered.
pub open spec fn server_pick(tasks: Set<usize>, pid: isize) -> Option<usize> {
    if pid == 0 {
        Some(INIT_PID)
    } else if pid == 1 {
        Some(MANAGER_PID)
    } else if tasks.contains(pid as usize) {
        Some(pid as usize)
    } else {
        None
    }
}

impl TaskManager {
    /// Tasks waiting to run, front first.
    pub closed spec fn ready(&self) -> Seq<usize> {
        self.ready_tasks@
    }

    /// Forked tasks that can be found by pid.
    pub closed spec fn registered(&self) -> Set<usize> {
        self.tasks@
    }

    /// Scheduling requests of the manager, front first.
    pub closed spec fn requests(&self) -> Seq<isize> {
        self.server@
    }

    /// What `get_front` hands out: the pending request decides, if there is
    /// one that names a task; otherwise the head of the ready queue.
    pub open spec fn front_choice(&self) -> Option<usize> {
        if self.requests().len() == 0 || self.requests()[0] == -1 {
            if self.ready().len() == 0 {
                None
            } else {
                Some(self.ready()[0])
            }
        } else {
            server_pick(self.registered(), self.requests()[0])
        }
    }

    pub fn new() -> (s: Self)
        ensures
            s.ready() == Seq::<usize>::empty(),
            s.registered() == Set::<usize>::empty(),
            s.requests() == Seq::<isize>::empty(),
    {
        TaskManager { ready_tasks: VecDeque::new(), tasks: BTreeSet::new(), server: VecDeque::new() }
    }

    /// Replaces the pending scheduling requests by `server`.
    pub fn set_server(&mut self, server: Vec<isize>)
        ensures
            final(self).requests() == server@,
            final(self).ready() == old(self).ready(),
            final(self).registered() == old(self).registered(),
    {
        let mut q: VecDeque<isize> = VecDeque::new();
        let mut i: usize = 0;
        while i < server.len()
            invariant
                i <= server@.len(),
                q@ == server@.subrange(0, i as int),
            decreases server@.len() - i,
        {
            q.push_back(server[i]);
            i = i + 1;
            proof {
                assert(q@ =~= server@.subrange(0, i as int));
            }
        }
        proof {
            assert(q@ =~= server@);
        }
        self.server = q;
    }

    pub fn insert_task(&mut self, pid: usize)
        ensures
            final(self).registered() == old(self).registered().insert(pid),
            final(self).ready() == old(self).ready(),
            final(self).requests() == old(self).requests(),
    {
        self.tasks.insert(pid);
    }

    pub fn remove_task(&mut self, pid: usize)
        ensures
            final(self).registered() == old(self).registered().remove(pid),
            final(self).ready() == old(self).ready(),
            final(self).requests() == old(self).requests(),
    {
        self.tasks.remove(&pid);
    }

    pub fn find_task(&self, pid: usize) -> (r: Option<usize>)
        ensures
            r == (if self.registered().contains(pid) {
                Some(pid)
            } else {
                None
            }),
    {
        if self.tasks.contains(&pid) {
            Some(pid)
        } else {
            None
        }
    }

    /// Whether scheduling requests are pending.
    pub fn server(&self) -> (r: bool)
        ensures
            r == (self.requests().len() > 0),
    {
        self.server.len() != 0
    }

    pub fn push(&mut self, pid: usize)
        ensures
            final(self).ready() == old(self).ready().push(pid),
            final(self).registered() == old(self).registered(),
            final(self).requests() == old(self).requests(),
    {
        self.ready_tasks.push_back(pid);
    }

    /// The next task to run: the head of the ready queue, unless a
    /// scheduling request is pending, which is consumed and decides.
    pub fn get_front(&mut self) -> (r: Option<usize>)
        ensures
            r == old(self).front_choice(),
            final(self).registered() == old(self).registered(),
            old(self).requests().len() == 0 || old(self).requests()[0] == -1 ==> {
                &&& old(self).ready().len() == 0 ==> r is None && final(self).ready() == old(self).ready()
                &&& old(self).ready().len() > 0 ==> r == Some(old(self).ready()[0])
                    && final(self).ready() == old(self).ready().drop_first()
            },
            old(self).requests().len() == 0 ==> final(self).requests() == old(self).requests(),
            old(self).requests().len() > 0 ==> final(self).requests() == old(self).requests().drop_first(),
            old(self).requests().len() > 0 && old(self).requests()[0] != -1 ==> r == server_pick(
                old(self).registered(),
                old(self).requests()[0],
            ) && final(self).ready() == old(self).ready(),
            old(self).requests().len() > 0 && old(self).requests()[0] == 0 ==> r == Some(0usize),
            old(self).requests().len() > 0 && old(self).requests()[0] == 1 ==> r == Some(1usize),
    {
        if !self.server() {
            self.ready_tasks.pop_front()
        } else {
            let pid = self.server.pop_front().unwrap();
            if pid == -1 {
                self.ready_tasks.pop_front()
            } else if pid == 0 {
                Some(INIT_PID)
            } else if pid == 1 {
                Some(MANAGER_PID)
            } else {
                self.find_task(pid as usize)
            }
        }
    }

    /// Number of ready tasks.
    pub fn size(&self) -> (r: i32)
        ensures
            r == self.ready().len() as i32,
    {
        self.ready_tasks.len() as i32
    }
}

/// Queues `pid` to run, unless scheduling requests are pending: then the
/// manager decides what runs next.
pub fn push(manager: &mut TaskManager, pid: usize)
    ensures
        old(manager).requests().len() == 0 ==> final(manager).ready() == old(manager).ready().push(pid),
        old(manager).requests().len() > 0 ==> final(manager).ready() == old(manager).ready(),
        final(manager).registered() == old(manager).registered(),
        final(manager).requests() == old(manager).requests(),
{
    if !manager.server() {
        manager.push(pid);
    }
}

/// A pending request naming the init task (0) or the manager task (1)
/// resumes exactly that task, whichever forked tasks are registered; one
/// naming another pid resumes it only if it is registered. So the task that
/// asked the manager something runs again after the manager answered.
pub proof fn lemma_requests_resume_their_task(m: TaskManager)
    requires
        m.requests().len() > 0,
    ensures
        m.requests()[0] == 0 ==> m.front_choice() == Some(0usize),
        m.requests()[0] == 1 ==> m.front_choice() == Some(1usize),
        m.requests()[0] > 1 ==> (m.front_choice() is Some <==> m.registered().contains(
            m.requests()[0] as usize,
        )),
        m.front_choice() is Some && m.requests()[0] >= 0 ==> m.front_choice()->0 == m.requests()[0],
{
}

} // verus!
