//! A process as the manager records it.
use vstd::prelude::*;

verus! {

/// The state of a process: whether it exited, its parent, its children in
/// order of creation, and its exit code.
pub struct ProcessInner {
    pub done: bool,
    pub parent: Option<usize>,
    pub children: Vec<usize>,
    pub exit_code: isize,
}

pub struct Process {
    pub pid: usize,
    pub inner: ProcessInner,
}

impl Process {
    /// A running process with no parent and no children.
    pub fn new(pid: usize) -> (p: Self)
        ensures
            p.pid == pid,
            !p.inner.done,
            p.inner.parent is None,
            p.inner.children@ == Seq::<usize>::empty(),
            p.inner.exit_code == 0,
    {
        Process {
            pid,
            inner: ProcessInner { done: false, parent: None, children: Vec::new(), exit_code: 0 },
        }
    }
}

} // verus!
