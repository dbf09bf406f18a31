//! The manager's table of processes and its answers to the kernel's fork,
//! exit and waitpid requests.
use vstd::prelude::*;

verus! {

use std::collections::{BTreeMap, BTreeSet};
use super::process::{Process, ProcessInner};
use crate::kernel::syscall::{SYSCALL_EXIT, SYSCALL_FORK, SYSCALL_WAITPID};

broadcast use vstd::laws_cmp::group_laws_cmp;

/// Pid of the init process, which adopts orphans.
pub const INIT_PID: usize = 0;

/// Pid of the manager process.
pub const MANAGER_PID: usize = 1;

/// A process record as plain values.
pub struct ProcView {
    pub done: bool,
    pub parent: Option<usize>,
    pub children: Seq<usize>,
    pub exit_code: isize,
}

pub open spec fn view_of(p: ProcessInner) -> ProcView {
    ProcView { done: p.done, parent: p.parent, children: p.children@, exit_code: p.exit_code }
}

/// Whether `c` is what a waitpid for `target` (`-1` for any) looks for.
pub open spec fn wanted(target: usize, c: usize) -> bool {
    target as isize == -1 || target == c
}

/// Whether some child in `children` is what a waitpid for `target` looks for.
pub open spec fn has_wanted(children: Seq<usize>, target: usize) -> bool {
    exists|i: int| 0 <= i < children.len() && #[trigger] wanted(target, children[i])
}

/// The first position of `children` holding an exited child that is
/// wanted, or -1.
pub open spec fn first_exited(
    children: Seq<usize>,
    table: Map<usize, ProcView>,
    target: usize,
    i: int,
) -> int
    decreases children.len() - i,
{
    if i < 0 || i >= children.len() {
        -1
    } else if table[children[i]].done && wanted(target, children[i]) {
        i
    } else {
        first_exited(children, table, target, i + 1)
    }
}

proof fn lemma_first_exited(children: Seq<usize>, table: Map<usize, ProcView>, target: usize, i: int)
    requires
        0 <= i,
    ensures
        ({
            let r = first_exited(children, table, target, i);
            r == -1 || (i <= r < children.len() && table[children[r]].done && wanted(target, children[r]))
        }),
    decreases children.len() - i,
{
    if i < children.len() && !(table[children[i]].done && wanted(target, children[i])) {
        lemma_first_exited(children, table, target, i + 1);
    }
}

/// Registered processes and the records of every process still referenced
/// (a process stays recorded after it exits until its parent waits for it).
pub struct ProcessManager {
    processes: BTreeSet<usize>,
    records: BTreeMap<usize, ProcessInner>,
}

impl ProcessManager {
    /// Registered processes.
    pub closed spec fn live(&self) -> Set<usize> {
        self.processes@
    }

    /// Recorded processes.
    pub closed spec fn table(&self) -> Map<usize, ProcView> {
        self.records@.map_values(|p: ProcessInner| view_of(p))
    }

    /// The family tree is consistent: registered processes are recorded and
    /// running, every child is recorded once and points back to its parent,
    /// exited processes have no children, and init has no parent.
    pub open spec fn wf(&self) -> bool {
        &&& self.live().subset_of(self.table().dom())
        &&& forall|p: usize| #[trigger] self.live().contains(p) ==> !self.table()[p].done
        &&& forall|p: usize, i: int|
            #![trigger self.table()[p].children[i]]
            self.table().contains_key(p) && 0 <= i < self.table()[p].children.len() ==> {
                let c = self.table()[p].children[i];
                &&& self.table().contains_key(c)
                &&& self.table()[c].parent == Some(p)
                &&& c != p
            }
        &&& forall|p: usize| #[trigger] self.table().contains_key(p) ==> self.table()[p].children.no_duplicates()
        &&& forall|p: usize| #[trigger] self.table().contains_key(p) && self.table()[p].done ==> self.table()[p].children.len() == 0
        &&& self.table().contains_key(INIT_PID) ==> self.table()[INIT_PID].parent is None
            && !self.table()[INIT_PID].done
    }

    pub fn new() -> (s: Self)
        ensures
            s.live() == Set::<usize>::empty(),
            s.table() == Map::<usize, ProcView>::empty(),
            s.wf(),
    {
        let s = ProcessManager { processes: BTreeSet::new(), records: BTreeMap::new() };
        proof {
            assert(s.table() =~= Map::<usize, ProcView>::empty());
        }
        s
    }

    /// Registers `process` and records its state.
    pub fn insert(&mut self, process: Process)
        ensures
            final(self).live() == old(self).live().insert(process.pid),
            final(self).table() == old(self).table().insert(process.pid, view_of(process.inner)),
    {
        let pid = process.pid;
        self.processes.insert(pid);
        self.records.insert(pid, process.inner);
        proof {
            assert(final(self).table() =~= old(self).table().insert(pid, view_of(process.inner)));
        }
    }

    /// Unregisters `pid`; its record stays while its parent refers to it.
    pub fn remove(&mut self, pid: usize)
        ensures
            final(self).live() == old(self).live().remove(pid),
            final(self).table() == old(self).table(),
    {
        self.processes.remove(&pid);
    }

    pub fn find(&self, pid: usize) -> (r: Option<usize>)
        ensures
            r == (if self.live().contains(pid) {
                Some(pid)
            } else {
                None
            }),
    {
        if self.processes.contains(&pid) {
            Some(pid)
        } else {
            None
        }
    }

    /// Whether the table holds a record for `pid`, live or exited.
    pub fn recorded(&self, pid: usize) -> (r: bool)
        ensures
            r == self.table().contains_key(pid),
    {
        self.records.contains_key(&pid)
    }

    /// Number of registered processes.
    pub fn size(&self) -> (r: i32)
        ensures
            r == self.live().len() as i32,
    {
        self.processes.len() as i32
    }

    /// Takes the record of `pid` out of the table.
    fn take(&mut self, pid: usize) -> (r: ProcessInner)
        requires
            old(self).table().contains_key(pid),
        ensures
            view_of(r) == old(self).table()[pid],
            final(self).table() == old(self).table().remove(pid),
            final(self).live() == old(self).live(),
    {
        let r = self.records.remove(&pid).unwrap();
        proof {
            assert(final(self).table() =~= old(self).table().remove(pid));
        }
        r
    }

    /// Puts a record for `pid` into the table.
    fn put(&mut self, pid: usize, rec: ProcessInner)
        ensures
            final(self).table() == old(self).table().insert(pid, view_of(rec)),
            final(self).live() == old(self).live(),
    {
        self.records.insert(pid, rec);
        proof {
            assert(final(self).table() =~= old(self).table().insert(pid, view_of(rec)));
        }
    }

    /// Answers a fork of `parent_pid`: the child `child_pid` is registered,
    /// points to its parent and ends the parent's children.
    pub fn handle_fork(&mut self, parent_pid: usize, child_pid: usize) -> (r: [usize; 1])
        requires
            old(self).wf(),
            old(self).live().contains(parent_pid),
            old(self).table().contains_key(INIT_PID),
            !old(self).table().contains_key(child_pid),
        ensures
            final(self).wf(),
            r@ == seq![child_pid],
            final(self).live() == old(self).live().insert(child_pid),
            final(self).table() == old(self).table().insert(
                child_pid,
                ProcView { done: false, parent: Some(parent_pid), children: Seq::empty(), exit_code: 0 },
            ).insert(
                parent_pid,
                ProcView {
                    children: old(self).table()[parent_pid].children.push(child_pid),
                    ..old(self).table()[parent_pid]
                },
            ),
    {
        let mut child = Process::new(child_pid);
        child.inner.parent = Some(parent_pid);
        self.insert(child);
        let mut parent = self.take(parent_pid);
        parent.children.push(child_pid);
        self.put(parent_pid, parent);
        proof {
            let t0 = old(self).table();
            let t = final(self).table();
            assert(t =~= t0.insert(
                child_pid,
                ProcView { done: false, parent: Some(parent_pid), children: Seq::empty(), exit_code: 0 },
            ).insert(
                parent_pid,
                ProcView { children: t0[parent_pid].children.push(child_pid), ..t0[parent_pid] },
            ));
            assert forall|q: usize, i: int|
                #![trigger t[q].children[i]]
                t.contains_key(q) && 0 <= i < t[q].children.len() implies {
                    let c = t[q].children[i];
                    &&& t.contains_key(c)
                    &&& t[c].parent == Some(q)
                    &&& c != q
                } by {
                if q == parent_pid {
                    if i < t0[q].children.len() {
                        assert(t[q].children[i] == t0[q].children[i]);
                    }
                } else if q != child_pid {
                    assert(t[q] == t0[q]);
                    assert(t0[q].children[i] != child_pid);
                    assert(t0[q].children[i] != parent_pid || t0[parent_pid].parent == Some(q));
                }
            }
            assert forall|q: usize| #[trigger] t.contains_key(q) implies t[q].children.no_duplicates() by {
                if q == parent_pid {
                    assert forall|i: int, j: int| 0 <= i < j < t[q].children.len() implies t[q].children[i] != t[q].children[j] by {
                        if j == t0[q].children.len() {
                            assert(t0.contains_key(t0[q].children[i]));
                        } else {
                            assert(t0[q].children.no_duplicates());
                        }
                    }
                } else if q != child_pid {
                    assert(t[q] == t0[q]);
                }
            }
            assert forall|q: usize| #[trigger] final(self).live().contains(q) implies !t[q].done by {
                if q != child_pid && q != parent_pid {
                    assert(old(self).live().contains(q));
                }
            }
            assert(final(self).live().subset_of(t.dom()));
            assert forall|q: usize| #[trigger] t.contains_key(q) && t[q].done implies t[q].children.len() == 0 by {
                if q != child_pid && q != parent_pid {
                    assert(t[q] == t0[q]);
                }
            }
        }
        [child_pid]
    }

    /// Answers the exit of `pid` with `exit_code`: it is unregistered and
    /// marked exited, and init adopts its children in order.
    pub fn handle_exit(&mut self, pid: usize, exit_code: isize)
        requires
            old(self).wf(),
            old(self).live().contains(pid),
            pid != INIT_PID,
            old(self).table().contains_key(INIT_PID),
        ensures
            final(self).wf(),
            final(self).live() == old(self).live().remove(pid),
            ({
                let t0 = old(self).table();
                let t = final(self).table();
                let kids = t0[pid].children;
                &&& t.dom() == t0.dom()
                &&& t[pid] == (ProcView { done: true, children: Seq::empty(), exit_code, ..t0[pid] })
                &&& t[INIT_PID] == (ProcView { children: t0[INIT_PID].children + kids, ..t0[INIT_PID] })
                &&& forall|c: usize| #[trigger] kids.contains(c) ==> t[c] == (ProcView {
                    parent: Some(INIT_PID),
                    ..t0[c]
                })
                &&& forall|q: usize|
                    #[trigger] t0.contains_key(q) && q != pid && q != INIT_PID && !kids.contains(q)
                        ==> t[q] == t0[q]
            }),
    {
        let ghost t0 = self.table();
        let ghost kids = t0[pid].children;
        let mut rec = self.take(pid);
        rec.exit_code = exit_code;
        rec.done = true;
        proof {
            assert forall|c: usize| #[trigger] kids.contains(c) implies t0.contains_key(c) && t0[c].parent == Some(pid) && c != pid && c != INIT_PID by {
                let i = choose|i: int| 0 <= i < kids.len() && kids[i] == c;
                assert(t0[pid].children[i] == c);
            }
        }
        let mut k: usize = 0;
        while k < rec.children.len()
            invariant
                old(self).wf(),
                t0 == old(self).table(),
                kids == t0[pid].children,
                rec.children@ == kids,
                pid != INIT_PID,
                t0.contains_key(INIT_PID),
                t0.contains_key(pid),
                k <= kids.len(),
                self.live() == old(self).live(),
                forall|c: usize| #[trigger] kids.contains(c) ==> t0.contains_key(c) && t0[c].parent == Some(pid) && c != pid && c != INIT_PID,
                self.table().dom() == t0.dom().remove(pid),
                self.table()[INIT_PID] == (ProcView {
                    children: t0[INIT_PID].children + kids.subrange(0, k as int),
                    ..t0[INIT_PID]
                }),
                forall|j: int| 0 <= j < k ==> #[trigger] self.table()[kids[j]] == (ProcView {
                    parent: Some(INIT_PID),
                    ..t0[kids[j]]
                }),
                forall|q: usize|
                    #[trigger] t0.contains_key(q) && q != pid && q != INIT_PID && !kids.subrange(0, k as int).contains(q)
                        ==> self.table()[q] == t0[q],
            decreases kids.len() - k,
        {
            let c = rec.children[k];
            let ghost prev = self.table();
            proof {
                assert(kids.contains(c));
                assert(!kids.subrange(0, k as int).contains(c)) by {
                    if kids.subrange(0, k as int).contains(c) {
                        let j = choose|j: int| 0 <= j < k && kids.subrange(0, k as int)[j] == c;
                        assert(kids[j] == kids[k as int]);
                        assert(t0[pid].children.no_duplicates());
                    }
                }
            }
            let mut cr = self.take(c);
            cr.parent = Some(INIT_PID);
            self.put(c, cr);
            let mut ir = self.take(INIT_PID);
            ir.children.push(c);
            self.put(INIT_PID, ir);
            k = k + 1;
            proof {
                assert(kids.subrange(0, k as int) =~= kids.subrange(0, (k - 1) as int).push(c));
                assert(t0[INIT_PID].children + kids.subrange(0, k as int) =~= (t0[INIT_PID].children
                    + kids.subrange(0, (k - 1) as int)).push(c));
                assert forall|j: int| 0 <= j < k implies #[trigger] self.table()[kids[j]] == (ProcView {
                    parent: Some(INIT_PID),
                    ..t0[kids[j]]
                }) by {
                    assert(kids.contains(kids[j]));
                }
                assert(self.table().dom() =~= t0.dom().remove(pid));
                assert forall|q: usize|
                    #[trigger] t0.contains_key(q) && q != pid && q != INIT_PID && !kids.subrange(0, k as int).contains(q)
                    implies self.table()[q] == t0[q] by {
                    assert(kids.subrange(0, k as int)[k - 1] == c);
                    if kids.subrange(0, (k - 1) as int).contains(q) {
                        let j = choose|j: int| 0 <= j < k - 1 && #[trigger] kids.subrange(0, (k - 1) as int)[j] == q;
                        assert(kids.subrange(0, k as int)[j] == q);
                    }
                    assert(self.table()[q] == prev[q]);
                }
            }
        }
        rec.children = Vec::new();
        self.put(pid, rec);
        self.remove(pid);
        proof {
            let t = self.table();
            assert(kids.subrange(0, kids.len() as int) =~= kids);
            assert(t.dom() =~= t0.dom());
            assert forall|c: usize| #[trigger] kids.contains(c) implies t[c] == (ProcView {
                parent: Some(INIT_PID),
                ..t0[c]
            }) by {
                let j = choose|j: int| 0 <= j < kids.len() && kids[j] == c;
                assert(self.table()[kids[j]] == (ProcView { parent: Some(INIT_PID), ..t0[kids[j]] }));
            }
            // the family tree stays consistent
            assert forall|q: usize, i: int|
                #![trigger t[q].children[i]]
                t.contains_key(q) && 0 <= i < t[q].children.len() implies {
                    let c = t[q].children[i];
                    &&& t.contains_key(c)
                    &&& t[c].parent == Some(q)
                    &&& c != q
                } by {
                if q == INIT_PID {
                    let n0 = t0[INIT_PID].children.len();
                    if i < n0 {
                        let c = t0[INIT_PID].children[i];
                        assert(t[q].children[i] == c);
                        assert(t0.contains_key(c) && t0[c].parent == Some(INIT_PID));
                        if kids.contains(c) {
                            assert(false);
                        }
                    } else {
                        let c = kids[i - n0];
                        assert(t[q].children[i] == c);
                        assert(kids.contains(c));
                    }
                } else if kids.contains(q) {
                    let c = t0[q].children[i];
                    assert(t[q].children == t0[q].children);
                    assert(t0.contains_key(c) && t0[c].parent == Some(q));
                    if kids.contains(c) {
                        assert(t0[c].parent == Some(pid));
                    }
                } else if q != pid {
                    assert(t[q] == t0[q]);
                    let c = t0[q].children[i];
                    assert(t0.contains_key(c) && t0[c].parent == Some(q));
                    if kids.contains(c) {
                        assert(t0[c].parent == Some(pid));
                    }
                }
            }
            assert forall|q: usize| #[trigger] t.contains_key(q) implies t[q].children.no_duplicates() by {
                if q == INIT_PID {
                    let a = t0[INIT_PID].children;
                    let n0 = a.len();
                    assert forall|i: int, j: int| 0 <= i < j < t[q].children.len() implies t[q].children[i] != t[q].children[j] by {
                        if j < n0 {
                            assert(t0[INIT_PID].children.no_duplicates());
                        } else if i >= n0 {
                            assert(t0[pid].children.no_duplicates());
                        } else {
                            let x = a[i];
                            assert(t0[INIT_PID].children[i] == x);
                            assert(t0[x].parent == Some(INIT_PID));
                            assert(kids.contains(kids[j - n0]));
                        }
                    }
                } else if kids.contains(q) {
                    assert(t[q].children == t0[q].children);
                } else if q != pid {
                    assert(t[q] == t0[q]);
                }
            }
            assert forall|q: usize| #[trigger] t.contains_key(q) && t[q].done implies t[q].children.len() == 0 by {
                if q != pid && q != INIT_PID && !kids.contains(q) {
                    assert(t[q] == t0[q]);
                }
            }
            assert forall|q: usize| #[trigger] self.live().contains(q) implies !t[q].done by {
                assert(old(self).live().contains(q));
                if q != INIT_PID && !kids.contains(q) {
                    assert(t[q] == t0[q]);
                }
            }
        }
    }

    /// Answers a waitpid of `pid` for the child `target` (`-1` as `usize`
    /// for any child): `[0, 0, 0]` when no such child exists, `[1, -1, 0]`
    /// when none of them has exited, otherwise `[1, child, exit code]` for
    /// the first exited one, which is then forgotten.
    pub fn handle_waitpid(&mut self, pid: usize, target: usize) -> (r: [usize; 3])
        requires
            old(self).wf(),
            old(self).live().contains(pid),
        ensures
            final(self).wf(),
            final(self).live() == old(self).live(),
            ({
                let t0 = old(self).table();
                let t = final(self).table();
                let kids = t0[pid].children;
                let i = first_exited(kids, t0, target, 0);
                &&& !has_wanted(kids, target) ==> r@ == seq![0usize, 0usize, 0usize] && t == t0
                &&& has_wanted(kids, target) && i < 0 ==> r@ == seq![1usize, (-1isize) as usize, 0usize]
                    && t == t0
                &&& has_wanted(kids, target) && i >= 0 ==> {
                    let c = kids[i];
                    &&& r@ == seq![1usize, c, t0[c].exit_code as usize]
                    &&& t == t0.remove(c).insert(pid, (ProcView { children: kids.remove(i), ..t0[pid] }))
                    &&& t0[c].done
                    &&& wanted(target, c)
                }
            }),
    {
        let ghost t0 = self.table();
        let ghost kids = t0[pid].children;
        let rec = self.records.get(&pid).unwrap();
        let n = rec.children.len();
        let mut exist = false;
        let mut i: usize = 0;
        while i < n
            invariant_except_break
                forall|j: int| 0 <= j < i ==> !#[trigger] wanted(target, kids[j]),
                !exist,
            invariant
                i <= n,
                n == kids.len(),
                rec.children@ == kids,
            ensures
                exist == has_wanted(kids, target),
            decreases n - i,
        {
            if target as isize == -1 || target == rec.children[i] {
                exist = true;
                proof {
                    assert(wanted(target, kids[i as int]));
                }
                break;
            }
            i = i + 1;
        }
        if !exist {
            return [0, 0, 0];
        }
        let mut found = false;
        let mut idx: usize = 0;
        while idx < n
            invariant_except_break
                first_exited(kids, t0, target, 0) == first_exited(kids, t0, target, idx as int),
                !found,
            invariant
                idx <= n,
                n == kids.len(),
                rec.children@ == kids,
                self.table() == t0,
                old(self).wf(),
                t0 == old(self).table(),
                t0.contains_key(pid),
                kids == t0[pid].children,
            ensures
                found ==> idx < n && first_exited(kids, t0, target, 0) == idx,
                !found ==> first_exited(kids, t0, target, 0) == -1,
            decreases n - idx,
        {
            let c = rec.children[idx];
            proof {
                assert(t0[pid].children[idx as int] == c);
            }
            let cr = self.records.get(&c).unwrap();
            if cr.done && (target as isize == -1 || target == c) {
                found = true;
                break;
            }
            idx = idx + 1;
        }
        if !found {
            return [1, (-1isize) as usize, 0];
        }
        proof {
            lemma_first_exited(kids, t0, target, 0);
        }
        let mut prec = self.take(pid);
        let c = prec.children.remove(idx);
        self.put(pid, prec);
        proof {
            assert(t0[pid].children[idx as int] == c);
        }
        let crec = self.take(c);
        let exit_code = crec.exit_code;
        proof {
            let t = self.table();
            assert(t =~= t0.remove(c).insert(pid, (ProcView { children: kids.remove(idx as int), ..t0[pid] })));
            assert forall|q: usize| #[trigger] t0.contains_key(q) && q != c implies !t0[q].children.contains(c) || q == pid by {
                if t0[q].children.contains(c) {
                    let j = choose|j: int| 0 <= j < t0[q].children.len() && t0[q].children[j] == c;
                    assert(t0[q].children[j] == c);
                }
            }
            assert forall|q: usize, j: int|
                #![trigger t[q].children[j]]
                t.contains_key(q) && 0 <= j < t[q].children.len() implies {
                    let x = t[q].children[j];
                    &&& t.contains_key(x)
                    &&& t[x].parent == Some(q)
                    &&& x != q
                } by {
                if q == pid {
                    let jj = if j < idx { j } else { j + 1 };
                    assert(t[q].children[j] == t0[q].children[jj]);
                    assert(t0[pid].children.no_duplicates());
                } else {
                    assert(t[q] == t0[q]);
                    assert(t0[q].children[j] != c) by {
                        if t0[q].children[j] == c {
                            assert(t0[q].children.contains(c));
                        }
                    }
                }
            }
            assert forall|q: usize| #[trigger] t.contains_key(q) implies t[q].children.no_duplicates() by {
                if q == pid {
                    assert(t0[pid].children.no_duplicates());
                    assert forall|a: int, b: int| 0 <= a < b < t[q].children.len() implies t[q].children[a] != t[q].children[b] by {
                        let aa = if a < idx { a } else { a + 1 };
                        let bb = if b < idx { b } else { b + 1 };
                        assert(t[q].children[a] == t0[q].children[aa]);
                        assert(t[q].children[b] == t0[q].children[bb]);
                    }
                } else {
                    assert(t[q] == t0[q]);
                }
            }
            assert forall|q: usize| #[trigger] self.live().contains(q) implies !t[q].done by {
                assert(old(self).live().contains(q));
            }
            assert(self.live().subset_of(t.dom())) by {
                assert forall|q: usize| self.live().contains(q) implies t.dom().contains(q) by {
                    assert(old(self).live().contains(q));
                }
            }
        }
        [1, c, exit_code as usize]
    }
}

/// A process that waits for one of its children by pid, after that child
/// exited, is answered with that child: the child is found and is the first
/// exited child the wait looks for.
pub proof fn lemma_wait_finds_exited_child(t: Map<usize, ProcView>, p: usize, x: usize)
    requires
        t.contains_key(p),
        t[p].children.contains(x),
        t[p].children.no_duplicates(),
        t.contains_key(x),
        t[x].done,
        x as isize != -1,
    ensures
        has_wanted(t[p].children, x),
        first_exited(t[p].children, t, x, 0) >= 0,
        t[p].children[first_exited(t[p].children, t, x, 0)] == x,
{
    let kids = t[p].children;
    let k = choose|k: int| 0 <= k < kids.len() && kids[k] == x;
    assert(wanted(x, kids[k]));
    lemma_first_exited_reaches(kids, t, x, 0, k);
    lemma_first_exited(kids, t, x, 0);
}

proof fn lemma_first_exited_reaches(children: Seq<usize>, table: Map<usize, ProcView>, target: usize, i: int, k: int)
    requires
        0 <= i <= k < children.len(),
        table[children[k]].done,
        wanted(target, children[k]),
    ensures
        first_exited(children, table, target, i) >= 0,
    decreases k - i,
{
    if !(table[children[i]].done && wanted(target, children[i])) {
        lemma_first_exited_reaches(children, table, target, i + 1, k);
    }
}

/// A request of the kernel to the manager.
#[derive(Clone, Copy, Debug, PartialEq, Eq, Structural)]
pub enum Request {
    /// `parent` forks: answer with a new pid.
    Fork { parent: usize },
    /// `pid` exited with `exit_code`.
    Exit { pid: usize, exit_code: isize },
    /// `pid` waits for its child `target` (`-1` as `usize` for any).
    Waitpid { pid: usize, target: usize },
    /// Nothing the manager answers.
    Other,
}

/// The request in the words `data` read from the shared buffer: a system
/// call number and its arguments.
pub fn decode_request(data: [usize; 3]) -> (r: Request)
    ensures
        data@[0] == SYSCALL_FORK ==> r == (Request::Fork { parent: data@[1] }),
        data@[0] == SYSCALL_EXIT ==> r == (Request::Exit { pid: data@[1], exit_code: data@[2] as isize }),
        data@[0] == SYSCALL_WAITPID ==> r == (Request::Waitpid { pid: data@[1], target: data@[2] }),
        data@[0] != SYSCALL_FORK && data@[0] != SYSCALL_EXIT && data@[0] != SYSCALL_WAITPID ==> r
            == Request::Other,
{
    if data[0] == SYSCALL_FORK {
        Request::Fork { parent: data[1] }
    } else if data[0] == SYSCALL_EXIT {
        Request::Exit { pid: data[1], exit_code: data[2] as isize }
    } else if data[0] == SYSCALL_WAITPID {
        Request::Waitpid { pid: data[1], target: data[2] }
    } else {
        Request::Other
    }
}

/// Records init and the manager: the manager is init's first child.
pub fn init_processes(pm: &mut ProcessManager)
    ensures
        final(pm).live() == old(pm).live().insert(INIT_PID).insert(MANAGER_PID),
        final(pm).table() == old(pm).table().insert(
            INIT_PID,
            ProcView { done: false, parent: None, children: seq![MANAGER_PID], exit_code: 0 },
        ).insert(
            MANAGER_PID,
            ProcView { done: false, parent: Some(INIT_PID), children: Seq::empty(), exit_code: 0 },
        ),
        old(pm).table() == Map::<usize, ProcView>::empty() && old(pm).live() == Set::<usize>::empty()
            ==> final(pm).wf(),
{
    let mut init = Process::new(INIT_PID);
    let mut manager = Process::new(MANAGER_PID);
    manager.inner.parent = Some(INIT_PID);
    init.inner.children.push(MANAGER_PID);
    pm.insert(init);
    pm.insert(manager);
    proof {
        let t = final(pm).table();
        assert(t[INIT_PID].children =~= seq![MANAGER_PID]);
        if old(pm).table() == Map::<usize, ProcView>::empty() && old(pm).live() == Set::<usize>::empty() {
            assert(t.dom() =~= set![INIT_PID, MANAGER_PID]);
            assert forall|q: usize, i: int|
                #![trigger t[q].children[i]]
                t.contains_key(q) && 0 <= i < t[q].children.len() implies {
                    let c = t[q].children[i];
                    &&& t.contains_key(c)
                    &&& t[c].parent == Some(q)
                    &&& c != q
                } by {
                assert(q == INIT_PID);
                assert(i == 0);
            }
        }
    }
}

} // verus!
