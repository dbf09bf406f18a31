//! Process identifiers: fresh ones counted up, returned ones reused last-in first-out.
use vstd::prelude::*;

verus! {

/// A process identifier.
#[derive(Clone, Copy, Debug, PartialEq, Eq, Structural)]
pub struct Pid(pub usize);

pub struct PidAllocator {
    cur: usize,
    recycled: Vec<usize>,
}

impl PidAllocator {
    /// Identifiers below this one have been handed out at least once.
    pub closed spec fn next_fresh(&self) -> int {
        self.cur as int
    }

    /// Returned identifiers, the most recent last.
    pub closed spec fn returned(&self) -> Seq<usize> {
        self.recycled@
    }

    /// Identifiers currently held by processes.
    pub open spec fn in_use(&self) -> Set<usize> {
        Set::new(|p: usize| p < self.next_fresh() && !self.returned().contains(p))
    }

    /// Every returned identifier was handed out and is returned once.
    pub open spec fn wf(&self) -> bool {
        &&& forall|i: int| 0 <= i < self.returned().len() ==> #[trigger] self.returned()[i] < self.next_fresh()
        &&& self.returned().no_duplicates()
    }

    pub fn new() -> (s: Self)
        ensures
            s.next_fresh() == 0,
            s.returned() == Seq::<usize>::empty(),
            s.wf(),
    {
        PidAllocator { cur: 0, recycled: Vec::new() }
    }

    /// Reuses the most recently returned identifier, or hands out the next fresh one.
    pub fn allocate(&mut self) -> (pid: Pid)
        requires
            old(self).returned().len() == 0 ==> old(self).next_fresh() < usize::MAX,
        ensures
            old(self).returned().len() > 0 ==> pid.0 == old(self).returned().last()
                && final(self).returned() == old(self).returned().drop_last()
                && final(self).next_fresh() == old(self).next_fresh(),
            old(self).returned().len() == 0 ==> pid.0 == old(self).next_fresh()
                && final(self).returned() == old(self).returned()
                && final(self).next_fresh() == old(self).next_fresh() + 1,
            old(self).wf() ==> final(self).wf() && !old(self).in_use().contains(pid.0)
                && final(self).in_use() == old(self).in_use().insert(pid.0),
    {
        match self.recycled.pop() {
            Some(pid) => {
                proof {
                    if old(self).wf() {
                        assert(old(self).returned() == self.recycled@.push(pid));
                        assert(!self.recycled@.contains(pid)) by {
                            if self.recycled@.contains(pid) {
                                let k = choose|k: int| 0 <= k < self.recycled@.len() && self.recycled@[k] == pid;
                                assert(old(self).returned()[k] == old(self).returned()[self.recycled@.len() as int]);
                            }
                        }
                        assert(final(self).in_use() =~= old(self).in_use().insert(pid)) by {
                            assert forall|p: usize| old(self).returned().contains(p) <==> (self.recycled@.contains(p) || p == pid) by {
                                if old(self).returned().contains(p) {
                                    let k = choose|k: int| 0 <= k < old(self).returned().len() && old(self).returned()[k] == p;
                                    if k < self.recycled@.len() {
                                        assert(self.recycled@[k] == p);
                                    }
                                }
                                if self.recycled@.contains(p) {
                                    let k = choose|k: int| 0 <= k < self.recycled@.len() && self.recycled@[k] == p;
                                    assert(old(self).returned()[k] == p);
                                }
                                if p == pid {
                                    assert(old(self).returned()[self.recycled@.len() as int] == p);
                                }
                            }
                        }
                        assert(old(self).returned()[self.recycled@.len() as int] == pid);
                    }
                }
                Pid(pid)
            },
            None => {
                self.cur = self.cur + 1;
                proof {
                    assert(final(self).in_use() =~= old(self).in_use().insert(old(self).cur));
                }
                Pid(self.cur - 1)
            },
        }
    }

    /// Returns `pid` for reuse.
    pub fn dealloc(&mut self, pid: &Pid)
        ensures
            final(self).returned() == old(self).returned().push(pid.0),
            final(self).next_fresh() == old(self).next_fresh(),
            old(self).wf() && old(self).in_use().contains(pid.0) ==> final(self).wf()
                && final(self).in_use() == old(self).in_use().remove(pid.0),
    {
        self.recycled.push(pid.0);
        proof {
            if old(self).wf() && old(self).in_use().contains(pid.0) {
                assert forall|p: usize| #[trigger] final(self).returned().contains(p) <==> (old(self).returned().contains(p) || p == pid.0) by {
                    if final(self).returned().contains(p) {
                        let k = choose|k: int| 0 <= k < final(self).returned().len() && final(self).returned()[k] == p;
                        if k < old(self).returned().len() {
                            assert(old(self).returned()[k] == p);
                        }
                    }
                    if old(self).returned().contains(p) {
                        let k = choose|k: int| 0 <= k < old(self).returned().len() && old(self).returned()[k] == p;
                        assert(final(self).returned()[k] == p);
                    }
                    if p == pid.0 {
                        assert(final(self).returned()[old(self).returned().len() as int] == p);
                    }
                }
                assert(final(self).in_use() =~= old(self).in_use().remove(pid.0));
                assert(final(self).returned().no_duplicates()) by {
                    assert forall|i: int, j: int| 0 <= i < j < final(self).returned().len() implies final(self).returned()[i] != final(self).returned()[j] by {
                        if j == old(self).returned().len() {
                            assert(old(self).returned()[i] == final(self).returned()[i]);
                            assert(!old(self).returned().contains(pid.0));
                        } else {
                            assert(old(self).returned()[i] == final(self).returned()[i]);
                            assert(old(self).returned()[j] == final(self).returned()[j]);
                        }
                    }
                }
            }
        }
    }
}

} // verus!
