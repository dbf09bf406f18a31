//! Physical frames: handed out upward from a range, returned ones reused first.
use vstd::prelude::*;

verus! {

use super::address::PhysPageNum;
use super::memory::PhysMemory;

/// Hands out the frames `[cur, end)` one by one and reuses returned frames
/// last-in first-out; `start` is where the range began.
pub struct StackFrameAllocator {
    cur: usize,
    end: usize,
    recycled: Vec<usize>,
    start: Ghost<usize>,
}

/// A frame in use, with the frame of the page table directory that points
/// to it and the number of valid entries it holds.
pub struct FrameTracker {
    pub ppn: PhysPageNum,
    pub fa: PhysPageNum,
    pub used: usize,
}

impl FrameTracker {
    /// Tracks `ppn` and clears the frame.
    pub fn new(ppn: PhysPageNum, mem: &mut PhysMemory) -> (r: Self)
        requires
            old(mem).wf(),
            old(mem).has(ppn.0 as int),
        ensures
            r.ppn == ppn,
            r.fa == PhysPageNum(0),
            r.used == 0,
            final(mem).wf(),
            final(mem).first() == old(mem).first(),
            final(mem).count() == old(mem).count(),
            forall|q: int, j: int|
                old(mem).has(q) && 0 <= j < 512 ==> #[trigger] final(mem).entry(q, j) == if q
                    == ppn.0 {
                    0
                } else {
                    old(mem).entry(q, j)
                },
    {
        mem.clear(ppn);
        FrameTracker { ppn, fa: PhysPageNum(0), used: 0 }
    }
}

/// Every frame the allocator may still hand out lies in `mem`.
pub open spec fn frames_within(fa: StackFrameAllocator, mem: PhysMemory) -> bool {
    &&& fa.wf()
    &&& fa.next_fresh() <= fa.limit()
    &&& mem.first() <= fa.next_fresh()
    &&& fa.limit() <= mem.first() + mem.count()
    &&& forall|i: int| 0 <= i < fa.returned().len() ==> mem.has(#[trigger] fa.returned()[i] as int)
}

/// How many frames the allocator can still hand out.
pub open spec fn free_frames(fa: StackFrameAllocator) -> int {
    fa.returned().len() + (fa.limit() - fa.next_fresh())
}

/// Takes a frame from the allocator and clears it; `None` when none is left.
pub fn frame_alloc(fa: &mut StackFrameAllocator, mem: &mut PhysMemory) -> (r: Option<FrameTracker>)
    requires
        frames_within(*old(fa), *old(mem)),
        old(mem).wf(),
    ensures
        frames_within(*final(fa), *final(mem)),
        final(mem).wf(),
        final(mem).first() == old(mem).first(),
        final(mem).count() == old(mem).count(),
        free_frames(*old(fa)) == 0 <==> r is None,
        match r {
            Some(t) => {
                &&& t.fa == PhysPageNum(0)
                &&& t.used == 0
                &&& !old(fa).in_use().contains(t.ppn.0)
                &&& final(fa).in_use() == old(fa).in_use().insert(t.ppn.0)
                &&& free_frames(*final(fa)) == free_frames(*old(fa)) - 1
                &&& old(mem).has(t.ppn.0 as int)
                &&& forall|q: int, j: int|
                    old(mem).has(q) && 0 <= j < 512 ==> #[trigger] final(mem).entry(q, j) == if q
                        == t.ppn.0 {
                        0
                    } else {
                        old(mem).entry(q, j)
                    }
            },
            None => {
                &&& final(fa).returned() == old(fa).returned()
                &&& final(fa).next_fresh() == old(fa).next_fresh()
                &&& final(fa).limit() == old(fa).limit()
                &&& *final(mem) == *old(mem)
            },
        },
{
    match fa.allocate() {
        Some(ppn) => {
            proof {
                if old(fa).returned().len() > 0 {
                    let k = old(fa).returned().len() - 1;
                    assert(old(fa).returned()[k] == ppn.0);
                    assert forall|i: int| 0 <= i < fa.returned().len() implies mem.has(#[trigger] fa.returned()[i] as int) by {
                        assert(fa.returned()[i] == old(fa).returned()[i]);
                    }
                }
            }
            let t = FrameTracker::new(ppn, mem);
            Some(t)
        },
        None => None,
    }
}

impl StackFrameAllocator {
    /// The first frame of the range.
    pub closed spec fn range_start(&self) -> int {
        self.start@ as int
    }

    /// The next frame never handed out.
    pub closed spec fn next_fresh(&self) -> int {
        self.cur as int
    }

    /// End of the range of frames.
    pub closed spec fn limit(&self) -> int {
        self.end as int
    }

    /// Returned frames, the most recent last.
    pub closed spec fn returned(&self) -> Seq<usize> {
        self.recycled@
    }

    /// Frames currently handed out: in the range below the next fresh
    /// frame, and not returned.
    pub open spec fn in_use(&self) -> Set<usize> {
        Set::new(|p: usize| self.range_start() <= p < self.next_fresh() && !self.returned().contains(p))
    }

    /// Every frame handed out or returned lies in the range `[start, end)`:
    /// returned frames were handed out, each is returned once, and fresh
    /// frames are only handed out up to the end of the range.
    pub open spec fn wf(&self) -> bool {
        &&& forall|i: int|
            0 <= i < self.returned().len() ==> self.range_start() <= #[trigger] self.returned()[i] < self.next_fresh()
        &&& self.returned().no_duplicates()
        &&& self.range_start() <= self.next_fresh() <= self.limit() <= usize::MAX
    }

    pub fn new() -> (s: Self)
        ensures
            s.range_start() == 0,
            s.next_fresh() == 0,
            s.limit() == 0,
            s.returned() == Seq::<usize>::empty(),
            s.wf(),
    {
        StackFrameAllocator { cur: 0, end: 0, recycled: Vec::new(), start: Ghost(0) }
    }

    /// Sets the range of fresh frames to `[l, r)`.
    pub fn init(&mut self, l: PhysPageNum, r: PhysPageNum)
        ensures
            final(self).range_start() == l.0,
            final(self).next_fresh() == l.0,
            final(self).limit() == r.0,
            final(self).returned() == old(self).returned(),
            old(self).wf() && old(self).returned().len() == 0 && l.0 <= r.0 ==> final(self).wf(),
    {
        self.cur = l.0;
        self.end = r.0;
        self.start = Ghost(l.0);
    }

    /// Reuses the most recently returned frame, or hands out the next fresh
    /// one; `None` when there is neither.
    pub fn allocate(&mut self) -> (r: Option<PhysPageNum>)
        requires
            old(self).returned().len() == 0 && old(self).next_fresh() != old(self).limit()
                ==> old(self).next_fresh() < usize::MAX,
        ensures
            final(self).limit() == old(self).limit(),
            final(self).range_start() == old(self).range_start(),
            old(self).returned().len() > 0 ==> r == Some(PhysPageNum(old(self).returned().last()))
                && final(self).returned() == old(self).returned().drop_last()
                && final(self).next_fresh() == old(self).next_fresh(),
            old(self).returned().len() == 0 && old(self).next_fresh() == old(self).limit() ==> r
                is None && final(self).returned() == old(self).returned() && final(self).next_fresh()
                == old(self).next_fresh(),
            old(self).returned().len() == 0 && old(self).next_fresh() != old(self).limit() ==> r
                == Some(PhysPageNum(old(self).next_fresh() as usize)) && final(self).returned()
                == old(self).returned() && final(self).next_fresh() == old(self).next_fresh() + 1,
            old(self).wf() ==> final(self).wf() && match r {
                Some(p) => !old(self).in_use().contains(p.0) && final(self).in_use() == old(
                    self,
                ).in_use().insert(p.0),
                None => final(self).in_use() == old(self).in_use(),
            },
    {
        match self.recycled.pop() {
            Some(ppn) => {
                proof {
                    if old(self).wf() {
                        let k0 = self.recycled@.len() as int;
                        assert(old(self).returned()[k0] == ppn);
                        assert(!self.recycled@.contains(ppn)) by {
                            if self.recycled@.contains(ppn) {
                                let k = choose|k: int| 0 <= k < self.recycled@.len() && self.recycled@[k] == ppn;
                                assert(old(self).returned()[k] == old(self).returned()[k0]);
                            }
                        }
                        assert forall|p: usize| old(self).returned().contains(p) <==> (self.recycled@.contains(p) || p == ppn) by {
                            if old(self).returned().contains(p) {
                                let k = choose|k: int| 0 <= k < old(self).returned().len() && old(self).returned()[k] == p;
                                if k < k0 {
                                    assert(self.recycled@[k] == p);
                                }
                            }
                            if self.recycled@.contains(p) {
                                let k = choose|k: int| 0 <= k < self.recycled@.len() && self.recycled@[k] == p;
                                assert(old(self).returned()[k] == p);
                            }
                        }
                        assert(final(self).in_use() =~= old(self).in_use().insert(ppn));
                    }
                }
                Some(PhysPageNum(ppn))
            },
            None => {
                if self.cur == self.end {
                    None
                } else {
                    self.cur = self.cur + 1;
                    proof {
                        if old(self).wf() {
                            assert(final(self).in_use() =~= old(self).in_use().insert(old(self).cur));
                        }
                    }
                    Some(PhysPageNum(self.cur - 1))
                }
            },
        }
    }

    /// Whether `ppn` is among the returned frames.
    fn is_returned(&self, ppn: usize) -> (b: bool)
        ensures
            b == self.returned().contains(ppn),
    {
        let mut i: usize = 0;
        while i < self.recycled.len()
            invariant
                i <= self.recycled@.len(),
                forall|k: int| 0 <= k < i ==> self.recycled@[k] != ppn,
            decreases self.recycled@.len() - i,
        {
            if self.recycled[i] == ppn {
                return true;
            }
            i = i + 1;
        }
        false
    }

    /// Whether at least `n` frames can still be handed out.
    pub fn free_at_least(&self, n: usize) -> (b: bool)
        requires
            self.wf(),
        ensures
            b == (free_frames(*self) >= n),
    {
        let fresh = self.end - self.cur;
        if fresh >= n {
            true
        } else {
            self.recycled.len() >= n - fresh
        }
    }

    /// Whether `ppn` is handed out and may be returned.
    pub fn can_dealloc(&self, ppn: PhysPageNum) -> (b: bool)
        ensures
            b == (ppn.0 < self.next_fresh() && !self.returned().contains(ppn.0)),
    {
        ppn.0 < self.cur && !self.is_returned(ppn.0)
    }

    /// Returns the frame `ppn`, which must be handed out.
    pub fn dealloc(&mut self, ppn: PhysPageNum)
        requires
            ppn.0 < old(self).next_fresh(),
            !old(self).returned().contains(ppn.0),
        ensures
            final(self).returned() == old(self).returned().push(ppn.0),
            final(self).next_fresh() == old(self).next_fresh(),
            final(self).limit() == old(self).limit(),
            final(self).range_start() == old(self).range_start(),
            old(self).wf() && old(self).range_start() <= ppn.0 ==> final(self).wf() && final(self).in_use() == old(self).in_use().remove(
                ppn.0,
            ),
    {
        let ppn = ppn.0;
        self.recycled.push(ppn);
        proof {
            if old(self).wf() && old(self).range_start() <= ppn {
                assert forall|p: usize| #[trigger] final(self).returned().contains(p) <==> (old(self).returned().contains(p) || p == ppn) by {
                    if final(self).returned().contains(p) {
                        let k = choose|k: int| 0 <= k < final(self).returned().len() && final(self).returned()[k] == p;
                        if k < old(self).returned().len() {
                            assert(old(self).returned()[k] == p);
                        }
                    }
                    if old(self).returned().contains(p) {
                        let k = choose|k: int| 0 <= k < old(self).returned().len() && old(self).returned()[k] == p;
                        assert(final(self).returned()[k] == p);
                    }
                    if p == ppn {
                        assert(final(self).returned()[old(self).returned().len() as int] == p);
                    }
                }
                assert(final(self).in_use() =~= old(self).in_use().remove(ppn));
                assert forall|i: int, j: int| 0 <= i < j < final(self).returned().len() implies final(self).returned()[i] != final(self).returned()[j] by {
                    assert(old(self).returned()[i] == final(self).returned()[i]);
                    if j < old(self).returned().len() {
                        assert(old(self).returned()[j] == final(self).returned()[j]);
                    }
                }
            }
        }
    }
}

} // verus!
