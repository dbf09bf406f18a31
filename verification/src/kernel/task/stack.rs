//! Kernel stacks: one per process, laid out downward below the trampoline.
use vstd::prelude::*;

verus! {

use crate::kernel::config::{KERNEL_STACK_SIZE, PAGE_SIZE, trampoline};
use crate::kernel::mm::address::{VirtPageNum, vpn_indexes};
use crate::kernel::mm::frame_allocator::{FrameTracker, StackFrameAllocator, frames_within, free_frames};
use crate::kernel::mm::memory::PhysMemory;
use crate::kernel::mm::page_table::{
    PTEFlags, PageTable, PTE_R, PTE_V, PTE_W, frames_needed, leaf_table, mapped_at, mapping, others_kept,
};

/// The kernel stack `[bottom, top)` of process `app_id`: stacks of
/// `KERNEL_STACK_SIZE` bytes spaced by one page, downward from the trampoline.
pub open spec fn stack_top(app_id: int) -> int {
    trampoline() - app_id * (KERNEL_STACK_SIZE + PAGE_SIZE)
}

pub fn kernel_stack_position(app_id: usize) -> (r: (usize, usize))
    requires
        app_id * (KERNEL_STACK_SIZE + PAGE_SIZE) + KERNEL_STACK_SIZE <= trampoline(),
    ensures
        r.1 == stack_top(app_id as int),
        r.0 == stack_top(app_id as int) - KERNEL_STACK_SIZE,
{
    let top = usize::MAX - PAGE_SIZE + 1 - app_id * (KERNEL_STACK_SIZE + PAGE_SIZE);
    let bottom = top - KERNEL_STACK_SIZE;
    (bottom, top)
}

/// Whether the kernel stack of process `app_id` lies below the trampoline.
pub fn stack_fits(app_id: usize) -> (r: bool)
    ensures
        r == (app_id * (KERNEL_STACK_SIZE + PAGE_SIZE) + KERNEL_STACK_SIZE <= trampoline()),
{
    let room = usize::MAX - PAGE_SIZE + 1 - KERNEL_STACK_SIZE;
    app_id <= room / (KERNEL_STACK_SIZE + PAGE_SIZE)
}

/// The first page of the kernel stack of process `app_id`.
pub open spec fn stack_page(app_id: int) -> int {
    (stack_top(app_id) - KERNEL_STACK_SIZE) / PAGE_SIZE as int
}

/// Frames a mapping of the kernel stack of process `pid` takes in the
/// table with root `root`: its two frames, the directory pages its first
/// page needs, and, where its second page starts another leaf table, up to
/// two directory pages more.
pub open spec fn stack_frames_needed(mem: PhysMemory, root: usize, pid: int) -> int {
    frames_needed(mem, root, stack_page(pid)) + if stack_page(pid) % 512 == 511 {
        4int
    } else {
        2int
    }
}

/// The entry that maps a kernel stack page to frame `ppn`: readable,
/// writable and valid.
pub open spec fn stack_pte(ppn: usize) -> u64 {
    ((ppn as u64) << 10u64) | ((PTE_R | PTE_W | PTE_V) as u64)
}

/// The two pages of the kernel stack `s` are mapped in `kernel` to its
/// frames, which `fa` hands out, and the table is in shape over `mem`.
pub open spec fn stack_in_place(kernel: PageTable, fa: StackFrameAllocator, mem: PhysMemory, s: KernelStack) -> bool {
    &&& s.frame_count() == 2
    &&& s.frame(0) != s.frame(1)
    &&& mem.wf()
    &&& kernel.wf(mem)
    &&& kernel.owned_by(fa)
    &&& frames_within(fa, mem)
    &&& forall|k: int|
        0 <= k < 2 ==> fa.in_use().contains(#[trigger] s.frame(k)) && mem.has(s.frame(k) as int)
            && !kernel.dirs().contains(s.frame(k))
    &&& mapping(mem, kernel.root(), stack_page(s.owner())) == Some(stack_pte(s.frame(0)))
    &&& mapping(mem, kernel.root(), stack_page(s.owner()) + 1) == Some(stack_pte(s.frame(1)))
}

/// The address spaces `k0` over `m0` and `k1` over `m1` map every page
/// alike but the two pages of the kernel stack of process `pid`.
pub open spec fn same_but_stack(k0: PageTable, m0: PhysMemory, k1: PageTable, m1: PhysMemory, pid: int) -> bool {
    forall|a: int, b: int, x: int|
        0 <= a < 512 && 0 <= b < 512 && 0 <= x < 512 && seq![a, b, x] != vpn_indexes(stack_page(pid)) && seq![a, b, x]
            != vpn_indexes(stack_page(pid) + 1) ==> #[trigger] mapped_at(m1, k1.root(), a, b, x) == mapped_at(
            m0,
            k0.root(),
            a,
            b,
            x,
        )
}

/// A write to memory outside the pages of the kernel table leaves a kernel
/// stack in place, and every mapping as it was.
pub proof fn lemma_stack_stays(kernel: PageTable, fa: StackFrameAllocator, m1: PhysMemory, m2: PhysMemory, s: KernelStack)
    requires
        stack_in_place(kernel, fa, m1, s),
        m2.wf(),
        m2.first() == m1.first(),
        m2.count() == m1.count(),
        forall|q: usize, j: int|
            #![trigger m2.entry(q as int, j)]
            kernel.dirs().contains(q) && m1.has(q as int) && 0 <= j < 512 ==> m2.entry(q as int, j) == m1.entry(
                q as int,
                j,
            ),
    ensures
        stack_in_place(kernel, fa, m2, s),
        same_but_stack(kernel, m1, kernel, m2, s.owner()),
{
    kernel.lemma_dirs_untouched(m1, m2);
    let ix0 = vpn_indexes(stack_page(s.owner()));
    let ix1 = vpn_indexes(stack_page(s.owner()) + 1);
    assert(mapped_at(m2, kernel.root(), ix0[0], ix0[1], ix0[2]) == mapped_at(m1, kernel.root(), ix0[0], ix0[1], ix0[2]));
    assert(mapped_at(m2, kernel.root(), ix1[0], ix1[1], ix1[2]) == mapped_at(m1, kernel.root(), ix1[0], ix1[1], ix1[2]));
}

/// Consecutive pages differ in their last index, and share their leaf
/// table unless the first is the last page of one.
proof fn lemma_next_page(v: int)
    requires
        0 <= v,
    ensures
        vpn_indexes(v)[2] != vpn_indexes(v + 1)[2],
        v % 512 != 511 ==> vpn_indexes(v + 1)[0] == vpn_indexes(v)[0] && vpn_indexes(v + 1)[1]
            == vpn_indexes(v)[1],
        v % 512 == 511 ==> vpn_indexes(v + 1)[1] != vpn_indexes(v)[1],
{
    if v % 512 != 511 {
        assert((v + 1) / 512 == v / 512);
    } else {
        assert((v + 1) / 512 == v / 512 + 1);
    }
}

/// The two pages of the kernel stack of process `pid` can be unmapped from
/// the table with root `root` one after the other: each leaves another
/// mapping in its leaf table.
pub open spec fn stack_releasable(mem: PhysMemory, root: usize, pid: int) -> bool {
    let v = stack_page(pid);
    let ix0 = vpn_indexes(v);
    let ix1 = vpn_indexes(v + 1);
    &&& v % 512 == 511 ==> exists|j: int|
        0 <= j < 512 && j != ix0[2] && #[trigger] mapped_at(mem, root, ix0[0], ix0[1], j) is Some
    &&& exists|j: int|
        0 <= j < 512 && j != ix1[2] && (v % 512 != 511 ==> j != ix0[2]) && #[trigger] mapped_at(
            mem,
            root,
            ix1[0],
            ix1[1],
            j,
        ) is Some
}

/// The kernel stack of one process, with the frames its pages are mapped to.
pub struct KernelStack {
    pid: usize,
    frames: Vec<FrameTracker>,
}

impl KernelStack {
    pub closed spec fn owner(&self) -> int {
        self.pid as int
    }

    /// How many frames the stack holds.
    pub closed spec fn frame_count(&self) -> int {
        self.frames@.len() as int
    }

    /// The frame page `k` of the stack is mapped to.
    pub closed spec fn frame(&self, k: int) -> usize {
        self.frames@[k].ppn.0
    }

    /// The stack of process `pid`: its pages `kernel_stack_position(pid)`
    /// are mapped readable and writable in the kernel address space
    /// `kernel` to fresh frames. Each mapping may need up to two directory
    /// pages besides its frame.
    pub fn new(pid: usize, kernel: &mut PageTable, mem: &mut PhysMemory, fa: &mut StackFrameAllocator) -> (s: Self)
        requires
            pid * (KERNEL_STACK_SIZE + PAGE_SIZE) + KERNEL_STACK_SIZE <= trampoline(),
            old(kernel).wf(*old(mem)),
            old(kernel).owned_by(*old(fa)),
            frames_within(*old(fa), *old(mem)),
            mapping(*old(mem), old(kernel).root(), stack_page(pid as int)) is None,
            mapping(*old(mem), old(kernel).root(), stack_page(pid as int) + 1) is None,
            stack_frames_needed(*old(mem), old(kernel).root(), pid as int) <= free_frames(*old(fa)),
        ensures
            s.owner() == pid,
            stack_in_place(*final(kernel), *final(fa), *final(mem), s),
            final(kernel).root() == old(kernel).root(),
            final(mem).first() == old(mem).first(),
            final(mem).count() == old(mem).count(),
            others_kept(*old(kernel), *final(kernel), *old(fa), *final(fa), *old(mem), *final(mem)),
            s.frame(0) != s.frame(1),
            forall|k: int| 0 <= k < 2 ==> !old(fa).in_use().contains(#[trigger] s.frame(k)),
            same_but_stack(*old(kernel), *old(mem), *final(kernel), *final(mem), pid as int),
    {
        let (bottom, _) = kernel_stack_position(pid);
        let v0 = bottom / PAGE_SIZE;
        let flags = PTEFlags { bits: PTE_R | PTE_W };
        let ghost m0 = *mem;
        let ghost fa0 = *fa;
        let ghost k0 = *kernel;
        proof {
            lemma_next_page(v0 as int);
        }
        let f0 = kernel.map_framed(mem, fa, VirtPageNum(v0), flags);
        let ghost m1 = *mem;
        let ghost fa1 = *fa;
        let ghost k1 = *kernel;
        proof {
            let ix0 = vpn_indexes(v0 as int);
            let ix1 = vpn_indexes(v0 + 1);
            assert(mapped_at(m1, k1.root(), ix1[0], ix1[1], ix1[2]) == mapped_at(m0, k0.root(), ix1[0], ix1[1], ix1[2]));
            if v0 % 512 != 511 {
                assert(leaf_table(m1, k1.root(), ix0[0], ix0[1]) is Some);
                assert(frames_needed(m1, k1.root(), v0 + 1) == 0);
            }
        }
        let f1 = kernel.map_framed(mem, fa, VirtPageNum(v0 + 1), flags);
        proof {
            let ix0 = vpn_indexes(v0 as int);
            assert(mapped_at(*mem, kernel.root(), ix0[0], ix0[1], ix0[2]) == mapped_at(m1, k1.root(), ix0[0], ix0[1], ix0[2]));
            assert(fa1.in_use().contains(f0.ppn.0));
            assert(!kernel.dirs().contains(f0.ppn.0)) by {
                if kernel.dirs().contains(f0.ppn.0) {
                    assert(k1.dirs().contains(f0.ppn.0) || !fa1.in_use().contains(f0.ppn.0));
                }
            }
            assert forall|q: usize| #[trigger] fa0.in_use().contains(q) implies fa.in_use().contains(q) by {
                assert(fa1.in_use().contains(q));
            }
            assert forall|d: usize| #[trigger] kernel.dirs().contains(d) implies k0.dirs().contains(d)
                || !fa0.in_use().contains(d) by {
                if !k1.dirs().contains(d) {
                    assert(!fa1.in_use().contains(d));
                }
            }
            assert forall|q: usize, j: int|
                #![trigger mem.entry(q as int, j)]
                m0.has(q as int) && fa0.in_use().contains(q) && !k0.dirs().contains(q) && 0 <= j < 512 implies mem.entry(
                    q as int,
                    j,
                ) == m0.entry(q as int, j) by {
                assert(fa1.in_use().contains(q));
                assert(!k1.dirs().contains(q));
                assert(m1.entry(q as int, j) == m0.entry(q as int, j));
            }
            assert((PTE_R | PTE_W) | PTE_V == PTE_R | PTE_W | PTE_V);
        }
        proof {
            kernel.lemma_walkable(*mem);
        }
        let mut frames = Vec::new();
        frames.push(f0);
        frames.push(f1);
        let s = KernelStack { pid, frames };
        assert(s.frame_count() == 2);
        s
    }

    /// Unmaps the two pages of the stack from the kernel address space
    /// `kernel` and hands its frames back to `fa`.
    pub fn release(self, kernel: &mut PageTable, mem: &mut PhysMemory, fa: &mut StackFrameAllocator)
        requires
            self.owner() * (KERNEL_STACK_SIZE + PAGE_SIZE) + KERNEL_STACK_SIZE <= trampoline(),
            stack_in_place(*old(kernel), *old(fa), *old(mem), self),
            stack_releasable(*old(mem), old(kernel).root(), self.owner()),
        ensures
            final(mem).wf(),
            final(kernel).wf(*final(mem)),
            final(kernel).owned_by(*final(fa)),
            frames_within(*final(fa), *final(mem)),
            final(kernel).root() == old(kernel).root(),
            final(kernel).dirs() == old(kernel).dirs(),
            final(mem).first() == old(mem).first(),
            final(mem).count() == old(mem).count(),
            mapping(*final(mem), final(kernel).root(), stack_page(self.owner())) is None,
            mapping(*final(mem), final(kernel).root(), stack_page(self.owner()) + 1) is None,
            same_but_stack(*old(kernel), *old(mem), *final(kernel), *final(mem), self.owner()),
            final(fa).returned() == old(fa).returned().push(self.frame(0)).push(self.frame(1)),
            final(fa).next_fresh() == old(fa).next_fresh(),
            final(fa).limit() == old(fa).limit(),
            final(fa).in_use() == old(fa).in_use().remove(self.frame(0)).remove(self.frame(1)),
            free_frames(*final(fa)) == free_frames(*old(fa)) + 2,
            forall|q: usize, j: int|
                #![trigger final(mem).entry(q as int, j)]
                old(mem).has(q as int) && !old(kernel).dirs().contains(q) && 0 <= j < 512 ==> final(mem).entry(
                    q as int,
                    j,
                ) == old(mem).entry(q as int, j),
    {
        let ghost m0 = *mem;
        let ghost k0 = *kernel;
        let ghost fa0 = *fa;
        let ghost f0 = self.frame(0);
        let ghost f1 = self.frame(1);
        let KernelStack { pid, frames } = self;
        let (bottom, _) = kernel_stack_position(pid);
        let v0 = bottom / PAGE_SIZE;
        let ghost ix0 = vpn_indexes(v0 as int);
        let ghost ix1 = vpn_indexes(v0 + 1);
        proof {
            lemma_next_page(v0 as int);
            assert(0 <= k0.root());
            assert(mapped_at(m0, k0.root(), ix1[0], ix1[1], ix1[2]) is Some);
            if v0 % 512 != 511 {
                assert(mapped_at(m0, k0.root(), ix0[0], ix0[1], ix1[2]) is Some);
            }
        }
        kernel.unmap(mem, VirtPageNum(v0));
        let ghost m1 = *mem;
        proof {
            assert(seq![ix1[0], ix1[1], ix1[2]] != ix0);
            assert(mapped_at(m1, k0.root(), ix1[0], ix1[1], ix1[2]) is Some);
            let j = choose|j: int|
                0 <= j < 512 && j != ix1[2] && (v0 % 512 != 511 ==> j != ix0[2]) && #[trigger] mapped_at(
                    m0,
                    k0.root(),
                    ix1[0],
                    ix1[1],
                    j,
                ) is Some;
            assert(seq![ix1[0], ix1[1], j] != ix0);
            assert(mapped_at(m1, k0.root(), ix1[0], ix1[1], j) is Some);
        }
        kernel.unmap(mem, VirtPageNum(v0 + 1));
        proof {
            assert(mapping(*mem, kernel.root(), v0 as int) is None) by {
                assert(seq![ix0[0], ix0[1], ix0[2]] != ix1);
            }
        }
        let p0 = frames[0].ppn;
        let p1 = frames[1].ppn;
        proof {
            assert(p0.0 == f0 && p1.0 == f1);
            assert(fa0.in_use().contains(f0) && fa0.in_use().contains(f1));
        }
        fa.dealloc(p0);
        proof {
            assert(fa.in_use().contains(f1));
        }
        fa.dealloc(p1);
        proof {
            kernel.lemma_walkable(*mem);
            assert forall|p: usize| #[trigger] kernel.dirs().contains(p) implies fa.in_use().contains(p) by {
                assert(k0.dirs().contains(p));
                assert(fa0.in_use().contains(p));
            }
            assert forall|i: int| 0 <= i < fa.returned().len() implies mem.has(#[trigger] fa.returned()[i] as int) by {
                if i < fa0.returned().len() {
                    assert(fa.returned()[i] == fa0.returned()[i]);
                }
            }
        }
    }

    pub fn top(&self) -> (r: usize)
        requires
            self.owner() * (KERNEL_STACK_SIZE + PAGE_SIZE) + KERNEL_STACK_SIZE <= trampoline(),
        ensures
            r == stack_top(self.owner()),
    {
        let (_, top) = kernel_stack_position(self.pid);
        top
    }
}

/// Kernel stacks of different processes do not overlap, and a guard page
/// lies between them: the stack of `b > a` ends a page below the stack of `a`.
pub proof fn lemma_stacks_apart(a: int, b: int)
    requires
        0 <= a < b,
    ensures
        stack_top(b) + PAGE_SIZE <= stack_top(a) - KERNEL_STACK_SIZE,
{
    assert(a * (KERNEL_STACK_SIZE + PAGE_SIZE) + (KERNEL_STACK_SIZE + PAGE_SIZE) <= b * (
    KERNEL_STACK_SIZE + PAGE_SIZE)) by (nonlinear_arith)
        requires
            0 <= a < b,
    ;
}

} // verus!
