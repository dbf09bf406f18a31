//! Tasks: their states, saved contexts, kernel stacks and address spaces.
use vstd::prelude::*;

verus! {

use super::stack::{
    KernelStack, lemma_stack_stays, same_but_stack, stack_frames_needed, stack_in_place, stack_page, stack_releasable,
    stack_top,
};
use crate::kernel::config::{KERNEL_STACK_SIZE, PAGE_SIZE, trampoline, trap_context, trap_context_addr};
use crate::kernel::mm::address::{PhysPageNum, VirtAddr};
use crate::kernel::mm::memory::PhysMemory;
use crate::kernel::mm::address::vpn_indexes;
use crate::kernel::mm::frame_allocator::{StackFrameAllocator, frames_within, free_frames};
use crate::kernel::mm::page_table::{
    PageTable, frames_needed, mapped_at, mapping, others_kept, pte_ppn, walk, walkable,
};
use crate::kernel::trap::context::{
    CONTEXT_WORDS, KERNEL_SP_SLOT, holds_init_context, same_context, set_register, store_init_context,
};
use std::collections::BTreeMap;

broadcast use {vstd::laws_cmp::group_laws_cmp, vstd::std_specs::btree::group_btree_axioms};

#[derive(Clone, Copy, Debug, PartialEq, Eq, Structural)]
pub enum TaskStatus {
    Ready,
    Running,
    Zombie,
}

/// Registers saved across a task switch: return address, stack pointer and
/// the twelve callee-saved registers.
#[derive(Clone, Copy, Debug)]
pub struct TaskContext {
    pub ra: usize,
    pub sp: usize,
    pub s: [usize; 12],
}

impl TaskContext {
    pub fn empty() -> (r: Self)
        ensures
            r.ra == 0,
            r.sp == 0,
            forall|i: int| 0 <= i < 12 ==> r.s@[i] == 0,
    {
        TaskContext { ra: 0, sp: 0, s: [0;12] }
    }

    /// A context that resumes at `ra` on the stack `sp`.
    pub fn new(ra: usize, sp: usize) -> (r: Self)
        ensures
            r.ra == ra,
            r.sp == sp,
            forall|i: int| 0 <= i < 12 ==> r.s@[i] == 0,
    {
        TaskContext { ra, sp, s: [0;12] }
    }
}


/// What the scheduler keeps of a task: where its trap context lies, its
/// saved context, its state and its address space.
pub struct TaskInner {
    pub trap_ctx: PhysPageNum,
    pub task_ctx: TaskContext,
    pub task_status: TaskStatus,
    pub memory: PageTable,
}

impl TaskInner {
    /// The frame that holds the task's trap context.
    pub fn trap_ctx(&self) -> (r: PhysPageNum)
        ensures
            r == self.trap_ctx,
    {
        self.trap_ctx
    }

    /// The `satp` value of the task's address space.
    pub fn user_token(&self) -> (r: usize)
        requires
            usize::MAX == u64::MAX,
        ensures
            r == (8u64 << 60u64) | (self.memory.root() as u64),
    {
        self.memory.token()
    }
}

/// A process as the kernel runs it.
pub struct Task {
    pub pid: usize,
    pub kernel_stack: KernelStack,
    pub inner: TaskInner,
}

/// The frame that the trap context page of `memory` is mapped to.
pub open spec fn trap_frame(mem: PhysMemory, memory: PageTable) -> usize {
    pte_ppn(walk(mem, memory.root(), trap_context() / PAGE_SIZE as int)->0)
}

/// The frame holding the trap context page of `memory`.
fn trap_ctx_ppn(mem: &PhysMemory, memory: &PageTable) -> (r: PhysPageNum)
    requires
        walkable(*mem, memory.root()),
        walk(*mem, memory.root(), trap_context() / PAGE_SIZE as int) is Some,
    ensures
        r.0 == trap_frame(*mem, *memory),
{
    memory.translate(mem, VirtAddr(trap_context_addr()).floor()).unwrap().ppn()
}

/// The `satp` value of the Sv39 address space with root page `root`.
pub open spec fn satp(root: usize) -> usize {
    ((8u64 << 60u64) | (root as u64)) as usize
}

/// The kernel stack of process `pid` can be mapped in `kernel`: the table
/// is in shape over `mem` with its pages handed out by `fa`, the stack pages
/// are not mapped yet, and enough frames are left.
pub open spec fn stack_mappable(kernel: PageTable, mem: PhysMemory, fa: StackFrameAllocator, pid: int) -> bool {
    &&& kernel.wf(mem)
    &&& kernel.owned_by(fa)
    &&& frames_within(fa, mem)
    &&& mapping(mem, kernel.root(), stack_page(pid)) is None
    &&& mapping(mem, kernel.root(), stack_page(pid) + 1) is None
    &&& stack_frames_needed(mem, kernel.root(), pid) <= free_frames(fa)
}

/// After a kernel stack was mapped (`m0` to `m1`), a write into frame `c`
/// (`m1` to `m2`), a frame handed out that is no page of the kernel table,
/// leaves the stack in place and the mappings as they were.
proof fn lemma_context_write_keeps_stack(
    k0: PageTable,
    k1: PageTable,
    fa0: StackFrameAllocator,
    fa1: StackFrameAllocator,
    m0: PhysMemory,
    m1: PhysMemory,
    m2: PhysMemory,
    c: usize,
    s: KernelStack,
)
    requires
        stack_in_place(k1, fa1, m1, s),
        others_kept(k0, k1, fa0, fa1, m0, m1),
        same_but_stack(k0, m0, k1, m1, s.owner()),
        m2.wf(),
        m2.first() == m1.first(),
        m2.count() == m1.count(),
        forall|q: int, j: int| m1.has(q) && 0 <= j < 512 && q != c ==> #[trigger] m2.entry(q, j) == m1.entry(q, j),
    ensures
        fa0.in_use().contains(c) && !k0.dirs().contains(c) ==> stack_in_place(k1, fa1, m2, s) && same_but_stack(
            k0,
            m0,
            k1,
            m2,
            s.owner(),
        ),
{
    if fa0.in_use().contains(c) && !k0.dirs().contains(c) {
        assert(!k1.dirs().contains(c));
        assert forall|q: usize, j: int|
            #![trigger m2.entry(q as int, j)]
            k1.dirs().contains(q) && m1.has(q as int) && 0 <= j < 512 implies m2.entry(q as int, j) == m1.entry(
                q as int,
                j,
            ) by {
            assert(q != c);
        }
        lemma_stack_stays(k1, fa1, m1, m2, s);
        assert forall|a: int, b: int, x: int|
            0 <= a < 512 && 0 <= b < 512 && 0 <= x < 512 && seq![a, b, x] != vpn_indexes(stack_page(s.owner()))
                && seq![a, b, x] != vpn_indexes(stack_page(s.owner()) + 1) implies #[trigger] mapped_at(
                m2,
                k1.root(),
                a,
                b,
                x,
            ) == mapped_at(m0, k0.root(), a, b, x) by {
            assert(mapped_at(m2, k1.root(), a, b, x) == mapped_at(m1, k1.root(), a, b, x));
            assert(mapped_at(m1, k1.root(), a, b, x) == mapped_at(m0, k0.root(), a, b, x));
        }
    }
}

/// The task `t` with its state set to `status`.
pub open spec fn with_status(t: Task, status: TaskStatus) -> Task {
    Task { inner: TaskInner { task_status: status, ..t.inner }, ..t }
}

/// Sets the state of task `pid` of the table `tasks` to `status`; a pid
/// the table does not hold changes nothing.
pub fn set_status(tasks: &mut BTreeMap<usize, Task>, pid: usize, status: TaskStatus)
    ensures
        old(tasks)@.contains_key(pid) ==> final(tasks)@ == old(tasks)@.insert(
            pid,
            with_status(old(tasks)@[pid], status),
        ),
        !old(tasks)@.contains_key(pid) ==> final(tasks)@ == old(tasks)@,
{
    if let Some(mut t) = tasks.remove(&pid) {
        t.inner.task_status = status;
        tasks.insert(pid, t);
    } else {
        proof {
            assert(tasks@ =~= old(tasks)@);
        }
    }
}

/// Task `t` can be dropped: its kernel stack is in place in `kernel` and
/// can be unmapped, its address space is in shape over `mem`, and the pages
/// of both tables and the stack's frames, handed out by `fa`, are apart.
pub open spec fn reapable(t: Task, kernel: PageTable, mem: PhysMemory, fa: StackFrameAllocator) -> bool {
    &&& t.kernel_stack.owner() * (KERNEL_STACK_SIZE + PAGE_SIZE) + KERNEL_STACK_SIZE <= trampoline()
    &&& stack_in_place(kernel, fa, mem, t.kernel_stack)
    &&& stack_releasable(mem, kernel.root(), t.kernel_stack.owner())
    &&& t.inner.memory.wf(mem)
    &&& t.inner.memory.owned_by(fa)
    &&& forall|k: int| 0 <= k < 2 ==> !t.inner.memory.dirs().contains(#[trigger] t.kernel_stack.frame(k))
    &&& forall|p: usize| #[trigger] t.inner.memory.dirs().contains(p) ==> !kernel.dirs().contains(p)
}

/// Drops task `pid` from the table `tasks`: the pages of its address space
/// go back to `fa`, and its kernel stack is unmapped from `kernel` with its
/// frames handed back. A pid the table does not hold changes nothing.
pub fn reap(
    tasks: &mut BTreeMap<usize, Task>,
    pid: usize,
    kernel: &mut PageTable,
    mem: &mut PhysMemory,
    fa: &mut StackFrameAllocator,
)
    requires
        old(tasks)@.contains_key(pid) ==> reapable(old(tasks)@[pid], *old(kernel), *old(mem), *old(fa)),
    ensures
        final(tasks)@ == old(tasks)@.remove(pid),
        !old(tasks)@.contains_key(pid) ==> *final(kernel) == *old(kernel) && *final(mem) == *old(mem) && *final(fa)
            == *old(fa),
        old(tasks)@.contains_key(pid) ==> {
            let t = old(tasks)@[pid];
            let s = t.kernel_stack;
            &&& final(mem).wf()
            &&& final(kernel).wf(*final(mem))
            &&& final(kernel).owned_by(*final(fa))
            &&& frames_within(*final(fa), *final(mem))
            &&& final(kernel).root() == old(kernel).root()
            &&& final(kernel).dirs() == old(kernel).dirs()
            &&& final(mem).first() == old(mem).first()
            &&& final(mem).count() == old(mem).count()
            &&& mapping(*final(mem), final(kernel).root(), stack_page(s.owner())) is None
            &&& mapping(*final(mem), final(kernel).root(), stack_page(s.owner()) + 1) is None
            &&& same_but_stack(*old(kernel), *old(mem), *final(kernel), *final(mem), s.owner())
            &&& final(fa).in_use() == old(fa).in_use().difference(t.inner.memory.dirs()).remove(s.frame(0)).remove(
                s.frame(1),
            )
            &&& final(fa).next_fresh() == old(fa).next_fresh()
            &&& final(fa).limit() == old(fa).limit()
            &&& forall|q: usize, j: int|
                #![trigger final(mem).entry(q as int, j)]
                old(mem).has(q as int) && !old(kernel).dirs().contains(q) && 0 <= j < 512 ==> final(mem).entry(
                    q as int,
                    j,
                ) == old(mem).entry(q as int, j)
        },
{
    match tasks.remove(&pid) {
        Some(t) => {
            let ghost fa0 = *fa;
            let Task { pid: _, kernel_stack, inner } = t;
            inner.memory.release(mem, fa);
            proof {
                assert forall|p: usize| #[trigger] kernel.dirs().contains(p) implies fa.in_use().contains(p) by {
                    assert(fa0.in_use().contains(p));
                }
                assert(frames_within(*fa, *mem));
            }
            kernel_stack.release(kernel, mem, fa);
        },
        None => {
            proof {
                assert(tasks@ =~= old(tasks)@.remove(pid));
            }
        },
    }
}

impl Task {
    /// The task's state, for reading and changing.
    pub fn lock(&mut self) -> (r: &mut TaskInner)
        ensures
            *r == old(self).inner,
            final(self).inner == *final(r),
            final(self).pid == old(self).pid,
            final(self).kernel_stack == old(self).kernel_stack,
    {
        &mut self.inner
    }

    /// Process `pid` running in `memory`, ready to enter user mode through
    /// `trap_return` on its own kernel stack, which `KernelStack::new` maps
    /// in the kernel address space `kernel`. Its trap context page gets the
    /// context a program starts with: resuming at `entry` on the user stack
    /// `user_sp` with status `sstatus`, trapping into `trap_handler` on the
    /// task's kernel stack in the kernel address space.
    pub fn new(
        memory: PageTable,
        kernel: &mut PageTable,
        mem: &mut PhysMemory,
        fa: &mut StackFrameAllocator,
        pid: usize,
        trap_return: usize,
        entry: usize,
        user_sp: usize,
        trap_handler: usize,
        sstatus: usize,
    ) -> (t: Self)
        requires
            usize::MAX == u64::MAX,
            walkable(*old(mem), memory.root()),
            walk(*old(mem), memory.root(), trap_context() / PAGE_SIZE as int) is Some,
            old(mem).has(trap_frame(*old(mem), memory) as int),
            pid * (KERNEL_STACK_SIZE + PAGE_SIZE) + KERNEL_STACK_SIZE <= trampoline(),
            stack_mappable(*old(kernel), *old(mem), *old(fa), pid as int),
        ensures
            t.pid == pid,
            t.kernel_stack.owner() == pid,
            final(kernel).root() == old(kernel).root(),
            final(mem).wf(),
            final(mem).first() == old(mem).first(),
            final(mem).count() == old(mem).count(),
            t.kernel_stack.frame(0) != t.kernel_stack.frame(1),
            forall|k: int| 0 <= k < 2 ==> !old(fa).in_use().contains(#[trigger] t.kernel_stack.frame(k)),
            old(fa).in_use().contains(t.inner.trap_ctx.0) && !old(kernel).dirs().contains(t.inner.trap_ctx.0) ==> stack_in_place(
                *final(kernel),
                *final(fa),
                *final(mem),
                t.kernel_stack,
            ) && same_but_stack(*old(kernel), *old(mem), *final(kernel), *final(mem), pid as int),
            t.inner.trap_ctx.0 == trap_frame(*old(mem), memory),
            t.inner.task_ctx.ra == trap_return,
            t.inner.task_ctx.sp == stack_top(pid as int),
            forall|i: int| 0 <= i < 12 ==> t.inner.task_ctx.s@[i] == 0,
            t.inner.task_status == TaskStatus::Ready,
            t.inner.memory == memory,
            holds_init_context(
                *final(mem),
                t.inner.trap_ctx.0,
                entry,
                user_sp,
                satp(old(kernel).root()),
                stack_top(pid as int) as usize,
                trap_handler,
                sstatus,
            ),
            forall|q: usize, j: int|
                old(mem).has(q as int) && old(fa).in_use().contains(q) && !old(kernel).dirs().contains(q) && 0 <= j
                    < 512 && !(q == t.inner.trap_ctx.0 && j < CONTEXT_WORDS) ==> #[trigger] final(mem).entry(q as int, j)
                    == old(mem).entry(q as int, j),
    {
        let trap_ctx = trap_ctx_ppn(mem, &memory);
        let kernel_satp = kernel.token();
        let ghost m0 = *mem;
        let ghost k0 = *kernel;
        let ghost fa0 = *fa;
        let kernel_stack = KernelStack::new(pid, kernel, mem, fa);
        let kernel_stack_top = kernel_stack.top();
        let ghost m1 = *mem;
        store_init_context(mem, trap_ctx, entry, user_sp, kernel_satp, kernel_stack_top, trap_handler, sstatus);
        proof {
            lemma_context_write_keeps_stack(k0, *kernel, fa0, *fa, m0, m1, *mem, trap_ctx.0, kernel_stack);
        }
        Task {
            pid,
            kernel_stack,
            inner: TaskInner {
                trap_ctx,
                task_ctx: TaskContext::new(trap_return, kernel_stack_top),
                task_status: TaskStatus::Ready,
                memory,
            },
        }
    }

    /// The child `pid` of the task, running in `memory`, the copy of the
    /// parent's address space, ready to return to user mode on its own
    /// kernel stack (see `new`): the kernel stack pointer saved in its trap
    /// context becomes the top of that stack. Where the child's trap context
    /// page, a frame handed out that is no page of `kernel`, held the
    /// parent's context, it now holds the same context but for the kernel
    /// stack pointer.
    pub fn fork(
        &self,
        memory: PageTable,
        kernel: &mut PageTable,
        mem: &mut PhysMemory,
        fa: &mut StackFrameAllocator,
        pid: usize,
        trap_return: usize,
    ) -> (t: Self)
        requires
            walkable(*old(mem), memory.root()),
            walk(*old(mem), memory.root(), trap_context() / PAGE_SIZE as int) is Some,
            old(mem).has(trap_frame(*old(mem), memory) as int),
            pid * (KERNEL_STACK_SIZE + PAGE_SIZE) + KERNEL_STACK_SIZE <= trampoline(),
            stack_mappable(*old(kernel), *old(mem), *old(fa), pid as int),
        ensures
            t.pid == pid,
            t.kernel_stack.owner() == pid,
            final(kernel).root() == old(kernel).root(),
            final(mem).wf(),
            final(mem).first() == old(mem).first(),
            final(mem).count() == old(mem).count(),
            t.kernel_stack.frame(0) != t.kernel_stack.frame(1),
            forall|k: int| 0 <= k < 2 ==> !old(fa).in_use().contains(#[trigger] t.kernel_stack.frame(k)),
            old(fa).in_use().contains(t.inner.trap_ctx.0) && !old(kernel).dirs().contains(t.inner.trap_ctx.0) ==> stack_in_place(
                *final(kernel),
                *final(fa),
                *final(mem),
                t.kernel_stack,
            ) && same_but_stack(*old(kernel), *old(mem), *final(kernel), *final(mem), pid as int),
            t.inner.trap_ctx.0 == trap_frame(*old(mem), memory),
            t.inner.task_ctx.ra == trap_return,
            t.inner.task_ctx.sp == stack_top(pid as int),
            forall|i: int| 0 <= i < 12 ==> t.inner.task_ctx.s@[i] == 0,
            t.inner.task_status == TaskStatus::Ready,
            t.inner.memory == memory,
            final(mem).entry(t.inner.trap_ctx.0 as int, KERNEL_SP_SLOT as int) == stack_top(pid as int),
            forall|q: usize| #[trigger] old(fa).in_use().contains(q) ==> final(fa).in_use().contains(q),
            forall|d: usize| #[trigger] final(kernel).dirs().contains(d) ==> old(kernel).dirs().contains(d) || !old(
                fa,
            ).in_use().contains(d),
            forall|q: usize, j: int|
                old(mem).has(q as int) && old(fa).in_use().contains(q) && !old(kernel).dirs().contains(q) && 0 <= j
                    < 512 && !(q == t.inner.trap_ctx.0 && j == KERNEL_SP_SLOT) ==> #[trigger] final(mem).entry(q as int, j)
                    == old(mem).entry(q as int, j),
            ({
                let c = t.inner.trap_ctx.0;
                old(fa).in_use().contains(c) && !old(kernel).dirs().contains(c) && same_context(
                    *old(mem),
                    c,
                    self.inner.trap_ctx.0,
                ) ==> forall|i: int|
                    0 <= i < CONTEXT_WORDS && i != KERNEL_SP_SLOT ==> #[trigger] final(mem).entry(c as int, i)
                        == old(mem).entry(self.inner.trap_ctx.0 as int, i)
            }),
    {
        let trap_ctx = trap_ctx_ppn(mem, &memory);
        let ghost m0 = *mem;
        let ghost k0 = *kernel;
        let ghost fa0 = *fa;
        let kernel_stack = KernelStack::new(pid, kernel, mem, fa);
        let kernel_stack_top = kernel_stack.top();
        let ghost m1 = *mem;
        set_register(mem, trap_ctx, KERNEL_SP_SLOT, kernel_stack_top);
        proof {
            lemma_context_write_keeps_stack(k0, *kernel, fa0, *fa, m0, m1, *mem, trap_ctx.0, kernel_stack);
            let c = trap_ctx.0;
            if old(fa).in_use().contains(c) && !old(kernel).dirs().contains(c) && same_context(m0, c, self.inner.trap_ctx.0) {
                assert forall|i: int|
                    0 <= i < CONTEXT_WORDS && i != KERNEL_SP_SLOT implies #[trigger] mem.entry(c as int, i)
                        == m0.entry(self.inner.trap_ctx.0 as int, i) by {
                    assert(m1.entry(c as int, i) == m0.entry(c as int, i));
                    assert(m0.entry(c as int, i) == m0.entry(self.inner.trap_ctx.0 as int, i));
                }
            }
        }
        Task {
            pid,
            kernel_stack,
            inner: TaskInner {
                trap_ctx,
                task_ctx: TaskContext::new(trap_return, kernel_stack_top),
                task_status: TaskStatus::Ready,
                memory,
            },
        }
    }

    /// Replaces the task's address space by `memory`, whose trap context
    /// page gets the context a program starts with (see `new`), on the
    /// task's own kernel stack.
    pub fn exec(
        &mut self,
        memory: PageTable,
        kernel: &PageTable,
        mem: &mut PhysMemory,
        fa: &mut StackFrameAllocator,
        entry: usize,
        user_sp: usize,
        trap_handler: usize,
        sstatus: usize,
    )
        requires
            usize::MAX == u64::MAX,
            old(mem).wf(),
            walkable(*old(mem), memory.root()),
            walk(*old(mem), memory.root(), trap_context() / PAGE_SIZE as int) is Some,
            old(mem).has(trap_frame(*old(mem), memory) as int),
            old(self).kernel_stack.owner() * (KERNEL_STACK_SIZE + PAGE_SIZE) + KERNEL_STACK_SIZE <= trampoline(),
            old(self).inner.memory.wf(*old(mem)),
            old(self).inner.memory.owned_by(*old(fa)),
            old(fa).wf(),
        ensures
            final(fa).wf(),
            final(fa).in_use() == old(fa).in_use().difference(old(self).inner.memory.dirs()),
            final(fa).next_fresh() == old(fa).next_fresh(),
            final(fa).limit() == old(fa).limit(),
            frames_within(*old(fa), *old(mem)) ==> frames_within(*final(fa), *final(mem)),
            final(self).pid == old(self).pid,
            final(self).kernel_stack == old(self).kernel_stack,
            final(self).inner.memory == memory,
            final(self).inner.trap_ctx.0 == trap_frame(*old(mem), memory),
            final(self).inner.task_ctx == old(self).inner.task_ctx,
            final(self).inner.task_status == old(self).inner.task_status,
            final(mem).wf(),
            final(mem).first() == old(mem).first(),
            final(mem).count() == old(mem).count(),
            holds_init_context(
                *final(mem),
                final(self).inner.trap_ctx.0,
                entry,
                user_sp,
                satp(kernel.root()),
                stack_top(old(self).kernel_stack.owner()) as usize,
                trap_handler,
                sstatus,
            ),
            forall|q: int, j: int|
                old(mem).has(q) && 0 <= j < 512 && !(q == final(self).inner.trap_ctx.0 && j < CONTEXT_WORDS) ==> #[trigger] final(mem).entry(q, j)
                    == old(mem).entry(q, j),
    {
        let trap_ctx = trap_ctx_ppn(mem, &memory);
        let kernel_satp = kernel.token();
        let inner = self.lock();
        let mut replaced = memory;
        std::mem::swap(&mut inner.memory, &mut replaced);
        inner.trap_ctx = trap_ctx;
        replaced.release(mem, fa);
        let kernel_stack_top = self.kernel_stack.top();
        store_init_context(mem, trap_ctx, entry, user_sp, kernel_satp, kernel_stack_top, trap_handler, sstatus);
    }
}

} // verus!
