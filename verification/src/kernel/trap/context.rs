//! The registers a task's trap saves, kept at the start of its trap context
//! page: the 32 general registers, then `sstatus`, `sepc`, the kernel's
//! `satp`, the kernel stack pointer and the trap handler's address.
use vstd::prelude::*;

verus! {

use crate::kernel::mm::address::PhysPageNum;
use crate::kernel::mm::memory::PhysMemory;

pub const SSTATUS_SLOT: usize = 32;

pub const SEPC_SLOT: usize = 33;

pub const KERNEL_SATP_SLOT: usize = 34;

pub const KERNEL_SP_SLOT: usize = 35;

pub const TRAP_HANDLER_SLOT: usize = 36;

/// Entries of the trap context page that the context takes.
pub const CONTEXT_WORDS: usize = 37;

/// The registers a trap saves.
#[derive(Clone, Copy, Debug)]
pub struct TrapContext {
    pub x: [usize; 32],
    pub sstatus: usize,
    pub sepc: usize,
    pub kernel_satp: usize,
    pub kernel_sp: usize,
    pub trap_handler: usize,
}

/// Entry `i` of the context `c` as stored.
pub open spec fn context_word(c: TrapContext, i: int) -> u64 {
    if 0 <= i < 32 {
        c.x@[i] as u64
    } else if i == SSTATUS_SLOT {
        c.sstatus as u64
    } else if i == SEPC_SLOT {
        c.sepc as u64
    } else if i == KERNEL_SATP_SLOT {
        c.kernel_satp as u64
    } else if i == KERNEL_SP_SLOT {
        c.kernel_sp as u64
    } else {
        c.trap_handler as u64
    }
}

/// Frame `frame` of `mem` holds the context `c`.
pub open spec fn holds_context(mem: PhysMemory, frame: usize, c: TrapContext) -> bool {
    forall|i: int| 0 <= i < CONTEXT_WORDS ==> #[trigger] mem.entry(frame as int, i) == context_word(c, i)
}

/// Frame `frame` of `mem` holds the context a program starts with: all
/// registers zero but the stack pointer `x[2] == sp`, resuming at `entry`
/// with status `sstatus`, trapping into `trap_handler` on the stack
/// `kernel_sp` of the address space `kernel_satp`.
pub open spec fn holds_init_context(
    mem: PhysMemory,
    frame: usize,
    entry: usize,
    sp: usize,
    kernel_satp: usize,
    kernel_sp: usize,
    trap_handler: usize,
    sstatus: usize,
) -> bool {
    &&& forall|i: int| 0 <= i < 32 && i != 2 ==> #[trigger] mem.entry(frame as int, i) == 0
    &&& mem.entry(frame as int, 2) == sp as u64
    &&& mem.entry(frame as int, SSTATUS_SLOT as int) == sstatus as u64
    &&& mem.entry(frame as int, SEPC_SLOT as int) == entry as u64
    &&& mem.entry(frame as int, KERNEL_SATP_SLOT as int) == kernel_satp as u64
    &&& mem.entry(frame as int, KERNEL_SP_SLOT as int) == kernel_sp as u64
    &&& mem.entry(frame as int, TRAP_HANDLER_SLOT as int) == trap_handler as u64
}

impl TrapContext {
    /// The context a program starts with: registers zero but the stack
    /// pointer, resuming at `entry` with status `sstatus` (whose previous
    /// privilege is user mode), and trapping into `trap_handler` on the
    /// kernel stack `kernel_sp` of the kernel address space `kernel_satp`.
    pub fn app_init_context(
        entry: usize,
        sp: usize,
        kernel_satp: usize,
        kernel_sp: usize,
        trap_handler: usize,
        sstatus: usize,
    ) -> (c: Self)
        ensures
            forall|i: int| 0 <= i < 32 && i != 2 ==> c.x@[i] == 0,
            c.x@[2] == sp,
            c.sstatus == sstatus,
            c.sepc == entry,
            c.kernel_satp == kernel_satp,
            c.kernel_sp == kernel_sp,
            c.trap_handler == trap_handler,
    {
        let mut x = [0usize; 32];
        x[2] = sp;
        TrapContext { x, sstatus, sepc: entry, kernel_satp, kernel_sp, trap_handler }
    }

    /// Stores the context at the start of frame `frame`; every other entry
    /// of memory stays.
    pub fn store(&self, mem: &mut PhysMemory, frame: PhysPageNum)
        requires
            old(mem).wf(),
            old(mem).has(frame.0 as int),
        ensures
            final(mem).wf(),
            final(mem).first() == old(mem).first(),
            final(mem).count() == old(mem).count(),
            holds_context(*final(mem), frame.0, *self),
            forall|q: int, j: int|
                old(mem).has(q) && 0 <= j < 512 && !(q == frame.0 && j < CONTEXT_WORDS) ==> #[trigger] final(mem).entry(q, j)
                    == old(mem).entry(q, j),
    {
        let mut i: usize = 0;
        while i < CONTEXT_WORDS
            invariant
                i <= CONTEXT_WORDS,
                mem.wf(),
                mem.has(frame.0 as int),
                mem.first() == old(mem).first(),
                mem.count() == old(mem).count(),
                forall|j: int| 0 <= j < i ==> #[trigger] mem.entry(frame.0 as int, j) == context_word(*self, j),
                forall|q: int, j: int|
                    old(mem).has(q) && 0 <= j < 512 && !(q == frame.0 && j < i) ==> #[trigger] mem.entry(q, j)
                        == old(mem).entry(q, j),
            decreases CONTEXT_WORDS - i,
        {
            let w: usize = if i < 32 {
                self.x[i]
            } else if i == SSTATUS_SLOT {
                self.sstatus
            } else if i == SEPC_SLOT {
                self.sepc
            } else if i == KERNEL_SATP_SLOT {
                self.kernel_satp
            } else if i == KERNEL_SP_SLOT {
                self.kernel_sp
            } else {
                self.trap_handler
            };
            mem.write(frame, i, w as u64);
            i = i + 1;
        }
    }
}

/// Frames `a` and `b` of `mem` hold the same trap context.
pub open spec fn same_context(mem: PhysMemory, a: usize, b: usize) -> bool {
    forall|i: int| 0 <= i < CONTEXT_WORDS ==> #[trigger] mem.entry(a as int, i) == mem.entry(b as int, i)
}

/// Stores the context a program starts with at the start of frame `frame`
/// (see `TrapContext::app_init_context`); every other entry of memory stays.
pub fn store_init_context(
    mem: &mut PhysMemory,
    frame: PhysPageNum,
    entry: usize,
    sp: usize,
    kernel_satp: usize,
    kernel_sp: usize,
    trap_handler: usize,
    sstatus: usize,
)
    requires
        old(mem).wf(),
        old(mem).has(frame.0 as int),
    ensures
        final(mem).wf(),
        final(mem).first() == old(mem).first(),
        final(mem).count() == old(mem).count(),
        holds_init_context(*final(mem), frame.0, entry, sp, kernel_satp, kernel_sp, trap_handler, sstatus),
        forall|q: int, j: int|
            old(mem).has(q) && 0 <= j < 512 && !(q == frame.0 && j < CONTEXT_WORDS) ==> #[trigger] final(mem).entry(q, j)
                == old(mem).entry(q, j),
{
    let c = TrapContext::app_init_context(entry, sp, kernel_satp, kernel_sp, trap_handler, sstatus);
    c.store(mem, frame);
    proof {
        assert forall|i: int| 0 <= i < 32 && i != 2 implies #[trigger] mem.entry(frame.0 as int, i) == 0 by {
            assert(mem.entry(frame.0 as int, i) == context_word(c, i));
        }
        assert(mem.entry(frame.0 as int, 2) == context_word(c, 2));
        assert(mem.entry(frame.0 as int, SSTATUS_SLOT as int) == context_word(c, SSTATUS_SLOT as int));
        assert(mem.entry(frame.0 as int, SEPC_SLOT as int) == context_word(c, SEPC_SLOT as int));
        assert(mem.entry(frame.0 as int, KERNEL_SATP_SLOT as int) == context_word(c, KERNEL_SATP_SLOT as int));
        assert(mem.entry(frame.0 as int, KERNEL_SP_SLOT as int) == context_word(c, KERNEL_SP_SLOT as int));
        assert(mem.entry(frame.0 as int, TRAP_HANDLER_SLOT as int) == context_word(c, TRAP_HANDLER_SLOT as int));
    }
}

/// Steps past the `ecall` that trapped: `sepc` in frame `frame` grows by 4.
/// Returns the system call number `x[17]` and its arguments `x[10..13]`.
pub fn step_syscall(mem: &mut PhysMemory, frame: PhysPageNum) -> (r: (usize, [usize; 3]))
    requires
        usize::MAX == u64::MAX,
        old(mem).wf(),
        old(mem).has(frame.0 as int),
        old(mem).entry(frame.0 as int, SEPC_SLOT as int) + 4 <= u64::MAX,
    ensures
        final(mem).wf(),
        final(mem).first() == old(mem).first(),
        final(mem).count() == old(mem).count(),
        final(mem).entry(frame.0 as int, SEPC_SLOT as int) == old(mem).entry(frame.0 as int, SEPC_SLOT as int) + 4,
        forall|q: int, j: int|
            old(mem).has(q) && 0 <= j < 512 && !(q == frame.0 && j == SEPC_SLOT) ==> #[trigger] final(mem).entry(q, j)
                == old(mem).entry(q, j),
        r.0 == old(mem).entry(frame.0 as int, 17),
        r.1@ == seq![
            old(mem).entry(frame.0 as int, 10) as usize,
            old(mem).entry(frame.0 as int, 11) as usize,
            old(mem).entry(frame.0 as int, 12) as usize,
        ],
{
    let sepc = mem.read(frame, SEPC_SLOT);
    mem.write(frame, SEPC_SLOT, sepc + 4);
    let id = mem.read(frame, 17) as usize;
    let args = [mem.read(frame, 10) as usize, mem.read(frame, 11) as usize, mem.read(frame, 12) as usize];
    proof {
        assert(args@ =~= seq![
            old(mem).entry(frame.0 as int, 10) as usize,
            old(mem).entry(frame.0 as int, 11) as usize,
            old(mem).entry(frame.0 as int, 12) as usize,
        ]);
    }
    (id, args)
}

/// Sets register `x[index]` saved in frame `frame` to `value`.
pub fn set_register(mem: &mut PhysMemory, frame: PhysPageNum, index: usize, value: usize)
    requires
        old(mem).wf(),
        old(mem).has(frame.0 as int),
        index < CONTEXT_WORDS,
    ensures
        final(mem).wf(),
        final(mem).first() == old(mem).first(),
        final(mem).count() == old(mem).count(),
        final(mem).entry(frame.0 as int, index as int) == value as u64,
        forall|q: int, j: int|
            old(mem).has(q) && 0 <= j < 512 && !(q == frame.0 && j == index) ==> #[trigger] final(mem).entry(q, j)
                == old(mem).entry(q, j),
{
    mem.write(frame, index, value as u64);
}

} // verus!
