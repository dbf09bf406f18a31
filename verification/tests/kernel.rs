use std::cmp::Ordering;

use acore::kernel::config::{FRAME_END, KERNEL_STACK_SIZE, PAGE_SIZE};
use acore::kernel::drivers::sbi::UartPort;
use acore::kernel::drivers::sbi::shutdown_code;
use acore::kernel::mm::address::{PhysAddr, PhysPageNum, VirtPageNum};
use acore::kernel::syscall::fs::{sys_read, sys_write, ReadStep, FD_STDIN, FD_STDOUT};
use acore::kernel::time::timer_setup;
use acore::kernel::trap::trap_return_target;
use acore::kernel::mm::buffer::{buffer_position, read_from_buffer, write_to_buffer};
use acore::kernel::mm::frame_allocator::StackFrameAllocator;
use acore::kernel::mm::heap_allocator::get_alloc_num;
use acore::kernel::mm::memory::PhysMemory;
use acore::kernel::mm::page_table::{PTEFlags, PageTable, PTE_R, PTE_W};
use acore::kernel::syscall::{
    sys_exit, sys_fork, sys_fork_resume, sys_get_time, sys_getpid, sys_waitpid,
    sys_waitpid_resume, sys_yield, syscall, Syscall, SYSCALL_EXIT, SYSCALL_FORK, SYSCALL_WAITPID,
    SYSCALL_WRITE,
};
use acore::kernel::task::manager::TaskManager;
use acore::kernel::task::pid::{Pid, PidAllocator};
use acore::kernel::task::processor::{
    exit_and_yield, run_next, schedule, suspend_and_yield, Processor, ScheduleAction,
};
use acore::kernel::task::scheduler::ScheduleUnit;
use acore::kernel::task::stack::{kernel_stack_position, KernelStack};
use acore::kernel::task::task::{reap, set_status, Task, TaskContext, TaskInner, TaskStatus};
use acore::kernel::trap::context::{
    set_register, step_syscall, TrapContext, KERNEL_SATP_SLOT, KERNEL_SP_SLOT, SEPC_SLOT, SSTATUS_SLOT,
    TRAP_HANDLER_SLOT,
};
use acore::kernel::trap::{finish_syscall, trap_handler, TrapCause, TrapStep};
use std::collections::BTreeMap;

#[test]
fn pids_are_counted_up_and_reused_last_first() {
    let mut a = PidAllocator::new();
    assert_eq!(a.allocate(), Pid(0));
    assert_eq!(a.allocate(), Pid(1));
    assert_eq!(a.allocate(), Pid(2));
    a.dealloc(&Pid(0));
    a.dealloc(&Pid(2));
    assert_eq!(a.allocate(), Pid(2));
    assert_eq!(a.allocate(), Pid(0));
    assert_eq!(a.allocate(), Pid(3));
}

#[test]
fn schedule_units_order_by_pass_with_wrap_around() {
    let a = ScheduleUnit { task: 1, pass: 100 };
    let b = ScheduleUnit { task: 2, pass: 200 };
    assert_eq!(a.cmp(&b), Ordering::Greater);
    assert_eq!(b.cmp(&a), Ordering::Less);
    assert_eq!(a.partial_cmp(&b), Some(Ordering::Greater));
    let c = ScheduleUnit { task: 3, pass: 100 };
    assert_eq!(a.cmp(&c), Ordering::Equal);
    assert!(a.eq(&c));
    assert!(!a.eq(&b));
    // a pass that wrapped around is ahead of one near the top
    let wrapped = ScheduleUnit { task: 4, pass: 5 };
    let high = ScheduleUnit { task: 5, pass: usize::MAX - 5 };
    assert_eq!(wrapped.cmp(&high), Ordering::Less);
    assert_eq!(high.cmp(&wrapped), Ordering::Greater);
}

#[test]
fn kernel_stacks_stack_downward_with_guard_pages() {
    let top0 = usize::MAX - PAGE_SIZE + 1;
    assert_eq!(kernel_stack_position(0), (top0 - KERNEL_STACK_SIZE, top0));
    let step = KERNEL_STACK_SIZE + PAGE_SIZE;
    assert_eq!(kernel_stack_position(3), (top0 - 3 * step - KERNEL_STACK_SIZE, top0 - 3 * step));
}

#[test]
fn buffers_sit_above_the_frames_one_page_each() {
    assert_eq!(buffer_position(0), (FRAME_END, FRAME_END + PAGE_SIZE));
    assert_eq!(buffer_position(5), (FRAME_END + 5 * PAGE_SIZE, FRAME_END + 6 * PAGE_SIZE));
    let mut page = [9usize; 6];
    write_to_buffer(&mut page, &[SYSCALL_EXIT, 4, 7]);
    assert_eq!(page, [SYSCALL_EXIT, 4, 7, 9, 9, 9]);
    let head: [usize; 2] = read_from_buffer(&page);
    assert_eq!(head, [SYSCALL_EXIT, 4]);
}

#[test]
fn heap_tree_has_twice_as_many_entries_as_blocks() {
    assert_eq!(get_alloc_num(0x800000, PAGE_SIZE), 4096);
    assert_eq!(get_alloc_num(16384, 256), 128);
}

#[test]
fn syscalls_decode_their_arguments() {
    assert_eq!(syscall(SYSCALL_WRITE, [1, 0x1000, 5]), Syscall::Write { fd: 1, buf: 0x1000, len: 5 });
    assert_eq!(syscall(SYSCALL_EXIT, [usize::MAX, 0, 0]), Syscall::Exit { exit_code: -1 });
    assert_eq!(syscall(SYSCALL_FORK, [0, 0, 0]), Syscall::Fork);
    assert_eq!(
        syscall(SYSCALL_WAITPID, [usize::MAX, 0x2000, 0]),
        Syscall::Waitpid { pid: -1, exit_code_ptr: 0x2000 }
    );
    assert_eq!(syscall(169, [0, 0, 0]), Syscall::GetTime);
    assert_eq!(syscall(140, [3, 0, 0]), Syscall::SetPriority { prio: 3 });
    assert_eq!(sys_get_time(1_234_567), 123);
}

#[test]
fn contexts_start_at_their_entry_with_cleared_registers() {
    let e = TaskContext::empty();
    assert_eq!((e.ra, e.sp, e.s), (0, 0, [0; 12]));
    let c = TaskContext::new(0x8020_0000, 0x1000);
    assert_eq!((c.ra, c.sp, c.s), (0x8020_0000, 0x1000, [0; 12]));
}

#[test]
fn uart_setup_and_erase() {
    let u = UartPort::new(0x1000_0000);
    assert_eq!(u.lsr(), 0x1000_0005);
    let w = u.start();
    assert_eq!(w[0], (0x1000_0001, 0x00));
    assert_eq!(w[1], (0x1000_0003, 0x80));
    assert_eq!(w[2], (0x1000_0000, 0x03));
    assert_eq!(w[7], (0x1000_0001, 0x02));
    assert_eq!(w.len(), 8);
    assert_eq!(u.send(b'a'), vec![b'a']);
    assert_eq!(u.send(0x7f), vec![8, b' ', 8]);
}

#[test]
fn console_writes_come_from_the_task_pages_and_reads_land_there() {
    let base = 0x80000;
    let mut mem = PhysMemory::new(PhysPageNum(base), 8);
    let mut fa = StackFrameAllocator::new();
    fa.init(PhysPageNum(base), PhysPageNum(base + 8));
    let mut pt = PageTable::new(&mut fa, &mut mem);
    pt.map(&mut mem, &mut fa, VirtPageNum(0x30), PhysPageNum(base + 7), PTEFlags { bits: PTE_R | PTE_W });
    let token = pt.token();
    let (pieces, n) = sys_write(&mem, token, FD_STDOUT, 0x30010, 5);
    assert_eq!(n, 5);
    assert_eq!(pieces, vec![(PhysPageNum(base + 7), 0x10, 0x15)]);
    assert_eq!(sys_read(&mut mem, token, FD_STDIN, 0x30020, 1, 0), ReadStep::Yield);
    assert_eq!(sys_read(&mut mem, token, FD_STDIN, 0x30020, 1, b'x'), ReadStep::Done(1));
    assert_eq!(mem.read_byte(PhysAddr((base + 7) * 0x1000 + 0x20)), b'x');
}

#[test]
fn machine_level_values() {
    assert_eq!(shutdown_code(true), 0x5555);
    assert_eq!(shutdown_code(false), 0x13333);
    assert!(UartPort::can_send(0x60));
    assert!(!UartPort::can_send(0x01));
    assert!(UartPort::can_receive(0x61));
    assert!(!UartPort::can_receive(0x60));
    assert_eq!(timer_setup(2, 1000), (0x02004010, 1_001_000, [0x02004010, 1_000_000]));
    let trampoline = usize::MAX - PAGE_SIZE + 1;
    assert_eq!(trap_return_target(0x8020_0000, 0x8020_0090), (trampoline + 0x90, trampoline - PAGE_SIZE));
}

#[test]
fn the_idle_context_can_be_changed_in_place() {
    let mut p = Processor::new();
    p.idle_task_ctx_ptr().ra = 0x10;
    assert_eq!(p.idle_task_ctx.ra, 0x10);
    assert_eq!(p.cur_task(), None);
}

#[test]
fn known_system_calls() {
    assert!(acore::kernel::syscall::supported(SYSCALL_WRITE));
    assert!(acore::kernel::syscall::supported(140));
    assert!(!acore::kernel::syscall::supported(0));
    assert!(!acore::kernel::syscall::supported(57));
}

#[test]
fn kernel_stacks_fit_below_the_trampoline_up_to_a_bound() {
    let step = KERNEL_STACK_SIZE + PAGE_SIZE;
    let room = usize::MAX - PAGE_SIZE + 1 - KERNEL_STACK_SIZE;
    assert!(acore::kernel::task::stack::stack_fits(0));
    assert!(acore::kernel::task::stack::stack_fits(room / step));
    assert!(!acore::kernel::task::stack::stack_fits(room / step + 1));
}

const BASE: usize = 0x80000;
const TRAP_VPN: usize = (usize::MAX - 2 * PAGE_SIZE + 1) / PAGE_SIZE;

/// Memory of 64 frames, an allocator over its first 48 and the kernel
/// address space; frames from 48 on are left for trap contexts.
struct World {
    mem: PhysMemory,
    fa: StackFrameAllocator,
    kernel: PageTable,
}

fn world() -> World {
    let mut mem = PhysMemory::new(PhysPageNum(BASE), 64);
    let mut fa = StackFrameAllocator::new();
    fa.init(PhysPageNum(BASE), PhysPageNum(BASE + 48));
    let kernel = PageTable::new(&mut fa, &mut mem);
    World { mem, fa, kernel }
}

/// How many frames the allocator can still hand out.
fn free_frames_of(fa: &StackFrameAllocator) -> usize {
    (0..=64).take_while(|&n| fa.free_at_least(n)).last().unwrap()
}

fn top_of(pid: usize) -> usize {
    kernel_stack_position(pid).1
}

/// An address space mapping its trap context page to frame `BASE + trap`.
fn space(w: &mut World, trap: usize) -> PageTable {
    let mut pt = PageTable::new(&mut w.fa, &mut w.mem);
    pt.map(&mut w.mem, &mut w.fa, VirtPageNum(TRAP_VPN), PhysPageNum(BASE + trap), PTEFlags { bits: PTE_R | PTE_W });
    pt
}

/// A task that only the scheduler looks at.
fn bare_task(w: &mut World, pid: usize) -> Task {
    Task {
        pid,
        kernel_stack: KernelStack::new(pid, &mut w.kernel, &mut w.mem, &mut w.fa),
        inner: TaskInner {
            trap_ctx: PhysPageNum(0),
            task_ctx: TaskContext::new(0, 0),
            task_status: TaskStatus::Ready,
            memory: PageTable::from_token(0),
        },
    }
}

fn table(w: &mut World, pids: &[usize]) -> BTreeMap<usize, Task> {
    let mut t = BTreeMap::new();
    for &pid in pids {
        t.insert(pid, bare_task(w, pid));
    }
    t
}

/// Process `pid` of a program entered at 0x10000 with its stack at 0x20000.
fn program(w: &mut World, pid: usize, trap: usize) -> Task {
    let pt = space(w, trap);
    Task::new(pt, &mut w.kernel, &mut w.mem, &mut w.fa, pid, 0x4000, 0x1_0000, 0x2_0000, 0x8020_1000, 0x20)
}

fn status(tasks: &BTreeMap<usize, Task>, pid: usize) -> TaskStatus {
    tasks.get(&pid).unwrap().inner.task_status
}

#[test]
fn kernel_stacks_are_mapped_readable_and_writable() {
    let mut w = world();
    let s = KernelStack::new(3, &mut w.kernel, &mut w.mem, &mut w.fa);
    assert_eq!(s.top(), top_of(3));
    let (bottom, top) = kernel_stack_position(3);
    assert_eq!(top - bottom, KERNEL_STACK_SIZE);
    let v0 = VirtPageNum(bottom / PAGE_SIZE);
    let v1 = VirtPageNum(bottom / PAGE_SIZE + 1);
    let e0 = w.kernel.translate(&w.mem, v0).unwrap();
    let e1 = w.kernel.translate(&w.mem, v1).unwrap();
    for e in [e0, e1] {
        assert!(e.is_valid() && e.readable() && e.writable() && !e.executable());
        assert!(w.mem.holds(e.ppn()));
    }
    assert_ne!(e0.ppn(), e1.ppn());
    // the page between stacks stays unmapped
    let guard = VirtPageNum(top / PAGE_SIZE);
    assert!(w.kernel.translate(&w.mem, guard).map_or(true, |e| !e.is_valid()));
    let other = KernelStack::new(4, &mut w.kernel, &mut w.mem, &mut w.fa);
    assert_eq!(other.top(), top_of(4));
    assert!(w.kernel.translate(&w.mem, v0).unwrap().is_valid());
}

#[test]
fn frames_come_from_the_range_and_are_counted() {
    let mut fa = StackFrameAllocator::new();
    fa.init(PhysPageNum(10), PhysPageNum(13));
    assert!(fa.free_at_least(3));
    assert!(!fa.free_at_least(4));
    assert_eq!(fa.allocate(), Some(PhysPageNum(10)));
    assert!(fa.free_at_least(2) && !fa.free_at_least(3));
    fa.dealloc(PhysPageNum(10));
    assert!(fa.free_at_least(3));
    let mut w = world();
    let root_free = w.kernel.frames_to_map(&w.mem, VirtPageNum(TRAP_VPN));
    assert_eq!(root_free, 2);
    let pt = space(&mut w, 50);
    assert_eq!(pt.frames_to_map(&w.mem, VirtPageNum(TRAP_VPN - 1)), 0);
    assert_eq!(pt.frames_to_map(&w.mem, VirtPageNum(0)), 2);
}

#[test]
fn ready_tasks_run_in_order_unless_the_manager_decides() {
    let mut w = world();
    let mut m = TaskManager::new();
    let mut p = Processor::new();
    let mut tasks = table(&mut w, &[4, 7, 9]);
    m.push(4);
    m.push(7);
    m.insert_task(9);
    assert_eq!(m.size(), 2);
    assert_eq!(run_next(&mut m, &mut p, &mut tasks), Some(4));
    assert_eq!(p.cur_task(), Some(4));
    assert_eq!(status(&tasks, 4), TaskStatus::Running);
    assert_eq!(status(&tasks, 7), TaskStatus::Ready);
    m.set_server(vec![1, -1, 9, 12]);
    assert!(m.server());
    assert_eq!(m.get_front(), Some(1));
    assert_eq!(m.get_front(), Some(7));
    assert_eq!(m.get_front(), Some(9));
    assert_eq!(m.get_front(), None);
    assert!(!m.server());
    assert_eq!(m.get_front(), None);
    assert_eq!(m.find_task(9), Some(9));
    m.remove_task(9);
    assert_eq!(m.find_task(9), None);
    assert_eq!(run_next(&mut m, &mut p, &mut tasks), None);
    assert_eq!(p.cur_task(), Some(4));
}

#[test]
fn statuses_change_only_for_tasks_in_the_table() {
    let mut w = world();
    let mut tasks = table(&mut w, &[2]);
    set_status(&mut tasks, 2, TaskStatus::Zombie);
    assert_eq!(status(&tasks, 2), TaskStatus::Zombie);
    set_status(&mut tasks, 3, TaskStatus::Running);
    assert_eq!(tasks.len(), 1);
    assert!(tasks.get(&3).is_none());
}

#[test]
fn yielding_marks_ready_and_requeues_the_running_task() {
    let mut w = world();
    let mut m = TaskManager::new();
    let mut p = Processor::new();
    let mut tasks = table(&mut w, &[3]);
    m.push(3);
    run_next(&mut m, &mut p, &mut tasks);
    assert_eq!(status(&tasks, 3), TaskStatus::Running);
    assert_eq!(sys_getpid(&p), 3);
    assert_eq!(sys_yield(&mut m, &mut p, &mut tasks), (ScheduleAction::Yield { pid: 3 }, 0));
    assert_eq!(status(&tasks, 3), TaskStatus::Ready);
    assert_eq!(p.cur_task(), None);
    assert_eq!(m.size(), 1);
    assert_eq!(run_next(&mut m, &mut p, &mut tasks), Some(3));
    assert_eq!(status(&tasks, 3), TaskStatus::Running);
    // with a request pending the task is marked ready but not queued
    m.set_server(vec![1]);
    assert_eq!(suspend_and_yield(&mut m, &mut p, &mut tasks), ScheduleAction::Yield { pid: 3 });
    assert_eq!(status(&tasks, 3), TaskStatus::Ready);
    assert_eq!(m.size(), 0);
    p.cur = Some(3);
    assert_eq!(schedule(&mut m, &mut p, &mut tasks, true, 0), ScheduleAction::Yield { pid: 3 });
    assert_eq!(m.size(), 0);
}

#[test]
fn exiting_unregisters_drops_and_reports_to_the_manager() {
    let mut w = world();
    let mut m = TaskManager::new();
    let mut p = Processor::new();
    let mut tasks = table(&mut w, &[0, 1]);
    let t5 = program(&mut w, 5, 50);
    tasks.insert(5, t5);
    m.insert_task(5);
    p.cur = Some(5);
    let act = sys_exit(&mut m, &mut p, &mut tasks, 3);
    assert_eq!(act, ScheduleAction::Exit { pid: 5, message: [SYSCALL_EXIT, 5, 3] });
    assert_eq!(m.find_task(5), None);
    // the task stays in the table until it is reaped
    assert!(tasks.get(&5).is_some());
    let before = free_frames_of(&w.fa);
    reap(&mut tasks, 5, &mut w.kernel, &mut w.mem, &mut w.fa);
    assert!(tasks.get(&5).is_none());
    assert_eq!(tasks.len(), 2);
    // three pages of its address space and two stack frames come back
    assert_eq!(free_frames_of(&w.fa), before + 5);
    let (bottom, _) = kernel_stack_position(5);
    for v in [bottom / PAGE_SIZE, bottom / PAGE_SIZE + 1] {
        assert!(w.kernel.translate(&w.mem, VirtPageNum(v)).map_or(true, |e| !e.is_valid()));
    }
    // the other stacks stay mapped
    let (bottom1, _) = kernel_stack_position(1);
    assert!(w.kernel.translate(&w.mem, VirtPageNum(bottom1 / PAGE_SIZE)).unwrap().is_valid());
    // reaping a pid the table does not hold changes nothing
    reap(&mut tasks, 5, &mut w.kernel, &mut w.mem, &mut w.fa);
    assert_eq!(free_frames_of(&w.fa), before + 5);
    assert_eq!(m.get_front(), Some(1));
    p.cur = Some(0);
    assert_eq!(exit_and_yield(&mut m, &mut p, &mut tasks, 0), ScheduleAction::Shutdown { failure: false });
    assert_eq!(tasks.len(), 2);
    p.cur = Some(0);
    assert_eq!(schedule(&mut m, &mut p, &mut tasks, false, 2), ScheduleAction::Shutdown { failure: true });
    assert_eq!(p.take_cur_task(), None);
}

#[test]
fn new_tasks_start_with_the_program_context() {
    let mut w = world();
    let pt = space(&mut w, 50);
    let token = pt.token();
    let kernel_token = w.kernel.token();
    let mut t = Task::new(pt, &mut w.kernel, &mut w.mem, &mut w.fa, 2, 0x4000, 0x1_0000, 0x2_0000, 0x8020_1000, 0x20);
    let frame = PhysPageNum(BASE + 50);
    assert_eq!(t.pid, 2);
    assert_eq!(t.inner.trap_ctx(), frame);
    assert_eq!(t.inner.task_status, TaskStatus::Ready);
    assert_eq!(t.inner.task_ctx.ra, 0x4000);
    assert_eq!(t.inner.task_ctx.sp, top_of(2));
    assert_eq!(t.kernel_stack.top(), top_of(2));
    assert_eq!(t.inner.user_token(), token);
    for i in 0..32 {
        let want = if i == 2 { 0x2_0000 } else { 0 };
        assert_eq!(w.mem.read(frame, i), want);
    }
    assert_eq!(w.mem.read(frame, SSTATUS_SLOT), 0x20);
    assert_eq!(w.mem.read(frame, SEPC_SLOT), 0x1_0000);
    assert_eq!(w.mem.read(frame, KERNEL_SATP_SLOT), kernel_token as u64);
    assert_eq!(w.mem.read(frame, KERNEL_SP_SLOT), top_of(2) as u64);
    assert_eq!(w.mem.read(frame, TRAP_HANDLER_SLOT), 0x8020_1000);
    let (bottom, _) = kernel_stack_position(2);
    assert!(w.kernel.translate(&w.mem, VirtPageNum(bottom / PAGE_SIZE)).unwrap().is_valid());
    t.lock().task_status = TaskStatus::Running;
    assert_eq!(t.inner.task_status, TaskStatus::Running);
}

#[test]
fn exec_gives_a_fresh_program_context_on_the_same_stack() {
    let mut w = world();
    let mut t = program(&mut w, 3, 50);
    t.lock().task_status = TaskStatus::Running;
    let pt2 = space(&mut w, 51);
    let before = free_frames_of(&w.fa);
    t.exec(pt2, &w.kernel, &mut w.mem, &mut w.fa, 0x5_0000, 0x6_0000, 0x8020_1000, 0x20);
    // the pages of the replaced address space come back
    assert_eq!(free_frames_of(&w.fa), before + 3);
    let frame = PhysPageNum(BASE + 51);
    assert_eq!(t.pid, 3);
    assert_eq!(t.inner.trap_ctx(), frame);
    assert_eq!(t.inner.task_status, TaskStatus::Running);
    assert_eq!(t.inner.task_ctx.ra, 0x4000);
    assert_eq!(w.mem.read(frame, 2), 0x6_0000);
    assert_eq!(w.mem.read(frame, SEPC_SLOT), 0x5_0000);
    assert_eq!(w.mem.read(frame, KERNEL_SP_SLOT), top_of(3) as u64);
    assert_eq!(w.mem.read(frame, KERNEL_SATP_SLOT), w.kernel.token() as u64);
}

#[test]
fn fork_and_waitpid_hand_the_processor_to_the_manager() {
    let mut w = world();
    let mut m = TaskManager::new();
    let mut p = Processor::new();
    let mut tasks = BTreeMap::new();
    let parent = program(&mut w, 6, 50);
    tasks.insert(6, parent);
    let pf = PhysPageNum(BASE + 50);
    set_register(&mut w.mem, pf, 10, 0x77);
    set_register(&mut w.mem, pf, SEPC_SLOT, 0x1_0040);
    p.cur = Some(6);
    let call = sys_fork(&mut m, &mut p, &mut tasks);
    assert_eq!(call.message, [SYSCALL_FORK, 6]);
    assert_eq!(call.action, ScheduleAction::Yield { pid: 6 });
    assert_eq!(status(&tasks, 6), TaskStatus::Ready);
    assert_eq!(m.get_front(), Some(1));
    // the parent's turn, which this manager does not know by pid
    assert_eq!(m.get_front(), None);
    assert!(!m.server());
    // the child's address space, with the parent's trap context copied
    let child_pt = space(&mut w, 51);
    let cf = PhysPageNum(BASE + 51);
    for i in 0..37 {
        let word = w.mem.read(pf, i);
        w.mem.write(cf, i, word);
    }
    p.cur = Some(6);
    let r = sys_fork_resume(&mut m, &p, &mut tasks, &mut w.kernel, &mut w.mem, &mut w.fa, 8, child_pt, 0x4000);
    assert_eq!(r, 8);
    assert_eq!(m.find_task(8), Some(8));
    assert_eq!(m.size(), 1);
    let child = tasks.get(&8).unwrap();
    assert_eq!(child.pid, 8);
    assert_eq!(child.inner.trap_ctx(), cf);
    assert_eq!(child.inner.task_status, TaskStatus::Ready);
    assert_eq!(child.inner.task_ctx.sp, top_of(8));
    assert_eq!(w.mem.read(cf, 10), 0);
    assert_eq!(w.mem.read(pf, 10), 0x77);
    assert_eq!(w.mem.read(cf, KERNEL_SP_SLOT), top_of(8) as u64);
    assert_eq!(w.mem.read(pf, KERNEL_SP_SLOT), top_of(6) as u64);
    assert_eq!(w.mem.read(cf, SEPC_SLOT), 0x1_0040);
    assert_eq!(w.mem.read(cf, 2), 0x2_0000);
    let (bottom, _) = kernel_stack_position(8);
    assert!(w.kernel.translate(&w.mem, VirtPageNum(bottom / PAGE_SIZE + 1)).unwrap().is_valid());
    p.cur = Some(6);
    let wp = sys_waitpid(&mut m, &mut p, &mut tasks, -1);
    assert_eq!(wp.message, [SYSCALL_WAITPID, 6, usize::MAX]);
    assert_eq!(wp.action, ScheduleAction::Yield { pid: 6 });
    assert_eq!(sys_waitpid_resume([0, 0, 0]), (-1, None));
    assert_eq!(sys_waitpid_resume([1, usize::MAX, 0]), (-2, None));
    assert_eq!(sys_waitpid_resume([1, 8, 3]), (8, Some(3)));
}

#[test]
fn system_call_traps_step_past_ecall_and_return_in_a0() {
    let mut w = world();
    let mut m = TaskManager::new();
    let mut p = Processor::new();
    let mut tasks = BTreeMap::new();
    let t = program(&mut w, 4, 50);
    tasks.insert(4, t);
    let f = PhysPageNum(BASE + 50);
    set_register(&mut w.mem, f, 17, SYSCALL_WRITE);
    set_register(&mut w.mem, f, 10, 1);
    set_register(&mut w.mem, f, 11, 0x3000);
    set_register(&mut w.mem, f, 12, 5);
    p.cur = Some(4);
    let step = trap_handler(TrapCause::UserEnvCall, &mut m, &mut p, &mut tasks, &mut w.mem);
    assert_eq!(step, TrapStep::Syscall { id: SYSCALL_WRITE, args: [1, 0x3000, 5] });
    assert_eq!(w.mem.read(f, SEPC_SLOT), 0x1_0004);
    assert_eq!(p.cur_task(), Some(4));
    finish_syscall(&p, &tasks, &mut w.mem, -1);
    assert_eq!(w.mem.read(f, 10), u64::MAX);
    assert_eq!(w.mem.read(f, 11), 0x3000);
    assert_eq!(step_syscall(&mut w.mem, f), (SYSCALL_WRITE, [u64::MAX as usize, 0x3000, 5]));
    assert_eq!(w.mem.read(f, SEPC_SLOT), 0x1_0008);
}

#[test]
fn faults_end_the_task_with_code_zero_and_ticks_yield() {
    let mut w = world();
    let mut m = TaskManager::new();
    let mut p = Processor::new();
    let mut tasks = table(&mut w, &[0, 1, 5, 6]);
    let mem = &mut w.mem;
    m.insert_task(5);
    p.cur = Some(5);
    let step = trap_handler(TrapCause::StorePageFault, &mut m, &mut p, &mut tasks, mem);
    assert_eq!(step, TrapStep::Switch(ScheduleAction::Exit { pid: 5, message: [SYSCALL_EXIT, 5, 0] }));
    assert!(tasks.get(&5).is_some());
    assert_eq!(m.find_task(5), None);
    p.cur = Some(6);
    let step = trap_handler(TrapCause::IllegalInstruction, &mut m, &mut p, &mut tasks, mem);
    assert_eq!(step, TrapStep::Switch(ScheduleAction::Exit { pid: 6, message: [SYSCALL_EXIT, 6, 0] }));
    p.cur = Some(0);
    let step = trap_handler(TrapCause::LoadFault, &mut m, &mut p, &mut tasks, mem);
    assert_eq!(step, TrapStep::Switch(ScheduleAction::Shutdown { failure: false }));
    p.cur = Some(1);
    set_status(&mut tasks, 1, TaskStatus::Running);
    let step = trap_handler(TrapCause::SupervisorSoft, &mut m, &mut p, &mut tasks, mem);
    assert_eq!(step, TrapStep::Switch(ScheduleAction::Yield { pid: 1 }));
    assert_eq!(status(&tasks, 1), TaskStatus::Ready);
    assert_eq!(m.size(), 1);
    p.cur = Some(1);
    let step = trap_handler(TrapCause::Other { code: 5 }, &mut m, &mut p, &mut tasks, mem);
    assert_eq!(step, TrapStep::Unsupported);
    assert_eq!(p.cur_task(), Some(1));
}

#[test]
fn stored_contexts_land_word_by_word() {
    let mut w = world();
    let c = TrapContext::app_init_context(0x1_0000, 0x2_0000, 3, 4, 5, 6);
    assert_eq!(c.x[2], 0x2_0000);
    assert_eq!(c.x[10], 0);
    let f = PhysPageNum(BASE + 60);
    w.mem.write(f, 40, 9);
    c.store(&mut w.mem, f);
    assert_eq!(w.mem.read(f, 2), 0x2_0000);
    assert_eq!(w.mem.read(f, SEPC_SLOT), 0x1_0000);
    assert_eq!(w.mem.read(f, KERNEL_SATP_SLOT), 3);
    assert_eq!(w.mem.read(f, KERNEL_SP_SLOT), 4);
    assert_eq!(w.mem.read(f, TRAP_HANDLER_SLOT), 5);
    assert_eq!(w.mem.read(f, SSTATUS_SLOT), 6);
    assert_eq!(w.mem.read(f, 40), 9);
}
