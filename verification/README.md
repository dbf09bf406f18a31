# acore

The logic of a small RISC-V (Sv39) microkernel, its user library and a
second minimal kernel, verified with Verus.

- `src/allocator`: the array buddy allocator of the kernel and user heaps
  (an implicit binary tree of largest-free-block sizes) and its usage count.
- `src/os`: the free-list buddy allocator, its intrusive list and page ranges.
- `src/kernel`: frames and physical memory, page table entries and
  three-level page tables, kernel stacks mapped in the kernel address space
  and released when a task is dropped, shared buffers, tasks with their trap contexts and states, the task
  manager, processor and scheduling decisions, system call decoding and the
  process calls, trap handling, the UART register protocol and the timer.
- `src/user`: the decisions of the blocking user calls and the process
  manager's fork, exit and waitpid bookkeeping.
- `app`: the machine side: device registers, global state, heap allocators,
  context switches, trap entry and the user-mode system call entry.
- `tests`: concrete runs of the library.
