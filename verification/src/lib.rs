//! A small RISC-V microkernel: allocators, paging, tasks, system calls and the
//! process manager, with their contracts.
pub mod allocator;
pub mod bits;
pub mod kernel;
pub mod layout;
pub mod os;
pub mod user;
