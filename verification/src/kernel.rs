pub mod config;
pub mod drivers;
pub mod mm;
pub mod syscall;
pub mod task;
pub mod time;
pub mod trap;
