pub mod manager;
pub mod pid;
pub mod processor;
pub mod scheduler;
pub mod stack;
pub mod task;
