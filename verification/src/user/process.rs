//! Processes as the manager keeps them.
pub mod buffer;
pub mod manager;
pub mod process;
