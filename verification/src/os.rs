//! The first kernel: its heap allocator and memory helpers.
pub mod config;
pub mod mm;
