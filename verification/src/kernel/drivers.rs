//! Device drivers.
pub mod sbi;
