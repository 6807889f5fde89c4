//! Stride scheduling and Banker's-algorithm deadlock detection for a small
//! single-core kernel, with their contracts proved.

pub mod deadlock_detector;
pub mod task;
pub mod fs;
pub mod syscall;
