//! The core of a single-processor multiprogramming kernel: round-robin task
//! scheduling, trap and system-call dispatch, and per-task address spaces
//! backed by three-level translation tables. Every operation is stated as a
//! contract over a mathematical model of the kernel's state and proved.

pub mod config;
pub mod mm;
pub mod sync;
pub mod timer;
pub mod trap;
pub mod task;
pub mod syscall;
pub mod isolation;
