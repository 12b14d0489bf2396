//! Core of a teaching kernel: task lifecycle, stride scheduling, blocking
//! synchronization primitives, per-task address spaces and the bridge that
//! exposes user memory to the kernel.
pub mod config;
pub mod encode;
pub mod fs;
pub mod mm;
pub mod mutex;
pub mod process;
pub mod queue;
pub mod sched;
pub mod semaphore;
pub mod sync;
pub mod task;
