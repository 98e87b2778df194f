//! Process- and memory-management core of a small cooperative kernel.
//!
//! The crate models, for each task, one virtual address space with
//! page-granular mapping, a physical frame allocator, byte-addressed physical
//! memory, and the per-task bookkeeping (syscall counters, start time, run
//! status) that the syscall handlers in [`syscall`] read and update.

pub mod addr;
pub mod perm;
pub mod paging;
pub mod frame;
pub mod space;
pub mod task;
pub mod manager;
pub mod bytes;
pub mod syscall;
pub mod laws;
