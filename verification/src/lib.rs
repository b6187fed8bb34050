//! Kernel services of a teaching operating system, modelled as plain data:
//! a stride scheduler, process-local synchronisation objects with
//! banker's-algorithm deadlock detection, a root-directory file system with
//! per-process descriptor tables, an address-space model for `mmap`/`munmap`/`sbrk`,
//! and the process tree that `fork`/`spawn`/`waitpid`/`exit` maintain.
pub mod banker;
pub mod manager;
pub mod slots;
pub mod sync;
pub mod memory;
pub mod fs;
pub mod process;
