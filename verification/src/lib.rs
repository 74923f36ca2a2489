//! MelloOS kernel core: memory management, scheduling, IPC, signals and
//! device bookkeeping, written as plain data structures with verified contracts.
use vstd::prelude::*;

pub mod init_loader;
pub mod io;
pub mod log;
pub mod metrics;
pub mod mm;
pub mod sched;
pub mod signal;
pub mod sync;
pub mod sys;

verus! {
} // verus!
