//! Synchronization bookkeeping: lock-ordering checks, sequence locks and spin locks.
use vstd::prelude::*;

pub mod lock_ordering;
pub mod seqlock;
pub mod spin;

verus! {
} // verus!
