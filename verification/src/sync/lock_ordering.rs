//! Lock-ordering rules and the state that checks them.
//!
//! Locks are taken in this order: the port table, the task table, the scheduler
//! state, per-CPU runqueues in ascending CPU order, per-port locks, per-task state.
use vstd::prelude::*;

verus! {

/// Which of the global locks are currently held.
#[derive(Debug, Clone, Copy, PartialEq, Eq, Structural)]
pub struct LockOrderState {
    /// The port table lock is held
    pub port_table_held: bool,
    /// The task table lock is held
    pub task_table_held: bool,
    /// The scheduler lock is held
    pub sched_held: bool,
}

impl LockOrderState {
    /// No lock held.
    pub fn new() -> (r: Self)
        ensures
            !r.port_table_held && !r.task_table_held && !r.sched_held,
    {
        LockOrderState { port_table_held: false, task_table_held: false, sched_held: false }
    }
}

/// Check that no global lock is held before a per-object lock is taken.
pub fn assert_no_global_locks_held(state: &LockOrderState)
    requires
        !state.port_table_held,
        !state.task_table_held,
        !state.sched_held,
{
}

/// Check that two per-CPU locks are taken in ascending CPU order.
pub fn assert_cpu_id_order(first_cpu: usize, second_cpu: usize)
    requires
        first_cpu < second_cpu,
{
}

/// Record that the port table lock was taken.
pub fn mark_port_table_lock_acquired(state: &mut LockOrderState)
    ensures
        *final(state) == (LockOrderState { port_table_held: true, ..*old(state) }),
{
    state.port_table_held = true;
}

/// Record that the port table lock was released.
pub fn mark_port_table_lock_released(state: &mut LockOrderState)
    ensures
        *final(state) == (LockOrderState { port_table_held: false, ..*old(state) }),
{
    state.port_table_held = false;
}

/// Record that the task table lock was taken.
pub fn mark_task_table_lock_acquired(state: &mut LockOrderState)
    ensures
        *final(state) == (LockOrderState { task_table_held: true, ..*old(state) }),
{
    state.task_table_held = true;
}

/// Record that the task table lock was released.
pub fn mark_task_table_lock_released(state: &mut LockOrderState)
    ensures
        *final(state) == (LockOrderState { task_table_held: false, ..*old(state) }),
{
    state.task_table_held = false;
}

/// Record that the scheduler lock was taken.
pub fn mark_sched_lock_acquired(state: &mut LockOrderState)
    ensures
        *final(state) == (LockOrderState { sched_held: true, ..*old(state) }),
{
    state.sched_held = true;
}

/// Record that the scheduler lock was released.
pub fn mark_sched_lock_released(state: &mut LockOrderState)
    ensures
        *final(state) == (LockOrderState { sched_held: false, ..*old(state) }),
{
    state.sched_held = false;
}

/// Order two CPU IDs for locking: the lower one first.
pub fn lock_order(from_cpu: usize, to_cpu: usize) -> (r: (usize, usize))
    requires
        from_cpu != to_cpu,
    ensures
        r.0 < r.1,
        (r.0 == from_cpu && r.1 == to_cpu) || (r.0 == to_cpu && r.1 == from_cpu),
{
    if from_cpu < to_cpu { (from_cpu, to_cpu) } else { (to_cpu, from_cpu) }
}

} // verus!
