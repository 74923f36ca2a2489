//! System-call support: kernel counters, IPC messages and ports, ioctl
//! validation and the per-process file-descriptor and pipe tables.
use vstd::prelude::*;

pub mod ioctl;
pub mod mount;
pub mod ipc;
pub mod port;
pub mod syscall;
pub mod task_calls;

verus! {

/// Number of syscall IDs with their own counter.
pub const TRACKED_SYSCALLS: usize = 5;

/// Counter value after one increment, wrapping at `usize::MAX`.
pub open spec fn wrap_inc(x: usize) -> usize {
    if x == usize::MAX { 0 } else { (x + 1) as usize }
}

/// Increment a counter, wrapping on overflow.
pub fn counter_inc(x: usize) -> (r: usize)
    ensures
        r == wrap_inc(x),
{
    x.wrapping_add(1)
}

/// Kernel counters for observability.
pub struct KernelMetrics {
    /// Total context switches (voluntary + preemptive)
    pub ctx_switches: usize,
    /// Preemptive context switches only
    pub preemptions: usize,
    /// Per-syscall invocation counts, indexed by syscall ID
    pub syscall_count: Vec<usize>,
    /// Total IPC send operations
    pub ipc_sends: usize,
    /// Total IPC receive operations
    pub ipc_recvs: usize,
    /// Number of times an IPC queue was full
    pub ipc_queue_full: usize,
    /// Tasks put to sleep
    pub sleep_count: usize,
    /// Tasks woken from sleep
    pub wake_count: usize,
    /// Total timer interrupts
    pub timer_ticks: usize,
}

impl KernelMetrics {
    /// One counter per tracked syscall ID.
    pub open spec fn wf(&self) -> bool {
        self.syscall_count@.len() == TRACKED_SYSCALLS
    }

    /// Every counter other than the per-syscall ones is equal in both.
    pub open spec fn same_scalars(&self, other: &KernelMetrics) -> bool {
        &&& self.ctx_switches == other.ctx_switches
        &&& self.preemptions == other.preemptions
        &&& self.ipc_sends == other.ipc_sends
        &&& self.ipc_recvs == other.ipc_recvs
        &&& self.ipc_queue_full == other.ipc_queue_full
        &&& self.sleep_count == other.sleep_count
        &&& self.wake_count == other.wake_count
        &&& self.timer_ticks == other.timer_ticks
    }

    /// All counters at zero.
    pub fn new() -> (r: Self)
        ensures
            r.wf(),
            r.ctx_switches == 0 && r.preemptions == 0 && r.ipc_sends == 0 && r.ipc_recvs == 0
                && r.ipc_queue_full == 0 && r.sleep_count == 0 && r.wake_count == 0
                && r.timer_ticks == 0,
            forall|i: int| 0 <= i < TRACKED_SYSCALLS ==> #[trigger] r.syscall_count@[i] == 0,
    {
        let mut syscall_count: Vec<usize> = Vec::new();
        let mut i: usize = 0;
        while i < TRACKED_SYSCALLS
            invariant
                i <= TRACKED_SYSCALLS,
                syscall_count@.len() == i,
                forall|j: int| 0 <= j < i ==> #[trigger] syscall_count@[j] == 0,
            decreases TRACKED_SYSCALLS - i,
        {
            syscall_count.push(0);
            i = i + 1;
        }
        KernelMetrics {
            ctx_switches: 0,
            preemptions: 0,
            syscall_count,
            ipc_sends: 0,
            ipc_recvs: 0,
            ipc_queue_full: 0,
            sleep_count: 0,
            wake_count: 0,
            timer_ticks: 0,
        }
    }

    /// Count one invocation of `syscall_id`; IDs without a counter are ignored.
    pub fn increment_syscall(&mut self, syscall_id: usize)
        requires
            old(self).wf(),
        ensures
            final(self).wf(),
            final(self).same_scalars(old(self)),
            syscall_id < TRACKED_SYSCALLS ==> final(self).syscall_count@ == old(
                self,
            ).syscall_count@.update(
                syscall_id as int,
                wrap_inc(old(self).syscall_count@[syscall_id as int]),
            ),
            syscall_id >= TRACKED_SYSCALLS ==> final(self).syscall_count@ == old(self).syscall_count@,
    {
        if syscall_id < TRACKED_SYSCALLS {
            let v = counter_inc(self.syscall_count[syscall_id]);
            self.syscall_count.set(syscall_id, v);
        }
    }
}

} // verus!
