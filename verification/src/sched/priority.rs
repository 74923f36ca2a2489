//! Three-level priority scheduler with sleep/wake support.
use vstd::prelude::*;

use crate::sched::queue::{without, TaskQueue, QUEUE_CAPACITY};

verus! {

/// Number of sleeping-task slots.
pub const MAX_SLEEPING: usize = 64;

/// Task priority levels: High > Normal > Low.
#[derive(Copy, Clone, Debug, PartialEq, Eq, Structural)]
pub enum TaskPriority {
    /// Low priority (index 0)
    Low,
    /// Normal priority (index 1, the default)
    Normal,
    /// High priority (index 2)
    High,
}

impl TaskPriority {
    /// Queue index of a priority.
    pub open spec fn spec_index(self) -> usize {
        match self {
            TaskPriority::Low => 0,
            TaskPriority::Normal => 1,
            TaskPriority::High => 2,
        }
    }

    /// Convert a priority to its queue index.
    pub fn as_index(self) -> (r: usize)
        ensures
            r == self.spec_index(),
    {
        match self {
            TaskPriority::Low => 0,
            TaskPriority::Normal => 1,
            TaskPriority::High => 2,
        }
    }
}

impl Default for TaskPriority {
    fn default() -> (r: Self)
        ensures
            r == TaskPriority::Normal,
    {
        TaskPriority::Normal
    }
}

/// A slot of the sleeping-task table.
#[derive(Copy, Clone, Debug, PartialEq, Eq, Structural)]
pub struct SleepingTask {
    pub task_id: usize,
    pub wake_tick: u64,
    pub priority: TaskPriority,
    /// Whether this slot is occupied
    pub valid: bool,
}

impl SleepingTask {
    /// An unoccupied slot: task 0, wake tick 0, normal priority.
    pub fn empty() -> (r: Self)
        ensures
            r == (SleepingTask { task_id: 0, wake_tick: 0, priority: TaskPriority::Normal, valid: false }),
    {
        SleepingTask { task_id: 0, wake_tick: 0, priority: TaskPriority::Normal, valid: false }
    }
}

/// The three ready queues as sequences: (low, normal, high).
pub type QueueViews = (Seq<usize>, Seq<usize>, Seq<usize>);

/// Append a task to the queue of its priority unless that queue is full.
pub open spec fn spec_enqueue(q: QueueViews, task_id: usize, p: TaskPriority) -> QueueViews {
    match p {
        TaskPriority::Low => if q.0.len() < QUEUE_CAPACITY { (q.0.push(task_id), q.1, q.2) } else { q },
        TaskPriority::Normal => if q.1.len() < QUEUE_CAPACITY { (q.0, q.1.push(task_id), q.2) } else { q },
        TaskPriority::High => if q.2.len() < QUEUE_CAPACITY { (q.0, q.1, q.2.push(task_id)) } else { q },
    }
}

/// Enqueue a list of (task, priority) pairs in order.
pub open spec fn spec_enqueue_all(q: QueueViews, items: Seq<(usize, TaskPriority)>) -> QueueViews
    decreases items.len(),
{
    if items.len() == 0 {
        q
    } else {
        spec_enqueue(spec_enqueue_all(q, items.drop_last()), items.last().0, items.last().1)
    }
}

/// The sleeping slots that are due at `tick`, in slot order.
pub open spec fn due_entries(slots: Seq<SleepingTask>, tick: u64) -> Seq<(usize, TaskPriority)>
    decreases slots.len(),
{
    if slots.len() == 0 {
        Seq::empty()
    } else {
        let rest = due_entries(slots.drop_last(), tick);
        let s = slots.last();
        if s.valid && s.wake_tick <= tick { rest.push((s.task_id, s.priority)) } else { rest }
    }
}

/// Slots after every due slot has been released.
pub open spec fn release_due(slots: Seq<SleepingTask>, tick: u64) -> Seq<SleepingTask> {
    slots.map_values(|s: SleepingTask| if s.valid && s.wake_tick <= tick {
        SleepingTask { valid: false, ..s }
    } else {
        s
    })
}

/// Priority scheduler with three ready queues, a sleeping table and a tick counter.
pub struct PriorityScheduler {
    low: TaskQueue,
    normal: TaskQueue,
    high: TaskQueue,
    /// Bit i is set exactly when queue i is non-empty
    non_empty_queues: u8,
    sleeping_tasks: Vec<SleepingTask>,
    current_tick: u64,
    preempt_disable_count: usize,
}

impl PriorityScheduler {
    /// Queues are well formed and the bitmap mirrors which queues hold tasks.
    pub closed spec fn wf(&self) -> bool {
        &&& self.low.wf()
        &&& self.normal.wf()
        &&& self.high.wf()
        &&& self.sleeping_tasks@.len() == MAX_SLEEPING
        &&& self.non_empty_queues < 8
        &&& ((self.non_empty_queues & 1) != 0) == (self.low@.len() > 0)
        &&& ((self.non_empty_queues & 2) != 0) == (self.normal@.len() > 0)
        &&& ((self.non_empty_queues & 4) != 0) == (self.high@.len() > 0)
    }

    /// The ready queues (low, normal, high).
    pub closed spec fn queues(&self) -> QueueViews {
        (self.low@, self.normal@, self.high@)
    }

    /// The sleeping-task slots.
    pub closed spec fn sleeping(&self) -> Seq<SleepingTask> {
        self.sleeping_tasks@
    }

    /// The current tick.
    pub closed spec fn tick_count(&self) -> u64 {
        self.current_tick
    }

    /// How many times preemption has been disabled and not yet re-enabled.
    pub closed spec fn preempt_depth(&self) -> usize {
        self.preempt_disable_count
    }

    /// Create a scheduler with empty queues and no sleeping tasks.
    pub fn new() -> (r: Self)
        ensures
            r.wf(),
            r.queues() == (Seq::<usize>::empty(), Seq::<usize>::empty(), Seq::<usize>::empty()),
            forall|i: int| 0 <= i < MAX_SLEEPING ==> !(#[trigger] r.sleeping()[i]).valid,
            r.tick_count() == 0,
            r.preempt_depth() == 0,
    {
        let mut sleeping_tasks: Vec<SleepingTask> = Vec::new();
        let mut i: usize = 0;
        while i < MAX_SLEEPING
            invariant
                i <= MAX_SLEEPING,
                sleeping_tasks@.len() == i,
                forall|j: int| 0 <= j < i ==> !(#[trigger] sleeping_tasks@[j]).valid,
            decreases MAX_SLEEPING - i,
        {
            sleeping_tasks.push(SleepingTask::empty());
            i = i + 1;
        }
        let r = PriorityScheduler {
            low: TaskQueue::new(),
            normal: TaskQueue::new(),
            high: TaskQueue::new(),
            non_empty_queues: 0,
            sleeping_tasks,
            current_tick: 0,
            preempt_disable_count: 0,
        };
        assert((0u8 & 1) == 0 && (0u8 & 2) == 0 && (0u8 & 4) == 0) by (bit_vector);
        r
    }

    /// Add a task to the queue of its priority; false when that queue is full.
    pub fn enqueue_task(&mut self, task_id: usize, priority: TaskPriority) -> (r: bool)
        requires
            old(self).wf(),
        ensures
            final(self).wf(),
            final(self).queues() == spec_enqueue(old(self).queues(), task_id, priority),
            r == (final(self).queues() != old(self).queues()),
            r == (match priority {
                TaskPriority::Low => old(self).queues().0.len() < QUEUE_CAPACITY,
                TaskPriority::Normal => old(self).queues().1.len() < QUEUE_CAPACITY,
                TaskPriority::High => old(self).queues().2.len() < QUEUE_CAPACITY,
            }),
            final(self).sleeping() == old(self).sleeping(),
            final(self).tick_count() == old(self).tick_count(),
            final(self).preempt_depth() == old(self).preempt_depth(),
    {
        let b = self.non_empty_queues;
        match priority {
            TaskPriority::Low => {
                let ok = self.low.push_back(task_id);
                if ok {
                    self.non_empty_queues = b | 1;
                    assert(b < 8 ==> (b | 1) < 8 && (b | 1) & 1 != 0 && ((b | 1) & 2) == (b & 2)
                        && ((b | 1) & 4) == (b & 4)) by (bit_vector);
                    assert(self.low@.len() > 0);
                    assert(self.low@ != old(self).low@);
                }
                ok
            },
            TaskPriority::Normal => {
                let ok = self.normal.push_back(task_id);
                if ok {
                    self.non_empty_queues = b | 2;
                    assert(b < 8 ==> (b | 2) < 8 && (b | 2) & 2 != 0 && ((b | 2) & 1) == (b & 1)
                        && ((b | 2) & 4) == (b & 4)) by (bit_vector);
                    assert(self.normal@.len() > 0);
                    assert(self.normal@ != old(self).normal@);
                }
                ok
            },
            TaskPriority::High => {
                let ok = self.high.push_back(task_id);
                if ok {
                    self.non_empty_queues = b | 4;
                    assert(b < 8 ==> (b | 4) < 8 && (b | 4) & 4 != 0 && ((b | 4) & 1) == (b & 1)
                        && ((b | 4) & 2) == (b & 2)) by (bit_vector);
                    assert(self.high@.len() > 0);
                    assert(self.high@ != old(self).high@);
                }
                ok
            },
        }
    }

    /// Remove and return the front task of the highest non-empty priority queue.
    pub fn select_next(&mut self) -> (r: Option<usize>)
        requires
            old(self).wf(),
        ensures
            final(self).wf(),
            final(self).sleeping() == old(self).sleeping(),
            final(self).tick_count() == old(self).tick_count(),
            final(self).preempt_depth() == old(self).preempt_depth(),
            ({
                let q = old(self).queues();
                if q.2.len() > 0 {
                    r == Some(q.2[0]) && final(self).queues() == (q.0, q.1, q.2.drop_first())
                } else if q.1.len() > 0 {
                    r == Some(q.1[0]) && final(self).queues() == (q.0, q.1.drop_first(), q.2)
                } else if q.0.len() > 0 {
                    r == Some(q.0[0]) && final(self).queues() == (q.0.drop_first(), q.1, q.2)
                } else {
                    r is None && final(self).queues() == q
                }
            }),
    {
        let b = self.non_empty_queues;
        if (b & 4) != 0 {
            let t = self.high.pop_front();
            if self.high.is_empty() {
                self.non_empty_queues = b & !4u8;
                assert(b < 8 ==> (b & !4u8) < 8 && (b & !4u8) & 4 == 0 && ((b & !4u8) & 1) == (b & 1)
                    && ((b & !4u8) & 2) == (b & 2)) by (bit_vector);
            }
            return t;
        }
        if (b & 2) != 0 {
            let t = self.normal.pop_front();
            if self.normal.is_empty() {
                self.non_empty_queues = b & !2u8;
                assert(b < 8 ==> (b & !2u8) < 8 && (b & !2u8) & 2 == 0 && ((b & !2u8) & 1) == (b & 1)
                    && ((b & !2u8) & 4) == (b & 4)) by (bit_vector);
            }
            return t;
        }
        if (b & 1) != 0 {
            let t = self.low.pop_front();
            if self.low.is_empty() {
                self.non_empty_queues = b & !1u8;
                assert(b < 8 ==> (b & !1u8) < 8 && (b & !1u8) & 1 == 0 && ((b & !1u8) & 2) == (b & 2)
                    && ((b & !1u8) & 4) == (b & 4)) by (bit_vector);
            }
            return t;
        }
        None
    }

    /// Whether all ready queues are empty.
    pub fn is_empty(&self) -> (r: bool)
        requires
            self.wf(),
        ensures
            r == (self.queues().0.len() == 0 && self.queues().1.len() == 0
                && self.queues().2.len() == 0),
    {
        let b = self.non_empty_queues;
        assert(b < 8 ==> ((b == 0) == ((b & 1) == 0 && (b & 2) == 0 && (b & 4) == 0))) by (bit_vector);
        b == 0
    }

    /// Total number of ready tasks.
    pub fn len(&self) -> (r: usize)
        requires
            self.wf(),
        ensures
            r == self.queues().0.len() + self.queues().1.len() + self.queues().2.len(),
    {
        self.low.len() + self.normal.len() + self.high.len()
    }

    /// Take every occurrence of `task_id` out of the ready queues.
    fn remove_from_queues(&mut self, task_id: usize)
        requires
            old(self).wf(),
        ensures
            final(self).wf(),
            final(self).queues() == (
                without(old(self).queues().0, task_id),
                without(old(self).queues().1, task_id),
                without(old(self).queues().2, task_id),
            ),
            final(self).sleeping() == old(self).sleeping(),
            final(self).tick_count() == old(self).tick_count(),
            final(self).preempt_depth() == old(self).preempt_depth(),
    {
        self.low.remove_all(task_id);
        self.normal.remove_all(task_id);
        self.high.remove_all(task_id);
        let l: u8 = if self.low.is_empty() { 0 } else { 1 };
        let n: u8 = if self.normal.is_empty() { 0 } else { 2 };
        let h: u8 = if self.high.is_empty() { 0 } else { 4 };
        assert((l | n | h) < 8 && (((l | n | h) & 1) != 0) == (l == 1) && (((l | n | h) & 2) != 0) == (n == 2) && (((l
            | n | h) & 4) != 0) == (h == 4)) by (bit_vector)
            requires
                l == 0 || l == 1,
                n == 0 || n == 2,
                h == 0 || h == 4,
        ;
        self.non_empty_queues = l | n | h;
    }

    /// Put a task to sleep for `ticks` ticks in the first free sleeping slot,
    /// taking it out of the ready queues; false (and no change) when every
    /// slot is taken.
    pub fn sleep_task(&mut self, task_id: usize, ticks: u64, priority: TaskPriority) -> (r: bool)
        requires
            old(self).wf(),
            old(self).tick_count() + ticks <= u64::MAX,
        ensures
            final(self).wf(),
            !r ==> final(self).queues() == old(self).queues(),
            r ==> final(self).queues() == (
                without(old(self).queues().0, task_id),
                without(old(self).queues().1, task_id),
                without(old(self).queues().2, task_id),
            ),
            final(self).tick_count() == old(self).tick_count(),
            final(self).preempt_depth() == old(self).preempt_depth(),
            r == exists|i: int| 0 <= i < MAX_SLEEPING && !(#[trigger] old(self).sleeping()[i]).valid,
            !r ==> final(self).sleeping() == old(self).sleeping(),
            r ==> exists|i: int|
                0 <= i < MAX_SLEEPING && !(#[trigger] old(self).sleeping()[i]).valid
                && (forall|j: int| 0 <= j < i ==> (#[trigger] old(self).sleeping()[j]).valid)
                && final(self).sleeping() == old(self).sleeping().update(i, SleepingTask {
                    task_id,
                    wake_tick: (old(self).tick_count() + ticks) as u64,
                    priority,
                    valid: true,
                }),
    {
        let wake_tick = self.current_tick + ticks;
        let mut i: usize = 0;
        while i < MAX_SLEEPING
            invariant
                self == old(self),
                self.wf(),
                wake_tick == old(self).tick_count() + ticks,
                i <= MAX_SLEEPING,
                forall|j: int| 0 <= j < i ==> (#[trigger] self.sleeping_tasks@[j]).valid,
            decreases MAX_SLEEPING - i,
        {
            if !self.sleeping_tasks[i].valid {
                let entry = SleepingTask { task_id, wake_tick, priority, valid: true };
                self.sleeping_tasks.set(i, entry);
                assert(!old(self).sleeping()[i as int].valid);
                assert(self.sleeping() == old(self).sleeping().update(i as int, entry));
                assert(forall|j: int| 0 <= j < i ==> (#[trigger] old(self).sleeping()[j]).valid);
                self.remove_from_queues(task_id);
                return true;
            }
            i = i + 1;
        }
        false
    }

    /// Release every sleeping task whose wake tick has passed and put it back on
    /// its ready queue, in slot order; returns how many were released.
    pub fn wake_sleeping_tasks(&mut self) -> (r: usize)
        requires
            old(self).wf(),
        ensures
            final(self).wf(),
            r == due_entries(old(self).sleeping(), old(self).tick_count()).len(),
            final(self).sleeping() == release_due(old(self).sleeping(), old(self).tick_count()),
            final(self).queues() == spec_enqueue_all(
                old(self).queues(),
                due_entries(old(self).sleeping(), old(self).tick_count()),
            ),
            final(self).tick_count() == old(self).tick_count(),
            final(self).preempt_depth() == old(self).preempt_depth(),
    {
        let current_tick = self.current_tick;
        let ghost slots0 = self.sleeping_tasks@;
        let mut to_wake: Vec<(usize, TaskPriority)> = Vec::new();
        let mut i: usize = 0;
        while i < MAX_SLEEPING
            invariant
                self.wf(),
                current_tick == old(self).current_tick,
                slots0 == old(self).sleeping_tasks@,
                slots0.len() == MAX_SLEEPING,
                self.queues() == old(self).queues(),
                self.current_tick == old(self).current_tick,
                self.preempt_disable_count == old(self).preempt_disable_count,
                i <= MAX_SLEEPING,
                to_wake@ == due_entries(slots0.subrange(0, i as int), current_tick),
                forall|j: int| 0 <= j < i ==> #[trigger] self.sleeping_tasks@[j]
                    == release_due(slots0, current_tick)[j],
                forall|j: int| i <= j < MAX_SLEEPING ==> #[trigger] self.sleeping_tasks@[j] == slots0[j],
            decreases MAX_SLEEPING - i,
        {
            let slot = self.sleeping_tasks[i];
            proof {
                assert(slots0.subrange(0, i + 1).drop_last() =~= slots0.subrange(0, i as int));
            }
            if slot.valid && slot.wake_tick <= current_tick {
                to_wake.push((slot.task_id, slot.priority));
                self.sleeping_tasks.set(i, SleepingTask { valid: false, ..slot });
            }
            i = i + 1;
        }
        proof {
            assert(slots0.subrange(0, MAX_SLEEPING as int) =~= slots0);
            assert(self.sleeping_tasks@ =~= release_due(slots0, current_tick));
        }
        let ghost q0 = self.queues();
        let ghost due = to_wake@;
        let woken = to_wake.len();
        let mut k: usize = 0;
        while k < woken
            invariant
                self.wf(),
                woken == to_wake@.len(),
                due == to_wake@,
                k <= woken,
                self.queues() == spec_enqueue_all(q0, due.subrange(0, k as int)),
                self.sleeping_tasks@ == release_due(slots0, current_tick),
                self.current_tick == old(self).current_tick,
                self.preempt_disable_count == old(self).preempt_disable_count,
            decreases woken - k,
        {
            let (task_id, priority) = to_wake[k];
            proof {
                assert(due.subrange(0, k + 1).drop_last() =~= due.subrange(0, k as int));
            }
            self.enqueue_task(task_id, priority);
            k = k + 1;
        }
        proof {
            assert(due.subrange(0, woken as int) =~= due);
        }
        woken
    }

    /// Advance the tick counter.
    pub fn tick(&mut self)
        requires
            old(self).wf(),
            old(self).tick_count() < u64::MAX,
        ensures
            final(self).wf(),
            final(self).tick_count() == old(self).tick_count() + 1,
            final(self).queues() == old(self).queues(),
            final(self).sleeping() == old(self).sleeping(),
            final(self).preempt_depth() == old(self).preempt_depth(),
    {
        self.current_tick = self.current_tick + 1;
    }

    /// The current tick count.
    pub fn current_tick(&self) -> (r: u64)
        ensures
            r == self.tick_count(),
    {
        self.current_tick
    }

    /// Disable preemption (nestable).
    pub fn preempt_disable(&mut self)
        requires
            old(self).wf(),
            old(self).preempt_depth() < usize::MAX,
        ensures
            final(self).wf(),
            final(self).preempt_depth() == old(self).preempt_depth() + 1,
            final(self).queues() == old(self).queues(),
            final(self).sleeping() == old(self).sleeping(),
            final(self).tick_count() == old(self).tick_count(),
    {
        self.preempt_disable_count = self.preempt_disable_count + 1;
    }

    /// Re-enable preemption; does nothing when it is not disabled.
    pub fn preempt_enable(&mut self)
        requires
            old(self).wf(),
        ensures
            final(self).wf(),
            final(self).preempt_depth() == (if old(self).preempt_depth() > 0 {
                old(self).preempt_depth() - 1
            } else {
                0
            }),
            final(self).queues() == old(self).queues(),
            final(self).sleeping() == old(self).sleeping(),
            final(self).tick_count() == old(self).tick_count(),
    {
        if self.preempt_disable_count > 0 {
            self.preempt_disable_count = self.preempt_disable_count - 1;
        }
    }

    /// Whether preemption is allowed.
    pub fn can_preempt(&self) -> (r: bool)
        ensures
            r == (self.preempt_depth() == 0),
    {
        self.preempt_disable_count == 0
    }
}


/// Slot `j` holds a sleeper due at `tick`.
pub open spec fn due_at(slots: Seq<SleepingTask>, tick: u64, j: int) -> bool {
    0 <= j < slots.len() && slots[j].valid && slots[j].wake_tick <= tick
}

/// `p` is the task and priority of some sleeper due at `tick`.
pub open spec fn from_due_slot(slots: Seq<SleepingTask>, tick: u64, p: (usize, TaskPriority)) -> bool {
    exists|j: int| #[trigger] due_at(slots, tick, j) && p == (slots[j].task_id, slots[j].priority)
}

/// Waking releases exactly the due sleepers, each with the priority it slept
/// at: every pair woken is the task and priority of a valid slot whose wake
/// tick has come, and every such slot's task and priority is woken.
pub proof fn lemma_due_entries_keep_priority(slots: Seq<SleepingTask>, tick: u64)
    ensures
        forall|k: int| 0 <= k < due_entries(slots, tick).len() ==> from_due_slot(slots, tick, #[trigger] due_entries(slots, tick)[k]),
        forall|j: int| #[trigger] due_at(slots, tick, j) ==> due_entries(slots, tick).contains(
            (slots[j].task_id, slots[j].priority),
        ),
    decreases slots.len(),
{
    if slots.len() > 0 {
        let init = slots.drop_last();
        lemma_due_entries_keep_priority(init, tick);
        let rest = due_entries(init, tick);
        let d = due_entries(slots, tick);
        let n = slots.len() - 1;
        let s = slots.last();
        assert(s == slots[n]);
        assert forall|k: int| 0 <= k < d.len() implies from_due_slot(slots, tick, #[trigger] d[k]) by {
            if k < rest.len() {
                assert(d[k] == rest[k]);
                assert(from_due_slot(init, tick, rest[k]));
                let j = choose|j: int| #[trigger] due_at(init, tick, j) && rest[k] == (init[j].task_id, init[j].priority);
                assert(slots[j] == init[j]);
                assert(due_at(slots, tick, j));
            } else {
                assert(d[k] == (slots[n].task_id, slots[n].priority));
                assert(due_at(slots, tick, n));
            }
        }
        assert forall|j: int| #[trigger] due_at(slots, tick, j) implies d.contains((slots[j].task_id, slots[j].priority)) by {
            if j < n {
                assert(init[j] == slots[j]);
                assert(due_at(init, tick, j));
                let k = choose|k: int| 0 <= k < rest.len() && rest[k] == (init[j].task_id, init[j].priority);
                assert(d[k] == rest[k]);
            } else {
                assert(d[rest.len() as int] == (s.task_id, s.priority));
            }
        }
    }
}

} // verus!
