//! Scheduling: task control blocks, priority queues, per-CPU runqueues,
//! process groups and sessions.
//!
//! The scheduler state here is the task table and, for each CPU, its
//! runqueue, current task and idle task. Its operations decide which task
//! runs next, where a new task goes and how tasks move between CPUs; the
//! context switch itself and inter-processor interrupts are carried out by
//! the caller as the results direct.
use vstd::prelude::*;
use vstd::multiset::Multiset;

pub mod context;
pub mod process_group;
pub mod priority;
pub mod queue;
pub mod task;
pub mod timer;

use crate::mm::allocator::BuddyAllocator;
use crate::mm::allocator::{kmalloc, lemma_take_block_none_keeps, size_order, take_block};
use crate::sched::priority::TaskPriority;
use crate::signal::SigAction;
use crate::sched::queue::{TaskQueue, QUEUE_CAPACITY};
use crate::sys::{counter_inc, wrap_inc, KernelMetrics};
use crate::sched::task::{SchedulerError, SchedulerResult, Task, TaskId, TaskState, MAX_SIGNALS, STACK_SIZE};

verus! {

/// Maximum number of tasks supported.
pub const MAX_TASKS: usize = 64;

/// Scheduling state of one CPU.
pub struct CpuSched {
    /// Tasks ready to run on this CPU
    pub runqueue: TaskQueue,
    /// Task running on this CPU, if any
    pub current_task: Option<TaskId>,
    /// Task run when the runqueue is empty
    pub idle_task: TaskId,
}

/// What one CPU's scheduling state holds.
pub struct CpuView {
    /// Tasks ready to run, front first
    pub runqueue: Seq<usize>,
    /// Task running on the CPU, if any
    pub current_task: Option<TaskId>,
    /// Task run when the runqueue is empty
    pub idle_task: TaskId,
}

/// What the scheduler holds.
pub struct SchedView {
    /// Next task ID to assign
    pub next_tid: usize,
    /// Task table, indexed by task ID
    pub tasks: Seq<Option<Task>>,
    /// Per-CPU state, indexed by CPU ID
    pub cpus: Seq<CpuView>,
}

/// Task table and per-CPU runqueues.
pub struct Scheduler {
    next_tid: usize,
    tasks: Vec<Option<Task>>,
    cpus: Vec<CpuSched>,
}

impl View for Scheduler {
    type V = SchedView;

    closed spec fn view(&self) -> SchedView {
        SchedView {
            next_tid: self.next_tid,
            tasks: self.tasks@,
            cpus: Seq::new(
                self.cpus@.len(),
                |i: int|
                    CpuView {
                        runqueue: self.cpus@[i].runqueue@,
                        current_task: self.cpus@[i].current_task,
                        idle_task: self.cpus@[i].idle_task,
                    },
            ),
        }
    }
}

/// The task `id` of the table, if `id` is a table index holding one.
pub open spec fn task_at(tasks: Seq<Option<Task>>, id: int) -> Option<Task> {
    if 0 <= id < tasks.len() {
        tasks[id]
    } else {
        None
    }
}

/// The task has a handler slot for every signal.
pub open spec fn handlers_ok(t: Task) -> bool {
    t.signal_handlers@.len() == MAX_SIGNALS
}

/// The table with the state of task `id` (which it holds) set to `state`.
pub open spec fn with_state(tasks: Seq<Option<Task>>, id: int, state: TaskState) -> Seq<Option<Task>> {
    tasks.update(id, Some(Task { state, ..tasks[id].unwrap() }))
}

impl Scheduler {
    /// Table of `MAX_TASKS` slots, at least one CPU, well-formed runqueues.
    pub closed spec fn wf(&self) -> bool {
        &&& self.tasks@.len() == MAX_TASKS
        &&& self.cpus@.len() >= 1
        &&& forall|i: int| 0 <= i < self.cpus@.len() ==> (#[trigger] self.cpus@[i]).runqueue.wf()
        &&& forall|i: int| 0 <= i < self.tasks@.len() && (#[trigger] self.tasks@[i]) is Some
            ==> handlers_ok(self.tasks@[i].unwrap())
    }

    /// What a well-formed scheduler looks like from outside.
    pub proof fn lemma_wf(&self)
        requires
            self.wf(),
        ensures
            self@.tasks.len() == MAX_TASKS,
            self@.cpus.len() >= 1,
            forall|i: int| 0 <= i < self@.cpus.len() ==> (#[trigger] self@.cpus[i]).runqueue.len() <= QUEUE_CAPACITY,
    {
        assert forall|i: int| 0 <= i < self@.cpus.len() implies (#[trigger] self@.cpus[i]).runqueue.len()
            <= QUEUE_CAPACITY by {
            self.cpus@[i].runqueue.lemma_len_bound();
        }
    }

    /// Set the state of task `id`, which the table holds.
    fn set_state(&mut self, id: TaskId, state: TaskState)
        requires
            old(self).wf(),
            id < MAX_TASKS,
            old(self)@.tasks[id as int] is Some,
        ensures
            final(self).wf(),
            final(self)@ == (SchedView { tasks: with_state(old(self)@.tasks, id as int, state), ..old(self)@ }),
    {
        let mut slot: Option<Task> = None;
        std::mem::swap(&mut slot, &mut self.tasks[id]);
        match slot {
            Some(mut t) => {
                t.state = state;
                let mut s = Some(t);
                std::mem::swap(&mut s, &mut self.tasks[id]);
            },
            None => {},
        }
        assert(self@.cpus =~= old(self)@.cpus);
        assert(self@.tasks =~= with_state(old(self)@.tasks, id as int, state));
    }

    /// Whether the table holds task `id`.
    fn has_task(&self, id: TaskId) -> (r: bool)
        requires
            self.wf(),
        ensures
            r == task_at(self@.tasks, id as int) is Some,
    {
        id < MAX_TASKS && self.tasks[id].is_some()
    }

    /// Number of CPUs.
    pub fn cpu_count(&self) -> (r: usize)
        ensures
            r == self@.cpus.len(),
    {
        self.cpus.len()
    }
}

/// An empty task table but for the idle task.
pub open spec fn idle_only(idle: Task) -> Seq<Option<Task>> {
    Seq::new(MAX_TASKS as nat, |i: int| if i == 0 { Some(idle) } else { None })
}

/// Set up the scheduler for `cpu_count` CPUs: the idle task (ID 0, named
/// "idle", low priority, on the stack at `idle_stack`) in the table, every
/// runqueue empty, no current task, next task ID 1. An error when the idle
/// task's stack is missing (address 0).
pub fn init_scheduler(cpu_count: usize, idle_stack: u64, idle_entry: u64) -> (r: SchedulerResult<Scheduler>)
    requires
        cpu_count >= 1,
        idle_stack + STACK_SIZE <= u64::MAX,
    ensures
        idle_stack == 0 <==> r is Err,
        r is Err ==> r == Err::<Scheduler, SchedulerError>(SchedulerError::OutOfMemory),
        r matches Ok(s) ==> {
            &&& s.wf()
            &&& s@.next_tid == 1
            &&& s@.cpus.len() == cpu_count
            &&& forall|i: int| 0 <= i < cpu_count ==> #[trigger] s@.cpus[i] == (CpuView {
                runqueue: Seq::empty(),
                current_task: None,
                idle_task: 0,
            })
            &&& s@.tasks[0] matches Some(t) && t.id == 0 && t.name == "idle" && t.priority == TaskPriority::Low
                && t.state == TaskState::Ready && t.stack == idle_stack
            &&& forall|i: int| 0 < i < MAX_TASKS ==> (#[trigger] s@.tasks[i]) is None
        },
{
    let idle = match Task::new(0, "idle", idle_stack, idle_entry, TaskPriority::Low) {
        Ok(t) => t,
        Err(e) => {
            return Err(e);
        },
    };
    let mut tasks: Vec<Option<Task>> = Vec::new();
    tasks.push(Some(idle));
    let mut i: usize = 1;
    while i < MAX_TASKS
        invariant
            1 <= i <= MAX_TASKS,
            tasks@.len() == i,
            tasks@[0] matches Some(t) && t.id == 0 && t.name == "idle" && t.priority == TaskPriority::Low
                && t.state == TaskState::Ready && t.stack == idle_stack && handlers_ok(t),
            forall|j: int| 0 < j < i ==> (#[trigger] tasks@[j]) is None,
        decreases MAX_TASKS - i,
    {
        tasks.push(None);
        i = i + 1;
    }
    let mut cpus: Vec<CpuSched> = Vec::new();
    let mut c: usize = 0;
    while c < cpu_count
        invariant
            c <= cpu_count,
            cpus@.len() == c,
            forall|j: int| 0 <= j < c ==> (#[trigger] cpus@[j]).runqueue.wf() && cpus@[j].runqueue@ == Seq::<
                usize,
            >::empty() && cpus@[j].current_task is None && cpus@[j].idle_task == 0,
        decreases cpu_count - c,
    {
        cpus.push(CpuSched { runqueue: TaskQueue::new(), current_task: None, idle_task: 0 });
        c = c + 1;
    }
    Ok(Scheduler { next_tid: 1, tasks, cpus })
}

/// CPU `i` has the shortest runqueue, and no CPU before it is as short.
pub open spec fn least_loaded(cpus: Seq<CpuView>, i: int) -> bool {
    &&& 0 <= i < cpus.len()
    &&& forall|j: int| 0 <= j < cpus.len() ==> cpus[i].runqueue.len() <= (#[trigger] cpus[j]).runqueue.len()
    &&& forall|j: int| 0 <= j < i ==> (#[trigger] cpus[j]).runqueue.len() > cpus[i].runqueue.len()
}

/// `cpu` is where `enqueue_task` puts a task for `target_cpu`: the target if
/// it exists, CPU 0 for a target that does not, the least loaded CPU when
/// no target is given.
pub open spec fn enqueue_target(cpus: Seq<CpuView>, target_cpu: Option<usize>, cpu: int) -> bool {
    match target_cpu {
        Some(c) => cpu == if c < cpus.len() { c as int } else { 0 },
        None => least_loaded(cpus, cpu),
    }
}

/// Scheduler state and answer after enqueueing `task_id` on `cpu` when the
/// caller runs on `current_cpu`: the task is appended unless the runqueue
/// is full; the answer is the CPU to send a reschedule interrupt to (a
/// remote CPU that got the task, on a multi-CPU system).
pub open spec fn enqueue_on(v: SchedView, task_id: TaskId, cpu: int, current_cpu: usize) -> (SchedView, Option<usize>) {
    let q = v.cpus[cpu].runqueue;
    if q.len() < QUEUE_CAPACITY {
        (
            SchedView { cpus: v.cpus.update(cpu, CpuView { runqueue: q.push(task_id), ..v.cpus[cpu] }), ..v },
            if cpu != current_cpu && v.cpus.len() > 1 { Some(cpu as usize) } else { None },
        )
    } else {
        (v, None)
    }
}

/// CPU `b` is least loaded among the first `k`.
pub open spec fn least_loaded_below(cpus: Seq<CpuView>, k: int, b: int) -> bool {
    &&& 0 <= b < k
    &&& forall|j: int| 0 <= j < k ==> cpus[b].runqueue.len() <= (#[trigger] cpus[j]).runqueue.len()
    &&& forall|j: int| 0 <= j < b ==> (#[trigger] cpus[j]).runqueue.len() > cpus[b].runqueue.len()
}

proof fn lemma_least_loaded_below(cpus: Seq<CpuView>, k: int)
    requires
        1 <= k <= cpus.len(),
    ensures
        exists|b: int| least_loaded_below(cpus, k, b),
    decreases k,
{
    if k == 1 {
        assert(least_loaded_below(cpus, 1, 0));
    } else {
        let km = k - 1;
        lemma_least_loaded_below(cpus, km);
        let b = choose|b: int| least_loaded_below(cpus, km, b);
        if cpus[k - 1].runqueue.len() < cpus[b].runqueue.len() {
            assert(least_loaded_below(cpus, k, k - 1));
        } else {
            assert(least_loaded_below(cpus, k, b));
        }
    }
}

/// Some CPU is least loaded.
pub proof fn lemma_least_loaded_exists(cpus: Seq<CpuView>)
    requires
        cpus.len() >= 1,
    ensures
        exists|i: int| least_loaded(cpus, i),
{
    let n = cpus.len() as int;
    lemma_least_loaded_below(cpus, n);
    let b = choose|b: int| least_loaded_below(cpus, n, b);
    assert(least_loaded(cpus, b));
}

/// Put `task_id` on a runqueue: `target_cpu` if it exists, CPU 0 if it does
/// not, the least loaded CPU when None. The answer is the CPU to send a
/// reschedule interrupt to, if any.
pub fn enqueue_task(sched: &mut Scheduler, task_id: TaskId, target_cpu: Option<usize>, current_cpu: usize) -> (r:
    Option<usize>)
    requires
        old(sched).wf(),
    ensures
        final(sched).wf(),
        exists|cpu: int| enqueue_target(old(sched)@.cpus, target_cpu, cpu),
        forall|cpu: int| enqueue_target(old(sched)@.cpus, target_cpu, cpu) ==> (final(sched)@, r) == enqueue_on(
            old(sched)@,
            task_id,
            cpu,
            current_cpu,
        ),
{
    let cpu_count = sched.cpus.len();
    let cpu_id: usize = match target_cpu {
        Some(cpu) => if cpu >= cpu_count {
            0
        } else {
            cpu
        },
        None => {
            let mut min_cpu: usize = 0;
            let mut min_size: usize = usize::MAX;
            let mut i: usize = 0;
            while i < cpu_count
                invariant
                    sched.wf(),
                    cpu_count == sched@.cpus.len(),
                    i <= cpu_count,
                    i == 0 ==> min_size == usize::MAX && min_cpu == 0,
                    i > 0 ==> min_cpu < i && min_size == sched@.cpus[min_cpu as int].runqueue.len(),
                    forall|j: int| 0 <= j < i ==> min_size <= (#[trigger] sched@.cpus[j]).runqueue.len(),
                    forall|j: int| 0 <= j < min_cpu ==> (#[trigger] sched@.cpus[j]).runqueue.len() > min_size,
                decreases cpu_count - i,
            {
                let size = sched.cpus[i].runqueue.len();
                if size < min_size {
                    min_size = size;
                    min_cpu = i;
                }
                i = i + 1;
            }
            min_cpu
        },
    };
    proof {
        assert(enqueue_target(old(sched)@.cpus, target_cpu, cpu_id as int));
        assert forall|cpu: int| enqueue_target(old(sched)@.cpus, target_cpu, cpu) implies cpu == cpu_id by {
            if target_cpu is None {
                if cpu < cpu_id {
                    assert(old(sched)@.cpus[cpu].runqueue.len() > old(sched)@.cpus[cpu_id as int].runqueue.len());
                } else if cpu > cpu_id {
                    assert(old(sched)@.cpus[cpu_id as int].runqueue.len() > old(sched)@.cpus[cpu].runqueue.len());
                }
            }
        }
    }
    let pushed = sched.cpus[cpu_id].runqueue.push_back(task_id);
    proof {
        assert(sched@.tasks == old(sched)@.tasks);
        if pushed {
            assert(sched@.cpus =~= old(sched)@.cpus.update(
                cpu_id as int,
                CpuView { runqueue: old(sched)@.cpus[cpu_id as int].runqueue.push(task_id), ..old(sched)@.cpus[cpu_id as int] },
            ));
        } else {
            assert(sched@.cpus =~= old(sched)@.cpus);
        }
    }
    if pushed && cpu_id != current_cpu && cpu_count > 1 {
        Some(cpu_id)
    } else {
        None
    }
}

/// Remove and return the front task of CPU `cpu_id`'s runqueue.
pub fn dequeue_task(sched: &mut Scheduler, cpu_id: usize) -> (r: Option<TaskId>)
    requires
        old(sched).wf(),
        cpu_id < old(sched)@.cpus.len(),
    ensures
        final(sched).wf(),
        ({
            let q = old(sched)@.cpus[cpu_id as int].runqueue;
            &&& q.len() == 0 ==> r is None && final(sched)@ == old(sched)@
            &&& q.len() > 0 ==> r == Some(q[0]) && final(sched)@ == (SchedView {
                cpus: old(sched)@.cpus.update(
                    cpu_id as int,
                    CpuView { runqueue: q.drop_first(), ..old(sched)@.cpus[cpu_id as int] },
                ),
                ..old(sched)@
            })
        }),
{
    let r = sched.cpus[cpu_id].runqueue.pop_front();
    proof {
        let q = old(sched)@.cpus[cpu_id as int].runqueue;
        if q.len() > 0 {
            assert(sched@.cpus =~= old(sched)@.cpus.update(
                cpu_id as int,
                CpuView { runqueue: q.drop_first(), ..old(sched)@.cpus[cpu_id as int] },
            ));
        } else {
            assert(sched@.cpus =~= old(sched)@.cpus);
        }
    }
    r
}


/// Every runqueue is full.
pub open spec fn runqueues_full(cpus: Seq<CpuView>) -> bool {
    forall|j: int| 0 <= j < cpus.len() ==> (#[trigger] cpus[j]).runqueue.len() >= QUEUE_CAPACITY
}

/// The block a stack allocation takes from `heap`, if one is free.
pub open spec fn stack_block(heap: Option<BuddyAllocator>) -> Option<usize> {
    match heap {
        None => None,
        Some(a) => take_block(a@.lists, size_order(STACK_SIZE as nat)).1,
    }
}

/// `heap` gives a usable stack: a free block, not at address 0, whose
/// `STACK_SIZE` bytes end within 64 bits.
pub open spec fn stack_granted(heap: Option<BuddyAllocator>) -> bool {
    stack_block(heap) matches Some(b) && b != 0 && b + STACK_SIZE <= u64::MAX
}

/// A spawn on `v` with `heap` succeeds: a task ID is free, some runqueue
/// has room, and the heap gives a stack.
pub open spec fn spawn_owed(v: SchedView, heap: Option<BuddyAllocator>) -> bool {
    v.next_tid < MAX_TASKS && !runqueues_full(v.cpus) && stack_granted(heap)
}

/// The lists `heap` is left with after a stack allocation.
pub open spec fn lists_after_stack(heap: Option<BuddyAllocator>) -> Seq<Seq<usize>> {
    take_block(heap.unwrap()@.lists, size_order(STACK_SIZE as nat)).0
}

/// Whether every runqueue is full.
fn all_runqueues_full(sched: &Scheduler) -> (r: bool)
    requires
        sched.wf(),
    ensures
        r == runqueues_full(sched@.cpus),
{
    let n = sched.cpus.len();
    let mut i: usize = 0;
    while i < n
        invariant
            sched.wf(),
            n == sched@.cpus.len(),
            i <= n,
            forall|j: int| 0 <= j < i ==> (#[trigger] sched@.cpus[j]).runqueue.len() >= QUEUE_CAPACITY,
        decreases n - i,
    {
        if sched.cpus[i].runqueue.len() < QUEUE_CAPACITY {
            assert(sched@.cpus[i as int].runqueue == sched.cpus@[i as int].runqueue@);
            return false;
        }
        assert(sched@.cpus[i as int].runqueue == sched.cpus@[i as int].runqueue@);
        i = i + 1;
    }
    true
}

/// Spawn a task: the next task ID, a stack from `heap`, and a place on the
/// least loaded runqueue. Answers the task ID and the CPU to send a
/// reschedule interrupt to, if any.
///
/// Errors: `TooManyTasks` when the IDs are used up and `RunqueueFull` when
/// every runqueue is full (nothing changes); `OutOfMemory` when the heap
/// gives no stack (the ID is used up; the heap is unchanged when it had no
/// free block).
pub fn spawn_task(
    sched: &mut Scheduler,
    heap: &mut Option<BuddyAllocator>,
    name: &'static str,
    entry_point: u64,
    priority: TaskPriority,
    current_cpu: usize,
) -> (r: SchedulerResult<(TaskId, Option<usize>)>)
    requires
        old(sched).wf(),
        *old(heap) is Some ==> (*old(heap)).unwrap().wf(),
    ensures
        final(sched).wf(),
        *old(heap) is None ==> *final(heap) is None,
        *old(heap) is Some ==> *final(heap) is Some && (*final(heap)).unwrap().wf(),
        old(sched)@.next_tid >= MAX_TASKS <==> r == Err::<(TaskId, Option<usize>), SchedulerError>(
            SchedulerError::TooManyTasks,
        ),
        old(sched)@.next_tid < MAX_TASKS && runqueues_full(old(sched)@.cpus) <==> r == Err::<
            (TaskId, Option<usize>),
            SchedulerError,
        >(SchedulerError::RunqueueFull),
        old(sched)@.next_tid < MAX_TASKS && !runqueues_full(old(sched)@.cpus) && !stack_granted(*old(heap)) <==> r
            == Err::<(TaskId, Option<usize>), SchedulerError>(SchedulerError::OutOfMemory),
        r is Ok <==> spawn_owed(old(sched)@, *old(heap)),
        (old(sched)@.next_tid >= MAX_TASKS || runqueues_full(old(sched)@.cpus)) ==> final(sched)@ == old(sched)@
            && *final(heap) == *old(heap),
        r == Err::<(TaskId, Option<usize>), SchedulerError>(SchedulerError::OutOfMemory) ==> {
            &&& final(sched)@ == (SchedView { next_tid: (old(sched)@.next_tid + 1) as usize, ..old(sched)@ })
            &&& *old(heap) is Some && stack_block(*old(heap)) is None ==> (*final(heap)).unwrap()@ == (
                *old(heap)).unwrap()@
            &&& *old(heap) is Some ==> {
                &&& (*final(heap)).unwrap()@.lists == lists_after_stack(*old(heap))
                &&& (*final(heap)).unwrap()@.heap_start == (*old(heap)).unwrap()@.heap_start
                &&& (*final(heap)).unwrap()@.heap_end == (*old(heap)).unwrap()@.heap_end
            }
        },
        r matches Ok((id, ipi)) ==> {
            let t = final(sched)@.tasks[id as int].unwrap();
            let mid = SchedView {
                next_tid: (old(sched)@.next_tid + 1) as usize,
                tasks: old(sched)@.tasks.update(id as int, Some(t)),
                ..old(sched)@
            };
            &&& id == old(sched)@.next_tid
            &&& final(sched)@.tasks[id as int] is Some
            &&& t.id == id && t.name == name && t.priority == priority && t.state == TaskState::Ready
            &&& t.stack == stack_block(*old(heap)).unwrap()
            &&& *old(heap) is Some && *final(heap) is Some
            &&& (*old(heap)).unwrap().alloc_result(STACK_SIZE as usize, t.stack as usize, (*final(heap)).unwrap())
            &&& forall|cpu: int| least_loaded(old(sched)@.cpus, cpu) ==> (final(sched)@, ipi) == enqueue_on(
                mid,
                id,
                cpu,
                current_cpu,
            )
            &&& exists|cpu: int| #[trigger] least_loaded(old(sched)@.cpus, cpu) && final(sched)@.cpus[cpu].runqueue
                == old(sched)@.cpus[cpu].runqueue.push(id)
        },
{
    let task_id = sched.next_tid;
    if task_id >= MAX_TASKS {
        return Err(SchedulerError::TooManyTasks);
    }
    if all_runqueues_full(sched) {
        return Err(SchedulerError::RunqueueFull);
    }
    sched.next_tid = task_id + 1;
    let ghost h0 = *heap;
    let stack = kmalloc(heap, STACK_SIZE as usize);
    proof {
        if h0 is Some {
            lemma_take_block_none_keeps(h0.unwrap()@.lists, size_order(STACK_SIZE as nat));
        }
    }
    if stack == 0 {
        return Err(SchedulerError::OutOfMemory);
    }
    if stack as u64 > u64::MAX - STACK_SIZE {
        return Err(SchedulerError::OutOfMemory);
    }
    let task = match Task::new(task_id, name, stack as u64, entry_point, priority) {
        Ok(t) => t,
        Err(e) => {
            return Err(e);
        },
    };
    let ghost t = task;
    sched.tasks.set(task_id, Some(task));
    let ghost mid = sched@;
    proof {
        assert(mid.cpus =~= old(sched)@.cpus);
        assert(mid == (SchedView {
            next_tid: (old(sched)@.next_tid + 1) as usize,
            tasks: old(sched)@.tasks.update(task_id as int, Some(t)),
            ..old(sched)@
        }));
    }
    let ipi = enqueue_task(sched, task_id, None, current_cpu);
    proof {
        old(sched).lemma_wf();
        lemma_least_loaded_exists(mid.cpus);
        let c = choose|c: int| least_loaded(mid.cpus, c);
        assert(enqueue_target(mid.cpus, None, c));
        assert(sched@.tasks == mid.tasks);
        let j = choose|j: int| 0 <= j < mid.cpus.len() && !(mid.cpus[j].runqueue.len() >= QUEUE_CAPACITY);
        assert(mid.cpus[c].runqueue.len() <= mid.cpus[j].runqueue.len());
        assert(least_loaded(old(sched)@.cpus, c));
    }
    Ok((task_id, ipi))
}

/// Outcome of `schedule_on_core` on CPU `cpu`: the scheduler state, and the
/// tasks to switch from and to. With no current task nothing changes. Else
/// the current task, if it exists and is running, becomes ready and goes to
/// the back of the runqueue (dropped if that is full); the front task, or
/// the idle task when the runqueue is empty, becomes current and, if it
/// exists, running. A switch is answered when both tasks exist.
pub open spec fn schedule_result(v: SchedView, cpu: int) -> (SchedView, Option<(TaskId, TaskId)>) {
    match v.cpus[cpu].current_task {
        None => (v, None),
        Some(old_id) => {
            let requeue = task_at(v.tasks, old_id as int) matches Some(t) && t.state == TaskState::Running;
            let tasks1 = if requeue { with_state(v.tasks, old_id as int, TaskState::Ready) } else { v.tasks };
            let q0 = v.cpus[cpu].runqueue;
            let q1 = if requeue && q0.len() < QUEUE_CAPACITY { q0.push(old_id) } else { q0 };
            let next = if q1.len() > 0 { q1[0] } else { v.cpus[cpu].idle_task };
            let q2 = if q1.len() > 0 { q1.drop_first() } else { q1 };
            let has_next = task_at(tasks1, next as int) is Some;
            let tasks2 = if has_next { with_state(tasks1, next as int, TaskState::Running) } else { tasks1 };
            (
                SchedView {
                    tasks: tasks2,
                    cpus: v.cpus.update(cpu, CpuView { runqueue: q2, current_task: Some(next), ..v.cpus[cpu] }),
                    ..v
                },
                if has_next && task_at(tasks2, old_id as int) is Some { Some((old_id, next)) } else { None },
            )
        },
    }
}

/// Pick the next task on CPU `cpu_id` (round robin): the tasks to switch
/// from and to, for the caller's context switch.
pub fn schedule_on_core(sched: &mut Scheduler, cpu_id: usize) -> (r: Option<(TaskId, TaskId)>)
    requires
        old(sched).wf(),
        cpu_id < old(sched)@.cpus.len(),
    ensures
        final(sched).wf(),
        (final(sched)@, r) == schedule_result(old(sched)@, cpu_id as int),
{
    let old_task_id = sched.cpus[cpu_id].current_task;
    let current_id = match old_task_id {
        None => {
            return None;
        },
        Some(id) => id,
    };
    let ghost v = old(sched)@;
    let requeue = sched.has_task(current_id) && sched.tasks[current_id].as_ref().unwrap().state == TaskState::Running;
    if requeue {
        sched.set_state(current_id, TaskState::Ready);
        let _ = sched.cpus[cpu_id].runqueue.push_back(current_id);
    }
    let ghost s1 = sched@;
    let next_task_id = match sched.cpus[cpu_id].runqueue.pop_front() {
        Some(id) => id,
        None => sched.cpus[cpu_id].idle_task,
    };
    sched.cpus[cpu_id].current_task = Some(next_task_id);
    let has_next = sched.has_task(next_task_id);
    if has_next {
        sched.set_state(next_task_id, TaskState::Running);
    }
    proof {
        let (w, a) = schedule_result(v, cpu_id as int);
        assert(sched@.tasks =~= w.tasks);
        assert(sched@.cpus =~= w.cpus);
    }
    if !has_next {
        return None;
    }
    if sched.has_task(current_id) {
        Some((current_id, next_task_id))
    } else {
        None
    }
}

/// Outcome of a first switch on CPU `cpu`: the front task of its runqueue,
/// or its idle task when the runqueue is empty, becomes current and, if the
/// table holds it, running; it is answered when the table holds it.
pub open spec fn first_result(v: SchedView, cpu: int) -> (SchedView, Option<TaskId>) {
    let c = v.cpus[cpu];
    let first = if c.runqueue.len() > 0 { c.runqueue[0] } else { c.idle_task };
    let q = if c.runqueue.len() > 0 { c.runqueue.drop_first() } else { c.runqueue };
    let has = task_at(v.tasks, first as int) is Some;
    (
        SchedView {
            tasks: if has { with_state(v.tasks, first as int, TaskState::Running) } else { v.tasks },
            cpus: v.cpus.update(cpu, CpuView { runqueue: q, current_task: Some(first), ..c }),
            ..v
        },
        if has { Some(first) } else { None },
    )
}

/// First switch on CPU `cpu_id`: the task to start there.
pub fn start_first_task(sched: &mut Scheduler, cpu_id: usize) -> (r: Option<TaskId>)
    requires
        old(sched).wf(),
        cpu_id < old(sched)@.cpus.len(),
    ensures
        final(sched).wf(),
        (final(sched)@, r) == first_result(old(sched)@, cpu_id as int),
{
    let first_task_id = match sched.cpus[cpu_id].runqueue.pop_front() {
        Some(id) => id,
        None => sched.cpus[cpu_id].idle_task,
    };
    sched.cpus[cpu_id].current_task = Some(first_task_id);
    let has = sched.has_task(first_task_id);
    if has {
        sched.set_state(first_task_id, TaskState::Running);
    }
    proof {
        let c = old(sched)@.cpus[cpu_id as int];
        let q = if c.runqueue.len() > 0 { c.runqueue.drop_first() } else { c.runqueue };
        assert(sched@.cpus =~= old(sched)@.cpus.update(cpu_id as int, CpuView { runqueue: q, current_task: Some(first_task_id), ..c }));
    }
    if has {
        Some(first_task_id)
    } else {
        None
    }
}

/// What a timer tick asks the CPU to do.
#[derive(PartialEq, Eq, Structural, Debug, Clone, Copy)]
pub enum TickAction {
    /// Save the context of task `old` and resume task `new`; `switch_number`
    /// counts the switches made before this one, and `log` says whether this
    /// switch is one to report.
    Switch { old: TaskId, new: TaskId, switch_number: usize, preemptive: bool, log: bool },
    /// First switch on this CPU: resume `task` from the boot context.
    First { task: TaskId },
    /// Task `task` was chosen but has a null stack pointer: a fatal fault.
    NullStack { task: TaskId },
    /// The first task chosen on this CPU is not in the task table: a fatal fault.
    Missing,
}

/// Whether switch number `count` is reported: the first ten, then every
/// hundredth.
pub open spec fn switch_logged(count: usize) -> bool {
    count < 10 || count % 100 == 0
}

/// The stack pointer saved for task `id`, which the table holds.
pub open spec fn saved_rsp(tasks: Seq<Option<Task>>, id: TaskId) -> u64 {
    tasks[id as int].unwrap().context.rsp
}

/// The counters other than the tick, switch and preemption counters are
/// equal in both.
pub open spec fn same_other_counters(a: &KernelMetrics, b: &KernelMetrics) -> bool {
    &&& a.syscall_count@ == b.syscall_count@
    &&& a.ipc_sends == b.ipc_sends
    &&& a.ipc_recvs == b.ipc_recvs
    &&& a.ipc_queue_full == b.ipc_queue_full
    &&& a.sleep_count == b.sleep_count
    &&& a.wake_count == b.wake_count
}

/// Timer tick on CPU `cpu_id`: count the tick, pick the next task (round
/// robin) and say which context switch to make. `switch_count` counts the
/// switches made so far on all CPUs.
pub fn tick(sched: &mut Scheduler, metrics: &mut KernelMetrics, switch_count: &mut usize, cpu_id: usize) -> (r:
    TickAction)
    requires
        old(sched).wf(),
        old(metrics).wf(),
        cpu_id < old(sched)@.cpus.len(),
    ensures
        final(sched).wf(),
        final(metrics).wf(),
        same_other_counters(final(metrics), old(metrics)),
        final(metrics).timer_ticks == wrap_inc(old(metrics).timer_ticks),
        ({
            let (s1, picked) = schedule_result(old(sched)@, cpu_id as int);
            match picked {
                Some((o, n)) => {
                    &&& final(sched)@ == s1
                    &&& if saved_rsp(s1.tasks, o) == 0 || saved_rsp(s1.tasks, n) == 0 {
                        &&& r == TickAction::NullStack { task: if saved_rsp(s1.tasks, o) == 0 { o } else { n } }
                        &&& *final(switch_count) == *old(switch_count)
                        &&& final(metrics).ctx_switches == old(metrics).ctx_switches
                        &&& final(metrics).preemptions == old(metrics).preemptions
                    } else {
                        let state = s1.tasks[o as int].unwrap().state;
                        let preemptive = state == TaskState::Running || state == TaskState::Ready;
                        &&& r == TickAction::Switch {
                            old: o,
                            new: n,
                            switch_number: *old(switch_count),
                            preemptive,
                            log: switch_logged(*old(switch_count)),
                        }
                        &&& *final(switch_count) == wrap_inc(*old(switch_count))
                        &&& final(metrics).ctx_switches == wrap_inc(old(metrics).ctx_switches)
                        &&& final(metrics).preemptions == if preemptive {
                            wrap_inc(old(metrics).preemptions)
                        } else {
                            old(metrics).preemptions
                        }
                    }
                },
                None => {
                    let (s2, first) = first_result(s1, cpu_id as int);
                    &&& final(sched)@ == s2
                    &&& *final(switch_count) == *old(switch_count)
                    &&& final(metrics).ctx_switches == old(metrics).ctx_switches
                    &&& final(metrics).preemptions == old(metrics).preemptions
                    &&& r == match first {
                        None => TickAction::Missing,
                        Some(t) => if saved_rsp(s2.tasks, t) == 0 {
                            TickAction::NullStack { task: t }
                        } else {
                            TickAction::First { task: t }
                        },
                    }
                },
            }
        }),
{
    metrics.timer_ticks = counter_inc(metrics.timer_ticks);
    match schedule_on_core(sched, cpu_id) {
        Some((old_id, new_id)) => {
            let old_rsp = sched.tasks[old_id].as_ref().unwrap().context.rsp;
            let new_rsp = sched.tasks[new_id].as_ref().unwrap().context.rsp;
            if old_rsp == 0 {
                return TickAction::NullStack { task: old_id };
            }
            if new_rsp == 0 {
                return TickAction::NullStack { task: new_id };
            }
            let count = *switch_count;
            *switch_count = counter_inc(count);
            metrics.ctx_switches = counter_inc(metrics.ctx_switches);
            let state = sched.tasks[old_id].as_ref().unwrap().state;
            let preemptive = state == TaskState::Running || state == TaskState::Ready;
            if preemptive {
                metrics.preemptions = counter_inc(metrics.preemptions);
            }
            TickAction::Switch {
                old: old_id,
                new: new_id,
                switch_number: count,
                preemptive,
                log: count < 10 || count % 100 == 0,
            }
        },
        None => match start_first_task(sched, cpu_id) {
            None => TickAction::Missing,
            Some(t) => {
                if sched.tasks[t].as_ref().unwrap().context.rsp == 0 {
                    TickAction::NullStack { task: t }
                } else {
                    TickAction::First { task: t }
                }
            },
        },
    }
}

/// The ID (as the task records it) of the task running on CPU `cpu`, if the
/// table holds that task.
pub open spec fn current_id(v: SchedView, cpu: int) -> Option<TaskId> {
    match v.cpus[cpu].current_task {
        None => None,
        Some(id) => match task_at(v.tasks, id as int) {
            Some(t) => Some(t.id),
            None => None,
        },
    }
}

impl Scheduler {
    /// Task `id`, if the table holds it.
    pub fn task(&self, id: TaskId) -> (r: Option<&Task>)
        requires
            self.wf(),
        ensures
            r is Some <==> task_at(self@.tasks, id as int) is Some,
            r matches Some(t) ==> task_at(self@.tasks, id as int) == Some(*t) && handlers_ok(*t),
    {
        if id < MAX_TASKS {
            self.tasks[id].as_ref()
        } else {
            None
        }
    }

    /// Put task `id`, which the table holds, in process group `pgid`.
    pub fn set_task_pgid(&mut self, id: TaskId, pgid: usize)
        requires
            old(self).wf(),
            task_at(old(self)@.tasks, id as int) is Some,
        ensures
            final(self).wf(),
            final(self)@ == (SchedView {
                tasks: old(self)@.tasks.update(id as int, Some(Task { pgid, ..old(self)@.tasks[id as int].unwrap() })),
                ..old(self)@
            }),
    {
        let mut slot: Option<Task> = None;
        std::mem::swap(&mut slot, &mut self.tasks[id]);
        match slot {
            Some(mut t) => {
                t.pgid = pgid;
                let mut back = Some(t);
                std::mem::swap(&mut back, &mut self.tasks[id]);
            },
            None => {},
        }
        proof {
            assert(self@.cpus =~= old(self)@.cpus);
            assert(self@.tasks =~= old(self)@.tasks.update(
                id as int,
                Some(Task { pgid, ..old(self)@.tasks[id as int].unwrap() }),
            ));
        }
    }

    /// Give task `id`, which the table holds, the controlling terminal `tty`.
    pub fn set_task_tty(&mut self, id: TaskId, tty: Option<usize>)
        requires
            old(self).wf(),
            task_at(old(self)@.tasks, id as int) is Some,
        ensures
            final(self).wf(),
            final(self)@ == (SchedView {
                tasks: old(self)@.tasks.update(id as int, Some(Task { tty, ..old(self)@.tasks[id as int].unwrap() })),
                ..old(self)@
            }),
    {
        let mut slot: Option<Task> = None;
        std::mem::swap(&mut slot, &mut self.tasks[id]);
        match slot {
            Some(mut t) => {
                t.tty = tty;
                let mut back = Some(t);
                std::mem::swap(&mut back, &mut self.tasks[id]);
            },
            None => {},
        }
        proof {
            assert(self@.cpus =~= old(self)@.cpus);
            assert(self@.tasks =~= old(self)@.tasks.update(
                id as int,
                Some(Task { tty, ..old(self)@.tasks[id as int].unwrap() }),
            ));
        }
    }

    /// Make task `id`, which the table holds, the leader of a new session
    /// and process group named by its process ID, with no controlling
    /// terminal.
    pub fn start_session(&mut self, id: TaskId)
        requires
            old(self).wf(),
            task_at(old(self)@.tasks, id as int) is Some,
        ensures
            final(self).wf(),
            ({
                let t = old(self)@.tasks[id as int].unwrap();
                final(self)@ == (SchedView {
                    tasks: old(self)@.tasks.update(id as int, Some(Task { sid: t.pid, pgid: t.pid, tty: None, ..t })),
                    ..old(self)@
                })
            }),
    {
        let mut slot: Option<Task> = None;
        std::mem::swap(&mut slot, &mut self.tasks[id]);
        match slot {
            Some(mut t) => {
                t.sid = t.pid;
                t.pgid = t.pid;
                t.tty = None;
                let mut back = Some(t);
                std::mem::swap(&mut back, &mut self.tasks[id]);
            },
            None => {},
        }
        proof {
            let t = old(self)@.tasks[id as int].unwrap();
            assert(self@.cpus =~= old(self)@.cpus);
            assert(self@.tasks =~= old(self)@.tasks.update(
                id as int,
                Some(Task { sid: t.pid, pgid: t.pid, tty: None, ..t }),
            ));
        }
    }
}

/// `v1` is `v0` with the action of `signal` for task `id` set to `act`.
pub open spec fn action_set(v0: SchedView, v1: SchedView, id: TaskId, signal: int, act: SigAction) -> bool {
    let t = v0.tasks[id as int].unwrap();
    &&& v1.next_tid == v0.next_tid
    &&& v1.cpus == v0.cpus
    &&& v1.tasks.len() == v0.tasks.len()
    &&& forall|i: int| 0 <= i < v0.tasks.len() && i != id ==> #[trigger] v1.tasks[i] == v0.tasks[i]
    &&& v1.tasks[id as int] matches Some(t2) && t2 == (Task { signal_handlers: t2.signal_handlers, ..t })
        && t2.signal_handlers@ == t.signal_handlers@.update(signal, act)
}

impl Scheduler {
    /// Set the action of `signal` for task `id`, which the table holds.
    pub fn set_signal_action(&mut self, id: TaskId, signal: usize, act: SigAction)
        requires
            old(self).wf(),
            task_at(old(self)@.tasks, id as int) is Some,
            signal < MAX_SIGNALS,
        ensures
            final(self).wf(),
            action_set(old(self)@, final(self)@, id, signal as int, act),
    {
        let mut slot: Option<Task> = None;
        std::mem::swap(&mut slot, &mut self.tasks[id]);
        match slot {
            Some(mut t) => {
                t.signal_handlers.set(signal, act);
                let mut back = Some(t);
                std::mem::swap(&mut back, &mut self.tasks[id]);
            },
            None => {},
        }
        proof {
            assert(self@.cpus =~= old(self)@.cpus);
        }
    }
}

impl Scheduler {
    /// Set the state of task `id`, which the table holds, and the port it
    /// waits on.
    pub fn set_wait(&mut self, id: TaskId, state: TaskState, port: Option<usize>)
        requires
            old(self).wf(),
            task_at(old(self)@.tasks, id as int) is Some,
        ensures
            final(self).wf(),
            final(self)@ == (SchedView {
                tasks: old(self)@.tasks.update(
                    id as int,
                    Some(Task { state, blocked_on_port: port, ..old(self)@.tasks[id as int].unwrap() }),
                ),
                ..old(self)@
            }),
    {
        let mut slot: Option<Task> = None;
        std::mem::swap(&mut slot, &mut self.tasks[id]);
        match slot {
            Some(mut t) => {
                t.state = state;
                t.blocked_on_port = port;
                let mut back = Some(t);
                std::mem::swap(&mut back, &mut self.tasks[id]);
            },
            None => {},
        }
        proof {
            assert(self@.cpus =~= old(self)@.cpus);
            assert(self@.tasks =~= old(self)@.tasks.update(
                id as int,
                Some(Task { state, blocked_on_port: port, ..old(self)@.tasks[id as int].unwrap() }),
            ));
        }
    }
}

/// Wake task `id` that waited on a port: when the table holds it, it
/// becomes ready, waits on nothing, and goes to the back of the least
/// loaded runqueue; answers the CPU to interrupt for it.
pub fn wake_task(sched: &mut Scheduler, id: TaskId, current_cpu: usize) -> (r: Option<usize>)
    requires
        old(sched).wf(),
    ensures
        final(sched).wf(),
        task_at(old(sched)@.tasks, id as int) is None ==> final(sched)@ == old(sched)@ && r is None,
        task_at(old(sched)@.tasks, id as int) matches Some(t) ==> {
            let woken = SchedView {
                tasks: old(sched)@.tasks.update(
                    id as int,
                    Some(Task { state: TaskState::Ready, blocked_on_port: None, ..t }),
                ),
                ..old(sched)@
            };
            forall|cpu: int| enqueue_target(woken.cpus, None, cpu) ==> (final(sched)@, r) == enqueue_on(
                woken,
                id,
                cpu,
                current_cpu,
            )
        },
{
    if sched.task(id).is_none() {
        return None;
    }
    sched.set_wait(id, TaskState::Ready, None);
    enqueue_task(sched, id, None, current_cpu)
}

/// ID and priority of the task running on CPU `cpu_id`, if the table holds
/// it.
pub fn get_current_task_info(sched: &Scheduler, cpu_id: usize) -> (r: Option<(TaskId, TaskPriority)>)
    requires
        sched.wf(),
        cpu_id < sched@.cpus.len(),
    ensures
        r == match sched@.cpus[cpu_id as int].current_task {
            None => None,
            Some(id) => match task_at(sched@.tasks, id as int) {
                Some(t) => Some((t.id, t.priority)),
                None => None,
            },
        },
{
    match sched.cpus[cpu_id].current_task {
        None => None,
        Some(id) => get_task_priority(sched, id),
    }
}

/// ID and priority of task `task_id`, if the table holds it.
pub fn get_task_priority(sched: &Scheduler, task_id: TaskId) -> (r: Option<(TaskId, TaskPriority)>)
    requires
        sched.wf(),
    ensures
        r == match task_at(sched@.tasks, task_id as int) {
            Some(t) => Some((t.id, t.priority)),
            None => None,
        },
{
    if task_id >= MAX_TASKS {
        return None;
    }
    match &sched.tasks[task_id] {
        Some(t) => Some((t.id, t.priority)),
        None => None,
    }
}

/// Put the task running on CPU `cpu_id` to sleep until tick `ticks`: false
/// when the CPU runs no task.
pub fn sleep_current_task(sched: &mut Scheduler, cpu_id: usize, ticks: u64, priority: TaskPriority) -> (r: bool)
    requires
        old(sched).wf(),
        cpu_id < old(sched)@.cpus.len(),
    ensures
        final(sched).wf(),
        r == old(sched)@.cpus[cpu_id as int].current_task is Some,
        !r ==> final(sched)@ == old(sched)@,
        r ==> ({
            let id = old(sched)@.cpus[cpu_id as int].current_task.unwrap() as int;
            &&& task_at(old(sched)@.tasks, id) is None ==> final(sched)@ == old(sched)@
            &&& task_at(old(sched)@.tasks, id) matches Some(t) ==> final(sched)@ == (SchedView {
                tasks: old(sched)@.tasks.update(id, Some(Task { state: TaskState::Sleeping, wake_tick: Some(ticks), ..t })),
                ..old(sched)@
            })
        }),
{
    let current_id = match sched.cpus[cpu_id].current_task {
        Some(id) => id,
        None => {
            return false;
        },
    };
    if sched.has_task(current_id) {
        let mut slot: Option<Task> = None;
        std::mem::swap(&mut slot, &mut sched.tasks[current_id]);
        match slot {
            Some(mut t) => {
                t.state = TaskState::Sleeping;
                t.wake_tick = Some(ticks);
                let mut s = Some(t);
                std::mem::swap(&mut s, &mut sched.tasks[current_id]);
            },
            None => {},
        }
        proof {
            assert(sched@.cpus =~= old(sched)@.cpus);
            let t = old(sched)@.tasks[current_id as int].unwrap();
            assert(sched@.tasks =~= old(sched)@.tasks.update(
                current_id as int,
                Some(Task { state: TaskState::Sleeping, wake_tick: Some(ticks), ..t }),
            ));
        }
    }
    true
}


/// Every task ID waiting in some runqueue, with multiplicity.
pub open spec fn queued(cpus: Seq<CpuView>) -> Multiset<usize>
    decreases cpus.len(),
{
    if cpus.len() == 0 {
        Multiset::empty()
    } else {
        queued(cpus.drop_last()).add(cpus.last().runqueue.to_multiset())
    }
}

/// Replacing the state of CPU `i` swaps its runqueue's tasks in the union.
proof fn lemma_queued_update(cpus: Seq<CpuView>, i: int, c: CpuView)
    requires
        0 <= i < cpus.len(),
    ensures
        queued(cpus.update(i, c)).add(cpus[i].runqueue.to_multiset()) =~= queued(cpus).add(c.runqueue.to_multiset()),
    decreases cpus.len(),
{
    broadcast use vstd::multiset::group_multiset_axioms;

    let u = cpus.update(i, c);
    assert(queued(u) == queued(u.drop_last()).add(u.last().runqueue.to_multiset()));
    assert(queued(cpus) == queued(cpus.drop_last()).add(cpus.last().runqueue.to_multiset()));
    let m = cpus[i].runqueue.to_multiset();
    let mc = c.runqueue.to_multiset();
    if i == cpus.len() - 1 {
        assert(u.drop_last() =~= cpus.drop_last());
        assert(u.last() == c);
        assert forall|x: usize| #[trigger] queued(u).add(m).count(x) == queued(cpus).add(mc).count(x) by {
            assert(queued(u).count(x) == queued(cpus.drop_last()).count(x) + mc.count(x));
            assert(queued(cpus).count(x) == queued(cpus.drop_last()).count(x) + m.count(x));
        }
    } else {
        assert(u.drop_last() =~= cpus.drop_last().update(i, c));
        assert(u.last() == cpus.last());
        assert(cpus.drop_last()[i] == cpus[i]);
        lemma_queued_update(cpus.drop_last(), i, c);
        let ml = cpus.last().runqueue.to_multiset();
        assert forall|x: usize| #[trigger] queued(u).add(m).count(x) == queued(cpus).add(mc).count(x) by {
            assert(queued(cpus.drop_last().update(i, c)).add(m).count(x) == queued(cpus.drop_last()).add(mc).count(x));
            assert(queued(u).count(x) == queued(cpus.drop_last().update(i, c)).count(x) + ml.count(x));
            assert(queued(cpus).count(x) == queued(cpus.drop_last()).count(x) + ml.count(x));
        }
    }
}

/// Replacing the runqueues of CPUs `a` and `b` by ones holding the same
/// tasks between them keeps the union.
proof fn lemma_queued_two(cpus: Seq<CpuView>, a: int, b: int, ca: CpuView, cb: CpuView)
    requires
        0 <= a < cpus.len(),
        0 <= b < cpus.len(),
        a != b,
        ca.runqueue.to_multiset().add(cb.runqueue.to_multiset()) =~= cpus[a].runqueue.to_multiset().add(
            cpus[b].runqueue.to_multiset(),
        ),
    ensures
        queued(cpus.update(a, ca).update(b, cb)) =~= queued(cpus),
{
    broadcast use vstd::multiset::group_multiset_axioms;

    let u1 = cpus.update(a, ca);
    let u2 = u1.update(b, cb);
    lemma_queued_update(cpus, a, ca);
    lemma_queued_update(u1, b, cb);
    assert(u1[b] == cpus[b]);
    assert forall|x: usize| #[trigger] queued(u2).count(x) == queued(cpus).count(x) by {
        assert(queued(u1).add(cpus[a].runqueue.to_multiset()).count(x) == queued(cpus).add(ca.runqueue.to_multiset()).count(x));
        assert(queued(u2).add(u1[b].runqueue.to_multiset()).count(x) == queued(u1).add(cb.runqueue.to_multiset()).count(x));
        assert(ca.runqueue.to_multiset().add(cb.runqueue.to_multiset()).count(x) == cpus[a].runqueue.to_multiset().add(
            cpus[b].runqueue.to_multiset(),
        ).count(x));
    }
}

/// Replacing the runqueue of CPU `a` by one holding the same tasks keeps
/// the union.
proof fn lemma_queued_one(cpus: Seq<CpuView>, a: int, ca: CpuView)
    requires
        0 <= a < cpus.len(),
        ca.runqueue.to_multiset() =~= cpus[a].runqueue.to_multiset(),
    ensures
        queued(cpus.update(a, ca)) =~= queued(cpus),
{
    broadcast use vstd::multiset::group_multiset_axioms;

    lemma_queued_update(cpus, a, ca);
    assert forall|x: usize| #[trigger] queued(cpus.update(a, ca)).count(x) == queued(cpus).count(x) by {
        assert(queued(cpus.update(a, ca)).add(cpus[a].runqueue.to_multiset()).count(x) == queued(cpus).add(
            ca.runqueue.to_multiset(),
        ).count(x));
    }
}

/// The runqueue `q` with its first `x` taken out: what follows it, then
/// what came before it.
pub open spec fn rotate_out(q: Seq<usize>, i: int) -> Seq<usize> {
    q.subrange(i + 1, q.len() as int) + q.subrange(0, i)
}

/// Position `i` holds the first `x` of `q`.
pub open spec fn first_index(q: Seq<usize>, x: usize, i: int) -> bool {
    &&& 0 <= i < q.len()
    &&& q[i] == x
    &&& forall|j: int| 0 <= j < i ==> #[trigger] q[j] != x
}

proof fn lemma_rotate_out_multiset(q: Seq<usize>, i: int)
    requires
        0 <= i < q.len(),
    ensures
        rotate_out(q, i).to_multiset().insert(q[i]) =~= q.to_multiset(),
{
    broadcast use vstd::multiset::group_multiset_axioms;
    broadcast use vstd::seq_lib::group_to_multiset_ensures;

    let pre = q.subrange(0, i);
    let post = q.subrange(i + 1, q.len() as int);
    vstd::seq_lib::lemma_seq_union_to_multiset_commutative(post, pre);
    assert(q.remove(i) =~= pre + post);
    vstd::seq_lib::to_multiset_remove(q, i);
    assert(q.to_multiset().remove(q[i]).insert(q[i]) =~= q.to_multiset());
}

/// Scheduler state after `migrate_task` moves the first `task_id` of CPU
/// `from`'s runqueue (at position `i`) to CPU `to`: the tasks before it go
/// to the back of the source runqueue; if the destination is full the task
/// goes back to the source runqueue's back.
pub open spec fn migrate_result(v: SchedView, from: int, to: int, i: int, task_id: usize) -> (SchedView, bool) {
    let q = v.cpus[from].runqueue;
    let src = rotate_out(q, i);
    let dst = v.cpus[to].runqueue;
    if dst.len() < QUEUE_CAPACITY {
        (
            SchedView {
                cpus: v.cpus.update(from, CpuView { runqueue: src, ..v.cpus[from] }).update(
                    to,
                    CpuView { runqueue: dst.push(task_id), ..v.cpus[to] },
                ),
                ..v
            },
            true,
        )
    } else {
        (SchedView { cpus: v.cpus.update(from, CpuView { runqueue: src.push(task_id), ..v.cpus[from] }), ..v }, false)
    }
}

/// Move task `task_id` from CPU `from_cpu`'s runqueue to CPU `to_cpu`'s:
/// true when it moved (the caller then sends `to_cpu` a reschedule
/// interrupt). False, with nothing changed, for equal or unknown CPUs or a
/// task not in the source runqueue. No task is lost or duplicated.
pub fn migrate_task(sched: &mut Scheduler, task_id: TaskId, from_cpu: usize, to_cpu: usize) -> (r: bool)
    requires
        old(sched).wf(),
    ensures
        final(sched).wf(),
        queued(final(sched)@.cpus) == queued(old(sched)@.cpus),
        from_cpu == to_cpu || from_cpu >= old(sched)@.cpus.len() || to_cpu >= old(sched)@.cpus.len() ==> !r
            && final(sched)@ == old(sched)@,
        from_cpu != to_cpu && from_cpu < old(sched)@.cpus.len() && to_cpu < old(sched)@.cpus.len() ==> {
            let q = old(sched)@.cpus[from_cpu as int].runqueue;
            &&& !q.contains(task_id) ==> !r && final(sched)@ == old(sched)@
            &&& forall|i: int| first_index(q, task_id, i) ==> (final(sched)@, r) == migrate_result(
                old(sched)@,
                from_cpu as int,
                to_cpu as int,
                i,
                task_id,
            )
        },
{
    if from_cpu == to_cpu {
        return false;
    }
    let cpu_count = sched.cpus.len();
    if from_cpu >= cpu_count || to_cpu >= cpu_count {
        return false;
    }
    let ghost v = old(sched)@;
    let ghost q = v.cpus[from_cpu as int].runqueue;
    proof {
        sched.lemma_wf();
    }
    let mut temp: Vec<usize> = Vec::new();
    let mut found = false;
    loop
        invariant_except_break
            temp@.len() <= q.len(),
            temp@ == q.subrange(0, temp@.len() as int),
            sched@.cpus[from_cpu as int].runqueue == q.subrange(temp@.len() as int, q.len() as int),
            forall|j: int| 0 <= j < temp@.len() ==> #[trigger] q[j] != task_id,
            !found,
        invariant
            sched.wf(),
            cpu_count == sched@.cpus.len(),
            from_cpu < cpu_count,
            to_cpu < cpu_count,
            from_cpu != to_cpu,
            q == v.cpus[from_cpu as int].runqueue,
            q.len() <= QUEUE_CAPACITY,
            sched@.tasks == v.tasks,
            sched@.next_tid == v.next_tid,
            sched@.cpus.len() == v.cpus.len(),
            forall|j: int| 0 <= j < v.cpus.len() && j != from_cpu ==> #[trigger] sched@.cpus[j] == v.cpus[j],
            sched@.cpus[from_cpu as int].current_task == v.cpus[from_cpu as int].current_task,
            sched@.cpus[from_cpu as int].idle_task == v.cpus[from_cpu as int].idle_task,
        ensures
            temp@.len() <= q.len(),
            temp@ == q.subrange(0, temp@.len() as int),
            forall|j: int| 0 <= j < temp@.len() ==> #[trigger] q[j] != task_id,
            found ==> temp@.len() < q.len() && q[temp@.len() as int] == task_id && sched@.cpus[from_cpu as int].runqueue
                == q.subrange(temp@.len() as int + 1, q.len() as int),
            !found ==> temp@.len() == q.len() && sched@.cpus[from_cpu as int].runqueue == Seq::<usize>::empty(),
        decreases q.len() - temp@.len(),
    {
        let ghost before = sched@;
        match sched.cpus[from_cpu].runqueue.pop_front() {
            None => {
                proof {
                    assert(sched@.cpus =~= before.cpus);
                }
                break;
            },
            Some(tid) => {
                proof {
                    assert(sched@.cpus =~= before.cpus.update(
                        from_cpu as int,
                        CpuView { runqueue: before.cpus[from_cpu as int].runqueue.drop_first(), ..before.cpus[from_cpu as int] },
                    ));
                    assert(tid == q[temp@.len() as int]);
                    assert(q.subrange(temp@.len() as int, q.len() as int).drop_first() =~= q.subrange(
                        temp@.len() as int + 1,
                        q.len() as int,
                    ));
                }
                if tid == task_id {
                    found = true;
                    break;
                }
                temp.push(tid);
                proof {
                    assert(temp@ =~= q.subrange(0, temp@.len() as int));
                }
            },
        }
    }
    let ghost k = temp@.len();
    let ghost base = sched@.cpus[from_cpu as int].runqueue;
    let mut i: usize = 0;
    while i < temp.len()
        invariant
            sched.wf(),
            cpu_count == sched@.cpus.len(),
            from_cpu < cpu_count,
            i <= temp@.len(),
            temp@.len() == k,
            base.len() + k <= QUEUE_CAPACITY,
            sched@.cpus[from_cpu as int].runqueue == base + temp@.subrange(0, i as int),
            sched@.tasks == v.tasks,
            sched@.next_tid == v.next_tid,
            sched@.cpus.len() == v.cpus.len(),
            forall|j: int| 0 <= j < v.cpus.len() && j != from_cpu ==> #[trigger] sched@.cpus[j] == v.cpus[j],
            sched@.cpus[from_cpu as int].current_task == v.cpus[from_cpu as int].current_task,
            sched@.cpus[from_cpu as int].idle_task == v.cpus[from_cpu as int].idle_task,
        decreases temp@.len() - i,
    {
        let ghost before = sched@;
        let x = temp[i];
        let _ = sched.cpus[from_cpu].runqueue.push_back(x);
        proof {
            assert(temp@.subrange(0, i + 1) =~= temp@.subrange(0, i as int).push(x));
            assert(sched@.cpus =~= before.cpus.update(
                from_cpu as int,
                CpuView { runqueue: base + temp@.subrange(0, i + 1), ..before.cpus[from_cpu as int] },
            ));
        }
        i = i + 1;
    }
    proof {
        assert(temp@.subrange(0, k as int) =~= temp@);
    }
    if !found {
        proof {
            assert(base + temp@ =~= q);
            assert(sched@.cpus =~= v.cpus);
            assert(!q.contains(task_id));
            assert(sched@ == v);
        }
        return false;
    }
    let ghost src = sched@.cpus[from_cpu as int].runqueue;
    proof {
        assert(first_index(q, task_id, k as int));
        assert(src =~= rotate_out(q, k as int));
        assert forall|i2: int| first_index(q, task_id, i2) implies i2 == k by {
            if i2 < k {
                assert(q[i2] != task_id);
            } else if i2 > k {
                assert(q[k as int] != task_id);
            }
        }
        lemma_rotate_out_multiset(q, k as int);
    }
    let ghost mid = sched@;
    proof {
        assert(mid.cpus[from_cpu as int] == (CpuView { runqueue: src, ..v.cpus[from_cpu as int] }));
        assert(mid.cpus =~= v.cpus.update(from_cpu as int, CpuView { runqueue: src, ..v.cpus[from_cpu as int] }));
    }
    if !sched.cpus[to_cpu].runqueue.push_back(task_id) {
        proof {
            assert(sched@.cpus =~= mid.cpus);
        }
        let _ = sched.cpus[from_cpu].runqueue.push_back(task_id);
        proof {
            let c1 = CpuView { runqueue: src.push(task_id), ..v.cpus[from_cpu as int] };
            assert(sched@.cpus[from_cpu as int] == c1);
            assert forall|j: int| 0 <= j < v.cpus.len() implies #[trigger] sched@.cpus[j] == v.cpus.update(
                from_cpu as int,
                c1,
            )[j] by {
                if j != from_cpu {
                    assert(sched@.cpus[j] == mid.cpus[j]);
                }
            }
            assert(sched@.cpus =~= v.cpus.update(from_cpu as int, c1));
            broadcast use vstd::seq_lib::group_to_multiset_ensures;
            assert(src.push(task_id).to_multiset() =~= q.to_multiset());
            lemma_queued_one(v.cpus, from_cpu as int, c1);
        }
        return false;
    }
    proof {
        let c1 = CpuView { runqueue: src, ..v.cpus[from_cpu as int] };
        let cpus1 = v.cpus.update(from_cpu as int, c1);
        let dst = v.cpus[to_cpu as int].runqueue;
        let c2 = CpuView { runqueue: dst.push(task_id), ..v.cpus[to_cpu as int] };
        assert(mid.cpus[to_cpu as int] == v.cpus[to_cpu as int]);
        assert(sched@.cpus[to_cpu as int].runqueue == dst.push(task_id));
        assert(sched@.cpus[to_cpu as int] == c2);
        assert forall|j: int| 0 <= j < v.cpus.len() implies #[trigger] sched@.cpus[j] == cpus1.update(
            to_cpu as int,
            c2,
        )[j] by {
            if j != to_cpu {
                assert(sched@.cpus[j] == mid.cpus[j]);
            }
        }
        assert(sched@.cpus =~= cpus1.update(to_cpu as int, c2));
        broadcast use vstd::seq_lib::group_to_multiset_ensures;
        broadcast use vstd::multiset::group_multiset_axioms;
        assert(dst.push(task_id).to_multiset() =~= dst.to_multiset().insert(task_id));
        assert(src.to_multiset().add(dst.push(task_id).to_multiset()) =~= q.to_multiset().add(dst.to_multiset()));
        lemma_queued_two(v.cpus, from_cpu as int, to_cpu as int, c1, c2);
    }
    true
}

/// CPU `i` has the longest runqueue, and no CPU before it is as long.
pub open spec fn most_loaded(cpus: Seq<CpuView>, i: int) -> bool {
    &&& 0 <= i < cpus.len()
    &&& forall|j: int| 0 <= j < cpus.len() ==> (#[trigger] cpus[j]).runqueue.len() <= cpus[i].runqueue.len()
    &&& forall|j: int| 0 <= j < i ==> (#[trigger] cpus[j]).runqueue.len() < cpus[i].runqueue.len()
}

/// Balance the runqueues: when the longest (the first such) holds more
/// than two tasks beyond the shortest (the first such), its front task
/// moves to the back of the shortest. Answers how many tasks moved. No task
/// is lost or duplicated.
pub fn balance_load(sched: &mut Scheduler) -> (r: usize)
    requires
        old(sched).wf(),
    ensures
        final(sched).wf(),
        queued(final(sched)@.cpus) == queued(old(sched)@.cpus),
        old(sched)@.cpus.len() <= 1 ==> r == 0 && final(sched)@ == old(sched)@,
        old(sched)@.cpus.len() > 1 ==> forall|a: int, b: int|
            most_loaded(old(sched)@.cpus, a) && least_loaded(old(sched)@.cpus, b) ==> ({
                let qa = old(sched)@.cpus[a].runqueue;
                let qb = old(sched)@.cpus[b].runqueue;
                if qa.len() <= qb.len() + 2 {
                    r == 0 && final(sched)@ == old(sched)@
                } else {
                    &&& r == 1
                    &&& final(sched)@ == (SchedView {
                        cpus: old(sched)@.cpus.update(a, CpuView { runqueue: qa.drop_first(), ..old(sched)@.cpus[a] }).update(
                            b,
                            CpuView { runqueue: qb.push(qa[0]), ..old(sched)@.cpus[b] },
                        ),
                        ..old(sched)@
                    })
                }
            }),
{
    let cpu_count = sched.cpus.len();
    if cpu_count <= 1 {
        return 0;
    }
    let ghost v = old(sched)@;
    proof {
        sched.lemma_wf();
    }
    let mut max_cpu: usize = 0;
    let mut max_size: usize = 0;
    let mut min_cpu: usize = 0;
    let mut min_size: usize = usize::MAX;
    let mut i: usize = 0;
    while i < cpu_count
        invariant
            sched.wf(),
            sched@ == v,
            cpu_count == v.cpus.len(),
            i <= cpu_count,
            i == 0 ==> min_size == usize::MAX && min_cpu == 0 && max_size == 0 && max_cpu == 0,
            i > 0 ==> min_cpu < i && min_size == v.cpus[min_cpu as int].runqueue.len(),
            i > 0 ==> max_cpu < i && max_size == v.cpus[max_cpu as int].runqueue.len(),
            forall|j: int| 0 <= j < i ==> min_size <= (#[trigger] v.cpus[j]).runqueue.len(),
            forall|j: int| 0 <= j < min_cpu ==> (#[trigger] v.cpus[j]).runqueue.len() > min_size,
            forall|j: int| 0 <= j < i ==> (#[trigger] v.cpus[j]).runqueue.len() <= max_size,
            forall|j: int| 0 <= j < max_cpu ==> (#[trigger] v.cpus[j]).runqueue.len() < max_size,
        decreases cpu_count - i,
    {
        let size = sched.cpus[i].runqueue.len();
        if size > max_size {
            max_size = size;
            max_cpu = i;
        }
        if size < min_size {
            min_size = size;
            min_cpu = i;
        }
        i = i + 1;
    }
    proof {
        assert(most_loaded(v.cpus, max_cpu as int));
        assert(least_loaded(v.cpus, min_cpu as int));
        assert forall|a: int| most_loaded(v.cpus, a) implies a == max_cpu by {
            if a < max_cpu {
                assert(v.cpus[a].runqueue.len() < max_size);
            } else if a > max_cpu {
                assert(v.cpus[max_cpu as int].runqueue.len() < v.cpus[a].runqueue.len());
            }
        }
        assert forall|b: int| least_loaded(v.cpus, b) implies b == min_cpu by {
            if b < min_cpu {
                assert(v.cpus[b].runqueue.len() > min_size);
            } else if b > min_cpu {
                assert(v.cpus[min_cpu as int].runqueue.len() > v.cpus[b].runqueue.len());
            }
        }
    }
    if max_size <= min_size + 2 {
        return 0;
    }
    let ghost qa = v.cpus[max_cpu as int].runqueue;
    let ghost qb = v.cpus[min_cpu as int].runqueue;
    let popped = sched.cpus[max_cpu].runqueue.pop_front();
    let ghost ca = CpuView { runqueue: qa.drop_first(), ..v.cpus[max_cpu as int] };
    proof {
        assert(sched@.cpus =~= v.cpus.update(max_cpu as int, ca));
    }
    match popped {
        Some(task_id) => {
            let ghost mid = sched@;
            if sched.cpus[min_cpu].runqueue.push_back(task_id) {
                proof {
                    let cb = CpuView { runqueue: qb.push(task_id), ..v.cpus[min_cpu as int] };
                    assert(sched@.cpus =~= v.cpus.update(max_cpu as int, ca).update(min_cpu as int, cb));
                    broadcast use vstd::seq_lib::group_to_multiset_ensures;
                    broadcast use vstd::multiset::group_multiset_axioms;
                    assert(qa.drop_first() =~= qa.remove(0));
                    assert(qa.drop_first().to_multiset() =~= qa.to_multiset().remove(qa[0]));
                    assert(qb.push(task_id).to_multiset() =~= qb.to_multiset().insert(task_id));
                    assert(ca.runqueue.to_multiset().add(cb.runqueue.to_multiset()) =~= qa.to_multiset().add(qb.to_multiset()));
                    lemma_queued_two(v.cpus, max_cpu as int, min_cpu as int, ca, cb);
                }
                return 1;
            } else {
                let _ = sched.cpus[max_cpu].runqueue.push_back(task_id);
                proof {
                    assert(false);
                }
            }
        },
        None => {
            proof {
                assert(false);
            }
        },
    }
    0
}

} // verus!
