//! Starting the init process: a high-priority launcher task when the init
//! ELF image is present, else the compatibility init task when the plain
//! image is present.
use vstd::prelude::*;

use crate::mm::allocator::BuddyAllocator;
use crate::sched::priority::TaskPriority;
use crate::sched::task::SchedulerResult;
use crate::sched::{
    lists_after_stack, runqueues_full, spawn_owed, spawn_task, stack_block, stack_granted, Scheduler, SchedView, MAX_TASKS,
};
use crate::mm::allocator::{lemma_take_block_none_keeps, size_order, take_block};
use crate::sched::task::STACK_SIZE;
use crate::sched::task::TaskId;

verus! {

/// Spawn the compatibility init task (normal priority) when the init image
/// is present: the CPU to send a reschedule interrupt to, if any; nothing
/// when the image is empty.
fn load_init_process_phase4(
    sched: &mut Scheduler,
    heap: &mut Option<BuddyAllocator>,
    binary_len: usize,
    wrapper_entry: u64,
    current_cpu: usize,
) -> (r: Result<Option<usize>, &'static str>)
    requires
        old(sched).wf(),
        *old(heap) is Some ==> (*old(heap)).unwrap().wf(),
    ensures
        final(sched).wf(),
        *old(heap) is None ==> *final(heap) is None,
        *final(heap) is Some ==> (*final(heap)).unwrap().wf(),
        binary_len == 0 ==> r == Ok::<Option<usize>, &'static str>(None) && final(sched)@ == old(sched)@
            && *final(heap) == *old(heap),
        binary_len != 0 ==> spawned_init(old(sched)@, *old(heap), final(sched)@, r, TaskPriority::Normal),
{
    if binary_len == 0 {
        return Ok(None);
    }
    match spawn_task(sched, heap, "init", wrapper_entry, TaskPriority::Normal, current_cpu) {
        Ok((_, ipi)) => {
            proof {
                sched.lemma_wf();
            }
            Ok(ipi)
        },
        Err(_) => Err("Failed to spawn init task"),
    }
}

/// Slot `id` of the task table holds a task named "init" with priority
/// `priority`.
pub open spec fn init_task_at(v: SchedView, id: int, priority: TaskPriority) -> bool {
    0 <= id < v.tasks.len() && (v.tasks[id] matches Some(t) && t.name == "init" && t.priority == priority)
}

/// The spawn of the init task with priority `priority` on `before` and
/// `heap`: Ok exactly when the spawn is owed, and the task then stands under
/// the next task ID; the error otherwise.
pub open spec fn spawned_init(
    before: SchedView,
    heap: Option<BuddyAllocator>,
    after: SchedView,
    r: Result<Option<usize>, &'static str>,
    priority: TaskPriority,
) -> bool {
    &&& r is Ok <==> spawn_owed(before, heap)
    &&& r is Ok ==> init_task_at(after, before.next_tid as int, priority)
    &&& r is Err ==> r == Err::<Option<usize>, &'static str>("Failed to spawn init task")
}

/// A second stack allocation, after a first that took a block but could not
/// use it, gives a usable stack.
pub open spec fn retry_stack_granted(heap: Option<BuddyAllocator>) -> bool {
    heap is Some && (take_block(lists_after_stack(heap), size_order(STACK_SIZE as nat)).1 matches Some(b) && b != 0 && b
        + STACK_SIZE <= u64::MAX)
}

/// After the launcher's spawn failed on `v` and `heap`, the compatibility
/// spawn succeeds: the first failed for want of a stack alone, and a task ID
/// and a stack are still to be had.
pub open spec fn retry_owed(v: SchedView, heap: Option<BuddyAllocator>) -> bool {
    &&& v.next_tid < MAX_TASKS && !runqueues_full(v.cpus) && !stack_granted(heap)
    &&& v.next_tid + 1 < MAX_TASKS
    &&& retry_stack_granted(heap)
}

/// Start the init process. With an init ELF image (`elf_len` bytes), a
/// high-priority launcher task starting at `launcher_entry` is spawned; if
/// that fails, or without an ELF image, the compatibility path spawns the
/// init task at `wrapper_entry` when the plain image (`binary_len` bytes) is
/// present. Answers the CPU to send a reschedule interrupt to, if any.
///
/// Error ("Failed to spawn init task"): the spawns that were tried all
/// failed.
pub fn load_init_process(
    sched: &mut Scheduler,
    heap: &mut Option<BuddyAllocator>,
    elf_len: usize,
    binary_len: usize,
    launcher_entry: u64,
    wrapper_entry: u64,
    current_cpu: usize,
) -> (r: Result<Option<usize>, &'static str>)
    requires
        old(sched).wf(),
        *old(heap) is Some ==> (*old(heap)).unwrap().wf(),
    ensures
        final(sched).wf(),
        *old(heap) is None ==> *final(heap) is None,
        *final(heap) is Some ==> (*final(heap)).unwrap().wf(),
        elf_len == 0 && binary_len == 0 ==> r == Ok::<Option<usize>, &'static str>(None) && final(sched)@ == old(sched)@
            && *final(heap) == *old(heap),
        elf_len == 0 && binary_len != 0 ==> spawned_init(old(sched)@, *old(heap), final(sched)@, r, TaskPriority::Normal),
        elf_len != 0 && spawn_owed(old(sched)@, *old(heap)) ==> r is Ok && init_task_at(
            final(sched)@,
            old(sched)@.next_tid as int,
            TaskPriority::High,
        ),
        elf_len != 0 && !spawn_owed(old(sched)@, *old(heap)) && binary_len == 0 ==> r == Ok::<
            Option<usize>,
            &'static str,
        >(None),
        elf_len != 0 && !spawn_owed(old(sched)@, *old(heap)) && binary_len != 0 ==> {
            &&& r is Ok <==> retry_owed(old(sched)@, *old(heap))
            &&& r is Ok ==> init_task_at(final(sched)@, old(sched)@.next_tid + 1, TaskPriority::Normal)
            &&& r is Err ==> r == Err::<Option<usize>, &'static str>("Failed to spawn init task")
        },
{
    if elf_len == 0 {
        return load_init_process_phase4(sched, heap, binary_len, wrapper_entry, current_cpu);
    }
    match spawn_task(sched, heap, "init", launcher_entry, TaskPriority::High, current_cpu) {
        Ok((_, ipi)) => {
            proof {
                sched.lemma_wf();
            }
            Ok(ipi)
        },
        Err(_) => {
            let ghost mid = sched@;
            let ghost hmid = *heap;
            let r = load_init_process_phase4(sched, heap, binary_len, wrapper_entry, current_cpu);
            proof {
                if old(sched)@.next_tid < MAX_TASKS && !runqueues_full(old(sched)@.cpus) {
                    assert(mid.next_tid == old(sched)@.next_tid + 1);
                    assert(mid.cpus == old(sched)@.cpus);
                    if (*old(heap)) is Some {
                        lemma_take_block_none_keeps((*old(heap)).unwrap()@.lists, size_order(STACK_SIZE as nat));
                        assert(hmid.unwrap()@.lists == lists_after_stack(*old(heap)));
                        assert(stack_block(hmid) == take_block(lists_after_stack(*old(heap)), size_order(
                            STACK_SIZE as nat,
                        )).1);
                    }
                } else {
                    assert(mid == old(sched)@);
                }
            }
            r
        },
    }
}

} // verus!
