use mellos::mm::allocator::BuddyAllocator;
use mellos::sched::context::CpuContext;
use mellos::sched::priority::TaskPriority;
use mellos::sched::task::{SchedulerError, TaskState, STACK_SIZE};
use mellos::sched::timer::{get_tick_count, pit_divisor, IdtEntry, TickCounter};
use mellos::sched::{
    balance_load, dequeue_task, enqueue_task, get_current_task_info, get_task_priority, init_scheduler,
    migrate_task, schedule_on_core, sleep_current_task, spawn_task, start_first_task, Scheduler, MAX_TASKS,
};
use mellos::signal::security::{is_job_control_signal, validate_signal_handler, validate_signal_number};
use mellos::signal::signals;
use mellos::signal::SigHandler;
use mellos::sched::task::USER_LIMIT;
use mellos::sync::seqlock::SeqLock;
use mellos::signal::SigAction;
use mellos::sys::port::PortManager;
use mellos::sys::KernelMetrics;
use mellos::sys::task_calls::{
    in_kernel_context, sys_fork, sys_getpgrp, sys_getpid, sys_getsid, sys_ipc_recv, sys_ipc_send, sys_setpgid,
    sys_setsid, sys_sigaction, sys_sleep, IpcRecvStep, FIRST_FORK_PID,
};

#[test]
fn test_context_creation() {
    let ctx = CpuContext::new();
    assert_eq!(ctx.r15, 0);
    assert_eq!(ctx.r14, 0);
    assert_eq!(ctx.r13, 0);
    assert_eq!(ctx.r12, 0);
    assert_eq!(ctx.rbp, 0);
    assert_eq!(ctx.rbx, 0);
    assert_eq!(ctx.rsp, 0);
}

#[test]
fn test_context_layout() {
    assert_eq!(core::mem::size_of::<CpuContext>(), 56);

    assert_eq!(core::mem::align_of::<CpuContext>(), 8);
}

#[test]
fn test_validate_signal_number() {
    assert!(validate_signal_number(signals::SIGINT).is_ok());
    assert!(validate_signal_number(signals::SIGTERM).is_ok());

    assert!(validate_signal_number(0).is_err());
    assert!(validate_signal_number(signals::MAX_SIGNAL).is_err());
    assert!(validate_signal_number(100).is_err());
}

#[test]
fn test_validate_signal_handler() {
    assert!(validate_signal_handler(SigHandler::Default, None).is_ok());
    assert!(validate_signal_handler(SigHandler::Ignore, None).is_ok());
    assert!(validate_signal_handler(SigHandler::Custom(0x1000), None).is_ok());

    assert!(validate_signal_handler(SigHandler::Custom(0), None).is_err());
    assert!(validate_signal_handler(SigHandler::Custom(USER_LIMIT), None).is_err());
    assert!(validate_signal_handler(SigHandler::Custom(0xFFFF_8000_0000_0000), None).is_err());
}

#[test]
fn test_is_job_control_signal() {
    assert!(is_job_control_signal(signals::SIGINT));
    assert!(is_job_control_signal(signals::SIGTSTP));
    assert!(is_job_control_signal(signals::SIGCONT));

    assert!(!is_job_control_signal(signals::SIGKILL));
    assert!(!is_job_control_signal(signals::SIGTERM));
    assert!(!is_job_control_signal(signals::SIGHUP));
}

#[test]
fn test_seqlock_basic() {
    let mut seqlock = SeqLock::new(42);

    let value = seqlock.read(|data: &i32| *data);
    assert_eq!(value, 42);

    {
        let guard = seqlock.write();
        seqlock.set(&guard, 100);
        seqlock.end_write(guard);
    }

    let value = seqlock.read(|data: &i32| *data);
    assert_eq!(value, 100);
}

#[test]
fn test_seqlock_try_read() {
    let seqlock = SeqLock::new(42);

    // Try read should succeed
    let value = seqlock.try_read(|data: &i32| *data);
    assert_eq!(value, Some(42));
}

#[test]
fn test_seqlock_try_write() {
    let mut seqlock = SeqLock::new(42);

    let guard = seqlock.try_write();
    assert!(guard.is_some());
}

#[test]
fn seqlock_refuses_second_writer() {
    let mut seqlock = SeqLock::new(1u8);
    let guard = seqlock.try_write().unwrap();
    assert!(seqlock.try_write().is_none());
    assert_eq!(seqlock.try_read(|d: &u8| *d), None);
    seqlock.end_write(guard);
    assert_eq!(seqlock.try_read(|d: &u8| *d), Some(1));
}

fn sched_with(cpus: usize) -> Scheduler {
    init_scheduler(cpus, 0x40_0000, 0x1234).unwrap()
}

#[test]
fn init_scheduler_needs_idle_stack() {
    assert!(matches!(init_scheduler(1, 0, 0x1234), Err(SchedulerError::OutOfMemory)));
    let s = sched_with(2);
    assert_eq!(s.cpu_count(), 2);
    assert_eq!(get_task_priority(&s, 0), Some((0, TaskPriority::Low)));
    assert_eq!(get_task_priority(&s, 1), None);
    assert_eq!(get_task_priority(&s, MAX_TASKS), None);
}

#[test]
fn enqueue_picks_least_loaded_and_reports_ipi() {
    let mut s = sched_with(3);
    assert_eq!(enqueue_task(&mut s, 5, None, 0), None);
    assert_eq!(enqueue_task(&mut s, 6, None, 0), Some(1));
    assert_eq!(enqueue_task(&mut s, 7, None, 0), Some(2));
    assert_eq!(enqueue_task(&mut s, 8, Some(9), 0), None);
    assert_eq!(dequeue_task(&mut s, 0), Some(5));
    assert_eq!(dequeue_task(&mut s, 0), Some(8));
    assert_eq!(dequeue_task(&mut s, 0), None);
}

#[test]
fn round_robin_on_one_core() {
    let mut heap = Some(BuddyAllocator::init(0x100_0000, 0x10_0000));
    let mut s = sched_with(1);
    let (a, _) = spawn_task(&mut s, &mut heap, "a", 0x1000, TaskPriority::Normal, 0).unwrap();
    let (b, _) = spawn_task(&mut s, &mut heap, "b", 0x2000, TaskPriority::High, 0).unwrap();
    assert_eq!((a, b), (1, 2));
    assert_eq!(start_first_task(&mut s, 0), Some(a));
    assert_eq!(get_current_task_info(&s, 0), Some((a, TaskPriority::Normal)));
    assert_eq!(schedule_on_core(&mut s, 0), Some((a, b)));
    assert_eq!(schedule_on_core(&mut s, 0), Some((b, a)));
    assert_eq!(schedule_on_core(&mut s, 0), Some((a, b)));
    assert!(sleep_current_task(&mut s, 0, 500, TaskPriority::High));
    assert_eq!(schedule_on_core(&mut s, 0), Some((b, a)));
    assert_eq!(schedule_on_core(&mut s, 0), Some((a, a)));
}

#[test]
fn spawn_fails_without_heap() {
    let mut heap: Option<BuddyAllocator> = None;
    let mut s = sched_with(1);
    assert!(matches!(
        spawn_task(&mut s, &mut heap, "x", 0x1000, TaskPriority::Low, 0),
        Err(SchedulerError::OutOfMemory)
    ));
}

#[test]
fn spawn_runs_out_of_task_ids() {
    let mut heap = Some(BuddyAllocator::init(0x100_0000, 0x100_0000));
    let mut s = sched_with(4);
    for _ in 1..MAX_TASKS {
        assert!(spawn_task(&mut s, &mut heap, "t", 0x1000, TaskPriority::Low, 0).is_ok());
    }
    assert!(matches!(
        spawn_task(&mut s, &mut heap, "t", 0x1000, TaskPriority::Low, 0),
        Err(SchedulerError::TooManyTasks)
    ));
}

#[test]
fn migrate_rotates_source_queue() {
    let mut s = sched_with(2);
    for t in [1, 2, 3, 4] {
        enqueue_task(&mut s, t, Some(0), 0);
    }
    assert!(!migrate_task(&mut s, 3, 0, 0));
    assert!(!migrate_task(&mut s, 3, 0, 5));
    assert!(!migrate_task(&mut s, 9, 0, 1));
    assert!(migrate_task(&mut s, 3, 0, 1));
    assert_eq!(dequeue_task(&mut s, 1), Some(3));
    assert_eq!(dequeue_task(&mut s, 0), Some(4));
    assert_eq!(dequeue_task(&mut s, 0), Some(1));
    assert_eq!(dequeue_task(&mut s, 0), Some(2));
}

#[test]
fn balance_moves_one_task_when_imbalanced() {
    let mut s = sched_with(2);
    for t in [1, 2, 3] {
        enqueue_task(&mut s, t, Some(0), 0);
    }
    assert_eq!(balance_load(&mut s), 1);
    assert_eq!(dequeue_task(&mut s, 1), Some(1));
    assert_eq!(balance_load(&mut s), 0);
    let mut single = sched_with(1);
    enqueue_task(&mut single, 1, None, 0);
    assert_eq!(balance_load(&mut single), 0);
}

#[test]
fn tick_counter_and_pit_divisor() {
    let mut c = TickCounter::new();
    c.tick();
    c.tick();
    assert_eq!(get_tick_count(&c), 2);
    assert_eq!(pit_divisor(100), (11931, 0x9B, 0x2E));
    let mut e = IdtEntry::new();
    e.set_handler(0xFFFF_8000_1234_5678, 0x08);
    assert_eq!(e.offset_low, 0x5678);
    assert_eq!(e.offset_mid, 0x1234);
    assert_eq!(e.offset_high, 0xFFFF_8000);
    assert_eq!(e.type_attr, 0x8E);
    e.set_handler_user(0x1000, 0x08);
    assert_eq!(e.type_attr, 0xEE);
}

#[test]
fn stack_size_is_two_pages() {
    assert_eq!(STACK_SIZE, 8192);
    let _ = TaskState::Ready;
}

fn two_task_sched() -> (Scheduler, usize, usize) {
    let mut heap = Some(BuddyAllocator::init(0x100_0000, 0x10_0000));
    let mut s = sched_with(1);
    let (a, _) = spawn_task(&mut s, &mut heap, "a", 0x1000, TaskPriority::Normal, 0).unwrap();
    let (b, _) = spawn_task(&mut s, &mut heap, "b", 0x2000, TaskPriority::Normal, 0).unwrap();
    (s, a, b)
}

#[test]
fn process_group_and_session_calls() {
    let (mut s, a, b) = two_task_sched();
    assert!(in_kernel_context(&s, 0));
    assert_eq!(sys_getpid(&s, 0), 1);
    assert_eq!(sys_getpgrp(&s, 0), -1);
    assert_eq!(start_first_task(&mut s, 0), Some(a));
    assert!(!in_kernel_context(&s, 0));
    assert_eq!(sys_getpid(&s, 0), a as isize);
    assert_eq!(sys_setsid(&mut s, 0), -1);
    assert_eq!(sys_setpgid(&mut s, 0, 0, 77), 0);
    assert_eq!(sys_getpgrp(&s, 0), 77);
    assert_eq!(sys_setpgid(&mut s, 0, b, 5), -1);
    assert_eq!(sys_setsid(&mut s, 0), a as isize);
    assert_eq!(sys_getpgrp(&s, 0), a as isize);
    assert_eq!(sys_getsid(&s, 0, 0), a as isize);
    assert_eq!(sys_getsid(&s, 0, b), b as isize);
    assert_eq!(sys_getsid(&s, 0, 99), -1);
    let mut next = FIRST_FORK_PID;
    assert_eq!(sys_fork(&mut next), 2000);
    assert_eq!(sys_fork(&mut next), 2001);
}

#[test]
fn sleep_and_signal_action_calls() {
    let (mut s, a, _b) = two_task_sched();
    let mut metrics = KernelMetrics::new();
    assert_eq!(sys_sleep(&mut s, &mut metrics, 0, 10), (-1, false));
    assert_eq!(start_first_task(&mut s, 0), Some(a));
    assert_eq!(sys_sleep(&mut s, &mut metrics, 0, 0), (0, false));
    let handler = SigAction::custom(0x4000, 0, 0);
    assert_eq!(sys_sigaction(&mut s, 0, 9, 0x1000, 0, handler), (-1, None));
    assert_eq!(sys_sigaction(&mut s, 0, 0, 0x1000, 0, handler), (-1, None));
    assert_eq!(sys_sigaction(&mut s, 0, 2, 0x1000, 0, handler), (0, None));
    assert_eq!(sys_sigaction(&mut s, 0, 2, 0, 0x2000, handler), (0, Some(handler)));
    let bad = SigAction::custom(USER_LIMIT, 0, 0);
    assert_eq!(sys_sigaction(&mut s, 0, 2, 0x1000, 0x2000, bad), (-1, Some(handler)));
    assert_eq!(sys_sigaction(&mut s, 0, 2, 0x1000, USER_LIMIT, handler), (-1, None));
    assert_eq!(sys_sleep(&mut s, &mut metrics, 0, 10), (0, true));
    assert_eq!(metrics.sleep_count, 1);
}

#[test]
fn ipc_calls_block_and_wake() {
    let (mut s, a, b) = two_task_sched();
    let mut metrics = KernelMetrics::new();
    let mut ports = PortManager::new();
    assert!(ports.create_port(3).is_ok());
    assert_eq!(start_first_task(&mut s, 0), Some(a));
    let mut buf = [0u8; 8];
    assert_eq!(sys_ipc_recv(&mut s, &mut ports, &mut metrics, 0, 3, 0x3000, 0, &mut buf), IpcRecvStep::Done(0));
    assert_eq!(sys_ipc_recv(&mut s, &mut ports, &mut metrics, 0, 3, USER_LIMIT - 4, 8, &mut buf), IpcRecvStep::Done(-1));
    assert_eq!(sys_ipc_recv(&mut s, &mut ports, &mut metrics, 0, 3, 0x3000, 8, &mut buf), IpcRecvStep::Block);
    assert_eq!(sys_ipc_send(&mut s, &mut ports, &mut metrics, 0, 9, 0x3000, 4, b"ping"), (-1, None));
    assert_eq!(sys_ipc_send(&mut s, &mut ports, &mut metrics, 0, 3, 0x3000, 4, b"ping"), (0, None));
    assert_eq!(dequeue_task(&mut s, 0), Some(b));
    assert_eq!(dequeue_task(&mut s, 0), Some(a));
    assert_eq!(sys_ipc_recv(&mut s, &mut ports, &mut metrics, 0, 3, 0x3000, 8, &mut buf), IpcRecvStep::Done(4));
    assert_eq!(&buf[..4], b"ping");
    assert_eq!(metrics.ipc_sends, 1);
    assert_eq!(metrics.ipc_recvs, 1);
}
