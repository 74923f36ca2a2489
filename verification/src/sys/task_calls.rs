//! System calls on the task table: process IDs, sleeping, process
//! groups and sessions, and signal actions.
use vstd::prelude::*;

use crate::sched::task::{Task, TaskState, USER_LIMIT};
use crate::sched::{
    action_set, current_id, enqueue_on, enqueue_target, get_current_task_info, sleep_current_task, task_at, wake_task,
    SchedView, Scheduler,
};
use crate::sys::ipc::MAX_MESSAGE_SIZE;
use crate::sys::port::{PortManager, RecvOutcome, MAX_MESSAGES_PER_PORT, MAX_PORTS};
use crate::signal::signals::MAX_SIGNAL;
use crate::signal::{is_catchable, SigAction, SigHandler};
use crate::sys::syscall::{spec_valid_user_buffer, validate_user_buffer};
use crate::sys::{counter_inc, wrap_inc, KernelMetrics};

verus! {

/// `sys_getpid`: the ID of the task running on CPU `cpu_id`, or 1 when the
/// CPU runs no task the table holds.
pub fn sys_getpid(sched: &Scheduler, cpu_id: usize) -> (r: isize)
    requires
        sched.wf(),
        cpu_id < sched@.cpus.len(),
    ensures
        r == match current_id(sched@, cpu_id as int) {
            Some(id) => id as isize,
            None => 1isize,
        },
{
    match get_current_task_info(sched, cpu_id) {
        Some((id, _)) => id as isize,
        None => 1,
    }
}

/// `sys_sleep`: put the task running on CPU `cpu_id` to sleep for `ticks`
/// ticks (0 ticks: nothing to do). Returns the result (0, or -1 when the
/// CPU runs no task the table holds) and whether the caller must now
/// switch away from the task.
pub fn sys_sleep(sched: &mut Scheduler, metrics: &mut KernelMetrics, cpu_id: usize, ticks: usize) -> (r: (isize, bool))
    requires
        old(sched).wf(),
        cpu_id < old(sched)@.cpus.len(),
    ensures
        final(sched).wf(),
        ticks == 0 ==> r == (0isize, false) && final(sched)@ == old(sched)@ && *final(metrics) == *old(metrics),
        ticks != 0 && current_id(old(sched)@, cpu_id as int) is None ==> r == (-1isize, false) && final(sched)@
            == old(sched)@ && *final(metrics) == *old(metrics),
        ticks != 0 && current_id(old(sched)@, cpu_id as int) is Some ==> {
            let id = old(sched)@.cpus[cpu_id as int].current_task.unwrap() as int;
            let t = old(sched)@.tasks[id].unwrap();
            &&& r == (0isize, true)
            &&& final(sched)@ == (SchedView {
                tasks: old(sched)@.tasks.update(
                    id,
                    Some(Task { state: TaskState::Sleeping, wake_tick: Some(ticks as u64), ..t }),
                ),
                ..old(sched)@
            })
            &&& *final(metrics) == (KernelMetrics { sleep_count: wrap_inc(old(metrics).sleep_count), ..*old(metrics) })
        },
{
    if ticks == 0 {
        return (0, false);
    }
    let priority = match get_current_task_info(sched, cpu_id) {
        Some((_, p)) => p,
        None => {
            return (-1, false);
        },
    };
    if !sleep_current_task(sched, cpu_id, ticks as u64, priority) {
        return (-1, false);
    }
    metrics.sleep_count = counter_inc(metrics.sleep_count);
    (0, true)
}

/// `sys_getpgrp`: the process group of the task running on CPU `cpu_id`,
/// or -1 when there is none or the table does not hold it.
pub fn sys_getpgrp(sched: &Scheduler, cpu_id: usize) -> (r: isize)
    requires
        sched.wf(),
        cpu_id < sched@.cpus.len(),
    ensures
        r == match current_id(sched@, cpu_id as int) {
            None => -1isize,
            Some(id) => match task_at(sched@.tasks, id as int) {
                None => -1isize,
                Some(t) => t.pgid as isize,
            },
        },
{
    let id = match get_current_task_info(sched, cpu_id) {
        Some((id, _)) => id,
        None => {
            return -1;
        },
    };
    match sched.task(id) {
        Some(t) => t.pgid as isize,
        None => -1,
    }
}

/// `sys_setsid`: make the task running on CPU `cpu_id` the leader of a new
/// session and process group (named by its process ID), detached from its
/// terminal; returns the new session ID. -1 when there is no such task, or
/// when it already leads its process group (nothing changes then).
pub fn sys_setsid(sched: &mut Scheduler, cpu_id: usize) -> (r: isize)
    requires
        old(sched).wf(),
        cpu_id < old(sched)@.cpus.len(),
    ensures
        final(sched).wf(),
        match current_id(old(sched)@, cpu_id as int) {
            None => r == -1 && final(sched)@ == old(sched)@,
            Some(id) => match task_at(old(sched)@.tasks, id as int) {
                None => r == -1 && final(sched)@ == old(sched)@,
                Some(t) => if t.pgid == t.pid {
                    r == -1 && final(sched)@ == old(sched)@
                } else {
                    &&& r == t.pid as isize
                    &&& final(sched)@ == (SchedView {
                        tasks: old(sched)@.tasks.update(id as int, Some(Task { sid: t.pid, pgid: t.pid, tty: None, ..t })),
                        ..old(sched)@
                    })
                },
            },
        },
{
    let id = match get_current_task_info(sched, cpu_id) {
        Some((id, _)) => id,
        None => {
            return -1;
        },
    };
    let (pgid, pid) = match sched.task(id) {
        Some(t) => (t.pgid, t.pid),
        None => {
            return -1;
        },
    };
    if pgid == pid {
        return -1;
    }
    sched.start_session(id);
    pid as isize
}

/// `sys_getsid`: the session of process `pid` (0: the task running on CPU
/// `cpu_id`); -1 when the CPU runs no task the table holds, or when the
/// table does not hold the process.
pub fn sys_getsid(sched: &Scheduler, cpu_id: usize, pid: usize) -> (r: isize)
    requires
        sched.wf(),
        cpu_id < sched@.cpus.len(),
    ensures
        r == match current_id(sched@, cpu_id as int) {
            None => -1isize,
            Some(cid) => {
                let target = if pid == 0 { cid } else { pid };
                match task_at(sched@.tasks, target as int) {
                    None => -1isize,
                    Some(t) => t.sid as isize,
                }
            },
        },
{
    let current = match get_current_task_info(sched, cpu_id) {
        Some((id, _)) => id,
        None => {
            return -1;
        },
    };
    let target = if pid == 0 { current } else { pid };
    match sched.task(target) {
        Some(t) => t.sid as isize,
        None => -1,
    }
}

/// `sys_setpgid`: put process `pid` (0: the task running on CPU `cpu_id`)
/// in process group `pgid` (0: the group named by its process ID). The
/// process must be the caller or a child of it, in the caller's session;
/// -1 (and no change) otherwise, or when the caller or the process is not
/// in the table.
pub fn sys_setpgid(sched: &mut Scheduler, cpu_id: usize, pid: usize, pgid: usize) -> (r: isize)
    requires
        old(sched).wf(),
        cpu_id < old(sched)@.cpus.len(),
    ensures
        final(sched).wf(),
        r == 0 || r == -1,
        r == -1 ==> final(sched)@ == old(sched)@,
        r == 0 <==> ({
            &&& current_id(old(sched)@, cpu_id as int) matches Some(cid)
            &&& task_at(old(sched)@.tasks, cid as int) matches Some(ct)
            &&& task_at(old(sched)@.tasks, (if pid == 0 { cid } else { pid }) as int) matches Some(tt)
            &&& (if pid == 0 { cid } else { pid }) == cid || tt.ppid == cid
            &&& tt.sid == ct.sid
        }),
        r == 0 ==> {
            let cid = current_id(old(sched)@, cpu_id as int).unwrap();
            let target = if pid == 0 { cid } else { pid };
            let tt = old(sched)@.tasks[target as int].unwrap();
            final(sched)@ == (SchedView {
                tasks: old(sched)@.tasks.update(
                    target as int,
                    Some(Task { pgid: if pgid == 0 { target } else { pgid }, ..tt }),
                ),
                ..old(sched)@
            })
        },
{
    let current = match get_current_task_info(sched, cpu_id) {
        Some((id, _)) => id,
        None => {
            return -1;
        },
    };
    let target = if pid == 0 { current } else { pid };
    let target_pgid = if pgid == 0 { target } else { pgid };
    let current_sid = match sched.task(current) {
        Some(t) => t.sid,
        None => {
            return -1;
        },
    };
    let (target_ppid, target_sid) = match sched.task(target) {
        Some(t) => (t.ppid, t.sid),
        None => {
            return -1;
        },
    };
    if target != current && target_ppid != current {
        return -1;
    }
    if target_sid != current_sid {
        return -1;
    }
    sched.set_task_pgid(target, target_pgid);
    0
}

} // verus!

verus! {

/// Bytes a signal action takes in user memory.
pub const SIGACTION_SIZE: u64 = 32;

/// `sys_sigaction`: for the task running on CPU `cpu_id`, hand back the
/// action of `signal` when `oldact_ptr` is not 0, and set the action to
/// `new_act` (what the caller read at `act_ptr`) when `act_ptr` is not 0.
/// Returns the result and the old action to write at `oldact_ptr`.
///
/// Errors (-1): the signal is 0, out of range, or cannot be caught; the
/// CPU runs no task the table holds; a buffer is outside user space; the
/// new handler is outside user space. The old action is still handed back
/// when only the new action is refused.
pub fn sys_sigaction(
    sched: &mut Scheduler,
    cpu_id: usize,
    signal: usize,
    act_ptr: u64,
    oldact_ptr: u64,
    new_act: SigAction,
) -> (r: (isize, Option<SigAction>))
    requires
        old(sched).wf(),
        cpu_id < old(sched)@.cpus.len(),
    ensures
        final(sched).wf(),
        r.0 == 0 || r.0 == -1,
        ({
            let v = old(sched)@;
            let usable = 0 < signal < MAX_SIGNAL && is_catchable_spec(signal) && current_id(v, cpu_id as int) is Some
                && task_at(v.tasks, current_id(v, cpu_id as int).unwrap() as int) is Some;
            let id = current_id(v, cpu_id as int).unwrap();
            let old_act = task_at(v.tasks, id as int).unwrap().signal_handlers@[signal as int];
            let old_ok = oldact_ptr == 0 || spec_valid_user_buffer(oldact_ptr, SIGACTION_SIZE);
            let new_ok = act_ptr == 0 || (spec_valid_user_buffer(act_ptr, SIGACTION_SIZE) && !(
            new_act.handler matches SigHandler::Custom(a) && a >= USER_LIMIT));
            &&& !usable ==> r == (-1isize, None::<SigAction>) && final(sched)@ == v
            &&& usable && !old_ok ==> r == (-1isize, None::<SigAction>) && final(sched)@ == v
            &&& usable && old_ok ==> r.1 == (if oldact_ptr != 0 { Some(old_act) } else { None })
            &&& usable && old_ok && !new_ok ==> r.0 == -1 && final(sched)@ == v
            &&& usable && old_ok && new_ok && act_ptr == 0 ==> r.0 == 0 && final(sched)@ == v
            &&& usable && old_ok && new_ok && act_ptr != 0 ==> r.0 == 0 && action_set(
                v,
                final(sched)@,
                id,
                signal as int,
                new_act,
            )
        }),
{
    if signal == 0 || signal >= MAX_SIGNAL as usize {
        return (-1, None);
    }
    if !is_catchable(signal as u32) {
        return (-1, None);
    }
    let id = match get_current_task_info(sched, cpu_id) {
        Some((id, _)) => id,
        None => {
            return (-1, None);
        },
    };
    let current = match sched.task(id) {
        Some(t) => t.signal_handlers[signal],
        None => {
            return (-1, None);
        },
    };
    let mut old_act: Option<SigAction> = None;
    if oldact_ptr != 0 {
        if !validate_user_buffer(oldact_ptr, SIGACTION_SIZE) {
            return (-1, None);
        }
        old_act = Some(current);
    }
    if act_ptr != 0 {
        if !validate_user_buffer(act_ptr, SIGACTION_SIZE) {
            return (-1, old_act);
        }
        if let SigHandler::Custom(addr) = new_act.handler {
            if addr >= USER_LIMIT {
                return (-1, old_act);
            }
        }
        sched.set_signal_action(id, signal, new_act);
    }
    (0, old_act)
}

/// Whether a signal can be caught: every signal but SIGKILL and SIGSTOP.
pub open spec fn is_catchable_spec(signal: usize) -> bool {
    signal != crate::signal::signals::SIGKILL && signal != crate::signal::signals::SIGSTOP
}

} // verus!

verus! {

/// Whether the caller runs in kernel context: the CPU runs no task the
/// table holds.
pub fn in_kernel_context(sched: &Scheduler, cpu_id: usize) -> (r: bool)
    requires
        sched.wf(),
        cpu_id < sched@.cpus.len(),
    ensures
        r == current_id(sched@, cpu_id as int) is None,
{
    get_current_task_info(sched, cpu_id).is_none()
}

/// Whether a kernel buffer may stand in for a user one: in kernel context,
/// or for a task without memory regions (a kernel task).
pub open spec fn spec_kernel_buffer_allowed(v: SchedView, cpu: int) -> bool {
    match current_id(v, cpu) {
        None => true,
        Some(id) => match task_at(v.tasks, id as int) {
            Some(t) => t.region_count == 0,
            None => false,
        },
    }
}

/// Whether a kernel buffer may stand in for a user one.
pub fn kernel_buffer_allowed(sched: &Scheduler, cpu_id: usize) -> (r: bool)
    requires
        sched.wf(),
        cpu_id < sched@.cpus.len(),
    ensures
        r == spec_kernel_buffer_allowed(sched@, cpu_id as int),
{
    match get_current_task_info(sched, cpu_id) {
        Some((id, _)) => match sched.task(id) {
            Some(t) => t.region_count == 0,
            None => false,
        },
        None => true,
    }
}

/// The buffer `ptr..ptr + len` may be used for IPC: it is in user space,
/// or it is a kernel buffer and those are allowed.
pub open spec fn spec_ipc_buffer_allowed(v: SchedView, cpu: int, ptr: u64, len: u64) -> bool {
    spec_valid_user_buffer(ptr, len) || (ptr >= USER_LIMIT && spec_kernel_buffer_allowed(v, cpu))
}

/// Whether the buffer `ptr..ptr + len` may be used for IPC.
pub fn ipc_buffer_allowed(sched: &Scheduler, cpu_id: usize, ptr: u64, len: u64) -> (r: bool)
    requires
        sched.wf(),
        cpu_id < sched@.cpus.len(),
    ensures
        r == spec_ipc_buffer_allowed(sched@, cpu_id as int, ptr, len),
{
    if validate_user_buffer(ptr, len) {
        return true;
    }
    ptr >= USER_LIMIT && kernel_buffer_allowed(sched, cpu_id)
}

/// `sys_ipc_send`: send `data` (the `len` bytes the caller read at
/// `buf_ptr`) to port `port_id`, waking the first task waiting there.
/// Returns the result (0, or -1) and the CPU to interrupt for the woken
/// task. Nothing is sent for 0 bytes, and -1 comes back when the buffer may
/// not be used or the port refuses the message.
pub fn sys_ipc_send(
    sched: &mut Scheduler,
    ports: &mut PortManager,
    metrics: &mut KernelMetrics,
    cpu_id: usize,
    port_id: usize,
    buf_ptr: u64,
    len: usize,
    data: &[u8],
) -> (r: (isize, Option<usize>))
    requires
        old(sched).wf(),
        old(ports).wf(),
        cpu_id < old(sched)@.cpus.len(),
        len > 0 && spec_ipc_buffer_allowed(old(sched)@, cpu_id as int, buf_ptr, len as u64) ==> data@.len() == len,
    ensures
        final(sched).wf(),
        final(ports).wf(),
        final(metrics).syscall_count == old(metrics).syscall_count,
        (len == 0 || !spec_ipc_buffer_allowed(old(sched)@, cpu_id as int, buf_ptr, len as u64)) ==> {
            &&& r == (if len == 0 { 0isize } else { -1isize }, None::<usize>)
            &&& final(sched)@ == old(sched)@
            &&& final(ports).unchanged_from(old(ports))
            &&& *final(metrics) == *old(metrics)
        },
        len > 0 && spec_ipc_buffer_allowed(old(sched)@, cpu_id as int, buf_ptr, len as u64) ==> {
            let id = port_id as int;
            let ok = port_id < MAX_PORTS && len <= MAX_MESSAGE_SIZE && old(ports).has_port(id) && old(
                ports,
            ).pending(id).len() < MAX_MESSAGES_PER_PORT;
            &&& r.0 == (if ok { 0isize } else { -1isize })
            &&& !ok ==> r.1 is None && final(sched)@ == old(sched)@ && final(ports).unchanged_from(old(ports))
            &&& ok ==> {
                &&& final(ports).pending(id) == old(ports).pending(id).push(data@)
                &&& final(ports).others_unchanged(old(ports), id)
                &&& final(metrics).ipc_sends == crate::sys::wrap_inc(old(metrics).ipc_sends)
                &&& old(ports).blocked(id).len() == 0 ==> r.1 is None && final(sched)@ == old(sched)@
                    && final(ports).blocked(id) == old(ports).blocked(id)
                &&& old(ports).blocked(id).len() > 0 ==> {
                    let w = old(ports).blocked(id)[0];
                    &&& final(ports).blocked(id) == old(ports).blocked(id).drop_first()
                    &&& task_at(old(sched)@.tasks, w as int) is None ==> final(sched)@ == old(sched)@
                        && r.1 is None
                    &&& task_at(old(sched)@.tasks, w as int) matches Some(t) ==> {
                        let woken = SchedView {
                            tasks: old(sched)@.tasks.update(
                                w as int,
                                Some(Task { state: TaskState::Ready, blocked_on_port: None, ..t }),
                            ),
                            ..old(sched)@
                        };
                        forall|cpu: int| enqueue_target(woken.cpus, None, cpu) ==> (final(sched)@, r.1) == enqueue_on(
                            woken,
                            w,
                            cpu,
                            cpu_id,
                        )
                    }
                }
            }
        },
{
    if len == 0 {
        return (0, None);
    }
    if !ipc_buffer_allowed(sched, cpu_id, buf_ptr, len as u64) {
        return (-1, None);
    }
    match ports.send_message(metrics, port_id, data) {
        Ok(Some(task)) => {
            let ipi = wake_task(sched, task, cpu_id);
            (0, ipi)
        },
        Ok(None) => (0, None),
        Err(_) => (-1, None),
    }
}

/// What a receive asks of the caller.
#[derive(Debug, Clone, Copy, PartialEq, Eq, Structural)]
pub enum IpcRecvStep {
    /// Done: the result to return (bytes received, or -1).
    Done(isize),
    /// No message yet: the task now waits on the port; switch away and
    /// receive again once woken.
    Block,
}

/// `sys_ipc_recv`: receive a message from port `port_id` into `buf` (which
/// the caller then copies to the `len` bytes at `buf_ptr`) for the task
/// running on CPU `cpu_id`. 0 bytes asked: nothing to do; -1 when the
/// buffer may not be used, the CPU runs no task the table holds, or the
/// port refuses. With no message queued the task is marked blocked on the
/// port.
pub fn sys_ipc_recv(
    sched: &mut Scheduler,
    ports: &mut PortManager,
    metrics: &mut KernelMetrics,
    cpu_id: usize,
    port_id: usize,
    buf_ptr: u64,
    len: usize,
    buf: &mut [u8],
) -> (r: IpcRecvStep)
    requires
        old(sched).wf(),
        old(ports).wf(),
        cpu_id < old(sched)@.cpus.len(),
        len > 0 && spec_ipc_buffer_allowed(old(sched)@, cpu_id as int, buf_ptr, len as u64) ==> old(buf)@.len() == len,
    ensures
        final(sched).wf(),
        final(ports).wf(),
        final(buf)@.len() == old(buf)@.len(),
        (len == 0 || !spec_ipc_buffer_allowed(old(sched)@, cpu_id as int, buf_ptr, len as u64) || current_id(
            old(sched)@,
            cpu_id as int,
        ) is None) ==> {
            &&& r == IpcRecvStep::Done(if len == 0 { 0isize } else { -1isize })
            &&& final(sched)@ == old(sched)@
            &&& final(ports).unchanged_from(old(ports))
            &&& final(buf)@ == old(buf)@
            &&& *final(metrics) == *old(metrics)
        },
        len > 0 && spec_ipc_buffer_allowed(old(sched)@, cpu_id as int, buf_ptr, len as u64) && current_id(
            old(sched)@,
            cpu_id as int,
        ) is Some ==> {
            let id = port_id as int;
            let task = current_id(old(sched)@, cpu_id as int).unwrap();
            let q = old(ports).pending(id);
            let usable = port_id < MAX_PORTS && old(ports).has_port(id);
            &&& !usable ==> r == IpcRecvStep::Done(-1isize) && final(sched)@ == old(sched)@
                && final(ports).unchanged_from(old(ports)) && final(buf)@ == old(buf)@
            &&& usable && q.len() > 0 ==> {
                let n = if q[0].len() < len { q[0].len() } else { len as nat };
                &&& r == IpcRecvStep::Done(n as isize)
                &&& final(ports).pending(id) == q.drop_first()
                &&& final(buf)@ == q[0].subrange(0, n as int) + old(buf)@.subrange(n as int, len as int)
                &&& final(sched)@ == old(sched)@
            }
            &&& usable && q.len() == 0 && old(ports).blocked(id).len() >= crate::sched::queue::QUEUE_CAPACITY ==> r
                == IpcRecvStep::Done(-1isize) && final(sched)@ == old(sched)@
            &&& usable && q.len() == 0 && old(ports).blocked(id).len() < crate::sched::queue::QUEUE_CAPACITY ==> {
                &&& r == IpcRecvStep::Block
                &&& final(ports).blocked(id) == old(ports).blocked(id).push(task)
                &&& task_at(old(sched)@.tasks, task as int) is None ==> final(sched)@ == old(sched)@
                &&& task_at(old(sched)@.tasks, task as int) matches Some(t) ==> final(sched)@ == (SchedView {
                    tasks: old(sched)@.tasks.update(
                        task as int,
                        Some(Task { state: TaskState::Blocked, blocked_on_port: Some(port_id), ..t }),
                    ),
                    ..old(sched)@
                })
            }
        },
{
    if len == 0 {
        return IpcRecvStep::Done(0);
    }
    if !ipc_buffer_allowed(sched, cpu_id, buf_ptr, len as u64) {
        return IpcRecvStep::Done(-1);
    }
    let task = match get_current_task_info(sched, cpu_id) {
        Some((id, _)) => id,
        None => {
            return IpcRecvStep::Done(-1);
        },
    };
    match ports.recv_message(metrics, port_id, task, buf) {
        Ok(RecvOutcome::Received(n)) => IpcRecvStep::Done(n as isize),
        Ok(RecvOutcome::Blocked) => {
            if sched.task(task).is_some() {
                sched.set_wait(task, TaskState::Blocked, Some(port_id));
            }
            IpcRecvStep::Block
        },
        Err(_) => IpcRecvStep::Done(-1),
    }
}

} // verus!

verus! {

/// First process ID `sys_fork` hands out.
pub const FIRST_FORK_PID: usize = 2000;

/// `sys_fork`: the next process ID from the counter `next_pid` (which then
/// counts on, wrapping); no process is created yet.
pub fn sys_fork(next_pid: &mut usize) -> (r: isize)
    ensures
        r == *old(next_pid) as isize,
        *final(next_pid) == crate::sys::wrap_inc(*old(next_pid)),
{
    let pid = *next_pid;
    *next_pid = counter_inc(pid);
    pid as isize
}

} // verus!
