//! Security checks for sending signals and installing signal handlers.
use vstd::prelude::*;

use crate::mm::paging::NO_EXECUTE;
use crate::sched::task::{sig_bit, Task, USER_LIMIT};
use crate::signal::{is_catchable, SigHandler, Signal};
use crate::signal::signals;

verus! {

/// Why a signal operation was refused.
#[derive(Debug, Clone, Copy, PartialEq, Eq, Structural)]
pub enum SignalSecurityError {
    /// Permission denied (UID mismatch)
    PermissionDenied,
    /// Process not found
    ProcessNotFound,
    /// Invalid signal number
    InvalidSignal,
    /// The target may not receive this signal (e.g. SIGKILL to init)
    ProtectedProcess,
    /// The handler address is invalid
    InvalidHandler,
    /// Session mismatch
    SessionMismatch,
}

/// Result type for signal security operations
pub type SignalSecurityResult<T> = Result<T, SignalSecurityError>;

/// Valid signal numbers are 1..=63.
pub open spec fn spec_valid_signal(signal: u32) -> bool {
    signal != 0 && signal < signals::MAX_SIGNAL
}

/// Validate a signal number.
pub fn validate_signal_number(signal: Signal) -> (r: SignalSecurityResult<()>)
    ensures
        spec_valid_signal(signal) ==> r is Ok,
        !spec_valid_signal(signal) ==> r == Err::<(), SignalSecurityError>(SignalSecurityError::InvalidSignal),
{
    if signal == 0 || signal >= signals::MAX_SIGNAL {
        Err(SignalSecurityError::InvalidSignal)
    } else {
        Ok(())
    }
}

/// Job-control signals may cross UID boundaries within a session.
pub open spec fn spec_is_job_control_signal(signal: u32) -> bool {
    signal == signals::SIGINT || signal == signals::SIGQUIT || signal == signals::SIGTSTP
        || signal == signals::SIGTTIN || signal == signals::SIGTTOU || signal == signals::SIGCONT
}

/// Check whether a signal is a job-control signal.
pub fn is_job_control_signal(signal: Signal) -> (r: bool)
    ensures
        r == spec_is_job_control_signal(signal),
{
    signal == signals::SIGINT || signal == signals::SIGQUIT || signal == signals::SIGTSTP
        || signal == signals::SIGTTIN || signal == signals::SIGTTOU || signal == signals::SIGCONT
}

/// Outcome of the permission rules for one sender/target/signal.
pub open spec fn spec_signal_permission(sender: &Task, target: &Task, signal: u32) -> SignalSecurityResult<()> {
    if sender.pid == target.pid {
        Ok(())
    } else if spec_is_job_control_signal(signal) {
        if sender.sid == target.sid { Ok(()) } else { Err(SignalSecurityError::SessionMismatch) }
    } else if sender.creds.uid == 0 || sender.creds.uid == target.creds.uid || sender.sid == target.sid {
        Ok(())
    } else {
        Err(SignalSecurityError::PermissionDenied)
    }
}

/// Check whether `sender` may send `signal` to `target`: itself always; job-control
/// signals within a session; otherwise root, the same UID, or the same session.
pub fn check_signal_permission(sender: &Task, target: &Task, signal: Signal) -> (r: SignalSecurityResult<()>)
    ensures
        r == spec_signal_permission(sender, target, signal),
{
    if sender.pid == target.pid {
        return Ok(());
    }
    if is_job_control_signal(signal) {
        if sender.sid == target.sid {
            return Ok(());
        }
        return Err(SignalSecurityError::SessionMismatch);
    }
    if sender.creds.uid == 0 {
        return Ok(());
    }
    if sender.creds.uid == target.creds.uid {
        return Ok(());
    }
    if sender.sid == target.sid {
        return Ok(());
    }
    Err(SignalSecurityError::PermissionDenied)
}

/// Whether the target is protected from the signal.
pub open spec fn spec_protected(target: &Task, signal: u32) -> bool {
    (target.pid == 1 && (signal == signals::SIGKILL || signal == signals::SIGSTOP))
        || target.creds.is_kernel_thread
}

/// Refuse SIGKILL/SIGSTOP to init (PID 1) and any signal to a kernel thread.
pub fn check_protected_process(target: &Task, signal: Signal) -> (r: SignalSecurityResult<()>)
    ensures
        spec_protected(target, signal) ==> r == Err::<(), SignalSecurityError>(SignalSecurityError::ProtectedProcess),
        !spec_protected(target, signal) ==> r is Ok,
{
    if target.pid == 1 {
        if signal == signals::SIGKILL || signal == signals::SIGSTOP {
            return Err(SignalSecurityError::ProtectedProcess);
        }
    }
    if target.creds.is_kernel_thread {
        return Err(SignalSecurityError::ProtectedProcess);
    }
    Ok(())
}

/// An address is executable user memory unless it lies outside user space or
/// in a region of the current task marked no-execute.
pub open spec fn spec_executable_user_address(addr: u64, current: Option<&Task>) -> bool {
    if addr >= USER_LIMIT {
        false
    } else {
        match current {
            Some(task) => {
                let rs = task.regions();
                forall|i: int| #[trigger] first_containing(rs, addr, i) ==> rs[i].flags.0 & NO_EXECUTE == 0
            },
            None => true,
        }
    }
}

/// `rs[i]` is the first region of `rs` that contains `addr`.
pub open spec fn first_containing(rs: Seq<crate::sched::task::MemoryRegion>, addr: u64, i: int) -> bool {
    &&& 0 <= i < rs.len()
    &&& rs[i].spec_contains(addr)
    &&& forall|j: int| 0 <= j < i ==> !(#[trigger] rs[j]).spec_contains(addr)
}

/// Check whether `addr` is executable user memory of the current task (if any).
pub fn is_executable_user_address(addr: u64, current: Option<&Task>) -> (r: bool)
    requires
        current matches Some(t) ==> t.wf(),
    ensures
        r == spec_executable_user_address(addr, current),
{
    if addr >= USER_LIMIT {
        return false;
    }
    match current {
        Some(task) => {
            let mut i: usize = 0;
            while i < task.region_count
                invariant
                    task.wf(),
                    current == Some(task),
                    addr < USER_LIMIT,
                    i <= task.region_count,
                    forall|j: int| 0 <= j < i ==> !(#[trigger] task.regions()[j]).spec_contains(addr),
                decreases task.region_count - i,
            {
                match &task.memory_regions[i] {
                    Some(region) => {
                        assert(task.regions()[i as int] == *region);
                        if region.contains(addr) {
                            let r = (region.flags.bits() & NO_EXECUTE) == 0;
                            proof {
                                let rs = task.regions();
                                assert forall|k: int| #[trigger] first_containing(rs, addr, k) implies k == i by {
                                    if k > i {
                                        assert(!rs[i as int].spec_contains(addr));
                                    }
                                }
                                assert(first_containing(rs, addr, i as int));
                            }
                            return r;
                        }
                    },
                    None => {},
                }
                i = i + 1;
            }
            true
        },
        None => true,
    }
}

/// Whether a handler may be installed.
pub open spec fn spec_handler_ok(handler: SigHandler, current: Option<&Task>) -> bool {
    match handler {
        SigHandler::Default | SigHandler::Ignore => true,
        SigHandler::Custom(addr) => addr != 0 && addr < USER_LIMIT
            && spec_executable_user_address(addr, current),
    }
}

/// Validate a handler: Default and Ignore always; a custom handler must be a
/// non-null, executable user-space address of the current task.
pub fn validate_signal_handler(handler: SigHandler, current: Option<&Task>) -> (r: SignalSecurityResult<()>)
    requires
        current matches Some(t) ==> t.wf(),
    ensures
        spec_handler_ok(handler, current) ==> r is Ok,
        !spec_handler_ok(handler, current) ==> r == Err::<(), SignalSecurityError>(SignalSecurityError::InvalidHandler),
{
    match handler {
        SigHandler::Default | SigHandler::Ignore => Ok(()),
        SigHandler::Custom(addr) => {
            if addr == 0 {
                return Err(SignalSecurityError::InvalidHandler);
            }
            if addr >= USER_LIMIT {
                return Err(SignalSecurityError::InvalidHandler);
            }
            if !is_executable_user_address(addr, current) {
                return Err(SignalSecurityError::InvalidHandler);
            }
            Ok(())
        },
    }
}

/// Full check before sending: valid number, permission, then protection.
pub fn validate_signal_send(sender: &Task, target: &Task, signal: Signal) -> (r: SignalSecurityResult<()>)
    ensures
        r == (if !spec_valid_signal(signal) {
            Err(SignalSecurityError::InvalidSignal)
        } else if spec_signal_permission(sender, target, signal) is Err {
            spec_signal_permission(sender, target, signal)
        } else if spec_protected(target, signal) {
            Err(SignalSecurityError::ProtectedProcess)
        } else {
            Ok(())
        }),
{
    validate_signal_number(signal)?;
    check_signal_permission(sender, target, signal)?;
    check_protected_process(target, signal)?;
    Ok(())
}

/// Full check before installing a handler: valid number, catchable, valid handler.
pub fn validate_signal_handler_registration(
    signal: Signal,
    handler: SigHandler,
    current: Option<&Task>,
) -> (r: SignalSecurityResult<()>)
    requires
        current matches Some(t) ==> t.wf(),
    ensures
        r == (if !spec_valid_signal(signal) || signal == signals::SIGKILL || signal == signals::SIGSTOP {
            Err(SignalSecurityError::InvalidSignal)
        } else if !spec_handler_ok(handler, current) {
            Err(SignalSecurityError::InvalidHandler)
        } else {
            Ok(())
        }),
{
    validate_signal_number(signal)?;
    if !is_catchable(signal) {
        return Err(SignalSecurityError::InvalidSignal);
    }
    validate_signal_handler(handler, current)?;
    Ok(())
}

/// Whether a signal reaches the task: SIGKILL and SIGSTOP always; others unless
/// bit `signal` of the mask is set (bit N blocks signal N, as in `Task`).
pub fn should_deliver_signal(task: &Task, signal: Signal) -> (r: bool)
    requires
        signal < 64,
    ensures
        r == (signal == signals::SIGKILL || signal == signals::SIGSTOP || !sig_bit(task.signal_mask, signal)),
{
    if signal == signals::SIGKILL || signal == signals::SIGSTOP {
        return true;
    }
    let signal_bit = 1u64 << signal;
    let mask = task.signal_mask;
    proof {
        let s = signal as u64;
        assert(s < 64 ==> (((mask & (1u64 << s)) == 0) == !((mask >> s) & 1u64 == 1u64))) by (bit_vector);
    }
    (mask & signal_bit) == 0
}

} // verus!
