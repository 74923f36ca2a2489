//! Signal numbers, handler descriptions and the default action table.
use vstd::prelude::*;

pub mod security;
pub mod signals;


verus! {

/// Signal number type
pub type Signal = u32;

/// How a signal is handled.
#[derive(Debug, Clone, Copy, PartialEq, Eq, Structural)]
pub enum SigHandler {
    /// Use the default signal action
    Default,
    /// Ignore the signal
    Ignore,
    /// User-space handler at the given address
    Custom(u64),
}

/// Don't add the signal to the mask while its handler runs
pub const SA_NODEFER: u32 = 0x4000_0000;
/// Reset the handler to the default after handling
pub const SA_RESETHAND: u32 = 0x8000_0000;
/// Don't receive signals::SIGCHLD when children stop
pub const SA_NOCLDSTOP: u32 = 0x0000_0001;
/// Don't create zombies on child death
pub const SA_NOCLDWAIT: u32 = 0x0000_0002;
/// Use the signal stack
pub const SA_ONSTACK: u32 = 0x0800_0000;
/// Restart system calls if possible
pub const SA_RESTART: u32 = 0x1000_0000;

/// Block signals (add to the mask)
pub const SIG_BLOCK: i32 = 0;
/// Unblock signals (remove from the mask)
pub const SIG_UNBLOCK: i32 = 1;
/// Replace the mask
pub const SIG_SETMASK: i32 = 2;

/// How a process handles one signal.
#[derive(Debug, Clone, Copy, PartialEq, Eq, Structural)]
pub struct SigAction {
    /// Signal handler
    pub handler: SigHandler,
    /// Signals to block while the handler executes
    pub mask: u64,
    /// Action flags
    pub flags: u32,
}

impl SigAction {
    /// The action that uses the default handler.
    pub open spec fn spec_default() -> SigAction {
        SigAction { handler: SigHandler::Default, mask: 0, flags: 0 }
    }

    /// The action that ignores the signal.
    pub open spec fn spec_ignore() -> SigAction {
        SigAction { handler: SigHandler::Ignore, mask: 0, flags: 0 }
    }

    /// Create a signal action with the default handler.
    pub fn default() -> (r: Self)
        ensures
            r == Self::spec_default(),
    {
        SigAction { handler: SigHandler::Default, mask: 0, flags: 0 }
    }

    /// Create a signal action that ignores the signal.
    pub fn ignore() -> (r: Self)
        ensures
            r == Self::spec_ignore(),
    {
        SigAction { handler: SigHandler::Ignore, mask: 0, flags: 0 }
    }

    /// Create a signal action with a user-space handler.
    pub fn custom(handler_addr: u64, mask: u64, flags: u32) -> (r: Self)
        ensures
            r == (SigAction { handler: SigHandler::Custom(handler_addr), mask, flags }),
    {
        SigAction { handler: SigHandler::Custom(handler_addr), mask, flags }
    }
}

/// What happens to a process when a signal arrives and no handler is set.
#[derive(Debug, Clone, Copy, PartialEq, Eq, Structural)]
pub enum DefaultAction {
    /// Terminate the process
    Terminate,
    /// Ignore the signal
    Ignore,
    /// Stop the process
    Stop,
    /// Continue the process if stopped
    Continue,
    /// Terminate and dump core
    Core,
}

/// The POSIX default action of each signal.
pub open spec fn spec_default_action(signal: u32) -> DefaultAction {
    if signal == signals::SIGCHLD || signal == signals::SIGURG || signal == signals::SIGWINCH {
        DefaultAction::Ignore
    } else if signal == signals::SIGCONT {
        DefaultAction::Continue
    } else if signal == signals::SIGSTOP || signal == signals::SIGTSTP || signal == signals::SIGTTIN || signal == signals::SIGTTOU {
        DefaultAction::Stop
    } else if signal == signals::SIGQUIT || signal == signals::SIGILL || signal == signals::SIGTRAP || signal == signals::SIGABRT
        || signal == signals::SIGBUS || signal == signals::SIGFPE || signal == signals::SIGSEGV || signal == signals::SIGSYS {
        DefaultAction::Core
    } else {
        DefaultAction::Terminate
    }
}

/// Get the default action for a signal.
pub fn default_action(signal: Signal) -> (r: DefaultAction)
    ensures
        r == spec_default_action(signal),
{
    match signal {
        signals::SIGCHLD | signals::SIGURG | signals::SIGWINCH => DefaultAction::Ignore,
        signals::SIGCONT => DefaultAction::Continue,
        signals::SIGSTOP | signals::SIGTSTP | signals::SIGTTIN | signals::SIGTTOU => DefaultAction::Stop,
        signals::SIGQUIT | signals::SIGILL | signals::SIGTRAP | signals::SIGABRT | signals::SIGBUS | signals::SIGFPE | signals::SIGSEGV | signals::SIGSYS => {
            DefaultAction::Core
        },
        _ => DefaultAction::Terminate,
    }
}

/// Check whether a signal can be caught or ignored.
pub fn is_catchable(signal: Signal) -> (r: bool)
    ensures
        r == (signal != signals::SIGKILL && signal != signals::SIGSTOP),
{
    signal != signals::SIGKILL && signal != signals::SIGSTOP
}


/// The POSIX table of default actions: SIGCHLD, SIGURG and SIGWINCH are
/// ignored; SIGCONT continues; SIGSTOP, SIGTSTP, SIGTTIN and SIGTTOU stop;
/// SIGQUIT, SIGILL, SIGTRAP, SIGABRT, SIGBUS, SIGFPE, SIGSEGV and SIGSYS
/// terminate with a core dump; every other signal terminates.
pub proof fn lemma_default_action_table(signal: u32)
    ensures
        spec_default_action(signal) == DefaultAction::Ignore <==> (signal == 17 || signal == 23 || signal == 28),
        spec_default_action(signal) == DefaultAction::Continue <==> signal == 18,
        spec_default_action(signal) == DefaultAction::Stop <==> (signal == 19 || signal == 20 || signal == 21
            || signal == 22),
        spec_default_action(signal) == DefaultAction::Core <==> (signal == 3 || signal == 4 || signal == 5
            || signal == 6 || signal == 7 || signal == 8 || signal == 11 || signal == 31),
        spec_default_action(signal) == DefaultAction::Terminate <==> !(signal == 3 || signal == 4 || signal
            == 5 || signal == 6 || signal == 7 || signal == 8 || signal == 11 || signal == 31 || (17 <= signal
            <= 23) || signal == 28),
{
}

} // verus!
