//! Standard POSIX signal numbers.
use vstd::prelude::*;

verus! {

/// Hangup (terminal closed)
pub const SIGHUP: u32 = 1;
/// Interrupt (Ctrl-C)
pub const SIGINT: u32 = 2;
/// Quit (Ctrl-\)
pub const SIGQUIT: u32 = 3;
/// Illegal instruction
pub const SIGILL: u32 = 4;
/// Trace/breakpoint trap
pub const SIGTRAP: u32 = 5;
/// Abort
pub const SIGABRT: u32 = 6;
/// Bus error
pub const SIGBUS: u32 = 7;
/// Floating point exception
pub const SIGFPE: u32 = 8;
/// Kill (cannot be caught)
pub const SIGKILL: u32 = 9;
/// User-defined signal 1
pub const SIGUSR1: u32 = 10;
/// Segmentation fault
pub const SIGSEGV: u32 = 11;
/// User-defined signal 2
pub const SIGUSR2: u32 = 12;
/// Broken pipe
pub const SIGPIPE: u32 = 13;
/// Alarm clock
pub const SIGALRM: u32 = 14;
/// Termination
pub const SIGTERM: u32 = 15;
/// Stack fault
pub const SIGSTKFLT: u32 = 16;
/// Child stopped or terminated
pub const SIGCHLD: u32 = 17;
/// Continue if stopped
pub const SIGCONT: u32 = 18;
/// Stop (cannot be caught)
pub const SIGSTOP: u32 = 19;
/// Terminal stop (Ctrl-Z)
pub const SIGTSTP: u32 = 20;
/// Background read from TTY
pub const SIGTTIN: u32 = 21;
/// Background write to TTY
pub const SIGTTOU: u32 = 22;
/// Urgent condition on socket
pub const SIGURG: u32 = 23;
/// CPU time limit exceeded
pub const SIGXCPU: u32 = 24;
/// File size limit exceeded
pub const SIGXFSZ: u32 = 25;
/// Virtual alarm clock
pub const SIGVTALRM: u32 = 26;
/// Profiling timer expired
pub const SIGPROF: u32 = 27;
/// Window size change
pub const SIGWINCH: u32 = 28;
/// I/O now possible
pub const SIGIO: u32 = 29;
/// Power failure
pub const SIGPWR: u32 = 30;
/// Bad system call
pub const SIGSYS: u32 = 31;
/// One past the largest signal number
pub const MAX_SIGNAL: u32 = 64;

} // verus!
