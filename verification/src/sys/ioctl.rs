//! ioctl validation: known commands, the descriptor types they apply to and
//! the user pointer they take.
use vstd::prelude::*;

use crate::sched::task::USER_LIMIT;
use crate::sys::syscall::{FdTable, FdType, MAX_FDS, spec_valid_user_buffer, validate_user_buffer};

verus! {

/// Get PTY number
pub const TIOCGPTN: usize = 0x80045430;
/// Get termios structure
pub const TCGETS: usize = 0x5401;
/// Set termios structure
pub const TCSETS: usize = 0x5402;
/// Get window size
pub const TIOCGWINSZ: usize = 0x5413;
/// Set window size
pub const TIOCSWINSZ: usize = 0x5414;
/// Set foreground process group
pub const TIOCSPGRP: usize = 0x5410;
/// Get foreground process group
pub const TIOCGPGRP: usize = 0x540F;
/// Make this TTY the controlling terminal
pub const TIOCSCTTY: usize = 0x540E;

/// Size in bytes of a termios structure (four `u32` mode words, the line
/// discipline byte and 19 control characters).
pub const TERMIOS_SIZE: usize = 36;
/// Size in bytes of a window-size structure (four `u16`).
pub const WINSIZE_SIZE: usize = 8;

/// ioctl command categories.
#[derive(Debug, Clone, Copy, PartialEq, Eq, Structural)]
pub enum IoctlCategory {
    /// Terminal/TTY operations
    Terminal,
    /// PTY-specific operations
    Pty,
    /// File operations
    File,
    /// Unknown/unsupported
    Unknown,
}

/// ioctl command information.
#[derive(Debug, Clone, Copy)]
pub struct IoctlCommand {
    /// Command number
    pub cmd: usize,
    /// Command name (for logging)
    pub name: &'static str,
    /// Category
    pub category: IoctlCategory,
    /// Whether the command reads from user space
    pub reads_user: bool,
    /// Whether the command writes to user space
    pub writes_user: bool,
    /// Size of the argument structure (0 if not applicable)
    pub arg_size: usize,
}

/// Whether `cmd` is one of the supported commands.
pub open spec fn spec_known_cmd(cmd: usize) -> bool {
    cmd == TIOCGPTN || cmd == TCGETS || cmd == TCSETS || cmd == TIOCGWINSZ || cmd == TIOCSWINSZ
        || cmd == TIOCSPGRP || cmd == TIOCGPGRP || cmd == TIOCSCTTY
}

/// The category of a supported command.
pub open spec fn spec_cmd_category(cmd: usize) -> IoctlCategory {
    if cmd == TIOCGPTN { IoctlCategory::Pty } else { IoctlCategory::Terminal }
}

/// Whether a supported command reads its argument from user space.
pub open spec fn spec_cmd_reads_user(cmd: usize) -> bool {
    cmd == TCSETS || cmd == TIOCSWINSZ || cmd == TIOCSPGRP
}

/// Whether a supported command writes its argument to user space.
pub open spec fn spec_cmd_writes_user(cmd: usize) -> bool {
    cmd == TIOCGPTN || cmd == TCGETS || cmd == TIOCGWINSZ || cmd == TIOCGPGRP
}

/// Argument size of a supported command.
pub open spec fn spec_cmd_arg_size(cmd: usize) -> usize {
    if cmd == TIOCGPTN {
        4
    } else if cmd == TCGETS || cmd == TCSETS {
        TERMIOS_SIZE
    } else if cmd == TIOCGWINSZ || cmd == TIOCSWINSZ {
        WINSIZE_SIZE
    } else if cmd == TIOCSPGRP || cmd == TIOCGPGRP {
        8
    } else {
        0
    }
}

/// Name of a supported command.
pub open spec fn spec_cmd_name(cmd: usize) -> Seq<char> {
    if cmd == TIOCGPTN {
        "TIOCGPTN"@
    } else if cmd == TCGETS {
        "TCGETS"@
    } else if cmd == TCSETS {
        "TCSETS"@
    } else if cmd == TIOCGWINSZ {
        "TIOCGWINSZ"@
    } else if cmd == TIOCSWINSZ {
        "TIOCSWINSZ"@
    } else if cmd == TIOCSPGRP {
        "TIOCSPGRP"@
    } else if cmd == TIOCGPGRP {
        "TIOCGPGRP"@
    } else {
        "TIOCSCTTY"@
    }
}

/// The table entry of a supported command.
pub open spec fn spec_cmd_matches(c: IoctlCommand, cmd: usize) -> bool {
    &&& c.cmd == cmd
    &&& c.name@ == spec_cmd_name(cmd)
    &&& c.category == spec_cmd_category(cmd)
    &&& c.reads_user == spec_cmd_reads_user(cmd)
    &&& c.writes_user == spec_cmd_writes_user(cmd)
    &&& c.arg_size == spec_cmd_arg_size(cmd)
}

/// Descriptor types a command of the given category applies to.
pub open spec fn spec_valid_for_fd(category: IoctlCategory, fd_type: FdType) -> bool {
    match category {
        IoctlCategory::Terminal => fd_type is PtyMaster || fd_type is PtySlave,
        IoctlCategory::Pty => fd_type is PtyMaster,
        IoctlCategory::File => true,
        IoctlCategory::Unknown => false,
    }
}

/// Whether an argument pointer is acceptable for a command taking `arg_size` bytes.
pub open spec fn spec_arg_ok(arg_size: usize, arg: u64) -> bool {
    arg_size == 0 || (arg != 0 && arg < USER_LIMIT && arg + arg_size <= USER_LIMIT)
}

impl IoctlCommand {
    /// Look up a command number.
    pub fn from_cmd(cmd: usize) -> (r: Option<Self>)
        ensures
            spec_known_cmd(cmd) <==> r is Some,
            r matches Some(c) ==> spec_cmd_matches(c, cmd),
    {
        proof {
            reveal_strlit("TIOCGPTN");
            reveal_strlit("TCGETS");
            reveal_strlit("TCSETS");
            reveal_strlit("TIOCGWINSZ");
            reveal_strlit("TIOCSWINSZ");
            reveal_strlit("TIOCSPGRP");
            reveal_strlit("TIOCGPGRP");
            reveal_strlit("TIOCSCTTY");
        }
        if cmd == TIOCGPTN {
            Some(IoctlCommand {
                cmd,
                name: "TIOCGPTN",
                category: IoctlCategory::Pty,
                reads_user: false,
                writes_user: true,
                arg_size: 4,
            })
        } else if cmd == TCGETS {
            Some(IoctlCommand {
                cmd,
                name: "TCGETS",
                category: IoctlCategory::Terminal,
                reads_user: false,
                writes_user: true,
                arg_size: TERMIOS_SIZE,
            })
        } else if cmd == TCSETS {
            Some(IoctlCommand {
                cmd,
                name: "TCSETS",
                category: IoctlCategory::Terminal,
                reads_user: true,
                writes_user: false,
                arg_size: TERMIOS_SIZE,
            })
        } else if cmd == TIOCGWINSZ {
            Some(IoctlCommand {
                cmd,
                name: "TIOCGWINSZ",
                category: IoctlCategory::Terminal,
                reads_user: false,
                writes_user: true,
                arg_size: WINSIZE_SIZE,
            })
        } else if cmd == TIOCSWINSZ {
            Some(IoctlCommand {
                cmd,
                name: "TIOCSWINSZ",
                category: IoctlCategory::Terminal,
                reads_user: true,
                writes_user: false,
                arg_size: WINSIZE_SIZE,
            })
        } else if cmd == TIOCSPGRP {
            Some(IoctlCommand {
                cmd,
                name: "TIOCSPGRP",
                category: IoctlCategory::Terminal,
                reads_user: true,
                writes_user: false,
                arg_size: 8,
            })
        } else if cmd == TIOCGPGRP {
            Some(IoctlCommand {
                cmd,
                name: "TIOCGPGRP",
                category: IoctlCategory::Terminal,
                reads_user: false,
                writes_user: true,
                arg_size: 8,
            })
        } else if cmd == TIOCSCTTY {
            Some(IoctlCommand {
                cmd,
                name: "TIOCSCTTY",
                category: IoctlCategory::Terminal,
                reads_user: false,
                writes_user: false,
                arg_size: 0,
            })
        } else {
            None
        }
    }

    /// Whether this command applies to the given descriptor type.
    pub fn is_valid_for_fd(&self, fd_type: FdType) -> (r: bool)
        ensures
            r == spec_valid_for_fd(self.category, fd_type),
    {
        match self.category {
            IoctlCategory::Terminal => {
                matches!(fd_type, FdType::PtyMaster(_)) || matches!(fd_type, FdType::PtySlave(_))
            },
            IoctlCategory::Pty => matches!(fd_type, FdType::PtyMaster(_)),
            IoctlCategory::File => true,
            IoctlCategory::Unknown => false,
        }
    }
}

/// Validate an ioctl command number.
pub fn validate_ioctl_cmd(cmd: usize) -> (r: Result<IoctlCommand, &'static str>)
    ensures
        spec_known_cmd(cmd) <==> r is Ok,
        r matches Ok(c) ==> spec_cmd_matches(c, cmd),
        r matches Err(e) ==> e@ == "Invalid ioctl command"@,
{
    match IoctlCommand::from_cmd(cmd) {
        Some(c) => Ok(c),
        None => Err("Invalid ioctl command"),
    }
}

/// Validate that a command applies to a descriptor type.
pub fn validate_ioctl_for_fd(cmd: &IoctlCommand, fd_type: FdType) -> (r: Result<(), &'static str>)
    ensures
        spec_valid_for_fd(cmd.category, fd_type) <==> r is Ok,
        r matches Err(e) ==> e@ == "ioctl command not valid for this file descriptor type"@,
{
    if cmd.is_valid_for_fd(fd_type) {
        Ok(())
    } else {
        Err("ioctl command not valid for this file descriptor type")
    }
}

/// Validate the argument pointer of an ioctl: commands without an argument
/// accept anything; otherwise the pointer must be non-null and the whole
/// argument must lie below `USER_LIMIT`.
pub fn validate_ioctl_arg(cmd: &IoctlCommand, arg: u64) -> (r: Result<(), &'static str>)
    ensures
        spec_arg_ok(cmd.arg_size, arg) <==> r is Ok,
        r matches Err(e) ==> {
            &&& arg == 0 ==> e@ == "ioctl argument pointer is null"@
            &&& (arg != 0 && arg >= USER_LIMIT) ==> e@ == "ioctl argument pointer not in user space"@
            &&& (arg != 0 && arg < USER_LIMIT) ==> e@ == "ioctl argument pointer out of bounds"@
        },
{
    if cmd.arg_size == 0 {
        return Ok(());
    }
    if arg == 0 {
        return Err("ioctl argument pointer is null");
    }
    if arg >= USER_LIMIT {
        return Err("ioctl argument pointer not in user space");
    }
    match arg.checked_add(cmd.arg_size as u64) {
        Some(end) => {
            if end <= USER_LIMIT {
                Ok(())
            } else {
                Err("ioctl argument pointer out of bounds")
            }
        },
        None => Err("ioctl argument pointer out of bounds"),
    }
}

/// Full ioctl validation: command number, descriptor type, then argument.
pub fn validate_ioctl(fd_type: FdType, cmd: usize, arg: u64) -> (r: Result<IoctlCommand, &'static str>)
    ensures
        r is Ok <==> (spec_known_cmd(cmd) && spec_valid_for_fd(spec_cmd_category(cmd), fd_type)
            && spec_arg_ok(spec_cmd_arg_size(cmd), arg)),
        r matches Ok(c) ==> spec_cmd_matches(c, cmd),
        r matches Err(e) ==> {
            &&& !spec_known_cmd(cmd) ==> e@ == "Invalid ioctl command"@
            &&& (spec_known_cmd(cmd) && !spec_valid_for_fd(spec_cmd_category(cmd), fd_type))
                ==> e@ == "ioctl command not valid for this file descriptor type"@
        },
{
    let ioctl_cmd = match validate_ioctl_cmd(cmd) {
        Ok(c) => c,
        Err(e) => return Err(e),
    };
    match validate_ioctl_for_fd(&ioctl_cmd, fd_type) {
        Ok(()) => {},
        Err(e) => return Err(e),
    }
    match validate_ioctl_arg(&ioctl_cmd, arg) {
        Ok(()) => {},
        Err(e) => return Err(e),
    }
    Ok(ioctl_cmd)
}

/// What an ioctl request on an open descriptor comes to.
#[derive(Debug, Clone, Copy, PartialEq, Eq, Structural)]
pub enum IoctlAction {
    /// Finished here, with this return value.
    Done(isize),
    /// Write this PTY's number (a `u32`) at the argument pointer, then 0.
    WritePtyNumber(u32),
    /// Copy this PTY's termios settings to the argument pointer.
    GetTermios(u32),
    /// Load this PTY's termios settings from the argument pointer.
    SetTermios(u32),
    /// Copy this PTY's window size to the argument pointer.
    GetWinsize(u32),
    /// Load this PTY's window size from the argument pointer.
    SetWinsize(u32),
    /// Read a process-group id at the argument pointer and make it the
    /// foreground group of the descriptor's terminal.
    SetForegroundGroup,
    /// Write the foreground group of the descriptor's terminal at the
    /// argument pointer.
    GetForegroundGroup,
    /// Make this PTY the controlling terminal of the caller, whose session is `sid`.
    SetControllingTerminal { pty: u32, sid: usize },
}

/// The PTY behind a descriptor type, master or slave side.
pub open spec fn pty_of(t: FdType) -> Option<u32> {
    match t {
        FdType::PtyMaster(n) => Some(n),
        FdType::PtySlave(n) => Some(n),
        _ => None,
    }
}

/// A PTY command: the descriptor must be a PTY, then the argument must be a
/// user buffer of `size` bytes.
pub open spec fn pty_request(t: FdType, arg: u64, size: u64, act: IoctlAction) -> IoctlAction {
    match pty_of(t) {
        None => IoctlAction::Done(-1isize),
        Some(_) => if spec_valid_user_buffer(arg, size) { act } else { IoctlAction::Done(-1isize) },
    }
}

/// The ioctl decision for an open descriptor of type `t`. `caller` is the
/// calling task's process id, session id and whether it already has a
/// controlling terminal (`None` when there is no current task).
pub open spec fn spec_ioctl_action(t: FdType, cmd: usize, arg: u64, caller: Option<(usize, usize, bool)>) -> IoctlAction {
    let n = pty_of(t)->0;
    if cmd == TIOCGPTN {
        match t {
            FdType::PtyMaster(m) => if spec_valid_user_buffer(arg, 4) {
                IoctlAction::WritePtyNumber(m)
            } else {
                IoctlAction::Done(-1isize)
            },
            _ => IoctlAction::Done(-1isize),
        }
    } else if cmd == TCGETS {
        pty_request(t, arg, TERMIOS_SIZE as u64, IoctlAction::GetTermios(n))
    } else if cmd == TCSETS {
        pty_request(t, arg, TERMIOS_SIZE as u64, IoctlAction::SetTermios(n))
    } else if cmd == TIOCGWINSZ {
        pty_request(t, arg, WINSIZE_SIZE as u64, IoctlAction::GetWinsize(n))
    } else if cmd == TIOCSWINSZ {
        pty_request(t, arg, WINSIZE_SIZE as u64, IoctlAction::SetWinsize(n))
    } else if cmd == TIOCSPGRP {
        if spec_valid_user_buffer(arg, 8) { IoctlAction::SetForegroundGroup } else { IoctlAction::Done(-1isize) }
    } else if cmd == TIOCGPGRP {
        if spec_valid_user_buffer(arg, 8) { IoctlAction::GetForegroundGroup } else { IoctlAction::Done(-1isize) }
    } else if cmd == TIOCSCTTY {
        match caller {
            None => IoctlAction::Done(-1isize),
            Some((pid, sid, has_tty)) => if sid != pid || has_tty || pty_of(t) is None {
                IoctlAction::Done(-1isize)
            } else {
                IoctlAction::SetControllingTerminal { pty: n, sid }
            },
        }
    } else {
        IoctlAction::Done(-1isize)
    }
}

/// Decide an ioctl request `cmd` with argument pointer `arg` on descriptor
/// `fd`: -1 for a descriptor that is not open, an unknown command, a
/// descriptor of the wrong kind, a bad argument pointer or (for making a
/// controlling terminal) a caller that is missing, not a session leader or
/// already has a terminal; otherwise the work to do on the PTY or the
/// terminal's process group.
pub fn sys_ioctl_decide(fds: &FdTable, fd: usize, cmd: usize, arg: u64, caller: Option<(usize, usize, bool)>) -> (r: IoctlAction)
    requires
        fds.wf(),
    ensures
        r == match (if fd < MAX_FDS { fds@[fd as int] } else { None }) {
            None => IoctlAction::Done(-1isize),
            Some(e) => spec_ioctl_action(e.fd_type, cmd, arg, caller),
        },
{
    let entry = match fds.get(fd) {
        Some(e) => e,
        None => {
            return IoctlAction::Done(-1isize);
        },
    };
    let t = entry.fd_type;
    let pty: Option<u32> = match t {
        FdType::PtyMaster(n) => Some(n),
        FdType::PtySlave(n) => Some(n),
        _ => None,
    };
    if cmd == TIOCGPTN {
        match t {
            FdType::PtyMaster(m) => if validate_user_buffer(arg, 4) {
                IoctlAction::WritePtyNumber(m)
            } else {
                IoctlAction::Done(-1isize)
            },
            _ => IoctlAction::Done(-1isize),
        }
    } else if cmd == TCGETS || cmd == TCSETS || cmd == TIOCGWINSZ || cmd == TIOCSWINSZ {
        let n = match pty {
            Some(n) => n,
            None => {
                return IoctlAction::Done(-1isize);
            },
        };
        let size: u64 = if cmd == TCGETS || cmd == TCSETS { TERMIOS_SIZE as u64 } else { WINSIZE_SIZE as u64 };
        if !validate_user_buffer(arg, size) {
            return IoctlAction::Done(-1isize);
        }
        if cmd == TCGETS {
            IoctlAction::GetTermios(n)
        } else if cmd == TCSETS {
            IoctlAction::SetTermios(n)
        } else if cmd == TIOCGWINSZ {
            IoctlAction::GetWinsize(n)
        } else {
            IoctlAction::SetWinsize(n)
        }
    } else if cmd == TIOCSPGRP || cmd == TIOCGPGRP {
        if !validate_user_buffer(arg, 8) {
            IoctlAction::Done(-1isize)
        } else if cmd == TIOCSPGRP {
            IoctlAction::SetForegroundGroup
        } else {
            IoctlAction::GetForegroundGroup
        }
    } else if cmd == TIOCSCTTY {
        match caller {
            None => IoctlAction::Done(-1isize),
            Some((pid, sid, has_tty)) => {
                if sid != pid || has_tty {
                    return IoctlAction::Done(-1isize);
                }
                match pty {
                    Some(n) => IoctlAction::SetControllingTerminal { pty: n, sid },
                    None => IoctlAction::Done(-1isize),
                }
            },
        }
    } else {
        IoctlAction::Done(-1isize)
    }
}

} // verus!
