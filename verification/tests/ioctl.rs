use mellos::sched::task::USER_LIMIT;
use mellos::sys::ioctl::{validate_ioctl, validate_ioctl_arg, IoctlCommand, TCGETS, TIOCGPTN, TIOCSWINSZ};
use mellos::sys::syscall::FdType;

#[test]
fn test_ioctl_command_lookup() {
    assert!(IoctlCommand::from_cmd(TIOCGPTN).is_some());
    assert!(IoctlCommand::from_cmd(TCGETS).is_some());
    assert!(IoctlCommand::from_cmd(TIOCSWINSZ).is_some());

    assert!(IoctlCommand::from_cmd(0xDEADBEEF).is_none());
}

#[test]
fn test_ioctl_fd_type_validation() {
    let tiocgptn = IoctlCommand::from_cmd(TIOCGPTN).unwrap();
    let tcgets = IoctlCommand::from_cmd(TCGETS).unwrap();

    assert!(tiocgptn.is_valid_for_fd(FdType::PtyMaster(0)));
    assert!(!tiocgptn.is_valid_for_fd(FdType::PtySlave(0)));
    assert!(!tiocgptn.is_valid_for_fd(FdType::PipeRead(0)));

    assert!(tcgets.is_valid_for_fd(FdType::PtyMaster(0)));
    assert!(tcgets.is_valid_for_fd(FdType::PtySlave(0)));
    assert!(!tcgets.is_valid_for_fd(FdType::PipeRead(0)));
}

#[test]
fn test_ioctl_arg_validation() {
    let tcgets = IoctlCommand::from_cmd(TCGETS).unwrap();

    assert!(validate_ioctl_arg(&tcgets, 0x1000).is_ok());

    assert!(validate_ioctl_arg(&tcgets, 0).is_err());

    assert!(validate_ioctl_arg(&tcgets, 0xFFFF_8000_0000_0000).is_err());

    assert!(validate_ioctl_arg(&tcgets, USER_LIMIT - 1).is_err());
}

#[test]
fn test_comprehensive_validation() {
    assert!(validate_ioctl(FdType::PtyMaster(0), TIOCGPTN, 0x1000).is_ok());

    assert!(validate_ioctl(FdType::PtyMaster(0), 0xDEADBEEF, 0x1000).is_err());

    assert!(validate_ioctl(FdType::PipeRead(0), TIOCGPTN, 0x1000).is_err());

    assert!(validate_ioctl(FdType::PtyMaster(0), TIOCGPTN, 0).is_err());
}
