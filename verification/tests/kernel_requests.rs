use mellos::mm::allocator::BuddyAllocator;
use mellos::mm::paging::{PageMapper, PageTableFlags, NO_EXECUTE, PRESENT, WRITABLE};
use mellos::mm::pmm::{MemoryMapEntry, PhysicalMemoryManager, MEMMAP_USABLE};
use mellos::sys::ioctl::{sys_ioctl_decide, IoctlAction, TCGETS, TIOCGPGRP, TIOCGPTN, TIOCSCTTY, TIOCSWINSZ};
use mellos::sys::mount::{sys_fdatasync, sys_fsync, umount_check};
use mellos::sys::syscall::{open_target, FdTable, FdType, OpenTarget};

fn table_with_ptys() -> (FdTable, usize, usize, usize) {
    let mut t = FdTable::new();
    let master = t.allocate(FdType::PtyMaster(3)).unwrap();
    let slave = t.allocate(FdType::PtySlave(3)).unwrap();
    let pipe = t.allocate(FdType::PipeRead(0)).unwrap();
    (t, master, slave, pipe)
}

#[test]
fn ioctl_pty_number_only_on_master() {
    let (t, master, slave, _) = table_with_ptys();
    assert_eq!(sys_ioctl_decide(&t, master, TIOCGPTN, 0x1000, None), IoctlAction::WritePtyNumber(3));
    assert_eq!(sys_ioctl_decide(&t, slave, TIOCGPTN, 0x1000, None), IoctlAction::Done(-1));
    assert_eq!(sys_ioctl_decide(&t, master, TIOCGPTN, 0, None), IoctlAction::Done(-1));
}

#[test]
fn ioctl_terminal_requests_need_a_pty_and_a_user_buffer() {
    let (t, master, slave, pipe) = table_with_ptys();
    assert_eq!(sys_ioctl_decide(&t, slave, TCGETS, 0x2000, None), IoctlAction::GetTermios(3));
    assert_eq!(sys_ioctl_decide(&t, master, TIOCSWINSZ, 0x2000, None), IoctlAction::SetWinsize(3));
    assert_eq!(sys_ioctl_decide(&t, pipe, TCGETS, 0x2000, None), IoctlAction::Done(-1));
    assert_eq!(sys_ioctl_decide(&t, slave, TCGETS, 0x0000_8000_0000_0000, None), IoctlAction::Done(-1));
    assert_eq!(sys_ioctl_decide(&t, 200, TCGETS, 0x2000, None), IoctlAction::Done(-1));
    assert_eq!(sys_ioctl_decide(&t, slave, 0x1234, 0x2000, None), IoctlAction::Done(-1));
    assert_eq!(sys_ioctl_decide(&t, pipe, TIOCGPGRP, 0x2000, None), IoctlAction::GetForegroundGroup);
}

#[test]
fn ioctl_controlling_terminal_needs_a_session_leader_without_one() {
    let (t, _, slave, pipe) = table_with_ptys();
    assert_eq!(
        sys_ioctl_decide(&t, slave, TIOCSCTTY, 0, Some((7, 7, false))),
        IoctlAction::SetControllingTerminal { pty: 3, sid: 7 }
    );
    assert_eq!(sys_ioctl_decide(&t, slave, TIOCSCTTY, 0, Some((8, 7, false))), IoctlAction::Done(-1));
    assert_eq!(sys_ioctl_decide(&t, slave, TIOCSCTTY, 0, Some((7, 7, true))), IoctlAction::Done(-1));
    assert_eq!(sys_ioctl_decide(&t, slave, TIOCSCTTY, 0, None), IoctlAction::Done(-1));
    assert_eq!(sys_ioctl_decide(&t, pipe, TIOCSCTTY, 0, Some((7, 7, false))), IoctlAction::Done(-1));
}

#[test]
fn open_paths_are_classified() {
    assert_eq!(open_target(b"/dev/ptmx"), OpenTarget::NewPty);
    assert_eq!(open_target(b"/dev/pts/12"), OpenTarget::PtySlave(12));
    assert_eq!(open_target(b"/dev/pts/+4"), OpenTarget::PtySlave(4));
    assert_eq!(open_target(b"/dev/pts/4294967295"), OpenTarget::PtySlave(4294967295));
    assert_eq!(open_target(b"/dev/pts/4294967296"), OpenTarget::BadPtyNumber);
    assert_eq!(open_target(b"/dev/pts/"), OpenTarget::BadPtyNumber);
    assert_eq!(open_target(b"/dev/pts/1a"), OpenTarget::BadPtyNumber);
    assert_eq!(open_target(b"/dev/ptmx0"), OpenTarget::Vfs { utf8: true });
    assert_eq!(open_target(b"/etc/passwd"), OpenTarget::Vfs { utf8: true });
    assert_eq!(open_target(&[0x2f, 0xff]), OpenTarget::Vfs { utf8: false });
}

#[test]
fn umount_and_sync_check_their_arguments() {
    assert_eq!(umount_check(Some(b"/mnt")), 0);
    assert_eq!(umount_check(Some(&[0xc3, 0x28])), -1);
    assert_eq!(umount_check(None), -1);
    let (t, master, _, _) = table_with_ptys();
    assert_eq!(sys_fsync(&t, master), 0);
    assert_eq!(sys_fdatasync(&t, master), 0);
    assert_eq!(sys_fsync(&t, 100), -1);
    assert_eq!(sys_fdatasync(&t, 1000), -1);
}

#[test]
fn unmap_for_shootdown_reports_the_page_range() {
    let entries = [MemoryMapEntry { base: 0x10_0000, length: 0x40_0000, entry_type: MEMMAP_USABLE }];
    let mut pmm = PhysicalMemoryManager::init(&entries, 0x10_0000, 0x11_0000);
    let mut m = PageMapper::new_for_process(&mut pmm).unwrap();
    assert_eq!(m.map_page(0x40_0000, 0x20_0000, PageTableFlags(PRESENT | WRITABLE | NO_EXECUTE), &mut pmm), Ok(false));
    assert_eq!(m.get_page_flags(0x40_0000).map(|f| f.0), Some(PRESENT | WRITABLE | NO_EXECUTE));
    // Bits 52 to 62 of an entry are not flags.
    assert_eq!(m.map_page(0x40_2000, 0x20_1000, PageTableFlags(PRESENT | (1u64 << 52)), &mut pmm), Ok(false));
    assert_eq!(m.get_page_flags(0x40_2000).map(|f| f.0), Some(PRESENT));
    assert_eq!(m.unmap_page_for_shootdown(0x40_0000), Ok((0x40_0000, 0x40_1000)));
    assert_eq!(m.translate(0x40_0000), None);
    assert_eq!(m.unmap_page_for_shootdown(0x40_0000), Err("Page not mapped (PT)"));
    assert_eq!(m.unmap_page_for_shootdown(0x40_0008), Err("Address not aligned to 4KB"));
}

#[test]
fn freed_block_can_be_allocated_again() {
    let mut a = BuddyAllocator::init(0x100_0000, 0x10_0000);
    let p = a.allocate(100);
    assert!(p != 0);
    let q = a.allocate(100);
    assert!(q != 0);
    let used = a.allocated_bytes();
    a.free(p, 100);
    assert_eq!(a.allocated_bytes(), used - 128);
    let r = a.allocate(100);
    assert!(r != 0);
    assert_eq!(a.allocated_bytes(), used);
}

#[test]
fn process_added_twice_then_removed_leaves_the_group_as_it_was() {
    let mut g = mellos::sched::process_group::ProcessGroup::new(5, 5);
    assert!(g.add_process(10));
    assert!(g.add_process(11));
    let before = g.iter();
    assert!(g.add_process(12));
    assert!(g.add_process(12));
    assert_eq!(g.len(), 3);
    assert!(g.remove_process(12));
    assert_eq!(g.iter(), before);
    assert!(!g.remove_process(12));
    assert_eq!(g.iter(), before);
}

#[test]
fn live_heap_blocks_never_overlap() {
    let mut a = BuddyAllocator::init(0x100_0040, 0x2_0000);
    let mut live: Vec<(usize, usize)> = Vec::new();
    for size in [64usize, 100, 4096, 200, 64, 1000, 8192] {
        let p = a.allocate(size);
        assert!(p != 0);
        let len = size.next_power_of_two().max(64);
        assert!(p >= 0x100_0040 && p + len <= 0x100_0040 + 0x2_0000);
        for &(q, qlen) in &live {
            assert!(p + len <= q || q + qlen <= p);
        }
        live.push((p, len));
    }
    let (p, len) = live.remove(2);
    a.free(p, len);
    let r = a.allocate(4096);
    assert!(r != 0);
    for &(q, qlen) in &live {
        assert!(r + 4096 <= q || q + qlen <= r);
    }
}

#[test]
fn blocks_of_an_aligned_heap_are_aligned_to_their_size() {
    let mut a = BuddyAllocator::init(0x100_0000, 0x30_0000);
    for size in [64usize, 4096, 100, 65536, 1 << 20, 300, 8192] {
        let p = a.allocate(size);
        assert!(p != 0);
        let len = size.next_power_of_two().max(64);
        assert_eq!(p % len, 0);
    }
}
