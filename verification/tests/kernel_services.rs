use mellos::init_loader::load_init_process;
use mellos::mm::allocator::BuddyAllocator;
use mellos::mm::mmap::{sys_mmap, sys_mprotect, MmapFlags, MmapManager, ProtFlags, MAP_PRIVATE, PROT_READ};
use mellos::mm::paging::{PageTableFlags, PRESENT, USER, WRITABLE};
use mellos::sched::priority::{PriorityScheduler, TaskPriority};
use mellos::sched::task::{MemoryRegion, MemoryRegionType, SchedulerError, Task};
use mellos::sched::{enqueue_task, init_scheduler, spawn_task};
use mellos::signal::security::should_deliver_signal;
use mellos::signal::signals;
use mellos::sys::ipc::IpcError;
use mellos::sys::mount::mount_check;
use mellos::sys::port::{PortManager, MAX_MESSAGES_PER_PORT};
use mellos::sys::syscall::{sys_pipe2, FdTable, PipeTable};
use mellos::sys::KernelMetrics;

#[test]
fn spawn_reports_full_runqueues_and_changes_nothing() {
    let mut heap = Some(BuddyAllocator::init(0x100_0000, 0x10_0000));
    let mut s = init_scheduler(1, 0x40_0000, 0x1234).unwrap();
    for id in 0..64 {
        enqueue_task(&mut s, id, None, 0);
    }
    let before = heap.as_ref().unwrap().allocated_bytes();
    assert!(matches!(
        spawn_task(&mut s, &mut heap, "x", 0x1000, TaskPriority::Low, 0),
        Err(SchedulerError::RunqueueFull)
    ));
    assert_eq!(heap.as_ref().unwrap().allocated_bytes(), before);
    assert!(s.task(1).is_none());
}

#[test]
fn sleeping_task_leaves_the_ready_queue() {
    let mut s = PriorityScheduler::new();
    assert!(s.enqueue_task(1, TaskPriority::Normal));
    assert!(s.sleep_task(1, 10, TaskPriority::Normal));
    assert_eq!(s.len(), 0);
    assert_eq!(s.select_next(), None);
}

#[test]
fn port_queue_holds_sixteen_messages() {
    let mut ports = PortManager::new();
    let mut metrics = KernelMetrics::new();
    assert_eq!(MAX_MESSAGES_PER_PORT, 16);
    assert!(ports.create_port(3).is_ok());
    for _ in 0..16 {
        assert!(ports.send_message(&mut metrics, 3, b"ping").is_ok());
    }
    assert!(matches!(ports.send_message(&mut metrics, 3, b"ping"), Err(IpcError::QueueFull)));
}

#[test]
fn signal_mask_bit_n_blocks_signal_n() {
    let mut t = Task::new(1, "t", 0x10_0000, 0x1000, TaskPriority::Normal).unwrap();
    t.block_signals(1u64 << signals::SIGINT);
    assert!(!should_deliver_signal(&t, signals::SIGINT));
    assert!(should_deliver_signal(&t, signals::SIGINT - 1));
    t.block_signals(1u64 << signals::SIGKILL);
    assert!(should_deliver_signal(&t, signals::SIGKILL));
}

#[test]
fn mmap_places_mappings_and_mprotect_checks_ranges() {
    let mut m = MmapManager::new();
    let prot = ProtFlags::from_bits(PROT_READ);
    let flags = MmapFlags::from_bits(MAP_PRIVATE);
    assert_eq!(sys_mmap(&mut m, 7, 0, 100, prot, flags, -1, 0), Ok(0x7000_0000_0000));
    assert_eq!(sys_mmap(&mut m, 7, 0, 8192, prot, flags, -1, 0), Ok(0x7000_0001_0000));
    assert_eq!(sys_mmap(&mut m, 7, 0x1234, 10, prot, flags, -1, 0), Err("Address not page aligned"));
    assert_eq!(sys_mmap(&mut m, 7, 0, 0, prot, flags, -1, 0), Err("Invalid length"));
    assert_eq!(sys_mprotect(&mut m, 7, 0x7000_0001_0000, 8192, prot), Ok(()));
    assert_eq!(sys_mprotect(&mut m, 7, 0x7000_0001_0000, 8193, prot), Err("Range exceeds mapping"));
    assert_eq!(sys_mprotect(&mut m, 7, 0x6000_0000_0000, 10, prot), Err("Address not mapped"));
    assert_eq!(sys_mprotect(&mut m, 7, 0x7000_0000_0001, 10, prot), Err("Address not page aligned"));
}

#[test]
fn pipe2_succeeds_with_a_free_pipe_and_two_descriptors() {
    let mut fds = FdTable::new();
    let mut pipes = PipeTable::new();
    let (r, ends) = sys_pipe2(&mut fds, &mut pipes, 0x1000, 0);
    assert_eq!(r, 0);
    assert_eq!(ends, Some((3, 4)));
    assert_eq!(sys_pipe2(&mut fds, &mut pipes, 0, 0), (-1, None));
}

#[test]
fn init_process_spawns_launcher_or_falls_back() {
    let mut heap = Some(BuddyAllocator::init(0x100_0000, 0x10_0000));
    let mut s = init_scheduler(1, 0x40_0000, 0x1234).unwrap();
    assert_eq!(load_init_process(&mut s, &mut heap, 0, 0, 0x1000, 0x2000, 0), Ok(None));
    assert!(s.task(1).is_none());
    assert!(load_init_process(&mut s, &mut heap, 100, 100, 0x1000, 0x2000, 0).is_ok());
    assert_eq!(s.task(1).map(|t| (t.name, t.priority)), Some(("init", TaskPriority::High)));
    let mut no_heap: Option<BuddyAllocator> = None;
    assert_eq!(
        load_init_process(&mut s, &mut no_heap, 100, 100, 0x1000, 0x2000, 0),
        Err("Failed to spawn init task")
    );
    assert_eq!(load_init_process(&mut s, &mut no_heap, 100, 0, 0x1000, 0x2000, 0), Ok(None));
}

#[test]
fn mount_accepts_known_file_systems_only() {
    assert_eq!(mount_check(Some(b"/dev/ram0"), Some(b"/mnt"), Some(b"mfs_ram")), 0);
    assert_eq!(mount_check(Some(b"/dev/sda"), Some(b"/data"), Some(b"mfs_disk")), 0);
    assert_eq!(mount_check(Some(b"/dev/sda"), Some(b"/data"), Some(b"ext4")), -1);
    assert_eq!(mount_check(Some(&[0xff, 0xfe]), Some(b"/mnt"), Some(b"mfs_ram")), -1);
    assert_eq!(mount_check(Some("/dév".as_bytes()), Some(b"/mnt"), Some(b"mfs_ram")), 0);
    assert_eq!(mount_check(None, Some(b"/mnt"), Some(b"mfs_ram")), -1);
}

#[test]
fn freed_block_is_handed_out_again() {
    let mut a = BuddyAllocator::init(0x100_0000, 0x10_0000);
    let x = a.allocate(64);
    let y = a.allocate(64);
    assert!(x != 0 && y != 0);
    a.free(y, 64);
    assert_eq!(a.allocate(64), y);
}

#[test]
fn region_added_then_removed_leaves_regions_as_before() {
    let mut t = Task::new(1, "t", 0x10_0000, 0x1000, TaskPriority::Normal).unwrap();
    let code = MemoryRegion::new(0x40_0000, 0x40_2000, PageTableFlags(PRESENT | USER), MemoryRegionType::Code);
    let data = MemoryRegion::new(0x50_0000, 0x50_1000, PageTableFlags(PRESENT | USER | WRITABLE), MemoryRegionType::Data);
    assert!(t.add_memory_region(code).is_ok());
    assert!(t.add_memory_region(data).is_ok());
    assert!(matches!(t.add_memory_region(code), Err(SchedulerError::RegionOverlap)));
    assert!(t.remove_memory_region(0x50_0000, 0x50_1000).is_ok());
    assert!(matches!(t.remove_memory_region(0x50_0000, 0x50_1000), Err(SchedulerError::InvalidRegion)));
    assert!(t.find_memory_region(0x40_1000).is_some());
    assert!(t.find_memory_region(0x50_0000).is_none());
}
