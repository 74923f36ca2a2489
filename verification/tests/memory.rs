use mellos::mm::allocator::{allocated_bytes, init_allocator, kfree, kmalloc, BuddyAllocator};
use mellos::mm::log::{format_addr, format_size, format_size_str};
use mellos::mm::paging::{PageTableFlags, NO_EXECUTE, PRESENT, USER, WRITABLE};
use mellos::mm::refcount::PageRefcount;
use mellos::mm::security::{is_aligned, is_user_pointer, is_user_range, validate_wx_flags, MemoryRegionType};
use mellos::sched::task::USER_LIMIT;

#[test]
fn test_refcount_basic() {
    let mut refcount = PageRefcount::new();
    let page = 0x1000;

    assert_eq!(refcount.get_refcount(page), 1);

    assert_eq!(refcount.inc_refcount(page), 2);
    assert_eq!(refcount.get_refcount(page), 2);

    assert_eq!(refcount.inc_refcount(page), 3);
    assert_eq!(refcount.get_refcount(page), 3);

    assert!(refcount.is_shared(page));
}

#[test]
fn test_tracked_pages() {
    let mut refcount = PageRefcount::new();

    assert_eq!(refcount.tracked_pages(), 0);

    refcount.inc_refcount(0x1000);
    assert_eq!(refcount.tracked_pages(), 1);

    refcount.inc_refcount(0x2000);
    assert_eq!(refcount.tracked_pages(), 2);

    refcount.remove_tracking(0x1000);
    assert_eq!(refcount.tracked_pages(), 1);
}

#[test]
fn test_is_user_pointer() {
    assert!(is_user_pointer(0x1000));
    assert!(is_user_pointer(0x7FFF_FFFF_FFFF));

    assert!(!is_user_pointer(0));
    assert!(!is_user_pointer(USER_LIMIT));
    assert!(!is_user_pointer(0xFFFF_8000_0000_0000));
}

#[test]
fn test_is_user_range() {
    assert!(is_user_range(0x1000, 0x1000));
    assert!(is_user_range(0x1000, 0x100));

    assert!(!is_user_range(0, 0x1000));
    assert!(!is_user_range(USER_LIMIT - 0x100, 0x200));
    assert!(!is_user_range(u64::MAX - 0x100, 0x200));
}

#[test]
fn test_is_aligned() {
    assert!(is_aligned::<u32>(0x1000));
    assert!(is_aligned::<u32>(0x1004));
    assert!(!is_aligned::<u32>(0x1001));
    assert!(!is_aligned::<u32>(0x1002));

    assert!(is_aligned::<u64>(0x1000));
    assert!(is_aligned::<u64>(0x1008));
    assert!(!is_aligned::<u64>(0x1004));
}

#[test]
fn test_validate_wx_flags() {
    let code_flags = PageTableFlags(PRESENT);
    assert!(validate_wx_flags(code_flags));

    let data_flags = PageTableFlags(PRESENT | WRITABLE | NO_EXECUTE);
    assert!(validate_wx_flags(data_flags));

    let readonly_flags = PageTableFlags(PRESENT | NO_EXECUTE);
    assert!(validate_wx_flags(readonly_flags));

    let bad_flags = PageTableFlags(PRESENT | WRITABLE);
    assert!(!validate_wx_flags(bad_flags));
}

#[test]
fn test_memory_region_type_flags() {
    let code_flags = MemoryRegionType::Code.flags(true);
    assert!(MemoryRegionType::Code.validate_flags(code_flags));
    assert!(validate_wx_flags(code_flags));

    let data_flags = MemoryRegionType::Data.flags(true);
    assert!(MemoryRegionType::Data.validate_flags(data_flags));
    assert!(validate_wx_flags(data_flags));

    let stack_flags = MemoryRegionType::Stack.flags(true);
    assert!(MemoryRegionType::Stack.validate_flags(stack_flags));
    assert!(validate_wx_flags(stack_flags));

    let readonly_flags = MemoryRegionType::ReadOnly.flags(true);
    assert!(MemoryRegionType::ReadOnly.validate_flags(readonly_flags));
    assert!(validate_wx_flags(readonly_flags));
}

#[test]
fn region_flags_carry_user_bit() {
    assert_eq!(MemoryRegionType::Code.flags(true).bits() & USER, USER);
    assert_eq!(MemoryRegionType::Code.flags(false).bits() & USER, 0);
    assert_eq!(MemoryRegionType::Data.flags(false).bits() & NO_EXECUTE, NO_EXECUTE);
}

#[test]
fn format_size_picks_unit() {
    assert_eq!(format_size(512), (512, "bytes"));
    assert_eq!(format_size(1024), (1, "KB"));
    assert_eq!(format_size(1048576), (1, "MB"));
    assert_eq!(format_size(3 * 1048576 + 5), (3, "MB"));
    assert_eq!(format_size_str(2047), (1, "KB"));
    assert_eq!(format_addr(0x1000), 0x1000);
}

#[test]
fn buddy_allocator_carves_and_serves() {
    let heap_start = 0x10_0000;
    let mut a = BuddyAllocator::init(heap_start, 0x1000);
    assert_eq!(a.allocated_bytes(), 0);
    let p = a.allocate(100);
    assert_eq!(p, heap_start);
    assert_eq!(a.allocated_bytes(), 128);
    let q = a.allocate(1);
    assert_eq!(q, heap_start + 128);
    assert_eq!(a.allocated_bytes(), 192);
    assert_eq!(a.allocate(0), 0);
    assert_eq!(a.allocate(2 * 1048576), 0);
    a.free(q, 1);
    a.free(p, 100);
    assert_eq!(a.allocated_bytes(), 0);
    assert_eq!(a.allocate(4096), heap_start);
}

#[test]
fn kmalloc_kfree_round_trip() {
    let mut heap: Option<BuddyAllocator> = None;
    assert_eq!(kmalloc(&mut heap, 64), 0);
    assert_eq!(allocated_bytes(&heap), 0);
    init_allocator(&mut heap, 0x20_0000, 0x10000);
    let p = kmalloc(&mut heap, 1000);
    assert_ne!(p, 0);
    assert_eq!(allocated_bytes(&heap), 1024);
    kfree(&mut heap, p, 1000);
    assert_eq!(allocated_bytes(&heap), 0);
    kfree(&mut heap, 0, 1000);
    kfree(&mut heap, 0x10, 64);
    assert_eq!(allocated_bytes(&heap), 0);
}
