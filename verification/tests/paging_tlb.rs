use mellos::mm::security::validate_page_wx;
use mellos::mm::paging::{
    alloc_page_table_with_kernel_mappings, get_kernel_template, init_kernel_template,
    clone_page_table, clone_page_table_hierarchy, copy_kernel_mappings, free_page_table_hierarchy, PageTable, mark_user_pages_cow, KernelSections, PageMapper, PageTableFlags, COW, GLOBAL,
    NO_EXECUTE, PRESENT, USER, WRITABLE,
};
use mellos::mm::pmm::{MemoryMapEntry, PhysicalMemoryManager, MEMMAP_USABLE};
use mellos::mm::{init_memory, map_kernel_heap, Hhdm, KERNEL_HEAP_SIZE, KERNEL_HEAP_START};
use mellos::mm::allocator::kmalloc;
use mellos::mm::refcount::PageRefcount;
use mellos::mm::tlb::{
    ack_wait_status, plan_shootdown, tlb_shootdown, AckWait, BatchedShootdown, FlushPlan, ShootdownAction,
    SHOOTDOWN_TIMEOUT_TSC, TSC_PER_MS,
};
use mellos::sched::priority::TaskPriority;
use mellos::sched::{init_scheduler, spawn_task, tick, TickAction};
use mellos::mm::allocator::BuddyAllocator;
use mellos::sys::KernelMetrics;

fn small_pmm() -> PhysicalMemoryManager {
    let entries = [MemoryMapEntry { base: 0x10_0000, length: 0x40_0000, entry_type: MEMMAP_USABLE }];
    PhysicalMemoryManager::init(&entries, 0x10_0000, 0x11_0000)
}

fn free_frames(pmm: &mut PhysicalMemoryManager) -> usize {
    let mut n = 0;
    while pmm.alloc_frame().is_some() {
        n += 1;
    }
    n
}

#[test]
fn map_translate_unmap_page() {
    let mut pmm = small_pmm();
    let mut m = PageMapper::new_for_process(&mut pmm).unwrap();
    assert_eq!(m.translate(0x40_0000), None);
    assert_eq!(m.map_page(0x40_0000, 0x20_0000, PageTableFlags(PRESENT | WRITABLE | USER), &mut pmm), Ok(false));
    assert_eq!(m.translate(0x40_0123), Some(0x20_0123));
    assert_eq!(m.get_page_flags(0x40_0000).map(|f| f.0), Some(PRESENT | WRITABLE | USER));
    assert_eq!(m.map_page(0x40_0000, 0x30_0000, PageTableFlags(PRESENT), &mut pmm), Ok(true));
    assert_eq!(m.translate(0x40_0010), Some(0x30_0010));
    assert_eq!(m.map_page(0x40_0001, 0x30_0000, PageTableFlags(PRESENT), &mut pmm), Err("Address not aligned to 4KB"));
    assert_eq!(m.unmap_page(0x40_0001), Err("Address not aligned to 4KB"));
    assert_eq!(m.unmap_page(0x80_0000_0000), Err("Page not mapped (PML4)"));
    assert_eq!(m.unmap_page(0x40_1000), Err("Page not mapped (PT)"));
    assert_eq!(m.unmap_page(0x40_0000), Ok(()));
    assert_eq!(m.translate(0x40_0000), None);
}

#[test]
fn map_range_maps_every_page_at_its_offset() {
    let mut pmm = small_pmm();
    let mut m = PageMapper::new_for_process(&mut pmm).unwrap();
    let base_virt = 0xFFFF_FFFF_8000_0000u64;
    let base_phys = 0x20_0000u64;
    let r = m.map_range(base_virt + 0x10, base_virt + 0x2001, base_virt, base_phys, PageTableFlags(PRESENT), &mut pmm);
    assert_eq!(r, Ok(()));
    assert_eq!(m.translate(base_virt), Some(base_phys));
    assert_eq!(m.translate(base_virt + 0x1008), Some(base_phys + 0x1008));
    assert_eq!(m.translate(base_virt + 0x2000), Some(base_phys + 0x2000));
    assert_eq!(m.translate(base_virt + 0x3000), None);
}

#[test]
fn kernel_sections_get_their_permissions() {
    let mut pmm = small_pmm();
    let mut m = PageMapper::new_for_process(&mut pmm).unwrap();
    let base_virt = 0xFFFF_FFFF_8000_0000u64;
    let sections = KernelSections {
        text_start: base_virt,
        text_end: base_virt + 0x1000,
        rodata_start: base_virt + 0x1000,
        rodata_end: base_virt + 0x2000,
        data_start: base_virt + 0x2000,
        data_end: base_virt + 0x3000,
    };
    assert_eq!(m.map_kernel_sections(base_virt, 0x20_0000, sections, &mut pmm), Ok(()));
    assert_eq!(m.get_page_flags(base_virt).map(|f| f.0), Some(PRESENT | GLOBAL));
    let rodata = m.get_page_flags(base_virt + 0x1000).map(|f| f.0 & 0xfff);
    assert_eq!(rodata, Some((PRESENT | NO_EXECUTE | GLOBAL) & 0xfff));
    let data = m.get_page_flags(base_virt + 0x2000).map(|f| f.0 & 0xfff);
    assert_eq!(data, Some((PRESENT | WRITABLE | NO_EXECUTE | GLOBAL) & 0xfff));
    assert_eq!(m.translate(base_virt + 0x2abc), Some(0x20_2abc));
}

#[test]
fn cow_marks_writable_user_pages_only() {
    let mut pmm = small_pmm();
    let mut m = PageMapper::new_for_process(&mut pmm).unwrap();
    let rw = PageTableFlags(PRESENT | WRITABLE | USER);
    assert_eq!(m.map_page(0x40_0000, 0x20_0000, rw, &mut pmm), Ok(false));
    assert_eq!(m.map_page(0x40_1000, 0x20_1000, PageTableFlags(PRESENT | USER), &mut pmm), Ok(false));
    assert_eq!(m.map_page(0x7000_0000_0000, 0x20_0000, rw, &mut pmm), Ok(false));
    assert_eq!(m.map_page(0xFFFF_8000_0000_0000, 0x20_2000, PageTableFlags(PRESENT | WRITABLE), &mut pmm), Ok(false));
    let mut refs = PageRefcount::new();
    assert_eq!(mark_user_pages_cow(&mut m, &mut refs), Ok(2));
    let f = m.get_page_flags(0x40_0000).unwrap().0;
    assert_eq!(f & COW, COW);
    assert_eq!(f & WRITABLE, 0);
    assert_eq!(m.translate(0x40_0000), Some(0x20_0000));
    assert_eq!(m.get_page_flags(0x40_1000).unwrap().0, PRESENT | USER);
    assert_eq!(m.get_page_flags(0x7000_0000_0000).unwrap().0 & (COW | WRITABLE), COW);
    assert_eq!(m.get_page_flags(0xFFFF_8000_0000_0000).unwrap().0, PRESENT | WRITABLE);
    assert_eq!(refs.get_refcount(0x20_0000), 3);
    assert_eq!(refs.get_refcount(0x20_1000), 1);
    assert_eq!(refs.get_refcount(0x20_2000), 1);
    assert_eq!(mark_user_pages_cow(&mut m, &mut refs), Ok(0));
}

#[test]
fn freeing_hierarchy_returns_every_table_frame() {
    let mut pmm = small_pmm();
    let mut probe = small_pmm();
    let before = free_frames(&mut probe);
    let mut m = PageMapper::new_for_process(&mut pmm).unwrap();
    assert_eq!(m.map_page(0x40_0000, 0x20_0000, PageTableFlags(PRESENT | USER), &mut pmm), Ok(false));
    assert_eq!(m.map_page(0x4000_0000, 0x20_0000, PageTableFlags(PRESENT | USER), &mut pmm), Ok(false));
    free_page_table_hierarchy(&m, &mut pmm);
    assert_eq!(free_frames(&mut pmm), before);
}

#[test]
fn tick_switches_and_counts() {
    let mut heap = Some(BuddyAllocator::init(0x100_0000, 0x10_0000));
    let mut s = init_scheduler(1, 0x40_0000, 0x1234).unwrap();
    let mut metrics = KernelMetrics::new();
    let mut switches: usize = 0;
    let (a, _) = spawn_task(&mut s, &mut heap, "a", 0x1000, TaskPriority::Normal, 0).unwrap();
    let (b, _) = spawn_task(&mut s, &mut heap, "b", 0x2000, TaskPriority::Normal, 0).unwrap();
    assert_eq!(tick(&mut s, &mut metrics, &mut switches, 0), TickAction::First { task: a });
    assert_eq!(metrics.timer_ticks, 1);
    assert_eq!(metrics.ctx_switches, 0);
    let second = tick(&mut s, &mut metrics, &mut switches, 0);
    assert_eq!(second, TickAction::Switch { old: a, new: b, switch_number: 0, preemptive: true, log: true });
    assert_eq!((metrics.timer_ticks, metrics.ctx_switches, metrics.preemptions, switches), (2, 1, 1, 1));
    let third = tick(&mut s, &mut metrics, &mut switches, 0);
    assert_eq!(third, TickAction::Switch { old: b, new: a, switch_number: 1, preemptive: true, log: true });
}

#[test]
fn shootdown_plan_targets_other_online_cpus() {
    let plan = plan_shootdown(0x1000, 0x3000, 0, 1, 4, 0b1011);
    assert_eq!(plan.local, FlushPlan::Pages { start: 0x1000, count: 2 });
    assert_eq!(plan.ipi_mask, 0b1001);
    assert_eq!(plan.expected, 2);
    let only_self = plan_shootdown(0x1000, 0x100_0000, 0b10, 1, 4, 0b1111);
    assert_eq!(only_self.local, FlushPlan::All);
    assert_eq!(only_self.expected, 0);
    assert_eq!(only_self.ipi_mask, 0);
    assert_eq!(ack_wait_status(2, 2, 100, 100), AckWait::Complete);
    assert_eq!(ack_wait_status(1, 2, 100, 100 + SHOOTDOWN_TIMEOUT_TSC), AckWait::TimedOut);
    assert_eq!(ack_wait_status(1, 2, 100, 101), AckWait::Pending);
}

#[test]
fn clone_maps_every_address_like_the_original() {
    let mut pmm = small_pmm();
    let mut m = PageMapper::new_for_process(&mut pmm).unwrap();
    assert_eq!(m.map_page(0x40_0000, 0x20_0000, PageTableFlags(PRESENT | WRITABLE | USER), &mut pmm), Ok(false));
    assert_eq!(m.map_page(0x40_1000, 0x20_1000, PageTableFlags(PRESENT | USER), &mut pmm), Ok(false));
    assert_eq!(m.map_page(0xFFFF_8000_0000_0000, 0x20_2000, PageTableFlags(PRESENT | WRITABLE), &mut pmm), Ok(false));
    let mut probe = small_pmm();
    let mut probe_m = PageMapper::new_for_process(&mut probe).unwrap();
    let _ = probe_m.map_page(0x40_0000, 0x20_0000, PageTableFlags(PRESENT), &mut probe);
    let _ = probe_m.map_page(0xFFFF_8000_0000_0000, 0x20_2000, PageTableFlags(PRESENT), &mut probe);
    let free_before = free_frames(&mut probe);
    let mut c = clone_page_table_hierarchy(&m, &mut pmm).unwrap();
    // a root and three copied tables under the one user mapping
    assert_eq!(free_frames(&mut pmm) + 4, free_before);
    for va in [0x40_0000u64, 0x40_0fff, 0x40_1000, 0x40_2000, 0xFFFF_8000_0000_0000, 0x1234_5000] {
        assert_eq!(c.translate(va), m.translate(va));
        assert_eq!(c.get_page_flags(va).map(|f| f.0), m.get_page_flags(va).map(|f| f.0));
    }
    assert_eq!(c.unmap_page(0x40_0000), Ok(()));
    assert_eq!(c.translate(0x40_0000), None);
    assert_eq!(m.translate(0x40_0000), Some(0x20_0000));
}

#[test]
fn clone_fails_without_frames() {
    let mut pmm = small_pmm();
    let mut m = PageMapper::new_for_process(&mut pmm).unwrap();
    assert_eq!(m.map_page(0x40_0000, 0x20_0000, PageTableFlags(PRESENT | USER), &mut pmm), Ok(false));
    let mut taken = Vec::new();
    while let Some(a) = pmm.alloc_frame() {
        taken.push(a);
    }
    pmm.free_frame(taken.pop().unwrap());
    pmm.free_frame(taken.pop().unwrap());
    assert!(matches!(clone_page_table_hierarchy(&m, &mut pmm), Err("Out of physical memory")));
    assert_eq!(pmm.alloc_frame(), None);
    pmm.free_frame(taken.pop().unwrap());
    pmm.free_frame(taken.pop().unwrap());
    pmm.free_frame(taken.pop().unwrap());
    pmm.free_frame(taken.pop().unwrap());
    assert!(clone_page_table_hierarchy(&m, &mut pmm).is_ok());
}

#[test]
fn single_table_clone_and_kernel_half_copy() {
    let mut pmm = small_pmm();
    let mut src = PageTable::new();
    let mut e = src.get_entry(3).clone();
    e.set(0x20_0000, PageTableFlags(PRESENT | WRITABLE));
    src.set_entry(3, e);
    src.set_entry(300, e);
    let (addr, copy) = clone_page_table(&src, &mut pmm).unwrap();
    assert_eq!(addr % 4096, 0);
    assert_eq!(copy.get_entry(3).raw(), src.get_entry(3).raw());
    let mut dest = PageTable::new();
    assert_eq!(copy_kernel_mappings(&mut dest, None), Err("Kernel template not initialized"));
    assert_eq!(copy_kernel_mappings(&mut dest, Some(&src)), Ok(()));
    assert_eq!(dest.get_entry(3).raw(), 0);
    assert_eq!(dest.get_entry(300).raw(), src.get_entry(300).raw());
}

#[test]
fn kernel_heap_pages_get_frames_of_their_own() {
    let mut pmm = small_pmm();
    let mut m = PageMapper::new(0x5_0000);
    let start = 0xFFFF_A000_0000_0000u64;
    assert_eq!(map_kernel_heap(&mut m, &mut pmm, start, 0x3000), Ok(()));
    let a = m.translate(start).unwrap();
    let b = m.translate(start + 0x1000).unwrap();
    let c = m.translate(start + 0x2000).unwrap();
    assert!(a != b && b != c && a != c);
    assert_eq!(m.get_page_flags(start + 0x1000).map(|f| f.0), Some(PRESENT | WRITABLE | NO_EXECUTE));
    assert_eq!(validate_page_wx(&m, start + 0x1000), Ok(()));
    assert_eq!(m.translate(start + 0x3000), None);
    let mut taken = Vec::new();
    while let Some(f) = pmm.alloc_frame() {
        taken.push(f);
    }
    assert_eq!(map_kernel_heap(&mut m, &mut pmm, start + 0x3000, 0x1000), Err("Out of memory while mapping heap"));
}

#[test]
fn boot_memory_setup_maps_kernel_and_heap() {
    let entries = [MemoryMapEntry { base: 0x10_0000, length: 0x400_0000, entry_type: MEMMAP_USABLE }];
    let base_virt = 0xFFFF_FFFF_8000_0000u64;
    let sections = KernelSections {
        text_start: base_virt,
        text_end: base_virt + 0x1000,
        rodata_start: base_virt + 0x1000,
        rodata_end: base_virt + 0x2000,
        data_start: base_virt + 0x2000,
        data_end: base_virt + 0x3000,
    };
    let mut hhdm = Hhdm::new();
    let mut heap: Option<BuddyAllocator> = None;
    let state = init_memory(&mut hhdm, 0xFFFF_8000_0000_0000, &entries, 0x20_0000, base_virt, sections, 0x5_0000, &mut heap)
        .unwrap();
    assert_eq!(hhdm.offset, 0xFFFF_8000_0000_0000);
    assert_eq!(state.mapper.translate(base_virt + 0x2010), Some(0x20_2010));
    assert_eq!(state.mapper.get_page_flags(base_virt).map(|f| f.0), Some(PRESENT | GLOBAL));
    let last = KERNEL_HEAP_START + KERNEL_HEAP_SIZE - 0x1000;
    assert!(state.mapper.translate(KERNEL_HEAP_START).is_some());
    assert!(state.mapper.translate(last).is_some());
    assert_eq!(state.mapper.get_page_flags(last).map(|f| f.0), Some(PRESENT | WRITABLE | NO_EXECUTE));
    assert_eq!(state.mapper.translate(KERNEL_HEAP_START - 0x1000), None);
    assert_eq!(state.mapper.translate(KERNEL_HEAP_START + KERNEL_HEAP_SIZE), None);
    assert_eq!(state.mapper.translate(0x1000), None);
    let a = kmalloc(&mut heap, 64);
    assert!(a >= KERNEL_HEAP_START as usize && a < (KERNEL_HEAP_START + KERNEL_HEAP_SIZE) as usize);
}

#[test]
fn shootdowns_are_batched_per_cpu_until_the_batch_expires() {
    let mut batches = vec![BatchedShootdown::new(), BatchedShootdown::new()];
    let first = tlb_shootdown(&mut batches, 0, 0x1000, 0x2000, 10);
    assert_eq!(first, ShootdownAction::Batched { local: FlushPlan::Pages { start: 0x1000, count: 1 } });
    let second = tlb_shootdown(&mut batches, 0, 0x8000, 0x9000, 20);
    assert_eq!(second, ShootdownAction::Batched { local: FlushPlan::Pages { start: 0x8000, count: 1 } });
    let late = tlb_shootdown(&mut batches, 0, 0x4000, 0x5000, 10 + TSC_PER_MS + 1);
    assert_eq!(late, ShootdownAction::Immediate { start: 0x1000, end: 0x9000 });
    let other = tlb_shootdown(&mut batches, 5, 0x4000, 0x5000, 30);
    assert_eq!(other, ShootdownAction::Immediate { start: 0x4000, end: 0x5000 });
}

#[test]
fn kernel_template_is_recorded_once_and_copied_into_new_roots() {
    let mut template_root = None;
    assert_eq!(get_kernel_template(&template_root), None);
    assert_eq!(init_kernel_template(&mut template_root, 0x5000), Ok(()));
    assert_eq!(init_kernel_template(&mut template_root, 0x9000), Ok(()));
    assert_eq!(get_kernel_template(&template_root), Some(0x5000));

    let mut kernel_root = PageTable::new();
    let mut e = kernel_root.get_entry(0).clone();
    e.set(0x20_0000, PageTableFlags(PRESENT | WRITABLE));
    kernel_root.set_entry(1, e);
    kernel_root.set_entry(511, e);

    let mut pmm = small_pmm();
    let before = {
        let mut probe = small_pmm();
        free_frames(&mut probe)
    };
    let (addr, root) = alloc_page_table_with_kernel_mappings(&mut pmm, Some(&kernel_root)).unwrap();
    assert_eq!(addr % 4096, 0);
    assert_eq!(root.get_entry(1).raw(), 0);
    assert_eq!(root.get_entry(511).raw(), kernel_root.get_entry(511).raw());
    assert_eq!(
        alloc_page_table_with_kernel_mappings(&mut pmm, None).err(),
        Some("Kernel template not initialized")
    );
    // Both calls took a frame, the failed one too.
    assert_eq!(free_frames(&mut pmm), before - 2);
    assert_eq!(
        alloc_page_table_with_kernel_mappings(&mut pmm, Some(&kernel_root)).err(),
        Some("Out of physical memory")
    );
}

#[test]
fn range_mapping_fails_on_unaligned_frames_and_when_frames_run_out() {
    let mut pmm = small_pmm();
    let mut m = PageMapper::new_for_process(&mut pmm).unwrap();
    let base_virt = 0xFFFF_FFFF_8000_0000u64;
    let r = m.map_range(base_virt, base_virt + 0x2000, base_virt, 0x20_0800, PageTableFlags(PRESENT), &mut pmm);
    assert_eq!(r, Err("Address not aligned to 4KB"));
    assert_eq!(m.translate(base_virt), None);
    // An empty range needs no frame and cannot fail.
    let r = m.map_range(base_virt, base_virt, base_virt, 0x20_0800, PageTableFlags(PRESENT), &mut pmm);
    assert_eq!(r, Ok(()));

    free_frames(&mut pmm);
    let sections = KernelSections {
        text_start: base_virt,
        text_end: base_virt + 0x1000,
        rodata_start: base_virt + 0x1000,
        rodata_end: base_virt + 0x2000,
        data_start: base_virt + 0x2000,
        data_end: base_virt + 0x3000,
    };
    assert_eq!(m.map_kernel_sections(base_virt, 0x20_0000, sections, &mut pmm), Err("Out of physical memory"));
    assert_eq!(m.translate(base_virt), None);
}
