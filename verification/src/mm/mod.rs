//! Memory management: physical frames, page tables, the kernel heap,
//! user-pointer validation, mmap bookkeeping and TLB shootdown decisions.
use vstd::prelude::*;

pub mod allocator;
pub mod log;
pub mod mmap;
pub mod paging;
pub mod pmm;
pub mod refcount;
pub mod security;
pub mod tlb;

use crate::mm::allocator::{
    carve, empty_lists, init_allocator, lemma_charge_fits, lemma_fresh_heap_serves, servable, size_order, take_block,
    BuddyAllocator, BuddyView,
};
use crate::mm::paging::{
    covers, lemma_distinct_pages_pub, mapped_leaf, page_in, range_first, range_limit, range_ok, same_page,
    section_frame, sections_aligned, sections_pages, KernelSections, PageMapper, PageTableFlags, ADDR_MASK, KERNEL_DATA_FLAGS, KERNEL_RODATA_FLAGS,
    KERNEL_TEXT_FLAGS, NO_EXECUTE, PRESENT, WRITABLE,
};
use crate::mm::pmm::{
    boot_frame_free, boot_free_frames, lemma_count_frames_same, usable_covers, usable_end, MemoryMapEntry,
    PhysicalMemoryManager, FRAME_SIZE, MEMMAP_USABLE,
};

verus! {

/// Physical address type
pub type PhysAddr = u64;

/// Virtual address type
pub type VirtAddr = u64;

/// The higher-half direct map: physical memory is visible at `offset + phys`.
#[derive(Debug, Clone, Copy, PartialEq, Eq, Structural)]
pub struct Hhdm {
    /// Offset of the direct map
    pub offset: u64,
}

impl Hhdm {
    /// A direct map that has not been set up yet (offset 0).
    pub fn new() -> (r: Self)
        ensures
            r.offset == 0,
    {
        Hhdm { offset: 0 }
    }
}

/// Record the direct-map offset reported by the bootloader.
pub fn init_hhdm(hhdm: &mut Hhdm, offset: u64)
    ensures
        final(hhdm).offset == offset,
{
    hhdm.offset = offset;
}

/// Convert a physical address to its direct-mapped virtual address.
pub fn phys_to_virt(hhdm: &Hhdm, phys: PhysAddr) -> (r: VirtAddr)
    requires
        phys + hhdm.offset <= u64::MAX,
    ensures
        r == phys + hhdm.offset,
{
    phys + hhdm.offset
}

/// Convert a direct-mapped virtual address back to its physical address.
pub fn virt_to_phys(hhdm: &Hhdm, virt: VirtAddr) -> (r: PhysAddr)
    requires
        virt >= hhdm.offset,
    ensures
        r == virt - hhdm.offset,
{
    virt - hhdm.offset
}

/// The direct map is a bijection: going there and back gives the address again.
pub proof fn lemma_phys_virt_roundtrip(hhdm: Hhdm, phys: u64)
    requires
        phys + hhdm.offset <= u64::MAX,
    ensures
        ((phys + hhdm.offset) as u64) - hhdm.offset == phys,
{
}

} // verus!

verus! {

/// Flags of kernel heap pages: read-write, no-execute.
pub const HEAP_PAGE_FLAGS: u64 = PRESENT | WRITABLE | NO_EXECUTE;

/// The leaf of a heap page mapped to frame `a`.
pub open spec fn heap_leaf(a: u64) -> Option<(u64, u64)> {
    Some(((a | HEAP_PAGE_FLAGS) as u64, 0xfffu64))
}

/// The frame of a leaf.
pub open spec fn leaf_frame(l: Option<(u64, u64)>) -> u64 {
    l->Some_0.0 & ADDR_MASK
}

proof fn lemma_aligned_bounds(x: u64)
    by (bit_vector)
    requires
        x % 4096 == 0,
        x + 0xfff <= u64::MAX,
    ensures
        x & !0xfffu64 == x,
        ((x + 0xfffu64) as u64) & !0xfffu64 == x,
        HEAP_PAGE_FLAGS & 0x000F_FFFF_FFFF_F000u64 == 0,
        HEAP_PAGE_FLAGS & 0x1u64 != 0,
{
}

/// Map the kernel heap `start..start + size` page by page, each page to a
/// frame taken from `pmm`, read-write and no-execute. Addresses outside
/// the heap keep their mappings.
///
/// Errors: `pmm` has no frame for a page ("Out of memory while mapping
/// heap"), or none for a page table on the way ("Failed to map heap page");
/// the pages mapped before stay mapped.
pub fn map_kernel_heap(mapper: &mut PageMapper, pmm: &mut PhysicalMemoryManager, start: u64, size: u64) -> (r: Result<
    (),
    &'static str,
>)
    requires
        old(mapper).wf(),
        old(pmm).wf(),
        old(mapper).reserved_in(old(pmm)),
        start % 4096 == 0,
        size % 4096 == 0,
        size <= 0x1_0000_0000_0000u64,
        start + size + 0x1000 <= u64::MAX,
    ensures
        final(mapper).wf(),
        final(pmm).wf(),
        final(mapper).reserved_in(final(pmm)),
        final(mapper).root() == old(mapper).root(),
        final(pmm).total() == old(pmm).total(),
        forall|f: int| !old(pmm).is_free(f) ==> !#[trigger] final(pmm).is_free(f),
        forall|v: u64| !covers(start, (start + size) as u64, v) ==> #[trigger] final(mapper).leaf(v) == old(mapper).leaf(v),
        r is Ok ==> forall|p: u64|
            page_in(p, start, (start + size) as u64) ==> {
                &&& #[trigger] final(mapper).leaf(p) == heap_leaf(leaf_frame(final(mapper).leaf(p)))
                &&& leaf_frame(final(mapper).leaf(p)) % 4096 == 0
                &&& old(pmm).is_free(leaf_frame(final(mapper).leaf(p)) as int / 4096)
                &&& !final(pmm).is_free(leaf_frame(final(mapper).leaf(p)) as int / 4096)
            },
        r is Ok ==> forall|p: u64, q: u64|
            page_in(p, start, (start + size) as u64) && page_in(q, start, (start + size) as u64) && p != q
                ==> leaf_frame(#[trigger] final(mapper).leaf(p)) != leaf_frame(#[trigger] final(mapper).leaf(q)),
        r matches Err(e) ==> (e@ == "Out of memory while mapping heap"@ && final(pmm).free() == 0) || e@
            == "Failed to map heap page"@,
        final(pmm).free() <= old(pmm).free(),
        old(pmm).free() >= 4 * (size / 4096) ==> r is Ok,
{
    let ghost m0 = *mapper;
    let ghost pmm0 = *pmm;
    let end = start + size;
    let mut p = start;
    proof {
        lemma_aligned_bounds(start);
        assert((start + size) % 4096 == 0) by (nonlinear_arith)
            requires
                start % 4096 == 0,
                size % 4096 == 0,
        ;
    }
    while p < end
        invariant
            m0 == *old(mapper),
            pmm0 == *old(pmm),
            start <= p <= end,
            pmm.free() <= pmm0.free(),
            pmm0.free() >= 4 * (size / 4096) ==> pmm.free() >= 4 * ((end - p) / 4096),
            end == start + size,
            end % 4096 == 0,
            p % 4096 == 0,
            start % 4096 == 0,
            size <= 0x1_0000_0000_0000u64,
            end + 0x1000 <= u64::MAX,
            mapper.wf(),
            pmm.wf(),
            mapper.reserved_in(pmm),
            mapper.root() == m0.root(),
            pmm.total() == pmm0.total(),
            forall|f: int| !pmm0.is_free(f) ==> !#[trigger] pmm.is_free(f),
            forall|v: u64| !covers(start, p, v) ==> #[trigger] mapper.leaf(v) == m0.leaf(v),
            forall|q: u64|
                page_in(q, start, p) ==> {
                    &&& #[trigger] mapper.leaf(q) == heap_leaf(leaf_frame(mapper.leaf(q)))
                    &&& leaf_frame(mapper.leaf(q)) % 4096 == 0
                    &&& pmm0.is_free(leaf_frame(mapper.leaf(q)) as int / 4096)
                    &&& !pmm.is_free(leaf_frame(mapper.leaf(q)) as int / 4096)
                },
            forall|q1: u64, q2: u64|
                page_in(q1, start, p) && page_in(q2, start, p) && q1 != q2 ==> leaf_frame(#[trigger] mapper.leaf(q1))
                    != leaf_frame(#[trigger] mapper.leaf(q2)),
        decreases end - p,
    {
        let ghost mb = *mapper;
        let ghost pb = *pmm;
        let frame = match pmm.alloc_frame() {
            Some(a) => a,
            None => {
                proof {
                    lemma_covers_mono(start, p, end);
                    mapper.lemma_reserved_mono(&pb, pmm);
                }
                return Err("Out of memory while mapping heap");
            },
        };
        let ghost pa = *pmm;
        proof {
            pb.lemma_total_bound();
            lemma_aligned_bounds(p);
            mapper.lemma_reserved_mono(&pb, pmm);
        }
        match mapper.map_page(p, frame, PageTableFlags(HEAP_PAGE_FLAGS), pmm) {
            Ok(_) => {},
            Err(_) => {
                proof {
                    lemma_covers_mono(start, p, end);
                }
                return Err("Failed to map heap page");
            },
        }
        proof {
            assert(p + 4096 <= end) by (nonlinear_arith)
                requires
                    p % 4096 == 0,
                    end % 4096 == 0,
                    p < end,
            ;
            assert((p + 4096) % 4096 == 0) by (nonlinear_arith)
                requires
                    p % 4096 == 0,
            ;
            lemma_aligned_bounds(start);
            lemma_aligned_bounds(p);
            lemma_aligned_bounds((p + 4096) as u64);
            crate::mm::paging::lemma_frame_addr(frame, HEAP_PAGE_FLAGS);
            assert(mapper.leaf(p) == heap_leaf(frame));
            assert(leaf_frame(heap_leaf(frame)) == frame);
            let np = (p + 4096) as u64;
            assert forall|v: u64| !covers(start, np, v) implies #[trigger] mapper.leaf(v) == m0.leaf(v) by {
                if same_page(v, p) {
                    assert(page_in(p, range_first(start), range_limit(np)));
                }
                if covers(start, p, v) {
                    let w = choose|w: u64| page_in(w, range_first(start), range_limit(p)) && #[trigger] same_page(v, w);
                    assert(page_in(w, range_first(start), range_limit(np)));
                }
            }
            assert forall|q: u64| page_in(q, start, p) implies !same_page(q, p) by {
                lemma_distinct_pages_pub(q, p);
            }
            assert forall|q: u64|
                page_in(q, start, np) implies {
                    &&& #[trigger] mapper.leaf(q) == heap_leaf(leaf_frame(mapper.leaf(q)))
                    &&& leaf_frame(mapper.leaf(q)) % 4096 == 0
                    &&& pmm0.is_free(leaf_frame(mapper.leaf(q)) as int / 4096)
                    &&& !pmm.is_free(leaf_frame(mapper.leaf(q)) as int / 4096)
                } by {
                if q != p {
                    assert(page_in(q, start, p));
                    assert(!same_page(q, p));
                    assert(mapper.leaf(q) == mb.leaf(q));
                }
            }
            assert forall|q1: u64, q2: u64|
                page_in(q1, start, np) && page_in(q2, start, np) && q1 != q2 implies leaf_frame(#[trigger] mapper.leaf(q1))
                    != leaf_frame(#[trigger] mapper.leaf(q2)) by {
                if q1 != p {
                    assert(page_in(q1, start, p));
                    assert(!same_page(q1, p));
                    assert(mapper.leaf(q1) == mb.leaf(q1));
                }
                if q2 != p {
                    assert(page_in(q2, start, p));
                    assert(!same_page(q2, p));
                    assert(mapper.leaf(q2) == mb.leaf(q2));
                }
            }
        }
        proof {
            assert(p + 4096 <= end) by (nonlinear_arith)
                requires
                    p % 4096 == 0,
                    end % 4096 == 0,
                    p < end,
            ;
        }
        p = p + 4096;
    }
    Ok(())
}

/// Fewer addresses are covered by a shorter page-aligned range.
proof fn lemma_covers_mono(start: u64, p: u64, end: u64)
    requires
        start % 4096 == 0,
        p % 4096 == 0,
        end % 4096 == 0,
        start <= p <= end,
        end + 0x1000 <= u64::MAX,
    ensures
        forall|v: u64| covers(start, p, v) ==> #[trigger] covers(start, end, v),
{
    lemma_aligned_bounds(start);
    lemma_aligned_bounds(p);
    lemma_aligned_bounds(end);
    assert forall|v: u64| covers(start, p, v) implies #[trigger] covers(start, end, v) by {
        let w = choose|w: u64| page_in(w, range_first(start), range_limit(p)) && #[trigger] same_page(v, w);
        assert(page_in(w, range_first(start), range_limit(end)));
    }
}

} // verus!

verus! {

/// Start of the kernel heap.
pub const KERNEL_HEAP_START: u64 = 0xFFFF_A000_0000_0000;

/// Size of the kernel heap: 16 MiB.
pub const KERNEL_HEAP_SIZE: u64 = 0x100_0000;

/// Room kept for the kernel image after its physical base: 16 MiB.
pub const KERNEL_IMAGE_SIZE: u64 = 0x100_0000;

/// The memory managers the kernel keeps after boot.
pub struct MemoryManagerState {
    /// Physical frames
    pub pmm: PhysicalMemoryManager,
    /// The kernel's page tables
    pub mapper: PageMapper,
}

/// `p` is in none of the pages boot mapping leaves to the heap and its
/// guards.
pub open spec fn outside_heap_and_guards(p: u64, stack_bottom: u64) -> bool {
    &&& !covers(KERNEL_HEAP_START, (KERNEL_HEAP_START + KERNEL_HEAP_SIZE) as u64, p)
    &&& !same_page(p, (stack_bottom - 4096) as u64)
    &&& !same_page(p, (KERNEL_HEAP_START - 4096) as u64)
    &&& !same_page(p, (KERNEL_HEAP_START + KERNEL_HEAP_SIZE) as u64)
}

/// Set up memory management at boot from what the bootloader reports: the
/// direct-map offset, the memory map, the kernel image's physical and
/// virtual base, its sections, and the root table in use (`cr3`, which
/// maps nothing yet). Frames are managed from the memory map, with the
/// kernel image (`KERNEL_IMAGE_SIZE` from its base) kept out; the kernel's
/// sections are mapped with their permissions; the heap
/// (`KERNEL_HEAP_SIZE` at `KERNEL_HEAP_START`) is mapped read-write and
/// no-execute to frames of its own; guard pages below the kernel's virtual
/// base and around the heap are unmapped; and the heap allocator is set up
/// on the heap.
///
/// Errors: frames run out while mapping the kernel's sections ("Failed to
/// map kernel sections") or the heap (see `map_kernel_heap`).
pub fn init_memory(
    hhdm: &mut Hhdm,
    hhdm_offset: u64,
    entries: &[MemoryMapEntry],
    kernel_phys_base: u64,
    kernel_virt_base: u64,
    sections: KernelSections,
    cr3: u64,
    heap: &mut Option<BuddyAllocator>,
) -> (r: Result<MemoryManagerState, &'static str>)
    requires
        forall|i: int|
            0 <= i < entries@.len() && (#[trigger] entries@[i]).entry_type == MEMMAP_USABLE ==> entries@[i].base
                + entries@[i].length + FRAME_SIZE <= u64::MAX,
        kernel_phys_base + KERNEL_IMAGE_SIZE + 2 * FRAME_SIZE + usable_end(entries@) / 32768 <= u64::MAX,
        range_ok(sections.text_start, sections.text_end, kernel_virt_base, kernel_phys_base),
        range_ok(sections.rodata_start, sections.rodata_end, kernel_virt_base, kernel_phys_base),
        range_ok(sections.data_start, sections.data_end, kernel_virt_base, kernel_phys_base),
        kernel_virt_base >= 4096,
        !usable_covers(entries@, entries@.len() as int, (cr3 & ADDR_MASK) as int / 4096),
        KERNEL_HEAP_START + KERNEL_HEAP_SIZE <= usize::MAX,
    ensures
        final(hhdm).offset == hhdm_offset,
        r is Err ==> *final(heap) == *old(heap),
        r matches Err(e) ==> e@ == "Failed to map kernel sections"@ || e@ == "Out of memory while mapping heap"@
            || e@ == "Failed to map heap page"@,
        sections_aligned(sections, kernel_virt_base, kernel_phys_base) && boot_free_frames(
            entries@,
            kernel_phys_base,
            (kernel_phys_base + KERNEL_IMAGE_SIZE) as u64,
        ) >= 3 * sections_pages(sections) + 4 * (KERNEL_HEAP_SIZE / 4096) ==> r is Ok,
        (r matches Err(e) && e@ == "Failed to map kernel sections"@) ==> !sections_aligned(
            sections,
            kernel_virt_base,
            kernel_phys_base,
        ) || boot_free_frames(entries@, kernel_phys_base, (kernel_phys_base + KERNEL_IMAGE_SIZE) as u64) < 3
            * sections_pages(sections) + 3,
        (r matches Err(e) && e@ != "Failed to map kernel sections"@) ==> boot_free_frames(
            entries@,
            kernel_phys_base,
            (kernel_phys_base + KERNEL_IMAGE_SIZE) as u64,
        ) < 3 * sections_pages(sections) + 4 * (KERNEL_HEAP_SIZE / 4096),
        r matches Ok(s) ==> {
            let end = (KERNEL_HEAP_START + KERNEL_HEAP_SIZE) as u64;
            let stack_guard = (kernel_virt_base - 4096) as u64;
            &&& s.pmm.wf()
            &&& s.mapper.wf()
            &&& s.mapper.reserved_in(&s.pmm)
            &&& s.mapper.root() == cr3 & ADDR_MASK
            &&& (*final(heap)) is Some
            &&& (*final(heap)).unwrap().wf()
            &&& (*final(heap)).unwrap()@ == (BuddyView {
                lists: carve(empty_lists(), KERNEL_HEAP_START as nat, KERNEL_HEAP_SIZE as nat),
                heap_start: KERNEL_HEAP_START as usize,
                heap_end: end as usize,
                allocated: 0,
            })
            &&& forall|p: u64|
                page_in(p, KERNEL_HEAP_START, end) && !same_page(p, stack_guard) ==> {
                    &&& #[trigger] s.mapper.leaf(p) == heap_leaf(leaf_frame(s.mapper.leaf(p)))
                    &&& !s.pmm.is_free(leaf_frame(s.mapper.leaf(p)) as int / 4096)
                }
            &&& forall|p: u64, q: u64|
                page_in(p, KERNEL_HEAP_START, end) && page_in(q, KERNEL_HEAP_START, end) && p != q && !same_page(
                    p,
                    stack_guard,
                ) && !same_page(q, stack_guard) ==> leaf_frame(#[trigger] s.mapper.leaf(p)) != leaf_frame(
                    #[trigger] s.mapper.leaf(q),
                )
            &&& kernel_virt_base % 4096 == 0 ==> s.mapper.leaf(stack_guard) is None
            &&& s.mapper.leaf((KERNEL_HEAP_START - 4096) as u64) is None
            &&& s.mapper.leaf(end) is None
            &&& forall|p: u64|
                page_in(p, range_first(sections.data_start), range_limit(sections.data_end))
                    && outside_heap_and_guards(p, kernel_virt_base) ==> #[trigger] s.mapper.leaf(p) == mapped_leaf(
                    section_frame(p, kernel_virt_base, kernel_phys_base),
                    KERNEL_DATA_FLAGS,
                )
            &&& forall|p: u64|
                page_in(p, range_first(sections.rodata_start), range_limit(sections.rodata_end)) && !covers(
                    sections.data_start,
                    sections.data_end,
                    p,
                ) && outside_heap_and_guards(p, kernel_virt_base) ==> #[trigger] s.mapper.leaf(p) == mapped_leaf(
                    section_frame(p, kernel_virt_base, kernel_phys_base),
                    KERNEL_RODATA_FLAGS,
                )
            &&& forall|p: u64|
                page_in(p, range_first(sections.text_start), range_limit(sections.text_end)) && !covers(
                    sections.rodata_start,
                    sections.rodata_end,
                    p,
                ) && !covers(sections.data_start, sections.data_end, p) && outside_heap_and_guards(
                    p,
                    kernel_virt_base,
                ) ==> #[trigger] s.mapper.leaf(p) == mapped_leaf(
                    section_frame(p, kernel_virt_base, kernel_phys_base),
                    KERNEL_TEXT_FLAGS,
                )
            &&& forall|v: u64|
                !covers(sections.text_start, sections.text_end, v) && !covers(
                    sections.rodata_start,
                    sections.rodata_end,
                    v,
                ) && !covers(sections.data_start, sections.data_end, v) && !covers(KERNEL_HEAP_START, end, v)
                    ==> #[trigger] s.mapper.leaf(v) is None
        },
{
    init_hhdm(hhdm, hhdm_offset);
    proof {
        lemma_usable_end_nonneg(entries@);
    }
    let kernel_start = kernel_phys_base;
    let kernel_end = kernel_phys_base + KERNEL_IMAGE_SIZE;
    let mut pmm = PhysicalMemoryManager::init(entries, kernel_start, kernel_end);
    let mut mapper = PageMapper::new(cr3);
    proof {
        mapper.lemma_reserved_fresh(&pmm);
        pmm.lemma_free_count();
        lemma_count_frames_same(
            |f: int| pmm.is_free(f),
            |f: int| boot_frame_free(entries@, kernel_start, kernel_end, f),
            pmm.total() as int,
        );
        assert(pmm.free() == boot_free_frames(entries@, kernel_start, kernel_end));
    }
    let ghost m0 = mapper;
    match mapper.map_kernel_sections(kernel_virt_base, kernel_phys_base, sections, &mut pmm) {
        Ok(()) => {},
        Err(_) => {
            return Err("Failed to map kernel sections");
        },
    }
    let ghost m1 = mapper;
    let heap_start = KERNEL_HEAP_START;
    let heap_size = KERNEL_HEAP_SIZE;
    let heap_end = heap_start + heap_size;
    let ghost p1 = pmm;
    match map_kernel_heap(&mut mapper, &mut pmm, heap_start, heap_size) {
        Ok(()) => {},
        Err(e) => {
            proof {
                reveal_strlit("Failed to map kernel sections");
                reveal_strlit("Out of memory while mapping heap");
                reveal_strlit("Failed to map heap page");
                assert(e@.len() != "Failed to map kernel sections"@.len());
            }
            return Err(e);
        },
    }
    let ghost m2 = mapper;
    let _ = mapper.add_guard_pages(kernel_virt_base, heap_start, heap_end);
    init_allocator(heap, heap_start as usize, heap_size as usize);
    proof {
        let stack_guard = (kernel_virt_base - 4096) as u64;
        let below = (KERNEL_HEAP_START - 4096) as u64;
        assert forall|p: u64|
            page_in(p, KERNEL_HEAP_START, heap_end) && !same_page(p, stack_guard) implies #[trigger] mapper.leaf(p)
            == m2.leaf(p) by {
            lemma_distinct_pages_pub(below, p);
            lemma_distinct_pages_pub(p, heap_end);
        }
        m2.lemma_reserved_same_tables(&mapper, &pmm);
        assert forall|v: u64| outside_heap_and_guards(v, kernel_virt_base) implies #[trigger] mapper.leaf(v)
            == m1.leaf(v) by {
            assert(mapper.leaf(v) == m2.leaf(v));
        }
        assert forall|v: u64|
            !covers(sections.text_start, sections.text_end, v) && !covers(sections.rodata_start, sections.rodata_end, v)
                && !covers(sections.data_start, sections.data_end, v) && !covers(KERNEL_HEAP_START, heap_end, v)
                implies #[trigger] mapper.leaf(v) is None by {
            assert(m2.leaf(v) == m1.leaf(v));
            assert(m1.leaf(v) == m0.leaf(v));
        }
    }
    Ok(MemoryManagerState { pmm, mapper })
}

} // verus!

verus! {

proof fn lemma_usable_end_nonneg(entries: Seq<MemoryMapEntry>)
    ensures
        usable_end(entries) >= 0,
    decreases entries.len(),
{
    if entries.len() > 0 {
        lemma_usable_end_nonneg(entries.drop_last());
    }
}

/// The heap that `init_memory` sets up serves, before anything else is
/// allocated, every request of 1 to `MAX_BLOCK_SIZE` bytes.
pub proof fn lemma_boot_heap_serves(request: usize)
    requires
        servable(request),
    ensures
        take_block(
            carve(empty_lists(), KERNEL_HEAP_START as nat, KERNEL_HEAP_SIZE as nat),
            size_order(request as nat),
        ).1 is Some,
{
    lemma_charge_fits(request);
    lemma_fresh_heap_serves(KERNEL_HEAP_START as nat, KERNEL_HEAP_SIZE as nat, request);
}

} // verus!
