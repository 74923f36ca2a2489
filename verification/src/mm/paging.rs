//! Page table entries, page tables, and the four-level page mapper.
use vstd::prelude::*;

use crate::mm::pmm::{PhysicalMemoryManager, FRAME_SIZE, MAX_PHYS_FRAMES};
use crate::mm::refcount::{count_of, PageRefcount};
use crate::mm::{PhysAddr, VirtAddr};
use vstd::set_lib::{lemma_int_range, lemma_len_subset, set_int_range};

verus! {

/// Mask of the physical address bits (12..=51) of an entry.
pub const ADDR_MASK: u64 = 0x000F_FFFF_FFFF_F000;

/// Page table entry flags.
#[derive(Debug, Clone, Copy, PartialEq, Eq, Structural)]
pub struct PageTableFlags(pub u64);

/// Page is present in memory
pub const PRESENT: u64 = 0x1;
/// Page is writable
pub const WRITABLE: u64 = 0x2;
/// Page is accessible from user mode
pub const USER: u64 = 0x4;
/// Write-through caching
pub const WRITE_THROUGH: u64 = 0x8;
/// Caching disabled
pub const NO_CACHE: u64 = 0x10;
/// Page has been accessed
pub const ACCESSED: u64 = 0x20;
/// Page has been written to
pub const DIRTY: u64 = 0x40;
/// Huge page (2 MiB or 1 GiB)
pub const HUGE: u64 = 0x80;
/// Global page (kept in the TLB across address-space switches)
pub const GLOBAL: u64 = 0x100;
/// Copy-on-write page (an available bit)
pub const COW: u64 = 0x200;
/// Page is not executable
pub const NO_EXECUTE: u64 = 0x8000_0000_0000_0000;

impl PageTableFlags {
    /// The raw bits.
    pub fn bits(&self) -> (r: u64)
        ensures
            r == self.0,
    {
        self.0
    }
}

} // verus!

verus! {

/// Whether the bit selected by `mask` is set in `raw`.
pub open spec fn has_bits(raw: u64, mask: u64) -> bool {
    raw & mask != 0
}

/// One entry of a page table: a physical address (bits 12..=51) and flag bits.
#[derive(Clone, Copy, Debug, PartialEq, Eq, Structural)]
pub struct PageTableEntry(pub u64);

impl PageTableEntry {
    /// The physical address an entry holds.
    pub open spec fn spec_addr(self) -> PhysAddr {
        self.0 & ADDR_MASK
    }

    /// Whether the entry is present.
    pub open spec fn spec_present(self) -> bool {
        has_bits(self.0, PRESENT)
    }

    /// Create a new empty entry.
    pub fn new() -> (r: Self)
        ensures
            r.0 == 0,
    {
        PageTableEntry(0)
    }

    /// Extract the physical address (bits 12..=51) from the entry.
    pub fn addr(&self) -> (r: PhysAddr)
        ensures
            r == self.spec_addr(),
    {
        self.0 & ADDR_MASK
    }

    /// Set the physical address and the flags; the address is masked to bits 12..=51.
    pub fn set(&mut self, addr: PhysAddr, flags: PageTableFlags)
        ensures
            final(self).0 == (addr & ADDR_MASK) | flags.0,
    {
        let addr_masked = addr & ADDR_MASK;
        self.0 = addr_masked | flags.bits();
    }

    /// Check whether the entry is present.
    pub fn is_present(&self) -> (r: bool)
        ensures
            r == self.spec_present(),
    {
        (self.0 & PRESENT) != 0
    }

    /// Clear the entry.
    pub fn clear(&mut self)
        ensures
            final(self).0 == 0,
    {
        self.0 = 0;
    }

    /// The raw entry value.
    pub fn raw(&self) -> (r: u64)
        ensures
            r == self.0,
    {
        self.0
    }

    /// Mark the entry copy-on-write: set COW and clear WRITABLE.
    pub fn set_cow(&mut self)
        ensures
            final(self).0 == (old(self).0 | COW) & !WRITABLE,
            has_bits(final(self).0, COW),
            !has_bits(final(self).0, WRITABLE),
            final(self).spec_present() == old(self).spec_present(),
            final(self).spec_addr() == old(self).spec_addr(),
    {
        let old_raw = self.0;
        self.0 = self.0 | COW;
        self.0 = self.0 & !WRITABLE;
        proof {
            let v = old_raw;
            assert(((v | 0x200u64) & !0x2u64) & 0x200u64 != 0) by (bit_vector);
            assert(((v | 0x200u64) & !0x2u64) & 0x2u64 == 0) by (bit_vector);
            assert((((v | 0x200u64) & !0x2u64) & 0x1u64 != 0) == (v & 0x1u64 != 0))
                by (bit_vector);
            assert(((v | 0x200u64) & !0x2u64) & 0x000F_FFFF_FFFF_F000u64
                == v & 0x000F_FFFF_FFFF_F000u64) by (bit_vector);
        }
    }

    /// Clear the COW mark.
    pub fn clear_cow(&mut self)
        ensures
            final(self).0 == old(self).0 & !COW,
            !has_bits(final(self).0, COW),
            has_bits(final(self).0, WRITABLE) == has_bits(old(self).0, WRITABLE),
    {
        let v = self.0;
        self.0 = self.0 & !COW;
        proof {
            assert((v & !0x200u64) & 0x200u64 == 0) by (bit_vector);
            assert(((v & !0x200u64) & 0x2u64 != 0) == (v & 0x2u64 != 0)) by (bit_vector);
        }
    }

    /// Check whether the entry is marked copy-on-write.
    pub fn is_cow(&self) -> (r: bool)
        ensures
            r == has_bits(self.0, COW),
    {
        (self.0 & COW) != 0
    }

    /// Check whether the entry is writable.
    pub fn is_writable(&self) -> (r: bool)
        ensures
            r == has_bits(self.0, WRITABLE),
    {
        (self.0 & WRITABLE) != 0
    }

    /// Set or clear the WRITABLE flag.
    pub fn set_writable(&mut self, writable: bool)
        ensures
            final(self).0 == (if writable { old(self).0 | WRITABLE } else { old(self).0 & !WRITABLE }),
            has_bits(final(self).0, WRITABLE) == writable,
            has_bits(final(self).0, COW) == has_bits(old(self).0, COW),
    {
        let v = self.0;
        if writable {
            self.0 = self.0 | WRITABLE;
            proof {
                assert((v | 0x2u64) & 0x2u64 != 0) by (bit_vector);
                assert(((v | 0x2u64) & 0x200u64 != 0) == (v & 0x200u64 != 0)) by (bit_vector);
            }
        } else {
            self.0 = self.0 & !WRITABLE;
            proof {
                assert((v & !0x2u64) & 0x2u64 == 0) by (bit_vector);
                assert(((v & !0x2u64) & 0x200u64 != 0) == (v & 0x200u64 != 0)) by (bit_vector);
            }
        }
    }
}

/// Number of entries in one page table.
pub const ENTRIES_PER_TABLE: usize = 512;

/// A page table of 512 entries.
pub struct PageTable {
    /// The entries
    pub entries: Vec<PageTableEntry>,
}

impl PageTable {
    /// A page table holds exactly 512 entries.
    pub open spec fn wf(&self) -> bool {
        self.entries@.len() == ENTRIES_PER_TABLE
    }

    /// Create a new page table with all entries zero.
    pub fn new() -> (r: Self)
        ensures
            r.wf(),
            forall|i: int| 0 <= i < ENTRIES_PER_TABLE ==> (#[trigger] r.entries@[i]).0 == 0,
    {
        let mut entries: Vec<PageTableEntry> = Vec::new();
        let mut i: usize = 0;
        while i < ENTRIES_PER_TABLE
            invariant
                i <= ENTRIES_PER_TABLE,
                entries@.len() == i,
                forall|j: int| 0 <= j < i ==> (#[trigger] entries@[j]).0 == 0,
            decreases ENTRIES_PER_TABLE - i,
        {
            entries.push(PageTableEntry(0));
            i = i + 1;
        }
        PageTable { entries }
    }

    /// A reference to the entry at `index`.
    pub fn get_entry(&self, index: usize) -> (r: &PageTableEntry)
        requires
            self.wf(),
            index < ENTRIES_PER_TABLE,
        ensures
            *r == self.entries@[index as int],
    {
        &self.entries[index]
    }

    /// A mutable reference to the entry at `index`; what is written
    /// through it becomes that entry.
    pub fn get_entry_mut(&mut self, index: usize) -> (r: &mut PageTableEntry)
        requires
            old(self).wf(),
            index < ENTRIES_PER_TABLE,
        ensures
            *r == old(self).entries@[index as int],
            final(self).entries@ == old(self).entries@.update(index as int, *final(r)),
    {
        &mut self.entries[index]
    }

    /// Replace the entry at `index`.
    pub fn set_entry(&mut self, index: usize, entry: PageTableEntry)
        requires
            old(self).wf(),
            index < ENTRIES_PER_TABLE,
        ensures
            final(self).entries@ == old(self).entries@.update(index as int, entry),
            final(self).wf(),
    {
        self.entries.set(index, entry);
    }

    /// Zero all entries.
    pub fn zero(&mut self)
        requires
            old(self).wf(),
        ensures
            final(self).wf(),
            forall|i: int| 0 <= i < ENTRIES_PER_TABLE ==> (#[trigger] final(self).entries@[i]).0 == 0,
    {
        let mut i: usize = 0;
        while i < ENTRIES_PER_TABLE
            invariant
                i <= ENTRIES_PER_TABLE,
                self.entries@.len() == ENTRIES_PER_TABLE,
                forall|j: int| 0 <= j < i ==> (#[trigger] self.entries@[j]).0 == 0,
            decreases ENTRIES_PER_TABLE - i,
        {
            self.entries.set(i, PageTableEntry(0));
            i = i + 1;
        }
    }
}

/// A page table shared between address spaces, with a reference count.
pub struct PageTableRef {
    /// Physical address of the page table
    phys_addr: PhysAddr,
    /// Number of address spaces that use it
    refcount: usize,
}

impl PageTableRef {
    /// Physical address of the table.
    pub closed spec fn spec_phys_addr(&self) -> PhysAddr {
        self.phys_addr
    }

    /// Current reference count.
    pub closed spec fn spec_refcount(&self) -> usize {
        self.refcount
    }

    /// Create a new reference with count 1.
    pub fn new(phys_addr: PhysAddr) -> (r: Self)
        ensures
            r.spec_phys_addr() == phys_addr,
            r.spec_refcount() == 1,
    {
        PageTableRef { phys_addr, refcount: 1 }
    }

    /// Physical address of the page table.
    pub fn phys_addr(&self) -> (r: PhysAddr)
        ensures
            r == self.spec_phys_addr(),
    {
        self.phys_addr
    }

    /// Increment the reference count; returns the new count.
    pub fn inc_ref(&mut self) -> (r: usize)
        requires
            old(self).spec_refcount() < usize::MAX,
        ensures
            r == old(self).spec_refcount() + 1,
            final(self).spec_refcount() == r,
            final(self).spec_phys_addr() == old(self).spec_phys_addr(),
    {
        self.refcount = self.refcount + 1;
        self.refcount
    }

    /// Decrement the reference count; returns the new count (0: the table may be freed).
    pub fn dec_ref(&mut self) -> (r: usize)
        requires
            old(self).spec_refcount() > 0,
        ensures
            r == old(self).spec_refcount() - 1,
            final(self).spec_refcount() == r,
            final(self).spec_phys_addr() == old(self).spec_phys_addr(),
    {
        self.refcount = self.refcount - 1;
        self.refcount
    }

    /// The current reference count.
    pub fn refcount(&self) -> (r: usize)
        ensures
            r == self.spec_refcount(),
    {
        self.refcount
    }
}

} // verus!

verus! {

/// Index of `va` in the level-4 table (bits 39..=47).
pub open spec fn pml4_index(va: u64) -> int {
    ((va >> 39u64) & 0x1ffu64) as int
}

/// Index of `va` in the level-3 table (bits 30..=38).
pub open spec fn pdpt_index(va: u64) -> int {
    ((va >> 30u64) & 0x1ffu64) as int
}

/// Index of `va` in the level-2 table (bits 21..=29).
pub open spec fn pd_index(va: u64) -> int {
    ((va >> 21u64) & 0x1ffu64) as int
}

/// Index of `va` in the level-1 table (bits 12..=20).
pub open spec fn pt_index(va: u64) -> int {
    ((va >> 12u64) & 0x1ffu64) as int
}

proof fn lemma_indices(va: u64)
    by (bit_vector)
    ensures
        (va >> 39u64) & 0x1ffu64 < 512,
        (va >> 30u64) & 0x1ffu64 < 512,
        (va >> 21u64) & 0x1ffu64 < 512,
        (va >> 12u64) & 0x1ffu64 < 512,
        va & 0xfffu64 < 4096,
        va & 0x1f_ffffu64 < 0x20_0000,
        va & 0x3fff_ffffu64 < 0x4000_0000,
{
}

/// A frame-aligned address below 2^52 survives the address mask, and an
/// entry built from it with low flag bits has it as its address.
pub proof fn lemma_frame_addr(a: u64, flags: u64)
    by (bit_vector)
    requires
        a % 4096 == 0,
        a < 0x10_0000_0000_0000u64,
        flags & 0x000F_FFFF_FFFF_F000u64 == 0,
    ensures
        a & 0x000F_FFFF_FFFF_F000u64 == a,
        ((a & 0x000F_FFFF_FFFF_F000u64) | flags) & 0x000F_FFFF_FFFF_F000u64 == a,
        (((a & 0x000F_FFFF_FFFF_F000u64) | flags) & 0x1u64 != 0) == (flags & 0x1u64 != 0),
        (((a & 0x000F_FFFF_FFFF_F000u64) | flags) & 0x80u64 != 0) == (flags & 0x80u64 != 0),
{
}

/// Entries of the table stored at `addr` (the last one stored there).
pub open spec fn lookup(store: Seq<(u64, Seq<PageTableEntry>)>, addr: u64) -> Option<Seq<PageTableEntry>>
    decreases store.len(),
{
    if store.len() == 0 {
        None
    } else if store.last().0 == addr {
        Some(store.last().1)
    } else {
        lookup(store.drop_last(), addr)
    }
}

/// No two tables of a store share an address.
pub open spec fn unique_addrs(store: Seq<(u64, Seq<PageTableEntry>)>) -> bool {
    forall|i: int, j: int| 0 <= i < store.len() && 0 <= j < store.len() && i != j ==> store[i].0 != store[j].0
}

/// Whether some table of the store is at `addr`.
pub open spec fn stored(store: Seq<(u64, Seq<PageTableEntry>)>, addr: u64) -> bool {
    exists|i: int| 0 <= i < store.len() && store[i].0 == addr
}

/// The stored table at index `k` is what a lookup of its address finds.
proof fn lemma_lookup_index(store: Seq<(u64, Seq<PageTableEntry>)>, k: int)
    requires
        unique_addrs(store),
        0 <= k < store.len(),
    ensures
        lookup(store, store[k].0) == Some(store[k].1),
    decreases store.len(),
{
    if k != store.len() - 1 {
        assert(store.drop_last()[k] == store[k]);
        lemma_lookup_index(store.drop_last(), k);
    }
}

/// A lookup finds something exactly when some table is stored there.
proof fn lemma_lookup_stored(store: Seq<(u64, Seq<PageTableEntry>)>, addr: u64)
    ensures
        lookup(store, addr) is Some <==> stored(store, addr),
    decreases store.len(),
{
    if store.len() > 0 {
        lemma_lookup_stored(store.drop_last(), addr);
        if stored(store, addr) && store.last().0 != addr {
            let i = choose|i: int| 0 <= i < store.len() && store[i].0 == addr;
            assert(store.drop_last()[i] == store[i]);
        }
        if stored(store.drop_last(), addr) {
            let i = choose|i: int| 0 <= i < store.len() - 1 && store.drop_last()[i].0 == addr;
            assert(store[i].0 == addr);
        }
    }
}

/// Appending a table makes a lookup of its address find it and leaves other lookups.
proof fn lemma_lookup_push(store: Seq<(u64, Seq<PageTableEntry>)>, a: u64, t: Seq<PageTableEntry>, b: u64)
    ensures
        lookup(store.push((a, t)), b) == (if b == a { Some(t) } else { lookup(store, b) }),
{
    assert(store.push((a, t)).drop_last() =~= store);
}

/// Replacing the entries of table `k` changes only the lookup of its address.
proof fn lemma_lookup_update(store: Seq<(u64, Seq<PageTableEntry>)>, k: int, t: Seq<PageTableEntry>, b: u64)
    requires
        unique_addrs(store),
        0 <= k < store.len(),
    ensures
        lookup(store.update(k, (store[k].0, t)), b) == (if b == store[k].0 {
            Some(t)
        } else {
            lookup(store, b)
        }),
    decreases store.len(),
{
    let s2 = store.update(k, (store[k].0, t));
    if k == store.len() - 1 {
        assert(s2.drop_last() =~= store.drop_last());
        if b != store[k].0 {
        }
    } else {
        assert(s2.drop_last() =~= store.drop_last().update(k, (store[k].0, t)));
        lemma_lookup_update(store.drop_last(), k, t, b);
    }
}

/// Entries of every table of a store.
pub open spec fn store_view(store: Seq<(u64, PageTable)>) -> Seq<(u64, Seq<PageTableEntry>)> {
    Seq::new(store.len(), |i: int| (store[i].0, store[i].1.entries@))
}

/// Every table of the store has 512 entries.
pub open spec fn store_wf(store: Seq<(u64, PageTable)>) -> bool {
    forall|i: int| 0 <= i < store.len() ==> (#[trigger] store[i]).1.wf()
}

/// Every present entry of the tables is a table pointer (not a huge page)
/// to a table of `next`.
pub open spec fn links_to(tables: Seq<(u64, Seq<PageTableEntry>)>, next: Seq<(u64, Seq<PageTableEntry>)>) -> bool {
    forall|k: int, i: int|
        0 <= k < tables.len() && 0 <= i < ENTRIES_PER_TABLE && (#[trigger] tables[k].1[i]).spec_present()
            ==> !has_bits(tables[k].1[i].0, HUGE) && stored(next, tables[k].1[i].spec_addr())
}

/// No two present entries of the tables point to the same address, so
/// every table below the root is reached from exactly one entry.
pub open spec fn distinct_targets(t: Seq<(u64, Seq<PageTableEntry>)>) -> bool {
    forall|k1: int, i1: int, k2: int, i2: int|
        0 <= k1 < t.len() && 0 <= i1 < ENTRIES_PER_TABLE && 0 <= k2 < t.len() && 0 <= i2 < ENTRIES_PER_TABLE && (k1
            != k2 || i1 != i2) && (#[trigger] t[k1].1[i1]).spec_present() && (#[trigger] t[k2].1[i2]).spec_present()
            ==> t[k1].1[i1].spec_addr() != t[k2].1[i2].spec_addr()
}

/// An address no table of `next` has is the target of no present entry.
proof fn lemma_unreferenced(t: Seq<(u64, Seq<PageTableEntry>)>, next: Seq<(u64, Seq<PageTableEntry>)>, a: u64)
    requires
        links_to(t, next),
        !stored(next, a),
    ensures
        forall|k: int, i: int|
            0 <= k < t.len() && 0 <= i < ENTRIES_PER_TABLE && (#[trigger] t[k].1[i]).spec_present()
                ==> t[k].1[i].spec_addr() != a,
{
}

/// Adding an empty table keeps targets distinct.
proof fn lemma_distinct_push(t: Seq<(u64, Seq<PageTableEntry>)>, a: u64, z: Seq<PageTableEntry>)
    requires
        distinct_targets(t),
        zero_table(z),
    ensures
        distinct_targets(t.push((a, z))),
{
    lemma_zero_table(z);
    let u = t.push((a, z));
    assert forall|k1: int, i1: int, k2: int, i2: int|
        0 <= k1 < u.len() && 0 <= i1 < ENTRIES_PER_TABLE && 0 <= k2 < u.len() && 0 <= i2 < ENTRIES_PER_TABLE && (k1
            != k2 || i1 != i2) && (#[trigger] u[k1].1[i1]).spec_present() && (#[trigger] u[k2].1[i2]).spec_present()
            implies u[k1].1[i1].spec_addr() != u[k2].1[i2].spec_addr() by {
        if k1 == t.len() {
            assert(!z[i1].spec_present());
        }
        if k2 == t.len() {
            assert(!z[i2].spec_present());
        }
        assert(u[k1] == t[k1] && u[k2] == t[k2]);
    }
}

/// Writing an entry that points where no other present entry does keeps
/// targets distinct.
proof fn lemma_distinct_update(t: Seq<(u64, Seq<PageTableEntry>)>, k: int, i: int, e: PageTableEntry)
    requires
        distinct_targets(t),
        0 <= k < t.len(),
        0 <= i < ENTRIES_PER_TABLE,
        forall|kk: int| 0 <= kk < t.len() ==> (#[trigger] t[kk]).1.len() == ENTRIES_PER_TABLE,
        e.spec_present() ==> forall|k2: int, i2: int|
            0 <= k2 < t.len() && 0 <= i2 < ENTRIES_PER_TABLE && (k2 != k || i2 != i) && (#[trigger] t[k2].1[i2]).spec_present()
                ==> t[k2].1[i2].spec_addr() != e.spec_addr(),
    ensures
        distinct_targets(t.update(k, (t[k].0, t[k].1.update(i, e)))),
{
    let u = t.update(k, (t[k].0, t[k].1.update(i, e)));
    assert forall|k1: int, i1: int, k2: int, i2: int|
        0 <= k1 < u.len() && 0 <= i1 < ENTRIES_PER_TABLE && 0 <= k2 < u.len() && 0 <= i2 < ENTRIES_PER_TABLE && (k1
            != k2 || i1 != i2) && (#[trigger] u[k1].1[i1]).spec_present() && (#[trigger] u[k2].1[i2]).spec_present()
            implies u[k1].1[i1].spec_addr() != u[k2].1[i2].spec_addr() by {
        let a1 = if k1 == k && i1 == i { e } else { t[k1].1[i1] };
        let a2 = if k2 == k && i2 == i { e } else { t[k2].1[i2] };
        assert(u[k1].1[i1] == a1);
        assert(u[k2].1[i2] == a2);
    }
}

/// A zero entry is not present.
proof fn lemma_zero_not_present()
    by (bit_vector)
    ensures
        0u64 & 0x1u64 == 0,
{
}

/// A zeroed table has no present entry.
proof fn lemma_zero_table(t: Seq<PageTableEntry>)
    requires
        zero_table(t),
    ensures
        forall|i: int| 0 <= i < ENTRIES_PER_TABLE ==> !(#[trigger] t[i]).spec_present(),
{
    lemma_zero_not_present();
}

/// Links into a store stay valid when the store only gains tables.
proof fn lemma_links_grow(
    t: Seq<(u64, Seq<PageTableEntry>)>,
    n: Seq<(u64, Seq<PageTableEntry>)>,
    n2: Seq<(u64, Seq<PageTableEntry>)>,
)
    requires
        links_to(t, n),
        forall|x: u64| stored(n, x) ==> #[trigger] stored(n2, x),
    ensures
        links_to(t, n2),
{
    assert forall|k: int, i: int|
        0 <= k < t.len() && 0 <= i < ENTRIES_PER_TABLE && (#[trigger] t[k].1[i]).spec_present()
            implies !has_bits(t[k].1[i].0, HUGE) && stored(n2, t[k].1[i].spec_addr()) by {
        assert(stored(n, t[k].1[i].spec_addr()));
    }
}

/// Address usable for a page table: frame-aligned and below 2^52.
pub open spec fn table_addr_ok(a: u64) -> bool {
    a % 4096 == 0 && a < 0x10_0000_0000_0000u64
}

/// Four-level page tables: the root (PML4) and the stores of PDPT, PD and
/// PT tables, each table identified by its physical address.
pub struct PageMapper {
    pml4_phys: PhysAddr,
    pml4: PageTable,
    pdpts: Vec<(u64, PageTable)>,
    pds: Vec<(u64, PageTable)>,
    pts: Vec<(u64, PageTable)>,
}

impl PageMapper {
    /// The root and the stored tables at each level.
    pub closed spec fn levels(&self) -> Seq<(u64, Seq<PageTableEntry>)> {
        seq![(self.pml4_phys, self.pml4.entries@)]
    }

    /// Whether `a` is the address of the root or of a stored table.
    pub closed spec fn holds_table(&self, a: u64) -> bool {
        a == self.pml4_phys || stored(store_view(self.pdpts@), a) || stored(store_view(self.pds@), a)
            || stored(store_view(self.pts@), a)
    }

    /// Tables have 512 entries and usable, distinct addresses, and every
    /// present entry above the last level points to a table of the next level.
    pub closed spec fn wf(&self) -> bool {
        let p3 = store_view(self.pdpts@);
        let p2 = store_view(self.pds@);
        let p1 = store_view(self.pts@);
        &&& self.pml4.wf()
        &&& store_wf(self.pdpts@)
        &&& store_wf(self.pds@)
        &&& store_wf(self.pts@)
        &&& unique_addrs(p3) && unique_addrs(p2) && unique_addrs(p1)
        &&& table_addr_ok(self.pml4_phys)
        &&& forall|i: int| 0 <= i < p3.len() ==> table_addr_ok(#[trigger] p3[i].0) && p3[i].0 != self.pml4_phys
            && !stored(p2, p3[i].0) && !stored(p1, p3[i].0)
        &&& forall|i: int| 0 <= i < p2.len() ==> table_addr_ok(#[trigger] p2[i].0) && p2[i].0 != self.pml4_phys
            && !stored(p1, p2[i].0)
        &&& forall|i: int| 0 <= i < p1.len() ==> table_addr_ok(#[trigger] p1[i].0) && p1[i].0 != self.pml4_phys
        &&& links_to(self.levels(), p3)
        &&& links_to(p3, p2)
        &&& links_to(p2, p1)
        &&& distinct_targets(self.levels())
        &&& distinct_targets(p3)
        &&& distinct_targets(p2)
    }

    /// Every table's frame is in use in `pmm`.
    pub closed spec fn reserved_in(&self, pmm: &PhysicalMemoryManager) -> bool {
        forall|a: u64| #[trigger] self.holds_table(a) ==> !pmm.is_free(a as int / 4096)
    }

    /// Physical address of the root table.
    pub closed spec fn root(&self) -> PhysAddr {
        self.pml4_phys
    }

    /// The last-level entry that maps `va` and the mask of its page offset
    /// (1 GiB and 2 MiB pages end the walk early), if `va` is mapped.
    pub closed spec fn leaf(&self, va: u64) -> Option<(u64, u64)> {
        let e4 = self.pml4.entries@[pml4_index(va)];
        if !e4.spec_present() {
            None
        } else {
            match lookup(store_view(self.pdpts@), e4.spec_addr()) {
                None => None,
                Some(t3) => {
                    let e3 = t3[pdpt_index(va)];
                    if !e3.spec_present() {
                        None
                    } else if has_bits(e3.0, HUGE) {
                        Some((e3.0, 0x3fff_ffffu64))
                    } else {
                        match lookup(store_view(self.pds@), e3.spec_addr()) {
                            None => None,
                            Some(t2) => {
                                let e2 = t2[pd_index(va)];
                                if !e2.spec_present() {
                                    None
                                } else if has_bits(e2.0, HUGE) {
                                    Some((e2.0, 0x1f_ffffu64))
                                } else {
                                    match lookup(store_view(self.pts@), e2.spec_addr()) {
                                        None => None,
                                        Some(t1) => {
                                            let e1 = t1[pt_index(va)];
                                            if !e1.spec_present() {
                                                None
                                            } else {
                                                Some((e1.0, 0xfffu64))
                                            }
                                        },
                                    }
                                }
                            },
                        }
                    }
                },
            }
        }
    }

    /// The physical address `va` translates to, if mapped.
    pub open spec fn spec_translate(&self, va: u64) -> Option<PhysAddr> {
        match self.leaf(va) {
            Some((raw, mask)) => Some(((raw & ADDR_MASK) + (va & mask)) as u64),
            None => None,
        }
    }

    /// The flag bits of the entry mapping `va` (the low twelve bits and
    /// `NO_EXECUTE`), if mapped.
    pub open spec fn spec_page_flags(&self, va: u64) -> Option<u64> {
        match self.leaf(va) {
            Some((raw, mask)) => Some(raw & (0xfffu64 | NO_EXECUTE)),
            None => None,
        }
    }
}

/// Index of the table stored at `addr`, if any.
fn find_table(store: &Vec<(u64, PageTable)>, addr: u64) -> (r: Option<usize>)
    requires
        unique_addrs(store_view(store@)),
    ensures
        r is None <==> lookup(store_view(store@), addr) is None,
        r matches Some(k) ==> k < store@.len() && store@[k as int].0 == addr && lookup(
            store_view(store@),
            addr,
        ) == Some(store@[k as int].1.entries@),
{
    let mut k: usize = 0;
    while k < store.len()
        invariant
            k <= store@.len(),
            unique_addrs(store_view(store@)),
            forall|j: int| 0 <= j < k ==> (#[trigger] store@[j]).0 != addr,
        decreases store@.len() - k,
    {
        if store[k].0 == addr {
            proof {
                lemma_lookup_index(store_view(store@), k as int);
            }
            return Some(k);
        }
        k = k + 1;
    }
    proof {
        lemma_lookup_stored(store_view(store@), addr);
        if stored(store_view(store@), addr) {
            let i = choose|i: int| 0 <= i < store@.len() && store_view(store@)[i].0 == addr;
            assert(store@[i].0 == addr);
        }
    }
    None
}

} // verus!

verus! {

impl PageMapper {
    /// The entry that maps `va` and the mask of its page offset, if mapped.
    fn walk(&self, va: VirtAddr) -> (r: Option<(u64, u64)>)
        requires
            self.wf(),
        ensures
            r == self.leaf(va),
    {
        proof {
            lemma_indices(va);
        }
        let i4 = ((va >> 39) & 0x1ff) as usize;
        let i3 = ((va >> 30) & 0x1ff) as usize;
        let i2 = ((va >> 21) & 0x1ff) as usize;
        let i1 = ((va >> 12) & 0x1ff) as usize;
        let e4 = self.pml4.get_entry(i4);
        if !e4.is_present() {
            return None;
        }
        let k3 = match find_table(&self.pdpts, e4.addr()) {
            Some(k) => k,
            None => {
                return None;
            },
        };
        assert(self.pdpts@[k3 as int].1.wf());
        let e3 = self.pdpts[k3].1.get_entry(i3);
        if !e3.is_present() {
            return None;
        }
        if (e3.raw() & HUGE) != 0 {
            return Some((e3.raw(), 0x3fff_ffff));
        }
        let k2 = match find_table(&self.pds, e3.addr()) {
            Some(k) => k,
            None => {
                return None;
            },
        };
        assert(self.pds@[k2 as int].1.wf());
        let e2 = self.pds[k2].1.get_entry(i2);
        if !e2.is_present() {
            return None;
        }
        if (e2.raw() & HUGE) != 0 {
            return Some((e2.raw(), 0x1f_ffff));
        }
        let k1 = match find_table(&self.pts, e2.addr()) {
            Some(k) => k,
            None => {
                return None;
            },
        };
        assert(self.pts@[k1 as int].1.wf());
        let e1 = self.pts[k1].1.get_entry(i1);
        if !e1.is_present() {
            return None;
        }
        Some((e1.raw(), 0xfff))
    }

    /// Translate a virtual address by walking the four levels; a 1 GiB or
    /// 2 MiB page ends the walk early. None when not mapped.
    pub fn translate(&self, virt_addr: VirtAddr) -> (r: Option<PhysAddr>)
        requires
            self.wf(),
        ensures
            r == self.spec_translate(virt_addr),
    {
        match self.walk(virt_addr) {
            Some((raw, mask)) => {
                proof {
                    lemma_indices(virt_addr);
                    assert(raw & ADDR_MASK <= ADDR_MASK) by (bit_vector);
                }
                Some((raw & ADDR_MASK) + (virt_addr & mask))
            },
            None => None,
        }
    }

    /// The flag bits (the low twelve bits and `NO_EXECUTE`) of the entry
    /// that maps `virt_addr`; None when not mapped.
    pub fn get_page_flags(&self, virt_addr: VirtAddr) -> (r: Option<PageTableFlags>)
        requires
            self.wf(),
        ensures
            match self.spec_page_flags(virt_addr) {
                Some(f) => r == Some(PageTableFlags(f)),
                None => r is None,
            },
    {
        match self.walk(virt_addr) {
            Some((raw, _mask)) => Some(PageTableFlags(raw & (0xfff | NO_EXECUTE))),
            None => None,
        }
    }
}

} // verus!

verus! {

impl PageMapper {
    /// The level-3 table on the walk to `va`, if there is one.
    pub closed spec fn pdpt_of(&self, va: u64) -> Option<Seq<PageTableEntry>> {
        let e4 = self.pml4.entries@[pml4_index(va)];
        if e4.spec_present() && !has_bits(e4.0, HUGE) {
            lookup(store_view(self.pdpts@), e4.spec_addr())
        } else {
            None
        }
    }

    /// The level-2 table on the walk to `va`, if there is one.
    pub closed spec fn pd_of(&self, va: u64) -> Option<Seq<PageTableEntry>> {
        match self.pdpt_of(va) {
            Some(t3) => {
                let e3 = t3[pdpt_index(va)];
                if e3.spec_present() && !has_bits(e3.0, HUGE) {
                    lookup(store_view(self.pds@), e3.spec_addr())
                } else {
                    None
                }
            },
            None => None,
        }
    }

    /// The level-1 table on the walk to `va`, if there is one.
    pub closed spec fn pt_of(&self, va: u64) -> Option<Seq<PageTableEntry>> {
        match self.pd_of(va) {
            Some(t2) => {
                let e2 = t2[pd_index(va)];
                if e2.spec_present() && !has_bits(e2.0, HUGE) {
                    lookup(store_view(self.pts@), e2.spec_addr())
                } else {
                    None
                }
            },
            None => None,
        }
    }

    /// How many tables a mapping of `va` would have to create.
    pub open spec fn missing_tables(&self, va: u64) -> nat {
        if self.pdpt_of(va) is None {
            3
        } else if self.pd_of(va) is None {
            2
        } else if self.pt_of(va) is None {
            1
        } else {
            0
        }
    }

    /// In a well-formed mapper the walk reaches a last-level table exactly
    /// when no table is missing, and the leaf is then its entry for `va`.
    pub proof fn lemma_leaf_via_pt(&self, va: u64)
        requires
            self.wf(),
        ensures
            self.pt_of(va) is Some ==> self.leaf(va) == (if self.pt_of(va)->Some_0[pt_index(
                va,
            )].spec_present() {
                Some((self.pt_of(va)->Some_0[pt_index(va)].0, 0xfffu64))
            } else {
                None
            }),
            self.pt_of(va) is None ==> self.leaf(va) is None,
    {
        lemma_indices(va);
        let p3 = store_view(self.pdpts@);
        let p2 = store_view(self.pds@);
        let p1 = store_view(self.pts@);
        let e4 = self.pml4.entries@[pml4_index(va)];
        assert(self.levels()[0].1[pml4_index(va)] == e4);
        if e4.spec_present() {
            lemma_lookup_stored(p3, e4.spec_addr());
            let t3 = lookup(p3, e4.spec_addr())->Some_0;
            let k3 = choose|k: int| 0 <= k < p3.len() && p3[k].0 == e4.spec_addr();
            lemma_lookup_index(p3, k3);
            let e3 = t3[pdpt_index(va)];
            assert(p3[k3].1[pdpt_index(va)] == e3);
            if e3.spec_present() {
                lemma_lookup_stored(p2, e3.spec_addr());
                let t2 = lookup(p2, e3.spec_addr())->Some_0;
                let k2 = choose|k: int| 0 <= k < p2.len() && p2[k].0 == e3.spec_addr();
                lemma_lookup_index(p2, k2);
                let e2 = t2[pd_index(va)];
                assert(p2[k2].1[pd_index(va)] == e2);
                if e2.spec_present() {
                    lemma_lookup_stored(p1, e2.spec_addr());
                }
            }
        }
    }
}

} // verus!

verus! {

/// Flags given to a page-table entry that points to a lower-level table.
pub open spec fn spec_table_flags(user: bool) -> u64 {
    if user { PRESENT | WRITABLE | USER } else { PRESENT | WRITABLE }
}

/// A zeroed table.
pub open spec fn zero_table(t: Seq<PageTableEntry>) -> bool {
    t.len() == ENTRIES_PER_TABLE && forall|i: int| 0 <= i < ENTRIES_PER_TABLE ==> (#[trigger] t[i]).0 == 0
}

impl PageMapper {
    /// `a` can hold a new table: usable and not the address of any table.
    pub open spec fn fresh_addr(&self, a: u64) -> bool {
        table_addr_ok(a) && !self.holds_table(a)
    }

    /// A frame the allocator hands out is not a table and is a usable table address.
    proof fn lemma_alloc_fresh(&self, pmm0: &PhysicalMemoryManager, a: u64)
        requires
            self.wf(),
            self.reserved_in(pmm0),
            pmm0.is_free(a as int / 4096),
            a as int % 4096 == 0,
            a as int / 4096 < MAX_PHYS_FRAMES,
        ensures
            self.fresh_addr(a),
    {
        if self.holds_table(a) {
            assert(!pmm0.is_free(a as int / 4096));
        }
    }

    proof fn lemma_push_pdpt(old_m: &PageMapper, new_m: &PageMapper, a: u64, t: PageTable)
        requires
            old_m.wf(),
            old_m.fresh_addr(a),
            t.wf(),
            zero_table(t.entries@),
            new_m.pml4_phys == old_m.pml4_phys,
            new_m.pml4 == old_m.pml4,
            new_m.pdpts@ == old_m.pdpts@.push((a, t)),
            new_m.pds@ == old_m.pds@,
            new_m.pts@ == old_m.pts@,
        ensures
            new_m.wf(),
            forall|b: u64| #[trigger] new_m.holds_table(b) == (old_m.holds_table(b) || b == a),
            store_view(new_m.pdpts@) == store_view(old_m.pdpts@).push((a, t.entries@)),
            stored(store_view(new_m.pdpts@), a),
    {
        let p3 = store_view(old_m.pdpts@);
        let q3 = store_view(new_m.pdpts@);
        assert(q3 =~= p3.push((a, t.entries@)));
        assert forall|x: u64| stored(p3, x) implies stored(q3, x) by {
            let i = choose|i: int| 0 <= i < p3.len() && p3[i].0 == x;
            assert(q3[i].0 == x);
        }
        assert forall|x: u64| #[trigger] stored(q3, x) implies stored(p3, x) || x == a by {
            let i = choose|i: int| 0 <= i < q3.len() && q3[i].0 == x;
            if i < p3.len() {
                assert(p3[i].0 == x);
            }
        }
        assert(stored(q3, a)) by {
            assert(q3[p3.len() as int].0 == a);
        }
        lemma_zero_table(t.entries@);
        assert forall|b: u64| #[trigger] new_m.holds_table(b) == (old_m.holds_table(b) || b == a) by {}
    }

    proof fn lemma_push_pd(old_m: &PageMapper, new_m: &PageMapper, a: u64, t: PageTable)
        requires
            old_m.wf(),
            old_m.fresh_addr(a),
            t.wf(),
            zero_table(t.entries@),
            new_m.pml4_phys == old_m.pml4_phys,
            new_m.pml4 == old_m.pml4,
            new_m.pdpts@ == old_m.pdpts@,
            new_m.pds@ == old_m.pds@.push((a, t)),
            new_m.pts@ == old_m.pts@,
        ensures
            new_m.wf(),
            forall|b: u64| #[trigger] new_m.holds_table(b) == (old_m.holds_table(b) || b == a),
            store_view(new_m.pds@) == store_view(old_m.pds@).push((a, t.entries@)),
            stored(store_view(new_m.pds@), a),
    {
        let p2 = store_view(old_m.pds@);
        let q2 = store_view(new_m.pds@);
        assert(q2 =~= p2.push((a, t.entries@)));
        assert forall|x: u64| stored(p2, x) implies stored(q2, x) by {
            let i = choose|i: int| 0 <= i < p2.len() && p2[i].0 == x;
            assert(q2[i].0 == x);
        }
        assert forall|x: u64| #[trigger] stored(q2, x) implies stored(p2, x) || x == a by {
            let i = choose|i: int| 0 <= i < q2.len() && q2[i].0 == x;
            if i < p2.len() {
                assert(p2[i].0 == x);
            }
        }
        assert(stored(q2, a)) by {
            assert(q2[p2.len() as int].0 == a);
        }
        lemma_links_grow(store_view(old_m.pdpts@), p2, q2);
        assert(store_view(new_m.pdpts@) == store_view(old_m.pdpts@));
        lemma_zero_table(t.entries@);
        assert forall|k: int, i: int|
            0 <= k < q2.len() && 0 <= i < ENTRIES_PER_TABLE && (#[trigger] q2[k].1[i]).spec_present()
                implies !has_bits(q2[k].1[i].0, HUGE) && stored(store_view(new_m.pts@), q2[k].1[i].spec_addr()) by {
            if k < p2.len() {
                assert(q2[k] == p2[k]);
            }
        }
        assert forall|b: u64| #[trigger] new_m.holds_table(b) == (old_m.holds_table(b) || b == a) by {}
    }

    proof fn lemma_push_pt(old_m: &PageMapper, new_m: &PageMapper, a: u64, t: PageTable)
        requires
            old_m.wf(),
            old_m.fresh_addr(a),
            t.wf(),
            zero_table(t.entries@),
            new_m.pml4_phys == old_m.pml4_phys,
            new_m.pml4 == old_m.pml4,
            new_m.pdpts@ == old_m.pdpts@,
            new_m.pds@ == old_m.pds@,
            new_m.pts@ == old_m.pts@.push((a, t)),
        ensures
            new_m.wf(),
            forall|b: u64| #[trigger] new_m.holds_table(b) == (old_m.holds_table(b) || b == a),
            store_view(new_m.pts@) == store_view(old_m.pts@).push((a, t.entries@)),
            stored(store_view(new_m.pts@), a),
    {
        let p1 = store_view(old_m.pts@);
        let q1 = store_view(new_m.pts@);
        assert(q1 =~= p1.push((a, t.entries@)));
        assert forall|x: u64| stored(p1, x) implies stored(q1, x) by {
            let i = choose|i: int| 0 <= i < p1.len() && p1[i].0 == x;
            assert(q1[i].0 == x);
        }
        assert forall|x: u64| #[trigger] stored(q1, x) implies stored(p1, x) || x == a by {
            let i = choose|i: int| 0 <= i < q1.len() && q1[i].0 == x;
            if i < p1.len() {
                assert(p1[i].0 == x);
            }
        }
        assert(stored(q1, a)) by {
            assert(q1[p1.len() as int].0 == a);
        }
        lemma_links_grow(store_view(old_m.pds@), p1, q1);
        assert(store_view(new_m.pds@) == store_view(old_m.pds@));
        lemma_zero_table(t.entries@);
        assert forall|b: u64| #[trigger] new_m.holds_table(b) == (old_m.holds_table(b) || b == a) by {}
    }
}

} // verus!

verus! {

/// A table pointer entry: present, not huge, to a table of the store.
pub open spec fn points_into(e: PageTableEntry, next: Seq<(u64, Seq<PageTableEntry>)>) -> bool {
    e.spec_present() ==> !has_bits(e.0, HUGE) && stored(next, e.spec_addr())
}

/// Replacing one entry keeps links when the new entry links too.
proof fn lemma_links_update(
    t: Seq<(u64, Seq<PageTableEntry>)>,
    next: Seq<(u64, Seq<PageTableEntry>)>,
    k: int,
    i: int,
    e: PageTableEntry,
)
    requires
        links_to(t, next),
        0 <= k < t.len(),
        0 <= i < ENTRIES_PER_TABLE,
        forall|kk: int| 0 <= kk < t.len() ==> (#[trigger] t[kk]).1.len() == ENTRIES_PER_TABLE,
        points_into(e, next),
    ensures
        links_to(t.update(k, (t[k].0, t[k].1.update(i, e))), next),
{
    let t2 = t.update(k, (t[k].0, t[k].1.update(i, e)));
    assert forall|kk: int, ii: int|
        0 <= kk < t2.len() && 0 <= ii < ENTRIES_PER_TABLE && (#[trigger] t2[kk].1[ii]).spec_present()
            implies !has_bits(t2[kk].1[ii].0, HUGE) && stored(next, t2[kk].1[ii].spec_addr()) by {
        if kk != k || ii != i {
            assert(t2[kk].1[ii] == t[kk].1[ii]);
        }
    }
}

impl PageMapper {
    proof fn lemma_set_root(old_m: &PageMapper, new_m: &PageMapper, i: int, e: PageTableEntry)
        requires
            old_m.wf(),
            0 <= i < ENTRIES_PER_TABLE,
            points_into(e, store_view(old_m.pdpts@)),
            e.spec_present() ==> forall|j: int|
                0 <= j < ENTRIES_PER_TABLE && j != i && (#[trigger] old_m.pml4.entries@[j]).spec_present()
                    ==> old_m.pml4.entries@[j].spec_addr() != e.spec_addr(),
            new_m.pml4_phys == old_m.pml4_phys,
            new_m.pml4.entries@ == old_m.pml4.entries@.update(i, e),
            new_m.pdpts@ == old_m.pdpts@,
            new_m.pds@ == old_m.pds@,
            new_m.pts@ == old_m.pts@,
        ensures
            new_m.wf(),
            forall|b: u64| #[trigger] new_m.holds_table(b) == old_m.holds_table(b),
    {
        assert(old_m.levels()[0].1.len() == ENTRIES_PER_TABLE);
        lemma_links_update(old_m.levels(), store_view(old_m.pdpts@), 0, i, e);
        lemma_distinct_update(old_m.levels(), 0, i, e);
        assert(new_m.levels() =~= old_m.levels().update(0, (old_m.levels()[0].0, old_m.levels()[0].1.update(i, e))));
    }

    proof fn lemma_set_pdpt(old_m: &PageMapper, new_m: &PageMapper, k: int, i: int, e: PageTableEntry)
        requires
            old_m.wf(),
            0 <= k < old_m.pdpts@.len(),
            0 <= i < ENTRIES_PER_TABLE,
            points_into(e, store_view(old_m.pds@)),
            e.spec_present() ==> forall|k2: int, i2: int|
                0 <= k2 < old_m.pdpts@.len() && 0 <= i2 < ENTRIES_PER_TABLE && (k2 != k || i2 != i)
                    && (#[trigger] store_view(old_m.pdpts@)[k2].1[i2]).spec_present()
                    ==> store_view(old_m.pdpts@)[k2].1[i2].spec_addr() != e.spec_addr(),
            new_m.pml4_phys == old_m.pml4_phys,
            new_m.pml4 == old_m.pml4,
            store_wf(new_m.pdpts@),
            store_view(new_m.pdpts@) == store_view(old_m.pdpts@).update(
                k,
                (old_m.pdpts@[k].0, old_m.pdpts@[k].1.entries@.update(i, e)),
            ),
            new_m.pds@ == old_m.pds@,
            new_m.pts@ == old_m.pts@,
        ensures
            new_m.wf(),
            forall|b: u64| #[trigger] new_m.holds_table(b) == old_m.holds_table(b),
    {
        let p3 = store_view(old_m.pdpts@);
        let q3 = store_view(new_m.pdpts@);
        assert forall|kk: int| 0 <= kk < p3.len() implies (#[trigger] p3[kk]).1.len() == ENTRIES_PER_TABLE by {
            assert(old_m.pdpts@[kk].1.wf());
        }
        lemma_links_update(p3, store_view(old_m.pds@), k, i, e);
        lemma_distinct_update(p3, k, i, e);
        assert forall|x: u64| stored(p3, x) == #[trigger] stored(q3, x) by {
            if stored(p3, x) {
                let j = choose|j: int| 0 <= j < p3.len() && p3[j].0 == x;
                assert(q3[j].0 == x);
            }
            if stored(q3, x) {
                let j = choose|j: int| 0 <= j < q3.len() && q3[j].0 == x;
                assert(p3[j].0 == x);
            }
        }
        lemma_links_grow(old_m.levels(), p3, q3);
        assert(forall|j: int| 0 <= j < q3.len() ==> #[trigger] q3[j].0 == p3[j].0);
    }

    proof fn lemma_set_pd(old_m: &PageMapper, new_m: &PageMapper, k: int, i: int, e: PageTableEntry)
        requires
            old_m.wf(),
            0 <= k < old_m.pds@.len(),
            0 <= i < ENTRIES_PER_TABLE,
            points_into(e, store_view(old_m.pts@)),
            e.spec_present() ==> forall|k2: int, i2: int|
                0 <= k2 < old_m.pds@.len() && 0 <= i2 < ENTRIES_PER_TABLE && (k2 != k || i2 != i)
                    && (#[trigger] store_view(old_m.pds@)[k2].1[i2]).spec_present()
                    ==> store_view(old_m.pds@)[k2].1[i2].spec_addr() != e.spec_addr(),
            new_m.pml4_phys == old_m.pml4_phys,
            new_m.pml4 == old_m.pml4,
            new_m.pdpts@ == old_m.pdpts@,
            store_wf(new_m.pds@),
            store_view(new_m.pds@) == store_view(old_m.pds@).update(
                k,
                (old_m.pds@[k].0, old_m.pds@[k].1.entries@.update(i, e)),
            ),
            new_m.pts@ == old_m.pts@,
        ensures
            new_m.wf(),
            forall|b: u64| #[trigger] new_m.holds_table(b) == old_m.holds_table(b),
    {
        let p2 = store_view(old_m.pds@);
        let q2 = store_view(new_m.pds@);
        assert forall|kk: int| 0 <= kk < p2.len() implies (#[trigger] p2[kk]).1.len() == ENTRIES_PER_TABLE by {
            assert(old_m.pds@[kk].1.wf());
        }
        lemma_links_update(p2, store_view(old_m.pts@), k, i, e);
        lemma_distinct_update(p2, k, i, e);
        assert forall|x: u64| stored(p2, x) == #[trigger] stored(q2, x) by {
            if stored(p2, x) {
                let j = choose|j: int| 0 <= j < p2.len() && p2[j].0 == x;
                assert(q2[j].0 == x);
            }
            if stored(q2, x) {
                let j = choose|j: int| 0 <= j < q2.len() && q2[j].0 == x;
                assert(p2[j].0 == x);
            }
        }
        lemma_links_grow(store_view(old_m.pdpts@), p2, q2);
        assert(forall|j: int| 0 <= j < q2.len() ==> #[trigger] q2[j].0 == p2[j].0);
    }

    proof fn lemma_set_pt(old_m: &PageMapper, new_m: &PageMapper, k: int, i: int, e: PageTableEntry)
        requires
            old_m.wf(),
            0 <= k < old_m.pts@.len(),
            0 <= i < ENTRIES_PER_TABLE,
            new_m.pml4_phys == old_m.pml4_phys,
            new_m.pml4 == old_m.pml4,
            new_m.pdpts@ == old_m.pdpts@,
            new_m.pds@ == old_m.pds@,
            store_wf(new_m.pts@),
            store_view(new_m.pts@) == store_view(old_m.pts@).update(
                k,
                (old_m.pts@[k].0, old_m.pts@[k].1.entries@.update(i, e)),
            ),
        ensures
            new_m.wf(),
            forall|b: u64| #[trigger] new_m.holds_table(b) == old_m.holds_table(b),
    {
        let p1 = store_view(old_m.pts@);
        let q1 = store_view(new_m.pts@);
        assert forall|x: u64| stored(p1, x) == #[trigger] stored(q1, x) by {
            if stored(p1, x) {
                let j = choose|j: int| 0 <= j < p1.len() && p1[j].0 == x;
                assert(q1[j].0 == x);
            }
            if stored(q1, x) {
                let j = choose|j: int| 0 <= j < q1.len() && q1[j].0 == x;
                assert(p1[j].0 == x);
            }
        }
        lemma_links_grow(store_view(old_m.pds@), p1, q1);
        assert(forall|j: int| 0 <= j < q1.len() ==> #[trigger] q1[j].0 == p1[j].0);
    }
}

} // verus!

verus! {

/// The address field of an entry is frame-aligned.
proof fn lemma_entry_addr_aligned(raw: u64)
    by (bit_vector)
    ensures
        (raw & 0x000F_FFFF_FFFF_F000u64) % 4096 == 0,
{
}

/// Whether an entry built from an address and flags is present depends on the flags only.
proof fn lemma_entry_present(a: u64, f: u64)
    by (bit_vector)
    ensures
        (((a & 0x000F_FFFF_FFFF_F000u64) | f) & 0x1u64 != 0) == (f & 0x1u64 != 0),
{
}

/// Table-pointer flags hold no address bits and no HUGE bit, and have PRESENT.
proof fn lemma_table_flag_bits()
    by (bit_vector)
    ensures
        (0x1u64 | 0x2u64 | 0x4u64) & 0x000F_FFFF_FFFF_F000u64 == 0,
        (0x1u64 | 0x2u64) & 0x000F_FFFF_FFFF_F000u64 == 0,
        (0x1u64 | 0x2u64 | 0x4u64) & 0x80u64 == 0,
        (0x1u64 | 0x2u64) & 0x80u64 == 0,
        (0x1u64 | 0x2u64 | 0x4u64) & 0x1u64 != 0,
        (0x1u64 | 0x2u64) & 0x1u64 != 0,
        0u64 & 0x000F_FFFF_FFFF_F000u64 == 0,
{
}

/// Table-pointer flags hold no address bits and no HUGE bit, and have PRESENT.
proof fn lemma_table_flags(user: bool)
    ensures
        spec_table_flags(user) & ADDR_MASK == 0,
        spec_table_flags(user) & HUGE == 0,
        spec_table_flags(user) & PRESENT != 0,
{
    lemma_table_flag_bits();
}

impl PageMapper {
    /// Take a frame for a new table; the frame is fresh for this mapper.
    fn alloc_table_frame(&self, pmm: &mut PhysicalMemoryManager) -> (r: Option<PhysAddr>)
        requires
            self.wf(),
            old(pmm).wf(),
            self.reserved_in(old(pmm)),
        ensures
            final(pmm).wf(),
            final(pmm).total() == old(pmm).total(),
            r is None <==> old(pmm).free() == 0,
            r is None ==> forall|g: int| #[trigger] final(pmm).is_free(g) == old(pmm).is_free(g),
            r is None ==> final(pmm).free() == old(pmm).free(),
            r matches Some(a) ==> {
                &&& self.fresh_addr(a)
                &&& !final(pmm).is_free(a as int / 4096)
                &&& forall|g: int| g != a as int / 4096 ==> #[trigger] final(pmm).is_free(g) == old(pmm).is_free(g)
                &&& final(pmm).free() + 1 == old(pmm).free()
            },
    {
        let r = pmm.alloc_frame();
        match r {
            Some(a) => {
                proof {
                    let f = a as int / 4096;
                    old(pmm).lemma_total_bound();
                    self.lemma_alloc_fresh(old(pmm), a);
                }
                Some(a)
            },
            None => None,
        }
    }
}

} // verus!

verus! {

/// A lookup that finds a table finds the one at some index of the store.
proof fn lemma_lookup_some_index(store: Seq<(u64, Seq<PageTableEntry>)>, addr: u64)
    requires
        lookup(store, addr) is Some,
    ensures
        exists|k: int| 0 <= k < store.len() && store[k].0 == addr && lookup(store, addr) == Some(#[trigger] store[k].1),
    decreases store.len(),
{
    if store.last().0 == addr {
        assert(store[store.len() - 1].0 == addr);
    } else {
        lemma_lookup_some_index(store.drop_last(), addr);
        let k = choose|k: int|
            0 <= k < store.drop_last().len() && store.drop_last()[k].0 == addr && lookup(store.drop_last(), addr)
                == Some(#[trigger] store.drop_last()[k].1);
        assert(store[k] == store.drop_last()[k]);
    }
}

/// A present entry of a table found in a store that links to `next` points
/// to a table stored in `next`.
proof fn lemma_found_links(
    store: Seq<(u64, Seq<PageTableEntry>)>,
    next: Seq<(u64, Seq<PageTableEntry>)>,
    addr: u64,
    i: int,
)
    requires
        links_to(store, next),
        lookup(store, addr) is Some,
        0 <= i < ENTRIES_PER_TABLE,
        (lookup(store, addr)->Some_0[i]).spec_present(),
    ensures
        !has_bits(lookup(store, addr)->Some_0[i].0, HUGE),
        stored(next, lookup(store, addr)->Some_0[i].spec_addr()),
{
    lemma_lookup_some_index(store, addr);
    let k = choose|k: int| 0 <= k < store.len() && store[k].0 == addr && lookup(store, addr) == Some(#[trigger] store[k].1);
    assert(store[k].1[i] == lookup(store, addr)->Some_0[i]);
}

impl PageMapper {
    /// Address of the last-level table on the walk to `va`, if any.
    pub closed spec fn pt_addr_of(&self, va: u64) -> Option<u64> {
        match self.pd_of(va) {
            Some(t2) => {
                let e2 = t2[pd_index(va)];
                if e2.spec_present() && !has_bits(e2.0, HUGE) {
                    Some(e2.spec_addr())
                } else {
                    None
                }
            },
            None => None,
        }
    }

    /// `v` is mapped through the same last-level entry as `va`.
    pub open spec fn same_leaf_slot(&self, v: u64, va: u64) -> bool {
        &&& self.pt_addr_of(v) is Some
        &&& self.pt_addr_of(v) == self.pt_addr_of(va)
        &&& pt_index(v) == pt_index(va)
    }

    /// Walks that end at the same or at fresh empty tables give the same leaves.
    proof fn lemma_leaves_from_walks(old_m: &PageMapper, new_m: &PageMapper)
        requires
            old_m.wf(),
            new_m.wf(),
            forall|v: u64| #[trigger] new_m.pt_of(v) == old_m.pt_of(v) || (old_m.pt_of(v) is None && (new_m.pt_of(v)
                is None || zero_table(new_m.pt_of(v)->Some_0))),
        ensures
            forall|v: u64| #[trigger] new_m.leaf(v) == old_m.leaf(v),
    {
        assert forall|v: u64| #[trigger] new_m.leaf(v) == old_m.leaf(v) by {
            lemma_indices(v);
            old_m.lemma_leaf_via_pt(v);
            new_m.lemma_leaf_via_pt(v);
            if new_m.pt_of(v) != old_m.pt_of(v) && new_m.pt_of(v) is Some {
                lemma_zero_table(new_m.pt_of(v)->Some_0);
            }
        }
    }

    /// Storing a new level-3 table at an unused address changes no walk.
    proof fn lemma_push3_walks(old_m: &PageMapper, new_m: &PageMapper, a: u64, t: Seq<PageTableEntry>)
        requires
            old_m.wf(),
            !stored(store_view(old_m.pdpts@), a),
            new_m.pml4 == old_m.pml4,
            store_view(new_m.pdpts@) == store_view(old_m.pdpts@).push((a, t)),
            new_m.pds@ == old_m.pds@,
            new_m.pts@ == old_m.pts@,
        ensures
            forall|v: u64| #[trigger] new_m.pt_of(v) == old_m.pt_of(v),
            forall|v: u64| #[trigger] new_m.pt_addr_of(v) == old_m.pt_addr_of(v),
    {
        assert forall|v: u64| #[trigger] new_m.pdpt_of(v) == old_m.pdpt_of(v) by {
            lemma_indices(v);
            let e4 = old_m.pml4.entries@[pml4_index(v)];
            assert(old_m.levels()[0].1[pml4_index(v)] == e4);
            lemma_lookup_push(store_view(old_m.pdpts@), a, t, e4.spec_addr());
        }
        assert forall|v: u64|
            #![trigger new_m.pt_of(v)]
            #![trigger new_m.pt_addr_of(v)]
            new_m.pt_of(v) == old_m.pt_of(v) && new_m.pt_addr_of(v) == old_m.pt_addr_of(v) by {
            assert(new_m.pdpt_of(v) == old_m.pdpt_of(v));
        }
    }

    /// Storing a new level-2 table at an unused address changes no walk.
    proof fn lemma_push2_walks(old_m: &PageMapper, new_m: &PageMapper, a: u64, t: Seq<PageTableEntry>)
        requires
            old_m.wf(),
            !stored(store_view(old_m.pds@), a),
            new_m.pml4 == old_m.pml4,
            new_m.pdpts@ == old_m.pdpts@,
            store_view(new_m.pds@) == store_view(old_m.pds@).push((a, t)),
            new_m.pts@ == old_m.pts@,
        ensures
            forall|v: u64| #[trigger] new_m.pt_of(v) == old_m.pt_of(v),
            forall|v: u64| #[trigger] new_m.pt_addr_of(v) == old_m.pt_addr_of(v),
    {
        assert forall|v: u64| #[trigger] new_m.pd_of(v) == old_m.pd_of(v) by {
            lemma_indices(v);
            assert(new_m.pdpt_of(v) == old_m.pdpt_of(v));
            if old_m.pdpt_of(v) is Some {
                let e4 = old_m.pml4.entries@[pml4_index(v)];
                let e3 = old_m.pdpt_of(v)->Some_0[pdpt_index(v)];
                lemma_lookup_push(store_view(old_m.pds@), a, t, e3.spec_addr());
                if e3.spec_present() {
                    lemma_found_links(store_view(old_m.pdpts@), store_view(old_m.pds@), e4.spec_addr(), pdpt_index(v));
                }
            }
        }
        assert forall|v: u64|
            #![trigger new_m.pt_of(v)]
            #![trigger new_m.pt_addr_of(v)]
            new_m.pt_of(v) == old_m.pt_of(v) && new_m.pt_addr_of(v) == old_m.pt_addr_of(v) by {
            assert(new_m.pd_of(v) == old_m.pd_of(v));
        }
    }

    /// Storing a new last-level table at an unused address changes no walk.
    proof fn lemma_push1_walks(old_m: &PageMapper, new_m: &PageMapper, a: u64, t: Seq<PageTableEntry>)
        requires
            old_m.wf(),
            !stored(store_view(old_m.pts@), a),
            new_m.pml4 == old_m.pml4,
            new_m.pdpts@ == old_m.pdpts@,
            new_m.pds@ == old_m.pds@,
            store_view(new_m.pts@) == store_view(old_m.pts@).push((a, t)),
        ensures
            forall|v: u64| #[trigger] new_m.pt_of(v) == old_m.pt_of(v),
            forall|v: u64| #[trigger] new_m.pt_addr_of(v) == old_m.pt_addr_of(v),
    {
        assert forall|v: u64|
            #![trigger new_m.pt_of(v)]
            #![trigger new_m.pt_addr_of(v)]
            new_m.pt_of(v) == old_m.pt_of(v) && new_m.pt_addr_of(v) == old_m.pt_addr_of(v) by {
            lemma_indices(v);
            assert(new_m.pd_of(v) == old_m.pd_of(v));
            if old_m.pd_of(v) is Some {
                let e4 = old_m.pml4.entries@[pml4_index(v)];
                let e3 = old_m.pdpt_of(v)->Some_0[pdpt_index(v)];
                let e2 = old_m.pd_of(v)->Some_0[pd_index(v)];
                lemma_lookup_push(store_view(old_m.pts@), a, t, e2.spec_addr());
                if e2.spec_present() {
                    lemma_found_links(store_view(old_m.pds@), store_view(old_m.pts@), e3.spec_addr(), pd_index(v));
                }
            }
        }
    }

    /// Pointing an absent root entry at a stored empty table changes no walk.
    proof fn lemma_link_root_walks(old_m: &PageMapper, new_m: &PageMapper, i: int, e: PageTableEntry)
        requires
            old_m.wf(),
            0 <= i < ENTRIES_PER_TABLE,
            !old_m.pml4.entries@[i].spec_present(),
            e.spec_present(),
            !has_bits(e.0, HUGE),
            lookup(store_view(old_m.pdpts@), e.spec_addr()) matches Some(t) && zero_table(t),
            new_m.pml4.entries@ == old_m.pml4.entries@.update(i, e),
            new_m.pdpts@ == old_m.pdpts@,
            new_m.pds@ == old_m.pds@,
            new_m.pts@ == old_m.pts@,
        ensures
            forall|v: u64| #[trigger] new_m.pt_of(v) == old_m.pt_of(v),
            forall|v: u64| #[trigger] new_m.pt_addr_of(v) == old_m.pt_addr_of(v),
    {
        assert forall|v: u64|
            #![trigger new_m.pt_of(v)]
            #![trigger new_m.pt_addr_of(v)]
            new_m.pt_of(v) == old_m.pt_of(v) && new_m.pt_addr_of(v) == old_m.pt_addr_of(v) by {
            lemma_indices(v);
            if pml4_index(v) == i {
                let t = lookup(store_view(old_m.pdpts@), e.spec_addr())->Some_0;
                lemma_zero_table(t);
                assert(!t[pdpt_index(v)].spec_present());
                assert(new_m.pd_of(v) is None);
                assert(old_m.pdpt_of(v) is None);
            } else {
                assert(new_m.pml4.entries@[pml4_index(v)] == old_m.pml4.entries@[pml4_index(v)]);
                assert(new_m.pdpt_of(v) == old_m.pdpt_of(v));
                assert(new_m.pd_of(v) == old_m.pd_of(v));
            }
        }
    }

    /// Pointing an absent level-3 entry at a stored empty table changes no walk.
    proof fn lemma_link3_walks(old_m: &PageMapper, new_m: &PageMapper, k: int, i: int, e: PageTableEntry)
        requires
            old_m.wf(),
            0 <= k < old_m.pdpts@.len(),
            0 <= i < ENTRIES_PER_TABLE,
            !old_m.pdpts@[k].1.entries@[i].spec_present(),
            e.spec_present(),
            !has_bits(e.0, HUGE),
            lookup(store_view(old_m.pds@), e.spec_addr()) matches Some(t) && zero_table(t),
            new_m.pml4 == old_m.pml4,
            store_view(new_m.pdpts@) == store_view(old_m.pdpts@).update(
                k,
                (old_m.pdpts@[k].0, old_m.pdpts@[k].1.entries@.update(i, e)),
            ),
            new_m.pds@ == old_m.pds@,
            new_m.pts@ == old_m.pts@,
        ensures
            forall|v: u64| #[trigger] new_m.pt_of(v) == old_m.pt_of(v),
            forall|v: u64| #[trigger] new_m.pt_addr_of(v) == old_m.pt_addr_of(v),
    {
        let p3 = store_view(old_m.pdpts@);
        let tk = old_m.pdpts@[k].1.entries@;
        PageMapper::lemma_found(old_m.pdpts@, k);
        assert forall|v: u64|
            #![trigger new_m.pt_of(v)]
            #![trigger new_m.pt_addr_of(v)]
            new_m.pt_of(v) == old_m.pt_of(v) && new_m.pt_addr_of(v) == old_m.pt_addr_of(v) by {
            lemma_indices(v);
            let e4 = old_m.pml4.entries@[pml4_index(v)];
            lemma_lookup_update(p3, k, tk.update(i, e), e4.spec_addr());
            if e4.spec_present() && !has_bits(e4.0, HUGE) && e4.spec_addr() == old_m.pdpts@[k].0 {
                assert(old_m.pdpt_of(v) == Some(tk));
                assert(new_m.pdpt_of(v) == Some(tk.update(i, e)));
                if pdpt_index(v) == i {
                    let t = lookup(store_view(old_m.pds@), e.spec_addr())->Some_0;
                    lemma_zero_table(t);
                    assert(!t[pd_index(v)].spec_present());
                    assert(new_m.pt_of(v) is None);
                    assert(old_m.pd_of(v) is None);
                } else {
                    assert(tk.update(i, e)[pdpt_index(v)] == tk[pdpt_index(v)]);
                    assert(new_m.pd_of(v) == old_m.pd_of(v));
                }
            } else {
                assert(new_m.pdpt_of(v) == old_m.pdpt_of(v));
                assert(new_m.pd_of(v) == old_m.pd_of(v));
            }
        }
    }

    /// Pointing an absent level-2 entry at a stored empty table only gives
    /// walks that ended there an empty last-level table.
    proof fn lemma_link2_walks(old_m: &PageMapper, new_m: &PageMapper, k: int, i: int, e: PageTableEntry)
        requires
            old_m.wf(),
            0 <= k < old_m.pds@.len(),
            0 <= i < ENTRIES_PER_TABLE,
            !old_m.pds@[k].1.entries@[i].spec_present(),
            e.spec_present(),
            !has_bits(e.0, HUGE),
            lookup(store_view(old_m.pts@), e.spec_addr()) matches Some(t) && zero_table(t),
            new_m.pml4 == old_m.pml4,
            new_m.pdpts@ == old_m.pdpts@,
            store_view(new_m.pds@) == store_view(old_m.pds@).update(
                k,
                (old_m.pds@[k].0, old_m.pds@[k].1.entries@.update(i, e)),
            ),
            new_m.pts@ == old_m.pts@,
        ensures
            forall|v: u64| #[trigger] new_m.pt_of(v) == old_m.pt_of(v) || (old_m.pt_of(v) is None && (new_m.pt_of(v)
                is None || zero_table(new_m.pt_of(v)->Some_0))),
    {
        let p2 = store_view(old_m.pds@);
        let tk = old_m.pds@[k].1.entries@;
        PageMapper::lemma_found(old_m.pds@, k);
        assert forall|v: u64| #[trigger] new_m.pt_of(v) == old_m.pt_of(v) || (old_m.pt_of(v) is None && (new_m.pt_of(v)
            is None || zero_table(new_m.pt_of(v)->Some_0))) by {
            lemma_indices(v);
            assert(new_m.pdpt_of(v) == old_m.pdpt_of(v));
            if old_m.pdpt_of(v) is Some {
                let e3 = old_m.pdpt_of(v)->Some_0[pdpt_index(v)];
                lemma_lookup_update(p2, k, tk.update(i, e), e3.spec_addr());
                if e3.spec_present() && !has_bits(e3.0, HUGE) && e3.spec_addr() == old_m.pds@[k].0 {
                    assert(old_m.pd_of(v) == Some(tk));
                    assert(new_m.pd_of(v) == Some(tk.update(i, e)));
                    if pd_index(v) == i {
                        assert(old_m.pt_of(v) is None);
                    } else {
                        assert(tk.update(i, e)[pd_index(v)] == tk[pd_index(v)]);
                    }
                } else {
                    assert(new_m.pd_of(v) == old_m.pd_of(v));
                }
            }
        }
    }

    /// Writing entry `i` of last-level table `k` changes exactly the leaves
    /// of the addresses mapped through that entry.
    proof fn lemma_set_leaf_frame(old_m: &PageMapper, new_m: &PageMapper, k: int, i: int, e: PageTableEntry)
        requires
            old_m.wf(),
            new_m.wf(),
            0 <= k < old_m.pts@.len(),
            0 <= i < ENTRIES_PER_TABLE,
            new_m.pml4 == old_m.pml4,
            new_m.pdpts@ == old_m.pdpts@,
            new_m.pds@ == old_m.pds@,
            store_view(new_m.pts@) == store_view(old_m.pts@).update(
                k,
                (old_m.pts@[k].0, old_m.pts@[k].1.entries@.update(i, e)),
            ),
        ensures
            forall|v: u64| #[trigger] new_m.pt_addr_of(v) == old_m.pt_addr_of(v),
            forall|v: u64|
                !(old_m.pt_addr_of(v) == Some(old_m.pts@[k].0) && pt_index(v) == i) ==> #[trigger] new_m.leaf(v)
                    == old_m.leaf(v),
            forall|v: u64|
                (old_m.pt_addr_of(v) == Some(old_m.pts@[k].0) && pt_index(v) == i) ==> #[trigger] new_m.leaf(v)
                    == (if e.spec_present() { Some((e.0, 0xfffu64)) } else { None }),
    {
        let p1 = store_view(old_m.pts@);
        let tk = old_m.pts@[k].1.entries@;
        PageMapper::lemma_found(old_m.pts@, k);
        assert forall|v: u64| #[trigger] new_m.pt_addr_of(v) == old_m.pt_addr_of(v) by {
            assert(new_m.pd_of(v) == old_m.pd_of(v));
        }
        assert forall|v: u64| #[trigger] new_m.leaf(v) == (if old_m.pt_addr_of(v) == Some(old_m.pts@[k].0) && pt_index(v) == i {
            if e.spec_present() { Some((e.0, 0xfffu64)) } else { None }
        } else {
            old_m.leaf(v)
        }) by {
            lemma_indices(v);
            old_m.lemma_leaf_via_pt(v);
            new_m.lemma_leaf_via_pt(v);
            assert(new_m.pd_of(v) == old_m.pd_of(v));
            if old_m.pd_of(v) is Some {
                let e2 = old_m.pd_of(v)->Some_0[pd_index(v)];
                lemma_lookup_update(p1, k, tk.update(i, e), e2.spec_addr());
                if e2.spec_present() && !has_bits(e2.0, HUGE) && e2.spec_addr() == old_m.pts@[k].0 {
                    assert(old_m.pt_of(v) == Some(tk));
                    assert(new_m.pt_of(v) == Some(tk.update(i, e)));
                    if pt_index(v) != i {
                        assert(tk.update(i, e)[pt_index(v)] == tk[pt_index(v)]);
                    }
                } else {
                    assert(new_m.pt_of(v) == old_m.pt_of(v));
                }
            }
        }
    }
}

/// `v` and `w` lie in the same page: the same table index at every level.
pub open spec fn same_page(v: u64, w: u64) -> bool {
    &&& pml4_index(v) == pml4_index(w)
    &&& pdpt_index(v) == pdpt_index(w)
    &&& pd_index(v) == pd_index(w)
    &&& pt_index(v) == pt_index(w)
}

/// Every table is reached from one entry only, so two addresses share a
/// last-level entry only when they lie in the same page.
pub proof fn lemma_slot_same_page(m: &PageMapper, v: u64, w: u64)
    requires
        m.wf(),
        m.same_leaf_slot(v, w),
    ensures
        same_page(v, w),
{
    lemma_indices(v);
    lemma_indices(w);
    let p3 = store_view(m.pdpts@);
    let p2 = store_view(m.pds@);
    let e4v = m.pml4.entries@[pml4_index(v)];
    let e4w = m.pml4.entries@[pml4_index(w)];
    let t3v = m.pdpt_of(v)->Some_0;
    let t3w = m.pdpt_of(w)->Some_0;
    let e3v = t3v[pdpt_index(v)];
    let e3w = t3w[pdpt_index(w)];
    let t2v = m.pd_of(v)->Some_0;
    let t2w = m.pd_of(w)->Some_0;
    lemma_lookup_some_index(p2, e3v.spec_addr());
    lemma_lookup_some_index(p2, e3w.spec_addr());
    let k2v = choose|k: int| 0 <= k < p2.len() && p2[k].0 == e3v.spec_addr() && lookup(p2, e3v.spec_addr()) == Some(#[trigger] p2[k].1);
    let k2w = choose|k: int| 0 <= k < p2.len() && p2[k].0 == e3w.spec_addr() && lookup(p2, e3w.spec_addr()) == Some(#[trigger] p2[k].1);
    assert(p2[k2v].1[pd_index(v)] == t2v[pd_index(v)]);
    assert(p2[k2w].1[pd_index(w)] == t2w[pd_index(w)]);
    assert(k2v == k2w && pd_index(v) == pd_index(w));
    lemma_lookup_some_index(p3, e4v.spec_addr());
    lemma_lookup_some_index(p3, e4w.spec_addr());
    let k3v = choose|k: int| 0 <= k < p3.len() && p3[k].0 == e4v.spec_addr() && lookup(p3, e4v.spec_addr()) == Some(#[trigger] p3[k].1);
    let k3w = choose|k: int| 0 <= k < p3.len() && p3[k].0 == e4w.spec_addr() && lookup(p3, e4w.spec_addr()) == Some(#[trigger] p3[k].1);
    assert(p3[k3v].1[pdpt_index(v)] == e3v);
    assert(p3[k3w].1[pdpt_index(w)] == e3w);
    assert(k3v == k3w && pdpt_index(v) == pdpt_index(w));
    assert(m.levels()[0].1[pml4_index(v)] == e4v);
    assert(m.levels()[0].1[pml4_index(w)] == e4w);
}

} // verus!

verus! {

impl PageMapper {
    /// The table found at `addr` in the level-3 store is table `k`.
    proof fn lemma_found(store: Seq<(u64, PageTable)>, k: int)
        requires
            unique_addrs(store_view(store)),
            0 <= k < store.len(),
        ensures
            lookup(store_view(store), store[k].0) == Some(store[k].1.entries@),
    {
        assert(store_view(store)[k] == (store[k].0, store[k].1.entries@));
        lemma_lookup_index(store_view(store), k);
    }

    /// Map the page at `virt_addr` to the frame at `phys_addr` with `flags`,
    /// creating the missing intermediate tables with frames from `pmm`.
    /// Intermediate entries get PRESENT and WRITABLE, and USER when `flags`
    /// has it. Returns whether the page was mapped before (the caller then
    /// flushes the stale mapping from every TLB).
    ///
    /// Errors: both addresses must be frame-aligned; `pmm` must have a frame
    /// for each missing table (tables created before running out stay).
    pub fn map_page(
        &mut self,
        virt_addr: VirtAddr,
        phys_addr: PhysAddr,
        flags: PageTableFlags,
        pmm: &mut PhysicalMemoryManager,
    ) -> (r: Result<bool, &'static str>)
        requires
            old(self).wf(),
            old(pmm).wf(),
            old(self).reserved_in(old(pmm)),
        ensures
            final(self).wf(),
            final(pmm).wf(),
            final(self).reserved_in(final(pmm)),
            final(self).root() == old(self).root(),
            final(pmm).total() == old(pmm).total(),
            forall|f: int| !old(pmm).is_free(f) ==> !#[trigger] final(pmm).is_free(f),
            old(pmm).free() <= final(pmm).free() + 3,
            final(pmm).free() <= old(pmm).free(),
            (virt_addr % 4096 != 0 || phys_addr % 4096 != 0) ==> (r matches Err(e) && e@
                == "Address not aligned to 4KB"@) && *final(self) == *old(self) && *final(pmm)
                == *old(pmm),
            (virt_addr % 4096 == 0 && phys_addr % 4096 == 0) ==> {
                &&& r is Ok <==> old(pmm).free() >= old(self).missing_tables(virt_addr)
                &&& r matches Err(e) ==> e@ == "Out of physical memory"@
            },
            r matches Ok(was_mapped) ==> {
                &&& was_mapped == old(self).leaf(virt_addr) is Some
                &&& final(self).leaf(virt_addr) == (if flags.0 & PRESENT != 0 {
                    Some((((phys_addr & ADDR_MASK) | flags.0), 0xfffu64))
                } else {
                    None
                })
            },
            r is Err ==> forall|v: u64| #[trigger] final(self).leaf(v) == old(self).leaf(v),
            r is Ok ==> forall|v: u64| !same_page(v, virt_addr) ==> #[trigger] final(self).leaf(v) == old(self).leaf(v),
    {
        if virt_addr % 4096 != 0 || phys_addr % 4096 != 0 {
            return Err("Address not aligned to 4KB");
        }
        proof {
            lemma_indices(virt_addr);
            reveal_strlit("Out of physical memory");
        }
        let i4 = ((virt_addr >> 39) & 0x1ff) as usize;
        let i3 = ((virt_addr >> 30) & 0x1ff) as usize;
        let i2 = ((virt_addr >> 21) & 0x1ff) as usize;
        let i1 = ((virt_addr >> 12) & 0x1ff) as usize;
        let user = (flags.bits() & USER) != 0;
        let table_flags = PageTableFlags(if user { PRESENT | WRITABLE | USER } else { PRESENT | WRITABLE });
        proof {
            lemma_table_flags(user);
            assert(table_flags.0 == spec_table_flags(user));
        }
        let ghost m_start = *self;
        let ghost pmm_start = *pmm;
        proof {
            m_start.lemma_leaf_via_pt(virt_addr);
        }

        // Level 4: the PDPT.
        let e4 = *self.pml4.get_entry(i4);
        let ghost alloc4 = !e4.spec_present();
        let pdpt_phys = if e4.is_present() {
            proof {
                assert(self.levels()[0].1[i4 as int] == e4);
            }
            e4.addr()
        } else {
            let a = match self.alloc_table_frame(pmm) {
                Some(a) => a,
                None => {
                    return Err("Out of physical memory");
                },
            };
            let t = PageTable::new();
            let ghost tg = t;
            let ghost m0 = *self;
            self.pdpts.push((a, t));
            proof {
                PageMapper::lemma_push_pdpt(&m0, self, a, tg);
                lemma_lookup_push(store_view(m0.pdpts@), a, tg.entries@, a);
                PageMapper::lemma_push3_walks(&m0, self, a, tg.entries@);
                PageMapper::lemma_leaves_from_walks(&m0, self);
            }
            let ghost m1 = *self;
            let mut e = e4;
            e.set(a, table_flags);
            self.pml4.set_entry(i4, e);
            proof {
                lemma_frame_addr(a, table_flags.0);
                lemma_unreferenced(m0.levels(), store_view(m0.pdpts@), a);
                assert forall|j: int|
                    0 <= j < ENTRIES_PER_TABLE && j != i4 && (#[trigger] m1.pml4.entries@[j]).spec_present()
                        implies m1.pml4.entries@[j].spec_addr() != e.spec_addr() by {
                    assert(m0.levels()[0].1[j] == m1.pml4.entries@[j]);
                }
                PageMapper::lemma_set_root(&m1, self, i4 as int, e);
                PageMapper::lemma_link_root_walks(&m1, self, i4 as int, e);
                PageMapper::lemma_leaves_from_walks(&m1, self);
                assert forall|v: u64| #[trigger] self.leaf(v) == m_start.leaf(v) by {
                    assert(self.leaf(v) == m1.leaf(v));
                    assert(m1.leaf(v) == m0.leaf(v));
                }
            }
            a
        };
        let ghost e4f = self.pml4.entries@[i4 as int];
        proof {
            lemma_lookup_stored(store_view(self.pdpts@), pdpt_phys);
            assert(e4f.spec_present() && !has_bits(e4f.0, HUGE) && e4f.spec_addr() == pdpt_phys);
            assert(pmm.free() + (if alloc4 { 1int } else { 0int }) == pmm_start.free());
            assert(alloc4 == (m_start.pdpt_of(virt_addr) is None));
        }
        let k3 = match find_table(&self.pdpts, pdpt_phys) {
            Some(k) => k,
            None => {
                proof {
                    assert(false);
                }
                return Err("Out of physical memory");
            },
        };
        proof {
            assert(self.pdpts@[k3 as int].1.wf());
            assert(!alloc4 ==> *self == m_start);
            assert(alloc4 ==> zero_table(self.pdpts@[k3 as int].1.entries@));
        }

        // Level 3: the PD.
        let e3 = *self.pdpts[k3].1.get_entry(i3);
        let ghost alloc3 = !e3.spec_present();
        proof {
            if alloc4 {
                lemma_zero_table(self.pdpts@[k3 as int].1.entries@);
            } else {
                assert(m_start.pdpt_of(virt_addr) == Some(self.pdpts@[k3 as int].1.entries@));
                assert(alloc3 == (m_start.pd_of(virt_addr) is None)) by {
                    if !alloc3 {
                        assert(store_view(self.pdpts@)[k3 as int].1[i3 as int] == e3);
                        assert(points_into(e3, store_view(self.pds@)));
                        lemma_lookup_stored(store_view(self.pds@), e3.spec_addr());
                    }
                }
            }
        }
        let pd_phys = if e3.is_present() {
            proof {
                assert(store_view(self.pdpts@)[k3 as int].1[i3 as int] == e3);
            }
            e3.addr()
        } else {
            let a = match self.alloc_table_frame(pmm) {
                Some(a) => a,
                None => {
                    return Err("Out of physical memory");
                },
            };
            let t = PageTable::new();
            let ghost tg = t;
            let ghost m0 = *self;
            self.pds.push((a, t));
            proof {
                PageMapper::lemma_push_pd(&m0, self, a, tg);
                lemma_lookup_push(store_view(m0.pds@), a, tg.entries@, a);
                PageMapper::lemma_push2_walks(&m0, self, a, tg.entries@);
                PageMapper::lemma_leaves_from_walks(&m0, self);
            }
            let ghost m1 = *self;
            let mut e = e3;
            e.set(a, table_flags);
            self.pdpts[k3].1.set_entry(i3, e);
            proof {
                lemma_frame_addr(a, table_flags.0);
                assert(store_view(self.pdpts@) =~= store_view(m1.pdpts@).update(
                    k3 as int,
                    (m1.pdpts@[k3 as int].0, m1.pdpts@[k3 as int].1.entries@.update(i3 as int, e)),
                ));
                assert forall|j: int| 0 <= j < self.pdpts@.len() implies (#[trigger] self.pdpts@[j]).1.wf() by {
                    if j != k3 {
                        assert(self.pdpts@[j] == m1.pdpts@[j]);
                    }
                }
                lemma_unreferenced(store_view(m0.pdpts@), store_view(m0.pds@), a);
                assert(store_view(m1.pdpts@) == store_view(m0.pdpts@));
                PageMapper::lemma_set_pdpt(&m1, self, k3 as int, i3 as int, e);
                PageMapper::lemma_link3_walks(&m1, self, k3 as int, i3 as int, e);
                PageMapper::lemma_leaves_from_walks(&m1, self);
                assert forall|v: u64| #[trigger] self.leaf(v) == m_start.leaf(v) by {
                    assert(self.leaf(v) == m1.leaf(v));
                    assert(m1.leaf(v) == m0.leaf(v));
                }
            }
            a
        };
        let ghost e3f = self.pdpts@[k3 as int].1.entries@[i3 as int];
        proof {
            lemma_lookup_stored(store_view(self.pds@), pd_phys);
            assert(e3f.spec_present() && !has_bits(e3f.0, HUGE) && e3f.spec_addr() == pd_phys);
            assert(pmm.free() + (if alloc4 { 1int } else { 0int }) + (if alloc3 { 1int } else { 0int })
                == pmm_start.free());
        }
        let k2 = match find_table(&self.pds, pd_phys) {
            Some(k) => k,
            None => {
                proof {
                    assert(false);
                }
                return Err("Out of physical memory");
            },
        };
        proof {
            assert(self.pds@[k2 as int].1.wf());
            assert(!alloc4 && !alloc3 ==> *self == m_start);
            assert(alloc3 ==> zero_table(self.pds@[k2 as int].1.entries@));
        }

        // Level 2: the PT.
        let e2 = *self.pds[k2].1.get_entry(i2);
        let ghost alloc2 = !e2.spec_present();
        proof {
            if alloc3 {
                lemma_zero_table(self.pds@[k2 as int].1.entries@);
            } else if !alloc4 {
                assert(m_start.pd_of(virt_addr) == Some(self.pds@[k2 as int].1.entries@));
                assert(alloc2 == (m_start.pt_of(virt_addr) is None)) by {
                    if !alloc2 {
                        assert(store_view(self.pds@)[k2 as int].1[i2 as int] == e2);
                        assert(points_into(e2, store_view(self.pts@)));
                        lemma_lookup_stored(store_view(self.pts@), e2.spec_addr());
                    }
                }
            }
        }
        let pt_phys = if e2.is_present() {
            proof {
                assert(store_view(self.pds@)[k2 as int].1[i2 as int] == e2);
            }
            e2.addr()
        } else {
            let a = match self.alloc_table_frame(pmm) {
                Some(a) => a,
                None => {
                    return Err("Out of physical memory");
                },
            };
            let t = PageTable::new();
            let ghost tg = t;
            let ghost m0 = *self;
            self.pts.push((a, t));
            proof {
                PageMapper::lemma_push_pt(&m0, self, a, tg);
                lemma_lookup_push(store_view(m0.pts@), a, tg.entries@, a);
                PageMapper::lemma_push1_walks(&m0, self, a, tg.entries@);
                PageMapper::lemma_leaves_from_walks(&m0, self);
            }
            let ghost m1 = *self;
            let mut e = e2;
            e.set(a, table_flags);
            self.pds[k2].1.set_entry(i2, e);
            proof {
                lemma_frame_addr(a, table_flags.0);
                assert(store_view(self.pds@) =~= store_view(m1.pds@).update(
                    k2 as int,
                    (m1.pds@[k2 as int].0, m1.pds@[k2 as int].1.entries@.update(i2 as int, e)),
                ));
                assert forall|j: int| 0 <= j < self.pds@.len() implies (#[trigger] self.pds@[j]).1.wf() by {
                    if j != k2 {
                        assert(self.pds@[j] == m1.pds@[j]);
                    }
                }
                lemma_unreferenced(store_view(m0.pds@), store_view(m0.pts@), a);
                assert(store_view(m1.pds@) == store_view(m0.pds@));
                PageMapper::lemma_set_pd(&m1, self, k2 as int, i2 as int, e);
                PageMapper::lemma_link2_walks(&m1, self, k2 as int, i2 as int, e);
                PageMapper::lemma_leaves_from_walks(&m1, self);
                assert forall|v: u64| #[trigger] self.leaf(v) == m_start.leaf(v) by {
                    assert(self.leaf(v) == m1.leaf(v));
                    assert(m1.leaf(v) == m0.leaf(v));
                }
            }
            a
        };
        let ghost e2f = self.pds@[k2 as int].1.entries@[i2 as int];
        proof {
            lemma_lookup_stored(store_view(self.pts@), pt_phys);
            assert(e2f.spec_present() && !has_bits(e2f.0, HUGE) && e2f.spec_addr() == pt_phys);
        }
        let k1 = match find_table(&self.pts, pt_phys) {
            Some(k) => k,
            None => {
                proof {
                    assert(false);
                }
                return Err("Out of physical memory");
            },
        };
        proof {
            assert(self.pts@[k1 as int].1.wf());
            assert(alloc2 ==> zero_table(self.pts@[k1 as int].1.entries@));
        }

        // Level 1: the page itself.
        let e1 = *self.pts[k1].1.get_entry(i1);
        let was_present = e1.is_present();
        proof {
            if alloc2 {
                lemma_zero_table(self.pts@[k1 as int].1.entries@);
            }
            if !alloc4 && !alloc3 && !alloc2 {
                assert(*self == m_start);
                assert(m_start.pt_of(virt_addr) == Some(self.pts@[k1 as int].1.entries@));
            }
        }
        let ghost m1 = *self;
        let mut e = e1;
        e.set(phys_addr, flags);
        self.pts[k1].1.set_entry(i1, e);
        proof {
            assert(store_view(self.pts@) =~= store_view(m1.pts@).update(
                k1 as int,
                (m1.pts@[k1 as int].0, m1.pts@[k1 as int].1.entries@.update(i1 as int, e)),
            ));
            assert forall|j: int| 0 <= j < self.pts@.len() implies (#[trigger] self.pts@[j]).1.wf() by {
                if j != k1 {
                    assert(self.pts@[j] == m1.pts@[j]);
                }
            }
            PageMapper::lemma_set_pt(&m1, self, k1 as int, i1 as int, e);
            PageMapper::lemma_set_leaf_frame(&m1, self, k1 as int, i1 as int, e);
            lemma_entry_present(phys_addr, flags.0);
            PageMapper::lemma_found(self.pdpts@, k3 as int);
            PageMapper::lemma_found(self.pds@, k2 as int);
            PageMapper::lemma_found(self.pts@, k1 as int);
            assert(self.pml4.entries@[i4 as int] == e4f);
            assert(self.pdpts@[k3 as int].1.entries@[i3 as int] == e3f);
            assert(self.pds@[k2 as int].1.entries@[i2 as int] == e2f);
            assert(self.pt_of(virt_addr) == Some(self.pts@[k1 as int].1.entries@));
            self.lemma_leaf_via_pt(virt_addr);
            assert(self.pt_addr_of(virt_addr) == Some(m1.pts@[k1 as int].0));
            assert forall|v: u64| !self.same_leaf_slot(v, virt_addr) implies #[trigger] self.leaf(v) == m_start.leaf(v) by {
                assert(self.pt_addr_of(v) == m1.pt_addr_of(v));
                assert(self.leaf(v) == m1.leaf(v));
            }
            assert forall|v: u64| !same_page(v, virt_addr) implies #[trigger] self.leaf(v) == m_start.leaf(v) by {
                if self.same_leaf_slot(v, virt_addr) {
                    lemma_slot_same_page(self, v, virt_addr);
                }
            }
        }
        Ok(was_present)
    }
}

} // verus!

verus! {

/// Two frame-aligned addresses less than 2^48 apart lie in different pages.
proof fn lemma_distinct_pages(p: u64, q: u64)
    by (bit_vector)
    requires
        p % 4096 == 0,
        q % 4096 == 0,
        p < q,
        q - p < 0x1_0000_0000_0000u64,
    ensures
        !((p >> 39u64) & 0x1ffu64 == (q >> 39u64) & 0x1ffu64 && (p >> 30u64) & 0x1ffu64 == (q >> 30u64) & 0x1ffu64
            && (p >> 21u64) & 0x1ffu64 == (q >> 21u64) & 0x1ffu64 && (p >> 12u64) & 0x1ffu64 == (q >> 12u64)
            & 0x1ffu64),
{
}

/// `p` is a page of the range `start..end`.
pub open spec fn page_in(p: u64, start: u64, end: u64) -> bool {
    p % 4096 == 0 && start <= p < end
}

/// First page of the range holding `start_virt`.
pub open spec fn range_first(start_virt: u64) -> u64 {
    start_virt & !0xfffu64
}

/// End of the last page of the range ending at `end_virt`.
pub open spec fn range_limit(end_virt: u64) -> u64 {
    ((end_virt + 0xfffu64) as u64) & !0xfffu64
}

/// The frame of kernel page `p`: at the same offset from `base_phys` as `p`
/// from `base_virt`.
pub open spec fn section_frame(p: u64, base_virt: u64, base_phys: u64) -> u64 {
    (base_phys + (p - base_virt)) as u64
}

/// The leaf a page gets when mapped to `pa` with `flags`.
pub open spec fn mapped_leaf(pa: u64, flags: u64) -> Option<(u64, u64)> {
    if flags & PRESENT != 0 {
        Some((((pa & ADDR_MASK) | flags), 0xfffu64))
    } else {
        None
    }
}

/// The range can be walked: its end rounds up within 64 bits, its pages lie
/// at or above `base_virt` with frames below 2^64, and it spans less than
/// the 48-bit address space.
pub open spec fn range_ok(start_virt: u64, end_virt: u64, base_virt: u64, base_phys: u64) -> bool {
    let start = range_first(start_virt);
    let end = range_limit(end_virt);
    &&& end_virt + 0xfff <= u64::MAX
    &&& start < end ==> {
        &&& start >= base_virt
        &&& base_phys + (end - 4096 - base_virt) <= u64::MAX
        &&& end - start <= 0x1_0000_0000_0000u64
    }
}

proof fn lemma_range_bounds(start_virt: u64, end_virt: u64)
    by (bit_vector)
    requires
        end_virt + 0xfff <= u64::MAX,
    ensures
        (start_virt & !0xfffu64) % 4096 == 0,
        (((end_virt + 0xfffu64) as u64) & !0xfffu64) % 4096 == 0,
        (((end_virt + 0xfffu64) as u64) & !0xfffu64) <= u64::MAX - 4095,
{
}

/// The frames of the range's pages, at the same offsets from `base_phys`
/// as the pages from `base_virt`, are frame-aligned.
pub open spec fn range_frames_aligned(start_virt: u64, base_virt: u64, base_phys: u64) -> bool {
    section_frame(range_first(start_virt), base_virt, base_phys) % 4096 == 0
}

/// Number of pages in `start_virt..end_virt` widened to whole pages.
pub open spec fn range_pages(start_virt: u64, end_virt: u64) -> int {
    if range_first(start_virt) < range_limit(end_virt) {
        (range_limit(end_virt) - range_first(start_virt)) / 4096
    } else {
        0
    }
}

impl PageMapper {
    /// Map every page of `start_virt..end_virt` (widened to whole pages) to
    /// the frame at the same offset from `kernel_base_phys` as the page from
    /// `kernel_base_virt`, with `flags`; stops at the first page that cannot
    /// be mapped. Pages outside the range keep their mappings.
    pub fn map_range(
        &mut self,
        start_virt: VirtAddr,
        end_virt: VirtAddr,
        kernel_base_virt: VirtAddr,
        kernel_base_phys: PhysAddr,
        flags: PageTableFlags,
        pmm: &mut PhysicalMemoryManager,
    ) -> (r: Result<(), &'static str>)
        requires
            old(self).wf(),
            old(pmm).wf(),
            old(self).reserved_in(old(pmm)),
            range_ok(start_virt, end_virt, kernel_base_virt, kernel_base_phys),
        ensures
            final(self).wf(),
            final(pmm).wf(),
            final(self).reserved_in(final(pmm)),
            final(self).root() == old(self).root(),
            final(pmm).total() == old(pmm).total(),
            final(pmm).free() <= old(pmm).free(),
            old(pmm).free() <= final(pmm).free() + 3 * range_pages(start_virt, end_virt),
            range_pages(start_virt, end_virt) > 0 && !range_frames_aligned(start_virt, kernel_base_virt, kernel_base_phys)
                ==> (r matches Err(e) && e@ == "Address not aligned to 4KB"@) && *final(self) == *old(self) && *final(pmm)
                == *old(pmm),
            (range_pages(start_virt, end_virt) == 0 || range_frames_aligned(start_virt, kernel_base_virt, kernel_base_phys))
                && old(pmm).free() >= 3 * range_pages(start_virt, end_virt) ==> r is Ok,
            (range_pages(start_virt, end_virt) == 0 || range_frames_aligned(start_virt, kernel_base_virt, kernel_base_phys))
                ==> (r matches Err(e) ==> e@ == "Out of physical memory"@ && final(pmm).free() < 3),
            forall|v: u64|
                (forall|p: u64| page_in(p, range_first(start_virt), range_limit(end_virt)) ==> !#[trigger] same_page(v, p))
                    ==> #[trigger] final(self).leaf(v) == old(self).leaf(v),
            r is Ok ==> forall|p: u64|
                page_in(p, range_first(start_virt), range_limit(end_virt)) ==> #[trigger] final(self).leaf(p)
                    == mapped_leaf(section_frame(p, kernel_base_virt, kernel_base_phys), flags.0),
            r is Err ==> forall|p: u64|
                page_in(p, range_first(start_virt), range_limit(end_virt)) ==> #[trigger] final(self).leaf(p)
                    == old(self).leaf(p) || final(self).leaf(p) == mapped_leaf(
                    section_frame(p, kernel_base_virt, kernel_base_phys),
                    flags.0,
                ),
    {
        let start = start_virt & !0xFFF;
        let end = (end_virt + 0xFFF) & !0xFFF;
        proof {
            lemma_range_bounds(start_virt, end_virt);
        }
        let mut virt = start;
        let ghost mut k: int = 0;
        while virt < end
            invariant
                self.wf(),
                pmm.wf(),
                pmm.free() <= old(pmm).free(),
                virt == start + 4096 * k,
                0 <= k,
                start < end ==> k <= range_pages(start_virt, end_virt),
                start < end ==> end == start + 4096 * range_pages(start_virt, end_virt),
                old(pmm).free() <= pmm.free() + 3 * k,
                old(pmm).free() >= 3 * range_pages(start_virt, end_virt) ==> pmm.free() + 3 * k >= 3 * range_pages(start_virt, end_virt),
                !range_frames_aligned(start_virt, kernel_base_virt, kernel_base_phys) ==> k == 0 && *self == *old(self)
                    && *pmm == *old(pmm),
                self.reserved_in(pmm),
                self.root() == old(self).root(),
                pmm.total() == old(pmm).total(),
                start == range_first(start_virt),
                end == range_limit(end_virt),
                range_ok(start_virt, end_virt, kernel_base_virt, kernel_base_phys),
                start % 4096 == 0,
                end % 4096 == 0,
                end <= u64::MAX - 4095,
                virt % 4096 == 0,
                start <= virt,
                start < end ==> virt <= end,
                start >= end ==> virt == start,
                forall|p: u64| page_in(p, start, virt) ==> #[trigger] self.leaf(p) == mapped_leaf(
                    section_frame(p, kernel_base_virt, kernel_base_phys),
                    flags.0,
                ),
                forall|v: u64|
                    (forall|p: u64| page_in(p, start, virt) ==> !#[trigger] same_page(v, p)) ==> #[trigger] self.leaf(v)
                        == old(self).leaf(v),
            decreases end - virt,
        {
            let offset = virt - kernel_base_virt;
            let phys = kernel_base_phys + offset;
            let ghost before = *self;
            let ghost pmm_before = *pmm;
            proof {
                let sf0 = section_frame(start, kernel_base_virt, kernel_base_phys) as int;
                assert(phys as int == sf0 + 4096 * k);
                assert((sf0 + 4096 * k) % 4096 == sf0 % 4096) by (nonlinear_arith);
            }
            match self.map_page(virt, phys, flags, pmm) {
                Ok(_) => {},
                Err(e) => {
                    proof {
                        assert forall|p: u64| page_in(p, start, end) implies #[trigger] self.leaf(p) == old(self).leaf(p)
                            || self.leaf(p) == mapped_leaf(section_frame(p, kernel_base_virt, kernel_base_phys), flags.0) by {
                            if p >= virt {
                                assert forall|q: u64| page_in(q, start, virt) implies !#[trigger] same_page(p, q) by {
                                    lemma_distinct_pages(q, p);
                                }
                            }
                        }
                    }
                    return Err(e);
                },
            }
            proof {
                assert(self.leaf(virt) == mapped_leaf(section_frame(virt, kernel_base_virt, kernel_base_phys), flags.0));
                assert forall|p: u64| page_in(p, start, (virt + 4096) as u64) implies #[trigger] self.leaf(p) == mapped_leaf(
                    section_frame(p, kernel_base_virt, kernel_base_phys),
                    flags.0,
                ) by {
                    if p < virt {
                        lemma_distinct_pages(p, virt);
                        assert(self.leaf(p) == before.leaf(p));
                    } else {
                        assert(p == virt);
                    }
                }
                assert forall|v: u64|
                    (forall|p: u64| page_in(p, start, (virt + 4096) as u64) ==> !#[trigger] same_page(v, p)) implies #[trigger] self.leaf(v)
                        == old(self).leaf(v) by {
                    assert(page_in(virt, start, (virt + 4096) as u64));
                    assert(!same_page(v, virt));
                    assert forall|p: u64| page_in(p, start, virt) implies !#[trigger] same_page(v, p) by {
                        assert(page_in(p, start, (virt + 4096) as u64));
                    }
                    assert(self.leaf(v) == before.leaf(v));
                }
            }
            virt = virt + 4096;
            proof {
                k = k + 1;
            }
        }
        proof {
            assert forall|v: u64|
                (forall|p: u64| page_in(p, start, end) ==> !#[trigger] same_page(v, p)) implies #[trigger] self.leaf(v)
                    == old(self).leaf(v) by {
                assert forall|p: u64| page_in(p, start, virt) implies !#[trigger] same_page(v, p) by {
                    assert(page_in(p, start, end));
                }
            }
        }
        Ok(())
    }
}

} // verus!

verus! {

/// Where the linker placed the kernel's sections (virtual addresses).
#[derive(Clone, Copy, Debug)]
pub struct KernelSections {
    /// Start of .text
    pub text_start: u64,
    /// End of .text
    pub text_end: u64,
    /// Start of .rodata
    pub rodata_start: u64,
    /// End of .rodata
    pub rodata_end: u64,
    /// Start of .data/.bss
    pub data_start: u64,
    /// End of .data/.bss
    pub data_end: u64,
}

/// Flags of kernel code: read and execute.
pub const KERNEL_TEXT_FLAGS: u64 = PRESENT | GLOBAL;

/// Flags of kernel read-only data.
pub const KERNEL_RODATA_FLAGS: u64 = PRESENT | NO_EXECUTE | GLOBAL;

/// Flags of kernel data and bss: read and write, no execute.
pub const KERNEL_DATA_FLAGS: u64 = PRESENT | WRITABLE | NO_EXECUTE | GLOBAL;

/// Some page of `start_virt..end_virt` (widened to whole pages) is the page
/// of `v`.
pub open spec fn covers(start_virt: u64, end_virt: u64, v: u64) -> bool {
    exists|p: u64| page_in(p, range_first(start_virt), range_limit(end_virt)) && #[trigger] same_page(v, p)
}

/// The range is empty or its frames are frame-aligned.
pub open spec fn section_maps_aligned(start_virt: u64, end_virt: u64, base_virt: u64, base_phys: u64) -> bool {
    range_pages(start_virt, end_virt) == 0 || range_frames_aligned(start_virt, base_virt, base_phys)
}

/// Every section is empty or has frame-aligned frames.
pub open spec fn sections_aligned(sections: KernelSections, base_virt: u64, base_phys: u64) -> bool {
    &&& section_maps_aligned(sections.text_start, sections.text_end, base_virt, base_phys)
    &&& section_maps_aligned(sections.rodata_start, sections.rodata_end, base_virt, base_phys)
    &&& section_maps_aligned(sections.data_start, sections.data_end, base_virt, base_phys)
}

/// Pages in the kernel's three sections, counted per section.
pub open spec fn sections_pages(sections: KernelSections) -> int {
    range_pages(sections.text_start, sections.text_end) + range_pages(sections.rodata_start, sections.rodata_end)
        + range_pages(sections.data_start, sections.data_end)
}

impl PageMapper {
    /// Map the kernel's sections at their frames: .text read-execute,
    /// .rodata read-only, .data/.bss read-write no-execute, each page at the
    /// same offset from `kernel_base_phys` as from `kernel_base_virt`, in
    /// that order (a page in two sections gets the later one's flags).
    /// Pages outside the sections keep their mappings.
    pub fn map_kernel_sections(
        &mut self,
        kernel_base_virt: VirtAddr,
        kernel_base_phys: PhysAddr,
        sections: KernelSections,
        pmm: &mut PhysicalMemoryManager,
    ) -> (r: Result<(), &'static str>)
        requires
            old(self).wf(),
            old(pmm).wf(),
            old(self).reserved_in(old(pmm)),
            range_ok(sections.text_start, sections.text_end, kernel_base_virt, kernel_base_phys),
            range_ok(sections.rodata_start, sections.rodata_end, kernel_base_virt, kernel_base_phys),
            range_ok(sections.data_start, sections.data_end, kernel_base_virt, kernel_base_phys),
        ensures
            final(self).wf(),
            final(pmm).wf(),
            final(self).reserved_in(final(pmm)),
            final(self).root() == old(self).root(),
            final(pmm).total() == old(pmm).total(),
            final(pmm).free() <= old(pmm).free(),
            old(pmm).free() <= final(pmm).free() + 3 * sections_pages(sections),
            !sections_aligned(sections, kernel_base_virt, kernel_base_phys) ==> r is Err,
            sections_aligned(sections, kernel_base_virt, kernel_base_phys) && old(pmm).free() >= 3 * sections_pages(
                sections,
            ) ==> r is Ok,
            r matches Err(e) ==> (e@ == "Out of physical memory"@ && final(pmm).free() < 3) || (e@
                == "Address not aligned to 4KB"@ && !sections_aligned(sections, kernel_base_virt, kernel_base_phys)),
            forall|v: u64|
                !covers(sections.text_start, sections.text_end, v) && !covers(sections.rodata_start, sections.rodata_end, v)
                    && !covers(sections.data_start, sections.data_end, v) ==> #[trigger] final(self).leaf(v) == old(self).leaf(v),
            r is Ok ==> forall|p: u64|
                page_in(p, range_first(sections.data_start), range_limit(sections.data_end)) ==> #[trigger] final(self).leaf(p) == mapped_leaf(section_frame(p, kernel_base_virt, kernel_base_phys), KERNEL_DATA_FLAGS),
            r is Ok ==> forall|p: u64|
                page_in(p, range_first(sections.rodata_start), range_limit(sections.rodata_end)) && !covers(
                    sections.data_start,
                    sections.data_end,
                    p,
                ) ==> #[trigger] final(self).leaf(p) == mapped_leaf(
                    section_frame(p, kernel_base_virt, kernel_base_phys),
                    KERNEL_RODATA_FLAGS,
                ),
            r is Ok ==> forall|p: u64|
                page_in(p, range_first(sections.text_start), range_limit(sections.text_end)) && !covers(
                    sections.rodata_start,
                    sections.rodata_end,
                    p,
                ) && !covers(sections.data_start, sections.data_end, p) ==> #[trigger] final(self).leaf(p)
                    == mapped_leaf(section_frame(p, kernel_base_virt, kernel_base_phys), KERNEL_TEXT_FLAGS),
    {
        let ghost m0 = *self;
        let r1 = self.map_range(
            sections.text_start,
            sections.text_end,
            kernel_base_virt,
            kernel_base_phys,
            PageTableFlags(KERNEL_TEXT_FLAGS),
            pmm,
        );
        let ghost m1 = *self;
        proof {
            assert forall|v: u64| !covers(sections.text_start, sections.text_end, v) implies #[trigger] m1.leaf(v) == m0.leaf(v) by {
                assert forall|p: u64| page_in(p, range_first(sections.text_start), range_limit(sections.text_end)) implies !#[trigger] same_page(v, p) by {}
            }
        }
        if let Err(e) = r1 {
            return Err(e);
        }
        let r2 = self.map_range(
            sections.rodata_start,
            sections.rodata_end,
            kernel_base_virt,
            kernel_base_phys,
            PageTableFlags(KERNEL_RODATA_FLAGS),
            pmm,
        );
        let ghost m2 = *self;
        proof {
            assert forall|v: u64| !covers(sections.rodata_start, sections.rodata_end, v) implies #[trigger] m2.leaf(v) == m1.leaf(v) by {
                assert forall|p: u64| page_in(p, range_first(sections.rodata_start), range_limit(sections.rodata_end)) implies !#[trigger] same_page(v, p) by {}
            }
        }
        if let Err(e) = r2 {
            return Err(e);
        }
        let r3 = self.map_range(
            sections.data_start,
            sections.data_end,
            kernel_base_virt,
            kernel_base_phys,
            PageTableFlags(KERNEL_DATA_FLAGS),
            pmm,
        );
        proof {
            assert forall|v: u64| !covers(sections.data_start, sections.data_end, v) implies #[trigger] self.leaf(v) == m2.leaf(v) by {
                assert forall|p: u64| page_in(p, range_first(sections.data_start), range_limit(sections.data_end)) implies !#[trigger] same_page(v, p) by {}
            }
        }
        if let Err(e) = r3 {
            return Err(e);
        }
        Ok(())
    }
}

} // verus!

verus! {

impl PageMapper {
    /// Unmap the page at `virt_addr` by clearing its last-level entry (the
    /// caller then flushes the stale mapping from every TLB). Unmapping
    /// never maps anything: an address that translates afterwards translated
    /// the same way before.
    ///
    /// Errors: the address must be frame-aligned, and each level of the walk
    /// must be present; the message names the first level that is not.
    pub fn unmap_page(&mut self, virt_addr: VirtAddr) -> (r: Result<(), &'static str>)
        requires
            old(self).wf(),
        ensures
            final(self).wf(),
            final(self).root() == old(self).root(),
            forall|b: u64| #[trigger] final(self).holds_table(b) == old(self).holds_table(b),
            forall|v: u64| #[trigger] final(self).leaf(v) is None || final(self).leaf(v) == old(self).leaf(v),
            r is Err ==> *final(self) == *old(self),
            r is Ok ==> forall|v: u64| !same_page(v, virt_addr) ==> #[trigger] final(self).leaf(v) == old(self).leaf(v),
            virt_addr % 4096 != 0 ==> (r matches Err(e) && e@ == "Address not aligned to 4KB"@),
            virt_addr % 4096 == 0 ==> {
                &&& r is Ok <==> old(self).leaf(virt_addr) is Some
                &&& r is Ok ==> final(self).leaf(virt_addr) is None
                &&& old(self).pdpt_of(virt_addr) is None ==> (r matches Err(e) && e@
                    == "Page not mapped (PML4)"@)
                &&& old(self).pdpt_of(virt_addr) is Some && old(self).pd_of(virt_addr) is None ==> (r matches Err(
                    e,
                ) && e@ == "Page not mapped (PDPT)"@)
                &&& old(self).pd_of(virt_addr) is Some && old(self).pt_of(virt_addr) is None ==> (r matches Err(
                    e,
                ) && e@ == "Page not mapped (PD)"@)
                &&& old(self).pt_of(virt_addr) is Some && old(self).leaf(virt_addr) is None ==> (r matches Err(
                    e,
                ) && e@ == "Page not mapped (PT)"@)
            },
    {
        if virt_addr % 4096 != 0 {
            return Err("Address not aligned to 4KB");
        }
        proof {
            lemma_indices(virt_addr);
            self.lemma_leaf_via_pt(virt_addr);
        }
        let i4 = ((virt_addr >> 39) & 0x1ff) as usize;
        let i3 = ((virt_addr >> 30) & 0x1ff) as usize;
        let i2 = ((virt_addr >> 21) & 0x1ff) as usize;
        let i1 = ((virt_addr >> 12) & 0x1ff) as usize;
        let e4 = *self.pml4.get_entry(i4);
        if !e4.is_present() {
            return Err("Page not mapped (PML4)");
        }
        proof {
            assert(self.levels()[0].1[i4 as int] == e4);
            lemma_lookup_stored(store_view(self.pdpts@), e4.spec_addr());
        }
        let k3 = match find_table(&self.pdpts, e4.addr()) {
            Some(k) => k,
            None => {
                proof {
                    assert(false);
                }
                return Err("Page not mapped (PML4)");
            },
        };
        assert(self.pdpts@[k3 as int].1.wf());
        let e3 = *self.pdpts[k3].1.get_entry(i3);
        if !e3.is_present() {
            return Err("Page not mapped (PDPT)");
        }
        proof {
            assert(store_view(self.pdpts@)[k3 as int].1[i3 as int] == e3);
            lemma_lookup_stored(store_view(self.pds@), e3.spec_addr());
        }
        let k2 = match find_table(&self.pds, e3.addr()) {
            Some(k) => k,
            None => {
                proof {
                    assert(false);
                }
                return Err("Page not mapped (PDPT)");
            },
        };
        assert(self.pds@[k2 as int].1.wf());
        let e2 = *self.pds[k2].1.get_entry(i2);
        if !e2.is_present() {
            return Err("Page not mapped (PD)");
        }
        proof {
            assert(store_view(self.pds@)[k2 as int].1[i2 as int] == e2);
            lemma_lookup_stored(store_view(self.pts@), e2.spec_addr());
        }
        let k1 = match find_table(&self.pts, e2.addr()) {
            Some(k) => k,
            None => {
                proof {
                    assert(false);
                }
                return Err("Page not mapped (PD)");
            },
        };
        assert(self.pts@[k1 as int].1.wf());
        let e1 = *self.pts[k1].1.get_entry(i1);
        if !e1.is_present() {
            return Err("Page not mapped (PT)");
        }
        let ghost m1 = *self;
        let mut e = e1;
        e.clear();
        self.pts[k1].1.set_entry(i1, e);
        proof {
            let p1 = store_view(m1.pts@);
            let q1 = store_view(self.pts@);
            assert(q1 =~= p1.update(
                k1 as int,
                (m1.pts@[k1 as int].0, m1.pts@[k1 as int].1.entries@.update(i1 as int, e)),
            ));
            assert forall|j: int| 0 <= j < self.pts@.len() implies (#[trigger] self.pts@[j]).1.wf() by {
                if j != k1 {
                    assert(self.pts@[j] == m1.pts@[j]);
                }
            }
            PageMapper::lemma_set_pt(&m1, self, k1 as int, i1 as int, e);
            lemma_zero_not_present();
            PageMapper::lemma_found(self.pts@, k1 as int);
            assert(self.pt_of(virt_addr) == Some(self.pts@[k1 as int].1.entries@));
            self.lemma_leaf_via_pt(virt_addr);
            PageMapper::lemma_set_leaf_frame(&m1, self, k1 as int, i1 as int, e);
            assert(self.pt_addr_of(virt_addr) == Some(m1.pts@[k1 as int].0));
            assert forall|v: u64| !self.same_leaf_slot(v, virt_addr) implies #[trigger] self.leaf(v) == m1.leaf(v) by {
                assert(self.pt_addr_of(v) == m1.pt_addr_of(v));
            }
            assert forall|v: u64| !same_page(v, virt_addr) implies #[trigger] self.leaf(v) == m1.leaf(v) by {
                if self.same_leaf_slot(v, virt_addr) {
                    lemma_slot_same_page(self, v, virt_addr);
                }
            }
            assert forall|v: u64| #[trigger] self.leaf(v) is None || self.leaf(v) == m1.leaf(v) by {
                lemma_indices(v);
                m1.lemma_leaf_via_pt(v);
                self.lemma_leaf_via_pt(v);
                assert(self.pd_of(v) == m1.pd_of(v));
                PageMapper::lemma_found(m1.pts@, k1 as int);
                if self.pd_of(v) is Some {
                    let t2 = self.pd_of(v)->Some_0;
                    let x = t2[pd_index(v)].spec_addr();
                    lemma_lookup_update(p1, k1 as int, m1.pts@[k1 as int].1.entries@.update(i1 as int, e), x);
                    if x == m1.pts@[k1 as int].0 && t2[pd_index(v)].spec_present() && !has_bits(
                        t2[pd_index(v)].0,
                        HUGE,
                    ) {
                        assert(m1.pt_of(v) == Some(m1.pts@[k1 as int].1.entries@));
                        assert(self.pt_of(v) == Some(m1.pts@[k1 as int].1.entries@.update(i1 as int, e)));
                        if pt_index(v) != i1 {
                            assert(m1.pts@[k1 as int].1.entries@.update(i1 as int, e)[pt_index(v)]
                                == m1.pts@[k1 as int].1.entries@[pt_index(v)]);
                        }
                    }
                }
            }
        }
        Ok(())
    }

    /// Unmap the page at `virt_addr` as `unmap_page` does and answer the
    /// range whose stale translations every CPU must then drop: the page
    /// itself, `virt_addr..virt_addr + 4096` (ending at `u64::MAX` for the
    /// last page of the address space).
    pub fn unmap_page_for_shootdown(&mut self, virt_addr: VirtAddr) -> (r: Result<(u64, u64), &'static str>)
        requires
            old(self).wf(),
        ensures
            final(self).wf(),
            final(self).root() == old(self).root(),
            forall|b: u64| #[trigger] final(self).holds_table(b) == old(self).holds_table(b),
            r is Err ==> *final(self) == *old(self),
            r is Ok ==> forall|v: u64| !same_page(v, virt_addr) ==> #[trigger] final(self).leaf(v) == old(self).leaf(v),
            r is Ok ==> final(self).leaf(virt_addr) is None,
            r is Ok <==> virt_addr % 4096 == 0 && old(self).leaf(virt_addr) is Some,
            r matches Ok(range) ==> range == (virt_addr, if virt_addr + 4096 <= u64::MAX {
                (virt_addr + 4096) as u64
            } else {
                u64::MAX
            }),
            r matches Err(e) ==> e@ == "Address not aligned to 4KB"@ || e@ == "Page not mapped (PML4)"@ || e@
                == "Page not mapped (PDPT)"@ || e@ == "Page not mapped (PD)"@ || e@ == "Page not mapped (PT)"@,
    {
        match self.unmap_page(virt_addr) {
            Ok(()) => {
                let end = if virt_addr <= u64::MAX - 4096 { virt_addr + 4096 } else { u64::MAX };
                Ok((virt_addr, end))
            },
            Err(e) => Err(e),
        }
    }

    /// Unmap the pages just below `stack_bottom`, just below `heap_start`
    /// (when there is one) and at `heap_end`, so that running off the stack or
    /// the heap faults. Pages that are not mapped are skipped.
    pub fn add_guard_pages(&mut self, stack_bottom: VirtAddr, heap_start: VirtAddr, heap_end: VirtAddr) -> (r: Result<(), &'static str>)
        requires
            old(self).wf(),
            stack_bottom >= 4096,
        ensures
            r is Ok,
            final(self).wf(),
            final(self).root() == old(self).root(),
            forall|b: u64| #[trigger] final(self).holds_table(b) == old(self).holds_table(b),
            forall|v: u64| #[trigger] final(self).leaf(v) is None || final(self).leaf(v) == old(self).leaf(v),
            (stack_bottom - 4096) % 4096 == 0 ==> final(self).leaf((stack_bottom - 4096) as u64) is None,
            heap_start >= 4096 && (heap_start - 4096) % 4096 == 0 ==> final(self).leaf(
                (heap_start - 4096) as u64,
            ) is None,
            heap_end % 4096 == 0 ==> final(self).leaf(heap_end) is None,
            forall|v: u64|
                !same_page(v, (stack_bottom - 4096) as u64) && !(heap_start >= 4096 && same_page(
                    v,
                    (heap_start - 4096) as u64,
                )) && !same_page(v, heap_end) ==> #[trigger] final(self).leaf(v) == old(self).leaf(v),
    {
        let ghost m0 = *self;
        let stack_guard = stack_bottom - 4096;
        let _ = self.unmap_page(stack_guard);
        let ghost m1 = *self;
        proof {
            if stack_guard % 4096 == 0 && m0.leaf(stack_guard) is None {
                assert(self.leaf(stack_guard) is None);
            }
        }
        if heap_start >= 4096 {
            let heap_guard_start = heap_start - 4096;
            let _ = self.unmap_page(heap_guard_start);
            proof {
                if heap_guard_start % 4096 == 0 && m1.leaf(heap_guard_start) is None {
                    assert(self.leaf(heap_guard_start) is None);
                }
            }
        }
        let ghost m2 = *self;
        let heap_guard_end = heap_end;
        let _ = self.unmap_page(heap_guard_end);
        proof {
            if heap_end % 4096 == 0 && m2.leaf(heap_end) is None {
                assert(self.leaf(heap_end) is None);
            }
            assert(self.leaf(stack_guard) is None || self.leaf(stack_guard) == m2.leaf(stack_guard));
            assert(m2.leaf(stack_guard) is None || m2.leaf(stack_guard) == m1.leaf(stack_guard));
            if heap_start >= 4096 {
                assert(self.leaf((heap_start - 4096) as u64) is None || self.leaf((heap_start - 4096) as u64)
                    == m2.leaf((heap_start - 4096) as u64));
            }
            assert forall|v: u64| #[trigger] self.leaf(v) is None || self.leaf(v) == m0.leaf(v) by {
                assert(self.leaf(v) is None || self.leaf(v) == m2.leaf(v));
                assert(m2.leaf(v) is None || m2.leaf(v) == m1.leaf(v));
                assert(m1.leaf(v) is None || m1.leaf(v) == m0.leaf(v));
            }
            assert forall|v: u64|
                !same_page(v, stack_guard) && !(heap_start >= 4096 && same_page(v, (heap_start - 4096) as u64))
                    && !same_page(v, heap_end) implies #[trigger] self.leaf(v) == m0.leaf(v) by {
                assert(self.leaf(v) == m2.leaf(v));
                assert(m1.leaf(v) == m0.leaf(v));
                assert(m2.leaf(v) == m1.leaf(v));
            }
        }
        Ok(())
    }
}

} // verus!

verus! {

impl PageMapper {
    /// A mapper for the address space whose root table is at the frame
    /// named by `cr3` (its address bits), holding no mappings yet.
    pub fn new(cr3: u64) -> (r: Self)
        ensures
            r.wf(),
            r.root() == cr3 & ADDR_MASK,
            forall|v: u64| #[trigger] r.leaf(v) is None,
            forall|b: u64| #[trigger] r.holds_table(b) == (b == cr3 & ADDR_MASK),
    {
        let pml4_phys = cr3 & ADDR_MASK;
        proof {
            assert((cr3 & 0x000F_FFFF_FFFF_F000u64) % 4096 == 0 && (cr3 & 0x000F_FFFF_FFFF_F000u64)
                < 0x10_0000_0000_0000u64) by (bit_vector);
        }
        let r = PageMapper {
            pml4_phys,
            pml4: PageTable::new(),
            pdpts: Vec::new(),
            pds: Vec::new(),
            pts: Vec::new(),
        };
        proof {
            lemma_zero_table(r.pml4.entries@);
            assert forall|v: u64| #[trigger] r.leaf(v) is None by {
                lemma_indices(v);
            }
            assert(store_view(r.pdpts@) =~= Seq::empty());
            assert(store_view(r.pds@) =~= Seq::empty());
            assert(store_view(r.pts@) =~= Seq::empty());
        }
        r
    }

    /// A mapper for a new process: its root table gets a fresh frame from
    /// `pmm` and holds no mappings. The kernel half of the address space,
    /// shared from the kernel's own tables, is not part of this mapper.
    ///
    /// Error: no frame is free.
    pub fn new_for_process(pmm: &mut PhysicalMemoryManager) -> (r: Result<Self, &'static str>)
        requires
            old(pmm).wf(),
        ensures
            final(pmm).wf(),
            final(pmm).total() == old(pmm).total(),
            r is Err <==> old(pmm).free() == 0,
            r matches Err(e) ==> e@ == "Out of physical memory"@ && final(pmm).free() == old(pmm).free()
                && forall|g: int| #[trigger] final(pmm).is_free(g) == old(pmm).is_free(g),
            r matches Ok(m) ==> {
                &&& m.wf()
                &&& m.reserved_in(final(pmm))
                &&& forall|v: u64| #[trigger] m.leaf(v) is None
                &&& old(pmm).is_free(m.root() as int / 4096)
                &&& forall|g: int| g != m.root() as int / 4096 ==> #[trigger] final(pmm).is_free(g) == old(pmm).is_free(g)
                &&& final(pmm).free() + 1 == old(pmm).free()
            },
    {
        let pml4_phys = match alloc_page_table(pmm) {
            Ok(a) => a,
            Err(e) => {
                return Err(e);
            },
        };
        let m = PageMapper::new(pml4_phys);
        proof {
            old(pmm).lemma_total_bound();
            assert(pml4_phys as int / 4096 < MAX_PHYS_FRAMES);
            lemma_table_flag_bits();
            lemma_frame_addr(pml4_phys, 0);
            assert forall|b: u64| #[trigger] m.holds_table(b) implies !pmm.is_free(b as int / 4096) by {}
        }
        Ok(m)
    }
}

/// Allocate a frame for a page table.
///
/// Error: no frame is free.
pub fn alloc_page_table(pmm: &mut PhysicalMemoryManager) -> (r: Result<PhysAddr, &'static str>)
    requires
        old(pmm).wf(),
    ensures
        final(pmm).wf(),
        final(pmm).total() == old(pmm).total(),
        final(pmm).next_scan() == old(pmm).next_scan() || r is Ok,
        r is Err <==> old(pmm).free() == 0,
        r matches Err(e) ==> e@ == "Out of physical memory"@ && final(pmm).free() == old(pmm).free()
            && forall|g: int| #[trigger] final(pmm).is_free(g) == old(pmm).is_free(g),
        r matches Ok(a) ==> {
            &&& a as int % 4096 == 0
            &&& a as int / 4096 < old(pmm).total()
            &&& old(pmm).is_free(a as int / 4096)
            &&& !final(pmm).is_free(a as int / 4096)
            &&& forall|g: int| g != a as int / 4096 ==> #[trigger] final(pmm).is_free(g) == old(pmm).is_free(g)
            &&& final(pmm).free() + 1 == old(pmm).free()
        },
{
    proof {
        reveal_strlit("Out of physical memory");
    }
    match pmm.alloc_frame() {
        Some(a) => Ok(a),
        None => Err("Out of physical memory"),
    }
}

/// Return a page table's frame to `pmm` (see `free_frame` for what is ignored).
pub fn free_page_table(phys_addr: PhysAddr, pmm: &mut PhysicalMemoryManager)
    requires
        old(pmm).wf(),
    ensures
        final(pmm).wf(),
        final(pmm).total() == old(pmm).total(),
        ({
            let f = phys_addr as int / 4096;
            if phys_addr as int % 4096 == 0 && f < old(pmm).total() && !old(pmm).is_free(f) {
                &&& final(pmm).is_free(f)
                &&& forall|g: int| g != f ==> #[trigger] final(pmm).is_free(g) == old(pmm).is_free(g)
                &&& final(pmm).free() == old(pmm).free() + 1
            } else {
                &&& forall|g: int| #[trigger] final(pmm).is_free(g) == old(pmm).is_free(g)
                &&& final(pmm).free() == old(pmm).free()
            }
        }),
{
    pmm.free_frame(phys_addr);
}

/// `e` points to a lower-level table at `a`.
pub open spec fn links_at(e: PageTableEntry, a: u64) -> bool {
    e.spec_present() && !has_bits(e.0, HUGE) && e.spec_addr() == a
}

/// `g` is the frame of the table at `a`, within the frames `pmm` manages.
pub open spec fn freed_frame(pmm: &PhysicalMemoryManager, a: u64, g: int) -> bool {
    0 <= g < pmm.total() && a as int / 4096 == g
}

impl PageMapper {
    /// `a` is the level-2 table at `pd` or a last-level table one of its
    /// entries points to.
    pub closed spec fn below_pd(&self, pd: u64, a: u64) -> bool {
        a == pd || (lookup(store_view(self.pds@), pd) matches Some(t2) && exists|i: int|
            0 <= i < ENTRIES_PER_TABLE && #[trigger] links_at(t2[i], a))
    }

    /// `a` is the level-3 table at `pdpt` or a table below one of its entries.
    pub closed spec fn below_pdpt(&self, pdpt: u64, a: u64) -> bool {
        a == pdpt || (lookup(store_view(self.pdpts@), pdpt) matches Some(t3) && exists|i: int|
            0 <= i < ENTRIES_PER_TABLE && t3[i].spec_present() && !has_bits(t3[i].0, HUGE) && #[trigger] self.below_pd(
                t3[i].spec_addr(),
                a,
            ))
    }

    /// `a` is a table reached from the user half (entries 0..256) of the root.
    pub closed spec fn user_table(&self, a: u64) -> bool {
        exists|i: int|
            0 <= i < ENTRIES_PER_TABLE / 2 && self.pml4.entries@[i].spec_present() && #[trigger] self.below_pdpt(
                self.pml4.entries@[i].spec_addr(),
                a,
            )
    }
}

/// Free the last-level tables of the level-2 table stored at index `k`, then
/// the table itself.
fn free_pd_level(m: &PageMapper, k: usize, pmm: &mut PhysicalMemoryManager)
    requires
        m.wf(),
        k < m.pds@.len(),
        old(pmm).wf(),
    ensures
        final(pmm).wf(),
        final(pmm).total() == old(pmm).total(),
        forall|g: int| #[trigger] final(pmm).is_free(g) == (old(pmm).is_free(g) || exists|a: u64|
            #[trigger] m.below_pd(m.pds@[k as int].0, a) && freed_frame(old(pmm), a, g)),
{
    let t2 = &m.pds[k].1;
    let pd_addr = m.pds[k].0;
    proof {
        PageMapper::lemma_found(m.pds@, k as int);
        assert(t2.wf());
    }
    let mut i: usize = 0;
    while i < ENTRIES_PER_TABLE
        invariant
            m.wf(),
            k < m.pds@.len(),
            *t2 == m.pds@[k as int].1,
            pd_addr == m.pds@[k as int].0,
            t2.entries@.len() == ENTRIES_PER_TABLE,
            lookup(store_view(m.pds@), pd_addr) == Some(t2.entries@),
            i <= ENTRIES_PER_TABLE,
            pmm.wf(),
            pmm.total() == old(pmm).total(),
            forall|g: int| #[trigger] pmm.is_free(g) == (old(pmm).is_free(g) || exists|j: int|
                0 <= j < i && links_at(t2.entries@[j], t2.entries@[j].spec_addr()) && #[trigger] freed_frame(
                    old(pmm),
                    t2.entries@[j].spec_addr(),
                    g,
                )),
        decreases ENTRIES_PER_TABLE - i,
    {
        let e = *t2.get_entry(i);
        if e.is_present() && (e.raw() & HUGE) == 0 {
            let ghost before = *pmm;
            free_page_table(e.addr(), pmm);
            proof {
                assert(e.spec_addr() % 4096 == 0) by {
                    lemma_entry_addr_aligned(e.0);
                }
                assert forall|g: int| #[trigger] pmm.is_free(g) == (old(pmm).is_free(g) || exists|j: int|
                    0 <= j < i + 1 && links_at(t2.entries@[j], t2.entries@[j].spec_addr()) && #[trigger] freed_frame(
                        old(pmm),
                        t2.entries@[j].spec_addr(),
                        g,
                    )) by {
                    if freed_frame(old(pmm), e.spec_addr(), g) {
                        assert(links_at(t2.entries@[i as int], t2.entries@[i as int].spec_addr()));
                    }
                }
            }
        } else {
            proof {
                assert forall|g: int| #[trigger] pmm.is_free(g) == (old(pmm).is_free(g) || exists|j: int|
                    0 <= j < i + 1 && links_at(t2.entries@[j], t2.entries@[j].spec_addr()) && #[trigger] freed_frame(
                        old(pmm),
                        t2.entries@[j].spec_addr(),
                        g,
                    )) by {
                    if exists|j: int|
                        0 <= j < i + 1 && links_at(t2.entries@[j], t2.entries@[j].spec_addr()) && #[trigger] freed_frame(
                            old(pmm),
                            t2.entries@[j].spec_addr(),
                            g,
                        ) {
                        let j = choose|j: int|
                            0 <= j < i + 1 && links_at(t2.entries@[j], t2.entries@[j].spec_addr()) && #[trigger] freed_frame(
                                old(pmm),
                                t2.entries@[j].spec_addr(),
                                g,
                            );
                        if j == i {
                            assert(has_bits(e.0, HUGE) || !e.spec_present());
                        }
                    }
                }
            }
        }
        i = i + 1;
    }
    let ghost before = *pmm;
    free_page_table(pd_addr, pmm);
    proof {
        assert(store_view(m.pds@)[k as int].0 == pd_addr);
        assert(table_addr_ok(store_view(m.pds@)[k as int].0));
        assert(pd_addr % 4096 == 0);
        assert forall|j: int| 0 <= j < ENTRIES_PER_TABLE && links_at(t2.entries@[j], t2.entries@[j].spec_addr())
            implies #[trigger] m.below_pd(pd_addr, t2.entries@[j].spec_addr()) by {
            let tt = lookup(store_view(m.pds@), pd_addr)->Some_0;
            assert(tt == t2.entries@);
            assert(links_at(tt[j], t2.entries@[j].spec_addr()));
        }
        let f = pd_addr as int / 4096;
        assert(forall|g: int| #[trigger] pmm.is_free(g) == (before.is_free(g) || (g == f && f < before.total())));
        assert forall|g: int| #[trigger] pmm.is_free(g) == (old(pmm).is_free(g) || exists|a: u64|
            #[trigger] m.below_pd(pd_addr, a) && freed_frame(old(pmm), a, g)) by {
            let in_loop = exists|j: int|
                0 <= j < ENTRIES_PER_TABLE && links_at(t2.entries@[j], t2.entries@[j].spec_addr()) && #[trigger] freed_frame(
                    old(pmm),
                    t2.entries@[j].spec_addr(),
                    g,
                );
            assert(before.is_free(g) == (old(pmm).is_free(g) || in_loop));
            if in_loop {
                let j = choose|j: int|
                    0 <= j < ENTRIES_PER_TABLE && links_at(t2.entries@[j], t2.entries@[j].spec_addr()) && #[trigger] freed_frame(
                        old(pmm),
                        t2.entries@[j].spec_addr(),
                        g,
                    );
                assert(m.below_pd(pd_addr, t2.entries@[j].spec_addr()));
            }
            if g == f && f < before.total() {
                assert(m.below_pd(pd_addr, pd_addr));
                assert(freed_frame(old(pmm), pd_addr, g));
            }
            if exists|a: u64| #[trigger] m.below_pd(pd_addr, a) && freed_frame(old(pmm), a, g) {
                let a = choose|a: u64| #[trigger] m.below_pd(pd_addr, a) && freed_frame(old(pmm), a, g);
                if a != pd_addr {
                    let tt = lookup(store_view(m.pds@), pd_addr)->Some_0;
                    let j = choose|j: int| 0 <= j < ENTRIES_PER_TABLE && #[trigger] links_at(tt[j], a);
                    assert(freed_frame(old(pmm), t2.entries@[j].spec_addr(), g));
                }
            }
        }
    }
}

impl PageMapper {
    /// `g` is the frame of the level-2 table at `pd` or of a table below it.
    pub open spec fn pd_frees(&self, pd: u64, pmm0: &PhysicalMemoryManager, g: int) -> bool {
        exists|a: u64| #[trigger] self.below_pd(pd, a) && freed_frame(pmm0, a, g)
    }

    /// `g` is the frame of the level-3 table at `pdpt` or of a table below it.
    pub open spec fn pdpt_frees(&self, pdpt: u64, pmm0: &PhysicalMemoryManager, g: int) -> bool {
        exists|a: u64| #[trigger] self.below_pdpt(pdpt, a) && freed_frame(pmm0, a, g)
    }

    /// `g` is the frame of the root or of a table reached from its user half.
    pub open spec fn hierarchy_frees(&self, pmm0: &PhysicalMemoryManager, g: int) -> bool {
        freed_frame(pmm0, self.root(), g) || exists|a: u64| #[trigger] self.user_table(a) && freed_frame(pmm0, a, g)
    }

    proof fn lemma_pdpt_frees(&self, pdpt: u64, t3: Seq<PageTableEntry>, pmm0: &PhysicalMemoryManager, g: int)
        requires
            lookup(store_view(self.pdpts@), pdpt) == Some(t3),
        ensures
            self.pdpt_frees(pdpt, pmm0, g) == (freed_frame(pmm0, pdpt, g) || exists|j: int|
                0 <= j < ENTRIES_PER_TABLE && t3[j].spec_present() && !has_bits(t3[j].0, HUGE) && #[trigger] self.pd_frees(
                    t3[j].spec_addr(),
                    pmm0,
                    g,
                )),
    {
        if self.pdpt_frees(pdpt, pmm0, g) {
            let a = choose|a: u64| #[trigger] self.below_pdpt(pdpt, a) && freed_frame(pmm0, a, g);
            if a != pdpt {
                let j = choose|j: int|
                    0 <= j < ENTRIES_PER_TABLE && t3[j].spec_present() && !has_bits(t3[j].0, HUGE) && #[trigger] self.below_pd(
                        t3[j].spec_addr(),
                        a,
                    );
                assert(self.pd_frees(t3[j].spec_addr(), pmm0, g));
            }
        }
        if freed_frame(pmm0, pdpt, g) {
            assert(self.below_pdpt(pdpt, pdpt));
        }
        if exists|j: int|
            0 <= j < ENTRIES_PER_TABLE && t3[j].spec_present() && !has_bits(t3[j].0, HUGE) && #[trigger] self.pd_frees(
                t3[j].spec_addr(),
                pmm0,
                g,
            ) {
            let j = choose|j: int|
                0 <= j < ENTRIES_PER_TABLE && t3[j].spec_present() && !has_bits(t3[j].0, HUGE) && #[trigger] self.pd_frees(
                    t3[j].spec_addr(),
                    pmm0,
                    g,
                );
            let a = choose|a: u64| #[trigger] self.below_pd(t3[j].spec_addr(), a) && freed_frame(pmm0, a, g);
            let t3b = lookup(store_view(self.pdpts@), pdpt)->Some_0;
            assert(t3b == t3);
            assert(self.below_pd(t3b[j].spec_addr(), a));
            assert(self.below_pdpt(pdpt, a));
        }
    }

    proof fn lemma_hierarchy_frees(&self, pmm0: &PhysicalMemoryManager, g: int)
        ensures
            self.hierarchy_frees(pmm0, g) == (freed_frame(pmm0, self.root(), g) || exists|j: int|
                0 <= j < ENTRIES_PER_TABLE / 2 && self.pml4.entries@[j].spec_present() && #[trigger] self.pdpt_frees(
                    self.pml4.entries@[j].spec_addr(),
                    pmm0,
                    g,
                )),
    {
        if exists|a: u64| #[trigger] self.user_table(a) && freed_frame(pmm0, a, g) {
            let a = choose|a: u64| #[trigger] self.user_table(a) && freed_frame(pmm0, a, g);
            {
                let j = choose|j: int|
                    0 <= j < ENTRIES_PER_TABLE / 2 && self.pml4.entries@[j].spec_present() && #[trigger] self.below_pdpt(
                        self.pml4.entries@[j].spec_addr(),
                        a,
                    );
                assert(self.pdpt_frees(self.pml4.entries@[j].spec_addr(), pmm0, g));
            }
        }
        if exists|j: int|
            0 <= j < ENTRIES_PER_TABLE / 2 && self.pml4.entries@[j].spec_present() && #[trigger] self.pdpt_frees(
                self.pml4.entries@[j].spec_addr(),
                pmm0,
                g,
            ) {
            let j = choose|j: int|
                0 <= j < ENTRIES_PER_TABLE / 2 && self.pml4.entries@[j].spec_present() && #[trigger] self.pdpt_frees(
                    self.pml4.entries@[j].spec_addr(),
                    pmm0,
                    g,
                );
            let a = choose|a: u64| #[trigger] self.below_pdpt(self.pml4.entries@[j].spec_addr(), a) && freed_frame(pmm0, a, g);
            assert(self.user_table(a));
        }
    }
}

/// Free the tables below the level-3 table stored at index `k`, then the
/// table itself.
fn free_pdpt_level(m: &PageMapper, k: usize, pmm: &mut PhysicalMemoryManager)
    requires
        m.wf(),
        k < m.pdpts@.len(),
        old(pmm).wf(),
    ensures
        final(pmm).wf(),
        final(pmm).total() == old(pmm).total(),
        forall|g: int| #[trigger] final(pmm).is_free(g) == (old(pmm).is_free(g) || m.pdpt_frees(
            m.pdpts@[k as int].0,
            old(pmm),
            g,
        )),
{
    let t3 = &m.pdpts[k].1;
    let pdpt_addr = m.pdpts[k].0;
    proof {
        PageMapper::lemma_found(m.pdpts@, k as int);
        assert(t3.wf());
    }
    let mut i: usize = 0;
    while i < ENTRIES_PER_TABLE
        invariant
            m.wf(),
            k < m.pdpts@.len(),
            *t3 == m.pdpts@[k as int].1,
            pdpt_addr == m.pdpts@[k as int].0,
            t3.entries@.len() == ENTRIES_PER_TABLE,
            lookup(store_view(m.pdpts@), pdpt_addr) == Some(t3.entries@),
            i <= ENTRIES_PER_TABLE,
            pmm.wf(),
            pmm.total() == old(pmm).total(),
            forall|g: int| #[trigger] pmm.is_free(g) == (old(pmm).is_free(g) || exists|j: int|
                0 <= j < i && t3.entries@[j].spec_present() && !has_bits(t3.entries@[j].0, HUGE) && #[trigger] m.pd_frees(
                    t3.entries@[j].spec_addr(),
                    old(pmm),
                    g,
                )),
        decreases ENTRIES_PER_TABLE - i,
    {
        let e = *t3.get_entry(i);
        if e.is_present() && (e.raw() & HUGE) == 0 {
            proof {
                assert(store_view(m.pdpts@)[k as int].1[i as int] == e);
                assert(points_into(e, store_view(m.pds@)));
                lemma_lookup_stored(store_view(m.pds@), e.spec_addr());
            }
            let k2 = match find_table(&m.pds, e.addr()) {
                Some(k2) => k2,
                None => {
                    proof {
                        assert(false);
                    }
                    0
                },
            };
            let ghost before = *pmm;
            free_pd_level(m, k2, pmm);
            proof {
                assert forall|g: int| #[trigger] pmm.is_free(g) == (old(pmm).is_free(g) || exists|j: int|
                    0 <= j < i + 1 && t3.entries@[j].spec_present() && !has_bits(t3.entries@[j].0, HUGE) && #[trigger] m.pd_frees(
                        t3.entries@[j].spec_addr(),
                        old(pmm),
                        g,
                    )) by {
                    assert(pmm.is_free(g) == (before.is_free(g) || m.pd_frees(e.spec_addr(), &before, g)));
                    assert(m.pd_frees(e.spec_addr(), &before, g) == m.pd_frees(e.spec_addr(), old(pmm), g));
                    if m.pd_frees(e.spec_addr(), old(pmm), g) {
                        assert(t3.entries@[i as int] == e);
                    }
                }
            }
        } else {
            proof {
                assert forall|g: int| #[trigger] pmm.is_free(g) == (old(pmm).is_free(g) || exists|j: int|
                    0 <= j < i + 1 && t3.entries@[j].spec_present() && !has_bits(t3.entries@[j].0, HUGE) && #[trigger] m.pd_frees(
                        t3.entries@[j].spec_addr(),
                        old(pmm),
                        g,
                    )) by {
                    if exists|j: int|
                        0 <= j < i + 1 && t3.entries@[j].spec_present() && !has_bits(t3.entries@[j].0, HUGE) && #[trigger] m.pd_frees(
                            t3.entries@[j].spec_addr(),
                            old(pmm),
                            g,
                        ) {
                        let j = choose|j: int|
                            0 <= j < i + 1 && t3.entries@[j].spec_present() && !has_bits(t3.entries@[j].0, HUGE) && #[trigger] m.pd_frees(
                                t3.entries@[j].spec_addr(),
                                old(pmm),
                                g,
                            );
                        if j == i {
                            assert(t3.entries@[i as int] == e);
                        }
                    }
                }
            }
        }
        i = i + 1;
    }
    let ghost before = *pmm;
    free_page_table(pdpt_addr, pmm);
    proof {
        assert(store_view(m.pdpts@)[k as int].0 == pdpt_addr);
        assert(table_addr_ok(store_view(m.pdpts@)[k as int].0));
        let f = pdpt_addr as int / 4096;
        assert(forall|g: int| #[trigger] pmm.is_free(g) == (before.is_free(g) || (g == f && f < before.total())));
        assert forall|g: int| #[trigger] pmm.is_free(g) == (old(pmm).is_free(g) || m.pdpt_frees(pdpt_addr, old(pmm), g)) by {
            m.lemma_pdpt_frees(pdpt_addr, t3.entries@, old(pmm), g);
        }
    }
}

/// Free a process's page tables: every table reached from the user half
/// (root entries 0..256) of `m`'s root, then the root itself. Tables of the
/// kernel half are shared and stay.
pub fn free_page_table_hierarchy(m: &PageMapper, pmm: &mut PhysicalMemoryManager)
    requires
        m.wf(),
        old(pmm).wf(),
    ensures
        final(pmm).wf(),
        final(pmm).total() == old(pmm).total(),
        forall|g: int| #[trigger] final(pmm).is_free(g) == (old(pmm).is_free(g) || m.hierarchy_frees(old(pmm), g)),
{
    let mut i: usize = 0;
    while i < ENTRIES_PER_TABLE / 2
        invariant
            m.wf(),
            i <= ENTRIES_PER_TABLE / 2,
            pmm.wf(),
            pmm.total() == old(pmm).total(),
            forall|g: int| #[trigger] pmm.is_free(g) == (old(pmm).is_free(g) || exists|j: int|
                0 <= j < i && m.pml4.entries@[j].spec_present() && #[trigger] m.pdpt_frees(
                    m.pml4.entries@[j].spec_addr(),
                    old(pmm),
                    g,
                )),
        decreases ENTRIES_PER_TABLE / 2 - i,
    {
        let e = *m.pml4.get_entry(i);
        if e.is_present() {
            proof {
                assert(m.levels()[0].1[i as int] == e);
                lemma_lookup_stored(store_view(m.pdpts@), e.spec_addr());
            }
            let k3 = match find_table(&m.pdpts, e.addr()) {
                Some(k3) => k3,
                None => {
                    proof {
                        assert(false);
                    }
                    0
                },
            };
            let ghost before = *pmm;
            free_pdpt_level(m, k3, pmm);
            proof {
                assert forall|g: int| #[trigger] pmm.is_free(g) == (old(pmm).is_free(g) || exists|j: int|
                    0 <= j < i + 1 && m.pml4.entries@[j].spec_present() && #[trigger] m.pdpt_frees(
                        m.pml4.entries@[j].spec_addr(),
                        old(pmm),
                        g,
                    )) by {
                    assert(pmm.is_free(g) == (before.is_free(g) || m.pdpt_frees(e.spec_addr(), &before, g)));
                    assert(m.pdpt_frees(e.spec_addr(), &before, g) == m.pdpt_frees(e.spec_addr(), old(pmm), g));
                    if m.pdpt_frees(e.spec_addr(), old(pmm), g) {
                        assert(m.pml4.entries@[i as int] == e);
                    }
                }
            }
        } else {
            proof {
                assert forall|g: int| #[trigger] pmm.is_free(g) == (old(pmm).is_free(g) || exists|j: int|
                    0 <= j < i + 1 && m.pml4.entries@[j].spec_present() && #[trigger] m.pdpt_frees(
                        m.pml4.entries@[j].spec_addr(),
                        old(pmm),
                        g,
                    )) by {
                    if exists|j: int|
                        0 <= j < i + 1 && m.pml4.entries@[j].spec_present() && #[trigger] m.pdpt_frees(
                            m.pml4.entries@[j].spec_addr(),
                            old(pmm),
                            g,
                        ) {
                        let j = choose|j: int|
                            0 <= j < i + 1 && m.pml4.entries@[j].spec_present() && #[trigger] m.pdpt_frees(
                                m.pml4.entries@[j].spec_addr(),
                                old(pmm),
                                g,
                            );
                        if j == i {
                            assert(m.pml4.entries@[i as int] == e);
                        }
                    }
                }
            }
        }
        i = i + 1;
    }
    let ghost before = *pmm;
    free_page_table(m.pml4_phys, pmm);
    proof {
        let f = m.pml4_phys as int / 4096;
        assert(forall|g: int| #[trigger] pmm.is_free(g) == (before.is_free(g) || (g == f && f < before.total())));
        assert forall|g: int| #[trigger] pmm.is_free(g) == (old(pmm).is_free(g) || m.hierarchy_frees(old(pmm), g)) by {
            m.lemma_hierarchy_frees(old(pmm), g);
        }
    }
}

/// A mapping read back: when the entry for a page holds frame `pa` with
/// PRESENT set, every address in the page translates to `pa` plus its offset.
pub proof fn lemma_mapped_page_translates(m: &PageMapper, va: u64, pa: u64, flags: u64, off: u64)
    requires
        m.leaf(va) == Some((((pa & ADDR_MASK) | flags), 0xfffu64)),
        va % 4096 == 0,
        pa % 4096 == 0,
        pa < 0x10_0000_0000_0000u64,
        flags & ADDR_MASK == 0,
        off < 4096,
    ensures
        m.spec_translate((va + off) as u64) == Some((pa + off) as u64),
{
    let v = (va + off) as u64;
    assert(va + off <= u64::MAX) by {
        assert(va <= u64::MAX - 4095) by (nonlinear_arith)
            requires
                va % 4096 == 0,
                va <= u64::MAX,
        ;
    }
    assert((v >> 39u64) & 0x1ffu64 == (va >> 39u64) & 0x1ffu64 && (v >> 30u64) & 0x1ffu64 == (va >> 30u64)
        & 0x1ffu64 && (v >> 21u64) & 0x1ffu64 == (va >> 21u64) & 0x1ffu64 && (v >> 12u64) & 0x1ffu64 == (va
        >> 12u64) & 0x1ffu64 && v & 0xfffu64 == off) by (bit_vector)
        requires
            va % 4096 == 0,
            off < 4096,
            v == va + off,
    ;
    assert(m.leaf(v) == m.leaf(va));
    lemma_frame_addr(pa, flags);
}

/// An unmapped page does not translate, at any offset.
pub proof fn lemma_unmapped_page_translates_nowhere(m: &PageMapper, va: u64, off: u64)
    requires
        m.leaf(va) is None,
        va % 4096 == 0,
        off < 4096,
    ensures
        m.spec_translate((va + off) as u64) is None,
{
    let v = (va + off) as u64;
    assert(va + off <= u64::MAX) by {
        assert(va <= u64::MAX - 4095) by (nonlinear_arith)
            requires
                va % 4096 == 0,
                va <= u64::MAX,
        ;
    }
    assert((v >> 39u64) & 0x1ffu64 == (va >> 39u64) & 0x1ffu64 && (v >> 30u64) & 0x1ffu64 == (va >> 30u64)
        & 0x1ffu64 && (v >> 21u64) & 0x1ffu64 == (va >> 21u64) & 0x1ffu64 && (v >> 12u64) & 0x1ffu64 == (va
        >> 12u64) & 0x1ffu64) by (bit_vector)
        requires
            va % 4096 == 0,
            off < 4096,
            v == va + off,
    ;
    assert(m.leaf(v) == m.leaf(va));
}

} // verus!

verus! {

/// Number of pages in the user half of the address space (root entries 0..256).
pub const USER_PAGES: u64 = 0x8_0000_0000;

/// Address of page number `key`.
pub open spec fn page_va(key: int) -> u64 {
    (key * 4096) as u64
}

/// Number of the page at root, level-3, level-2 and level-1 indices `a`,
/// `b`, `c` and `d`: pages are numbered in walk order.
pub open spec fn page_key(a: int, b: int, c: int, d: int) -> int {
    a * 0x800_0000 + b * 0x4_0000 + c * 0x200 + d
}

/// The page of `v` comes before the walk position (a, b, c, d).
pub open spec fn walked_before(v: u64, a: int, b: int, c: int, d: int) -> bool {
    ||| pml4_index(v) < a
    ||| pml4_index(v) == a && pdpt_index(v) < b
    ||| pml4_index(v) == a && pdpt_index(v) == b && pd_index(v) < c
    ||| pml4_index(v) == a && pdpt_index(v) == b && pd_index(v) == c && pt_index(v) < d
}

/// A leaf after copy-on-write marking: a writable page loses WRITABLE and
/// gains COW; other leaves stay.
pub open spec fn cow_leaf(l: Option<(u64, u64)>) -> Option<(u64, u64)> {
    match l {
        Some((raw, mask)) => if has_bits(raw, WRITABLE) {
            Some((((raw | COW) & !WRITABLE) as u64, mask))
        } else {
            l
        },
        None => None,
    }
}

impl PageMapper {
    /// User page number `key` is mapped writable.
    pub open spec fn cow_candidate(&self, key: int) -> bool {
        &&& 0 <= key < USER_PAGES
        &&& self.leaf(page_va(key)) is Some
        &&& has_bits(self.leaf(page_va(key))->Some_0.0, WRITABLE)
    }

    /// Frame of the entry mapping page number `key`.
    pub open spec fn cow_frame(&self, key: int) -> u64 {
        self.leaf(page_va(key))->Some_0.0 & ADDR_MASK
    }

    /// The writable user pages numbered below `upto`.
    pub open spec fn cow_pages(&self, upto: int) -> Set<int> {
        Set::new(|k: int| k < upto && self.cow_candidate(k))
    }

    /// The writable user pages numbered below `upto` mapped to frame `p`.
    pub open spec fn cow_pages_of(&self, upto: int, p: u64) -> Set<int> {
        Set::new(|k: int| k < upto && self.cow_candidate(k) && self.cow_frame(k) == p)
    }

    /// Addresses with the same indices down to a level walk the same way.
    proof fn lemma_same_walk(&self, v: u64, w: u64)
        ensures
            pml4_index(v) == pml4_index(w) ==> self.pdpt_of(v) == self.pdpt_of(w),
            pml4_index(v) == pml4_index(w) && pdpt_index(v) == pdpt_index(w) ==> self.pd_of(v) == self.pd_of(w),
            pml4_index(v) == pml4_index(w) && pdpt_index(v) == pdpt_index(w) && pd_index(v) == pd_index(w)
                ==> self.pt_addr_of(v) == self.pt_addr_of(w) && self.pt_of(v) == self.pt_of(w),
            same_page(v, w) ==> self.leaf(v) == self.leaf(w),
    {
    }
}

proof fn lemma_page_va_bits(k: u64)
    by (bit_vector)
    requires
        k < 0x8_0000_0000u64,
    ensures
        ((k * 4096u64) as u64 >> 39u64) & 0x1ffu64 == k >> 27u64,
        ((k * 4096u64) as u64 >> 30u64) & 0x1ffu64 == (k >> 18u64) & 0x1ffu64,
        ((k * 4096u64) as u64 >> 21u64) & 0x1ffu64 == (k >> 9u64) & 0x1ffu64,
        ((k * 4096u64) as u64 >> 12u64) & 0x1ffu64 == k & 0x1ffu64,
{
}

proof fn lemma_key_digits(k: u64, a: u64, b: u64, c: u64, d: u64)
    by (bit_vector)
    requires
        a < 256u64,
        b < 512u64,
        c < 512u64,
        d < 512u64,
        k == a * 0x800_0000u64 + b * 0x4_0000u64 + c * 0x200u64 + d,
    ensures
        k < 0x8_0000_0000u64,
        k >> 27u64 == a,
        (k >> 18u64) & 0x1ffu64 == b,
        (k >> 9u64) & 0x1ffu64 == c,
        k & 0x1ffu64 == d,
{
}

/// The page numbered by indices (a, b, c, d) has those indices.
proof fn lemma_page_indices(a: int, b: int, c: int, d: int)
    requires
        0 <= a < 256,
        0 <= b < 512,
        0 <= c < 512,
        0 <= d < 512,
    ensures
        0 <= page_key(a, b, c, d) < USER_PAGES,
        pml4_index(page_va(page_key(a, b, c, d))) == a,
        pdpt_index(page_va(page_key(a, b, c, d))) == b,
        pd_index(page_va(page_key(a, b, c, d))) == c,
        pt_index(page_va(page_key(a, b, c, d))) == d,
{
    let k = page_key(a, b, c, d);
    lemma_key_digits(k as u64, a as u64, b as u64, c as u64, d as u64);
    lemma_page_va_bits(k as u64);
    assert(page_va(k) == (((k as u64) * 4096u64) as u64));
}

/// Pages numbered within the block of the last-level table at (a, b, c).
proof fn lemma_key_in_pt(k: int, a: int, b: int, c: int)
    requires
        0 <= a < 256,
        0 <= b < 512,
        0 <= c < 512,
        page_key(a, b, c, 0) <= k < page_key(a, b, c, 0) + 0x200,
    ensures
        0 <= k < USER_PAGES,
        pml4_index(page_va(k)) == a,
        pdpt_index(page_va(k)) == b,
        pd_index(page_va(k)) == c,
{
    lemma_page_indices(a, b, c, k - page_key(a, b, c, 0));
    assert(page_key(a, b, c, k - page_key(a, b, c, 0)) == k);
}

/// Pages numbered within the block of the level-2 table at (a, b).
proof fn lemma_key_in_pd(k: int, a: int, b: int)
    requires
        0 <= a < 256,
        0 <= b < 512,
        page_key(a, b, 0, 0) <= k < page_key(a, b, 0, 0) + 0x4_0000,
    ensures
        0 <= k < USER_PAGES,
        pml4_index(page_va(k)) == a,
        pdpt_index(page_va(k)) == b,
{
    let r = k - page_key(a, b, 0, 0);
    let c = r / 0x200;
    let d = r % 0x200;
    assert(r == c * 0x200 + d && 0 <= c < 512 && 0 <= d < 512) by (nonlinear_arith)
        requires
            0 <= r < 0x4_0000,
            c == r / 0x200,
            d == r % 0x200,
    ;
    lemma_page_indices(a, b, c, d);
    assert(page_key(a, b, c, d) == k);
}

/// Pages numbered within the block of the level-3 table at `a`.
proof fn lemma_key_in_pdpt(k: int, a: int)
    requires
        0 <= a < 256,
        page_key(a, 0, 0, 0) <= k < page_key(a, 0, 0, 0) + 0x800_0000,
    ensures
        0 <= k < USER_PAGES,
        pml4_index(page_va(k)) == a,
{
    let r = k - page_key(a, 0, 0, 0);
    let b = r / 0x4_0000;
    let r2 = r % 0x4_0000;
    let c = r2 / 0x200;
    let d = r2 % 0x200;
    assert(r == b * 0x4_0000 + r2 && 0 <= b < 512 && 0 <= r2 < 0x4_0000) by (nonlinear_arith)
        requires
            0 <= r < 0x800_0000,
            b == r / 0x4_0000,
            r2 == r % 0x4_0000,
    ;
    assert(r2 == c * 0x200 + d && 0 <= c < 512 && 0 <= d < 512) by (nonlinear_arith)
        requires
            0 <= r2 < 0x4_0000,
            c == r2 / 0x200,
            d == r2 % 0x200,
    ;
    lemma_page_indices(a, b, c, d);
    assert(page_key(a, b, c, d) == k);
}

/// The page sets are finite and hold at most `upto` pages.
proof fn lemma_cow_pages_finite(m: PageMapper, upto: int, p: u64)
    requires
        0 <= upto,
    ensures
        m.cow_pages(upto).finite(),
        m.cow_pages(upto).len() <= upto,
        m.cow_pages_of(upto, p).finite(),
        m.cow_pages_of(upto, p).len() <= upto,
{
    lemma_int_range(0, upto);
    assert(m.cow_pages(upto).subset_of(set_int_range(0, upto)));
    assert(m.cow_pages_of(upto, p).subset_of(set_int_range(0, upto)));
    lemma_len_subset(m.cow_pages(upto), set_int_range(0, upto));
    lemma_len_subset(m.cow_pages_of(upto, p), set_int_range(0, upto));
}

/// One more page number adds that page when it is a candidate.
proof fn lemma_cow_pages_step(m: PageMapper, k: int, p: u64)
    requires
        0 <= k,
    ensures
        m.cow_pages(k + 1).len() == m.cow_pages(k).len() + (if m.cow_candidate(k) { 1int } else { 0int }),
        m.cow_pages_of(k + 1, p).len() == m.cow_pages_of(k, p).len() + (if m.cow_candidate(k) && m.cow_frame(k)
            == p {
            1int
        } else {
            0int
        }),
{
    lemma_cow_pages_finite(m, k, p);
    if m.cow_candidate(k) {
        assert(m.cow_pages(k + 1) =~= m.cow_pages(k).insert(k));
    } else {
        assert(m.cow_pages(k + 1) =~= m.cow_pages(k));
    }
    if m.cow_candidate(k) && m.cow_frame(k) == p {
        assert(m.cow_pages_of(k + 1, p) =~= m.cow_pages_of(k, p).insert(k));
    } else {
        assert(m.cow_pages_of(k + 1, p) =~= m.cow_pages_of(k, p));
    }
}

/// A block of page numbers without candidates adds nothing.
proof fn lemma_cow_pages_skip(m: PageMapper, lo: int, hi: int)
    requires
        lo <= hi,
        forall|k: int| lo <= k < hi ==> !#[trigger] m.cow_candidate(k),
    ensures
        m.cow_pages(hi) == m.cow_pages(lo),
        forall|p: u64| #[trigger] m.cow_pages_of(hi, p) == m.cow_pages_of(lo, p),
{
    assert(m.cow_pages(hi) =~= m.cow_pages(lo));
    assert forall|p: u64| #[trigger] m.cow_pages_of(hi, p) == m.cow_pages_of(lo, p) by {
        assert(m.cow_pages_of(hi, p) =~= m.cow_pages_of(lo, p));
    }
}

/// State of the copy-on-write walk at position (a, b, c, d) of `m0`'s
/// tables: only last-level entries changed, the leaves of the pages walked
/// are marked, and the count and the reference counts cover them.
spec fn cow_progress(
    m: PageMapper,
    m0: PageMapper,
    refs: Map<u64, usize>,
    refs0: Map<u64, usize>,
    count: int,
    a: int,
    b: int,
    c: int,
    d: int,
) -> bool {
    let k = page_key(a, b, c, d);
    &&& m.wf()
    &&& m.pml4_phys == m0.pml4_phys
    &&& m.pml4 == m0.pml4
    &&& m.pdpts@ == m0.pdpts@
    &&& m.pds@ == m0.pds@
    &&& m.pts@.len() == m0.pts@.len()
    &&& forall|j: int| 0 <= j < m.pts@.len() ==> (#[trigger] m.pts@[j]).0 == m0.pts@[j].0
    &&& forall|v: u64| #[trigger]
        m.leaf(v) == (if walked_before(v, a, b, c, d) { cow_leaf(m0.leaf(v)) } else { m0.leaf(v) })
    &&& count == m0.cow_pages(k).len()
    &&& forall|p: u64| #[trigger] count_of(refs, p) == count_of(refs0, p) + m0.cow_pages_of(k, p).len()
    &&& forall|p: u64| #[trigger] refs.contains_key(p) == (refs0.contains_key(p) || m0.cow_pages_of(k, p).len() > 0)
}

/// The walk state is the same at two positions that order every address
/// alike and number the same page.
proof fn lemma_progress_moves(
    m: PageMapper,
    m0: PageMapper,
    refs: Map<u64, usize>,
    refs0: Map<u64, usize>,
    count: int,
    a: int,
    b: int,
    c: int,
    d: int,
    a2: int,
    b2: int,
    c2: int,
    d2: int,
)
    requires
        cow_progress(m, m0, refs, refs0, count, a, b, c, d),
        page_key(a, b, c, d) == page_key(a2, b2, c2, d2),
        forall|v: u64| walked_before(v, a, b, c, d) == #[trigger] walked_before(v, a2, b2, c2, d2),
    ensures
        cow_progress(m, m0, refs, refs0, count, a2, b2, c2, d2),
{
    assert forall|v: u64| #[trigger]
        m.leaf(v) == (if walked_before(v, a2, b2, c2, d2) { cow_leaf(m0.leaf(v)) } else { m0.leaf(v) }) by {
        assert(walked_before(v, a, b, c, d) == walked_before(v, a2, b2, c2, d2));
    }
}

} // verus!

verus! {

/// Mark copy-on-write the writable entries of last-level table `k1`, which
/// the walk reaches at (a, b, c), adding a reference to each marked frame.
fn cow_pt_table(
    m: &mut PageMapper,
    refs: &mut PageRefcount,
    count: &mut usize,
    k1: usize,
    Ghost(m0): Ghost<PageMapper>,
    Ghost(refs0): Ghost<Map<u64, usize>>,
    Ghost(a): Ghost<int>,
    Ghost(b): Ghost<int>,
    Ghost(c): Ghost<int>,
)
    requires
        m0.wf(),
        cow_progress(*old(m), m0, old(refs)@, refs0, *old(count) as int, a, b, c, 0),
        old(refs).wf(),
        0 <= a < 256,
        0 <= b < 512,
        0 <= c < 512,
        k1 < m0.pts@.len(),
        m0.pt_addr_of(page_va(page_key(a, b, c, 0))) == Some(m0.pts@[k1 as int].0),
        forall|p: u64| #[trigger] count_of(refs0, p) + USER_PAGES <= usize::MAX,
    ensures
        cow_progress(*final(m), m0, final(refs)@, refs0, *final(count) as int, a, b, c + 1, 0),
        final(refs).wf(),
{
    let mut d: usize = 0;
    while d < ENTRIES_PER_TABLE
        invariant
            m0.wf(),
            d <= ENTRIES_PER_TABLE,
            cow_progress(*m, m0, refs@, refs0, *count as int, a, b, c, d as int),
            refs.wf(),
            0 <= a < 256,
            0 <= b < 512,
            0 <= c < 512,
            k1 < m0.pts@.len(),
            m0.pt_addr_of(page_va(page_key(a, b, c, 0))) == Some(m0.pts@[k1 as int].0),
            forall|p: u64| #[trigger] count_of(refs0, p) + USER_PAGES <= usize::MAX,
        decreases ENTRIES_PER_TABLE - d,
    {
        let ghost m1 = *m;
        let ghost r1 = refs@;
        let ghost k = page_key(a, b, c, d as int);
        let ghost va = page_va(k);
        proof {
            lemma_page_indices(a, b, c, d as int);
            lemma_page_indices(a, b, c, 0);
            m0.lemma_same_walk(va, page_va(page_key(a, b, c, 0)));
            assert(m1.pt_addr_of(va) == m0.pt_addr_of(va));
            assert(m1.pd_of(va) == m0.pd_of(va));
            PageMapper::lemma_found(m1.pts@, k1 as int);
            assert(m1.pt_of(va) == Some(m1.pts@[k1 as int].1.entries@));
            m1.lemma_leaf_via_pt(va);
            assert(!walked_before(va, a, b, c, d as int));
        }
        assert(m.pts@[k1 as int].1.wf());
        let e1 = *m.pts[k1].1.get_entry(d);
        proof {
            assert(m0.leaf(va) == (if e1.spec_present() { Some((e1.0, 0xfffu64)) } else { None }));
            assert(m0.cow_candidate(k) == (e1.spec_present() && has_bits(e1.0, WRITABLE)));
            lemma_cow_pages_finite(m0, k, 0);
            lemma_cow_pages_step(m0, k, 0);
        }
        if e1.is_present() && e1.is_writable() {
            let frame = e1.addr();
            let mut e = e1;
            e.set_cow();
            m.pts[k1].1.set_entry(d, e);
            proof {
                let p1 = store_view(m1.pts@);
                let q1 = store_view(m.pts@);
                assert(q1 =~= p1.update(
                    k1 as int,
                    (m1.pts@[k1 as int].0, m1.pts@[k1 as int].1.entries@.update(d as int, e)),
                ));
                assert forall|j: int| 0 <= j < m.pts@.len() implies (#[trigger] m.pts@[j]).1.wf() by {
                    if j != k1 {
                        assert(m.pts@[j] == m1.pts@[j]);
                    }
                }
                PageMapper::lemma_set_pt(&m1, m, k1 as int, d as int, e);
                PageMapper::lemma_set_leaf_frame(&m1, m, k1 as int, d as int, e);
                lemma_entry_addr_aligned(e1.0);
                lemma_cow_pages_finite(m0, k, frame);
                assert(count_of(r1, frame) == count_of(refs0, frame) + m0.cow_pages_of(k, frame).len());
                assert(count_of(refs0, frame) + USER_PAGES <= usize::MAX);
            }
            let n = refs.inc_refcount(frame);
            *count = *count + 1;
            proof {
                assert(refs@ == r1.insert(frame, n));
                assert(m0.cow_frame(k) == frame);
                assert forall|v: u64| #[trigger]
                    m.leaf(v) == (if walked_before(v, a, b, c, d + 1) { cow_leaf(m0.leaf(v)) } else { m0.leaf(v) }) by {
                    lemma_indices(v);
                    m1.lemma_same_walk(v, va);
                    m0.lemma_same_walk(v, va);
                    if m1.pt_addr_of(v) == Some(m1.pts@[k1 as int].0) && pt_index(v) == d {
                        assert(m1.same_leaf_slot(v, va));
                        lemma_slot_same_page(&m1, v, va);
                    } else if same_page(v, va) {
                        assert(m1.pt_addr_of(v) == m1.pt_addr_of(va));
                    }
                }
                assert forall|p: u64| #[trigger] count_of(refs@, p) == count_of(refs0, p) + m0.cow_pages_of(
                    k + 1,
                    p,
                ).len() by {
                    lemma_cow_pages_step(m0, k, p);
                    assert(count_of(r1, p) == count_of(refs0, p) + m0.cow_pages_of(k, p).len());
                    if p == frame {
                        assert(count_of(refs@, p) == n);
                    } else {
                        assert(count_of(refs@, p) == count_of(r1, p));
                    }
                }
                assert forall|p: u64| #[trigger] refs@.contains_key(p) == (refs0.contains_key(p)
                    || m0.cow_pages_of(k + 1, p).len() > 0) by {
                    lemma_cow_pages_step(m0, k, p);
                    assert(r1.contains_key(p) == (refs0.contains_key(p) || m0.cow_pages_of(k, p).len() > 0));
                }
                assert(page_key(a, b, c, d + 1) == k + 1);
            }
        } else {
            proof {
                assert forall|v: u64| #[trigger]
                    m.leaf(v) == (if walked_before(v, a, b, c, d + 1) { cow_leaf(m0.leaf(v)) } else { m0.leaf(v) }) by {
                    lemma_indices(v);
                    m0.lemma_same_walk(v, va);
                }
                assert forall|p: u64| #[trigger] count_of(refs@, p) == count_of(refs0, p) + m0.cow_pages_of(
                    k + 1,
                    p,
                ).len() by {
                    lemma_cow_pages_step(m0, k, p);
                }
                assert forall|p: u64| #[trigger] refs@.contains_key(p) == (refs0.contains_key(p)
                    || m0.cow_pages_of(k + 1, p).len() > 0) by {
                    lemma_cow_pages_step(m0, k, p);
                }
                assert(page_key(a, b, c, d + 1) == k + 1);
            }
        }
        d = d + 1;
    }
    proof {
        assert forall|v: u64| walked_before(v, a, b, c, 512) == #[trigger] walked_before(v, a, b, c + 1, 0) by {
            lemma_indices(v);
        }
        lemma_progress_moves(*m, m0, refs@, refs0, *count as int, a, b, c, 512, a, b, c + 1, 0);
    }
}

} // verus!

verus! {

/// Walking past a block of pages none of which is mapped changes nothing
/// but the position.
proof fn lemma_progress_skip(
    m: PageMapper,
    m0: PageMapper,
    refs: Map<u64, usize>,
    refs0: Map<u64, usize>,
    count: int,
    a: int,
    b: int,
    c: int,
    d: int,
    a2: int,
    b2: int,
    c2: int,
    d2: int,
)
    requires
        cow_progress(m, m0, refs, refs0, count, a, b, c, d),
        page_key(a, b, c, d) <= page_key(a2, b2, c2, d2),
        forall|k: int| page_key(a, b, c, d) <= k < page_key(a2, b2, c2, d2) ==> !#[trigger] m0.cow_candidate(k),
        forall|v: u64| #[trigger]
            walked_before(v, a2, b2, c2, d2) == (walked_before(v, a, b, c, d) || (walked_before(v, a2, b2, c2, d2)
                && m0.leaf(v) is None)),
    ensures
        cow_progress(m, m0, refs, refs0, count, a2, b2, c2, d2),
{
    lemma_cow_pages_skip(m0, page_key(a, b, c, d), page_key(a2, b2, c2, d2));
    assert forall|v: u64| #[trigger]
        m.leaf(v) == (if walked_before(v, a2, b2, c2, d2) { cow_leaf(m0.leaf(v)) } else { m0.leaf(v) }) by {
        assert(walked_before(v, a2, b2, c2, d2) == (walked_before(v, a, b, c, d) || (walked_before(
            v,
            a2,
            b2,
            c2,
            d2,
        ) && m0.leaf(v) is None)));
    }
    assert forall|p: u64| #[trigger] count_of(refs, p) == count_of(refs0, p) + m0.cow_pages_of(
        page_key(a2, b2, c2, d2),
        p,
    ).len() by {
        assert(m0.cow_pages_of(page_key(a2, b2, c2, d2), p) == m0.cow_pages_of(page_key(a, b, c, d), p));
    }
    assert forall|p: u64| #[trigger] refs.contains_key(p) == (refs0.contains_key(p) || m0.cow_pages_of(
        page_key(a2, b2, c2, d2),
        p,
    ).len() > 0) by {
        assert(m0.cow_pages_of(page_key(a2, b2, c2, d2), p) == m0.cow_pages_of(page_key(a, b, c, d), p));
    }
}

/// Mark copy-on-write the writable pages under level-2 table `k2`, which
/// the walk reaches at (a, b).
fn cow_pd_table(
    m: &mut PageMapper,
    refs: &mut PageRefcount,
    count: &mut usize,
    k2: usize,
    Ghost(m0): Ghost<PageMapper>,
    Ghost(refs0): Ghost<Map<u64, usize>>,
    Ghost(a): Ghost<int>,
    Ghost(b): Ghost<int>,
)
    requires
        m0.wf(),
        cow_progress(*old(m), m0, old(refs)@, refs0, *old(count) as int, a, b, 0, 0),
        old(refs).wf(),
        0 <= a < 256,
        0 <= b < 512,
        k2 < m0.pds@.len(),
        m0.pd_of(page_va(page_key(a, b, 0, 0))) == Some(m0.pds@[k2 as int].1.entries@),
        forall|p: u64| #[trigger] count_of(refs0, p) + USER_PAGES <= usize::MAX,
    ensures
        cow_progress(*final(m), m0, final(refs)@, refs0, *final(count) as int, a, b + 1, 0, 0),
        final(refs).wf(),
{
    let mut c: usize = 0;
    while c < ENTRIES_PER_TABLE
        invariant
            m0.wf(),
            c <= ENTRIES_PER_TABLE,
            cow_progress(*m, m0, refs@, refs0, *count as int, a, b, c as int, 0),
            refs.wf(),
            0 <= a < 256,
            0 <= b < 512,
            k2 < m0.pds@.len(),
            m0.pd_of(page_va(page_key(a, b, 0, 0))) == Some(m0.pds@[k2 as int].1.entries@),
            forall|p: u64| #[trigger] count_of(refs0, p) + USER_PAGES <= usize::MAX,
        decreases ENTRIES_PER_TABLE - c,
    {
        let ghost va = page_va(page_key(a, b, c as int, 0));
        let ghost t2 = m0.pds@[k2 as int].1.entries@;
        proof {
            lemma_page_indices(a, b, c as int, 0);
            lemma_page_indices(a, b, 0, 0);
            m0.lemma_same_walk(va, page_va(page_key(a, b, 0, 0)));
        }
        assert(m.pds@[k2 as int].1.wf());
        let e2 = *m.pds[k2].1.get_entry(c);
        proof {
            assert(e2 == t2[c as int]);
            assert(store_view(m0.pds@)[k2 as int].1[c as int] == e2);
        }
        if e2.is_present() {
            proof {
                lemma_lookup_stored(store_view(m.pts@), e2.spec_addr());
                assert(m0.pt_addr_of(va) == Some(e2.spec_addr()));
            }
            let k1 = match find_table(&m.pts, e2.addr()) {
                Some(k) => k,
                None => {
                    proof {
                        assert(false);
                    }
                    0
                },
            };
            cow_pt_table(m, refs, count, k1, Ghost(m0), Ghost(refs0), Ghost(a), Ghost(b), Ghost(c as int));
        } else {
            proof {
                let k = page_key(a, b, c as int, 0);
                assert forall|j: int| k <= j < page_key(a, b, c + 1, 0) implies !#[trigger] m0.cow_candidate(j) by {
                    lemma_key_in_pt(j, a, b, c as int);
                    m0.lemma_same_walk(page_va(j), va);
                    m0.lemma_leaf_via_pt(page_va(j));
                }
                assert forall|v: u64| #[trigger] walked_before(v, a, b, c + 1, 0) == (walked_before(v, a, b, c as int, 0) || (
                walked_before(v, a, b, c + 1, 0) && m0.leaf(v) is None)) by {
                    if walked_before(v, a, b, c + 1, 0) && !walked_before(v, a, b, c as int, 0) {
                        m0.lemma_same_walk(v, va);
                        m0.lemma_leaf_via_pt(v);
                    }
                }
                lemma_progress_skip(*m, m0, refs@, refs0, *count as int, a, b, c as int, 0, a, b, c + 1, 0);
            }
        }
        c = c + 1;
    }
    proof {
        assert forall|v: u64| walked_before(v, a, b, 512, 0) == #[trigger] walked_before(v, a, b + 1, 0, 0) by {
            lemma_indices(v);
        }
        lemma_progress_moves(*m, m0, refs@, refs0, *count as int, a, b, 512, 0, a, b + 1, 0, 0);
    }
}

} // verus!

verus! {

/// Mark copy-on-write the writable pages under level-3 table `k3`, which
/// the walk reaches at root entry `a`.
fn cow_pdpt_table(
    m: &mut PageMapper,
    refs: &mut PageRefcount,
    count: &mut usize,
    k3: usize,
    Ghost(m0): Ghost<PageMapper>,
    Ghost(refs0): Ghost<Map<u64, usize>>,
    Ghost(a): Ghost<int>,
)
    requires
        m0.wf(),
        cow_progress(*old(m), m0, old(refs)@, refs0, *old(count) as int, a, 0, 0, 0),
        old(refs).wf(),
        0 <= a < 256,
        k3 < m0.pdpts@.len(),
        m0.pdpt_of(page_va(page_key(a, 0, 0, 0))) == Some(m0.pdpts@[k3 as int].1.entries@),
        forall|p: u64| #[trigger] count_of(refs0, p) + USER_PAGES <= usize::MAX,
    ensures
        cow_progress(*final(m), m0, final(refs)@, refs0, *final(count) as int, a + 1, 0, 0, 0),
        final(refs).wf(),
{
    let mut b: usize = 0;
    while b < ENTRIES_PER_TABLE
        invariant
            m0.wf(),
            b <= ENTRIES_PER_TABLE,
            cow_progress(*m, m0, refs@, refs0, *count as int, a, b as int, 0, 0),
            refs.wf(),
            0 <= a < 256,
            k3 < m0.pdpts@.len(),
            m0.pdpt_of(page_va(page_key(a, 0, 0, 0))) == Some(m0.pdpts@[k3 as int].1.entries@),
            forall|p: u64| #[trigger] count_of(refs0, p) + USER_PAGES <= usize::MAX,
        decreases ENTRIES_PER_TABLE - b,
    {
        let ghost va = page_va(page_key(a, b as int, 0, 0));
        let ghost t3 = m0.pdpts@[k3 as int].1.entries@;
        proof {
            lemma_page_indices(a, b as int, 0, 0);
            lemma_page_indices(a, 0, 0, 0);
            m0.lemma_same_walk(va, page_va(page_key(a, 0, 0, 0)));
        }
        assert(m.pdpts@[k3 as int].1.wf());
        let e3 = *m.pdpts[k3].1.get_entry(b);
        proof {
            assert(e3 == t3[b as int]);
            assert(store_view(m0.pdpts@)[k3 as int].1[b as int] == e3);
        }
        if e3.is_present() {
            proof {
                lemma_lookup_stored(store_view(m.pds@), e3.spec_addr());
            }
            let k2 = match find_table(&m.pds, e3.addr()) {
                Some(k) => k,
                None => {
                    proof {
                        assert(false);
                    }
                    0
                },
            };
            proof {
                assert(m0.pd_of(va) == Some(m0.pds@[k2 as int].1.entries@));
            }
            cow_pd_table(m, refs, count, k2, Ghost(m0), Ghost(refs0), Ghost(a), Ghost(b as int));
        } else {
            proof {
                let k = page_key(a, b as int, 0, 0);
                assert forall|j: int| k <= j < page_key(a, b + 1, 0, 0) implies !#[trigger] m0.cow_candidate(j) by {
                    lemma_key_in_pd(j, a, b as int);
                    m0.lemma_same_walk(page_va(j), va);
                    m0.lemma_leaf_via_pt(page_va(j));
                }
                assert forall|v: u64| #[trigger] walked_before(v, a, b + 1, 0, 0) == (walked_before(v, a, b as int, 0, 0) || (
                walked_before(v, a, b + 1, 0, 0) && m0.leaf(v) is None)) by {
                    if walked_before(v, a, b + 1, 0, 0) && !walked_before(v, a, b as int, 0, 0) {
                        lemma_indices(v);
                        m0.lemma_same_walk(v, va);
                        m0.lemma_leaf_via_pt(v);
                    }
                }
                lemma_progress_skip(*m, m0, refs@, refs0, *count as int, a, b as int, 0, 0, a, b + 1, 0, 0);
            }
        }
        b = b + 1;
    }
    proof {
        assert forall|v: u64| walked_before(v, a, 512, 0, 0) == #[trigger] walked_before(v, a + 1, 0, 0, 0) by {
            lemma_indices(v);
        }
        lemma_progress_moves(*m, m0, refs@, refs0, *count as int, a, 512, 0, 0, a + 1, 0, 0, 0);
    }
}

/// Mark every writable page of the user half (root entries 0..256) of `m`
/// copy-on-write: the entry loses WRITABLE and gains COW, and its frame
/// gains a reference in `refs`. Returns the number of pages marked.
/// Tables, the kernel half and pages that are not writable stay as they
/// were.
pub fn mark_user_pages_cow(m: &mut PageMapper, refs: &mut PageRefcount) -> (r: Result<usize, &'static str>)
    requires
        old(m).wf(),
        old(refs).wf(),
        forall|p: u64| #[trigger] count_of(old(refs)@, p) + USER_PAGES <= usize::MAX,
    ensures
        final(m).wf(),
        final(m).root() == old(m).root(),
        forall|t: u64| #[trigger] final(m).holds_table(t) == old(m).holds_table(t),
        forall|v: u64| #[trigger]
            final(m).leaf(v) == (if pml4_index(v) < 256 { cow_leaf(old(m).leaf(v)) } else { old(m).leaf(v) }),
        final(refs).wf(),
        r == Ok::<usize, &'static str>(old(m).cow_pages(USER_PAGES as int).len() as usize),
        forall|p: u64| #[trigger]
            count_of(final(refs)@, p) == count_of(old(refs)@, p) + old(m).cow_pages_of(USER_PAGES as int, p).len(),
        forall|p: u64| #[trigger]
            final(refs)@.contains_key(p) == (old(refs)@.contains_key(p) || old(m).cow_pages_of(USER_PAGES as int, p).len()
                > 0),
{
    let ghost m0 = *m;
    let ghost refs0 = refs@;
    let mut count: usize = 0;
    proof {
        assert(m0.cow_pages(0) =~= Set::<int>::empty());
        assert forall|p: u64| #[trigger] m0.cow_pages_of(0, p) == Set::<int>::empty() by {
            assert(m0.cow_pages_of(0, p) =~= Set::<int>::empty());
        }
        assert forall|v: u64| #[trigger] m.leaf(v) == (if walked_before(v, 0, 0, 0, 0) {
            cow_leaf(m0.leaf(v))
        } else {
            m0.leaf(v)
        }) by {
            lemma_indices(v);
        }
    }
    let mut a: usize = 0;
    while a < ENTRIES_PER_TABLE / 2
        invariant
            m0.wf(),
            a <= ENTRIES_PER_TABLE / 2,
            cow_progress(*m, m0, refs@, refs0, count as int, a as int, 0, 0, 0),
            refs.wf(),
            forall|p: u64| #[trigger] count_of(refs0, p) + USER_PAGES <= usize::MAX,
        decreases ENTRIES_PER_TABLE / 2 - a,
    {
        let ghost va = page_va(page_key(a as int, 0, 0, 0));
        proof {
            lemma_page_indices(a as int, 0, 0, 0);
        }
        let e4 = *m.pml4.get_entry(a);
        proof {
            assert(m0.levels()[0].1[a as int] == e4);
        }
        if e4.is_present() {
            proof {
                lemma_lookup_stored(store_view(m.pdpts@), e4.spec_addr());
            }
            let k3 = match find_table(&m.pdpts, e4.addr()) {
                Some(k) => k,
                None => {
                    proof {
                        assert(false);
                    }
                    0
                },
            };
            proof {
                assert(m0.pdpt_of(va) == Some(m0.pdpts@[k3 as int].1.entries@));
            }
            cow_pdpt_table(m, refs, &mut count, k3, Ghost(m0), Ghost(refs0), Ghost(a as int));
        } else {
            proof {
                let k = page_key(a as int, 0, 0, 0);
                assert forall|j: int| k <= j < page_key(a + 1, 0, 0, 0) implies !#[trigger] m0.cow_candidate(j) by {
                    lemma_key_in_pdpt(j, a as int);
                    m0.lemma_same_walk(page_va(j), va);
                    m0.lemma_leaf_via_pt(page_va(j));
                }
                assert forall|v: u64| #[trigger] walked_before(v, a + 1, 0, 0, 0) == (walked_before(v, a as int, 0, 0, 0) || (
                walked_before(v, a + 1, 0, 0, 0) && m0.leaf(v) is None)) by {
                    if walked_before(v, a + 1, 0, 0, 0) && !walked_before(v, a as int, 0, 0, 0) {
                        lemma_indices(v);
                        m0.lemma_same_walk(v, va);
                        m0.lemma_leaf_via_pt(v);
                    }
                }
                lemma_progress_skip(*m, m0, refs@, refs0, count as int, a as int, 0, 0, 0, a + 1, 0, 0, 0);
            }
        }
        a = a + 1;
    }
    proof {
        assert forall|v: u64| #[trigger]
            m.leaf(v) == (if pml4_index(v) < 256 { cow_leaf(m0.leaf(v)) } else { m0.leaf(v) }) by {
            lemma_indices(v);
        }
        let p1 = store_view(m.pts@);
        let q1 = store_view(m0.pts@);
        assert forall|x: u64| #[trigger] stored(p1, x) == stored(q1, x) by {
            if stored(p1, x) {
                let j = choose|j: int| 0 <= j < p1.len() && p1[j].0 == x;
                assert(q1[j].0 == x);
            }
            if stored(q1, x) {
                let j = choose|j: int| 0 <= j < q1.len() && q1[j].0 == x;
                assert(p1[j].0 == x);
            }
        }
        assert(page_key(256, 0, 0, 0) == USER_PAGES);
    }
    Ok(count)
}

} // verus!

verus! {

/// Copy-on-write marking keeps every translation and leaves no user page
/// writable: for a mapper `m1` whose leaves are those of `m0` with the
/// user half marked, each address translates as before, a user page is
/// not writable, and a page marked is copy-on-write.
pub proof fn lemma_cow_marking_keeps_translation(m0: &PageMapper, m1: &PageMapper, v: u64)
    requires
        m1.leaf(v) == (if pml4_index(v) < 256 { cow_leaf(m0.leaf(v)) } else { m0.leaf(v) }),
    ensures
        m1.spec_translate(v) == m0.spec_translate(v),
        pml4_index(v) < 256 && m1.leaf(v) is Some ==> !has_bits(m1.leaf(v)->Some_0.0, WRITABLE),
        pml4_index(v) < 256 && m0.leaf(v) is Some && has_bits(m0.leaf(v)->Some_0.0, WRITABLE) ==> has_bits(
            m1.leaf(v)->Some_0.0,
            COW,
        ),
{
    if m0.leaf(v) is Some {
        let raw = m0.leaf(v)->Some_0.0;
        assert(((raw | 0x200u64) & !0x2u64) & 0x000F_FFFF_FFFF_F000u64 == raw & 0x000F_FFFF_FFFF_F000u64
            && ((raw | 0x200u64) & !0x2u64) & 0x2u64 == 0 && ((raw | 0x200u64) & !0x2u64) & 0x200u64 != 0)
            by (bit_vector);
    }
}

} // verus!

verus! {

/// Copy the kernel half (entries 256..512) of the kernel's root table
/// `template` into root table `dest`; the user half of `dest` stays.
///
/// Error: there is no template yet (`dest` is then unchanged).
pub fn copy_kernel_mappings(dest: &mut PageTable, template: Option<&PageTable>) -> (r: Result<(), &'static str>)
    requires
        old(dest).wf(),
        template matches Some(t) ==> t.wf(),
    ensures
        final(dest).wf(),
        template is None ==> (r matches Err(e) && e@ == "Kernel template not initialized"@) && *final(dest) == *old(dest),
        template is Some ==> r is Ok,
        template matches Some(template) ==> forall|i: int|
            0 <= i < ENTRIES_PER_TABLE ==> #[trigger] final(dest).entries@[i] == if i < ENTRIES_PER_TABLE / 2 {
                old(dest).entries@[i]
            } else {
                template.entries@[i]
            },
{
    let template = match template {
        Some(t) => t,
        None => {
            return Err("Kernel template not initialized");
        },
    };
    let mut i: usize = ENTRIES_PER_TABLE / 2;
    while i < ENTRIES_PER_TABLE
        invariant
            ENTRIES_PER_TABLE / 2 <= i <= ENTRIES_PER_TABLE,
            dest.wf(),
            template.wf(),
            forall|j: int|
                0 <= j < ENTRIES_PER_TABLE ==> #[trigger] dest.entries@[j] == if j < ENTRIES_PER_TABLE / 2 || j >= i {
                    old(dest).entries@[j]
                } else {
                    template.entries@[j]
                },
        decreases ENTRIES_PER_TABLE - i,
    {
        let e = *template.get_entry(i);
        let slot = dest.get_entry_mut(i);
        *slot = e;
        i = i + 1;
    }
    Ok(())
}

} // verus!

verus! {

/// The leaf reached from last-level table `a` at index `i1`.
pub open spec fn walk1(p1: Seq<(u64, Seq<PageTableEntry>)>, a: u64, i1: int) -> Option<(u64, u64)> {
    match lookup(p1, a) {
        None => None,
        Some(t1) => if t1[i1].spec_present() {
            Some((t1[i1].0, 0xfffu64))
        } else {
            None
        },
    }
}

/// The leaf reached from level-2 table `a` at indices `i2`, `i1`.
pub open spec fn walk2(
    p2: Seq<(u64, Seq<PageTableEntry>)>,
    p1: Seq<(u64, Seq<PageTableEntry>)>,
    a: u64,
    i2: int,
    i1: int,
) -> Option<(u64, u64)> {
    match lookup(p2, a) {
        None => None,
        Some(t2) => {
            let e2 = t2[i2];
            if !e2.spec_present() {
                None
            } else if has_bits(e2.0, HUGE) {
                Some((e2.0, 0x1f_ffffu64))
            } else {
                walk1(p1, e2.spec_addr(), i1)
            }
        },
    }
}

/// The leaf reached from level-3 table `a` at indices `i3`, `i2`, `i1`.
pub open spec fn walk3(
    p3: Seq<(u64, Seq<PageTableEntry>)>,
    p2: Seq<(u64, Seq<PageTableEntry>)>,
    p1: Seq<(u64, Seq<PageTableEntry>)>,
    a: u64,
    i3: int,
    i2: int,
    i1: int,
) -> Option<(u64, u64)> {
    match lookup(p3, a) {
        None => None,
        Some(t3) => {
            let e3 = t3[i3];
            if !e3.spec_present() {
                None
            } else if has_bits(e3.0, HUGE) {
                Some((e3.0, 0x3fff_ffffu64))
            } else {
                walk2(p2, p1, e3.spec_addr(), i2, i1)
            }
        },
    }
}

impl PageMapper {
    /// The leaf of `va` is the walk from the level-3 table its root entry
    /// points to.
    proof fn lemma_leaf_walk(&self, va: u64)
        ensures
            self.leaf(va) == (if self.pml4.entries@[pml4_index(va)].spec_present() {
                walk3(
                    store_view(self.pdpts@),
                    store_view(self.pds@),
                    store_view(self.pts@),
                    self.pml4.entries@[pml4_index(va)].spec_addr(),
                    pdpt_index(va),
                    pd_index(va),
                    pt_index(va),
                )
            } else {
                None
            }),
    {
    }
}

/// `a` is a prefix of `b`.
spec fn prefix_of(a: Seq<(u64, PageTable)>, b: Seq<(u64, PageTable)>) -> bool {
    a.len() <= b.len() && forall|j: int| 0 <= j < a.len() ==> #[trigger] b[j] == a[j]
}

/// `c2` holds `c`'s tables, and maybe more.
spec fn extends(c: PageMapper, c2: PageMapper) -> bool {
    &&& c2.pml4_phys == c.pml4_phys
    &&& prefix_of(c.pdpts@, c2.pdpts@)
    &&& prefix_of(c.pds@, c2.pds@)
    &&& prefix_of(c.pts@, c2.pts@)
}

/// A lookup of an address stored in a prefix finds the same table in the
/// longer store.
proof fn lemma_prefix_lookup(a: Seq<(u64, PageTable)>, b: Seq<(u64, PageTable)>, x: u64)
    requires
        prefix_of(a, b),
        unique_addrs(store_view(b)),
        stored(store_view(a), x),
    ensures
        lookup(store_view(b), x) == lookup(store_view(a), x),
        stored(store_view(b), x),
{
    let k = choose|k: int| 0 <= k < store_view(a).len() && store_view(a)[k].0 == x;
    assert(b[k] == a[k]);
    assert(unique_addrs(store_view(a))) by {
        assert forall|i: int, j: int|
            0 <= i < store_view(a).len() && 0 <= j < store_view(a).len() && i != j implies store_view(a)[i].0
            != store_view(a)[j].0 by {
            assert(b[i] == a[i] && b[j] == a[j]);
            assert(store_view(b)[i].0 != store_view(b)[j].0);
        }
    }
    lemma_lookup_index(store_view(a), k);
    lemma_lookup_index(store_view(b), k);
    assert(store_view(b)[k].0 == x);
}

/// Extending a well-formed mapper keeps every walk from its tables.
proof fn lemma_extends_walk(c: PageMapper, c2: PageMapper)
    requires
        c.wf(),
        c2.wf(),
        extends(c, c2),
    ensures
        forall|x: u64, i1: int|
            stored(store_view(c.pts@), x) && 0 <= i1 < ENTRIES_PER_TABLE ==> #[trigger] walk1(
                store_view(c2.pts@),
                x,
                i1,
            ) == walk1(store_view(c.pts@), x, i1),
        forall|x: u64, i2: int, i1: int|
            stored(store_view(c.pds@), x) && 0 <= i2 < ENTRIES_PER_TABLE && 0 <= i1 < ENTRIES_PER_TABLE
                ==> #[trigger] walk2(store_view(c2.pds@), store_view(c2.pts@), x, i2, i1) == walk2(
                store_view(c.pds@),
                store_view(c.pts@),
                x,
                i2,
                i1,
            ),
        forall|x: u64, i3: int, i2: int, i1: int|
            stored(store_view(c.pdpts@), x) && 0 <= i3 < ENTRIES_PER_TABLE && 0 <= i2 < ENTRIES_PER_TABLE && 0 <= i1
                < ENTRIES_PER_TABLE ==> #[trigger] walk3(
                store_view(c2.pdpts@),
                store_view(c2.pds@),
                store_view(c2.pts@),
                x,
                i3,
                i2,
                i1,
            ) == walk3(store_view(c.pdpts@), store_view(c.pds@), store_view(c.pts@), x, i3, i2, i1),
{
    let p3 = store_view(c.pdpts@);
    let p2 = store_view(c.pds@);
    let p1 = store_view(c.pts@);
    assert forall|x: u64, i1: int|
        stored(p1, x) && 0 <= i1 < ENTRIES_PER_TABLE implies #[trigger] walk1(store_view(c2.pts@), x, i1) == walk1(
        p1,
        x,
        i1,
    ) by {
        lemma_prefix_lookup(c.pts@, c2.pts@, x);
    }
    assert forall|x: u64, i2: int, i1: int|
        stored(p2, x) && 0 <= i2 < ENTRIES_PER_TABLE && 0 <= i1 < ENTRIES_PER_TABLE implies #[trigger] walk2(
        store_view(c2.pds@),
        store_view(c2.pts@),
        x,
        i2,
        i1,
    ) == walk2(p2, p1, x, i2, i1) by {
        lemma_prefix_lookup(c.pds@, c2.pds@, x);
        lemma_lookup_stored(p2, x);
        let t2 = lookup(p2, x)->Some_0;
        if t2[i2].spec_present() {
            lemma_found_links(p2, p1, x, i2);
            lemma_prefix_lookup(c.pts@, c2.pts@, t2[i2].spec_addr());
        }
    }
    assert forall|x: u64, i3: int, i2: int, i1: int|
        stored(p3, x) && 0 <= i3 < ENTRIES_PER_TABLE && 0 <= i2 < ENTRIES_PER_TABLE && 0 <= i1 < ENTRIES_PER_TABLE
            implies #[trigger] walk3(store_view(c2.pdpts@), store_view(c2.pds@), store_view(c2.pts@), x, i3, i2, i1)
        == walk3(p3, p2, p1, x, i3, i2, i1) by {
        lemma_prefix_lookup(c.pdpts@, c2.pdpts@, x);
        lemma_lookup_stored(p3, x);
        let t3 = lookup(p3, x)->Some_0;
        if t3[i3].spec_present() {
            lemma_found_links(p3, p2, x, i3);
            let y = t3[i3].spec_addr();
            lemma_prefix_lookup(c.pds@, c2.pds@, y);
            lemma_lookup_stored(p2, y);
            let t2 = lookup(p2, y)->Some_0;
            if t2[i2].spec_present() {
                lemma_found_links(p2, p1, y, i2);
                lemma_prefix_lookup(c.pts@, c2.pts@, t2[i2].spec_addr());
            }
        }
    }
}

} // verus!

verus! {

/// An extension holds every table of the mapper it extends.
proof fn lemma_extends_holds(c0: PageMapper, c: PageMapper)
    requires
        extends(c0, c),
        c.wf(),
    ensures
        forall|x: u64| #[trigger] c0.holds_table(x) ==> c.holds_table(x),
{
    assert forall|x: u64| #[trigger] c0.holds_table(x) implies c.holds_table(x) by {
        if stored(store_view(c0.pdpts@), x) {
            lemma_prefix_lookup(c0.pdpts@, c.pdpts@, x);
        }
        if stored(store_view(c0.pds@), x) {
            lemma_prefix_lookup(c0.pds@, c.pds@, x);
        }
        if stored(store_view(c0.pts@), x) {
            lemma_prefix_lookup(c0.pts@, c.pts@, x);
        }
    }
}

/// Present entries of `z` point to distinct addresses.
spec fn own_targets_distinct(z: Seq<PageTableEntry>) -> bool {
    forall|i: int, j: int|
        0 <= i < ENTRIES_PER_TABLE && 0 <= j < ENTRIES_PER_TABLE && i != j && (#[trigger] z[i]).spec_present()
            && (#[trigger] z[j]).spec_present() ==> z[i].spec_addr() != z[j].spec_addr()
}

/// No present entry of `z` points where a present entry of the tables does.
spec fn targets_apart(z: Seq<PageTableEntry>, t: Seq<(u64, Seq<PageTableEntry>)>) -> bool {
    forall|i: int, k: int, j: int|
        0 <= i < ENTRIES_PER_TABLE && 0 <= k < t.len() && 0 <= j < ENTRIES_PER_TABLE && (#[trigger] z[i]).spec_present()
            && (#[trigger] t[k].1[j]).spec_present() ==> z[i].spec_addr() != t[k].1[j].spec_addr()
}

/// Every entry of `z` is a table pointer into `next` or absent.
spec fn all_point_into(z: Seq<PageTableEntry>, next: Seq<(u64, Seq<PageTableEntry>)>) -> bool {
    forall|i: int| 0 <= i < ENTRIES_PER_TABLE ==> points_into(#[trigger] z[i], next)
}

/// Adding a table whose targets are distinct and apart from the others'
/// keeps targets distinct.
proof fn lemma_distinct_push_apart(t: Seq<(u64, Seq<PageTableEntry>)>, a: u64, z: Seq<PageTableEntry>)
    requires
        distinct_targets(t),
        own_targets_distinct(z),
        targets_apart(z, t),
    ensures
        distinct_targets(t.push((a, z))),
{
    let u = t.push((a, z));
    assert forall|k1: int, i1: int, k2: int, i2: int|
        0 <= k1 < u.len() && 0 <= i1 < ENTRIES_PER_TABLE && 0 <= k2 < u.len() && 0 <= i2 < ENTRIES_PER_TABLE && (k1
            != k2 || i1 != i2) && (#[trigger] u[k1].1[i1]).spec_present() && (#[trigger] u[k2].1[i2]).spec_present()
            implies u[k1].1[i1].spec_addr() != u[k2].1[i2].spec_addr() by {
        if k1 < t.len() {
            assert(u[k1] == t[k1]);
        }
        if k2 < t.len() {
            assert(u[k2] == t[k2]);
        }
        if k1 == t.len() && k2 < t.len() {
            assert(z[i1] == u[k1].1[i1]);
        }
        if k2 == t.len() && k1 < t.len() {
            assert(z[i2] == u[k2].1[i2]);
        }
    }
}

/// Adding a table whose entries point into `next` keeps the links.
proof fn lemma_links_push(
    t: Seq<(u64, Seq<PageTableEntry>)>,
    next: Seq<(u64, Seq<PageTableEntry>)>,
    a: u64,
    z: Seq<PageTableEntry>,
)
    requires
        links_to(t, next),
        all_point_into(z, next),
    ensures
        links_to(t.push((a, z)), next),
{
    let u = t.push((a, z));
    assert forall|k: int, i: int|
        0 <= k < u.len() && 0 <= i < ENTRIES_PER_TABLE && (#[trigger] u[k].1[i]).spec_present() implies !has_bits(
        u[k].1[i].0,
        HUGE,
    ) && stored(next, u[k].1[i].spec_addr()) by {
        if k < t.len() {
            assert(u[k] == t[k]);
        } else {
            assert(points_into(z[i], next));
        }
    }
}

/// The addresses stored after a push are the old ones and the new one.
proof fn lemma_stored_push(t: Seq<(u64, Seq<PageTableEntry>)>, a: u64, z: Seq<PageTableEntry>)
    ensures
        forall|x: u64| #[trigger] stored(t.push((a, z)), x) == (stored(t, x) || x == a),
{
    let u = t.push((a, z));
    assert forall|x: u64| #[trigger] stored(u, x) == (stored(t, x) || x == a) by {
        if stored(t, x) {
            let i = choose|i: int| 0 <= i < t.len() && t[i].0 == x;
            assert(u[i].0 == x);
        }
        if x == a {
            assert(u[t.len() as int].0 == a);
        }
        if stored(u, x) {
            let i = choose|i: int| 0 <= i < u.len() && u[i].0 == x;
            if i < t.len() {
                assert(t[i].0 == x);
            }
        }
    }
}

impl PageMapper {
    /// Storing any last-level table at a fresh address keeps the mapper
    /// well-formed.
    proof fn lemma_push1_any(old_m: &PageMapper, new_m: &PageMapper, a: u64, t: PageTable)
        requires
            old_m.wf(),
            old_m.fresh_addr(a),
            t.wf(),
            new_m.pml4_phys == old_m.pml4_phys,
            new_m.pml4 == old_m.pml4,
            new_m.pdpts@ == old_m.pdpts@,
            new_m.pds@ == old_m.pds@,
            new_m.pts@ == old_m.pts@.push((a, t)),
        ensures
            new_m.wf(),
            forall|b: u64| #[trigger] new_m.holds_table(b) == (old_m.holds_table(b) || b == a),
            store_view(new_m.pts@) == store_view(old_m.pts@).push((a, t.entries@)),
            extends(*old_m, *new_m),
    {
        let p1 = store_view(old_m.pts@);
        let q1 = store_view(new_m.pts@);
        assert(q1 =~= p1.push((a, t.entries@)));
        lemma_stored_push(p1, a, t.entries@);
        lemma_links_grow(store_view(old_m.pds@), p1, q1);
        assert(store_view(new_m.pds@) == store_view(old_m.pds@));
        assert forall|b: u64| #[trigger] new_m.holds_table(b) == (old_m.holds_table(b) || b == a) by {}
    }

    /// Storing a level-2 table at a fresh address, its entries pointing
    /// into the last-level tables at targets of their own, keeps the mapper
    /// well-formed.
    proof fn lemma_push2_linked(old_m: &PageMapper, new_m: &PageMapper, a: u64, t: PageTable)
        requires
            old_m.wf(),
            old_m.fresh_addr(a),
            t.wf(),
            all_point_into(t.entries@, store_view(old_m.pts@)),
            own_targets_distinct(t.entries@),
            targets_apart(t.entries@, store_view(old_m.pds@)),
            new_m.pml4_phys == old_m.pml4_phys,
            new_m.pml4 == old_m.pml4,
            new_m.pdpts@ == old_m.pdpts@,
            new_m.pds@ == old_m.pds@.push((a, t)),
            new_m.pts@ == old_m.pts@,
        ensures
            new_m.wf(),
            forall|b: u64| #[trigger] new_m.holds_table(b) == (old_m.holds_table(b) || b == a),
            store_view(new_m.pds@) == store_view(old_m.pds@).push((a, t.entries@)),
            extends(*old_m, *new_m),
    {
        let p2 = store_view(old_m.pds@);
        let q2 = store_view(new_m.pds@);
        assert(q2 =~= p2.push((a, t.entries@)));
        lemma_stored_push(p2, a, t.entries@);
        lemma_links_grow(store_view(old_m.pdpts@), p2, q2);
        lemma_links_push(p2, store_view(old_m.pts@), a, t.entries@);
        lemma_distinct_push_apart(p2, a, t.entries@);
        assert(store_view(new_m.pdpts@) == store_view(old_m.pdpts@));
        assert(store_view(new_m.pts@) == store_view(old_m.pts@));
        assert forall|b: u64| #[trigger] new_m.holds_table(b) == (old_m.holds_table(b) || b == a) by {}
    }

    /// Storing a level-3 table at a fresh address, its entries pointing
    /// into the level-2 tables at targets of their own, keeps the mapper
    /// well-formed.
    proof fn lemma_push3_linked(old_m: &PageMapper, new_m: &PageMapper, a: u64, t: PageTable)
        requires
            old_m.wf(),
            old_m.fresh_addr(a),
            t.wf(),
            all_point_into(t.entries@, store_view(old_m.pds@)),
            own_targets_distinct(t.entries@),
            targets_apart(t.entries@, store_view(old_m.pdpts@)),
            new_m.pml4_phys == old_m.pml4_phys,
            new_m.pml4 == old_m.pml4,
            new_m.pdpts@ == old_m.pdpts@.push((a, t)),
            new_m.pds@ == old_m.pds@,
            new_m.pts@ == old_m.pts@,
        ensures
            new_m.wf(),
            forall|b: u64| #[trigger] new_m.holds_table(b) == (old_m.holds_table(b) || b == a),
            store_view(new_m.pdpts@) == store_view(old_m.pdpts@).push((a, t.entries@)),
            extends(*old_m, *new_m),
    {
        let p3 = store_view(old_m.pdpts@);
        let q3 = store_view(new_m.pdpts@);
        assert(q3 =~= p3.push((a, t.entries@)));
        lemma_stored_push(p3, a, t.entries@);
        lemma_links_grow(old_m.levels(), p3, q3);
        lemma_links_push(p3, store_view(old_m.pds@), a, t.entries@);
        lemma_distinct_push_apart(p3, a, t.entries@);
        assert(store_view(new_m.pds@) == store_view(old_m.pds@));
        assert(store_view(new_m.pts@) == store_view(old_m.pts@));
        assert forall|b: u64| #[trigger] new_m.holds_table(b) == (old_m.holds_table(b) || b == a) by {}
    }
}

} // verus!

verus! {

impl PageMapper {
    /// The tables of `self` at addresses of tables of `m` are those tables,
    /// at the same level; the other tables (and the root) are at addresses
    /// of no table of `m` and point only to such addresses.
    pub closed spec fn copies_from(&self, m: &PageMapper) -> bool {
        let c3 = store_view(self.pdpts@);
        let c2 = store_view(self.pds@);
        let c1 = store_view(self.pts@);
        &&& !m.holds_table(self.pml4_phys)
        &&& forall|x: u64|
            #![trigger stored(c1, x)]
            stored(c1, x) && m.holds_table(x) ==> stored(store_view(m.pts@), x) && lookup(c1, x) == lookup(
                store_view(m.pts@),
                x,
            )
        &&& forall|x: u64|
            #![trigger stored(c2, x)]
            stored(c2, x) && m.holds_table(x) ==> stored(store_view(m.pds@), x) && lookup(c2, x) == lookup(
                store_view(m.pds@),
                x,
            )
        &&& forall|x: u64|
            #![trigger stored(c3, x)]
            stored(c3, x) && m.holds_table(x) ==> stored(store_view(m.pdpts@), x) && lookup(c3, x) == lookup(
                store_view(m.pdpts@),
                x,
            )
        &&& forall|k: int, j: int|
            0 <= k < c2.len() && 0 <= j < ENTRIES_PER_TABLE && !m.holds_table(c2[k].0) && (#[trigger] c2[k].1[j]).spec_present()
                ==> !m.holds_table(c2[k].1[j].spec_addr())
        &&& forall|k: int, j: int|
            0 <= k < c3.len() && 0 <= j < ENTRIES_PER_TABLE && !m.holds_table(c3[k].0) && (#[trigger] c3[k].1[j]).spec_present()
                ==> !m.holds_table(c3[k].1[j].spec_addr())
    }
}

/// Table pointers among the first `n` entries of `t`.
pub open spec fn count_links(t: Seq<PageTableEntry>, n: int) -> nat
    decreases n,
{
    if n <= 0 {
        0
    } else {
        count_links(t, n - 1) + if t[n - 1].spec_present() && !has_bits(t[n - 1].0, HUGE) {
            1nat
        } else {
            0nat
        }
    }
}

/// Frames a copy of level-2 table `t2` takes: its own and one per
/// last-level table under it.
pub open spec fn pd_copy_frames(t2: Seq<PageTableEntry>) -> nat {
    1 + count_links(t2, ENTRIES_PER_TABLE as int)
}

proof fn lemma_count_links_mono(t: Seq<PageTableEntry>, a: int, b: int)
    requires
        a <= b,
    ensures
        count_links(t, a) <= count_links(t, b),
    decreases b - a,
{
    if a < b {
        lemma_count_links_mono(t, a, b - 1);
    }
}

/// An entry built from `addr` and the low flag bits of `like`: present and
/// huge as `like` is, at address `addr`.
fn link_entry(addr: PhysAddr, like: PageTableEntry) -> (r: PageTableEntry)
    requires
        table_addr_ok(addr),
    ensures
        r.spec_present() == like.spec_present(),
        has_bits(r.0, HUGE) == has_bits(like.0, HUGE),
        r.spec_addr() == addr,
{
    let mut e = PageTableEntry::new();
    e.set(addr, PageTableFlags(like.raw() & 0xfff));
    proof {
        let x = like.0;
        assert((x & 0xfffu64) & 0x000F_FFFF_FFFF_F000u64 == 0 && ((x & 0xfffu64) & 0x1u64 != 0) == (x & 0x1u64 != 0)
            && ((x & 0xfffu64) & 0x80u64 != 0) == (x & 0x80u64 != 0)) by (bit_vector);
        lemma_frame_addr(addr, x & 0xfffu64);
    }
    e
}

/// Copy the entries of `src` into a table in a frame taken from `pmm`;
/// returns the frame's address and the copy.
///
/// Error: no frame is free.
pub fn clone_page_table(src: &PageTable, pmm: &mut PhysicalMemoryManager) -> (r: Result<(PhysAddr, PageTable), &'static str>)
    requires
        src.wf(),
        old(pmm).wf(),
    ensures
        final(pmm).wf(),
        final(pmm).total() == old(pmm).total(),
        r is Err <==> old(pmm).free() == 0,
        r matches Err(e) ==> e@ == "Out of physical memory"@ && final(pmm).free() == old(pmm).free()
            && forall|g: int| #[trigger] final(pmm).is_free(g) == old(pmm).is_free(g),
        r matches Ok((a, t)) ==> {
            &&& t.wf()
            &&& t.entries@ == src.entries@
            &&& a as int % 4096 == 0
            &&& a as int / 4096 < old(pmm).total()
            &&& old(pmm).is_free(a as int / 4096)
            &&& !final(pmm).is_free(a as int / 4096)
            &&& forall|g: int| g != a as int / 4096 ==> #[trigger] final(pmm).is_free(g) == old(pmm).is_free(g)
            &&& final(pmm).free() + 1 == old(pmm).free()
        },
{
    let a = match alloc_page_table(pmm) {
        Ok(a) => a,
        Err(e) => {
            return Err(e);
        },
    };
    let mut entries: Vec<PageTableEntry> = Vec::new();
    let mut i: usize = 0;
    while i < ENTRIES_PER_TABLE
        invariant
            src.wf(),
            i <= ENTRIES_PER_TABLE,
            entries@ == src.entries@.subrange(0, i as int),
        decreases ENTRIES_PER_TABLE - i,
    {
        entries.push(*src.get_entry(i));
        i = i + 1;
    }
    assert(entries@ =~= src.entries@);
    Ok((a, PageTable { entries }))
}

} // verus!

verus! {

/// Entry `e` of a copy stands for entry `src` of the original: absent when
/// `src` is, else a table pointer to a table added to the copy (stored in
/// `now`, not in `before`, not a table of `m`) holding what `src`'s table
/// holds in `orig`.
spec fn copied_link(
    e: PageTableEntry,
    src: PageTableEntry,
    now: Seq<(u64, Seq<PageTableEntry>)>,
    before: Seq<(u64, Seq<PageTableEntry>)>,
    orig: Seq<(u64, Seq<PageTableEntry>)>,
    m: &PageMapper,
) -> bool {
    if src.spec_present() {
        &&& e.spec_present()
        &&& !has_bits(e.0, HUGE)
        &&& stored(now, e.spec_addr())
        &&& !stored(before, e.spec_addr())
        &&& !m.holds_table(e.spec_addr())
        &&& lookup(now, e.spec_addr()) == lookup(orig, src.spec_addr())
    } else {
        e.0 == 0
    }
}

impl PageMapper {
    /// Adding a last-level table at an address that is no table of `m`
    /// keeps the copy relation and the reservation of the tables.
    proof fn lemma_copy_push1(cb: &PageMapper, c: &PageMapper, m: &PageMapper, a: u64, t: PageTable, pmm: &PhysicalMemoryManager)
        requires
            cb.wf(),
            cb.copies_from(m),
            cb.reserved_in(pmm),
            !m.holds_table(a),
            !pmm.is_free(a as int / 4096),
            c.pml4_phys == cb.pml4_phys,
            c.pml4 == cb.pml4,
            c.pdpts@ == cb.pdpts@,
            c.pds@ == cb.pds@,
            c.pts@ == cb.pts@.push((a, t)),
            forall|b: u64| #[trigger] c.holds_table(b) == (cb.holds_table(b) || b == a),
            store_view(c.pts@) == store_view(cb.pts@).push((a, t.entries@)),
        ensures
            c.copies_from(m),
            c.reserved_in(pmm),
    {
        let c1 = store_view(cb.pts@);
        lemma_stored_push(c1, a, t.entries@);
        assert forall|x: u64| #![trigger stored(store_view(c.pts@), x)]
            stored(store_view(c.pts@), x) && m.holds_table(x) implies stored(store_view(m.pts@), x) && lookup(
            store_view(c.pts@),
            x,
        ) == lookup(store_view(m.pts@), x) by {
            lemma_lookup_push(c1, a, t.entries@, x);
            assert(stored(c1, x));
        }
        assert(store_view(c.pds@) == store_view(cb.pds@));
        assert(store_view(c.pdpts@) == store_view(cb.pdpts@));
        assert forall|b: u64| #[trigger] c.holds_table(b) implies !pmm.is_free(b as int / 4096) by {
            if b != a {
                assert(cb.holds_table(b));
            }
        }
    }
}

/// Copy level-2 table `k2` of `m` into `c`: a frame from `pmm` for it and
/// one for a copy of each last-level table under it. Returns the copy's
/// address.
fn clone_pd_level(m: &PageMapper, k2: usize, c: &mut PageMapper, pmm: &mut PhysicalMemoryManager) -> (r: Result<
    PhysAddr,
    &'static str,
>)
    requires
        m.wf(),
        old(c).wf(),
        old(pmm).wf(),
        m.reserved_in(old(pmm)),
        old(c).reserved_in(old(pmm)),
        old(c).copies_from(m),
        k2 < m.pds@.len(),
    ensures
        final(c).wf(),
        final(pmm).wf(),
        final(pmm).total() == old(pmm).total(),
        extends(*old(c), *final(c)),
        final(c).pml4 == old(c).pml4,
        final(c).pdpts@ == old(c).pdpts@,
        final(c).reserved_in(final(pmm)),
        m.reserved_in(final(pmm)),
        final(c).copies_from(m),
        forall|g: int| !old(pmm).is_free(g) ==> !#[trigger] final(pmm).is_free(g),
        forall|y: u64|
            #[trigger] final(c).holds_table(y) && !old(c).holds_table(y) ==> old(pmm).is_free(y as int / 4096)
                && !m.holds_table(y),
        r is Ok <==> old(pmm).free() >= pd_copy_frames(m.pds@[k2 as int].1.entries@),
        r is Ok ==> final(pmm).free() + pd_copy_frames(m.pds@[k2 as int].1.entries@) == old(pmm).free(),
        r matches Err(e) ==> e@ == "Out of physical memory"@ && final(pmm).free() == 0,
        r matches Ok(a) ==> {
            &&& stored(store_view(final(c).pds@), a)
            &&& !old(c).holds_table(a)
            &&& !m.holds_table(a)
            &&& forall|i2: int, i1: int|
                0 <= i2 < ENTRIES_PER_TABLE && 0 <= i1 < ENTRIES_PER_TABLE ==> #[trigger] walk2(
                    store_view(final(c).pds@),
                    store_view(final(c).pts@),
                    a,
                    i2,
                    i1,
                ) == walk2(store_view(m.pds@), store_view(m.pts@), m.pds@[k2 as int].0, i2, i1)
        },
{
    let ghost c0 = *c;
    let ghost pmm0 = *pmm;
    let ghost t2 = m.pds@[k2 as int].1.entries@;
    let dst = match alloc_page_table(pmm) {
        Ok(a) => a,
        Err(e) => {
            return Err(e);
        },
    };
    proof {
        pmm0.lemma_total_bound();
        c0.lemma_alloc_fresh(&pmm0, dst);
        m.lemma_alloc_fresh(&pmm0, dst);
        assert forall|b: u64| #[trigger] c.holds_table(b) implies !pmm.is_free(b as int / 4096) by {
            assert(!pmm0.is_free(b as int / 4096));
        }
        assert forall|b: u64| #[trigger] m.holds_table(b) implies !pmm.is_free(b as int / 4096) by {
            assert(!pmm0.is_free(b as int / 4096));
        }
    }
    let mut t = PageTable::new();
    proof {
        lemma_zero_not_present();
    }
    let mut i: usize = 0;
    while i < ENTRIES_PER_TABLE
        invariant
            m.wf(),
            c.wf(),
            pmm.wf(),
            c0.wf(),
            c0 == *old(c),
            pmm0 == *old(pmm),
            i <= ENTRIES_PER_TABLE,
            k2 < m.pds@.len(),
            t2 == m.pds@[k2 as int].1.entries@,
            pmm.total() == pmm0.total(),
            extends(c0, *c),
            c.pml4 == c0.pml4,
            c.pdpts@ == c0.pdpts@,
            c.pds@ == c0.pds@,
            c.reserved_in(pmm),
            m.reserved_in(pmm),
            c.copies_from(m),
            forall|g: int| !pmm0.is_free(g) ==> !#[trigger] pmm.is_free(g),
            forall|y: u64|
                #[trigger] c.holds_table(y) && !c0.holds_table(y) ==> pmm0.is_free(y as int / 4096) && !m.holds_table(
                    y,
                ),
            table_addr_ok(dst),
            !c.holds_table(dst),
            !c0.holds_table(dst),
            !m.holds_table(dst),
            !pmm.is_free(dst as int / 4096),
            pmm0.is_free(dst as int / 4096),
            t.wf(),
            forall|j: int| i <= j < ENTRIES_PER_TABLE ==> (#[trigger] t.entries@[j]).0 == 0,
            forall|j: int|
                0 <= j < i ==> #[trigger] copied_link(
                    t.entries@[j],
                    t2[j],
                    store_view(c.pts@),
                    store_view(c0.pts@),
                    store_view(m.pts@),
                    m,
                ),
            own_targets_distinct(t.entries@),
            pmm.free() + 1 + count_links(t2, i as int) == pmm0.free(),
        decreases ENTRIES_PER_TABLE - i,
    {
        assert(m.pds@[k2 as int].1.wf());
        let e2 = *m.pds[k2].1.get_entry(i);
        proof {
            assert(store_view(m.pds@)[k2 as int].1[i as int] == e2);
            lemma_zero_not_present();
        }
        if e2.is_present() {
            proof {
                lemma_lookup_stored(store_view(m.pts@), e2.spec_addr());
            }
            let k1 = match find_table(&m.pts, e2.addr()) {
                Some(k) => k,
                None => {
                    proof {
                        assert(false);
                    }
                    return Err("Out of physical memory");
                },
            };
            let ghost cb = *c;
            let ghost pb = *pmm;
            assert(m.pts@[k1 as int].1.wf());
            let (a1, copy) = match clone_page_table(&m.pts[k1].1, pmm) {
                Ok(x) => x,
                Err(e) => {
                    proof {
                        lemma_count_links_mono(t2, i + 1, ENTRIES_PER_TABLE as int);
                    }
                    return Err(e);
                },
            };
            proof {
                pb.lemma_total_bound();
                cb.lemma_alloc_fresh(&pb, a1);
                m.lemma_alloc_fresh(&pb, a1);
            }
            c.pts.push((a1, copy));
            proof {
                PageMapper::lemma_push1_any(&cb, c, a1, copy);
                assert forall|b: u64| #[trigger] cb.holds_table(b) implies !pmm.is_free(b as int / 4096) by {
                    assert(!pb.is_free(b as int / 4096));
                }
                PageMapper::lemma_copy_push1(&cb, c, m, a1, copy, pmm);
                assert forall|b: u64| #[trigger] m.holds_table(b) implies !pmm.is_free(b as int / 4096) by {
                    assert(!pb.is_free(b as int / 4096));
                }
                lemma_stored_push(store_view(cb.pts@), a1, copy.entries@);
                PageMapper::lemma_found(m.pts@, k1 as int);
                lemma_lookup_push(store_view(cb.pts@), a1, copy.entries@, a1);
            }
            let e = link_entry(a1, e2);
            let ghost tb = t.entries@;
            t.set_entry(i, e);
            proof {
                assert forall|j: int|
                    0 <= j < i + 1 implies #[trigger] copied_link(
                    t.entries@[j],
                    t2[j],
                    store_view(c.pts@),
                    store_view(c0.pts@),
                    store_view(m.pts@),
                    m,
                ) by {
                    if j < i {
                        assert(t.entries@[j] == tb[j]);
                        assert(copied_link(tb[j], t2[j], store_view(cb.pts@), store_view(c0.pts@), store_view(m.pts@), m));
                        if t2[j].spec_present() {
                            lemma_lookup_push(store_view(cb.pts@), a1, copy.entries@, tb[j].spec_addr());
                        }
                    } else {
                        assert(!stored(store_view(c0.pts@), a1)) by {
                            if stored(store_view(c0.pts@), a1) {
                                assert(c0.holds_table(a1));
                                lemma_prefix_lookup(c0.pts@, cb.pts@, a1);
                                assert(cb.holds_table(a1));
                            }
                        }
                    }
                }
                assert forall|j1: int, j2: int|
                    0 <= j1 < ENTRIES_PER_TABLE && 0 <= j2 < ENTRIES_PER_TABLE && j1 != j2 && (#[trigger] t.entries@[j1]).spec_present()
                        && (#[trigger] t.entries@[j2]).spec_present() implies t.entries@[j1].spec_addr()
                    != t.entries@[j2].spec_addr() by {
                    if j1 != i && j2 != i {
                        assert(t.entries@[j1] == tb[j1] && t.entries@[j2] == tb[j2]);
                    } else if j1 == i {
                        if j2 >= i {
                            assert(t.entries@[j2] == tb[j2]);
                        } else {
                            assert(copied_link(tb[j2], t2[j2], store_view(cb.pts@), store_view(c0.pts@), store_view(m.pts@), m));
                            assert(stored(store_view(cb.pts@), tb[j2].spec_addr()));
                            assert(cb.holds_table(tb[j2].spec_addr()));
                        }
                    } else {
                        if j1 >= i {
                            assert(t.entries@[j1] == tb[j1]);
                        } else {
                            assert(copied_link(tb[j1], t2[j1], store_view(cb.pts@), store_view(c0.pts@), store_view(m.pts@), m));
                            assert(stored(store_view(cb.pts@), tb[j1].spec_addr()));
                            assert(cb.holds_table(tb[j1].spec_addr()));
                        }
                    }
                }
                assert(links_to(store_view(m.pds@), store_view(m.pts@)));
                assert(!has_bits(e2.0, HUGE));
                assert forall|y: u64|
                    #[trigger] c.holds_table(y) && !c0.holds_table(y) implies pmm0.is_free(y as int / 4096)
                        && !m.holds_table(y) by {
                    if y != a1 {
                        assert(cb.holds_table(y));
                    }
                }
                assert(!c.holds_table(dst));
            }
        } else {
            proof {
                assert forall|j: int|
                    0 <= j < i + 1 implies #[trigger] copied_link(
                    t.entries@[j],
                    t2[j],
                    store_view(c.pts@),
                    store_view(c0.pts@),
                    store_view(m.pts@),
                    m,
                ) by {}
            }
        }
        i = i + 1;
    }
    let ghost cb = *c;
    proof {
        assert forall|j: int| 0 <= j < ENTRIES_PER_TABLE implies points_into(#[trigger] t.entries@[j], store_view(cb.pts@)) by {
            assert(copied_link(t.entries@[j], t2[j], store_view(cb.pts@), store_view(c0.pts@), store_view(m.pts@), m));
            lemma_zero_not_present();
        }
        assert forall|j: int, k: int, jj: int|
            0 <= j < ENTRIES_PER_TABLE && 0 <= k < store_view(cb.pds@).len() && 0 <= jj < ENTRIES_PER_TABLE && (
            #[trigger] t.entries@[j]).spec_present() && (#[trigger] store_view(cb.pds@)[k].1[jj]).spec_present()
            implies t.entries@[j].spec_addr() != store_view(cb.pds@)[k].1[jj].spec_addr() by {
            assert(copied_link(t.entries@[j], t2[j], store_view(cb.pts@), store_view(c0.pts@), store_view(m.pts@), m));
            lemma_zero_not_present();
            lemma_unreferenced(store_view(c0.pds@), store_view(c0.pts@), t.entries@[j].spec_addr());
            assert(store_view(cb.pds@) == store_view(c0.pds@));
        }
        assert(cb.fresh_addr(dst));
    }
    c.pds.push((dst, t));
    proof {
        PageMapper::lemma_push2_linked(&cb, c, dst, t);
        let c2 = store_view(cb.pds@);
        lemma_stored_push(c2, dst, t.entries@);
        assert forall|x: u64| #![trigger stored(store_view(c.pds@), x)]
            stored(store_view(c.pds@), x) && m.holds_table(x) implies stored(store_view(m.pds@), x) && lookup(
            store_view(c.pds@),
            x,
        ) == lookup(store_view(m.pds@), x) by {
            lemma_lookup_push(c2, dst, t.entries@, x);
            assert(stored(c2, x));
        }
        let n2 = store_view(c.pds@);
        assert forall|k: int, j: int|
            0 <= k < n2.len() && 0 <= j < ENTRIES_PER_TABLE && !m.holds_table(n2[k].0) && (#[trigger] n2[k].1[j]).spec_present()
                implies !m.holds_table(n2[k].1[j].spec_addr()) by {
            if k < c2.len() {
                assert(n2[k] == c2[k]);
            } else {
                assert(n2[k].1 == t.entries@);
                assert(copied_link(t.entries@[j], t2[j], store_view(cb.pts@), store_view(c0.pts@), store_view(m.pts@), m));
                lemma_zero_not_present();
            }
        }
        assert(store_view(c.pts@) == store_view(cb.pts@));
        assert(store_view(c.pdpts@) == store_view(cb.pdpts@));
        assert forall|b: u64| #[trigger] c.holds_table(b) implies !pmm.is_free(b as int / 4096) by {
            if b != dst {
                assert(cb.holds_table(b));
            }
        }
        assert forall|y: u64|
            #[trigger] c.holds_table(y) && !c0.holds_table(y) implies pmm0.is_free(y as int / 4096) && !m.holds_table(y) by {
            if y != dst {
                assert(cb.holds_table(y));
            }
        }
        lemma_lookup_push(c2, dst, t.entries@, dst);
        PageMapper::lemma_found(m.pds@, k2 as int);
        assert forall|i2: int, i1: int|
            0 <= i2 < ENTRIES_PER_TABLE && 0 <= i1 < ENTRIES_PER_TABLE implies #[trigger] walk2(
            store_view(c.pds@),
            store_view(c.pts@),
            dst,
            i2,
            i1,
        ) == walk2(store_view(m.pds@), store_view(m.pts@), m.pds@[k2 as int].0, i2, i1) by {
            assert(copied_link(t.entries@[i2], t2[i2], store_view(cb.pts@), store_view(c0.pts@), store_view(m.pts@), m));
            lemma_zero_not_present();
            if t2[i2].spec_present() {
                assert(store_view(m.pds@)[k2 as int].1[i2] == t2[i2]);
            }
        }
        assert(!c0.holds_table(dst));
    }
    Ok(dst)
}

} // verus!

verus! {

/// Frames the copies of the level-2 tables under the first `n` entries of
/// level-3 table `t3` take.
pub open spec fn pd_copies_frames(p2: Seq<(u64, Seq<PageTableEntry>)>, t3: Seq<PageTableEntry>, n: int) -> nat
    decreases n,
{
    if n <= 0 {
        0
    } else {
        pd_copies_frames(p2, t3, n - 1) + if t3[n - 1].spec_present() && !has_bits(t3[n - 1].0, HUGE) {
            match lookup(p2, t3[n - 1].spec_addr()) {
                Some(t2) => pd_copy_frames(t2),
                None => 0,
            }
        } else {
            0
        }
    }
}

/// Frames a copy of level-3 table `t3` takes: its own and those of the
/// copies under it.
pub open spec fn pdpt_copy_frames(p2: Seq<(u64, Seq<PageTableEntry>)>, t3: Seq<PageTableEntry>) -> nat {
    1 + pd_copies_frames(p2, t3, ENTRIES_PER_TABLE as int)
}

proof fn lemma_pd_copies_mono(p2: Seq<(u64, Seq<PageTableEntry>)>, t3: Seq<PageTableEntry>, a: int, b: int)
    requires
        a <= b,
    ensures
        pd_copies_frames(p2, t3, a) <= pd_copies_frames(p2, t3, b),
    decreases b - a,
{
    if a < b {
        lemma_pd_copies_mono(p2, t3, a, b - 1);
    }
}

/// Entry `e` of a level-3 copy stands for entry `src` of the original:
/// absent when `src` is, else a pointer to a level-2 table added to the
/// copy `c` (not in `c0`, not a table of `m`) whose walks are those of
/// `src`'s table in `m`.
spec fn copied_link2(e: PageTableEntry, src: PageTableEntry, c: PageMapper, c0: PageMapper, m: &PageMapper) -> bool {
    if src.spec_present() {
        &&& e.spec_present()
        &&& !has_bits(e.0, HUGE)
        &&& stored(store_view(c.pds@), e.spec_addr())
        &&& !c0.holds_table(e.spec_addr())
        &&& !m.holds_table(e.spec_addr())
        &&& forall|i2: int, i1: int|
            0 <= i2 < ENTRIES_PER_TABLE && 0 <= i1 < ENTRIES_PER_TABLE ==> #[trigger] walk2(
                store_view(c.pds@),
                store_view(c.pts@),
                e.spec_addr(),
                i2,
                i1,
            ) == walk2(store_view(m.pds@), store_view(m.pts@), src.spec_addr(), i2, i1)
    } else {
        e.0 == 0
    }
}

/// Copy level-3 table `k3` of `m` into `c`, with copies of the tables
/// under it, in frames taken from `pmm`. Returns the copy's address.
fn clone_pdpt_level(m: &PageMapper, k3: usize, c: &mut PageMapper, pmm: &mut PhysicalMemoryManager) -> (r: Result<
    PhysAddr,
    &'static str,
>)
    requires
        m.wf(),
        old(c).wf(),
        old(pmm).wf(),
        m.reserved_in(old(pmm)),
        old(c).reserved_in(old(pmm)),
        old(c).copies_from(m),
        k3 < m.pdpts@.len(),
    ensures
        final(c).wf(),
        final(pmm).wf(),
        final(pmm).total() == old(pmm).total(),
        extends(*old(c), *final(c)),
        final(c).pml4 == old(c).pml4,
        final(c).reserved_in(final(pmm)),
        m.reserved_in(final(pmm)),
        final(c).copies_from(m),
        forall|g: int| !old(pmm).is_free(g) ==> !#[trigger] final(pmm).is_free(g),
        forall|y: u64|
            #[trigger] final(c).holds_table(y) && !old(c).holds_table(y) ==> old(pmm).is_free(y as int / 4096)
                && !m.holds_table(y),
        r is Ok <==> old(pmm).free() >= pdpt_copy_frames(store_view(m.pds@), m.pdpts@[k3 as int].1.entries@),
        r is Ok ==> final(pmm).free() + pdpt_copy_frames(store_view(m.pds@), m.pdpts@[k3 as int].1.entries@)
            == old(pmm).free(),
        r matches Err(e) ==> e@ == "Out of physical memory"@ && final(pmm).free() == 0,
        r matches Ok(a) ==> {
            &&& stored(store_view(final(c).pdpts@), a)
            &&& !old(c).holds_table(a)
            &&& !m.holds_table(a)
            &&& forall|i3: int, i2: int, i1: int|
                0 <= i3 < ENTRIES_PER_TABLE && 0 <= i2 < ENTRIES_PER_TABLE && 0 <= i1 < ENTRIES_PER_TABLE
                    ==> #[trigger] walk3(
                    store_view(final(c).pdpts@),
                    store_view(final(c).pds@),
                    store_view(final(c).pts@),
                    a,
                    i3,
                    i2,
                    i1,
                ) == walk3(
                    store_view(m.pdpts@),
                    store_view(m.pds@),
                    store_view(m.pts@),
                    m.pdpts@[k3 as int].0,
                    i3,
                    i2,
                    i1,
                )
        },
{
    let ghost c0 = *c;
    let ghost pmm0 = *pmm;
    let ghost t3 = m.pdpts@[k3 as int].1.entries@;
    let ghost m2 = store_view(m.pds@);
    let dst = match alloc_page_table(pmm) {
        Ok(a) => a,
        Err(e) => {
            return Err(e);
        },
    };
    proof {
        pmm0.lemma_total_bound();
        c0.lemma_alloc_fresh(&pmm0, dst);
        m.lemma_alloc_fresh(&pmm0, dst);
        assert forall|b: u64| #[trigger] c.holds_table(b) implies !pmm.is_free(b as int / 4096) by {
            assert(!pmm0.is_free(b as int / 4096));
        }
        assert forall|b: u64| #[trigger] m.holds_table(b) implies !pmm.is_free(b as int / 4096) by {
            assert(!pmm0.is_free(b as int / 4096));
        }
    }
    let mut t = PageTable::new();
    proof {
        lemma_zero_not_present();
    }
    let mut i: usize = 0;
    while i < ENTRIES_PER_TABLE
        invariant
            m.wf(),
            c.wf(),
            pmm.wf(),
            c0.wf(),
            c0 == *old(c),
            pmm0 == *old(pmm),
            i <= ENTRIES_PER_TABLE,
            k3 < m.pdpts@.len(),
            t3 == m.pdpts@[k3 as int].1.entries@,
            m2 == store_view(m.pds@),
            pmm.total() == pmm0.total(),
            extends(c0, *c),
            c.pml4 == c0.pml4,
            c.pdpts@ == c0.pdpts@,
            c.reserved_in(pmm),
            m.reserved_in(pmm),
            c.copies_from(m),
            forall|g: int| !pmm0.is_free(g) ==> !#[trigger] pmm.is_free(g),
            forall|y: u64|
                #[trigger] c.holds_table(y) && !c0.holds_table(y) ==> pmm0.is_free(y as int / 4096) && !m.holds_table(
                    y,
                ),
            table_addr_ok(dst),
            !c.holds_table(dst),
            !c0.holds_table(dst),
            !m.holds_table(dst),
            !pmm.is_free(dst as int / 4096),
            pmm0.is_free(dst as int / 4096),
            t.wf(),
            forall|j: int| i <= j < ENTRIES_PER_TABLE ==> (#[trigger] t.entries@[j]).0 == 0,
            forall|j: int| 0 <= j < i ==> #[trigger] copied_link2(t.entries@[j], t3[j], *c, c0, m),
            own_targets_distinct(t.entries@),
            pmm.free() + 1 + pd_copies_frames(m2, t3, i as int) == pmm0.free(),
        decreases ENTRIES_PER_TABLE - i,
    {
        assert(m.pdpts@[k3 as int].1.wf());
        let e3 = *m.pdpts[k3].1.get_entry(i);
        proof {
            assert(store_view(m.pdpts@)[k3 as int].1[i as int] == e3);
            lemma_zero_not_present();
        }
        if e3.is_present() {
            proof {
                lemma_lookup_stored(store_view(m.pds@), e3.spec_addr());
            }
            let k2 = match find_table(&m.pds, e3.addr()) {
                Some(k) => k,
                None => {
                    proof {
                        assert(false);
                    }
                    return Err("Out of physical memory");
                },
            };
            let ghost cb = *c;
            let ghost pb = *pmm;
            let a2 = match clone_pd_level(m, k2, c, pmm) {
                Ok(a) => a,
                Err(e) => {
                    proof {
                        lemma_pd_copies_mono(m2, t3, i + 1, ENTRIES_PER_TABLE as int);
                        assert(!has_bits(e3.0, HUGE));
                        assert forall|y: u64|
                            #[trigger] c.holds_table(y) && !c0.holds_table(y) implies pmm0.is_free(y as int / 4096)
                                && !m.holds_table(y) by {
                            if !cb.holds_table(y) {
                                assert(pb.is_free(y as int / 4096));
                            }
                        }
                    }
                    return Err(e);
                },
            };
            proof {
                lemma_extends_walk(cb, *c);
                assert(!has_bits(e3.0, HUGE));
                assert(prefix_of(c0.pdpts@, c.pdpts@));
            }
            let e = link_entry(a2, e3);
            let ghost tb = t.entries@;
            t.set_entry(i, e);
            proof {
                assert forall|j: int| 0 <= j < i + 1 implies #[trigger] copied_link2(t.entries@[j], t3[j], *c, c0, m) by {
                    if j < i {
                        assert(t.entries@[j] == tb[j]);
                        assert(copied_link2(tb[j], t3[j], cb, c0, m));
                        if t3[j].spec_present() {
                            let x = tb[j].spec_addr();
                            lemma_prefix_lookup(cb.pds@, c.pds@, x);
                            assert forall|i2: int, i1: int|
                                0 <= i2 < ENTRIES_PER_TABLE && 0 <= i1 < ENTRIES_PER_TABLE implies #[trigger] walk2(
                                store_view(c.pds@),
                                store_view(c.pts@),
                                x,
                                i2,
                                i1,
                            ) == walk2(store_view(m.pds@), store_view(m.pts@), t3[j].spec_addr(), i2, i1) by {
                                assert(walk2(store_view(cb.pds@), store_view(cb.pts@), x, i2, i1) == walk2(
                                    store_view(m.pds@),
                                    store_view(m.pts@),
                                    t3[j].spec_addr(),
                                    i2,
                                    i1,
                                ));
                            }
                        }
                    } else {
                        assert(m.pds@[k2 as int].0 == e3.spec_addr());
                        lemma_extends_holds(c0, cb);
                    }
                }
                assert forall|j1: int, j2: int|
                    0 <= j1 < ENTRIES_PER_TABLE && 0 <= j2 < ENTRIES_PER_TABLE && j1 != j2 && (#[trigger] t.entries@[j1]).spec_present()
                        && (#[trigger] t.entries@[j2]).spec_present() implies t.entries@[j1].spec_addr()
                    != t.entries@[j2].spec_addr() by {
                    if j1 != i && j2 != i {
                        assert(t.entries@[j1] == tb[j1] && t.entries@[j2] == tb[j2]);
                    } else if j1 == i {
                        if j2 >= i {
                            assert(t.entries@[j2] == tb[j2]);
                        } else {
                            assert(copied_link2(tb[j2], t3[j2], cb, c0, m));
                            assert(cb.holds_table(tb[j2].spec_addr()));
                        }
                    } else {
                        if j1 >= i {
                            assert(t.entries@[j1] == tb[j1]);
                        } else {
                            assert(copied_link2(tb[j1], t3[j1], cb, c0, m));
                            assert(cb.holds_table(tb[j1].spec_addr()));
                        }
                    }
                }
                assert forall|y: u64|
                    #[trigger] c.holds_table(y) && !c0.holds_table(y) implies pmm0.is_free(y as int / 4096)
                        && !m.holds_table(y) by {
                    if !cb.holds_table(y) {
                        assert(pb.is_free(y as int / 4096));
                    }
                }
                assert(lookup(m2, e3.spec_addr()) == Some(m.pds@[k2 as int].1.entries@));
                if c.holds_table(dst) {
                    assert(pb.is_free(dst as int / 4096));
                }
            }
        } else {
            proof {
                assert forall|j: int| 0 <= j < i + 1 implies #[trigger] copied_link2(t.entries@[j], t3[j], *c, c0, m) by {
                    if j == i {
                        assert(t3[j] == e3);
                        assert(t.entries@[j].0 == 0);
                        assert(!t3[j].spec_present());
                    } else {
                        assert(copied_link2(t.entries@[j], t3[j], *c, c0, m));
                    }
                }
            }
        }
        i = i + 1;
    }
    let ghost cb = *c;
    proof {
        assert forall|j: int| 0 <= j < ENTRIES_PER_TABLE implies points_into(#[trigger] t.entries@[j], store_view(cb.pds@)) by {
            assert(copied_link2(t.entries@[j], t3[j], cb, c0, m));
            lemma_zero_not_present();
        }
        assert forall|j: int, k: int, jj: int|
            0 <= j < ENTRIES_PER_TABLE && 0 <= k < store_view(cb.pdpts@).len() && 0 <= jj < ENTRIES_PER_TABLE && (
            #[trigger] t.entries@[j]).spec_present() && (#[trigger] store_view(cb.pdpts@)[k].1[jj]).spec_present()
            implies t.entries@[j].spec_addr() != store_view(cb.pdpts@)[k].1[jj].spec_addr() by {
            assert(copied_link2(t.entries@[j], t3[j], cb, c0, m));
            lemma_zero_not_present();
            lemma_unreferenced(store_view(c0.pdpts@), store_view(c0.pds@), t.entries@[j].spec_addr());
            assert(store_view(cb.pdpts@) == store_view(c0.pdpts@));
        }
        assert(cb.fresh_addr(dst));
    }
    c.pdpts.push((dst, t));
    proof {
        PageMapper::lemma_push3_linked(&cb, c, dst, t);
        let c3 = store_view(cb.pdpts@);
        lemma_stored_push(c3, dst, t.entries@);
        assert forall|x: u64| #![trigger stored(store_view(c.pdpts@), x)]
            stored(store_view(c.pdpts@), x) && m.holds_table(x) implies stored(store_view(m.pdpts@), x) && lookup(
            store_view(c.pdpts@),
            x,
        ) == lookup(store_view(m.pdpts@), x) by {
            lemma_lookup_push(c3, dst, t.entries@, x);
            assert(stored(c3, x));
        }
        let n3 = store_view(c.pdpts@);
        assert forall|k: int, j: int|
            0 <= k < n3.len() && 0 <= j < ENTRIES_PER_TABLE && !m.holds_table(n3[k].0) && (#[trigger] n3[k].1[j]).spec_present()
                implies !m.holds_table(n3[k].1[j].spec_addr()) by {
            if k < c3.len() {
                assert(n3[k] == c3[k]);
            } else {
                assert(n3[k].1 == t.entries@);
                assert(copied_link2(t.entries@[j], t3[j], cb, c0, m));
                lemma_zero_not_present();
            }
        }
        assert(store_view(c.pts@) == store_view(cb.pts@));
        assert(store_view(c.pds@) == store_view(cb.pds@));
        assert forall|b: u64| #[trigger] c.holds_table(b) implies !pmm.is_free(b as int / 4096) by {
            if b != dst {
                assert(cb.holds_table(b));
            }
        }
        assert forall|y: u64|
            #[trigger] c.holds_table(y) && !c0.holds_table(y) implies pmm0.is_free(y as int / 4096) && !m.holds_table(y) by {
            if y != dst {
                assert(cb.holds_table(y));
            }
        }
        lemma_lookup_push(c3, dst, t.entries@, dst);
        PageMapper::lemma_found(m.pdpts@, k3 as int);
        assert forall|i3: int, i2: int, i1: int|
            0 <= i3 < ENTRIES_PER_TABLE && 0 <= i2 < ENTRIES_PER_TABLE && 0 <= i1 < ENTRIES_PER_TABLE implies #[trigger] walk3(
            store_view(c.pdpts@),
            store_view(c.pds@),
            store_view(c.pts@),
            dst,
            i3,
            i2,
            i1,
        ) == walk3(store_view(m.pdpts@), store_view(m.pds@), store_view(m.pts@), m.pdpts@[k3 as int].0, i3, i2, i1) by {
            assert(copied_link2(t.entries@[i3], t3[i3], cb, c0, m));
            lemma_zero_not_present();
            if t3[i3].spec_present() {
                assert(store_view(m.pdpts@)[k3 as int].1[i3] == t3[i3]);
                assert(walk2(store_view(cb.pds@), store_view(cb.pts@), t.entries@[i3].spec_addr(), i2, i1) == walk2(
                    store_view(m.pds@),
                    store_view(m.pts@),
                    t3[i3].spec_addr(),
                    i2,
                    i1,
                ));
            }
        }
        assert(prefix_of(c0.pdpts@, c.pdpts@));
    }
    Ok(dst)
}

} // verus!

verus! {

impl PageMapper {
    /// A copy walks from the tables it shares with `m` as `m` does.
    proof fn lemma_shared_walk(m: &PageMapper, c: &PageMapper)
        requires
            m.wf(),
            c.wf(),
            c.copies_from(m),
        ensures
            forall|x: u64, i2: int, i1: int|
                stored(store_view(c.pds@), x) && m.holds_table(x) && 0 <= i2 < ENTRIES_PER_TABLE && 0 <= i1
                    < ENTRIES_PER_TABLE ==> #[trigger] walk2(store_view(c.pds@), store_view(c.pts@), x, i2, i1)
                    == walk2(store_view(m.pds@), store_view(m.pts@), x, i2, i1),
            forall|x: u64, i3: int, i2: int, i1: int|
                stored(store_view(c.pdpts@), x) && m.holds_table(x) && 0 <= i3 < ENTRIES_PER_TABLE && 0 <= i2
                    < ENTRIES_PER_TABLE && 0 <= i1 < ENTRIES_PER_TABLE ==> #[trigger] walk3(
                    store_view(c.pdpts@),
                    store_view(c.pds@),
                    store_view(c.pts@),
                    x,
                    i3,
                    i2,
                    i1,
                ) == walk3(store_view(m.pdpts@), store_view(m.pds@), store_view(m.pts@), x, i3, i2, i1),
    {
        let c3 = store_view(c.pdpts@);
        let c2 = store_view(c.pds@);
        let c1 = store_view(c.pts@);
        let m3 = store_view(m.pdpts@);
        let m2 = store_view(m.pds@);
        let m1 = store_view(m.pts@);
        assert forall|x: u64, i2: int, i1: int|
            stored(c2, x) && m.holds_table(x) && 0 <= i2 < ENTRIES_PER_TABLE && 0 <= i1 < ENTRIES_PER_TABLE
                implies #[trigger] walk2(c2, c1, x, i2, i1) == walk2(m2, m1, x, i2, i1) by {
            assert(stored(c2, x));
            lemma_lookup_stored(c2, x);
            let t2 = lookup(c2, x)->Some_0;
            if t2[i2].spec_present() {
                lemma_found_links(c2, c1, x, i2);
                lemma_found_links(m2, m1, x, i2);
                let z = t2[i2].spec_addr();
                assert(stored(c1, z));
            }
        }
        assert forall|x: u64, i3: int, i2: int, i1: int|
            stored(c3, x) && m.holds_table(x) && 0 <= i3 < ENTRIES_PER_TABLE && 0 <= i2 < ENTRIES_PER_TABLE && 0 <= i1
                < ENTRIES_PER_TABLE implies #[trigger] walk3(c3, c2, c1, x, i3, i2, i1) == walk3(m3, m2, m1, x, i3, i2, i1) by {
            assert(stored(c3, x));
            lemma_lookup_stored(c3, x);
            let t3 = lookup(c3, x)->Some_0;
            if t3[i3].spec_present() {
                lemma_found_links(c3, c2, x, i3);
                lemma_found_links(m3, m2, x, i3);
                let y = t3[i3].spec_addr();
                assert(stored(c2, y));
                assert(walk2(c2, c1, y, i2, i1) == walk2(m2, m1, y, i2, i1));
            }
        }
    }

    /// A table of `m` that `c` does not hold can be added to `c` at its
    /// address.
    proof fn lemma_shared_fresh(m: &PageMapper, c: &PageMapper, x: u64, level: int)
        requires
            m.wf(),
            c.wf(),
            c.copies_from(m),
            1 <= level <= 3,
            level == 1 ==> stored(store_view(m.pts@), x) && !stored(store_view(c.pts@), x),
            level == 2 ==> stored(store_view(m.pds@), x) && !stored(store_view(c.pds@), x),
            level == 3 ==> stored(store_view(m.pdpts@), x) && !stored(store_view(c.pdpts@), x),
        ensures
            c.fresh_addr(x),
            m.holds_table(x),
    {
        let m3 = store_view(m.pdpts@);
        let m2 = store_view(m.pds@);
        let m1 = store_view(m.pts@);
        if level == 1 {
            let k = choose|k: int| 0 <= k < m1.len() && m1[k].0 == x;
            assert(table_addr_ok(m1[k].0));
        } else if level == 2 {
            let k = choose|k: int| 0 <= k < m2.len() && m2[k].0 == x;
            assert(table_addr_ok(m2[k].0));
        } else {
            let k = choose|k: int| 0 <= k < m3.len() && m3[k].0 == x;
            assert(table_addr_ok(m3[k].0));
        }
        if stored(store_view(c.pts@), x) {
            assert(stored(m1, x));
        }
        if stored(store_view(c.pds@), x) {
            assert(stored(m2, x));
        }
        if stored(store_view(c.pdpts@), x) {
            assert(stored(m3, x));
        }
    }
}

/// A copy of table `t`.
fn copy_table(t: &PageTable) -> (r: PageTable)
    requires
        t.wf(),
    ensures
        r.wf(),
        r.entries@ == t.entries@,
{
    let mut entries: Vec<PageTableEntry> = Vec::new();
    let mut i: usize = 0;
    while i < ENTRIES_PER_TABLE
        invariant
            t.wf(),
            i <= ENTRIES_PER_TABLE,
            entries@ == t.entries@.subrange(0, i as int),
        decreases ENTRIES_PER_TABLE - i,
    {
        entries.push(*t.get_entry(i));
        i = i + 1;
    }
    assert(entries@ =~= t.entries@);
    PageTable { entries }
}

/// Add last-level table `k1` of `m` to `c` at its own address, unless `c`
/// holds it already.
fn share_pt(m: &PageMapper, k1: usize, c: &mut PageMapper, Ghost(pmm): Ghost<PhysicalMemoryManager>)
    requires
        m.wf(),
        old(c).wf(),
        old(c).copies_from(m),
        m.reserved_in(&pmm),
        old(c).reserved_in(&pmm),
        k1 < m.pts@.len(),
    ensures
        final(c).wf(),
        extends(*old(c), *final(c)),
        final(c).pml4 == old(c).pml4,
        final(c).pdpts@ == old(c).pdpts@,
        final(c).pds@ == old(c).pds@,
        final(c).copies_from(m),
        final(c).reserved_in(&pmm),
        forall|y: u64| #[trigger] final(c).holds_table(y) && !old(c).holds_table(y) ==> m.holds_table(y),
        stored(store_view(final(c).pts@), m.pts@[k1 as int].0),
{
    let z = m.pts[k1].0;
    proof {
        assert(store_view(m.pts@)[k1 as int].0 == z);
    }
    if find_table(&c.pts, z).is_some() {
        proof {
            lemma_lookup_stored(store_view(c.pts@), z);
        }
        return;
    }
    proof {
        lemma_lookup_stored(store_view(c.pts@), z);
        PageMapper::lemma_shared_fresh(m, c, z, 1);
    }
    assert(m.pts@[k1 as int].1.wf());
    let t = copy_table(&m.pts[k1].1);
    let ghost cb = *c;
    c.pts.push((z, t));
    proof {
        PageMapper::lemma_push1_any(&cb, c, z, t);
        let c1 = store_view(cb.pts@);
        lemma_stored_push(c1, z, t.entries@);
        PageMapper::lemma_found(m.pts@, k1 as int);
        assert forall|x: u64| #![trigger stored(store_view(c.pts@), x)]
            stored(store_view(c.pts@), x) && m.holds_table(x) implies stored(store_view(m.pts@), x) && lookup(
            store_view(c.pts@),
            x,
        ) == lookup(store_view(m.pts@), x) by {
            lemma_lookup_push(c1, z, t.entries@, x);
            if x != z {
                assert(stored(c1, x));
            }
        }
        assert(store_view(c.pds@) == store_view(cb.pds@));
        assert(store_view(c.pdpts@) == store_view(cb.pdpts@));
        assert forall|b: u64| #[trigger] c.holds_table(b) implies !pmm.is_free(b as int / 4096) by {
            if b != z {
                assert(cb.holds_table(b));
            }
        }
        assert(prefix_of(cb.pts@, c.pts@));
    }
}

} // verus!

verus! {

/// Add level-2 table `k2` of `m`, and the last-level tables under it, to
/// `c` at their own addresses, unless `c` holds it already.
fn share_pd(m: &PageMapper, k2: usize, c: &mut PageMapper, Ghost(pmm): Ghost<PhysicalMemoryManager>)
    requires
        m.wf(),
        old(c).wf(),
        old(c).copies_from(m),
        m.reserved_in(&pmm),
        old(c).reserved_in(&pmm),
        k2 < m.pds@.len(),
    ensures
        final(c).wf(),
        extends(*old(c), *final(c)),
        final(c).pml4 == old(c).pml4,
        final(c).pdpts@ == old(c).pdpts@,
        final(c).copies_from(m),
        final(c).reserved_in(&pmm),
        forall|y: u64| #[trigger] final(c).holds_table(y) && !old(c).holds_table(y) ==> m.holds_table(y),
        stored(store_view(final(c).pds@), m.pds@[k2 as int].0),
{
    let y = m.pds[k2].0;
    proof {
        assert(store_view(m.pds@)[k2 as int].0 == y);
    }
    if find_table(&c.pds, y).is_some() {
        proof {
            lemma_lookup_stored(store_view(c.pds@), y);
        }
        return;
    }
    proof {
        lemma_lookup_stored(store_view(c.pds@), y);
    }
    let ghost c0 = *c;
    let ghost t2 = m.pds@[k2 as int].1.entries@;
    let mut j: usize = 0;
    while j < ENTRIES_PER_TABLE
        invariant
            m.wf(),
            c.wf(),
            c0.wf(),
            c0 == *old(c),
            c.copies_from(m),
            m.reserved_in(&pmm),
            c.reserved_in(&pmm),
            k2 < m.pds@.len(),
            t2 == m.pds@[k2 as int].1.entries@,
            y == m.pds@[k2 as int].0,
            j <= ENTRIES_PER_TABLE,
            extends(c0, *c),
            c.pml4 == c0.pml4,
            c.pdpts@ == c0.pdpts@,
            c.pds@ == c0.pds@,
            !stored(store_view(c.pds@), y),
            forall|x: u64| #[trigger] c.holds_table(x) && !c0.holds_table(x) ==> m.holds_table(x),
            forall|jj: int|
                0 <= jj < j && (#[trigger] t2[jj]).spec_present() ==> stored(store_view(c.pts@), t2[jj].spec_addr()),
        decreases ENTRIES_PER_TABLE - j,
    {
        assert(m.pds@[k2 as int].1.wf());
        let e = *m.pds[k2].1.get_entry(j);
        proof {
            assert(store_view(m.pds@)[k2 as int].1[j as int] == e);
        }
        if e.is_present() {
            proof {
                lemma_lookup_stored(store_view(m.pts@), e.spec_addr());
            }
            let k1 = match find_table(&m.pts, e.addr()) {
                Some(k) => k,
                None => {
                    proof {
                        assert(false);
                    }
                    return;
                },
            };
            let ghost cb = *c;
            share_pt(m, k1, c, Ghost(pmm));
            proof {
                assert forall|jj: int|
                    0 <= jj < j + 1 && (#[trigger] t2[jj]).spec_present() implies stored(
                    store_view(c.pts@),
                    t2[jj].spec_addr(),
                ) by {
                    if jj < j {
                        lemma_prefix_lookup(cb.pts@, c.pts@, t2[jj].spec_addr());
                    }
                }
                assert forall|x: u64| #[trigger] c.holds_table(x) && !c0.holds_table(x) implies m.holds_table(x) by {
                    if !cb.holds_table(x) {
                    }
                }
            }
        }
        j = j + 1;
    }
    let ghost cb = *c;
    proof {
        PageMapper::lemma_shared_fresh(m, &cb, y, 2);
    }
    let t = copy_table(&m.pds[k2].1);
    proof {
        let m1 = store_view(m.pts@);
        let m2 = store_view(m.pds@);
        let c2 = store_view(cb.pds@);
        assert(m2[k2 as int].1 == t.entries@);
        assert forall|i: int| 0 <= i < ENTRIES_PER_TABLE implies points_into(#[trigger] t.entries@[i], store_view(cb.pts@)) by {
            assert(m2[k2 as int].1[i] == t.entries@[i]);
        }
        assert forall|i: int, jj: int|
            0 <= i < ENTRIES_PER_TABLE && 0 <= jj < ENTRIES_PER_TABLE && i != jj && (#[trigger] t.entries@[i]).spec_present()
                && (#[trigger] t.entries@[jj]).spec_present() implies t.entries@[i].spec_addr() != t.entries@[jj].spec_addr() by {
            assert(m2[k2 as int].1[i] == t.entries@[i]);
            assert(m2[k2 as int].1[jj] == t.entries@[jj]);
        }
        assert forall|i: int, k: int, jj: int|
            0 <= i < ENTRIES_PER_TABLE && 0 <= k < c2.len() && 0 <= jj < ENTRIES_PER_TABLE && (#[trigger] t.entries@[i]).spec_present()
                && (#[trigger] c2[k].1[jj]).spec_present() implies t.entries@[i].spec_addr() != c2[k].1[jj].spec_addr() by {
            assert(m2[k2 as int].1[i] == t.entries@[i]);
            let a = c2[k].0;
            assert(stored(c2, a));
            if m.holds_table(a) {
                lemma_lookup_index(c2, k);
                let kk = choose|kk: int| 0 <= kk < m2.len() && m2[kk].0 == a;
                lemma_lookup_index(m2, kk);
                assert(c2[k].1 == m2[kk].1);
                assert(kk != k2);
                assert(m2[kk].1[jj] == c2[k].1[jj]);
            } else {
                assert(m.holds_table(t.entries@[i].spec_addr()));
            }
        }
    }
    c.pds.push((y, t));
    proof {
        PageMapper::lemma_push2_linked(&cb, c, y, t);
        let c2 = store_view(cb.pds@);
        lemma_stored_push(c2, y, t.entries@);
        PageMapper::lemma_found(m.pds@, k2 as int);
        assert forall|x: u64| #![trigger stored(store_view(c.pds@), x)]
            stored(store_view(c.pds@), x) && m.holds_table(x) implies stored(store_view(m.pds@), x) && lookup(
            store_view(c.pds@),
            x,
        ) == lookup(store_view(m.pds@), x) by {
            lemma_lookup_push(c2, y, t.entries@, x);
            if x != y {
                assert(stored(c2, x));
            }
        }
        let n2 = store_view(c.pds@);
        assert forall|k: int, jj: int|
            0 <= k < n2.len() && 0 <= jj < ENTRIES_PER_TABLE && !m.holds_table(n2[k].0) && (#[trigger] n2[k].1[jj]).spec_present()
                implies !m.holds_table(n2[k].1[jj].spec_addr()) by {
            if k < c2.len() {
                assert(n2[k] == c2[k]);
            }
        }
        assert(store_view(c.pts@) == store_view(cb.pts@));
        assert(store_view(c.pdpts@) == store_view(cb.pdpts@));
        assert forall|b: u64| #[trigger] c.holds_table(b) implies !pmm.is_free(b as int / 4096) by {
            if b != y {
                assert(cb.holds_table(b));
            }
        }
        assert forall|x: u64| #[trigger] c.holds_table(x) && !c0.holds_table(x) implies m.holds_table(x) by {
            if x != y {
                assert(cb.holds_table(x));
            }
        }
        assert(prefix_of(cb.pds@, c.pds@));
        assert(prefix_of(c0.pds@, c.pds@));
    }
}

} // verus!

verus! {

/// Add level-3 table `k3` of `m`, and the tables under it, to `c` at their
/// own addresses, unless `c` holds it already.
fn share_pdpt(m: &PageMapper, k3: usize, c: &mut PageMapper, Ghost(pmm): Ghost<PhysicalMemoryManager>)
    requires
        m.wf(),
        old(c).wf(),
        old(c).copies_from(m),
        m.reserved_in(&pmm),
        old(c).reserved_in(&pmm),
        k3 < m.pdpts@.len(),
    ensures
        final(c).wf(),
        extends(*old(c), *final(c)),
        final(c).pml4 == old(c).pml4,
        final(c).copies_from(m),
        final(c).reserved_in(&pmm),
        forall|y: u64| #[trigger] final(c).holds_table(y) && !old(c).holds_table(y) ==> m.holds_table(y),
        stored(store_view(final(c).pdpts@), m.pdpts@[k3 as int].0),
{
    let x3 = m.pdpts[k3].0;
    proof {
        assert(store_view(m.pdpts@)[k3 as int].0 == x3);
    }
    if find_table(&c.pdpts, x3).is_some() {
        proof {
            lemma_lookup_stored(store_view(c.pdpts@), x3);
        }
        return;
    }
    proof {
        lemma_lookup_stored(store_view(c.pdpts@), x3);
    }
    let ghost c0 = *c;
    let ghost t3 = m.pdpts@[k3 as int].1.entries@;
    let mut j: usize = 0;
    while j < ENTRIES_PER_TABLE
        invariant
            m.wf(),
            c.wf(),
            c0.wf(),
            c0 == *old(c),
            c.copies_from(m),
            m.reserved_in(&pmm),
            c.reserved_in(&pmm),
            k3 < m.pdpts@.len(),
            t3 == m.pdpts@[k3 as int].1.entries@,
            x3 == m.pdpts@[k3 as int].0,
            j <= ENTRIES_PER_TABLE,
            extends(c0, *c),
            c.pml4 == c0.pml4,
            c.pdpts@ == c0.pdpts@,
            !stored(store_view(c.pdpts@), x3),
            forall|x: u64| #[trigger] c.holds_table(x) && !c0.holds_table(x) ==> m.holds_table(x),
            forall|jj: int|
                0 <= jj < j && (#[trigger] t3[jj]).spec_present() ==> stored(store_view(c.pds@), t3[jj].spec_addr()),
        decreases ENTRIES_PER_TABLE - j,
    {
        assert(m.pdpts@[k3 as int].1.wf());
        let e = *m.pdpts[k3].1.get_entry(j);
        proof {
            assert(store_view(m.pdpts@)[k3 as int].1[j as int] == e);
        }
        if e.is_present() {
            proof {
                lemma_lookup_stored(store_view(m.pds@), e.spec_addr());
            }
            let k2 = match find_table(&m.pds, e.addr()) {
                Some(k) => k,
                None => {
                    proof {
                        assert(false);
                    }
                    return;
                },
            };
            let ghost cb = *c;
            share_pd(m, k2, c, Ghost(pmm));
            proof {
                assert forall|jj: int|
                    0 <= jj < j + 1 && (#[trigger] t3[jj]).spec_present() implies stored(
                    store_view(c.pds@),
                    t3[jj].spec_addr(),
                ) by {
                    if jj < j {
                        lemma_prefix_lookup(cb.pds@, c.pds@, t3[jj].spec_addr());
                    }
                }
                assert forall|x: u64| #[trigger] c.holds_table(x) && !c0.holds_table(x) implies m.holds_table(x) by {
                    if !cb.holds_table(x) {
                    }
                }
            }
        }
        j = j + 1;
    }
    let ghost cb = *c;
    proof {
        PageMapper::lemma_shared_fresh(m, &cb, x3, 3);
    }
    let t = copy_table(&m.pdpts[k3].1);
    proof {
        let m3 = store_view(m.pdpts@);
        let c3 = store_view(cb.pdpts@);
        assert(m3[k3 as int].1 == t.entries@);
        assert forall|i: int| 0 <= i < ENTRIES_PER_TABLE implies points_into(#[trigger] t.entries@[i], store_view(cb.pds@)) by {
            assert(m3[k3 as int].1[i] == t.entries@[i]);
        }
        assert forall|i: int, jj: int|
            0 <= i < ENTRIES_PER_TABLE && 0 <= jj < ENTRIES_PER_TABLE && i != jj && (#[trigger] t.entries@[i]).spec_present()
                && (#[trigger] t.entries@[jj]).spec_present() implies t.entries@[i].spec_addr() != t.entries@[jj].spec_addr() by {
            assert(m3[k3 as int].1[i] == t.entries@[i]);
            assert(m3[k3 as int].1[jj] == t.entries@[jj]);
        }
        assert forall|i: int, k: int, jj: int|
            0 <= i < ENTRIES_PER_TABLE && 0 <= k < c3.len() && 0 <= jj < ENTRIES_PER_TABLE && (#[trigger] t.entries@[i]).spec_present()
                && (#[trigger] c3[k].1[jj]).spec_present() implies t.entries@[i].spec_addr() != c3[k].1[jj].spec_addr() by {
            assert(m3[k3 as int].1[i] == t.entries@[i]);
            let a = c3[k].0;
            assert(stored(c3, a));
            if m.holds_table(a) {
                lemma_lookup_index(c3, k);
                let kk = choose|kk: int| 0 <= kk < m3.len() && m3[kk].0 == a;
                lemma_lookup_index(m3, kk);
                assert(c3[k].1 == m3[kk].1);
                assert(kk != k3);
                assert(m3[kk].1[jj] == c3[k].1[jj]);
            } else {
                assert(m.holds_table(t.entries@[i].spec_addr()));
            }
        }
    }
    c.pdpts.push((x3, t));
    proof {
        PageMapper::lemma_push3_linked(&cb, c, x3, t);
        let c3 = store_view(cb.pdpts@);
        lemma_stored_push(c3, x3, t.entries@);
        PageMapper::lemma_found(m.pdpts@, k3 as int);
        assert forall|x: u64| #![trigger stored(store_view(c.pdpts@), x)]
            stored(store_view(c.pdpts@), x) && m.holds_table(x) implies stored(store_view(m.pdpts@), x) && lookup(
            store_view(c.pdpts@),
            x,
        ) == lookup(store_view(m.pdpts@), x) by {
            lemma_lookup_push(c3, x3, t.entries@, x);
            if x != x3 {
                assert(stored(c3, x));
            }
        }
        let n3 = store_view(c.pdpts@);
        assert forall|k: int, jj: int|
            0 <= k < n3.len() && 0 <= jj < ENTRIES_PER_TABLE && !m.holds_table(n3[k].0) && (#[trigger] n3[k].1[jj]).spec_present()
                implies !m.holds_table(n3[k].1[jj].spec_addr()) by {
            if k < c3.len() {
                assert(n3[k] == c3[k]);
            }
        }
        assert(store_view(c.pts@) == store_view(cb.pts@));
        assert(store_view(c.pds@) == store_view(cb.pds@));
        assert forall|b: u64| #[trigger] c.holds_table(b) implies !pmm.is_free(b as int / 4096) by {
            if b != x3 {
                assert(cb.holds_table(b));
            }
        }
        assert forall|x: u64| #[trigger] c.holds_table(x) && !c0.holds_table(x) implies m.holds_table(x) by {
            if x != x3 {
                assert(cb.holds_table(x));
            }
        }
        assert(prefix_of(cb.pdpts@, c.pdpts@));
        assert(prefix_of(c0.pdpts@, c.pdpts@));
    }
}

} // verus!

verus! {

/// Frames the copies of the level-3 tables under the first `n` entries of
/// root table `root` take.
pub open spec fn pdpt_copies_frames(
    p3: Seq<(u64, Seq<PageTableEntry>)>,
    p2: Seq<(u64, Seq<PageTableEntry>)>,
    root: Seq<PageTableEntry>,
    n: int,
) -> nat
    decreases n,
{
    if n <= 0 {
        0
    } else {
        pdpt_copies_frames(p3, p2, root, n - 1) + if root[n - 1].spec_present() {
            match lookup(p3, root[n - 1].spec_addr()) {
                Some(t3) => pdpt_copy_frames(p2, t3),
                None => 0,
            }
        } else {
            0
        }
    }
}

proof fn lemma_pdpt_copies_mono(
    p3: Seq<(u64, Seq<PageTableEntry>)>,
    p2: Seq<(u64, Seq<PageTableEntry>)>,
    root: Seq<PageTableEntry>,
    a: int,
    b: int,
)
    requires
        a <= b,
    ensures
        pdpt_copies_frames(p3, p2, root, a) <= pdpt_copies_frames(p3, p2, root, b),
    decreases b - a,
{
    if a < b {
        lemma_pdpt_copies_mono(p3, p2, root, a, b - 1);
    }
}

impl PageMapper {
    /// Frames a clone takes: its root table, and a copy of every table
    /// under the user half.
    pub closed spec fn clone_frames(&self) -> nat {
        1 + pdpt_copies_frames(
            store_view(self.pdpts@),
            store_view(self.pds@),
            self.pml4.entries@,
            ENTRIES_PER_TABLE as int / 2,
        )
    }
}

/// Clone `m` for a new process (fork): a new root table, with copies of
/// every table under the user half (root entries 0..256) in frames taken
/// from `pmm`, and the kernel half's entries copied as they are, sharing
/// its tables. The clone maps every address as `m` does.
///
/// Error: `pmm` runs out of frames (the frames taken so far stay taken).
pub fn clone_page_table_hierarchy(m: &PageMapper, pmm: &mut PhysicalMemoryManager) -> (r: Result<
    PageMapper,
    &'static str,
>)
    requires
        m.wf(),
        old(pmm).wf(),
        m.reserved_in(old(pmm)),
    ensures
        final(pmm).wf(),
        final(pmm).total() == old(pmm).total(),
        m.reserved_in(final(pmm)),
        forall|g: int| !old(pmm).is_free(g) ==> !#[trigger] final(pmm).is_free(g),
        r is Ok <==> old(pmm).free() >= m.clone_frames(),
        r matches Err(e) ==> e@ == "Out of physical memory"@ && final(pmm).free() == 0,
        r matches Ok(c) ==> {
            &&& c.wf()
            &&& c.reserved_in(final(pmm))
            &&& final(pmm).free() + m.clone_frames() == old(pmm).free()
            &&& forall|v: u64| #[trigger] c.leaf(v) == m.leaf(v)
            &&& !m.holds_table(c.root())
            &&& forall|y: u64|
                #[trigger] c.holds_table(y) ==> m.holds_table(y) || (old(pmm).is_free(y as int / 4096)
                    && !final(pmm).is_free(y as int / 4096))
        },
{
    let ghost pmm0 = *pmm;
    let ghost m3 = store_view(m.pdpts@);
    let ghost m2 = store_view(m.pds@);
    let ghost root = m.pml4.entries@;
    let dst = match alloc_page_table(pmm) {
        Ok(a) => a,
        Err(e) => {
            return Err(e);
        },
    };
    proof {
        pmm0.lemma_total_bound();
        m.lemma_alloc_fresh(&pmm0, dst);
    }
    let mut c = PageMapper { pml4_phys: dst, pml4: PageTable::new(), pdpts: Vec::new(), pds: Vec::new(), pts: Vec::new() };
    proof {
        lemma_zero_table(c.pml4.entries@);
        lemma_zero_not_present();
        assert(store_view(c.pdpts@) =~= Seq::empty());
        assert(store_view(c.pds@) =~= Seq::empty());
        assert(store_view(c.pts@) =~= Seq::empty());
        assert forall|v: u64| #[trigger] c.leaf(v) == (if pml4_index(v) < 0 { m.leaf(v) } else { None }) by {
            lemma_indices(v);
        }
        assert forall|b: u64| #[trigger] m.holds_table(b) implies !pmm.is_free(b as int / 4096) by {
            assert(!pmm0.is_free(b as int / 4096));
        }
        assert(c.wf());
    }
    let mut i: usize = 0;
    while i < ENTRIES_PER_TABLE / 2
        invariant
            m.wf(),
            c.wf(),
            pmm.wf(),
            pmm0 == *old(pmm),
            m3 == store_view(m.pdpts@),
            m2 == store_view(m.pds@),
            root == m.pml4.entries@,
            i <= ENTRIES_PER_TABLE / 2,
            pmm.total() == pmm0.total(),
            c.copies_from(m),
            c.reserved_in(pmm),
            m.reserved_in(pmm),
            forall|g: int| !pmm0.is_free(g) ==> !#[trigger] pmm.is_free(g),
            forall|y: u64|
                #[trigger] c.holds_table(y) ==> pmm0.is_free(y as int / 4096) && !pmm.is_free(y as int / 4096)
                    && !m.holds_table(y),
            c.root() == dst,
            forall|j: int| i <= j < ENTRIES_PER_TABLE ==> (#[trigger] c.pml4.entries@[j]).0 == 0,
            forall|j: int|
                0 <= j < i ==> (#[trigger] c.pml4.entries@[j]).spec_present() == root[j].spec_present(),
            forall|j: int|
                0 <= j < i && (#[trigger] c.pml4.entries@[j]).spec_present() ==> !m.holds_table(
                    c.pml4.entries@[j].spec_addr(),
                ),
            forall|v: u64| #[trigger] c.leaf(v) == (if pml4_index(v) < i { m.leaf(v) } else { None }),
            pmm.free() + 1 + pdpt_copies_frames(m3, m2, root, i as int) == pmm0.free(),
        decreases ENTRIES_PER_TABLE / 2 - i,
    {
        let e4 = *m.pml4.get_entry(i);
        proof {
            assert(m.levels()[0].1[i as int] == e4);
            lemma_zero_not_present();
        }
        if e4.is_present() {
            proof {
                lemma_lookup_stored(store_view(m.pdpts@), e4.spec_addr());
            }
            let k3 = match find_table(&m.pdpts, e4.addr()) {
                Some(k) => k,
                None => {
                    proof {
                        assert(false);
                    }
                    return Err("Out of physical memory");
                },
            };
            let ghost cb = c;
            let ghost pb = *pmm;
            let a3 = match clone_pdpt_level(m, k3, &mut c, pmm) {
                Ok(a) => a,
                Err(e) => {
                    proof {
                        lemma_pdpt_copies_mono(m3, m2, root, i + 1, ENTRIES_PER_TABLE as int / 2);
                    }
                    return Err(e);
                },
            };
            let ghost cc = c;
            proof {
                lemma_extends_walk(cb, cc);
                assert(!has_bits(e4.0, HUGE));
            }
            let e = link_entry(a3, e4);
            proof {
                assert forall|j: int|
                    0 <= j < ENTRIES_PER_TABLE && j != i && (#[trigger] cc.pml4.entries@[j]).spec_present()
                        implies cc.pml4.entries@[j].spec_addr() != e.spec_addr() by {
                    assert(cb.levels()[0].1[j] == cc.pml4.entries@[j]);
                    assert(stored(store_view(cb.pdpts@), cb.pml4.entries@[j].spec_addr()));
                }
                assert(stored(store_view(cc.pdpts@), a3));
            }
            c.pml4.set_entry(i, e);
            proof {
                PageMapper::lemma_set_root(&cc, &c, i as int, e);
                assert forall|v: u64| #[trigger] c.leaf(v) == (if pml4_index(v) < i + 1 { m.leaf(v) } else { None }) by {
                    lemma_indices(v);
                    c.lemma_leaf_walk(v);
                    cc.lemma_leaf_walk(v);
                    cb.lemma_leaf_walk(v);
                    m.lemma_leaf_walk(v);
                    if pml4_index(v) == i {
                        PageMapper::lemma_found(m.pdpts@, k3 as int);
                    } else if pml4_index(v) < i {
                        assert(c.pml4.entries@[pml4_index(v)] == cb.pml4.entries@[pml4_index(v)]);
                        if cb.pml4.entries@[pml4_index(v)].spec_present() {
                            assert(cb.levels()[0].1[pml4_index(v)] == cb.pml4.entries@[pml4_index(v)]);
                        }
                    } else {
                        assert(c.pml4.entries@[pml4_index(v)] == cb.pml4.entries@[pml4_index(v)]);
                    }
                }
                assert(lookup(m3, e4.spec_addr()) == Some(m.pdpts@[k3 as int].1.entries@));
                assert forall|j: int|
                    0 <= j < i + 1 && (#[trigger] c.pml4.entries@[j]).spec_present() implies !m.holds_table(
                        c.pml4.entries@[j].spec_addr(),
                    ) by {
                    if j < i {
                        assert(c.pml4.entries@[j] == cb.pml4.entries@[j]);
                    }
                }
                assert forall|y: u64| #[trigger] c.holds_table(y) implies pmm0.is_free(y as int / 4096) && !pmm.is_free(
                    y as int / 4096,
                ) && !m.holds_table(y) by {
                    assert(c.holds_table(y) == cc.holds_table(y));
                    if !cb.holds_table(y) {
                        assert(pb.is_free(y as int / 4096));
                    }
                }
                assert forall|b: u64| #[trigger] c.holds_table(b) implies !pmm.is_free(b as int / 4096) by {
                    assert(c.holds_table(b) == cc.holds_table(b));
                }
            }
        } else {
            proof {
                assert forall|v: u64| #[trigger] c.leaf(v) == (if pml4_index(v) < i + 1 { m.leaf(v) } else { None }) by {
                    lemma_indices(v);
                    m.lemma_leaf_walk(v);
                }
            }
        }
        i = i + 1;
    }
    while i < ENTRIES_PER_TABLE
        invariant
            m.wf(),
            c.wf(),
            pmm.wf(),
            pmm0 == *old(pmm),
            ENTRIES_PER_TABLE / 2 <= i <= ENTRIES_PER_TABLE,
            root == m.pml4.entries@,
            pmm.total() == pmm0.total(),
            c.copies_from(m),
            c.reserved_in(pmm),
            m.reserved_in(pmm),
            forall|g: int| !pmm0.is_free(g) ==> !#[trigger] pmm.is_free(g),
            forall|y: u64|
                #[trigger] c.holds_table(y) ==> m.holds_table(y) || (pmm0.is_free(y as int / 4096) && !pmm.is_free(
                    y as int / 4096,
                )),
            c.root() == dst,
            !m.holds_table(dst),
            forall|j: int| i <= j < ENTRIES_PER_TABLE ==> (#[trigger] c.pml4.entries@[j]).0 == 0,
            forall|j: int|
                0 <= j < ENTRIES_PER_TABLE / 2 && (#[trigger] c.pml4.entries@[j]).spec_present() ==> !m.holds_table(
                    c.pml4.entries@[j].spec_addr(),
                ),
            forall|j: int| ENTRIES_PER_TABLE / 2 <= j < i ==> #[trigger] c.pml4.entries@[j] == root[j],
            forall|v: u64| #[trigger] c.leaf(v) == (if pml4_index(v) < i { m.leaf(v) } else { None }),
            pmm.free() + m.clone_frames() == pmm0.free(),
        decreases ENTRIES_PER_TABLE - i,
    {
        let e4 = *m.pml4.get_entry(i);
        proof {
            assert(m.levels()[0].1[i as int] == e4);
            lemma_zero_not_present();
        }
        let ghost cb = c;
        if e4.is_present() {
            proof {
                lemma_lookup_stored(store_view(m.pdpts@), e4.spec_addr());
            }
            let k3 = match find_table(&m.pdpts, e4.addr()) {
                Some(k) => k,
                None => {
                    proof {
                        assert(false);
                    }
                    return Err("Out of physical memory");
                },
            };
            share_pdpt(m, k3, &mut c, Ghost(*pmm));
            proof {
                PageMapper::lemma_found(m.pdpts@, k3 as int);
            }
        }
        let ghost cc = c;
        proof {
            lemma_extends_walk(cb, cc);
            PageMapper::lemma_shared_walk(m, &cc);
            if e4.spec_present() {
                lemma_lookup_stored(store_view(m.pdpts@), e4.spec_addr());
                assert(m.holds_table(e4.spec_addr()));
                assert forall|j: int|
                    0 <= j < ENTRIES_PER_TABLE && j != i && (#[trigger] cc.pml4.entries@[j]).spec_present() implies cc.pml4.entries@[j].spec_addr()
                    != e4.spec_addr() by {
                    if j >= ENTRIES_PER_TABLE / 2 && j < i {
                        assert(m.levels()[0].1[j] == root[j]);
                        assert(cc.pml4.entries@[j] == root[j]);
                    }
                }
            }
        }
        c.pml4.set_entry(i, e4);
        proof {
            PageMapper::lemma_set_root(&cc, &c, i as int, e4);
            assert forall|v: u64| #[trigger] c.leaf(v) == (if pml4_index(v) < i + 1 { m.leaf(v) } else { None }) by {
                lemma_indices(v);
                c.lemma_leaf_walk(v);
                cc.lemma_leaf_walk(v);
                cb.lemma_leaf_walk(v);
                m.lemma_leaf_walk(v);
                if pml4_index(v) < i {
                    assert(c.pml4.entries@[pml4_index(v)] == cb.pml4.entries@[pml4_index(v)]);
                    if cb.pml4.entries@[pml4_index(v)].spec_present() {
                        assert(cb.levels()[0].1[pml4_index(v)] == cb.pml4.entries@[pml4_index(v)]);
                    }
                } else if pml4_index(v) > i {
                    assert(c.pml4.entries@[pml4_index(v)] == cb.pml4.entries@[pml4_index(v)]);
                }
            }
            assert forall|y: u64| #[trigger] c.holds_table(y) implies m.holds_table(y) || (pmm0.is_free(y as int / 4096)
                && !pmm.is_free(y as int / 4096)) by {
                assert(c.holds_table(y) == cc.holds_table(y));
                if !cb.holds_table(y) {
                }
            }
            assert forall|b: u64| #[trigger] c.holds_table(b) implies !pmm.is_free(b as int / 4096) by {
                assert(c.holds_table(b) == cc.holds_table(b));
            }
        }
        i = i + 1;
    }
    proof {
        assert forall|v: u64| #[trigger] c.leaf(v) == m.leaf(v) by {
            lemma_indices(v);
        }
    }
    Ok(c)
}

} // verus!

verus! {

impl PageMapper {
    /// A mapper holding only its root is reserved in `pmm` when its root
    /// frame is in use there.
    pub proof fn lemma_reserved_fresh(&self, pmm: &PhysicalMemoryManager)
        requires
            forall|b: u64| #[trigger] self.holds_table(b) == (b == self.root()),
            !pmm.is_free(self.root() as int / 4096),
        ensures
            self.reserved_in(pmm),
    {
    }

    /// A mapper holding the same tables as a reserved one is reserved.
    pub proof fn lemma_reserved_same_tables(&self, other: &PageMapper, pmm: &PhysicalMemoryManager)
        requires
            self.reserved_in(pmm),
            forall|b: u64| #[trigger] other.holds_table(b) == self.holds_table(b),
        ensures
            other.reserved_in(pmm),
    {
        assert forall|a: u64| #[trigger] other.holds_table(a) implies !pmm.is_free(a as int / 4096) by {
            assert(self.holds_table(a));
        }
    }

    /// Tables stay reserved while frames are only taken.
    pub proof fn lemma_reserved_mono(&self, p0: &PhysicalMemoryManager, p1: &PhysicalMemoryManager)
        requires
            self.reserved_in(p0),
            forall|g: int| !p0.is_free(g) ==> !#[trigger] p1.is_free(g),
        ensures
            self.reserved_in(p1),
    {
        assert forall|a: u64| #[trigger] self.holds_table(a) implies !p1.is_free(a as int / 4096) by {
            assert(!p0.is_free(a as int / 4096));
        }
    }
}

/// Two different frame-aligned addresses less than 2^48 apart lie in
/// different pages.
pub proof fn lemma_distinct_pages_pub(p: u64, q: u64)
    requires
        p % 4096 == 0,
        q % 4096 == 0,
        p < q,
        q - p < 0x1_0000_0000_0000u64,
    ensures
        !same_page(p, q),
{
    lemma_distinct_pages(p, q);
}

} // verus!

verus! {

/// Record `current_cr3` as the kernel's root table, from which new address
/// spaces take their kernel half. Only the first call sets it; later calls
/// leave the recorded root as it is.
pub fn init_kernel_template(template: &mut Option<PhysAddr>, current_cr3: PhysAddr) -> (r: Result<(), &'static str>)
    ensures
        r is Ok,
        *final(template) == if old(template).is_none() { Some(current_cr3) } else { *old(template) },
{
    if template.is_none() {
        *template = Some(current_cr3);
    }
    Ok(())
}

/// The kernel's root table, once it is recorded.
pub fn get_kernel_template(template: &Option<PhysAddr>) -> (r: Option<PhysAddr>)
    ensures
        r == *template,
{
    *template
}

/// `p1` is `p0` with frame `g`, free in `p0`, taken.
pub open spec fn took_frame(p0: &PhysicalMemoryManager, p1: &PhysicalMemoryManager, g: int) -> bool {
    &&& p0.is_free(g)
    &&& !p1.is_free(g)
    &&& forall|h: int| h != g ==> #[trigger] p1.is_free(h) == p0.is_free(h)
}

/// A root table for a new address space: a frame from `pmm` and a table
/// that is empty in its user half and holds the kernel half of `template`.
///
/// Errors: no frame is free ("Out of physical memory"); there is no
/// template yet ("Kernel template not initialized"), in which case the
/// frame stays taken.
pub fn alloc_page_table_with_kernel_mappings(
    pmm: &mut PhysicalMemoryManager,
    template: Option<&PageTable>,
) -> (r: Result<(PhysAddr, PageTable), &'static str>)
    requires
        old(pmm).wf(),
        template matches Some(t) ==> t.wf(),
    ensures
        final(pmm).wf(),
        final(pmm).total() == old(pmm).total(),
        old(pmm).free() == 0 ==> (r matches Err(e) && e@ == "Out of physical memory"@) && final(pmm).free()
            == old(pmm).free() && forall|g: int| #[trigger] final(pmm).is_free(g) == old(pmm).is_free(g),
        old(pmm).free() > 0 ==> {
            &&& final(pmm).free() + 1 == old(pmm).free()
            &&& exists|g: int|
                #[trigger] took_frame(old(pmm), final(pmm), g) && (r matches Ok((p, _)) ==> p as int == g * 4096)
        },
        old(pmm).free() > 0 && template is None ==> (r matches Err(e) && e@ == "Kernel template not initialized"@),
        r matches Ok((_, t)) ==> {
            &&& t.wf()
            &&& template is Some
            &&& forall|i: int|
                0 <= i < ENTRIES_PER_TABLE ==> #[trigger] t.entries@[i] == if i < ENTRIES_PER_TABLE / 2 {
                    PageTableEntry(0)
                } else {
                    template.unwrap().entries@[i]
                }
        },
        old(pmm).free() > 0 && template is Some ==> r is Ok,
{
    let pml4_phys = match alloc_page_table(pmm) {
        Ok(a) => a,
        Err(e) => {
            return Err(e);
        },
    };
    let mut table = PageTable::new();
    let copied = copy_kernel_mappings(&mut table, template);
    proof {
        assert(took_frame(old(pmm), pmm, pml4_phys as int / 4096));
    }
    match copied {
        Ok(()) => Ok((pml4_phys, table)),
        Err(e) => Err(e),
    }
}

} // verus!
