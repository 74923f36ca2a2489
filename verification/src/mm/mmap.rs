//! Memory-mapping bookkeeping: per-process tables of mapped ranges and the
//! mmap, msync and mprotect calls on them.
use vstd::prelude::*;

verus! {

/// Size of a page.
pub const PAGE_SIZE: usize = 4096;
/// Maximum mappings per process.
pub const MAX_MAPPINGS: usize = 256;
/// Maximum processes with a mapping table.
pub const MAX_TABLES: usize = 256;
/// Where mappings without a requested address are placed.
pub const MMAP_BASE: u64 = 0x7000_0000_0000;
/// Distance between two placed mappings.
pub const MMAP_STRIDE: u64 = 0x10000;

/// No access.
pub const PROT_NONE: u8 = 0;
/// Readable.
pub const PROT_READ: u8 = 1;
/// Writable.
pub const PROT_WRITE: u8 = 2;
/// Executable.
pub const PROT_EXEC: u8 = 4;

/// Shared mapping.
pub const MAP_SHARED: u32 = 0x01;
/// Private mapping.
pub const MAP_PRIVATE: u32 = 0x02;
/// Mapping at exactly the requested address.
pub const MAP_FIXED: u32 = 0x10;
/// Mapping not backed by a file.
pub const MAP_ANONYMOUS: u32 = 0x20;

/// Synchronous msync.
pub const MS_SYNC: u32 = 0x01;
/// Asynchronous msync.
pub const MS_ASYNC: u32 = 0x02;

/// Memory protection flags.
#[derive(Clone, Copy, PartialEq, Eq, Debug, Structural)]
pub struct ProtFlags {
    bits: u8,
}

impl ProtFlags {
    /// The raw bits.
    pub closed spec fn spec_bits(&self) -> u8 {
        self.bits
    }

    /// Flags with the given bits.
    pub fn from_bits(bits: u8) -> (r: Self)
        ensures
            r.spec_bits() == bits,
    {
        ProtFlags { bits }
    }

    /// The raw bits.
    pub fn bits(&self) -> (r: u8)
        ensures
            r == self.spec_bits(),
    {
        self.bits
    }

    /// Whether PROT_READ is set.
    pub fn is_readable(&self) -> (r: bool)
        ensures
            r == (self.spec_bits() & PROT_READ != 0),
    {
        self.bits & PROT_READ != 0
    }

    /// Whether PROT_WRITE is set.
    pub fn is_writable(&self) -> (r: bool)
        ensures
            r == (self.spec_bits() & PROT_WRITE != 0),
    {
        self.bits & PROT_WRITE != 0
    }

    /// Whether PROT_EXEC is set.
    pub fn is_executable(&self) -> (r: bool)
        ensures
            r == (self.spec_bits() & PROT_EXEC != 0),
    {
        self.bits & PROT_EXEC != 0
    }
}

/// Memory mapping flags.
#[derive(Clone, Copy, PartialEq, Eq, Debug, Structural)]
pub struct MmapFlags {
    bits: u32,
}

impl MmapFlags {
    /// The raw bits.
    pub closed spec fn spec_bits(&self) -> u32 {
        self.bits
    }

    /// Flags with the given bits.
    pub fn from_bits(bits: u32) -> (r: Self)
        ensures
            r.spec_bits() == bits,
    {
        MmapFlags { bits }
    }

    /// The raw bits.
    pub fn bits(&self) -> (r: u32)
        ensures
            r == self.spec_bits(),
    {
        self.bits
    }

    /// Whether MAP_SHARED is set.
    pub fn is_shared(&self) -> (r: bool)
        ensures
            r == (self.spec_bits() & MAP_SHARED != 0),
    {
        self.bits & MAP_SHARED != 0
    }

    /// Whether MAP_ANONYMOUS is set.
    pub fn is_anonymous(&self) -> (r: bool)
        ensures
            r == (self.spec_bits() & MAP_ANONYMOUS != 0),
    {
        self.bits & MAP_ANONYMOUS != 0
    }
}

/// msync flags.
#[derive(Clone, Copy, PartialEq, Eq, Debug, Structural)]
pub struct MsyncFlags {
    bits: u32,
}

impl MsyncFlags {
    /// The raw bits.
    pub closed spec fn spec_bits(&self) -> u32 {
        self.bits
    }

    /// Flags with the given bits.
    pub fn from_bits(bits: u32) -> (r: Self)
        ensures
            r.spec_bits() == bits,
    {
        MsyncFlags { bits }
    }

    /// Whether MS_SYNC is set.
    pub fn is_sync(&self) -> (r: bool)
        ensures
            r == (self.spec_bits() & MS_SYNC != 0),
    {
        self.bits & MS_SYNC != 0
    }
}

/// One mapped range.
#[derive(Clone, Copy, PartialEq, Eq, Debug, Structural)]
pub struct MemoryMapping {
    /// Start address
    pub vaddr: u64,
    /// Length in bytes
    pub length: usize,
    /// Protection
    pub prot: ProtFlags,
    /// Mapping flags
    pub flags: MmapFlags,
    /// Backing file descriptor, if any
    pub fd: Option<u32>,
    /// Offset in the backing file
    pub offset: u64,
    /// Whether this slot holds a mapping
    pub valid: bool,
}

/// Whether a mapping covers `addr` (the range taken as exact integers).
pub open spec fn spec_contains(m: MemoryMapping, addr: u64) -> bool {
    m.valid && addr >= m.vaddr && addr < m.vaddr + m.length
}

impl MemoryMapping {
    /// An empty slot.
    pub fn new() -> (r: Self)
        ensures
            !r.valid,
            r.vaddr == 0 && r.length == 0 && r.fd is None && r.offset == 0,
            r.prot.spec_bits() == PROT_NONE,
            r.flags.spec_bits() == MAP_PRIVATE,
    {
        MemoryMapping {
            vaddr: 0,
            length: 0,
            prot: ProtFlags::from_bits(PROT_NONE),
            flags: MmapFlags::from_bits(MAP_PRIVATE),
            fd: None,
            offset: 0,
            valid: false,
        }
    }

    /// A valid mapping with the given fields.
    pub fn create(vaddr: u64, length: usize, prot: ProtFlags, flags: MmapFlags, fd: Option<u32>, offset: u64) -> (r:
        Self)
        ensures
            r == (MemoryMapping { vaddr, length, prot, flags, fd, offset, valid: true }),
    {
        MemoryMapping { vaddr, length, prot, flags, fd, offset, valid: true }
    }

    /// Whether this mapping covers `addr`.
    pub fn contains(&self, addr: u64) -> (r: bool)
        ensures
            r == spec_contains(*self, addr),
    {
        self.valid && addr >= self.vaddr && ((addr - self.vaddr) as u128) < (self.length as u128)
    }
}

/// Number of slots holding a mapping.
pub open spec fn valid_count(s: Seq<MemoryMapping>) -> nat
    decreases s.len(),
{
    if s.len() == 0 {
        0
    } else {
        valid_count(s.drop_last()) + if s.last().valid { 1nat } else { 0nat }
    }
}

/// Filling an empty slot adds one to the count of valid slots.
proof fn lemma_valid_count_fill(s: Seq<MemoryMapping>, i: int, m: MemoryMapping)
    requires
        0 <= i < s.len(),
        !s[i].valid,
        m.valid,
    ensures
        valid_count(s.update(i, m)) == valid_count(s) + 1,
    decreases s.len(),
{
    let t = s.update(i, m);
    if i == s.len() - 1 {
        assert(t.drop_last() =~= s.drop_last());
    } else {
        assert(t.drop_last() =~= s.drop_last().update(i, m));
        lemma_valid_count_fill(s.drop_last(), i, m);
    }
}

/// With an empty slot, fewer slots than there are hold a mapping.
proof fn lemma_valid_count_bound(s: Seq<MemoryMapping>, i: int)
    requires
        0 <= i < s.len(),
        !s[i].valid,
    ensures
        valid_count(s) < s.len(),
    decreases s.len(),
{
    lemma_valid_count_le(s.drop_last());
    if i < s.len() - 1 {
        lemma_valid_count_bound(s.drop_last(), i);
    }
}

/// At most every slot holds a mapping.
proof fn lemma_valid_count_le(s: Seq<MemoryMapping>)
    ensures
        valid_count(s) <= s.len(),
    decreases s.len(),
{
    if s.len() > 0 {
        lemma_valid_count_le(s.drop_last());
    }
}

/// A process's mapping table.
pub struct MmapTable {
    pid: u64,
    in_use: bool,
    mappings: Vec<MemoryMapping>,
    count: usize,
}

impl MmapTable {
    /// One slot per mapping; the count never exceeds the slots.
    pub closed spec fn wf(&self) -> bool {
        self.mappings@.len() == MAX_MAPPINGS && self.count <= valid_count(self.mappings@)
    }

    /// The slots.
    pub closed spec fn view(&self) -> Seq<MemoryMapping> {
        self.mappings@
    }

    /// The count never exceeds the slots.
    pub proof fn lemma_count_bound(&self)
        requires
            self.wf(),
        ensures
            self.spec_count() <= MAX_MAPPINGS,
    {
        lemma_valid_count_le(self.mappings@);
    }

    /// The owning process.
    pub closed spec fn spec_pid(&self) -> u64 {
        self.pid
    }

    /// Whether the table belongs to a process.
    pub closed spec fn spec_in_use(&self) -> bool {
        self.in_use
    }

    /// Mappings added since the table was taken.
    pub closed spec fn spec_count(&self) -> nat {
        self.count as nat
    }

    /// An unused table with empty slots.
    pub fn new() -> (r: Self)
        ensures
            r.wf(),
            !r.spec_in_use(),
            r.spec_count() == 0,
            forall|i: int| 0 <= i < MAX_MAPPINGS ==> !(#[trigger] r@[i]).valid,
    {
        proof {
            lemma_valid_count_le(Seq::<MemoryMapping>::empty());
        }
        let mut mappings: Vec<MemoryMapping> = Vec::new();
        let mut i: usize = 0;
        while i < MAX_MAPPINGS
            invariant
                i <= MAX_MAPPINGS,
                mappings@.len() == i,
                forall|j: int| 0 <= j < i ==> !(#[trigger] mappings@[j]).valid,
            decreases MAX_MAPPINGS - i,
        {
            mappings.push(MemoryMapping::new());
            i = i + 1;
        }
        MmapTable { pid: 0, in_use: false, mappings, count: 0 }
    }

    /// Give the table to process `pid`, with a count of zero. The slots are
    /// left as they are.
    pub fn init(&mut self, pid: u64)
        requires
            old(self).wf(),
        ensures
            final(self).wf(),
            final(self).spec_pid() == pid,
            final(self).spec_in_use(),
            final(self).spec_count() == 0,
            final(self)@ == old(self)@,
    {
        self.pid = pid;
        self.in_use = true;
        self.count = 0;
    }

    /// Whether the table is in use by process `pid`.
    pub open spec fn owned_by(&self, pid: u64) -> bool {
        self.spec_in_use() && self.spec_pid() == pid
    }

    /// Whether the table is in use by process `pid`.
    pub fn is_for_process(&self, pid: u64) -> (r: bool)
        ensures
            r == self.owned_by(pid),
    {
        self.in_use && self.pid == pid
    }

    /// Whether the table is in use.
    pub fn is_in_use(&self) -> (r: bool)
        ensures
            r == self.spec_in_use(),
    {
        self.in_use
    }

    /// Store a mapping in the first empty slot and return the slot; None
    /// when every slot holds a mapping.
    pub fn add_mapping(&mut self, mapping: MemoryMapping) -> (r: Option<usize>)
        requires
            old(self).wf(),
            mapping.valid,
        ensures
            final(self).wf(),
            final(self).spec_pid() == old(self).spec_pid(),
            final(self).spec_in_use() == old(self).spec_in_use(),
            r is None <==> forall|i: int| 0 <= i < MAX_MAPPINGS ==> (#[trigger] old(self)@[i]).valid,
            r is None ==> final(self)@ == old(self)@ && final(self).spec_count() == old(self).spec_count(),
            r matches Some(i) ==> {
                &&& i < MAX_MAPPINGS
                &&& !old(self)@[i as int].valid
                &&& forall|j: int| 0 <= j < i ==> (#[trigger] old(self)@[j]).valid
                &&& final(self)@ == old(self)@.update(i as int, mapping)
                &&& final(self).spec_count() == old(self).spec_count() + 1
            },
    {
        let mut idx: usize = 0;
        while idx < MAX_MAPPINGS
            invariant
                self.wf(),
                *self == *old(self),
                mapping.valid,
                idx <= MAX_MAPPINGS,
                forall|j: int| 0 <= j < idx ==> (#[trigger] self@[j]).valid,
            decreases MAX_MAPPINGS - idx,
        {
            if !self.mappings[idx].valid {
                proof {
                    lemma_valid_count_bound(self.mappings@, idx as int);
                    lemma_valid_count_fill(self.mappings@, idx as int, mapping);
                }
                self.mappings.set(idx, mapping);
                self.count = self.count + 1;
                return Some(idx);
            }
            idx = idx + 1;
        }
        None
    }

    /// The first mapping covering `addr`, if any.
    pub fn find_mapping(&self, addr: u64) -> (r: Option<MemoryMapping>)
        requires
            self.wf(),
        ensures
            r is None <==> forall|i: int| 0 <= i < MAX_MAPPINGS ==> !spec_contains(#[trigger] self@[i], addr),
            r matches Some(m) ==> exists|i: int|
                0 <= i < MAX_MAPPINGS && #[trigger] self@[i] == m && spec_contains(m, addr) && forall|j: int|
                    0 <= j < i ==> !spec_contains(#[trigger] self@[j], addr),
    {
        let mut idx: usize = 0;
        while idx < MAX_MAPPINGS
            invariant
                self.wf(),
                idx <= MAX_MAPPINGS,
                forall|j: int| 0 <= j < idx ==> !spec_contains(#[trigger] self@[j], addr),
            decreases MAX_MAPPINGS - idx,
        {
            let m = self.mappings[idx];
            if m.contains(addr) {
                assert(self@[idx as int] == m);
                return Some(m);
            }
            idx = idx + 1;
        }
        None
    }

    /// Mappings added since the table was taken (saturating at the slot count).
    pub fn count(&self) -> (r: usize)
        ensures
            r == self.spec_count(),
    {
        self.count
    }
}

} // verus!

verus! {

/// The mapping tables of all processes.
pub struct MmapManager {
    tables: Vec<MmapTable>,
}

/// How `get_table` picked table `i` for `pid`: the first already in use by
/// `pid` (nothing changes), or else the first unused one, which is given to
/// `pid` with its slots kept and every other table unchanged.
pub open spec fn spec_table_chosen(before: Seq<MmapTable>, after: Seq<MmapTable>, i: int, pid: u64) -> bool {
    if before[i].owned_by(pid) {
        &&& forall|j: int| 0 <= j < i ==> !(#[trigger] before[j]).owned_by(pid)
        &&& after == before
    } else {
        &&& forall|j: int| 0 <= j < MAX_TABLES ==> !(#[trigger] before[j]).owned_by(pid)
        &&& !before[i].spec_in_use()
        &&& forall|j: int| 0 <= j < i ==> (#[trigger] before[j]).spec_in_use()
        &&& after[i].spec_count() == 0
        &&& after[i]@ == before[i]@
        &&& after.len() == before.len()
        &&& forall|j: int| 0 <= j < before.len() && j != i ==> #[trigger] after[j] == before[j]
    }
}

/// The mapping `sys_mmap` records.
pub open spec fn spec_new_mapping(
    v: u64,
    length: usize,
    prot: ProtFlags,
    flags: MmapFlags,
    fd: i32,
    offset: u64,
) -> MemoryMapping {
    MemoryMapping {
        vaddr: v,
        length: page_round_up(length) as usize,
        prot,
        flags,
        fd: if fd >= 0 { Some(fd as u32) } else { None },
        offset,
        valid: true,
    }
}

impl MmapManager {
    /// One table per slot, each well formed.
    pub closed spec fn wf(&self) -> bool {
        &&& self.tables@.len() == MAX_TABLES
        &&& forall|i: int| 0 <= i < MAX_TABLES ==> (#[trigger] self.tables@[i]).wf()
    }

    /// The tables.
    pub closed spec fn view(&self) -> Seq<MmapTable> {
        self.tables@
    }

    /// All tables unused.
    pub fn new() -> (r: Self)
        ensures
            r.wf(),
            forall|i: int| 0 <= i < MAX_TABLES ==> !(#[trigger] r@[i]).spec_in_use(),
    {
        let mut tables: Vec<MmapTable> = Vec::new();
        let mut i: usize = 0;
        while i < MAX_TABLES
            invariant
                i <= MAX_TABLES,
                tables@.len() == i,
                forall|j: int| 0 <= j < i ==> (#[trigger] tables@[j]).wf() && !tables@[j].spec_in_use(),
            decreases MAX_TABLES - i,
        {
            tables.push(MmapTable::new());
            i = i + 1;
        }
        MmapManager { tables }
    }

    /// The table of process `pid`: the first in use by it, else the first
    /// unused one, which is given to `pid`. None when neither exists.
    pub fn get_table(&mut self, pid: u64) -> (r: Option<usize>)
        requires
            old(self).wf(),
        ensures
            final(self).wf(),
            r is None <==> forall|i: int| 0 <= i < MAX_TABLES ==> (#[trigger] old(self)@[i]).spec_in_use()
                && old(self)@[i].spec_pid() != pid,
            r is None ==> final(self)@ == old(self)@,
            r matches Some(i) ==> i < MAX_TABLES && final(self)@[i as int].owned_by(pid)
                && spec_table_chosen(old(self)@, final(self)@, i as int, pid),
    {
        let mut i: usize = 0;
        while i < MAX_TABLES
            invariant
                self.wf(),
                *self == *old(self),
                i <= MAX_TABLES,
                forall|j: int| 0 <= j < i ==> !(#[trigger] self@[j]).owned_by(pid),
            decreases MAX_TABLES - i,
        {
            if self.tables[i].is_for_process(pid) {
                assert(!(old(self)@[i as int].spec_in_use() && old(self)@[i as int].spec_pid() != pid));
                return Some(i);
            }
            i = i + 1;
        }
        let mut k: usize = 0;
        while k < MAX_TABLES
            invariant
                self.wf(),
                *self == *old(self),
                k <= MAX_TABLES,
                forall|j: int| 0 <= j < MAX_TABLES ==> !(#[trigger] self@[j]).owned_by(pid),
                forall|j: int| 0 <= j < k ==> (#[trigger] self@[j]).spec_in_use(),
            decreases MAX_TABLES - k,
        {
            if !self.tables[k].is_in_use() {
                assert(!(old(self)@[k as int].spec_in_use() && old(self)@[k as int].spec_pid() != pid));
                let ghost before = self.tables@;
                self.tables[k].init(pid);
                proof {
                    assert forall|j: int| 0 <= j < MAX_TABLES implies (#[trigger] self.tables@[j]).wf() by {
                        if j != k {
                            assert(self.tables@[j] == before[j]);
                        }
                    }
                }
                return Some(k);
            }
            k = k + 1;
        }
        None
    }
}

/// Length of a mapping: the requested length rounded up to whole pages.
pub open spec fn page_round_up(length: usize) -> int {
    (length + PAGE_SIZE - 1) / (PAGE_SIZE as int) * PAGE_SIZE
}

/// Where a new mapping goes: the requested address, or (for address 0) a
/// slot after the table's earlier mappings.
pub open spec fn spec_mmap_addr(addr: u64, count: nat) -> int {
    if addr != 0 { addr as int } else { MMAP_BASE + count * MMAP_STRIDE }
}

/// Table `i` is the one `get_table` gives `pid`: the first owned by `pid`,
/// or, when none is, the first unused one.
pub open spec fn table_pick(t: Seq<MmapTable>, pid: u64, i: int) -> bool {
    &&& 0 <= i < MAX_TABLES
    &&& if t[i].owned_by(pid) {
        forall|j: int| 0 <= j < i ==> !(#[trigger] t[j]).owned_by(pid)
    } else {
        &&& forall|j: int| 0 <= j < MAX_TABLES ==> !(#[trigger] t[j]).owned_by(pid)
        &&& !t[i].spec_in_use()
        &&& forall|j: int| 0 <= j < i ==> (#[trigger] t[j]).spec_in_use()
    }
}

/// No table is owned by `pid` and none is unused.
pub open spec fn no_table(t: Seq<MmapTable>, pid: u64) -> bool {
    forall|i: int| 0 <= i < MAX_TABLES ==> (#[trigger] t[i]).spec_in_use() && t[i].spec_pid() != pid
}

/// The mapping count table `i` has for `pid` once `get_table` gave it:
/// its own count when `pid` owns it, 0 when it is newly taken.
pub open spec fn start_count(t: Seq<MmapTable>, pid: u64, i: int) -> nat {
    if t[i].owned_by(pid) { t[i].spec_count() } else { 0 }
}

/// Slot `k` is the first empty one.
pub open spec fn first_free_slot(s: Seq<MemoryMapping>, k: int) -> bool {
    0 <= k < MAX_MAPPINGS && !s[k].valid && forall|j: int| 0 <= j < k ==> (#[trigger] s[j]).valid
}

/// Some slot is empty.
pub open spec fn has_free_slot(s: Seq<MemoryMapping>) -> bool {
    exists|k: int| 0 <= k < MAX_MAPPINGS && !(#[trigger] s[k]).valid
}

proof fn lemma_table_pick_unique(t: Seq<MmapTable>, pid: u64, i: int, k: int)
    requires
        table_pick(t, pid, i),
        table_pick(t, pid, k),
    ensures
        i == k,
{
    if i < k {
        if t[k].owned_by(pid) {
            assert(!t[i].owned_by(pid));
            assert(t[i].spec_in_use());
        } else {
            assert(t[i].spec_in_use());
        }
    } else if k < i {
        if t[i].owned_by(pid) {
            assert(!t[k].owned_by(pid));
            assert(t[k].spec_in_use());
        } else {
            assert(t[k].spec_in_use());
        }
    }
}

/// Map `length` bytes for process `pid` (rounded up to whole pages) and
/// return the start address: `addr` when non-zero, else the next free slot
/// of the placement area. The range is recorded in the process's table.
///
/// Errors, in this order: a zero length, no table for the process, an
/// address not page-aligned, and a full table.
pub fn sys_mmap(
    manager: &mut MmapManager,
    pid: u64,
    addr: u64,
    length: usize,
    prot: ProtFlags,
    flags: MmapFlags,
    fd: i32,
    offset: u64,
) -> (r: Result<u64, &'static str>)
    requires
        old(manager).wf(),
        length + PAGE_SIZE - 1 <= usize::MAX,
    ensures
        final(manager).wf(),
        length == 0 ==> (r matches Err(e) && e@ == "Invalid length"@) && final(manager)@ == old(manager)@,
        length > 0 && (forall|i: int| 0 <= i < MAX_TABLES ==> (#[trigger] old(manager)@[i]).spec_in_use()
            && old(manager)@[i].spec_pid() != pid) ==> (r matches Err(e) && e@ == "No mmap table"@)
            && final(manager)@ == old(manager)@,
        length > 0 && addr % 4096 != 0 && (exists|i: int| 0 <= i < MAX_TABLES && !((#[trigger] old(
            manager,
        )@[i]).spec_in_use() && old(manager)@[i].spec_pid() != pid)) ==> (r matches Err(e) && e@
            == "Address not page aligned"@),
        r matches Err(e) ==> e@ == "Invalid length"@ || e@ == "No mmap table"@ || e@
            == "Address not page aligned"@ || e@ == "Too many mappings"@,
        length > 0 && !no_table(old(manager)@, pid) ==> exists|i: int| #[trigger] table_pick(old(manager)@, pid, i),
        forall|i: int|
            #[trigger] table_pick(old(manager)@, pid, i) && length > 0 ==> {
                let v = spec_mmap_addr(addr, start_count(old(manager)@, pid, i));
                let slots = old(manager)@[i]@;
                &&& v % 4096 != 0 ==> (r matches Err(e) && e@ == "Address not page aligned"@)
                &&& v % 4096 == 0 ==> (r is Ok <==> has_free_slot(slots))
                &&& v % 4096 == 0 && !has_free_slot(slots) ==> (r matches Err(e) && e@ == "Too many mappings"@)
                &&& final(manager)@[i].owned_by(pid)
                &&& forall|j: int| 0 <= j < MAX_TABLES && j != i ==> #[trigger] final(manager)@[j] == old(manager)@[j]
                &&& r is Err ==> final(manager)@[i]@ == slots && final(manager)@[i].spec_count() == start_count(
                    old(manager)@,
                    pid,
                    i,
                )
                &&& r matches Ok(x) ==> {
                    &&& x == v
                    &&& final(manager)@[i].spec_count() == start_count(old(manager)@, pid, i) + 1
                    &&& exists|k: int|
                        #[trigger] first_free_slot(slots, k) && final(manager)@[i]@ == slots.update(
                            k,
                            spec_new_mapping(x, length, prot, flags, fd, offset),
                        )
                }
            },
        r matches Ok(v) ==> length > 0{
    proof {
        reveal_strlit("Invalid length");
        reveal_strlit("No mmap table");
        reveal_strlit("Address not page aligned");
        reveal_strlit("Too many mappings");
    }
    if length == 0 {
        return Err("Invalid length");
    }
    let rounded = length + (PAGE_SIZE - 1);
    let pages = rounded / PAGE_SIZE;
    assert(pages * PAGE_SIZE <= rounded) by (nonlinear_arith)
        requires
            pages == rounded / 4096,
    ;
    let page_aligned_length = pages * PAGE_SIZE;
    let t = match manager.get_table(pid) {
        Some(t) => t,
        None => {
            return Err("No mmap table");
        },
    };
    assert(manager@[t as int].wf());
    proof {
        assert(table_pick(old(manager)@, pid, t as int));
        assert forall|i: int| #[trigger] table_pick(old(manager)@, pid, i) implies i == t by {
            lemma_table_pick_unique(old(manager)@, pid, i, t as int);
        }
        assert(manager@[t as int].spec_count() == start_count(old(manager)@, pid, t as int));
        assert(manager@[t as int]@ == old(manager)@[t as int]@);
    }
    let count = manager.tables[t].count();
    proof {
        manager@[t as int].lemma_count_bound();
    }
    let vaddr = if addr != 0 { addr } else { MMAP_BASE + (count as u64) * MMAP_STRIDE };
    if vaddr % 4096 != 0 {
        return Err("Address not page aligned");
    }
    let fd_opt = if fd >= 0 { Some(fd as u32) } else { None };
    let mapping = MemoryMapping::create(vaddr, page_aligned_length, prot, flags, fd_opt, offset);
    let ghost before = manager.tables@;
    let added = manager.tables[t].add_mapping(mapping);
    proof {
        assert forall|j: int| 0 <= j < MAX_TABLES implies (#[trigger] manager.tables@[j]).wf() by {
            if j != t {
                assert(manager.tables@[j] == before[j]);
            }
        }
    }
    proof {
        if added is None {
            assert(!has_free_slot(before[t as int]@));
        } else {
            assert(has_free_slot(before[t as int]@));
            assert(first_free_slot(before[t as int]@, added.unwrap() as int));
        }
    }
    match added {
        Some(slot) => {
            proof {
                assert(manager@[t as int]@[slot as int] == mapping);
                assert(manager@[t as int].owned_by(pid));
            }
            Ok(vaddr)
        },
        None => Err("Too many mappings"),
    }
}


/// A mapping `sys_mmap` records covers whole pages: its length is the
/// requested length rounded up to the next multiple of 4096; it starts at
/// the address handed back and keeps the protection, flags, offset and
/// backing descriptor (none for a negative one) asked for.
pub proof fn lemma_new_mapping_whole_pages(
    v: u64,
    length: usize,
    prot: ProtFlags,
    flags: MmapFlags,
    fd: i32,
    offset: u64,
)
    requires
        length > 0,
        length + PAGE_SIZE - 1 <= usize::MAX,
    ensures
        ({
            let m = spec_new_mapping(v, length, prot, flags, fd, offset);
            &&& m.length % 4096 == 0
            &&& length <= m.length < length + 4096
            &&& m.vaddr == v
            &&& m.valid
            &&& m.prot == prot
            &&& m.flags == flags
            &&& m.offset == offset
            &&& (m.fd is None <==> fd < 0)
            &&& (fd >= 0 ==> m.fd == Some(fd as u32))
        }),
{
    let n = length as int + 4095;
    assert((n / 4096) * 4096 <= n && n < (n / 4096) * 4096 + 4096 && ((n / 4096) * 4096) % 4096 == 0)
        by (nonlinear_arith)
        requires
            n >= 0,
    ;
}

} // verus!

verus! {

/// The first mapping of the table covering `addr`.
pub open spec fn is_first_cover(t: Seq<MemoryMapping>, m: MemoryMapping, addr: u64) -> bool {
    exists|i: int|
        0 <= i < t.len() && #[trigger] t[i] == m && spec_contains(m, addr) && forall|j: int|
            0 <= j < i ==> !spec_contains(#[trigger] t[j], addr)
}

/// What msync and mprotect check: the process's table has a mapping
/// covering `addr` whose end is not before `addr + length`.
pub open spec fn spec_range_check(manager: Seq<MmapTable>, pid: u64, addr: u64, length: usize, r: Result<(), &'static str>) -> bool {
    &&& r is Ok ==> exists|i: int, m: MemoryMapping|
        0 <= i < MAX_TABLES && #[trigger] manager[i].owned_by(pid) && #[trigger] is_first_cover(manager[i]@, m, addr)
            && addr + length <= m.vaddr + m.length
    &&& (r matches Err(e) && e@ == "Range exceeds mapping"@) ==> exists|i: int, m: MemoryMapping|
        0 <= i < MAX_TABLES && #[trigger] manager[i].owned_by(pid) && #[trigger] is_first_cover(manager[i]@, m, addr)
            && addr + length > m.vaddr + m.length
    &&& (r matches Err(e) && e@ == "Address not mapped"@) ==> exists|i: int|
        0 <= i < MAX_TABLES && #[trigger] manager[i].owned_by(pid) && forall|k: int|
            0 <= k < MAX_MAPPINGS ==> !spec_contains(#[trigger] manager[i]@[k], addr)
}

/// What checking `addr..addr + length` against the table `get_table` gives
/// `pid` in `t` answers: "No mmap table" when there is none; else "Address
/// not mapped" when no mapping covers `addr`; else Ok exactly when the
/// first mapping covering `addr` reaches `addr + length`, "Range exceeds
/// mapping" otherwise.
pub open spec fn range_outcome(t: Seq<MmapTable>, pid: u64, addr: u64, length: usize, r: Result<(), &'static str>) -> bool {
    &&& no_table(t, pid) <==> (r matches Err(e) && e@ == "No mmap table"@)
    &&& forall|i: int|
        #[trigger] table_pick(t, pid, i) ==> {
            &&& (forall|k: int| 0 <= k < MAX_MAPPINGS ==> !spec_contains(#[trigger] t[i]@[k], addr)) <==> (r matches Err(
                e,
            ) && e@ == "Address not mapped"@)
            &&& forall|m: MemoryMapping|
                #[trigger] is_first_cover(t[i]@, m, addr) ==> {
                    &&& r is Ok <==> addr + length <= m.vaddr + m.length
                    &&& r is Err ==> (r matches Err(e) && e@ == "Range exceeds mapping"@)
                }
        }
}

/// Find the mapping covering `addr + ..length` in the process's table.
fn check_range(manager: &mut MmapManager, pid: u64, addr: u64, length: usize) -> (r: Result<(), &'static str>)
    requires
        old(manager).wf(),
    ensures
        final(manager).wf(),
        (forall|i: int| 0 <= i < MAX_TABLES ==> (#[trigger] old(manager)@[i]).spec_in_use()
            && old(manager)@[i].spec_pid() != pid) ==> (r matches Err(e) && e@ == "No mmap table"@)
            && final(manager)@ == old(manager)@,
        r matches Err(e) ==> e@ == "No mmap table"@ || e@ == "Address not mapped"@ || e@
            == "Range exceeds mapping"@,
        spec_range_check(final(manager)@, pid, addr, length, r),
        range_outcome(old(manager)@, pid, addr, length, r),
        forall|i: int| 0 <= i < MAX_TABLES ==> (#[trigger] final(manager)@[i])@ == old(manager)@[i]@,
{
    proof {
        reveal_strlit("No mmap table");
        reveal_strlit("Address not mapped");
        reveal_strlit("Range exceeds mapping");
    }
    let t = match manager.get_table(pid) {
        Some(t) => t,
        None => {
            return Err("No mmap table");
        },
    };
    assert(manager@[t as int].wf());
    proof {
        assert(table_pick(old(manager)@, pid, t as int));
        assert forall|i: int| #[trigger] table_pick(old(manager)@, pid, i) implies i == t by {
            lemma_table_pick_unique(old(manager)@, pid, i, t as int);
        }
        assert(manager@[t as int]@ == old(manager)@[t as int]@);
        assert(!no_table(old(manager)@, pid));
        let e: &'static str = "No mmap table";
        assert(e@.len() != "Address not mapped"@.len() && e@.len() != "Range exceeds mapping"@.len());
    }
    let mapping = match manager.tables[t].find_mapping(addr) {
        Some(m) => m,
        None => {
            proof {
                let tt = manager@[t as int];
                assert(tt.owned_by(pid));
                assert(forall|k: int| 0 <= k < MAX_MAPPINGS ==> !spec_contains(#[trigger] tt@[k], addr));
                let e: &'static str = "Address not mapped";
                assert(e@ != "Range exceeds mapping"@) by {
                    assert(e@.len() != "Range exceeds mapping"@.len());
                }
            }
            return Err("Address not mapped");
        },
    };
    proof {
        assert(manager@[t as int].owned_by(pid));
        assert(manager@[t as int]@.len() == MAX_MAPPINGS);
        assert(is_first_cover(manager@[t as int]@, mapping, addr));
    }
    proof {
        assert forall|m: MemoryMapping| #[trigger] is_first_cover(manager@[t as int]@, m, addr) implies m == mapping by {
            let a = choose|a: int| 0 <= a < manager@[t as int]@.len() && #[trigger] manager@[t as int]@[a] == m && spec_contains(m, addr) && forall|j: int| 0 <= j < a ==> !spec_contains(#[trigger] manager@[t as int]@[j], addr);
            let b = choose|b: int| 0 <= b < manager@[t as int]@.len() && #[trigger] manager@[t as int]@[b] == mapping && spec_contains(mapping, addr) && forall|j: int| 0 <= j < b ==> !spec_contains(#[trigger] manager@[t as int]@[j], addr);
            if a < b {
                assert(!spec_contains(manager@[t as int]@[a], addr));
            } else if b < a {
                assert(!spec_contains(manager@[t as int]@[b], addr));
            }
        }
        assert(spec_contains(mapping, addr));
    }
    if (addr as u128) + (length as u128) > (mapping.vaddr as u128) + (mapping.length as u128) {
        proof {
            let e: &'static str = "Range exceeds mapping";
            assert(e@ != "Address not mapped"@) by {
                assert(e@.len() != "Address not mapped"@.len());
            }
        }
        return Err("Range exceeds mapping");
    }
    Ok(())
}

/// Flush a mapped range of process `pid` to its file. Shared file-backed
/// mappings would be written back; nothing needs doing for the others.
///
/// Errors: no table for the process, no mapping covering `addr`, or a range
/// that runs past the end of that mapping. A zero length succeeds at once.
pub fn sys_msync(manager: &mut MmapManager, pid: u64, addr: u64, length: usize, flags: MsyncFlags) -> (r: Result<(), &'static str>)
    requires
        old(manager).wf(),
    ensures
        final(manager).wf(),
        length == 0 ==> r is Ok && final(manager)@ == old(manager)@,
        length > 0 ==> spec_range_check(final(manager)@, pid, addr, length, r),
        length > 0 ==> range_outcome(old(manager)@, pid, addr, length, r),
        length > 0 && (forall|i: int| 0 <= i < MAX_TABLES ==> (#[trigger] old(manager)@[i]).spec_in_use()
            && old(manager)@[i].spec_pid() != pid) ==> (r matches Err(e) && e@ == "No mmap table"@),
        r matches Err(e) ==> e@ == "No mmap table"@ || e@ == "Address not mapped"@ || e@
            == "Range exceeds mapping"@,
        forall|i: int| 0 <= i < MAX_TABLES ==> (#[trigger] final(manager)@[i])@ == old(manager)@[i]@,
{
    if length == 0 {
        return Ok(());
    }
    check_range(manager, pid, addr, length)
}

/// Change the protection of a mapped range of process `pid`. The mapping
/// table is not changed (page protections are applied by the pager).
///
/// Errors: an address not page-aligned, no table for the process, no mapping
/// covering `addr`, or a range that runs past the end of that mapping. A
/// zero length succeeds at once.
pub fn sys_mprotect(manager: &mut MmapManager, pid: u64, addr: u64, length: usize, prot: ProtFlags) -> (r: Result<(), &'static str>)
    requires
        old(manager).wf(),
    ensures
        final(manager).wf(),
        length == 0 ==> r is Ok && final(manager)@ == old(manager)@,
        length > 0 && addr % 4096 != 0 ==> (r matches Err(e) && e@ == "Address not page aligned"@)
            && final(manager)@ == old(manager)@,
        length > 0 && addr % 4096 == 0 ==> spec_range_check(final(manager)@, pid, addr, length, r),
        length > 0 && addr % 4096 == 0 ==> range_outcome(old(manager)@, pid, addr, length, r),
        r matches Err(e) ==> e@ == "Address not page aligned"@ || e@ == "No mmap table"@ || e@
            == "Address not mapped"@ || e@ == "Range exceeds mapping"@,
        forall|i: int| 0 <= i < MAX_TABLES ==> (#[trigger] final(manager)@[i])@ == old(manager)@[i]@,
{
    proof {
        reveal_strlit("Address not page aligned");
    }
    if length == 0 {
        return Ok(());
    }
    if addr % 4096 != 0 {
        return Err("Address not page aligned");
    }
    check_range(manager, pid, addr, length)
}

} // verus!
