//! Checks on user pointers and page permissions, and the W^X policy
//! (a page is writable or executable, never both).
use vstd::prelude::*;

use crate::mm::paging::{
    has_bits, PageMapper, PageTableFlags, NO_EXECUTE, PRESENT, USER, WRITABLE,
};
use crate::mm::pmm::PhysicalMemoryManager;
use crate::mm::{PhysAddr, VirtAddr};
use crate::sched::task::USER_LIMIT;

verus! {

/// Why a memory access was refused.
#[derive(Debug, Clone, Copy, PartialEq, Eq, Structural)]
pub enum SecurityError {
    /// Invalid pointer (null or out of bounds)
    InvalidPointer,
    /// Pointer not aligned
    Misaligned,
    /// Permission denied (page not readable/writable)
    PermissionDenied,
    /// Overflow in address calculation
    Overflow,
    /// Page not present
    PageNotPresent,
}

/// Result type for security operations
pub type SecurityResult<T> = Result<T, SecurityError>;

/// A user pointer is non-null and below `USER_LIMIT`.
pub open spec fn spec_user_pointer(ptr: u64) -> bool {
    ptr != 0 && ptr < USER_LIMIT
}

/// A user range is non-null, does not wrap, and ends at or below `USER_LIMIT`.
pub open spec fn spec_user_range(ptr: u64, len: u64) -> bool {
    ptr != 0 && ptr + len <= u64::MAX && ptr < USER_LIMIT && ptr + len <= USER_LIMIT
}

/// Whether `ptr` is a user-space pointer.
pub fn is_user_pointer(ptr: u64) -> (r: bool)
    ensures
        r == spec_user_pointer(ptr),
{
    ptr != 0 && ptr < USER_LIMIT
}

/// Whether the range `ptr..ptr+len` lies in user space.
pub fn is_user_range(ptr: u64, len: u64) -> (r: bool)
    ensures
        r == spec_user_range(ptr, len),
{
    if ptr == 0 {
        return false;
    }
    match ptr.checked_add(len) {
        Some(end) => ptr < USER_LIMIT && end <= USER_LIMIT,
        None => false,
    }
}

/// Whether `ptr` is aligned for values of type `T`.
pub fn is_aligned<T>(ptr: u64) -> (r: bool)
    ensures
        r == (ptr as int % vstd::layout::align_of::<T>() as int == 0),
{
    vstd::layout::layout_for_type_is_valid::<T>();
    let align = core::mem::align_of::<T>();
    ptr % (align as u64) == 0
}

/// The checks shared by the read and write validation: in user space,
/// aligned for `T`, and the whole value in user space.
pub open spec fn spec_pointer_checks<T>(ptr: u64) -> SecurityResult<()> {
    if !spec_user_pointer(ptr) {
        Err(SecurityError::InvalidPointer)
    } else if ptr as int % vstd::layout::align_of::<T>() as int != 0 {
        Err(SecurityError::Misaligned)
    } else if !spec_user_range(ptr, vstd::layout::size_of::<T>() as u64) {
        Err(SecurityError::InvalidPointer)
    } else {
        Ok(())
    }
}

/// Check that a user pointer to a `T` may be read: a valid, aligned user
/// pointer whose page is mapped with USER.
pub fn validate_user_read<T>(ptr: u64, mapper: &PageMapper) -> (r: SecurityResult<()>)
    requires
        mapper.wf(),
    ensures
        spec_pointer_checks::<T>(ptr) is Err ==> r == spec_pointer_checks::<T>(ptr),
        spec_pointer_checks::<T>(ptr) is Ok ==> r == match mapper.spec_page_flags(ptr) {
            None => Err(SecurityError::PageNotPresent),
            Some(f) => if !has_bits(f, USER) {
                Err(SecurityError::PermissionDenied)
            } else {
                Ok(())
            },
        },
{
    if !is_user_pointer(ptr) {
        return Err(SecurityError::InvalidPointer);
    }
    if !is_aligned::<T>(ptr) {
        return Err(SecurityError::Misaligned);
    }
    vstd::layout::layout_for_type_is_valid::<T>();
    let size = core::mem::size_of::<T>();
    if !is_user_range(ptr, size as u64) {
        return Err(SecurityError::InvalidPointer);
    }
    match mapper.get_page_flags(ptr) {
        Some(flags) => {
            if (flags.bits() & USER) == 0 {
                return Err(SecurityError::PermissionDenied);
            }
            Ok(())
        },
        None => Err(SecurityError::PageNotPresent),
    }
}

/// Check that a user pointer to a `T` may be written: a valid, aligned user
/// pointer whose page is mapped with USER and WRITABLE.
pub fn validate_user_write<T>(ptr: u64, mapper: &PageMapper) -> (r: SecurityResult<()>)
    requires
        mapper.wf(),
    ensures
        spec_pointer_checks::<T>(ptr) is Err ==> r == spec_pointer_checks::<T>(ptr),
        spec_pointer_checks::<T>(ptr) is Ok ==> r == match mapper.spec_page_flags(ptr) {
            None => Err(SecurityError::PageNotPresent),
            Some(f) => if !has_bits(f, USER) || !has_bits(f, WRITABLE) {
                Err(SecurityError::PermissionDenied)
            } else {
                Ok(())
            },
        },
{
    if !is_user_pointer(ptr) {
        return Err(SecurityError::InvalidPointer);
    }
    if !is_aligned::<T>(ptr) {
        return Err(SecurityError::Misaligned);
    }
    vstd::layout::layout_for_type_is_valid::<T>();
    let size = core::mem::size_of::<T>();
    if !is_user_range(ptr, size as u64) {
        return Err(SecurityError::InvalidPointer);
    }
    match mapper.get_page_flags(ptr) {
        Some(flags) => {
            if (flags.bits() & USER) == 0 {
                return Err(SecurityError::PermissionDenied);
            }
            if (flags.bits() & WRITABLE) == 0 {
                return Err(SecurityError::PermissionDenied);
            }
            Ok(())
        },
        None => Err(SecurityError::PageNotPresent),
    }
}

/// W^X: not both writable and executable (NO_EXECUTE clear).
pub open spec fn spec_wx_ok(bits: u64) -> bool {
    !(has_bits(bits, WRITABLE) && !has_bits(bits, NO_EXECUTE))
}

/// Whether page flags follow W^X.
pub fn validate_wx_flags(flags: PageTableFlags) -> (r: bool)
    ensures
        r == spec_wx_ok(flags.0),
{
    let writable = (flags.bits() & WRITABLE) != 0;
    let executable = (flags.bits() & NO_EXECUTE) == 0;
    !(writable && executable)
}

} // verus!

verus! {

/// Flags of a code page (read + execute).
pub open spec fn spec_code_flags(user: bool) -> u64 {
    if user { PRESENT | USER } else { PRESENT }
}

/// Flags of a data or stack page (read + write, no execute).
pub open spec fn spec_data_flags(user: bool) -> u64 {
    if user { PRESENT | WRITABLE | NO_EXECUTE | USER } else { PRESENT | WRITABLE | NO_EXECUTE }
}

/// Flags of a read-only page (read, no write, no execute).
pub open spec fn spec_readonly_flags(user: bool) -> u64 {
    if user { PRESENT | NO_EXECUTE | USER } else { PRESENT | NO_EXECUTE }
}

/// The W^X-relevant bits of the region flags.
proof fn lemma_region_flag_bits()
    by (bit_vector)
    ensures
        (0x1u64 | 0x4u64) & 0x2u64 == 0 && (0x1u64 | 0x4u64) & 0x8000_0000_0000_0000u64 == 0,
        0x1u64 & 0x2u64 == 0 && 0x1u64 & 0x8000_0000_0000_0000u64 == 0,
        (0x1u64 | 0x2u64 | 0x8000_0000_0000_0000u64 | 0x4u64) & 0x2u64 != 0,
        (0x1u64 | 0x2u64 | 0x8000_0000_0000_0000u64 | 0x4u64) & 0x8000_0000_0000_0000u64 != 0,
        (0x1u64 | 0x2u64 | 0x8000_0000_0000_0000u64) & 0x2u64 != 0,
        (0x1u64 | 0x2u64 | 0x8000_0000_0000_0000u64) & 0x8000_0000_0000_0000u64 != 0,
        (0x1u64 | 0x8000_0000_0000_0000u64 | 0x4u64) & 0x2u64 == 0,
        (0x1u64 | 0x8000_0000_0000_0000u64 | 0x4u64) & 0x8000_0000_0000_0000u64 != 0,
        (0x1u64 | 0x8000_0000_0000_0000u64) & 0x2u64 == 0,
        (0x1u64 | 0x8000_0000_0000_0000u64) & 0x8000_0000_0000_0000u64 != 0,
        (0x1u64 | 0x4u64) & 0x000F_FFFF_FFFF_F000u64 == 0 && 0x1u64 & 0x000F_FFFF_FFFF_F000u64 == 0,
        (0x1u64 | 0x2u64 | 0x8000_0000_0000_0000u64 | 0x4u64) & 0x000F_FFFF_FFFF_F000u64 == 0,
        (0x1u64 | 0x2u64 | 0x8000_0000_0000_0000u64) & 0x000F_FFFF_FFFF_F000u64 == 0,
        (0x1u64 | 0x8000_0000_0000_0000u64 | 0x4u64) & 0x000F_FFFF_FFFF_F000u64 == 0,
        (0x1u64 | 0x8000_0000_0000_0000u64) & 0x000F_FFFF_FFFF_F000u64 == 0,
        (0x1u64 | 0x4u64) & 0x1u64 != 0 && 0x1u64 & 0x1u64 != 0,
        (0x1u64 | 0x2u64 | 0x8000_0000_0000_0000u64 | 0x4u64) & 0x1u64 != 0,
        (0x1u64 | 0x2u64 | 0x8000_0000_0000_0000u64) & 0x1u64 != 0,
        (0x1u64 | 0x8000_0000_0000_0000u64 | 0x4u64) & 0x1u64 != 0,
        (0x1u64 | 0x8000_0000_0000_0000u64) & 0x1u64 != 0,
{
}

/// The fixed page kinds keep W^X and are present with no address bits.
pub proof fn lemma_page_kind_flags(user: bool)
    ensures
        spec_wx_ok(spec_code_flags(user)),
        spec_wx_ok(spec_data_flags(user)),
        spec_wx_ok(spec_readonly_flags(user)),
        spec_code_flags(user) & crate::mm::paging::ADDR_MASK == 0,
        spec_data_flags(user) & crate::mm::paging::ADDR_MASK == 0,
        spec_readonly_flags(user) & crate::mm::paging::ADDR_MASK == 0,
        spec_code_flags(user) & PRESENT != 0,
        spec_data_flags(user) & PRESENT != 0,
        spec_readonly_flags(user) & PRESENT != 0,
{
    lemma_region_flag_bits();
}

/// Map a code page: present, executable, not writable (user-accessible when `user`).
pub fn map_code_page(
    mapper: &mut PageMapper,
    virt_addr: VirtAddr,
    phys_addr: PhysAddr,
    user: bool,
    pmm: &mut PhysicalMemoryManager,
) -> (r: Result<bool, &'static str>)
    requires
        old(mapper).wf(),
        old(pmm).wf(),
        old(mapper).reserved_in(old(pmm)),
    ensures
        final(mapper).wf(),
        final(pmm).wf(),
        final(mapper).reserved_in(final(pmm)),
        r is Ok <==> (virt_addr % 4096 == 0 && phys_addr % 4096 == 0 && old(pmm).free()
            >= old(mapper).missing_tables(virt_addr)),
        r matches Ok(was_mapped) ==> was_mapped == old(mapper).leaf(virt_addr) is Some && final(mapper).leaf(virt_addr) == Some(
            (((phys_addr & crate::mm::paging::ADDR_MASK) | spec_code_flags(user)), 0xfffu64),
        ),
{
    let mut flags = PRESENT;
    if user {
        flags = flags | USER;
    }
    proof {
        lemma_page_kind_flags(user);
    }
    if !validate_wx_flags(PageTableFlags(flags)) {
        return Err("W^X violation: code page cannot be writable");
    }
    mapper.map_page(virt_addr, phys_addr, PageTableFlags(flags), pmm)
}

/// Map a data page: present, writable, not executable (user-accessible when `user`).
pub fn map_data_page(
    mapper: &mut PageMapper,
    virt_addr: VirtAddr,
    phys_addr: PhysAddr,
    user: bool,
    pmm: &mut PhysicalMemoryManager,
) -> (r: Result<bool, &'static str>)
    requires
        old(mapper).wf(),
        old(pmm).wf(),
        old(mapper).reserved_in(old(pmm)),
    ensures
        final(mapper).wf(),
        final(pmm).wf(),
        final(mapper).reserved_in(final(pmm)),
        r is Ok <==> (virt_addr % 4096 == 0 && phys_addr % 4096 == 0 && old(pmm).free()
            >= old(mapper).missing_tables(virt_addr)),
        r matches Ok(was_mapped) ==> was_mapped == old(mapper).leaf(virt_addr) is Some && final(mapper).leaf(virt_addr) == Some(
            (((phys_addr & crate::mm::paging::ADDR_MASK) | spec_data_flags(user)), 0xfffu64),
        ),
{
    let mut flags = PRESENT | WRITABLE | NO_EXECUTE;
    if user {
        flags = flags | USER;
    }
    proof {
        lemma_page_kind_flags(user);
    }
    if !validate_wx_flags(PageTableFlags(flags)) {
        return Err("W^X violation: data page cannot be executable");
    }
    mapper.map_page(virt_addr, phys_addr, PageTableFlags(flags), pmm)
}

/// Map a stack page: present, writable, not executable (user-accessible when `user`).
pub fn map_stack_page(
    mapper: &mut PageMapper,
    virt_addr: VirtAddr,
    phys_addr: PhysAddr,
    user: bool,
    pmm: &mut PhysicalMemoryManager,
) -> (r: Result<bool, &'static str>)
    requires
        old(mapper).wf(),
        old(pmm).wf(),
        old(mapper).reserved_in(old(pmm)),
    ensures
        final(mapper).wf(),
        final(pmm).wf(),
        final(mapper).reserved_in(final(pmm)),
        r is Ok <==> (virt_addr % 4096 == 0 && phys_addr % 4096 == 0 && old(pmm).free()
            >= old(mapper).missing_tables(virt_addr)),
        r matches Ok(was_mapped) ==> was_mapped == old(mapper).leaf(virt_addr) is Some && final(mapper).leaf(virt_addr) == Some(
            (((phys_addr & crate::mm::paging::ADDR_MASK) | spec_data_flags(user)), 0xfffu64),
        ),
{
    let mut flags = PRESENT | WRITABLE | NO_EXECUTE;
    if user {
        flags = flags | USER;
    }
    proof {
        lemma_page_kind_flags(user);
    }
    if !validate_wx_flags(PageTableFlags(flags)) {
        return Err("W^X violation: stack page cannot be executable");
    }
    mapper.map_page(virt_addr, phys_addr, PageTableFlags(flags), pmm)
}

/// Map a read-only page: present, neither writable nor executable
/// (user-accessible when `user`).
pub fn map_readonly_page(
    mapper: &mut PageMapper,
    virt_addr: VirtAddr,
    phys_addr: PhysAddr,
    user: bool,
    pmm: &mut PhysicalMemoryManager,
) -> (r: Result<bool, &'static str>)
    requires
        old(mapper).wf(),
        old(pmm).wf(),
        old(mapper).reserved_in(old(pmm)),
    ensures
        final(mapper).wf(),
        final(pmm).wf(),
        final(mapper).reserved_in(final(pmm)),
        r is Ok <==> (virt_addr % 4096 == 0 && phys_addr % 4096 == 0 && old(pmm).free()
            >= old(mapper).missing_tables(virt_addr)),
        r matches Ok(was_mapped) ==> was_mapped == old(mapper).leaf(virt_addr) is Some && final(mapper).leaf(virt_addr) == Some(
            (((phys_addr & crate::mm::paging::ADDR_MASK) | spec_readonly_flags(user)), 0xfffu64),
        ),
{
    let mut flags = PRESENT | NO_EXECUTE;
    if user {
        flags = flags | USER;
    }
    proof {
        lemma_page_kind_flags(user);
    }
    if !validate_wx_flags(PageTableFlags(flags)) {
        return Err("W^X violation: unexpected");
    }
    mapper.map_page(virt_addr, phys_addr, PageTableFlags(flags), pmm)
}

/// Outcome of the W^X check of the page that maps `va`.
pub open spec fn spec_page_wx(mapper: &PageMapper, va: u64) -> SecurityResult<()> {
    match mapper.spec_page_flags(va) {
        None => Err(SecurityError::PageNotPresent),
        Some(f) => if spec_wx_ok(f) { Ok(()) } else { Err(SecurityError::PermissionDenied) },
    }
}

/// Check that the page mapping `virt_addr` follows W^X: not both writable
/// and executable.
pub fn validate_page_wx(mapper: &PageMapper, virt_addr: VirtAddr) -> (r: SecurityResult<()>)
    requires
        mapper.wf(),
    ensures
        r == spec_page_wx(mapper, virt_addr),
{
    match mapper.get_page_flags(virt_addr) {
        Some(flags) => {
            if !validate_wx_flags(flags) {
                return Err(SecurityError::PermissionDenied);
            }
            Ok(())
        },
        None => Err(SecurityError::PageNotPresent),
    }
}

/// First page of the range, and the page boundary at or after its end.
pub open spec fn range_pages(start: u64, len: u64) -> (int, int) {
    ((start - start % 4096) as int, ((start + len + 4095) / 4096 * 4096) as int)
}

/// Check every page overlapping `start_addr..start_addr+len` with
/// `validate_page_wx`, in address order; the first failure is returned.
/// `Overflow` when the range wraps.
pub fn validate_range_wx(mapper: &PageMapper, start_addr: VirtAddr, len: u64) -> (r: SecurityResult<()>)
    requires
        mapper.wf(),
        start_addr + len > u64::MAX || start_addr + len + 4095 <= u64::MAX,
    ensures
        start_addr + len > u64::MAX ==> r == Err::<(), SecurityError>(SecurityError::Overflow),
        start_addr + len <= u64::MAX ==> {
            let (first, end) = range_pages(start_addr, len);
            &&& r is Ok <==> forall|k: int|
                0 <= k && first + k * 4096 < end ==> #[trigger] spec_page_wx(mapper, (first + k * 4096) as u64) is Ok
            &&& r matches Err(e) ==> exists|k: int|
                0 <= k && first + k * 4096 < end && #[trigger] spec_page_wx(mapper, (first + k * 4096) as u64) == Err::<
                    (),
                    SecurityError,
                >(e) && forall|j: int| 0 <= j < k ==> #[trigger] spec_page_wx(mapper, (first + j * 4096) as u64) is Ok
        },
{
    let start_page = start_addr - start_addr % 4096;
    let end_addr = match start_addr.checked_add(len) {
        Some(addr) => addr,
        None => {
            return Err(SecurityError::Overflow);
        },
    };
    let end_page = (end_addr + 4095) / 4096 * 4096;
    let mut page = start_page;
    let ghost mut k: int = 0;
    proof {
        assert(start_page % 4096 == 0);
        assert(end_page % 4096 == 0);
    }
    while page < end_page
        invariant
            mapper.wf(),
            page == start_page + k * 4096,
            k >= 0,
            end_page <= u64::MAX,
            page % 4096 == 0,
            end_page % 4096 == 0,
            start_page <= page,
            page <= end_page,
            range_pages(start_addr, len) == (start_page as int, end_page as int),
            forall|j: int| 0 <= j < k ==> #[trigger] spec_page_wx(mapper, (start_page + j * 4096) as u64) is Ok,
        decreases end_page - page,
    {
        match validate_page_wx(mapper, page) {
            Ok(()) => {},
            Err(e) => {
                proof {
                    assert(spec_page_wx(mapper, (start_page + k * 4096) as u64) == Err::<(), SecurityError>(e));
                }
                return Err(e);
            },
        }
        proof {
            k = k + 1;
        }
        page = page + 4096;
    }
    proof {
        assert forall|kk: int| 0 <= kk && start_page + kk * 4096 < end_page implies #[trigger] spec_page_wx(
            mapper,
            (start_page + kk * 4096) as u64,
        ) is Ok by {
            assert(kk < k) by (nonlinear_arith)
                requires
                    start_page + kk * 4096 < end_page,
                    page >= end_page,
                    page == start_page + k * 4096,
            ;
        }
    }
    Ok(())
}

} // verus!

verus! {

/// Kind of memory region, for the W^X policy.
#[derive(Debug, Clone, Copy, PartialEq, Eq, Structural)]
pub enum MemoryRegionType {
    /// Code region (R+X, not W)
    Code,
    /// Data region (R+W, not X)
    Data,
    /// Stack region (R+W, not X)
    Stack,
    /// Read-only region (R, not W, not X)
    ReadOnly,
}

/// The flags a region of the given kind is mapped with.
pub open spec fn spec_region_flags(kind: MemoryRegionType, user: bool) -> u64 {
    match kind {
        MemoryRegionType::Code => spec_code_flags(user),
        MemoryRegionType::Data | MemoryRegionType::Stack => spec_data_flags(user),
        MemoryRegionType::ReadOnly => spec_readonly_flags(user),
    }
}

/// Whether flags have the writable/executable combination of the region kind.
pub open spec fn spec_region_accepts(kind: MemoryRegionType, bits: u64) -> bool {
    let writable = has_bits(bits, WRITABLE);
    let executable = !has_bits(bits, NO_EXECUTE);
    match kind {
        MemoryRegionType::Code => !writable && executable,
        MemoryRegionType::Data | MemoryRegionType::Stack => writable && !executable,
        MemoryRegionType::ReadOnly => !writable && !executable,
    }
}

impl MemoryRegionType {
    /// The page flags for this kind of region.
    pub fn flags(&self, user: bool) -> (r: PageTableFlags)
        ensures
            r.0 == spec_region_flags(*self, user),
    {
        let mut flags = PRESENT;
        if user {
            flags = flags | USER;
        }
        match self {
            MemoryRegionType::Code => PageTableFlags(flags),
            MemoryRegionType::Data | MemoryRegionType::Stack => {
                if user {
                    PageTableFlags(PRESENT | WRITABLE | NO_EXECUTE | USER)
                } else {
                    PageTableFlags(PRESENT | WRITABLE | NO_EXECUTE)
                }
            },
            MemoryRegionType::ReadOnly => {
                if user {
                    PageTableFlags(PRESENT | NO_EXECUTE | USER)
                } else {
                    PageTableFlags(PRESENT | NO_EXECUTE)
                }
            },
        }
    }

    /// Whether `flags` have this region kind's write/execute combination.
    pub fn validate_flags(&self, flags: PageTableFlags) -> (r: bool)
        ensures
            r == spec_region_accepts(*self, flags.0),
    {
        let writable = (flags.bits() & WRITABLE) != 0;
        let executable = (flags.bits() & NO_EXECUTE) == 0;
        match self {
            MemoryRegionType::Code => !writable && executable,
            MemoryRegionType::Data | MemoryRegionType::Stack => writable && !executable,
            MemoryRegionType::ReadOnly => !writable && !executable,
        }
    }
}

/// A region kind accepts its own flags, and those flags keep W^X.
pub proof fn lemma_region_flags_consistent(kind: MemoryRegionType, user: bool)
    ensures
        spec_region_accepts(kind, spec_region_flags(kind, user)),
        spec_wx_ok(spec_region_flags(kind, user)),
{
    lemma_region_flag_bits();
}

/// Outcome of checking one page of a user copy: mapped with USER, and with
/// WRITABLE too when the kernel writes to it.
pub open spec fn spec_copy_page_ok(mapper: &PageMapper, page: u64, write: bool) -> SecurityResult<()> {
    match mapper.spec_page_flags(page) {
        None => Err(SecurityError::PageNotPresent),
        Some(f) => if !has_bits(f, USER) || (write && !has_bits(f, WRITABLE)) {
            Err(SecurityError::PermissionDenied)
        } else {
            Ok(())
        },
    }
}

/// Check that the user range `ptr..ptr+len` may be copied from (`write`
/// false) or into (`write` true): the range lies in user space and every
/// page it overlaps, in address order, passes `spec_copy_page_ok`; the first
/// failure is returned. A kernel buffer of `buf_len` bytes must hold `len`.
pub fn check_user_copy(mapper: &PageMapper, ptr: u64, len: u64, buf_len: u64, write: bool) -> (r: SecurityResult<()>)
    requires
        mapper.wf(),
    ensures
        buf_len < len ==> r == Err::<(), SecurityError>(SecurityError::InvalidPointer),
        buf_len >= len && !spec_user_range(ptr, len) ==> r == Err::<(), SecurityError>(
            SecurityError::InvalidPointer,
        ),
        buf_len >= len && spec_user_range(ptr, len) ==> {
            let (first, end) = range_pages(ptr, len);
            &&& r is Ok <==> forall|k: int|
                0 <= k && first + k * 4096 < end ==> #[trigger] spec_copy_page_ok(mapper, (first + k * 4096) as u64, write) is Ok
            &&& r matches Err(e) ==> exists|k: int|
                0 <= k && first + k * 4096 < end && #[trigger] spec_copy_page_ok(mapper, (first + k * 4096) as u64, write)
                    == Err::<(), SecurityError>(e) && forall|j: int|
                    0 <= j < k ==> #[trigger] spec_copy_page_ok(mapper, (first + j * 4096) as u64, write) is Ok
        },
{
    if buf_len < len {
        return Err(SecurityError::InvalidPointer);
    }
    if !is_user_range(ptr, len) {
        return Err(SecurityError::InvalidPointer);
    }
    let start_page = ptr - ptr % 4096;
    let end_addr = ptr + len;
    let end_page = (end_addr + 4095) / 4096 * 4096;
    let mut page = start_page;
    let ghost mut k: int = 0;
    while page < end_page
        invariant
            mapper.wf(),
            page == start_page + k * 4096,
            k >= 0,
            end_page <= u64::MAX,
            page % 4096 == 0,
            end_page % 4096 == 0,
            start_page <= page,
            page <= end_page,
            range_pages(ptr, len) == (start_page as int, end_page as int),
            buf_len >= len,
            spec_user_range(ptr, len),
            forall|j: int| 0 <= j < k ==> #[trigger] spec_copy_page_ok(mapper, (start_page + j * 4096) as u64, write) is Ok,
        decreases end_page - page,
    {
        let res = match mapper.get_page_flags(page) {
            Some(flags) => {
                if (flags.bits() & USER) == 0 {
                    Err(SecurityError::PermissionDenied)
                } else if write && (flags.bits() & WRITABLE) == 0 {
                    Err(SecurityError::PermissionDenied)
                } else {
                    Ok(())
                }
            },
            None => Err(SecurityError::PageNotPresent),
        };
        match res {
            Ok(()) => {},
            Err(e) => {
                proof {
                    assert(spec_copy_page_ok(mapper, (start_page + k * 4096) as u64, write) == Err::<(), SecurityError>(e));
                }
                return Err(e);
            },
        }
        proof {
            k = k + 1;
        }
        page = page + 4096;
    }
    proof {
        assert forall|kk: int| 0 <= kk && start_page + kk * 4096 < end_page implies #[trigger] spec_copy_page_ok(
            mapper,
            (start_page + kk * 4096) as u64,
            write,
        ) is Ok by {
            assert(kk < k) by (nonlinear_arith)
                requires
                    start_page + kk * 4096 < end_page,
                    page >= end_page,
                    page == start_page + k * 4096,
            ;
        }
    }
    Ok(())
}

} // verus!
