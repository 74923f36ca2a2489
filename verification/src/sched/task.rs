//! Task control blocks: memory regions, signal state and process identity.
use vstd::prelude::*;

use crate::mm::paging::PageTableFlags;
use crate::sched::context::CpuContext;
use crate::sched::priority::TaskPriority;
use crate::signal::{SigAction, SigHandler};
use crate::signal::signals;

verus! {

/// Task identifier type
pub type TaskId = usize;

/// User space address limit (128 TiB)
pub const USER_LIMIT: u64 = 0x0000_8000_0000_0000;

/// Maximum number of memory regions per task
pub const MAX_MEMORY_REGIONS: usize = 16;

/// Number of signals (0..=63)
pub const MAX_SIGNALS: usize = 64;

/// Size of a kernel task stack
pub const STACK_SIZE: u64 = 8192;

/// Kinds of process memory regions.
#[derive(Debug, Clone, Copy, PartialEq, Eq, Structural)]
pub enum MemoryRegionType {
    /// Code segment (.text)
    Code,
    /// Data segment (.data)
    Data,
    /// Uninitialised data
    Bss,
    /// Stack segment
    Stack,
    /// Heap segment
    Heap,
}

/// A half-open range of virtual addresses with its page flags.
#[derive(Debug, Clone, Copy, PartialEq, Eq, Structural)]
pub struct MemoryRegion {
    /// Start virtual address (inclusive)
    pub start: u64,
    /// End virtual address (exclusive)
    pub end: u64,
    /// Page table flags for this region
    pub flags: PageTableFlags,
    /// Type of memory region
    pub region_type: MemoryRegionType,
}

impl MemoryRegion {
    /// Whether `addr` lies in the region.
    pub open spec fn spec_contains(self, addr: u64) -> bool {
        self.start <= addr < self.end
    }

    /// Whether two regions share an address.
    pub open spec fn spec_overlaps(self, other: MemoryRegion) -> bool {
        !(self.end <= other.start || other.end <= self.start)
    }

    /// Create a new memory region.
    pub fn new(start: u64, end: u64, flags: PageTableFlags, region_type: MemoryRegionType) -> (r: Self)
        ensures
            r == (MemoryRegion { start, end, flags, region_type }),
    {
        MemoryRegion { start, end, flags, region_type }
    }

    /// Check whether the region contains `addr`.
    pub fn contains(&self, addr: u64) -> (r: bool)
        ensures
            r == self.spec_contains(addr),
    {
        addr >= self.start && addr < self.end
    }

    /// Check whether this region overlaps another.
    pub fn overlaps_with(&self, other: &MemoryRegion) -> (r: bool)
        ensures
            r == self.spec_overlaps(*other),
    {
        !(self.end <= other.start || other.end <= self.start)
    }

    /// Size of the region in bytes.
    pub fn size(&self) -> (r: u64)
        requires
            self.start <= self.end,
        ensures
            r == self.end - self.start,
    {
        self.end - self.start
    }

    /// Whether both bounds are 4 KiB aligned.
    pub fn is_page_aligned(&self) -> (r: bool)
        ensures
            r == (self.start % 4096 == 0 && self.end % 4096 == 0),
    {
        (self.start % 4096 == 0) && (self.end % 4096 == 0)
    }
}

/// Scheduler error types.
#[derive(Debug, Clone, Copy, PartialEq, Eq, Structural)]
pub enum SchedulerError {
    /// Failed to allocate memory for the task stack
    OutOfMemory,
    /// Task table is full
    TooManyTasks,
    /// Invalid task ID
    InvalidTaskId,
    /// Runqueue is full
    RunqueueFull,
    /// Memory region overlap detected
    RegionOverlap,
    /// Invalid memory region (start >= end)
    InvalidRegion,
    /// Address not in user space
    InvalidUserAddress,
    /// Too many memory regions
    TooManyRegions,
}

/// Result type for scheduler operations
pub type SchedulerResult<T> = Result<T, SchedulerError>;

/// Task state.
#[derive(Debug, Clone, Copy, PartialEq, Eq, Structural)]
pub enum TaskState {
    /// Ready to run, waiting in a runqueue
    Ready,
    /// Currently running on a CPU
    Running,
    /// Sleeping until its wake tick
    Sleeping,
    /// Blocked on IPC
    Blocked,
}

/// Who a task runs as.
#[derive(Debug, Clone, Copy, PartialEq, Eq, Structural)]
pub struct Credentials {
    /// Effective user ID (0 = root)
    pub uid: u32,
    /// Whether the task is a kernel thread
    pub is_kernel_thread: bool,
}

/// Whether signal `i` is set in a 64-bit signal set.
pub open spec fn sig_bit(set: u64, i: u32) -> bool {
    (set >> (i as u64)) & 1u64 == 1u64
}

/// The regions of a task are valid user ranges that do not overlap.
pub open spec fn regions_valid(rs: Seq<MemoryRegion>) -> bool {
    &&& forall|i: int| 0 <= i < rs.len() ==> {
        &&& (#[trigger] rs[i]).start < rs[i].end
        &&& rs[i].end <= USER_LIMIT
    }
    &&& forall|i: int, j: int|
        0 <= i < j < rs.len() ==> !(#[trigger] rs[i]).spec_overlaps(#[trigger] rs[j])
}

/// Task control block.
#[derive(Debug)]
pub struct Task {
    /// Unique task identifier
    pub id: TaskId,
    /// Human-readable name
    pub name: &'static str,
    /// Base address of the kernel stack
    pub stack: u64,
    /// Size of the kernel stack in bytes
    pub stack_size: u64,
    /// Current state
    pub state: TaskState,
    /// Saved registers
    pub context: CpuContext,
    /// Priority level
    pub priority: TaskPriority,
    /// Tick at which to wake the task (if sleeping)
    pub wake_tick: Option<u64>,
    /// Port the task is blocked on (if blocked on IPC)
    pub blocked_on_port: Option<usize>,
    /// Memory regions; the first `region_count` slots are used
    pub memory_regions: Vec<Option<MemoryRegion>>,
    /// Number of memory regions
    pub region_count: usize,
    /// Handler for each signal number
    pub signal_handlers: Vec<SigAction>,
    /// Pending signals (bit N = signal N pending)
    pub pending_signals: u64,
    /// Blocked signals (bit N = signal N blocked)
    pub signal_mask: u64,
    /// Process ID
    pub pid: usize,
    /// Parent process ID
    pub ppid: usize,
    /// Process group ID
    pub pgid: usize,
    /// Session ID
    pub sid: usize,
    /// Controlling terminal (if any)
    pub tty: Option<usize>,
    /// Last syscall executed
    pub last_syscall: Option<usize>,
    /// Credentials
    pub creds: Credentials,
}

/// Default signal actions: ignore SIGCHLD, SIGURG and SIGWINCH, default otherwise.
pub open spec fn spec_default_handler(sig: int) -> SigAction {
    if sig == signals::SIGCHLD || sig == signals::SIGURG || sig == signals::SIGWINCH {
        SigAction::spec_ignore()
    } else {
        SigAction::spec_default()
    }
}

impl Task {
    /// Region slots are packed, regions are valid and disjoint, 64 handlers.
    pub open spec fn wf(&self) -> bool {
        &&& self.memory_regions@.len() == MAX_MEMORY_REGIONS
        &&& self.region_count <= MAX_MEMORY_REGIONS
        &&& forall|i: int| 0 <= i < self.region_count ==> (#[trigger] self.memory_regions@[i]) is Some
        &&& forall|i: int| self.region_count <= i < MAX_MEMORY_REGIONS
            ==> (#[trigger] self.memory_regions@[i]) is None
        &&& regions_valid(self.regions())
        &&& self.signal_handlers@.len() == MAX_SIGNALS
    }

    /// The memory regions in order.
    pub open spec fn regions(&self) -> Seq<MemoryRegion> {
        Seq::new(self.region_count as nat, |i: int| self.memory_regions@[i].unwrap())
    }

    /// Build a task whose stack starts at `stack` (as handed out by the kernel heap;
    /// 0 means the allocation failed) and that starts running at `entry_point`.
    /// The initial frame holds the entry point, the trampoline return address and
    /// six zeroed callee-saved registers, so the saved stack pointer is 64 bytes
    /// below the top of the stack and `r12` holds the entry point.
    pub fn new(
        id: TaskId,
        name: &'static str,
        stack: u64,
        entry_point: u64,
        priority: TaskPriority,
    ) -> (r: SchedulerResult<Self>)
        requires
            stack + STACK_SIZE <= u64::MAX,
        ensures
            stack == 0 <==> r is Err,
            r is Err ==> r == Err::<Task, SchedulerError>(SchedulerError::OutOfMemory),
            r matches Ok(t) ==> {
                &&& t.wf()
                &&& t.id == id && t.pid == id && t.pgid == id && t.sid == id && t.ppid == 0
                &&& t.name == name
                &&& t.stack == stack && t.stack_size == STACK_SIZE
                &&& t.state == TaskState::Ready
                &&& t.priority == priority
                &&& t.context == (CpuContext {
                    rsp: (stack + STACK_SIZE - 64) as u64,
                    r12: entry_point,
                    ..CpuContext::spec_zero()
                })
                &&& t.wake_tick is None && t.blocked_on_port is None
                &&& t.regions() == Seq::<MemoryRegion>::empty()
                &&& forall|i: int| 0 <= i < MAX_SIGNALS ==> #[trigger] t.signal_handlers@[i]
                    == spec_default_handler(i)
                &&& t.pending_signals == 0 && t.signal_mask == 0
                &&& t.tty is None && t.last_syscall is None
                &&& t.creds == (Credentials { uid: 0, is_kernel_thread: false })
            },
    {
        if stack == 0 {
            return Err(SchedulerError::OutOfMemory);
        }
        let stack_top = stack + STACK_SIZE;
        let rsp = stack_top - 64;
        let context = CpuContext { rsp, rbx: 0, rbp: 0, r12: entry_point, r13: 0, r14: 0, r15: 0 };
        let signal_handlers = Self::init_default_signal_handlers();
        let mut memory_regions: Vec<Option<MemoryRegion>> = Vec::new();
        let mut i: usize = 0;
        while i < MAX_MEMORY_REGIONS
            invariant
                i <= MAX_MEMORY_REGIONS,
                memory_regions@.len() == i,
                forall|j: int| 0 <= j < i ==> (#[trigger] memory_regions@[j]) is None,
            decreases MAX_MEMORY_REGIONS - i,
        {
            memory_regions.push(None);
            i = i + 1;
        }
        let t = Task {
            id,
            name,
            stack,
            stack_size: STACK_SIZE,
            state: TaskState::Ready,
            context,
            priority,
            wake_tick: None,
            blocked_on_port: None,
            memory_regions,
            region_count: 0,
            signal_handlers,
            pending_signals: 0,
            signal_mask: 0,
            pid: id,
            ppid: 0,
            pgid: id,
            sid: id,
            tty: None,
            last_syscall: None,
            creds: Credentials { uid: 0, is_kernel_thread: false },
        };
        assert(t.regions() =~= Seq::<MemoryRegion>::empty());
        Ok(t)
    }

    /// The default handler table: SIGCHLD, SIGURG and SIGWINCH ignored.
    fn init_default_signal_handlers() -> (r: Vec<SigAction>)
        ensures
            r@.len() == MAX_SIGNALS,
            forall|i: int| 0 <= i < MAX_SIGNALS ==> #[trigger] r@[i] == spec_default_handler(i),
    {
        let mut handlers: Vec<SigAction> = Vec::new();
        let mut i: usize = 0;
        while i < MAX_SIGNALS
            invariant
                i <= MAX_SIGNALS,
                handlers@.len() == i,
                forall|j: int| 0 <= j < i ==> #[trigger] handlers@[j] == SigAction::spec_default(),
            decreases MAX_SIGNALS - i,
        {
            handlers.push(SigAction::default());
            i = i + 1;
        }
        handlers.set(signals::SIGCHLD as usize, SigAction::ignore());
        handlers.set(signals::SIGURG as usize, SigAction::ignore());
        handlers.set(signals::SIGWINCH as usize, SigAction::ignore());
        handlers
    }

    /// Add a memory region after validating it: it must be non-empty, lie in user
    /// space, overlap no existing region, and there must be a free slot.
    pub fn add_memory_region(&mut self, region: MemoryRegion) -> (r: SchedulerResult<()>)
        requires
            old(self).wf(),
        ensures
            final(self).wf(),
            final(self).signal_handlers == old(self).signal_handlers,
            final(self).pending_signals == old(self).pending_signals,
            final(self).signal_mask == old(self).signal_mask,
            region.start >= region.end ==> r == Err::<(), SchedulerError>(SchedulerError::InvalidRegion),
            region.start < region.end && (region.start >= USER_LIMIT || region.end > USER_LIMIT)
                ==> r == Err::<(), SchedulerError>(SchedulerError::InvalidUserAddress),
            region.start < region.end && region.end <= USER_LIMIT
                && (exists|i: int| 0 <= i < old(self).regions().len()
                    && region.spec_overlaps(#[trigger] old(self).regions()[i]))
                ==> r == Err::<(), SchedulerError>(SchedulerError::RegionOverlap),
            region.start < region.end && region.end <= USER_LIMIT
                && (forall|i: int| 0 <= i < old(self).regions().len()
                    ==> !region.spec_overlaps(#[trigger] old(self).regions()[i]))
                ==> r == (if old(self).regions().len() < MAX_MEMORY_REGIONS {
                    Ok::<(), SchedulerError>(())
                } else {
                    Err(SchedulerError::TooManyRegions)
                }),
            r is Ok ==> final(self).regions() == old(self).regions().push(region),
            r is Err ==> final(self).regions() == old(self).regions(),
            r is Err ==> *final(self) == *old(self),
            *final(self) == (Task {
                memory_regions: final(self).memory_regions,
                region_count: final(self).region_count,
                ..*old(self)
            }),
    {
        if region.start >= region.end {
            return Err(SchedulerError::InvalidRegion);
        }
        if region.start >= USER_LIMIT || region.end > USER_LIMIT {
            return Err(SchedulerError::InvalidUserAddress);
        }
        let mut i: usize = 0;
        while i < self.region_count
            invariant
                self.wf(),
                self == old(self),
                region.start < region.end,
                region.end <= USER_LIMIT,
                i <= self.region_count,
                forall|j: int| 0 <= j < i ==> !region.spec_overlaps(#[trigger] self.regions()[j]),
            decreases self.region_count - i,
        {
            match &self.memory_regions[i] {
                Some(existing) => {
                    if region.overlaps_with(existing) {
                        assert(self.regions()[i as int] == *existing);
                        return Err(SchedulerError::RegionOverlap);
                    }
                },
                None => {},
            }
            i = i + 1;
        }
        if self.region_count >= MAX_MEMORY_REGIONS {
            return Err(SchedulerError::TooManyRegions);
        }
        let ghost old_regions = self.regions();
        self.memory_regions.set(self.region_count, Some(region));
        self.region_count = self.region_count + 1;
        proof {
            assert(self.regions() =~= old_regions.push(region));
            assert forall|a: int, b: int| 0 <= a < b < self.regions().len() implies
                !(#[trigger] self.regions()[a]).spec_overlaps(#[trigger] self.regions()[b]) by {
                if b == old_regions.len() {
                    assert(!region.spec_overlaps(old_regions[a]));
                } else {
                    assert(!old_regions[a].spec_overlaps(old_regions[b]));
                }
            }
        }
        Ok(())
    }

    /// Find the index of the first region containing `addr`.
    fn find_region_index(&self, addr: u64) -> (r: Option<usize>)
        requires
            self.wf(),
        ensures
            match r {
                Some(i) => i < self.regions().len() && self.regions()[i as int].spec_contains(addr)
                    && forall|j: int| 0 <= j < i ==> !(#[trigger] self.regions()[j]).spec_contains(addr),
                None => forall|j: int| 0 <= j < self.regions().len()
                    ==> !(#[trigger] self.regions()[j]).spec_contains(addr),
            },
    {
        let mut i: usize = 0;
        while i < self.region_count
            invariant
                self.wf(),
                i <= self.region_count,
                forall|j: int| 0 <= j < i ==> !(#[trigger] self.regions()[j]).spec_contains(addr),
            decreases self.region_count - i,
        {
            match &self.memory_regions[i] {
                Some(region) => {
                    assert(self.regions()[i as int] == *region);
                    if region.contains(addr) {
                        return Some(i);
                    }
                },
                None => {},
            }
            i = i + 1;
        }
        None
    }

    /// Find the memory region containing `addr`.
    pub fn find_memory_region(&self, addr: u64) -> (r: Option<MemoryRegion>)
        requires
            self.wf(),
        ensures
            match r {
                Some(reg) => exists|i: int| 0 <= i < self.regions().len()
                    && #[trigger] self.regions()[i] == reg && reg.spec_contains(addr),
                None => forall|j: int| 0 <= j < self.regions().len()
                    ==> !(#[trigger] self.regions()[j]).spec_contains(addr),
            },
    {
        match self.find_region_index(addr) {
            Some(i) => {
                let reg = self.memory_regions[i];
                assert(self.regions()[i as int] == reg.unwrap());
                reg
            },
            None => None,
        }
    }

    /// All memory regions of one type, in order.
    pub fn get_regions_by_type(&self, region_type: MemoryRegionType) -> (r: Vec<MemoryRegion>)
        requires
            self.wf(),
        ensures
            r@ == self.regions().filter(region_type_is(region_type)),
    {
        let mut out: Vec<MemoryRegion> = Vec::new();
        let mut i: usize = 0;
        while i < self.region_count
            invariant
                self.wf(),
                i <= self.region_count,
                out@ == self.regions().subrange(0, i as int).filter(region_type_is(region_type)),
            decreases self.region_count - i,
        {
            proof {
                let s = self.regions().subrange(0, i + 1);
                assert(s.drop_last() =~= self.regions().subrange(0, i as int));
            }
            let reg = self.memory_regions[i].unwrap();
            proof {
                let s = self.regions().subrange(0, i + 1);
                assert(self.regions()[i as int] == reg);
                assert(s.last() == reg);
                reveal(Seq::filter);
                assert(s.filter(region_type_is(region_type)) == (if region_type_is(region_type)(reg) {
                    s.drop_last().filter(region_type_is(region_type)).push(reg)
                } else {
                    s.drop_last().filter(region_type_is(region_type))
                }));
            }
            if reg.region_type == region_type {
                out.push(reg);
            }
            i = i + 1;
        }
        assert(self.regions().subrange(0, self.region_count as int) =~= self.regions());
        out
    }

    /// Remove the first region with exactly these bounds.
    pub fn remove_memory_region(&mut self, start: u64, end: u64) -> (r: SchedulerResult<()>)
        requires
            old(self).wf(),
        ensures
            final(self).wf(),
            final(self).signal_handlers == old(self).signal_handlers,
            final(self).pending_signals == old(self).pending_signals,
            final(self).signal_mask == old(self).signal_mask,
            (exists|i: int| 0 <= i < old(self).regions().len()
                && (#[trigger] old(self).regions()[i]).start == start && old(self).regions()[i].end == end)
                == (r is Ok),
            r is Err ==> r == Err::<(), SchedulerError>(SchedulerError::InvalidRegion)
                && final(self).regions() == old(self).regions(),
            r is Ok ==> exists|i: int| 0 <= i < old(self).regions().len()
                && (#[trigger] old(self).regions()[i]).start == start && old(self).regions()[i].end == end
                && (forall|j: int| 0 <= j < i ==> !((#[trigger] old(self).regions()[j]).start == start
                    && old(self).regions()[j].end == end))
                && final(self).regions() == old(self).regions().remove(i),
            r is Err ==> *final(self) == *old(self),
            *final(self) == (Task {
                memory_regions: final(self).memory_regions,
                region_count: final(self).region_count,
                ..*old(self)
            }),
    {
        let mut i: usize = 0;
        while i < self.region_count
            invariant
                self.wf(),
                self == old(self),
                i <= self.region_count,
                forall|j: int| 0 <= j < i ==> !((#[trigger] self.regions()[j]).start == start
                    && self.regions()[j].end == end),
            decreases self.region_count - i,
        {
            let matches = match &self.memory_regions[i] {
                Some(region) => region.start == start && region.end == end,
                None => false,
            };
            assert(self.memory_regions@[i as int] == Some(self.regions()[i as int]));
            if matches {
                let ghost old_regions = self.regions();
                let ghost old_slots = self.memory_regions@;
                let count = self.region_count;
                let mut j: usize = i;
                while j + 1 < count
                    invariant
                        old(self).wf(),
                        self.signal_handlers == old(self).signal_handlers,
                        self.pending_signals == old(self).pending_signals,
                        self.signal_mask == old(self).signal_mask,
                        self.region_count == old(self).region_count,
                        *self == (Task {
                            memory_regions: self.memory_regions,
                            region_count: self.region_count,
                            ..*old(self)
                        }),
                        old_regions == old(self).regions(),
                        i <= j < count,
                        count == old(self).region_count,
                        count <= MAX_MEMORY_REGIONS,
                        old_slots == old(self).memory_regions@,
                        self.memory_regions@.len() == MAX_MEMORY_REGIONS,
                        forall|k: int| 0 <= k < i ==> self.memory_regions@[k] == old_slots[k],
                        forall|k: int| i <= k < j ==> self.memory_regions@[k] == old_slots[k + 1],
                        forall|k: int| j <= k < MAX_MEMORY_REGIONS ==> self.memory_regions@[k] == old_slots[k],
                    decreases count - j,
                {
                    let next = self.memory_regions[j + 1];
                    self.memory_regions.set(j, next);
                    j = j + 1;
                }
                self.memory_regions.set(count - 1, None);
                self.region_count = count - 1;
                proof {
                    assert(self.regions() =~= old_regions.remove(i as int));
                    assert forall|k: int| 0 <= k < self.region_count implies
                        (#[trigger] self.memory_regions@[k]) is Some by {
                        if k >= i {
                            assert(old_slots[k + 1] is Some);
                        } else {
                            assert(old_slots[k] is Some);
                        }
                    }
                    assert forall|k: int| self.region_count <= k < MAX_MEMORY_REGIONS implies
                        (#[trigger] self.memory_regions@[k]) is None by {
                        if k > self.region_count {
                            assert(old_slots[k] is None);
                        }
                    }
                    assert forall|a: int, b: int| 0 <= a < b < self.regions().len() implies
                        !(#[trigger] self.regions()[a]).spec_overlaps(#[trigger] self.regions()[b]) by {
                        let oa = if a < i { a } else { a + 1 };
                        let ob = if b < i { b } else { b + 1 };
                        assert(!old_regions[oa].spec_overlaps(old_regions[ob]));
                    }
                    assert forall|a: int| 0 <= a < self.regions().len() implies
                        (#[trigger] self.regions()[a]).start < self.regions()[a].end
                        && self.regions()[a].end <= USER_LIMIT by {
                        let oa = if a < i { a } else { a + 1 };
                        assert(old_regions[oa].start < old_regions[oa].end);
                    }
                }
                return Ok(());
            }
            i = i + 1;
        }
        Err(SchedulerError::InvalidRegion)
    }

    /// Check that `size` bytes from `addr` (end saturating at u64::MAX) fit inside the
    /// region that contains `addr`.
    pub fn validate_memory_access(&self, addr: u64, size: u64) -> (r: SchedulerResult<MemoryRegion>)
        requires
            self.wf(),
        ensures
            match r {
                Ok(reg) => exists|i: int| 0 <= i < self.regions().len()
                    && #[trigger] self.regions()[i] == reg && reg.spec_contains(addr)
                    && (if addr + size > u64::MAX { u64::MAX as int } else { addr + size }) <= reg.end,
                Err(e) => e == SchedulerError::InvalidUserAddress && forall|i: int|
                    0 <= i < self.regions().len() && (#[trigger] self.regions()[i]).spec_contains(addr)
                    ==> (if addr + size > u64::MAX { u64::MAX as int } else { addr + size }) > self.regions()[i].end,
            },
    {
        let end_addr = addr.saturating_add(size);
        match self.find_region_index(addr) {
            Some(i) => {
                let region = self.memory_regions[i].unwrap();
                assert(self.regions()[i as int] == region);
                proof {
                    assert forall|k: int| 0 <= k < self.regions().len()
                        && (#[trigger] self.regions()[k]).spec_contains(addr) implies k == i by {
                        if k != i {
                            if k < i {
                                assert(!self.regions()[k].spec_contains(addr));
                            } else {
                                assert(!self.regions()[i as int].spec_overlaps(self.regions()[k]));
                            }
                        }
                    }
                }
                if end_addr > region.end {
                    return Err(SchedulerError::InvalidUserAddress);
                }
                Ok(region)
            },
            None => Err(SchedulerError::InvalidUserAddress),
        }
    }

    /// Total bytes covered by the regions.
    pub fn total_memory_usage(&self) -> (r: u64)
        requires
            self.wf(),
        ensures
            r == region_sizes(self.regions()),
    {
        let mut total: u64 = 0;
        let mut i: usize = 0;
        while i < self.region_count
            invariant
                self.wf(),
                i <= self.region_count,
                total == region_sizes(self.regions().subrange(0, i as int)),
                total <= i * USER_LIMIT,
            decreases self.region_count - i,
        {
            let reg = self.memory_regions[i].unwrap();
            assert(self.regions()[i as int] == reg);
            proof {
                let s = self.regions().subrange(0, i + 1);
                assert(s.drop_last() =~= self.regions().subrange(0, i as int));
                assert(i * USER_LIMIT + USER_LIMIT <= 16 * USER_LIMIT) by (nonlinear_arith)
                    requires i < 16;
            }
            total = total + reg.size();
            proof {
                assert(total <= (i + 1) * USER_LIMIT) by (nonlinear_arith)
                    requires total <= i * USER_LIMIT + USER_LIMIT;
            }
            i = i + 1;
        }
        assert(self.regions().subrange(0, self.region_count as int) =~= self.regions());
        total
    }

    /// Remove every memory region.
    pub fn clear_memory_regions(&mut self)
        requires
            old(self).wf(),
        ensures
            final(self).wf(),
            final(self).regions() == Seq::<MemoryRegion>::empty(),
            final(self).signal_handlers == old(self).signal_handlers,
            final(self).pending_signals == old(self).pending_signals,
            final(self).signal_mask == old(self).signal_mask,
    {
        let mut i: usize = 0;
        while i < MAX_MEMORY_REGIONS
            invariant
                i <= MAX_MEMORY_REGIONS,
                self.memory_regions@.len() == MAX_MEMORY_REGIONS,
                self.signal_handlers == old(self).signal_handlers,
                self.pending_signals == old(self).pending_signals,
                self.signal_mask == old(self).signal_mask,
                forall|j: int| 0 <= j < i ==> (#[trigger] self.memory_regions@[j]) is None,
            decreases MAX_MEMORY_REGIONS - i,
        {
            self.memory_regions.set(i, None);
            i = i + 1;
        }
        self.region_count = 0;
        assert(self.regions() =~= Seq::<MemoryRegion>::empty());
    }

    /// Reset every handler that is not Ignore to the default and clear pending signals
    /// (used by exec); the mask is kept.
    pub fn reset_signal_handlers(&mut self)
        requires
            old(self).wf(),
        ensures
            final(self).wf(),
            final(self).pending_signals == 0,
            final(self).signal_mask == old(self).signal_mask,
            final(self).regions() == old(self).regions(),
            forall|i: int| 0 <= i < MAX_SIGNALS ==> #[trigger] final(self).signal_handlers@[i] == (
                if old(self).signal_handlers@[i].handler == SigHandler::Ignore {
                    old(self).signal_handlers@[i]
                } else {
                    SigAction::spec_default()
                }),
    {
        let mut i: usize = 0;
        while i < MAX_SIGNALS
            invariant
                i <= MAX_SIGNALS,
                self.wf(),
                self.signal_mask == old(self).signal_mask,
                self.pending_signals == old(self).pending_signals,
                self.memory_regions == old(self).memory_regions,
                self.region_count == old(self).region_count,
                old(self).signal_handlers@.len() == MAX_SIGNALS,
                forall|j: int| 0 <= j < i ==> #[trigger] self.signal_handlers@[j] == (
                    if old(self).signal_handlers@[j].handler == SigHandler::Ignore {
                        old(self).signal_handlers@[j]
                    } else {
                        SigAction::spec_default()
                    }),
                forall|j: int| i <= j < MAX_SIGNALS ==> #[trigger] self.signal_handlers@[j]
                    == old(self).signal_handlers@[j],
            decreases MAX_SIGNALS - i,
        {
            let h = self.signal_handlers[i];
            let keep = match h.handler {
                SigHandler::Ignore => true,
                _ => false,
            };
            if !keep {
                self.signal_handlers.set(i, SigAction::default());
            }
            i = i + 1;
        }
        self.pending_signals = 0;
    }

    /// Whether `signal` is pending and not blocked.
    pub fn has_pending_signal(&self, signal: u32) -> (r: bool)
        ensures
            r == (signal < 64 && sig_bit(self.pending_signals, signal)
                && !sig_bit(self.signal_mask, signal)),
    {
        if signal >= 64 {
            return false;
        }
        let mask = 1u64 << signal;
        let pending = self.pending_signals;
        let blocked = self.signal_mask;
        proof {
            let s = signal as u64;
            assert(s < 64 ==> (((pending & (1u64 << s)) != 0) == ((pending >> s) & 1u64 == 1u64)))
                by (bit_vector);
            assert(s < 64 ==> (((blocked & (1u64 << s)) == 0) == !((blocked >> s) & 1u64 == 1u64)))
                by (bit_vector);
        }
        (pending & mask) != 0 && (blocked & mask) == 0
    }

    /// The lowest-numbered signal that is pending and not blocked.
    pub fn next_pending_signal(&self) -> (r: Option<u32>)
        ensures
            match r {
                Some(s) => s < 64 && sig_bit(self.pending_signals, s) && !sig_bit(self.signal_mask, s)
                    && forall|t: u32| t < s ==> !(sig_bit(self.pending_signals, t)
                        && !sig_bit(self.signal_mask, t)),
                None => forall|t: u32| t < 64 ==> !(sig_bit(self.pending_signals, t)
                    && !sig_bit(self.signal_mask, t)),
            },
    {
        let pending = self.pending_signals;
        let blocked = self.signal_mask;
        let unblocked_pending = pending & !blocked;
        proof {
            assert forall|t: u32| t < 64 implies
                (((unblocked_pending >> (t as u64)) & 1u64 == 1u64)
                    == (sig_bit(pending, t) && !sig_bit(blocked, t))) by {
                let tt = t as u64;
                assert(tt < 64 ==> (((pending & !blocked) >> tt) & 1u64 == 1u64) == (((pending >> tt) & 1u64 == 1u64)
                    && !((blocked >> tt) & 1u64 == 1u64))) by (bit_vector);
            }
        }
        if unblocked_pending == 0 {
            proof {
                assert forall|t: u32| t < 64 implies !(sig_bit(pending, t) && !sig_bit(blocked, t)) by {
                    let tt = t as u64;
                    assert(tt < 64 ==> (0u64 >> tt) & 1u64 == 0u64) by (bit_vector);
                }
            }
            return None;
        }
        let tz = unblocked_pending.trailing_zeros();
        proof {
            vstd::std_specs::bits::axiom_u64_trailing_zeros(unblocked_pending);
            assert forall|t: u32| t < tz implies !(sig_bit(pending, t) && !sig_bit(blocked, t)) by {
                assert((unblocked_pending >> (t as u64)) & 1u64 == 0u64);
            }
        }
        Some(tz)
    }

    /// Clear a pending signal (no effect for numbers 64 and above).
    pub fn clear_pending_signal(&mut self, signal: u32)
        ensures
            signal < 64 ==> final(self).pending_signals == old(self).pending_signals & !(1u64 << signal),
            signal >= 64 ==> final(self).pending_signals == old(self).pending_signals,
            final(self).signal_mask == old(self).signal_mask,
            final(self).memory_regions == old(self).memory_regions,
            final(self).region_count == old(self).region_count,
            final(self).signal_handlers == old(self).signal_handlers,
    {
        if signal < 64 {
            let mask = 1u64 << signal;
            self.pending_signals = self.pending_signals & !mask;
        }
    }

    /// Mark a signal pending; false for numbers 64 and above.
    pub fn add_pending_signal(&mut self, signal: u32) -> (r: bool)
        ensures
            r == (signal < 64),
            r ==> final(self).pending_signals == old(self).pending_signals | (1u64 << signal),
            !r ==> final(self).pending_signals == old(self).pending_signals,
            r ==> sig_bit(final(self).pending_signals, signal),
            final(self).signal_mask == old(self).signal_mask,
            final(self).memory_regions == old(self).memory_regions,
            final(self).region_count == old(self).region_count,
            final(self).signal_handlers == old(self).signal_handlers,
    {
        if signal >= 64 {
            return false;
        }
        let mask = 1u64 << signal;
        let p = self.pending_signals;
        self.pending_signals = p | mask;
        proof {
            let s = signal as u64;
            assert(s < 64 ==> ((p | (1u64 << s)) >> s) & 1u64 == 1u64) by (bit_vector);
        }
        true
    }

    /// Replace the signal mask.
    pub fn set_signal_mask(&mut self, mask: u64)
        ensures
            final(self).signal_mask == mask,
            final(self).pending_signals == old(self).pending_signals,
            final(self).memory_regions == old(self).memory_regions,
            final(self).region_count == old(self).region_count,
            final(self).signal_handlers == old(self).signal_handlers,
    {
        self.signal_mask = mask;
    }

    /// The signal mask.
    pub fn get_signal_mask(&self) -> (r: u64)
        ensures
            r == self.signal_mask,
    {
        self.signal_mask
    }

    /// Add signals to the mask.
    pub fn block_signals(&mut self, mask: u64)
        ensures
            final(self).signal_mask == old(self).signal_mask | mask,
            final(self).pending_signals == old(self).pending_signals,
            final(self).memory_regions == old(self).memory_regions,
            final(self).region_count == old(self).region_count,
            final(self).signal_handlers == old(self).signal_handlers,
    {
        self.signal_mask = self.signal_mask | mask;
    }

    /// Remove signals from the mask.
    pub fn unblock_signals(&mut self, mask: u64)
        ensures
            final(self).signal_mask == old(self).signal_mask & !mask,
            final(self).pending_signals == old(self).pending_signals,
            final(self).memory_regions == old(self).memory_regions,
            final(self).region_count == old(self).region_count,
            final(self).signal_handlers == old(self).signal_handlers,
    {
        self.signal_mask = self.signal_mask & !mask;
    }
}

/// Predicate selecting regions of one type.
pub open spec fn region_type_is(t: MemoryRegionType) -> spec_fn(MemoryRegion) -> bool {
    |reg: MemoryRegion| reg.region_type == t
}

/// Sum of the sizes of a list of regions.
pub open spec fn region_sizes(rs: Seq<MemoryRegion>) -> int
    decreases rs.len(),
{
    if rs.len() == 0 {
        0
    } else {
        region_sizes(rs.drop_last()) + (rs.last().end - rs.last().start)
    }
}


/// Adding a region and then removing the range it covers gives the region
/// list back: the added region is the first one with that range, since any
/// earlier one would overlap it.
pub proof fn lemma_add_then_remove_region(regions: Seq<MemoryRegion>, region: MemoryRegion)
    requires
        region.start < region.end,
        forall|i: int| 0 <= i < regions.len() ==> !region.spec_overlaps(#[trigger] regions[i]),
    ensures
        ({
            let added = regions.push(region);
            &&& exists|i: int|
                0 <= i < added.len() && (#[trigger] added[i]).start == region.start && added[i].end == region.end
            &&& forall|i: int|
                0 <= i < added.len() && (#[trigger] added[i]).start == region.start && added[i].end == region.end
                    && (forall|j: int| 0 <= j < i ==> !((#[trigger] added[j]).start == region.start && added[j].end
                    == region.end)) ==> added.remove(i) == regions
        }),
{
    let added = regions.push(region);
    assert(added[regions.len() as int] == region);
    assert forall|i: int|
        0 <= i < added.len() && (#[trigger] added[i]).start == region.start && added[i].end == region.end && (forall|
            j: int,
        | 0 <= j < i ==> !((#[trigger] added[j]).start == region.start && added[j].end == region.end)) implies added.remove(
        i,
    ) == regions by {
        if i < regions.len() {
            assert(added[i] == regions[i]);
            assert(region.spec_overlaps(regions[i]));
        }
        assert(added.remove(i) =~= regions);
    }
}

} // verus!
