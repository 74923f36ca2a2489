//! TLB shootdown decisions: which CPUs must flush, how much to flush
//! locally, batching of requests, and the per-CPU record of which
//! processes each CPU has run. Sending the IPIs and executing the flush
//! instructions is left to the caller.
use vstd::prelude::*;

verus! {

/// Number of CPUs tracked.
pub const MAX_CPUS: usize = 16;
/// Processes tracked per CPU (one bit each).
pub const MAX_TRACKED_PROCESSES: usize = 64;
/// Page size.
pub const TLB_PAGE_SIZE: u64 = 4096;
/// Above this many pages a full flush is cheaper than flushing page by page.
pub const MAX_RANGE_FLUSH_PAGES: u64 = 64;
/// Time stamp counter ticks in one millisecond (approximate).
pub const TSC_PER_MS: u64 = 2_400_000;

/// A TLB flush request handed to other CPUs, with the count of CPUs that
/// have acknowledged it.
#[derive(Debug)]
pub struct TlbShootdownRequest {
    /// Starting virtual address to flush
    pub start_addr: u64,
    /// Ending virtual address to flush (exclusive; 0 means everything)
    pub end_addr: u64,
    /// Number of CPUs that have acknowledged
    pub ack_count: usize,
}

impl TlbShootdownRequest {
    /// A request for `start_addr..end_addr` with no acknowledgment yet.
    pub fn new(start_addr: u64, end_addr: u64) -> (r: Self)
        ensures
            r.start_addr == start_addr,
            r.end_addr == end_addr,
            r.ack_count == 0,
    {
        TlbShootdownRequest { start_addr, end_addr, ack_count: 0 }
    }

    /// Whether at least `expected_count` CPUs have acknowledged.
    pub fn is_complete(&self, expected_count: usize) -> (r: bool)
        ensures
            r == (self.ack_count >= expected_count),
    {
        self.ack_count >= expected_count
    }

    /// Record one acknowledgment (the count wraps at `usize::MAX`).
    pub fn acknowledge(&mut self)
        ensures
            final(self).ack_count == crate::sys::wrap_inc(old(self).ack_count),
            final(self).start_addr == old(self).start_addr,
            final(self).end_addr == old(self).end_addr,
    {
        self.ack_count = crate::sys::counter_inc(self.ack_count);
    }
}

/// How much a CPU flushes for a range.
#[derive(Debug, Clone, Copy, PartialEq, Eq, Structural)]
pub enum FlushPlan {
    /// Flush the whole TLB.
    All,
    /// Flush `count` pages starting at `start`.
    Pages { start: u64, count: u64 },
}

/// The flush that covers `start..end`: page by page for 1 to
/// `MAX_RANGE_FLUSH_PAGES` pages, otherwise everything.
pub open spec fn spec_flush_plan(start: u64, end: u64) -> FlushPlan {
    let count = (end - start) / (TLB_PAGE_SIZE as int);
    if count == 0 || count > MAX_RANGE_FLUSH_PAGES {
        FlushPlan::All
    } else {
        FlushPlan::Pages { start, count: count as u64 }
    }
}

/// Decide the local flush for a range.
pub fn flush_plan(start: u64, end: u64) -> (r: FlushPlan)
    requires
        start <= end,
    ensures
        r == spec_flush_plan(start, end),
{
    let count = (end - start) / TLB_PAGE_SIZE;
    if count == 0 || count > MAX_RANGE_FLUSH_PAGES {
        FlushPlan::All
    } else {
        FlushPlan::Pages { start, count }
    }
}

/// Decide the flush a CPU does on a shootdown request: everything when the
/// request's end is 0, else the pages of the range (everything above
/// `MAX_RANGE_FLUSH_PAGES` pages).
pub fn request_flush_plan(request: &TlbShootdownRequest) -> (r: FlushPlan)
    requires
        request.end_addr == 0 || request.start_addr <= request.end_addr,
    ensures
        request.end_addr == 0 ==> r == FlushPlan::All,
        request.end_addr != 0 ==> r == (if (request.end_addr - request.start_addr) / (TLB_PAGE_SIZE as int)
            > MAX_RANGE_FLUSH_PAGES {
            FlushPlan::All
        } else {
            FlushPlan::Pages {
                start: request.start_addr,
                count: ((request.end_addr - request.start_addr) / (TLB_PAGE_SIZE as int)) as u64,
            }
        }),
{
    if request.end_addr == 0 {
        FlushPlan::All
    } else {
        let count = (request.end_addr - request.start_addr) / TLB_PAGE_SIZE;
        if count > MAX_RANGE_FLUSH_PAGES {
            FlushPlan::All
        } else {
            FlushPlan::Pages { start: request.start_addr, count }
        }
    }
}

/// Whether bit `i` of `mask` is set.
pub open spec fn bit_set(mask: u64, i: int) -> bool {
    (mask >> (i as u64)) & 1 == 1
}

proof fn lemma_low_mask(n: u64)
    by (bit_vector)
    requires
        n < 64,
    ensures
        (1u64 << n) >= 1,
        forall|i: u64| i < 64 ==> (#[trigger] (((1u64 << n) - 1u64) as u64 >> i) & 1 == 1 <==> i < n),
{
}

proof fn lemma_or_bit(r0: u64, c: u64)
    by (bit_vector)
    requires
        c < 64,
    ensures
        forall|i: u64| i < 64 ==> (#[trigger] ((r0 | (1u64 << c)) >> i) & 1 == 1 <==> ((r0 >> i) & 1 == 1 || i == c)),
        forall|i: u64| i < 64 ==> #[trigger] (0u64 >> i) & 1 != 1,
{
}

/// The mask of CPUs `0..n`.
pub open spec fn low_mask(n: usize) -> u64 {
    ((1u64 << (n as u64)) - 1u64) as u64
}

/// The CPUs a shootdown targets: those of `cpu_mask`, or every CPU (up to
/// 64) when the mask is 0.
pub fn shootdown_target_mask(cpu_mask: u64, cpu_count: usize) -> (r: u64)
    requires
        cpu_mask != 0 || cpu_count < 64,
    ensures
        cpu_mask != 0 ==> r == cpu_mask,
        cpu_mask == 0 ==> r == low_mask(cpu_count),
        cpu_mask == 0 ==> forall|i: int| 0 <= i < 64 ==> (bit_set(r, i) <==> i < cpu_count),
{
    if cpu_mask == 0 {
        let n = cpu_count as u64;
        proof {
            lemma_low_mask(n);
        }
        let r = (1u64 << n) - 1;
        proof {
            assert forall|i: int| 0 <= i < 64 implies (bit_set(r, i) <==> i < cpu_count) by {
                assert(((r >> (i as u64)) & 1 == 1) <==> (i as u64) < n);
            }
        }
        r
    } else {
        cpu_mask
    }
}

/// Whether CPU `i` must acknowledge: targeted, not the requesting CPU, online.
pub open spec fn must_ack(target_mask: u64, current_cpu: usize, online_mask: u64, i: int) -> bool {
    bit_set(target_mask, i) && i != current_cpu && bit_set(online_mask, i)
}

/// Number of CPUs among `0..n` that must acknowledge.
pub open spec fn count_acks(target_mask: u64, current_cpu: usize, online_mask: u64, n: int) -> nat
    decreases n,
{
    if n <= 0 {
        0
    } else {
        count_acks(target_mask, current_cpu, online_mask, n - 1) + if must_ack(
            target_mask,
            current_cpu,
            online_mask,
            n - 1,
        ) {
            1nat
        } else {
            0nat
        }
    }
}

/// How many acknowledgments a shootdown waits for: the targeted CPUs other
/// than the requesting one that are online.
pub fn expected_acks(target_mask: u64, current_cpu: usize, online_mask: u64) -> (r: usize)
    ensures
        r == count_acks(target_mask, current_cpu, online_mask, 64),
{
    let mut count: usize = 0;
    let mut cpu_id: u64 = 0;
    while cpu_id < 64
        invariant
            cpu_id <= 64,
            count == count_acks(target_mask, current_cpu, online_mask, cpu_id as int),
            count <= cpu_id,
        decreases 64 - cpu_id,
    {
        let targeted = (target_mask >> cpu_id) & 1 == 1;
        let online = (online_mask >> cpu_id) & 1 == 1;
        if targeted && cpu_id as usize != current_cpu && online {
            count = count + 1;
        }
        cpu_id = cpu_id + 1;
    }
    count
}

/// Which CPUs receive a shootdown IPI: those among the first
/// `min(cpu_count, 64)` that are targeted, online and not the sender.
pub fn ipi_targets(target_mask: u64, current_cpu: usize, cpu_count: usize, online_mask: u64) -> (r: u64)
    ensures
        forall|i: int| 0 <= i < 64 ==> (bit_set(r, i) <==> (i < cpu_count && must_ack(target_mask, current_cpu, online_mask, i))),
{
    let limit: u64 = if cpu_count < 64 { cpu_count as u64 } else { 64 };
    let mut r: u64 = 0;
    let mut cpu_id: u64 = 0;
    proof {
        lemma_or_bit(0, 0);
        assert forall|i: int| 0 <= i < 64 implies !bit_set(0u64, i) by {
            assert((0u64 >> (i as u64)) & 1 != 1);
        }
    }
    while cpu_id < limit
        invariant
            cpu_id <= limit,
            limit <= 64,
            limit == (if cpu_count < 64 { cpu_count as u64 } else { 64u64 }),
            forall|i: int| 0 <= i < 64 ==> (bit_set(r, i) <==> (i < cpu_id && must_ack(target_mask, current_cpu, online_mask, i))),
        decreases limit - cpu_id,
    {
        let targeted = (target_mask >> cpu_id) & 1 == 1;
        let online = (online_mask >> cpu_id) & 1 == 1;
        let ghost r0 = r;
        if targeted && cpu_id as usize != current_cpu && online {
            r = r | (1u64 << cpu_id);
        }
        proof {
            let c = cpu_id;
            lemma_or_bit(r0, c);
            assert forall|i: int| 0 <= i < 64 implies (bit_set(r, i) <==> (i < cpu_id + 1 && must_ack(
                target_mask,
                current_cpu,
                online_mask,
                i,
            ))) by {
                assert(bit_set(target_mask, cpu_id as int) == targeted);
                assert(bit_set(online_mask, cpu_id as int) == online);
                assert(bit_set(r0, i) <==> (i < cpu_id && must_ack(target_mask, current_cpu, online_mask, i)));
                if targeted && cpu_id as usize != current_cpu && online {
                    assert(r == r0 | (1u64 << c));
                    assert((((r0 | (1u64 << c)) >> (i as u64)) & 1 == 1) <==> (((r0 >> (i as u64)) & 1 == 1)
                        || (i as u64) == c));
                } else {
                    assert(r == r0);
                    assert(!must_ack(target_mask, current_cpu, online_mask, cpu_id as int));
                }
            }
        }
        cpu_id = cpu_id + 1;
    }
    r
}

/// What a shootdown of `start..end` does before it waits: the local flush,
/// the CPUs to send an IPI to, and how many acknowledgments to wait for
/// (none: the local flush is all there is to do).
#[derive(Debug, Clone, Copy, PartialEq, Eq, Structural)]
pub struct ShootdownPlan {
    /// Flush on the requesting CPU
    pub local: FlushPlan,
    /// CPUs to interrupt, one bit per CPU
    pub ipi_mask: u64,
    /// Acknowledgments to wait for
    pub expected: usize,
}

/// Plan an immediate shootdown of `start..end` from CPU `current_cpu`,
/// aimed at the CPUs of `cpu_mask` (every CPU when it is 0), given which
/// CPUs are online.
pub fn plan_shootdown(
    start: u64,
    end: u64,
    cpu_mask: u64,
    current_cpu: usize,
    cpu_count: usize,
    online_mask: u64,
) -> (r: ShootdownPlan)
    requires
        start <= end,
        cpu_mask != 0 || cpu_count < 64,
    ensures
        r.local == spec_flush_plan(start, end),
        forall|i: int|
            0 <= i < 64 ==> (bit_set(r.ipi_mask, i) <==> (i < cpu_count && must_ack(
                if cpu_mask != 0 { cpu_mask } else { low_mask(cpu_count) },
                current_cpu,
                online_mask,
                i,
            ))),
        r.expected == count_acks(
            if cpu_mask != 0 { cpu_mask } else { low_mask(cpu_count) },
            current_cpu,
            online_mask,
            64,
        ),
{
    let target = shootdown_target_mask(cpu_mask, cpu_count);
    let expected = expected_acks(target, current_cpu, online_mask);
    let local = flush_plan(start, end);
    let ipi_mask = ipi_targets(target, current_cpu, cpu_count, online_mask);
    ShootdownPlan { local, ipi_mask, expected }
}

} // verus!

verus! {

proof fn lemma_clear_bit(r0: u64, c: u64)
    by (bit_vector)
    requires
        c < 64,
    ensures
        forall|i: u64| i < 64 ==> (#[trigger] ((r0 & !(1u64 << c)) >> i) & 1 == 1 <==> ((r0 >> i) & 1 == 1 && i != c)),
{
}

/// For each CPU, the processes (by ID below `MAX_TRACKED_PROCESSES`) it has
/// run since they were last cleared.
pub struct CpuProcessMap {
    masks: Vec<u64>,
}

impl CpuProcessMap {
    /// One mask per CPU.
    pub closed spec fn wf(&self) -> bool {
        self.masks@.len() == MAX_CPUS
    }

    /// Whether CPU `cpu` has run process `pid`.
    pub closed spec fn accessed(&self, cpu: int, pid: int) -> bool {
        0 <= cpu < MAX_CPUS && 0 <= pid < MAX_TRACKED_PROCESSES && bit_set(self.masks@[cpu], pid)
    }

    /// Nothing recorded.
    pub fn new() -> (r: Self)
        ensures
            r.wf(),
            forall|cpu: int, pid: int| !#[trigger] r.accessed(cpu, pid),
    {
        let mut masks: Vec<u64> = Vec::new();
        let mut i: usize = 0;
        while i < MAX_CPUS
            invariant
                i <= MAX_CPUS,
                masks@.len() == i,
                forall|j: int| 0 <= j < i ==> #[trigger] masks@[j] == 0,
            decreases MAX_CPUS - i,
        {
            masks.push(0);
            i = i + 1;
        }
        let r = CpuProcessMap { masks };
        proof {
            lemma_or_bit(0, 0);
            assert forall|cpu: int, pid: int| !#[trigger] r.accessed(cpu, pid) by {
                if 0 <= cpu < MAX_CPUS && 0 <= pid < MAX_TRACKED_PROCESSES {
                    assert((0u64 >> (pid as u64)) & 1 != 1);
                }
            }
        }
        r
    }
}

impl CpuProcessMap {
    /// Whether CPU `cpu_id` has run process `pid` (false for CPUs and
    /// processes beyond what is tracked).
    pub fn has_accessed(&self, cpu_id: usize, pid: usize) -> (r: bool)
        requires
            self.wf(),
        ensures
            r == self.accessed(cpu_id as int, pid as int),
    {
        cpu_id < MAX_CPUS && pid < MAX_TRACKED_PROCESSES && (self.masks[cpu_id] >> (pid as u64)) & 1 == 1
    }
}

/// Record that CPU `cpu_id` has run process `pid` (ignored for CPUs and
/// processes beyond what is tracked).
pub fn mark_process_accessed(map: &mut CpuProcessMap, cpu_id: usize, pid: usize)
    requires
        old(map).wf(),
    ensures
        final(map).wf(),
        forall|cpu: int, p: int| #[trigger] final(map).accessed(cpu, p) == (old(map).accessed(cpu, p) || (
        cpu == cpu_id && p == pid && cpu_id < MAX_CPUS && pid < MAX_TRACKED_PROCESSES)),
{
    if cpu_id < MAX_CPUS && pid < MAX_TRACKED_PROCESSES {
        let m0 = map.masks[cpu_id];
        let m = m0 | (1u64 << (pid as u64));
        map.masks.set(cpu_id, m);
        proof {
            lemma_or_bit(m0, pid as u64);
            assert forall|cpu: int, p: int| #[trigger] map.accessed(cpu, p) == (old(map).accessed(cpu, p) || (
            cpu == cpu_id && p == pid)) by {
                if cpu == cpu_id && 0 <= p < MAX_TRACKED_PROCESSES {
                    assert((((m0 | (1u64 << (pid as u64))) >> (p as u64)) & 1 == 1) <==> (((m0 >> (p as u64))
                        & 1 == 1) || (p as u64) == pid as u64));
                }
            }
        }
    }
}

/// Forget that any CPU has run process `pid` (when it exits).
pub fn clear_process_tracking(map: &mut CpuProcessMap, pid: usize)
    requires
        old(map).wf(),
    ensures
        final(map).wf(),
        forall|cpu: int, p: int| #[trigger] final(map).accessed(cpu, p) == (old(map).accessed(cpu, p) && p != pid),
{
    if pid >= MAX_TRACKED_PROCESSES {
        return;
    }
    let mut cpu_id: usize = 0;
    while cpu_id < MAX_CPUS
        invariant
            map.wf(),
            pid < MAX_TRACKED_PROCESSES,
            cpu_id <= MAX_CPUS,
            forall|cpu: int, p: int| #[trigger] map.accessed(cpu, p) == (old(map).accessed(cpu, p) && (
            cpu >= cpu_id || p != pid)),
        decreases MAX_CPUS - cpu_id,
    {
        let m0 = map.masks[cpu_id];
        let m = m0 & !(1u64 << (pid as u64));
        let ghost before = *map;
        map.masks.set(cpu_id, m);
        proof {
            lemma_clear_bit(m0, pid as u64);
            assert forall|cpu: int, p: int| #[trigger] map.accessed(cpu, p) == (old(map).accessed(cpu, p) && (
            cpu >= cpu_id + 1 || p != pid)) by {
                assert(before.accessed(cpu, p) == (old(map).accessed(cpu, p) && (cpu >= cpu_id || p != pid)));
                if cpu == cpu_id && 0 <= p < MAX_TRACKED_PROCESSES {
                    assert((((m0 & !(1u64 << (pid as u64))) >> (p as u64)) & 1 == 1) <==> (((m0 >> (p as u64))
                        & 1 == 1) && (p as u64) != pid as u64));
                }
            }
        }
        cpu_id = cpu_id + 1;
    }
}

/// Mask of the CPUs among the first `cpu_count` (at most 64) that have run
/// process `pid`.
pub fn get_cpus_for_process(map: &CpuProcessMap, pid: usize, cpu_count: usize) -> (r: u64)
    requires
        map.wf(),
        cpu_count <= MAX_CPUS,
    ensures
        forall|i: int| 0 <= i < 64 ==> (bit_set(r, i) <==> (i < cpu_count && map.accessed(i, pid as int))),
{
    let mut mask: u64 = 0;
    let mut cpu_id: usize = 0;
    proof {
        lemma_or_bit(0, 0);
    }
    while cpu_id < cpu_count
        invariant
            map.wf(),
            cpu_count <= MAX_CPUS,
            cpu_id <= cpu_count,
            forall|i: int| 0 <= i < 64 ==> (bit_set(mask, i) <==> (i < cpu_id && map.accessed(i, pid as int))),
        decreases cpu_count - cpu_id,
    {
        let hit = pid < MAX_TRACKED_PROCESSES && (map.masks[cpu_id] >> (pid as u64)) & 1 == 1;
        let m0 = mask;
        if hit {
            mask = mask | (1u64 << (cpu_id as u64));
        }
        proof {
            lemma_or_bit(m0, cpu_id as u64);
            assert forall|i: int| 0 <= i < 64 implies (bit_set(mask, i) <==> (i < cpu_id + 1 && map.accessed(
                i,
                pid as int,
            ))) by {
                assert(hit == map.accessed(cpu_id as int, pid as int));
                assert(bit_set(m0, i) <==> (i < cpu_id && map.accessed(i, pid as int)));
                if hit {
                    assert(mask == m0 | (1u64 << (cpu_id as u64)));
                    assert((((m0 | (1u64 << (cpu_id as u64))) >> (i as u64)) & 1 == 1) <==> (((m0 >> (i as u64))
                        & 1 == 1) || (i as u64) == cpu_id as u64));
                } else {
                    assert(mask == m0);
                }
            }
        }
        cpu_id = cpu_id + 1;
    }
    mask
}

/// Shootdown requests of one CPU gathered within a short window, to be sent
/// as one.
pub struct BatchedShootdown {
    start_addr: u64,
    end_addr: u64,
    first_request_tsc: u64,
    request_count: usize,
}

impl BatchedShootdown {
    /// Start of the gathered range.
    pub closed spec fn start(&self) -> u64 {
        self.start_addr
    }

    /// End of the gathered range.
    pub closed spec fn end(&self) -> u64 {
        self.end_addr
    }

    /// Time of the first request of the batch (0 when no batch is open).
    pub closed spec fn opened_at(&self) -> u64 {
        self.first_request_tsc
    }

    /// Requests gathered.
    pub closed spec fn count(&self) -> usize {
        self.request_count
    }

    /// No batch open.
    pub fn new() -> (r: Self)
        ensures
            r.opened_at() == 0,
            r.count() == 0,
            r.start() == 0,
            r.end() == 0,
    {
        BatchedShootdown { start_addr: 0, end_addr: 0, first_request_tsc: 0, request_count: 0 }
    }

    /// Add the range `start..end` at time `current_tsc`: it opens a batch,
    /// or widens the open batch to cover it. False (and no change) when the
    /// open batch is older than `TSC_PER_MS`: it must be sent first.
    pub fn try_add(&mut self, start: u64, end: u64, current_tsc: u64) -> (r: bool)
        requires
            old(self).opened_at() == 0 || current_tsc >= old(self).opened_at(),
        ensures
            old(self).opened_at() == 0 ==> r && final(self).start() == start && final(self).end() == end
                && final(self).opened_at() == current_tsc && final(self).count() == 1,
            old(self).opened_at() != 0 && current_tsc - old(self).opened_at() > TSC_PER_MS ==> (!r && *final(self) == *old(self)),
            old(self).opened_at() != 0 && current_tsc - old(self).opened_at() <= TSC_PER_MS ==> {
                &&& r
                &&& final(self).start() == (if start < old(self).start() { start } else { old(self).start() })
                &&& final(self).end() == (if end > old(self).end() { end } else { old(self).end() })
                &&& final(self).opened_at() == old(self).opened_at()
                &&& final(self).count() == crate::sys::wrap_inc(old(self).count())
            },
    {
        let first_tsc = self.first_request_tsc;
        if first_tsc == 0 {
            self.start_addr = start;
            self.end_addr = end;
            self.first_request_tsc = current_tsc;
            self.request_count = 1;
            return true;
        }
        if current_tsc - first_tsc > TSC_PER_MS {
            return false;
        }
        let new_start = if start < self.start_addr { start } else { self.start_addr };
        let new_end = if end > self.end_addr { end } else { self.end_addr };
        self.start_addr = new_start;
        self.end_addr = new_end;
        self.request_count = crate::sys::counter_inc(self.request_count);
        true
    }

    /// Close the batch: its range and request count, or None when it holds
    /// no request.
    pub fn take(&mut self) -> (r: Option<(u64, u64, usize)>)
        ensures
            final(self).count() == 0,
            old(self).count() == 0 ==> r is None && final(self).opened_at() == old(self).opened_at(),
            old(self).count() != 0 ==> r == Some((old(self).start(), old(self).end(), old(self).count()))
                && final(self).opened_at() == 0,
            final(self).start() == old(self).start(),
            final(self).end() == old(self).end(),
    {
        let count = self.request_count;
        self.request_count = 0;
        if count == 0 {
            return None;
        }
        self.first_request_tsc = 0;
        Some((self.start_addr, self.end_addr, count))
    }
}


/// What a shootdown request leads to.
#[derive(Debug, Clone, Copy, PartialEq, Eq, Structural)]
pub enum ShootdownAction {
    /// Gathered into this CPU's batch: only the local flush now.
    Batched { local: FlushPlan },
    /// Shoot down `start..end` on every CPU now.
    Immediate { start: u64, end: u64 },
}

/// Decide a shootdown of `start..end` requested on CPU `current_cpu` at
/// time `current_tsc`. A CPU with a batch gathers the request into it while
/// the batch is young (the caller flushes locally); an expired batch is
/// closed and shot down in place of the request; a CPU without a batch, or
/// whose expired batch is empty, shoots the request down at once.
pub fn tlb_shootdown(
    batches: &mut Vec<BatchedShootdown>,
    current_cpu: usize,
    start: u64,
    end: u64,
    current_tsc: u64,
) -> (r: ShootdownAction)
    requires
        start <= end,
        current_cpu < old(batches)@.len() ==> old(batches)@[current_cpu as int].opened_at() == 0 || current_tsc
            >= old(batches)@[current_cpu as int].opened_at(),
    ensures
        final(batches)@.len() == old(batches)@.len(),
        forall|i: int|
            0 <= i < old(batches)@.len() && i != current_cpu ==> #[trigger] final(batches)@[i] == old(batches)@[i],
        current_cpu >= old(batches)@.len() ==> r == (ShootdownAction::Immediate { start, end })
            && final(batches)@ == old(batches)@,
        current_cpu < old(batches)@.len() ==> {
            let b = old(batches)@[current_cpu as int];
            let nb = final(batches)@[current_cpu as int];
            if b.opened_at() == 0 {
                &&& r == (ShootdownAction::Batched { local: spec_flush_plan(start, end) })
                &&& nb.start() == start && nb.end() == end && nb.opened_at() == current_tsc && nb.count() == 1
            } else if current_tsc - b.opened_at() <= TSC_PER_MS {
                &&& r == (ShootdownAction::Batched { local: spec_flush_plan(start, end) })
                &&& nb.start() == (if start < b.start() { start } else { b.start() })
                &&& nb.end() == (if end > b.end() { end } else { b.end() })
                &&& nb.opened_at() == b.opened_at()
                &&& nb.count() == crate::sys::wrap_inc(b.count())
            } else if b.count() != 0 {
                &&& r == (ShootdownAction::Immediate { start: b.start(), end: b.end() })
                &&& nb.count() == 0 && nb.opened_at() == 0 && nb.start() == b.start() && nb.end() == b.end()
            } else {
                &&& r == (ShootdownAction::Immediate { start, end })
                &&& nb.count() == 0 && nb.opened_at() == b.opened_at() && nb.start() == b.start() && nb.end()
                    == b.end()
            }
        },
{
    if current_cpu >= batches.len() {
        return ShootdownAction::Immediate { start, end };
    }
    if batches[current_cpu].try_add(start, end, current_tsc) {
        return ShootdownAction::Batched { local: flush_plan(start, end) };
    }
    match batches[current_cpu].take() {
        Some((batch_start, batch_end, _count)) => ShootdownAction::Immediate { start: batch_start, end: batch_end },
        None => ShootdownAction::Immediate { start, end },
    }
}

/// How long a shootdown waits for acknowledgments (100 ms).
pub const SHOOTDOWN_TIMEOUT_TSC: u64 = 100 * TSC_PER_MS;

/// Where waiting for shootdown acknowledgments stands.
#[derive(Debug, Clone, Copy, PartialEq, Eq, Structural)]
pub enum AckWait {
    /// Every expected CPU acknowledged
    Complete,
    /// The timeout passed first
    TimedOut,
    /// Keep waiting
    Pending,
}

/// One check while waiting for acknowledgments: complete once `ack_count`
/// reaches `expected`, else timed out once `SHOOTDOWN_TIMEOUT_TSC` cycles
/// have passed since `start_tsc`, else pending.
pub fn ack_wait_status(ack_count: usize, expected: usize, start_tsc: u64, now_tsc: u64) -> (r: AckWait)
    requires
        now_tsc >= start_tsc,
    ensures
        ack_count >= expected ==> r == AckWait::Complete,
        ack_count < expected && now_tsc - start_tsc >= SHOOTDOWN_TIMEOUT_TSC ==> r == AckWait::TimedOut,
        ack_count < expected && now_tsc - start_tsc < SHOOTDOWN_TIMEOUT_TSC ==> r == AckWait::Pending,
{
    if ack_count >= expected {
        AckWait::Complete
    } else if now_tsc - start_tsc >= SHOOTDOWN_TIMEOUT_TSC {
        AckWait::TimedOut
    } else {
        AckWait::Pending
    }
}

} // verus!
