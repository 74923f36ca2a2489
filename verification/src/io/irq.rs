//! IRQ management: the handler table, per-CPU interrupt statistics, and the
//! values written to IOAPIC registers.
//!
//! The table holds handlers of any copyable type; dispatching hands the
//! handler back to the caller, which invokes it. Register reads and writes
//! are done by the caller with the values computed here.
use vstd::prelude::*;

verus! {

/// Number of IRQ lines.
pub const MAX_IRQS: usize = 256;

/// CPUs whose interrupt counts are kept.
pub const IRQ_STAT_CPUS: usize = 8;

/// IOAPIC redirection table base register.
pub const IOAPIC_REG_REDTBL_BASE: u32 = 0x10;

/// IOAPIC version register.
pub const IOAPIC_REG_VER: u32 = 0x01;

/// Mask bit of a redirection entry.
pub const IOAPIC_MASK: u64 = 0x10000;

/// First interrupt vector used for IRQ lines.
pub const IRQ_VECTOR_BASE: u8 = 32;

/// Handler table, IOAPIC state and per-CPU counts.
pub struct IrqRegistry<H> {
    handlers: Vec<Option<H>>,
    ioapic_initialized: bool,
    stats: Vec<[u64; 8]>,
}

impl<H: Copy> IrqRegistry<H> {
    /// One handler slot and one row of counts per IRQ line.
    pub closed spec fn wf(&self) -> bool {
        &&& self.handlers@.len() == MAX_IRQS
        &&& self.stats@.len() == MAX_IRQS
    }

    /// The handler of each IRQ line.
    pub closed spec fn handlers(&self) -> Seq<Option<H>> {
        self.handlers@
    }

    /// A well-formed registry has a handler slot for each of the
    /// `MAX_IRQS` lines.
    pub proof fn lemma_wf(&self)
        requires
            self.wf(),
        ensures
            self.handlers().len() == MAX_IRQS,
    {
    }

    /// Whether IOAPIC routing was initialized.
    pub closed spec fn initialized(&self) -> bool {
        self.ioapic_initialized
    }

    /// Interrupt counts of line `irq`, one per CPU.
    pub closed spec fn counts(&self, irq: int) -> Seq<u64> {
        self.stats@[irq]@
    }

    /// No handler, no count, IOAPIC not initialized.
    pub fn new() -> (r: Self)
        ensures
            r.wf(),
            !r.initialized(),
            forall|i: int| 0 <= i < MAX_IRQS ==> (#[trigger] r.handlers()[i]) is None,
            forall|i: int| 0 <= i < MAX_IRQS ==> #[trigger] r.counts(i) == Seq::new(8, |c: int| 0u64),
    {
        let mut handlers: Vec<Option<H>> = Vec::new();
        let mut stats: Vec<[u64; 8]> = Vec::new();
        let mut i: usize = 0;
        while i < MAX_IRQS
            invariant
                i <= MAX_IRQS,
                handlers@.len() == i,
                stats@.len() == i,
                forall|j: int| 0 <= j < i ==> (#[trigger] handlers@[j]) is None,
                forall|j: int| 0 <= j < i ==> (#[trigger] stats@[j])@ == Seq::new(8, |c: int| 0u64),
            decreases MAX_IRQS - i,
        {
            handlers.push(None);
            let row: [u64; 8] = [0, 0, 0, 0, 0, 0, 0, 0];
            assert(row@ =~= Seq::new(8, |c: int| 0u64));
            stats.push(row);
            i = i + 1;
        }
        IrqRegistry { handlers, ioapic_initialized: false, stats }
    }
}

/// Mark IOAPIC routing initialized: true when this call does it (the caller
/// then masks every redirection entry), false when it was already done.
pub fn init_ioapic_routing<H: Copy>(reg: &mut IrqRegistry<H>) -> (r: bool)
    requires
        old(reg).wf(),
    ensures
        final(reg).wf(),
        r == !old(reg).initialized(),
        final(reg).initialized(),
        final(reg).handlers() == old(reg).handlers(),
        forall|i: int| #[trigger] final(reg).counts(i) == old(reg).counts(i),
{
    if reg.ioapic_initialized {
        return false;
    }
    reg.ioapic_initialized = true;
    true
}

/// Register `handler` for `irq` with CPU 0 as the target.
pub fn register_irq_handler<H: Copy>(reg: &mut IrqRegistry<H>, irq: u8, handler: H) -> (r: Result<u8, &'static str>)
    requires
        old(reg).wf(),
    ensures
        final(reg).wf(),
        (r, final(reg).handlers()) == register_result(old(reg).initialized(), old(reg).handlers(), irq, handler, None),
        final(reg).initialized() == old(reg).initialized(),
        forall|i: int| #[trigger] final(reg).counts(i) == old(reg).counts(i),
{
    register_irq_handler_affinity(reg, irq, handler, None)
}

/// Answer and handler table after registering `handler` for `irq`: refused
/// before IOAPIC initialization and when the line has a handler; else the
/// CPU to route the line to (the requested one, CPU 0 by default).
pub open spec fn register_result<H>(
    initialized: bool,
    handlers: Seq<Option<H>>,
    irq: u8,
    handler: H,
    cpu_affinity: Option<u8>,
) -> (Result<u8, &'static str>, Seq<Option<H>>) {
    if !initialized {
        (Err("IOAPIC not initialized - call init_ioapic_routing() first"), handlers)
    } else if handlers[irq as int] is Some {
        (Err("IRQ already registered"), handlers)
    } else {
        (
            Ok(
                match cpu_affinity {
                    Some(c) => c,
                    None => 0u8,
                },
            ),
            handlers.update(irq as int, Some(handler)),
        )
    }
}

/// A registration that succeeds leaves `handler` on line `irq`, every
/// other line as it was, and answers the requested CPU (0 by default).
pub proof fn lemma_register_then_registered<H>(
    initialized: bool,
    handlers: Seq<Option<H>>,
    irq: u8,
    handler: H,
    cpu_affinity: Option<u8>,
)
    requires
        handlers.len() == MAX_IRQS,
        register_result(initialized, handlers, irq, handler, cpu_affinity).0 is Ok,
    ensures
        ({
            let (r, after) = register_result(initialized, handlers, irq, handler, cpu_affinity);
            &&& initialized && handlers[irq as int] is None
            &&& after[irq as int] == Some(handler)
            &&& after.len() == MAX_IRQS
            &&& forall|i: int| 0 <= i < MAX_IRQS && i != irq ==> #[trigger] after[i] == handlers[i]
            &&& r == Ok::<u8, &'static str>(
                match cpu_affinity {
                    Some(c) => c,
                    None => 0u8,
                },
            )
        }),
{
}

/// Register `handler` for `irq`, to be routed to `cpu_affinity` (CPU 0 when
/// None): the CPU to route to, for the caller to program the IOAPIC.
pub fn register_irq_handler_affinity<H: Copy>(
    reg: &mut IrqRegistry<H>,
    irq: u8,
    handler: H,
    cpu_affinity: Option<u8>,
) -> (r: Result<u8, &'static str>)
    requires
        old(reg).wf(),
    ensures
        final(reg).wf(),
        (r, final(reg).handlers()) == register_result(old(reg).initialized(), old(reg).handlers(), irq, handler, cpu_affinity),
        final(reg).initialized() == old(reg).initialized(),
        forall|i: int| #[trigger] final(reg).counts(i) == old(reg).counts(i),
{
    if !reg.ioapic_initialized {
        return Err("IOAPIC not initialized - call init_ioapic_routing() first");
    }
    let i = irq as usize;
    if reg.handlers[i].is_some() {
        return Err("IRQ already registered");
    }
    reg.handlers.set(i, Some(handler));
    let target_cpu = match cpu_affinity {
        Some(c) => c,
        None => 0,
    };
    Ok(target_cpu)
}

/// Remove the handler of `irq` (the caller masks the line).
pub fn unregister_irq_handler<H: Copy>(reg: &mut IrqRegistry<H>, irq: u8)
    requires
        old(reg).wf(),
    ensures
        final(reg).wf(),
        final(reg).handlers() == old(reg).handlers().update(irq as int, None),
        final(reg).initialized() == old(reg).initialized(),
        forall|i: int| #[trigger] final(reg).counts(i) == old(reg).counts(i),
{
    reg.handlers.set(irq as usize, None);
}

/// An interrupt on line `irq` reached CPU `cpu_id`: the handler to invoke,
/// if one is registered, in which case the count of that CPU (if below
/// `IRQ_STAT_CPUS`) goes up by one, wrapping at 2^64.
pub fn handle_irq<H: Copy>(reg: &mut IrqRegistry<H>, irq: u8, cpu_id: usize) -> (r: Option<H>)
    requires
        old(reg).wf(),
    ensures
        final(reg).wf(),
        r == old(reg).handlers()[irq as int],
        final(reg).handlers() == old(reg).handlers(),
        final(reg).initialized() == old(reg).initialized(),
        forall|i: int| 0 <= i < MAX_IRQS && i != irq ==> #[trigger] final(reg).counts(i) == old(reg).counts(i),
        final(reg).counts(irq as int) == if r is Some && cpu_id < IRQ_STAT_CPUS {
            old(reg).counts(irq as int).update(
                cpu_id as int,
                crate::io::bio::wrap_inc64(old(reg).counts(irq as int)[cpu_id as int]),
            )
        } else {
            old(reg).counts(irq as int)
        },
{
    let i = irq as usize;
    let h = reg.handlers[i];
    if h.is_some() && cpu_id < IRQ_STAT_CPUS {
        let mut row = reg.stats[i];
        row[cpu_id] = row[cpu_id].wrapping_add(1);
        reg.stats.set(i, row);
    }
    h
}

/// Whether `irq` has a handler.
pub fn is_irq_registered<H: Copy>(reg: &IrqRegistry<H>, irq: u8) -> (r: bool)
    requires
        reg.wf(),
    ensures
        r == reg.handlers()[irq as int] is Some,
{
    reg.handlers[irq as usize].is_some()
}

/// The lines below `n` that have a handler, in increasing order.
pub open spec fn registered_below<H>(handlers: Seq<Option<H>>, n: int) -> Seq<int>
    decreases n,
{
    if n <= 0 {
        Seq::empty()
    } else if handlers[n - 1] is Some {
        registered_below(handlers, n - 1).push(n - 1)
    } else {
        registered_below(handlers, n - 1)
    }
}

proof fn lemma_registered_below_len<H>(handlers: Seq<Option<H>>, n: int)
    requires
        n >= 0,
    ensures
        registered_below(handlers, n).len() <= n,
        forall|k: int| 0 <= k < registered_below(handlers, n).len() ==> 0 <= #[trigger] registered_below(handlers, n)[k] < n,
    decreases n,
{
    if n > 0 {
        lemma_registered_below_len(handlers, n - 1);
    }
}

/// Number of lines with a handler.
pub fn registered_irq_count<H: Copy>(reg: &IrqRegistry<H>) -> (r: usize)
    requires
        reg.wf(),
    ensures
        r == registered_below(reg.handlers(), MAX_IRQS as int).len(),
{
    let mut count: usize = 0;
    let mut i: usize = 0;
    while i < MAX_IRQS
        invariant
            reg.wf(),
            i <= MAX_IRQS,
            count == registered_below(reg.handlers(), i as int).len(),
        decreases MAX_IRQS - i,
    {
        proof {
            lemma_registered_below_len(reg.handlers(), i as int);
        }
        if reg.handlers[i].is_some() {
            count = count + 1;
        }
        i = i + 1;
    }
    count
}

/// Copy the per-CPU counts of `irq` into `cpu_stats`: false (and nothing
/// copied) when the line has no handler.
pub fn get_irq_stats<H: Copy>(reg: &IrqRegistry<H>, irq: u8, cpu_stats: &mut [u64; 8]) -> (r: bool)
    requires
        reg.wf(),
    ensures
        r == reg.handlers()[irq as int] is Some,
        r ==> final(cpu_stats)@ == reg.counts(irq as int),
        !r ==> final(cpu_stats)@ == old(cpu_stats)@,
{
    let i = irq as usize;
    if reg.handlers[i].is_some() {
        *cpu_stats = reg.stats[i];
        true
    } else {
        false
    }
}

/// Fill `buffer` with (line, counts) for the lines that have a handler, in
/// increasing order, at most `max_entries` of them: how many were written.
pub fn get_all_irq_stats<H: Copy>(reg: &IrqRegistry<H>, buffer: &mut [(u8, [u64; 8])], max_entries: usize) -> (r:
    usize)
    requires
        reg.wf(),
        ({
            let n = registered_below(reg.handlers(), MAX_IRQS as int).len();
            (if max_entries < n { max_entries as int } else { n as int }) <= old(buffer)@.len()
        }),
    ensures
        ({
            let regs = registered_below(reg.handlers(), MAX_IRQS as int);
            &&& r == (if max_entries < regs.len() { max_entries as int } else { regs.len() as int })
            &&& final(buffer)@.len() == old(buffer)@.len()
            &&& forall|k: int| 0 <= k < r ==> (#[trigger] final(buffer)@[k]).0 == regs[k] && final(buffer)@[k].1@
                == reg.counts(regs[k])
            &&& forall|k: int| r <= k < old(buffer)@.len() ==> #[trigger] final(buffer)@[k] == old(buffer)@[k]
        }),
{
    let mut count: usize = 0;
    let mut i: usize = 0;
    proof {
        lemma_registered_below_len(reg.handlers(), MAX_IRQS as int);
    }
    while i < MAX_IRQS && count < max_entries
        invariant
            reg.wf(),
            i <= MAX_IRQS,
            count <= max_entries,
            count == registered_below(reg.handlers(), i as int).len() || (count == max_entries && count
                <= registered_below(reg.handlers(), i as int).len()),
            count == max_entries ==> count <= registered_below(reg.handlers(), MAX_IRQS as int).len(),
            count < max_entries ==> count == registered_below(reg.handlers(), i as int).len(),
            ({
                let n = registered_below(reg.handlers(), MAX_IRQS as int).len();
                (if max_entries < n { max_entries as int } else { n as int }) <= old(buffer)@.len()
            }),
            buffer@.len() == old(buffer)@.len(),
            forall|k: int| 0 <= k < count ==> (#[trigger] buffer@[k]).0 == registered_below(reg.handlers(), MAX_IRQS as int)[k]
                && buffer@[k].1@ == reg.counts(registered_below(reg.handlers(), MAX_IRQS as int)[k]),
            forall|k: int| count <= k < old(buffer)@.len() ==> #[trigger] buffer@[k] == old(buffer)@[k],
        decreases MAX_IRQS - i,
    {
        proof {
            lemma_registered_below_len(reg.handlers(), i as int);
            lemma_registered_below_prefix(reg.handlers(), i as int + 1, MAX_IRQS as int);
        }
        if reg.handlers[i].is_some() {
            proof {
                assert(registered_below(reg.handlers(), i as int + 1)[count as int] == i as int);
                lemma_registered_below_prefix(reg.handlers(), i as int + 1, MAX_IRQS as int);
            }
            buffer[count] = (i as u8, reg.stats[i]);
            count = count + 1;
        }
        i = i + 1;
    }
    count
}

/// The lines below `m` with a handler start with those below `n`.
proof fn lemma_registered_below_prefix<H>(handlers: Seq<Option<H>>, n: int, m: int)
    requires
        0 <= n <= m,
    ensures
        registered_below(handlers, n).len() <= registered_below(handlers, m).len(),
        forall|k: int| 0 <= k < registered_below(handlers, n).len() ==> #[trigger] registered_below(handlers, m)[k]
            == registered_below(handlers, n)[k],
    decreases m - n,
{
    if n < m {
        lemma_registered_below_prefix(handlers, n, m - 1);
    }
}

/// Interrupt vector of IRQ line `irq`.
pub fn ioapic_vector(irq: u8) -> (r: u8)
    requires
        irq as int + IRQ_VECTOR_BASE as int <= u8::MAX as int,
    ensures
        r == irq + IRQ_VECTOR_BASE,
{
    irq + IRQ_VECTOR_BASE
}

/// Register writes that program one redirection entry: the high register
/// first, then the low one.
#[derive(Debug, Clone, Copy, PartialEq, Eq, Structural)]
pub struct RedirectWrite {
    /// Register of the high half
    pub high_reg: u32,
    /// Value for the high half
    pub high_value: u32,
    /// Register of the low half
    pub low_reg: u32,
    /// Value for the low half
    pub low_value: u32,
}

/// Register of the low half of the redirection entry of `irq`.
pub fn redirect_low_reg(irq: u8) -> (r: u32)
    ensures
        r == IOAPIC_REG_REDTBL_BASE + 2 * irq,
{
    IOAPIC_REG_REDTBL_BASE + (irq as u32) * 2
}

/// The writes that route `irq` to `vector` on the CPU with APIC ID
/// `dest_apic_id` (fixed delivery, physical destination, active high, edge
/// triggered, unmasked). The destination is shifted within the 64-bit entry
/// value and only its upper half is written to the high register.
pub fn redirect_entry(irq: u8, vector: u8, dest_apic_id: u8) -> (r: RedirectWrite)
    ensures
        r.low_reg == IOAPIC_REG_REDTBL_BASE + 2 * irq,
        r.high_reg == r.low_reg + 1,
        r.low_value == vector,
        r.high_value == (((dest_apic_id as u64) << 24u64) >> 32u64) as u32,
{
    let low_reg = redirect_low_reg(irq);
    let entry_low: u64 = vector as u64;
    let entry_high: u64 = (dest_apic_id as u64) << 24;
    RedirectWrite { high_reg: low_reg + 1, high_value: (entry_high >> 32) as u32, low_reg, low_value: entry_low as u32 }
}

/// A redirection entry's low half with the mask bit set.
pub fn mask_entry(entry: u32) -> (r: u32)
    ensures
        r == ((entry as u64) | IOAPIC_MASK) as u32,
{
    let e: u64 = (entry as u64) | IOAPIC_MASK;
    e as u32
}

/// A redirection entry's low half with the mask bit cleared.
pub fn unmask_entry(entry: u32) -> (r: u32)
    ensures
        r == ((entry as u64) & !IOAPIC_MASK) as u32,
{
    let e: u64 = (entry as u64) & !IOAPIC_MASK;
    e as u32
}

/// Highest redirection entry index, from the IOAPIC version register.
pub fn max_redirects(ver: u32) -> (r: u8)
    ensures
        r == ((ver >> 16u32) & 0xFF) as u8,
{
    ((ver >> 16) & 0xFF) as u8
}

} // verus!
