//! Timer interrupt support: IDT gate entries, the PIT divisor, and the tick
//! counter. Loading the IDT and writing I/O ports are left to the caller.
use vstd::prelude::*;

verus! {

/// PIT base frequency in Hz.
pub const PIT_FREQUENCY: u32 = 1193182;

/// Largest PIT divisor.
pub const PIT_MAX_DIVISOR: u32 = 65535;

/// Type byte of a kernel interrupt gate (present, DPL 0).
pub const GATE_KERNEL: u8 = 0x8E;

/// Type byte of a user-callable interrupt gate (present, DPL 3).
pub const GATE_USER: u8 = 0xEE;

/// One IDT gate.
#[derive(Clone, Copy, Debug)]
pub struct IdtEntry {
    /// Handler address bits 0..16
    pub offset_low: u16,
    /// Code segment selector
    pub selector: u16,
    /// Interrupt stack table index
    pub ist: u8,
    /// Gate type and attributes
    pub type_attr: u8,
    /// Handler address bits 16..32
    pub offset_mid: u16,
    /// Handler address bits 32..64
    pub offset_high: u32,
    /// Reserved, zero
    pub reserved: u32,
}

/// Interrupt gate entry pointing at `handler`, code selector `selector`, attributes `type_attr`.
pub open spec fn gate(handler: u64, selector: u16, type_attr: u8) -> IdtEntry {
    IdtEntry {
        offset_low: (handler & 0xFFFF) as u16,
        selector,
        ist: 0,
        type_attr,
        offset_mid: ((handler >> 16u64) & 0xFFFF) as u16,
        offset_high: ((handler >> 32u64) & 0xFFFF_FFFF) as u32,
        reserved: 0,
    }
}

impl IdtEntry {
    /// An absent gate.
    pub fn new() -> (r: Self)
        ensures
            r == (IdtEntry {
                offset_low: 0,
                selector: 0,
                ist: 0,
                type_attr: 0,
                offset_mid: 0,
                offset_high: 0,
                reserved: 0,
            }),
    {
        IdtEntry { offset_low: 0, selector: 0, ist: 0, type_attr: 0, offset_mid: 0, offset_high: 0, reserved: 0 }
    }

    /// Make this a kernel interrupt gate for `handler`.
    pub fn set_handler(&mut self, handler: u64, selector: u16)
        ensures
            *final(self) == gate(handler, selector, GATE_KERNEL),
            final(self).selector == selector,
            final(self).type_attr == GATE_KERNEL,
    {
        *self = Self::gate_for(handler, selector, GATE_KERNEL);
    }

    /// Make this a user-callable interrupt gate for `handler`.
    pub fn set_handler_user(&mut self, handler: u64, selector: u16)
        ensures
            *final(self) == gate(handler, selector, GATE_USER),
            final(self).selector == selector,
            final(self).type_attr == GATE_USER,
    {
        *self = Self::gate_for(handler, selector, GATE_USER);
    }

    fn gate_for(handler: u64, selector: u16, type_attr: u8) -> (r: Self)
        ensures
            r == gate(handler, selector, type_attr),
    {
        IdtEntry {
            offset_low: (handler & 0xFFFF) as u16,
            selector,
            ist: 0,
            type_attr,
            offset_mid: ((handler >> 16) & 0xFFFF) as u16,
            offset_high: ((handler >> 32) & 0xFFFF_FFFF) as u32,
            reserved: 0,
        }
    }
}

/// The PIT frequency `frequency` can be programmed: not zero, not above the
/// base frequency, and not so low that the divisor exceeds 16 bits.
pub open spec fn pit_frequency_ok(frequency: u32) -> bool {
    0 < frequency <= PIT_FREQUENCY && PIT_FREQUENCY / frequency <= PIT_MAX_DIVISOR
}

/// The PIT divisor for `frequency` Hz and the two bytes written to channel
/// 0 (low byte first).
pub fn pit_divisor(frequency: u32) -> (r: (u32, u8, u8))
    requires
        pit_frequency_ok(frequency),
    ensures
        r.0 == PIT_FREQUENCY / frequency,
        r.0 >= 1,
        r.1 == r.0 % 256,
        r.2 == r.0 / 256,
{
    let divisor = PIT_FREQUENCY / frequency;
    assert(divisor >= 1) by (nonlinear_arith)
        requires
            0 < frequency <= PIT_FREQUENCY,
            divisor == PIT_FREQUENCY / frequency,
    ;
    let lo = (divisor % 256) as u8;
    let hi = (divisor / 256) as u8;
    (divisor, lo, hi)
}

/// Timer interrupts since boot.
pub struct TickCounter {
    ticks: usize,
}

impl TickCounter {
    /// Ticks counted.
    pub closed spec fn count(&self) -> usize {
        self.ticks
    }

    /// No tick yet.
    pub fn new() -> (r: Self)
        ensures
            r.count() == 0,
    {
        TickCounter { ticks: 0 }
    }

    /// Count one timer interrupt (wrapping at the width of `usize`).
    pub fn tick(&mut self)
        ensures
            final(self).count() == crate::sys::wrap_inc(old(self).count()),
    {
        self.ticks = crate::sys::counter_inc(self.ticks);
    }
}

/// The number of timer interrupts since boot.
pub fn get_tick_count(counter: &TickCounter) -> (r: usize)
    ensures
        r == counter.count(),
{
    counter.ticks
}


/// An interrupt gate keeps its selector and gate type, has no interrupt
/// stack and a zero reserved field, and its three offset fields join into
/// the handler address.
pub proof fn lemma_gate_holds(handler: u64, selector: u16, type_attr: u8)
    ensures
        ({
            let g = gate(handler, selector, type_attr);
            &&& g.selector == selector
            &&& g.type_attr == type_attr
            &&& g.ist == 0
            &&& g.reserved == 0
            &&& (g.offset_low as u64) | ((g.offset_mid as u64) << 16u64) | ((g.offset_high as u64) << 32u64) == handler
        }),
{
    let lo = (handler & 0xFFFF) as u16;
    let mid = ((handler >> 16u64) & 0xFFFF) as u16;
    let hi = ((handler >> 32u64) & 0xFFFF_FFFF) as u32;
    assert((lo as u64) | ((mid as u64) << 16u64) | ((hi as u64) << 32u64) == handler) by (bit_vector)
        requires
            lo == (handler & 0xFFFF) as u16,
            mid == ((handler >> 16u64) & 0xFFFF) as u16,
            hi == ((handler >> 32u64) & 0xFFFF_FFFF) as u32,
    ;
}

} // verus!
