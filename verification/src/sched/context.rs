//! Saved CPU register state of a task.
use vstd::prelude::*;

verus! {

/// Callee-saved registers of the x86_64 System V ABI plus the stack pointer,
/// in the order in which the switch code saves them.
#[derive(Debug, Clone, Copy, PartialEq, Eq, Structural)]
pub struct CpuContext {
    pub r15: u64,
    pub r14: u64,
    pub r13: u64,
    pub r12: u64,
    pub rbp: u64,
    pub rbx: u64,
    /// Stack pointer: the top of the task's stack
    pub rsp: u64,
}

impl CpuContext {
    /// The all-zero context.
    pub open spec fn spec_zero() -> CpuContext {
        CpuContext { r15: 0, r14: 0, r13: 0, r12: 0, rbp: 0, rbx: 0, rsp: 0 }
    }

    /// Create a new zeroed context.
    pub fn new() -> (r: Self)
        ensures
            r == Self::spec_zero(),
    {
        CpuContext { r15: 0, r14: 0, r13: 0, r12: 0, rbp: 0, rbx: 0, rsp: 0 }
    }
}

/// Build the two register sets used to check that a switch saves and restores
/// every callee-saved register (the stack pointers stay zero).
pub fn test_context_save_restore() -> (r: (CpuContext, CpuContext))
    ensures
        r.0 == (CpuContext {
            r15: 0x1111_1111_1111_1111, r14: 0x2222_2222_2222_2222, r13: 0x3333_3333_3333_3333,
            r12: 0x4444_4444_4444_4444, rbp: 0x5555_5555_5555_5555, rbx: 0x6666_6666_6666_6666,
            rsp: 0,
        }),
        r.1 == (CpuContext {
            r15: 0xAAAA_AAAA_AAAA_AAAA, r14: 0xBBBB_BBBB_BBBB_BBBB, r13: 0xCCCC_CCCC_CCCC_CCCC,
            r12: 0xDDDD_DDDD_DDDD_DDDD, rbp: 0xEEEE_EEEE_EEEE_EEEE, rbx: 0xFFFF_FFFF_FFFF_FFFF,
            rsp: 0,
        }),
{
    let mut ctx1 = CpuContext::new();
    let mut ctx2 = CpuContext::new();
    ctx1.r15 = 0x1111_1111_1111_1111;
    ctx1.r14 = 0x2222_2222_2222_2222;
    ctx1.r13 = 0x3333_3333_3333_3333;
    ctx1.r12 = 0x4444_4444_4444_4444;
    ctx1.rbp = 0x5555_5555_5555_5555;
    ctx1.rbx = 0x6666_6666_6666_6666;
    ctx2.r15 = 0xAAAA_AAAA_AAAA_AAAA;
    ctx2.r14 = 0xBBBB_BBBB_BBBB_BBBB;
    ctx2.r13 = 0xCCCC_CCCC_CCCC_CCCC;
    ctx2.r12 = 0xDDDD_DDDD_DDDD_DDDD;
    ctx2.rbp = 0xEEEE_EEEE_EEEE_EEEE;
    ctx2.rbx = 0xFFFF_FFFF_FFFF_FFFF;
    (ctx1, ctx2)
}

/// Offset in bytes of the saved stack pointer inside a context (six registers precede it).
pub const RSP_OFFSET: usize = 48;

/// Build the two contexts used to check stack-pointer switching; they differ only in `rsp`.
pub fn test_rsp_switching() -> (r: (CpuContext, CpuContext))
    ensures
        r.0 == (CpuContext { rsp: 0x1000_0000, ..CpuContext::spec_zero() }),
        r.1 == (CpuContext { rsp: 0x2000_0000, ..CpuContext::spec_zero() }),
{
    let mut ctx1 = CpuContext::new();
    let mut ctx2 = CpuContext::new();
    ctx1.rsp = 0x1000_0000;
    ctx2.rsp = 0x2000_0000;
    (ctx1, ctx2)
}

} // verus!
