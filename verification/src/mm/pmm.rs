//! Physical memory manager: a bitmap of 4 KiB frames, one bit per frame
//! (0 = free, 1 = used).
use vstd::prelude::*;

use crate::mm::PhysAddr;

verus! {

/// Size of a physical frame.
pub const FRAME_SIZE: usize = 4096;

/// Frames reachable with 52-bit physical addresses, the x86-64 maximum.
pub const MAX_PHYS_FRAMES: u64 = 0x100_0000_0000;

/// Memory-map entry type code of usable RAM.
pub const MEMMAP_USABLE: u64 = 0;

/// One entry of the bootloader's memory map.
#[derive(Debug, Clone, Copy, PartialEq, Eq, Structural)]
pub struct MemoryMapEntry {
    /// Physical base address
    pub base: u64,
    /// Length in bytes
    pub length: u64,
    /// Entry type code (`MEMMAP_USABLE` for usable RAM)
    pub entry_type: u64,
}

/// Whether bit `f` of the bitmap is set (frame `f` used).
pub open spec fn frame_bit(b: Seq<u8>, f: int) -> bool {
    (b[f / 8] & (1u8 << ((f % 8) as u8))) != 0
}

/// Number of free frames among frames `0..n`.
pub open spec fn count_free(b: Seq<u8>, n: int) -> nat
    decreases n,
{
    if n <= 0 {
        0
    } else {
        count_free(b, n - 1) + if frame_bit(b, n - 1) { 0nat } else { 1nat }
    }
}

/// Number of `f` in `0..n` for which `pred` holds.
pub open spec fn count_frames(pred: spec_fn(int) -> bool, n: int) -> nat
    decreases n,
{
    if n <= 0 {
        0
    } else {
        count_frames(pred, n - 1) + if pred(n - 1) { 1nat } else { 0nat }
    }
}

/// Counts of two predicates that agree below `n` are equal.
pub proof fn lemma_count_frames_same(p: spec_fn(int) -> bool, q: spec_fn(int) -> bool, n: int)
    requires
        forall|f: int| 0 <= f < n ==> #[trigger] p(f) == q(f),
    ensures
        count_frames(p, n) == count_frames(q, n),
    decreases n,
{
    if n > 0 {
        lemma_count_frames_same(p, q, n - 1);
    }
}

proof fn lemma_count_free_frames(b: Seq<u8>, n: int)
    ensures
        count_free(b, n) == count_frames(|f: int| !frame_bit(b, f), n),
    decreases n,
{
    if n > 0 {
        lemma_count_free_frames(b, n - 1);
    }
}

proof fn lemma_count_free_tail(b: Seq<u8>, t: int, n: int)
    requires
        0 <= t <= n,
        forall|f: int| t <= f < n ==> frame_bit(b, f),
    ensures
        count_free(b, n) == count_free(b, t),
    decreases n - t,
{
    if n > t {
        lemma_count_free_tail(b, t, n - 1);
    }
}

/// Setting or clearing bit `k` of a byte changes that bit only.
proof fn lemma_byte_bits(x: u8, k: u8)
    by (bit_vector)
    requires
        k < 8,
    ensures
        (0xffu8 & (1u8 << k)) != 0,
        (x | (1u8 << k)) & (1u8 << k) != 0,
        (x & !(1u8 << k)) & (1u8 << k) == 0,
        forall|j: u8| j < 8 && j != k ==> ((x | (1u8 << k)) & (1u8 << j)) == (x & (1u8 << j)),
        forall|j: u8| j < 8 && j != k ==> ((x & !(1u8 << k)) & (1u8 << j)) == (x & (1u8 << j)),
{
}

/// There are at most `n` free frames among `0..n`.
proof fn lemma_count_bound(b: Seq<u8>, n: int)
    ensures
        count_free(b, n) <= if n < 0 { 0 } else { n },
    decreases n,
{
    if n > 0 {
        lemma_count_bound(b, n - 1);
    }
}

/// Changing only frame `f` changes the count by the change of that frame.
proof fn lemma_count_update(b1: Seq<u8>, b2: Seq<u8>, f: int, n: int)
    requires
        forall|g: int| 0 <= g < n && g != f ==> frame_bit(b1, g) == frame_bit(b2, g),
    ensures
        count_free(b2, n) + (if 0 <= f < n && !frame_bit(b1, f) { 1int } else { 0int }) == count_free(
            b1,
            n,
        ) + (if 0 <= f < n && !frame_bit(b2, f) { 1int } else { 0int }),
    decreases n,
{
    if n > 0 {
        lemma_count_update(b1, b2, f, n - 1);
    }
}

/// Frames past `n` that are all used do not add to the count.
proof fn lemma_count_used_tail(b: Seq<u8>, n: int, m: int)
    requires
        0 <= n <= m,
        forall|g: int| n <= g < m ==> frame_bit(b, g),
    ensures
        count_free(b, m) == count_free(b, n),
    decreases m - n,
{
    if m > n {
        lemma_count_used_tail(b, n, m - 1);
    }
}

/// A positive count has a witness.
proof fn lemma_count_witness(b: Seq<u8>, n: int)
    requires
        count_free(b, n) > 0,
    ensures
        exists|f: int| 0 <= f < n && !frame_bit(b, f),
    decreases n,
{
    if n > 0 {
        if !frame_bit(b, n - 1) {
            assert(!frame_bit(b, n - 1));
        } else {
            lemma_count_witness(b, n - 1);
        }
    }
}

/// Bitmap allocator of physical frames.
pub struct PhysicalMemoryManager {
    bitmap: Vec<u8>,
    total_frames: usize,
    free_frames: usize,
    memory_start: PhysAddr,
    memory_end: PhysAddr,
    last_alloc: usize,
}

impl PhysicalMemoryManager {
    /// Number of frames the bitmap has bits for.
    pub closed spec fn nbits(&self) -> int {
        (self.bitmap@.len() * 8) as int
    }

    /// Whether frame `f` has a bit in the bitmap and it says free.
    pub closed spec fn is_free(&self, f: int) -> bool {
        0 <= f < self.nbits() && !frame_bit(self.bitmap@, f)
    }

    /// Frames managed (`0..total`).
    pub closed spec fn total(&self) -> nat {
        self.total_frames as nat
    }

    /// Count of free frames.
    pub closed spec fn free(&self) -> nat {
        self.free_frames as nat
    }

    /// Where the next circular allocation scan starts.
    pub closed spec fn next_scan(&self) -> nat {
        self.last_alloc as nat
    }

    /// The bitmap covers all managed frames, bits past them stay set, the
    /// free count matches the bitmap, and frame addresses fit in 64 bits.
    pub closed spec fn wf(&self) -> bool {
        &&& self.total_frames <= self.nbits()
        &&& self.nbits() <= usize::MAX
        &&& self.total_frames <= MAX_PHYS_FRAMES
        &&& self.total_frames * FRAME_SIZE <= usize::MAX
        &&& forall|f: int| self.total_frames <= f < self.nbits() ==> frame_bit(self.bitmap@, f)
        &&& self.free_frames == count_free(self.bitmap@, self.nbits())
        &&& (self.total_frames == 0 || self.last_alloc < self.total_frames)
    }

    /// The free count is the number of managed frames that are free.
    pub proof fn lemma_free_count(&self)
        requires
            self.wf(),
        ensures
            self.free() == count_frames(|f: int| self.is_free(f), self.total() as int),
    {
        lemma_count_free_tail(self.bitmap@, self.total_frames as int, self.nbits());
        lemma_count_free_frames(self.bitmap@, self.total_frames as int);
        lemma_count_frames_same(
            |f: int| !frame_bit(self.bitmap@, f),
            |f: int| self.is_free(f),
            self.total_frames as int,
        );
    }

    /// Every free frame is a managed one.
    pub proof fn lemma_free_in_range(&self, f: int)
        requires
            self.wf(),
            self.is_free(f),
        ensures
            0 <= f < self.total(),
    {
    }

    /// Managed frames have 52-bit physical addresses.
    pub proof fn lemma_total_bound(&self)
        requires
            self.wf(),
        ensures
            self.total() <= MAX_PHYS_FRAMES,
    {
    }

    /// Frame `f` is the same in both managers.
    pub open spec fn same_frame(&self, other: &PhysicalMemoryManager, f: int) -> bool {
        self.is_free(f) == other.is_free(f)
    }

    fn mark_frame_free(&mut self, frame: usize)
        requires
            old(self).wf(),
            frame < old(self).total(),
        ensures
            final(self).wf(),
            final(self).total() == old(self).total(),
            final(self).next_scan() == old(self).next_scan(),
            final(self).nbits() == old(self).nbits(),
            final(self).is_free(frame as int),
            forall|g: int| g != frame ==> #[trigger] final(self).is_free(g) == old(self).is_free(g),
            final(self).free() == old(self).free() + (if old(self).is_free(frame as int) {
                0int
            } else {
                1int
            }),
    {
        let byte_index = frame / 8;
        let bit_index = frame % 8;
        let mask: u8 = 1u8 << (bit_index as u8);
        let was_used = (self.bitmap[byte_index] & mask) != 0;
        let ghost b1 = self.bitmap@;
        let x = self.bitmap[byte_index];
        self.bitmap.set(byte_index, x & !mask);
        proof {
            lemma_byte_bits(x, bit_index as u8);
            let b2 = self.bitmap@;
            assert forall|g: int| 0 <= g < self.nbits() && g != frame implies frame_bit(b1, g)
                == frame_bit(b2, g) by {
                if g / 8 == byte_index {
                    assert((g % 8) as u8 != bit_index as u8);
                }
            }
            lemma_count_update(b1, b2, frame as int, self.nbits());
            lemma_count_bound(b1, self.nbits());
            assert forall|g: int| g != frame implies #[trigger] self.is_free(g) == old(self).is_free(g) by {
                if 0 <= g < self.nbits() && g / 8 == byte_index {
                    assert((g % 8) as u8 != bit_index as u8);
                }
            }
        }
        if was_used {
            self.free_frames = self.free_frames + 1;
        }
    }

    fn mark_frame_used(&mut self, frame: usize)
        requires
            old(self).wf(),
            frame < old(self).total(),
        ensures
            final(self).wf(),
            final(self).total() == old(self).total(),
            final(self).next_scan() == old(self).next_scan(),
            final(self).nbits() == old(self).nbits(),
            !final(self).is_free(frame as int),
            forall|g: int| g != frame ==> #[trigger] final(self).is_free(g) == old(self).is_free(g),
            final(self).free() + (if old(self).is_free(frame as int) { 1int } else { 0int }) == old(
                self,
            ).free(),
    {
        let byte_index = frame / 8;
        let bit_index = frame % 8;
        let mask: u8 = 1u8 << (bit_index as u8);
        let was_free = (self.bitmap[byte_index] & mask) == 0;
        let ghost b1 = self.bitmap@;
        let x = self.bitmap[byte_index];
        self.bitmap.set(byte_index, x | mask);
        proof {
            lemma_byte_bits(x, bit_index as u8);
            let b2 = self.bitmap@;
            assert forall|g: int| 0 <= g < self.nbits() && g != frame implies frame_bit(b1, g)
                == frame_bit(b2, g) by {
                if g / 8 == byte_index {
                    assert((g % 8) as u8 != bit_index as u8);
                }
            }
            lemma_count_update(b1, b2, frame as int, self.nbits());
            assert forall|g: int| g != frame implies #[trigger] self.is_free(g) == old(self).is_free(g) by {
                if 0 <= g < self.nbits() && g / 8 == byte_index {
                    assert((g % 8) as u8 != bit_index as u8);
                }
            }
        }
        if was_free {
            self.free_frames = self.free_frames - 1;
        }
    }

    fn is_frame_free(&self, frame: usize) -> (r: bool)
        requires
            self.wf(),
        ensures
            r == self.is_free(frame as int),
    {
        let byte_index = frame / 8;
        let bit_index = frame % 8;
        if byte_index < self.bitmap.len() {
            let mask: u8 = 1u8 << (bit_index as u8);
            (self.bitmap[byte_index] & mask) == 0
        } else {
            false
        }
    }
}

} // verus!

verus! {

/// `f` is the first free frame met by a circular scan of `0..total`
/// starting at `start`.
pub open spec fn first_free_circular(p: &PhysicalMemoryManager, start: int, f: int) -> bool {
    exists|k: int|
        0 <= k < p.total() && f == #[trigger] circ(start, k, p.total() as int) && p.is_free(f)
            && forall|j: int| 0 <= j < k ==> !#[trigger] p.is_free(circ(start, j, p.total() as int))
}

/// Position `k` steps after `start`, modulo `n`.
pub open spec fn circ(start: int, k: int, n: int) -> int {
    (start + k) % n
}

/// Frames `s..s+count` are all free.
pub open spec fn run_free(p: &PhysicalMemoryManager, s: int, count: int) -> bool {
    forall|f: int| s <= f < s + count ==> #[trigger] p.is_free(f)
}

/// `s` is a multiple of `align_frames` (any `s` when it is at most 1).
pub open spec fn frame_aligned(s: int, align_frames: int) -> bool {
    align_frames <= 1 || s % align_frames == 0
}

/// `s` can start a run of `count` free aligned frames inside `0..total`.
pub open spec fn run_candidate(p: &PhysicalMemoryManager, s: int, count: int, align_frames: int) -> bool {
    &&& 0 <= s < p.total()
    &&& s + count <= p.total()
    &&& frame_aligned(s, align_frames)
    &&& run_free(p, s, count)
}

/// A power of two, tested as in the bit trick `x & (x - 1) == 0`.
pub open spec fn is_pow2_usize(x: usize) -> bool {
    x != 0 && x & ((x - 1) as usize) == 0
}

impl PhysicalMemoryManager {
    /// Take a free frame: the first free one met scanning circularly from
    /// where the last allocation was found. None exactly when no frame is
    /// free. The frame's contents are not touched here.
    pub fn alloc_frame(&mut self) -> (r: Option<PhysAddr>)
        requires
            old(self).wf(),
        ensures
            final(self).wf(),
            final(self).total() == old(self).total(),
            final(self).nbits() == old(self).nbits(),
            r is None <==> old(self).free() == 0,
            r is None ==> final(self).free() == old(self).free() && final(self).next_scan() == old(
                self,
            ).next_scan() && forall|g: int| #[trigger] final(self).is_free(g) == old(self).is_free(g),
            r matches Some(a) ==> {
                let f = a as int / FRAME_SIZE as int;
                &&& a as int % FRAME_SIZE as int == 0
                &&& f < old(self).total()
                &&& old(self).is_free(f)
                &&& first_free_circular(old(self), old(self).next_scan() as int, f)
                &&& !final(self).is_free(f)
                &&& forall|g: int| g != f ==> #[trigger] final(self).is_free(g) == old(self).is_free(g)
                &&& final(self).free() + 1 == old(self).free()
                &&& final(self).next_scan() == f
            },
    {
        if self.free_frames == 0 {
            return None;
        }
        let start_frame = self.last_alloc;
        let total = self.total_frames;
        let mut offset: usize = 0;
        while offset < total
            invariant
                self.wf(),
                *self == *old(self),
                start_frame == old(self).last_alloc,
                total == old(self).total_frames,
                offset <= total,
                total > 0 ==> start_frame < total,
                forall|j: int|
                    0 <= j < offset ==> !#[trigger] self.is_free(circ(start_frame as int, j, total as int)),
            decreases total - offset,
        {
            let frame = (start_frame + offset) % total;
            if self.is_frame_free(frame) {
                proof {
                    let k = offset as int;
                    assert(frame == circ(start_frame as int, k, old(self).total() as int));
                    assert(old(self).is_free(frame as int));
                    assert forall|j: int| 0 <= j < k implies !#[trigger] old(self).is_free(
                        circ(start_frame as int, j, old(self).total() as int),
                    ) by {
                        assert(!self.is_free(circ(start_frame as int, j, total as int)));
                    }
                    assert(0 <= k < old(self).total());
                    assert(first_free_circular(old(self), start_frame as int, frame as int));
                }
                self.last_alloc = frame;
                self.mark_frame_used(frame);
                let a = frame as u64 * 4096;
                assert(a / 4096 == frame && a % 4096 == 0) by {
                    vstd::arithmetic::div_mod::lemma_mod_multiples_basic(frame as int, 4096);
                    vstd::arithmetic::div_mod::lemma_div_multiples_vanish(frame as int, 4096);
                }
                return Some(a);
            }
            offset = offset + 1;
        }
        proof {
            lemma_count_witness(self.bitmap@, self.nbits());
            let f = choose|f: int| 0 <= f < self.nbits() && !frame_bit(self.bitmap@, f);
            assert(self.is_free(f));
            let j = if f >= start_frame { f - start_frame } else { f + total - start_frame };
            vstd::arithmetic::div_mod::lemma_small_mod(f as nat, total as nat);
            vstd::arithmetic::div_mod::lemma_mod_add_multiples_vanish(f, total as int);
            assert(circ(start_frame as int, j, total as int) == f);
            assert(!self.is_free(circ(start_frame as int, j, total as int)));
        }
        None
    }

    /// Total managed memory in MiB.
    pub fn total_memory_mb(&self) -> (r: usize)
        requires
            self.wf(),
        ensures
            r == (self.total() * FRAME_SIZE) as int / (1024 * 1024) as int,
    {
        (self.total_frames * FRAME_SIZE) / (1024 * 1024)
    }

    /// Free memory in MiB.
    pub fn free_memory_mb(&self) -> (r: usize)
        requires
            self.wf(),
        ensures
            r == (self.free() * FRAME_SIZE) as int / (1024 * 1024) as int,
    {
        proof {
            lemma_count_used_tail(self.bitmap@, self.total_frames as int, self.nbits());
            lemma_count_bound(self.bitmap@, self.total_frames as int);
            assert(self.free_frames * FRAME_SIZE <= self.total_frames * FRAME_SIZE) by (nonlinear_arith)
                requires
                    self.free_frames <= self.total_frames,
            ;
        }
        (self.free_frames * FRAME_SIZE) / (1024 * 1024)
    }

    /// Return the frame at `phys_addr` to the free pool. Addresses not
    /// frame-aligned, past the managed frames, or of a free frame are ignored.
    pub fn free_frame(&mut self, phys_addr: PhysAddr)
        requires
            old(self).wf(),
        ensures
            final(self).wf(),
            final(self).total() == old(self).total(),
            final(self).nbits() == old(self).nbits(),
            final(self).next_scan() == old(self).next_scan(),
            ({
                let f = phys_addr as int / FRAME_SIZE as int;
                if phys_addr as int % FRAME_SIZE as int == 0 && f < old(self).total() && !old(self).is_free(f) {
                    &&& final(self).is_free(f)
                    &&& forall|g: int| g != f ==> #[trigger] final(self).is_free(g) == old(self).is_free(g)
                    &&& final(self).free() == old(self).free() + 1
                } else {
                    &&& forall|g: int| #[trigger] final(self).is_free(g) == old(self).is_free(g)
                    &&& final(self).free() == old(self).free()
                }
            }),
    {
        if phys_addr % 4096 != 0 {
            return;
        }
        let frame64 = phys_addr / 4096;
        if frame64 >= self.total_frames as u64 {
            return;
        }
        let frame = frame64 as usize;
        if self.is_frame_free(frame) {
            return;
        }
        self.mark_frame_free(frame);
    }
}

} // verus!

verus! {

impl PhysicalMemoryManager {
    /// Allocate `count` contiguous free frames whose first frame is a
    /// multiple of `align / FRAME_SIZE` frames: the lowest such run is taken
    /// and the address of its first frame returned. None when `align` is not
    /// a power of two, fewer than `count` frames are free, or no such run
    /// exists. The frames' contents are not touched here.
    pub fn alloc_contiguous(&mut self, count: usize, align: usize) -> (r: Option<PhysAddr>)
        requires
            old(self).wf(),
        ensures
            final(self).wf(),
            final(self).total() == old(self).total(),
            final(self).nbits() == old(self).nbits(),
            final(self).next_scan() == old(self).next_scan(),
            ({
                let af = (align / FRAME_SIZE) as int;
                r is Some <==> (is_pow2_usize(align) && old(self).free() >= count && exists|s: int|
                    #[trigger] run_candidate(old(self), s, count as int, af))
            }),
            r is None ==> final(self).free() == old(self).free() && forall|g: int| #[trigger] final(self).is_free(g) == old(self).is_free(g),
            r matches Some(a) ==> {
                let af = (align / FRAME_SIZE) as int;
                let s = a as int / FRAME_SIZE as int;
                &&& a as int % FRAME_SIZE as int == 0
                &&& run_candidate(old(self), s, count as int, af)
                &&& forall|t: int| 0 <= t < s ==> !#[trigger] run_candidate(old(self), t, count as int, af)
                &&& forall|g: int| s <= g < s + count ==> !#[trigger] final(self).is_free(g)
                &&& forall|g: int| !(s <= g < s + count) ==> #[trigger] final(self).is_free(g) == old(
                    self,
                ).is_free(g)
                &&& final(self).free() + count == old(self).free()
            },
    {
        if align == 0 || (align & (align - 1)) != 0 {
            return None;
        }
        if self.free_frames < count {
            return None;
        }
        let align_frames = align / FRAME_SIZE;
        let ghost af = align_frames as int;
        let total = self.total_frames;
        proof {
            assert(total <= usize::MAX / 4096) by (nonlinear_arith)
                requires
                    total * 4096 <= usize::MAX,
            ;
        }
        proof {
            lemma_count_used_tail(self.bitmap@, total as int, self.nbits());
            lemma_count_bound(self.bitmap@, total as int);
        }
        let mut start_frame: usize = 0;
        while start_frame < total
            invariant
                self.wf(),
                *self == *old(self),
                total == old(self).total_frames,
                total <= usize::MAX / 4096,
                align_frames == align / FRAME_SIZE,
                af == align_frames as int,
                is_pow2_usize(align),
                self.free_frames >= count,
                count <= total,
                start_frame <= total,
                count == 0 ==> start_frame == 0,
                forall|t: int| 0 <= t < start_frame ==> !#[trigger] run_candidate(self, t, count as int, af),
            decreases total - start_frame,
        {
            let mut s = start_frame;
            if align_frames > 1 {
                proof {
                    let x = start_frame + align_frames - 1;
                    assert((x / (align_frames as int)) * align_frames <= x) by (nonlinear_arith)
                        requires
                            align_frames > 1,
                            x >= 0,
                    ;
                    assert(((x / (align_frames as int)) * align_frames) % (align_frames as int) == 0)
                        by (nonlinear_arith)
                        requires
                            align_frames > 1,
                            x >= 0,
                    ;
                    assert(start_frame == 0 ==> (x / (align_frames as int)) * align_frames == 0)
                        by (nonlinear_arith)
                        requires
                            align_frames > 1,
                            x == start_frame + align_frames - 1,
                            start_frame >= 0,
                    ;
                }
                s = ((start_frame + align_frames - 1) / align_frames) * align_frames;
                proof {
                    assert(s >= start_frame) by (nonlinear_arith)
                        requires
                            s == ((start_frame + align_frames - 1) / (align_frames as int))
                                * align_frames,
                            align_frames > 1,
                            start_frame >= 0,
                    ;
                    assert forall|t: int| 0 <= t < s implies !#[trigger] run_candidate(
                        self,
                        t,
                        count as int,
                        af,
                    ) by {
                        if t >= start_frame && frame_aligned(t, af) {
                            assert(false) by (nonlinear_arith)
                                requires
                                    s == ((start_frame + af - 1) / af) * af,
                                    af > 1,
                                    t % af == 0,
                                    start_frame <= t < s,
                            ;
                        }
                    }
                }
            }
            if s > total - count {
                proof {
                    assert forall|t: int| #[trigger] run_candidate(self, t, count as int, af) implies false by {
                        assert(t < s);
                    }
                }
                return None;
            }
            let mut all_free = true;
            let mut offset: usize = 0;
            while offset < count && all_free
                invariant
                    self.wf(),
                    *self == *old(self),
                    total == old(self).total_frames,
                    s + count <= total,
                    offset <= count,
                    forall|g: int| s <= g < s + offset ==> #[trigger] self.is_free(g),
                    !all_free ==> offset < count && !self.is_free(s + offset),
                decreases count - offset + (if all_free { 1int } else { 0int }),
            {
                if !self.is_frame_free(s + offset) {
                    all_free = false;
                } else {
                    offset = offset + 1;
                }
            }
            if all_free {
                assert(run_candidate(self, s as int, count as int, af));
                let mut i: usize = 0;
                while i < count
                    invariant
                        self.wf(),
                        self.total() == old(self).total(),
                        self.nbits() == old(self).nbits(),
                        self.next_scan() == old(self).next_scan(),
                        s + count <= total,
                        total == old(self).total_frames,
                        i <= count,
                        self.free() + i == old(self).free(),
                        run_free(old(self), s as int, count as int),
                        forall|g: int| s <= g < s + i ==> !#[trigger] self.is_free(g),
                        forall|g: int| !(s <= g < s + i) ==> #[trigger] self.is_free(g) == old(self).is_free(g),
                    decreases count - i,
                {
                    proof {
                        assert(self.is_free(s + i) == old(self).is_free(s + i));
                    }
                    self.mark_frame_used(s + i);
                    i = i + 1;
                }
                let a = s as u64 * 4096;
                assert(a / 4096 == s && a % 4096 == 0) by {
                    vstd::arithmetic::div_mod::lemma_mod_multiples_basic(s as int, 4096);
                    vstd::arithmetic::div_mod::lemma_div_multiples_vanish(s as int, 4096);
                }
                return Some(a);
            }
            proof {
                assert forall|t: int| 0 <= t < s + offset + 1 implies !#[trigger] run_candidate(
                    self,
                    t,
                    count as int,
                    af,
                ) by {
                    if t >= s {
                        assert(t <= s + offset < t + count);
                        assert(!self.is_free(s + offset));
                    }
                }
            }
            start_frame = s + offset + 1;
        }
        proof {
            assert forall|t: int| #[trigger] run_candidate(self, t, count as int, af) implies false by {
                assert(t < start_frame);
            }
        }
        None
    }
}

} // verus!

verus! {

/// Highest end address of the usable entries (0 when there is none).
pub open spec fn usable_end(entries: Seq<MemoryMapEntry>) -> int
    decreases entries.len(),
{
    if entries.len() == 0 {
        0
    } else {
        let rest = usable_end(entries.drop_last());
        let e = entries.last();
        if e.entry_type == MEMMAP_USABLE && e.base + e.length > rest {
            e.base + e.length
        } else {
            rest
        }
    }
}

/// Frame `f` overlaps the byte range `start..end`.
pub open spec fn frame_in_range(start: int, end: int, f: int) -> bool {
    start / (FRAME_SIZE as int) <= f < (end + FRAME_SIZE - 1) / (FRAME_SIZE as int)
}

/// Frame `f` overlaps a usable entry among the first `n`.
pub open spec fn usable_covers(entries: Seq<MemoryMapEntry>, n: int, f: int) -> bool
    decreases n,
{
    if n <= 0 {
        false
    } else {
        usable_covers(entries, n - 1, f) || (entries[n - 1].entry_type == MEMMAP_USABLE
            && frame_in_range(entries[n - 1].base as int, entries[n - 1].base + entries[n - 1].length, f))
    }
}

/// Frame `f` is free in the manager built from memory map `entries` with
/// the kernel image at `kernel_start..kernel_end`: usable, outside the
/// image and outside the manager's own bitmap.
pub open spec fn boot_frame_free(entries: Seq<MemoryMapEntry>, kernel_start: u64, kernel_end: u64, f: int) -> bool {
    let total = managed_frames(usable_end(entries));
    &&& 0 <= f < total
    &&& usable_covers(entries, entries.len() as int, f)
    &&& !frame_in_range(kernel_start as int, kernel_end as int, f)
    &&& !frame_in_range(bitmap_base(kernel_end), bitmap_base(kernel_end) + (total + 7) / 8, f)
}

/// How many frames the manager built from `entries` starts with free.
pub open spec fn boot_free_frames(entries: Seq<MemoryMapEntry>, kernel_start: u64, kernel_end: u64) -> nat {
    count_frames(|f: int| boot_frame_free(entries, kernel_start, kernel_end, f), managed_frames(usable_end(entries)))
}

/// Number of frames managed for a highest usable end address.
pub open spec fn managed_frames(highest: int) -> int {
    let t = highest / (FRAME_SIZE as int);
    let t1 = if t > MAX_PHYS_FRAMES { MAX_PHYS_FRAMES as int } else { t };
    if t1 > usize::MAX / 4096 {
        (usize::MAX / 4096) as int
    } else {
        t1
    }
}

/// Where the bitmap is placed: the first frame boundary at or after the kernel's end.
pub open spec fn bitmap_base(kernel_end: u64) -> int {
    ((kernel_end + FRAME_SIZE - 1) / (FRAME_SIZE as int)) * FRAME_SIZE
}

impl PhysicalMemoryManager {
    /// Build the manager from the bootloader's memory map.
    ///
    /// Frames `0..highest/FRAME_SIZE` are managed, where `highest` is the
    /// highest end of a usable entry, capped at `MAX_PHYS_FRAMES` (and, on
    /// targets whose `usize` is narrower than 64 bits, at what `usize` can
    /// count). A managed frame is
    /// free when it overlaps a usable entry and neither the kernel image
    /// `kernel_start..kernel_end` nor the bitmap, placed at the first frame
    /// boundary after the kernel with one bit per managed frame.
    pub fn init(entries: &[MemoryMapEntry], kernel_start: u64, kernel_end: u64) -> (r: Self)
        requires
            forall|i: int|
                0 <= i < entries@.len() && (#[trigger] entries@[i]).entry_type == MEMMAP_USABLE
                    ==> entries@[i].base + entries@[i].length + FRAME_SIZE <= u64::MAX,
            kernel_end + 2 * FRAME_SIZE + usable_end(entries@) / 32768 <= u64::MAX,
        ensures
            r.wf(),
            r.total() == managed_frames(usable_end(entries@)),
            r.next_scan() == 0,
            forall|f: int|
                #[trigger] r.is_free(f) <==> (0 <= f < r.total() && usable_covers(
                    entries@,
                    entries@.len() as int,
                    f,
                ) && !frame_in_range(kernel_start as int, kernel_end as int, f) && !frame_in_range(
                    bitmap_base(kernel_end),
                    bitmap_base(kernel_end) + (r.total() + 7) / 8,
                    f,
                )),
    {
        let mut highest: u64 = 0;
        let mut i: usize = 0;
        while i < entries.len()
            invariant
                i <= entries@.len(),
                highest == usable_end(entries@.subrange(0, i as int)),
                forall|k: int|
                    0 <= k < entries@.len() && (#[trigger] entries@[k]).entry_type == MEMMAP_USABLE
                        ==> entries@[k].base + entries@[k].length + FRAME_SIZE <= u64::MAX,
            decreases entries@.len() - i,
        {
            let e = entries[i];
            proof {
                assert(entries@.subrange(0, i as int + 1).drop_last() =~= entries@.subrange(0, i as int));
            }
            if e.entry_type == MEMMAP_USABLE {
                let entry_end = e.base + e.length;
                if entry_end > highest {
                    highest = entry_end;
                }
            }
            i = i + 1;
        }
        proof {
            assert(entries@.subrange(0, entries@.len() as int) =~= entries@);
        }
        let cap: usize = usize::MAX / 4096;
        let t = highest / 4096;
        let t64 = if t > MAX_PHYS_FRAMES { MAX_PHYS_FRAMES } else { t };
        let total_frames: usize = if t64 > cap as u64 { cap } else { t64 as usize };
        let bitmap_size = total_frames / 8 + if total_frames % 8 == 0 { 0 } else { 1 };
        assert(bitmap_size == (total_frames + 7) / 8);
        let mut bitmap: Vec<u8> = Vec::new();
        let mut j: usize = 0;
        while j < bitmap_size
            invariant
                j <= bitmap_size,
                bitmap@.len() == j,
                forall|k: int| 0 <= k < j ==> #[trigger] bitmap@[k] == 0xffu8,
            decreases bitmap_size - j,
        {
            bitmap.push(0xff);
            j = j + 1;
        }
        proof {
            assert forall|f: int| 0 <= f < bitmap@.len() * 8 implies frame_bit(bitmap@, f) by {
                lemma_byte_bits(0, (f % 8) as u8);
            }
            lemma_count_used_tail(bitmap@, 0, (bitmap@.len() * 8) as int);
            assert(total_frames * FRAME_SIZE <= usize::MAX) by (nonlinear_arith)
                requires
                    total_frames <= usize::MAX / 4096,
            ;
        }
        let mut pmm = PhysicalMemoryManager {
            bitmap,
            total_frames,
            free_frames: 0,
            memory_start: 0,
            memory_end: highest,
            last_alloc: 0,
        };
        let ghost es = entries@;
        let mut n: usize = 0;
        while n < entries.len()
            invariant
                pmm.wf(),
                pmm.total_frames == total_frames,
                pmm.last_alloc == 0,
                pmm.nbits() == bitmap_size * 8,
                es == entries@,
                n <= es.len(),
                forall|k: int|
                    0 <= k < es.len() && (#[trigger] es[k]).entry_type == MEMMAP_USABLE ==> es[k].base
                        + es[k].length + FRAME_SIZE <= u64::MAX,
                forall|f: int|
                    #[trigger] pmm.is_free(f) <==> (0 <= f < total_frames && usable_covers(es, n as int, f)),
            decreases es.len() - n,
        {
            let e = entries[n];
            if e.entry_type == MEMMAP_USABLE {
                let start_frame = e.base / 4096;
                let end_frame = (e.base + e.length + 4095) / 4096;
                let mut frame = start_frame;
                while frame < end_frame
                    invariant
                        pmm.wf(),
                        pmm.total_frames == total_frames,
                        pmm.last_alloc == 0,
                        pmm.nbits() == bitmap_size * 8,
                        start_frame <= frame,
                        frame <= end_frame || start_frame > end_frame,
                        forall|f: int|
                            #[trigger] pmm.is_free(f) <==> (0 <= f < total_frames && (usable_covers(
                                es,
                                n as int,
                                f,
                            ) || (start_frame <= f < frame))),
                    decreases end_frame - frame,
                {
                    if frame < total_frames as u64 {
                        pmm.mark_frame_free(frame as usize);
                    }
                    frame = frame + 1;
                }
            }
            proof {
                assert forall|f: int| #[trigger] pmm.is_free(f) <==> (0 <= f < total_frames
                    && usable_covers(es, n as int + 1, f)) by {
                    reveal_with_fuel(usable_covers, 2);
                }
            }
            n = n + 1;
        }
        let kernel_start_frame = kernel_start / 4096;
        let kernel_end_frame = (kernel_end + 4095) / 4096;
        let mut frame = kernel_start_frame;
        while frame < kernel_end_frame
            invariant
                pmm.wf(),
                pmm.total_frames == total_frames,
                pmm.last_alloc == 0,
                pmm.nbits() == bitmap_size * 8,
                kernel_start_frame <= frame,
                frame <= kernel_end_frame || kernel_start_frame > kernel_end_frame,
                kernel_start_frame > kernel_end_frame ==> frame == kernel_start_frame,
                kernel_start_frame == kernel_start / 4096,
                kernel_end_frame == (kernel_end + 4095) / 4096,
                forall|f: int|
                    #[trigger] pmm.is_free(f) <==> (0 <= f < total_frames && usable_covers(
                        es,
                        es.len() as int,
                        f,
                    ) && !(kernel_start_frame <= f < frame)),
            decreases kernel_end_frame - frame,
        {
            if frame < total_frames as u64 {
                pmm.mark_frame_used(frame as usize);
            }
            frame = frame + 1;
        }
        proof {
            assert forall|f: int| (kernel_start_frame <= f < frame) == frame_in_range(
                kernel_start as int,
                kernel_end as int,
                f,
            ) by {}
            assert(bitmap_size <= highest / 32768 + 1);
        }
        let bitmap_start = ((kernel_end + 4095) / 4096) * 4096;
        let bitmap_end = bitmap_start + bitmap_size as u64;
        let bitmap_start_frame = bitmap_start / 4096;
        let bitmap_end_frame = (bitmap_end + 4095) / 4096;
        let mut frame = bitmap_start_frame;
        while frame < bitmap_end_frame
            invariant
                pmm.wf(),
                pmm.total_frames == total_frames,
                pmm.last_alloc == 0,
                pmm.nbits() == bitmap_size * 8,
                bitmap_start_frame <= frame,
                frame <= bitmap_end_frame || bitmap_start_frame > bitmap_end_frame,
                bitmap_start_frame > bitmap_end_frame ==> frame == bitmap_start_frame,
                bitmap_start_frame == bitmap_start / 4096,
                bitmap_end_frame == (bitmap_end + 4095) / 4096,
                forall|f: int|
                    #[trigger] pmm.is_free(f) <==> (0 <= f < total_frames && usable_covers(
                        es,
                        es.len() as int,
                        f,
                    ) && !frame_in_range(kernel_start as int, kernel_end as int, f) && !(
                    bitmap_start_frame <= f < frame)),
            decreases bitmap_end_frame - frame,
        {
            if frame < total_frames as u64 {
                pmm.mark_frame_used(frame as usize);
            }
            frame = frame + 1;
        }
        proof {
            assert forall|f: int| (bitmap_start_frame <= f < frame) == #[trigger] frame_in_range(
                bitmap_base(kernel_end),
                bitmap_base(kernel_end) + (total_frames + 7) / 8,
                f,
            ) by {}
        }
        pmm
    }
}

} // verus!
