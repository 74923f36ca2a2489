//! Kernel heap: a buddy allocator over an address range, with one free list
//! per block order (64 bytes to 1 MiB).
//!
//! Blocks are addresses; zeroing a block handed out is left to the caller.
//! The free blocks lie in the heap and never overlap (`heap_sound`) from
//! `init` on, through every allocation and every release of a block that is
//! not free; an allocation never overlaps a block that is not free. On a
//! heap that starts at a multiple of `MAX_BLOCK_SIZE`, every block starts at
//! a multiple of its size, as long as blocks given back do too.
//! The byte counter and the address of a split-off buddy are computed with
//! wrapping arithmetic.
use vstd::prelude::*;

verus! {

/// Minimum block size (64 bytes).
pub const MIN_BLOCK_SIZE: usize = 64;

/// Maximum block size (1 MiB).
pub const MAX_BLOCK_SIZE: usize = 1048576;

/// Number of orders (64 B to 1 MiB).
pub const NUM_ORDERS: usize = 15;

/// Size of a block of order `order`: 64 bytes doubled `order` times.
pub open spec fn block_size(order: nat) -> nat
    decreases order,
{
    if order == 0 {
        MIN_BLOCK_SIZE as nat
    } else {
        2 * block_size((order - 1) as nat)
    }
}

proof fn lemma_block_size_bounds(order: nat)
    requires
        order < NUM_ORDERS,
    ensures
        MIN_BLOCK_SIZE <= block_size(order) <= MAX_BLOCK_SIZE,
        order + 1 < NUM_ORDERS ==> block_size(order + 1) <= MAX_BLOCK_SIZE,
        block_size((NUM_ORDERS - 1) as nat) == MAX_BLOCK_SIZE,
    decreases order,
{
    reveal_with_fuel(block_size, 15);
    if order > 0 {
        lemma_block_size_bounds((order - 1) as nat);
    }
}

proof fn lemma_block_size_mono(a: nat, b: nat)
    requires
        a <= b,
    ensures
        block_size(a) <= block_size(b),
    decreases b - a,
{
    if a < b {
        lemma_block_size_mono(a, (b - 1) as nat);
    }
}

/// Smallest order from `from` on whose blocks hold `size` bytes (the last
/// order if none does).
pub open spec fn order_from(size: nat, from: nat) -> nat
    decreases NUM_ORDERS - from,
{
    if from + 1 >= NUM_ORDERS || size <= block_size(from) {
        from
    } else {
        order_from(size, from + 1)
    }
}

/// Order of the block that serves a request of `size` bytes.
pub open spec fn size_order(size: nat) -> nat {
    order_from(size, 0)
}

/// Bytes charged for a request of `size` bytes: `size` rounded up to a
/// power of two, at least 64.
pub open spec fn charge(size: nat) -> nat {
    block_size(size_order(size))
}

/// A request of `size` bytes can be served by some block order.
pub open spec fn servable(size: usize) -> bool {
    0 < size <= MAX_BLOCK_SIZE
}

/// What the allocator holds.
pub struct BuddyView {
    /// Free blocks of each order, the most recently freed last
    pub lists: Seq<Seq<usize>>,
    /// Start of heap
    pub heap_start: usize,
    /// End of heap
    pub heap_end: usize,
    /// Bytes handed out and not given back
    pub allocated: usize,
}

/// `lists` with a block of `bs` bytes at `addr` and the rest of `remaining`
/// bytes added greedily, largest blocks first.
pub open spec fn carve(lists: Seq<Seq<usize>>, addr: nat, remaining: nat) -> Seq<Seq<usize>>
    decreases remaining,
{
    if remaining < MIN_BLOCK_SIZE {
        lists
    } else {
        let order = largest_order_within(remaining, (NUM_ORDERS - 1) as nat);
        let bs = block_size(order);
        if bs <= remaining && bs > 0 {
            carve(lists.update(order as int, lists[order as int].push(addr as usize)), addr + bs, (remaining - bs) as nat)
        } else {
            lists
        }
    }
}

/// Largest order at most `from` whose blocks fit in `remaining` bytes
/// (order 0 if none does).
pub open spec fn largest_order_within(remaining: nat, from: nat) -> nat
    decreases from,
{
    if from == 0 || block_size(from) <= remaining {
        from
    } else {
        largest_order_within(remaining, (from - 1) as nat)
    }
}

/// Free lists and block after taking a block of order `order`: the most
/// recently freed one of that order, or a larger block split in two halves,
/// the upper half staying free.
pub open spec fn take_block(lists: Seq<Seq<usize>>, order: nat) -> (Seq<Seq<usize>>, Option<usize>)
    decreases NUM_ORDERS - order,
{
    if order >= NUM_ORDERS {
        (lists, None)
    } else if lists[order as int].len() > 0 {
        (lists.update(order as int, lists[order as int].drop_last()), Some(lists[order as int].last()))
    } else if order + 1 < NUM_ORDERS {
        let (l2, r) = take_block(lists, order + 1);
        match r {
            Some(b) => (
                l2.update(order as int, l2[order as int].push(wrapping_add_usize(b, block_size(order) as usize))),
                Some(b),
            ),
            None => (l2, None),
        }
    } else {
        (lists, None)
    }
}

/// Taking a block that is not there leaves the lists as they were.
pub proof fn lemma_take_block_none_keeps(lists: Seq<Seq<usize>>, order: nat)
    ensures
        take_block(lists, order).1 is None ==> take_block(lists, order).0 == lists,
    decreases NUM_ORDERS - order,
{
    if order < NUM_ORDERS && lists[order as int].len() == 0 && order + 1 < NUM_ORDERS {
        lemma_take_block_none_keeps(lists, order + 1);
    }
}

/// `a + b` wrapping at the width of `usize`.
pub open spec fn wrapping_add_usize(a: usize, b: usize) -> usize {
    if a + b > usize::MAX {
        (a + b - usize::MAX - 1) as usize
    } else {
        (a + b) as usize
    }
}

/// `a - b` wrapping at the width of `usize`.
pub open spec fn wrapping_sub_usize(a: usize, b: usize) -> usize {
    if a >= b {
        (a - b) as usize
    } else {
        (a - b + usize::MAX + 1) as usize
    }
}

/// Position `i` holds the occurrence of `addr` nearest the end of `s`.
pub open spec fn last_at(s: Seq<usize>, addr: usize, i: int) -> bool {
    &&& 0 <= i < s.len()
    &&& s[i] == addr
    &&& forall|j: int| i < j < s.len() ==> #[trigger] s[j] != addr
}

/// Free lists after freeing the block of order `order` at `addr`: while its
/// buddy (the address differing in the block-size bit) lies in the heap and
/// is free, the two merge into a block of the next order.
pub open spec fn merge_free(lists: Seq<Seq<usize>>, heap_start: usize, heap_end: usize, addr: usize, order: nat) -> Seq<
    Seq<usize>,
>
    decreases NUM_ORDERS - order,
{
    let bs = block_size(order);
    let buddy = addr ^ (bs as usize);
    if order + 1 < NUM_ORDERS && buddy >= heap_start && buddy < heap_end && exists|i: int|
        last_at(lists[order as int], buddy, i) {
        let i = choose|i: int| last_at(lists[order as int], buddy, i);
        merge_free(
            lists.update(order as int, lists[order as int].remove(i)),
            heap_start,
            heap_end,
            if addr < buddy { addr } else { buddy },
            order + 1,
        )
    } else {
        lists.update(order as int, lists[order as int].push(addr))
    }
}

/// The buddy allocator.
pub struct BuddyAllocator {
    free_lists: Vec<Vec<usize>>,
    heap_start: usize,
    heap_end: usize,
    allocated: usize,
}

impl View for BuddyAllocator {
    type V = BuddyView;

    closed spec fn view(&self) -> BuddyView {
        BuddyView {
            lists: Seq::new(self.free_lists@.len(), |i: int| self.free_lists@[i]@),
            heap_start: self.heap_start,
            heap_end: self.heap_end,
            allocated: self.allocated,
        }
    }
}

/// `NUM_ORDERS` empty free lists.
pub open spec fn empty_lists() -> Seq<Seq<usize>> {
    Seq::new(NUM_ORDERS as nat, |i: int| Seq::<usize>::empty())
}

impl BuddyAllocator {
    /// One free list per order.
    pub open spec fn wf(&self) -> bool {
        self@.lists.len() == NUM_ORDERS
    }

    /// An allocator over `start..start + size`, the range cut greedily into
    /// the largest blocks that fit, from `start` up.
    pub fn init(start: usize, size: usize) -> (r: Self)
        requires
            start + size <= usize::MAX,
        ensures
            r.wf(),
            r@ == (BuddyView {
                lists: carve(empty_lists(), start as nat, size as nat),
                heap_start: start,
                heap_end: (start + size) as usize,
                allocated: 0,
            }),
            heap_sound(r@),
            block_aligned(start, (NUM_ORDERS - 1) as nat) ==> lists_aligned(r@.lists),
    {
        let mut free_lists: Vec<Vec<usize>> = Vec::new();
        let mut k: usize = 0;
        while k < NUM_ORDERS
            invariant
                k <= NUM_ORDERS,
                free_lists@.len() == k,
                forall|j: int| 0 <= j < k ==> (#[trigger] free_lists@[j])@ == Seq::<usize>::empty(),
            decreases NUM_ORDERS - k,
        {
            free_lists.push(Vec::new());
            k = k + 1;
        }
        let mut allocator = BuddyAllocator { free_lists, heap_start: start, heap_end: start + size, allocated: 0 };
        assert(allocator@.lists =~= empty_lists());
        let mut remaining_size = size;
        let mut current_addr = start;
        while remaining_size >= MIN_BLOCK_SIZE
            invariant
                allocator.free_lists@.len() == NUM_ORDERS,
                allocator.heap_start == start,
                allocator.heap_end == start + size,
                allocator.allocated == 0,
                current_addr + remaining_size == start + size,
                carve(empty_lists(), start as nat, size as nat) == carve(
                    allocator@.lists,
                    current_addr as nat,
                    remaining_size as nat,
                ),
            ensures
                carve(empty_lists(), start as nat, size as nat) == allocator@.lists,
            decreases remaining_size,
        {
            let mut order: usize = NUM_ORDERS - 1;
            let mut bsize: usize = MAX_BLOCK_SIZE;
            proof {
                lemma_block_size_bounds((NUM_ORDERS - 1) as nat);
            }
            while bsize > remaining_size
                invariant
                    order < NUM_ORDERS,
                    bsize == block_size(order as nat),
                    remaining_size >= MIN_BLOCK_SIZE,
                    largest_order_within(remaining_size as nat, (NUM_ORDERS - 1) as nat) == largest_order_within(
                        remaining_size as nat,
                        order as nat,
                    ),
                ensures
                    bsize <= remaining_size || order == 0,
                decreases order,
            {
                if order == 0 {
                    break;
                }
                order = order - 1;
                proof {
                    lemma_block_size_bounds(order as nat);
                }
                bsize = bsize / 2;
            }
            proof {
                lemma_block_size_bounds(order as nat);
            }
            if bsize <= remaining_size && bsize >= MIN_BLOCK_SIZE {
                let ghost before = allocator@.lists;
                allocator.free_lists[order].push(current_addr);
                proof {
                    assert(allocator@.lists =~= before.update(order as int, before[order as int].push(current_addr)));
                }
                current_addr = current_addr + bsize;
                remaining_size = remaining_size - bsize;
            } else {
                proof {
                    assert(largest_order_within(remaining_size as nat, order as nat) == order as nat);
                    assert(carve(allocator@.lists, current_addr as nat, remaining_size as nat) == allocator@.lists);
                }
                break;
            }
        }
        proof {
            lemma_carve_sound(empty_lists(), start, (start + size) as usize, start as nat, size as nat);
            if block_aligned(start, (NUM_ORDERS - 1) as nat) {
                lemma_carve_aligned(empty_lists(), start as nat, size as nat, (NUM_ORDERS - 1) as nat);
            }
        }
        allocator
    }
}


/// Size of the blocks of order `order`.
fn order_block_size(order: usize) -> (r: usize)
    requires
        order < NUM_ORDERS,
    ensures
        r == block_size(order as nat),
{
    let mut r: usize = MIN_BLOCK_SIZE;
    let mut k: usize = 0;
    while k < order
        invariant
            k <= order,
            order < NUM_ORDERS,
            r == block_size(k as nat),
        decreases order - k,
    {
        proof {
            lemma_block_size_bounds(k as nat);
        }
        r = r * 2;
        k = k + 1;
    }
    r
}

/// Order and block size serving a request of `size` bytes.
fn order_for_size(size: usize) -> (r: (usize, usize))
    requires
        servable(size),
    ensures
        r.0 == size_order(size as nat),
        r.0 < NUM_ORDERS,
        r.1 == charge(size as nat),
        size <= r.1 <= MAX_BLOCK_SIZE,
{
    let mut order: usize = 0;
    let mut bs: usize = MIN_BLOCK_SIZE;
    proof {
        lemma_block_size_bounds((NUM_ORDERS - 1) as nat);
    }
    while bs < size
        invariant
            servable(size),
            order < NUM_ORDERS,
            bs == block_size(order as nat),
            size_order(size as nat) == order_from(size as nat, order as nat),
            block_size((NUM_ORDERS - 1) as nat) == MAX_BLOCK_SIZE,
        decreases NUM_ORDERS - order,
    {
        proof {
            lemma_block_size_bounds(order as nat);
        }
        bs = bs * 2;
        order = order + 1;
    }
    proof {
        lemma_block_size_bounds(order as nat);
    }
    (order, bs)
}

impl BuddyAllocator {
    /// Take a block of order `order`, splitting larger blocks as needed.
    fn find_free_block(&mut self, order: usize) -> (r: Option<usize>)
        requires
            old(self).wf(),
            order < NUM_ORDERS,
        ensures
            final(self).wf(),
            (final(self)@.lists, r) == take_block(old(self)@.lists, order as nat),
            final(self)@.heap_start == old(self)@.heap_start,
            final(self)@.heap_end == old(self)@.heap_end,
            final(self)@.allocated == old(self)@.allocated,
        decreases NUM_ORDERS - order,
    {
        if self.free_lists[order].len() > 0 {
            let ghost before = self@.lists;
            let b = self.free_lists[order].pop().unwrap();
            proof {
                assert(self@.lists =~= before.update(order as int, before[order as int].drop_last()));
            }
            return Some(b);
        }
        if order + 1 < NUM_ORDERS {
            match self.find_free_block(order + 1) {
                Some(larger) => {
                    let bs = order_block_size(order);
                    let buddy = larger.wrapping_add(bs);
                    let ghost before = self@.lists;
                    self.free_lists[order].push(buddy);
                    proof {
                        assert(self@.lists =~= before.update(order as int, before[order as int].push(buddy)));
                    }
                    Some(larger)
                },
                None => None,
            }
        } else {
            None
        }
    }

    /// Take a block for `size` bytes: its address, 0 when `size` is 0 or
    /// over `MAX_BLOCK_SIZE` or no block is free. The block's size is
    /// charged to the allocated bytes.
    pub fn allocate(&mut self, size: usize) -> (r: usize)
        requires
            old(self).wf(),
        ensures
            final(self).wf(),
            final(self)@.heap_start == old(self)@.heap_start,
            final(self)@.heap_end == old(self)@.heap_end,
            !servable(size) ==> r == 0 && final(self)@ == old(self)@,
            servable(size) ==> ({
                let (lists, b) = take_block(old(self)@.lists, size_order(size as nat));
                &&& final(self)@.lists == lists
                &&& b matches Some(a) ==> r == a && final(self)@.allocated == wrapping_add_usize(
                    old(self)@.allocated,
                    charge(size as nat) as usize,
                )
                &&& b is None ==> r == 0 && final(self)@.allocated == old(self)@.allocated
            }),
            heap_sound(old(self)@) ==> heap_sound(final(self)@),
            heap_sound(old(self)@) && servable(size) && take_block(old(self)@.lists, size_order(size as nat)).1 is Some
                ==> block_not_free(final(self)@, r, size_order(size as nat)),
            heap_sound(old(self)@) && lists_aligned(old(self)@.lists) ==> lists_aligned(final(self)@.lists),
            heap_sound(old(self)@) && lists_aligned(old(self)@.lists) && servable(size) && take_block(
                old(self)@.lists,
                size_order(size as nat),
            ).1 is Some ==> block_aligned(r, size_order(size as nat)),
    {
        if size == 0 || size > MAX_BLOCK_SIZE {
            return 0;
        }
        let (order, actual_size) = order_for_size(size);
        proof {
            if heap_sound(self@) {
                lemma_take_block_fresh(self@.lists, self@.heap_start, self@.heap_end, order as nat);
                if lists_aligned(self@.lists) {
                    lemma_take_block_aligned(self@.lists, self@.heap_start, self@.heap_end, order as nat);
                }
            }
        }
        match self.find_free_block(order) {
            Some(block) => {
                self.allocated = self.allocated.wrapping_add(actual_size);
                block
            },
            None => 0,
        }
    }

    /// Remove the occurrence of `addr` nearest the head of the free list of
    /// order `order`: whether there was one.
    fn remove_from_free_list(&mut self, addr: usize, order: usize) -> (r: bool)
        requires
            old(self).wf(),
            order < NUM_ORDERS,
        ensures
            final(self).wf(),
            r == exists|i: int| last_at(old(self)@.lists[order as int], addr, i),
            r ==> final(self)@.lists == old(self)@.lists.update(
                order as int,
                old(self)@.lists[order as int].remove(choose|i: int| last_at(old(self)@.lists[order as int], addr, i)),
            ),
            !r ==> final(self)@.lists == old(self)@.lists,
            final(self)@.heap_start == old(self)@.heap_start,
            final(self)@.heap_end == old(self)@.heap_end,
            final(self)@.allocated == old(self)@.allocated,
    {
        let n = self.free_lists[order].len();
        let mut k: usize = n;
        while k > 0
            invariant
                *self == *old(self),
                old(self).wf(),
                order < NUM_ORDERS,
                n == old(self)@.lists[order as int].len(),
                k <= n,
                forall|j: int| k <= j < n ==> #[trigger] old(self)@.lists[order as int][j] != addr,
            decreases k,
        {
            let j = k - 1;
            if self.free_lists[order][j] == addr {
                let ghost before = self@.lists;
                let ghost s = before[order as int];
                proof {
                    assert(last_at(s, addr, j as int));
                    let c = choose|i: int| last_at(s, addr, i);
                    assert(c == j) by {
                        if c < j {
                            assert(s[j as int] != addr);
                        } else if c > j {
                            assert(s[c] != addr);
                        }
                    }
                }
                self.free_lists[order].remove(j);
                proof {
                    assert(self@.lists =~= before.update(order as int, s.remove(j as int)));
                }
                return true;
            }
            k = j;
        }
        false
    }

    /// Put the block of order `order` at `addr` back, merging it with free
    /// buddies.
    fn free_and_merge(&mut self, addr: usize, order: usize)
        requires
            old(self).wf(),
            order < NUM_ORDERS,
        ensures
            final(self).wf(),
            final(self)@.lists == merge_free(
                old(self)@.lists,
                old(self)@.heap_start,
                old(self)@.heap_end,
                addr,
                order as nat,
            ),
            final(self)@.heap_start == old(self)@.heap_start,
            final(self)@.heap_end == old(self)@.heap_end,
            final(self)@.allocated == old(self)@.allocated,
        decreases NUM_ORDERS - order,
    {
        let block_size = order_block_size(order);
        let buddy_addr = addr ^ block_size;
        if order + 1 < NUM_ORDERS && buddy_addr >= self.heap_start && buddy_addr < self.heap_end {
            if self.remove_from_free_list(buddy_addr, order) {
                let merged_addr = if addr < buddy_addr { addr } else { buddy_addr };
                self.free_and_merge(merged_addr, order + 1);
                return;
            }
        }
        let ghost before = self@.lists;
        self.free_lists[order].push(addr);
        proof {
            assert(self@.lists =~= before.update(order as int, before[order as int].push(addr)));
        }
    }

    /// Give back the block at `addr` of a request of `size` bytes: ignored
    /// when `addr` is 0 or outside the heap, `size` is 0 or over
    /// `MAX_BLOCK_SIZE`; else its size is deducted from the allocated bytes
    /// and it is merged with free buddies.
    pub fn free(&mut self, addr: usize, size: usize)
        requires
            old(self).wf(),
        ensures
            final(self).wf(),
            final(self)@.heap_start == old(self)@.heap_start,
            final(self)@.heap_end == old(self)@.heap_end,
            !frees(old(self)@, addr, size) ==> final(self)@ == old(self)@,
            frees(old(self)@, addr, size) ==> {
                &&& final(self)@.allocated == wrapping_sub_usize(old(self)@.allocated, charge(size as nat) as usize)
                &&& final(self)@.lists == merge_free(
                    old(self)@.lists,
                    old(self)@.heap_start,
                    old(self)@.heap_end,
                    addr,
                    size_order(size as nat),
                )
            },
            heap_sound(old(self)@) && (frees(old(self)@, addr, size) ==> block_not_free(
                old(self)@,
                addr,
                size_order(size as nat),
            )) ==> heap_sound(final(self)@),
            lists_aligned(old(self)@.lists) && (frees(old(self)@, addr, size) ==> block_aligned(
                addr,
                size_order(size as nat),
            )) ==> lists_aligned(final(self)@.lists),
    {
        if addr == 0 || size == 0 {
            return;
        }
        if addr < self.heap_start || addr >= self.heap_end {
            return;
        }
        if size > MAX_BLOCK_SIZE {
            return;
        }
        let (order, actual_size) = order_for_size(size);
        proof {
            if heap_sound(self@) && block_not_free(self@, addr, order as nat) {
                lemma_merge_free_sound(self@.lists, self@.heap_start, self@.heap_end, addr, order as nat);
            }
            if lists_aligned(self@.lists) && block_aligned(addr, order as nat) {
                lemma_merge_free_aligned(self@.lists, self@.heap_start, self@.heap_end, addr, order as nat);
            }
        }
        self.allocated = self.allocated.wrapping_sub(actual_size);
        self.free_and_merge(addr, order);
    }

    /// Bytes handed out and not given back.
    pub fn allocated_bytes(&self) -> (r: usize)
        ensures
            r == self@.allocated,
    {
        self.allocated
    }
}

/// Freeing `addr` with `size` bytes has an effect: the address is non-zero
/// and in the heap, and the size is servable.
pub open spec fn frees(v: BuddyView, addr: usize, size: usize) -> bool {
    addr != 0 && v.heap_start <= addr < v.heap_end && servable(size)
}

/// Set up the kernel heap over `start..start + size`.
pub fn init_allocator(heap: &mut Option<BuddyAllocator>, start: usize, size: usize)
    requires
        start + size <= usize::MAX,
    ensures
        (*final(heap)) is Some,
        (*final(heap)).unwrap().wf(),
        (*final(heap)).unwrap()@ == (BuddyView {
            lists: carve(empty_lists(), start as nat, size as nat),
            heap_start: start,
            heap_end: (start + size) as usize,
            allocated: 0,
        }),
{
    *heap = Some(BuddyAllocator::init(start, size));
}

/// Allocate `size` bytes from the kernel heap: the address, or 0 when the
/// heap is not set up or cannot serve the request.
pub fn kmalloc(heap: &mut Option<BuddyAllocator>, size: usize) -> (r: usize)
    requires
        (*old(heap)) is Some ==> (*old(heap)).unwrap().wf(),
    ensures
        (*old(heap)) is None ==> r == 0 && (*final(heap)) is None,
        (*old(heap)) is Some ==> ((*final(heap)) is Some && (*final(heap)).unwrap().wf() && (*old(heap)).unwrap().alloc_result(
            size,
            r,
            (*final(heap)).unwrap(),
        )),
{
    match heap {
        Some(a) => a.allocate(size),
        None => 0,
    }
}

impl BuddyAllocator {
    /// `after` and `r` are what `allocate(size)` leaves and returns.
    pub open spec fn alloc_result(&self, size: usize, r: usize, after: BuddyAllocator) -> bool {
        &&& after@.heap_start == self@.heap_start
        &&& after@.heap_end == self@.heap_end
        &&& !servable(size) ==> r == 0 && after@ == self@
        &&& servable(size) ==> ({
            let (lists, b) = take_block(self@.lists, size_order(size as nat));
            &&& after@.lists == lists
            &&& b matches Some(a) ==> r == a && after@.allocated == wrapping_add_usize(
                self@.allocated,
                charge(size as nat) as usize,
            )
            &&& b is None ==> r == 0 && after@.allocated == self@.allocated
        })
    }

    /// `after` is what `free(addr, size)` leaves.
    pub open spec fn free_result(&self, addr: usize, size: usize, after: BuddyAllocator) -> bool {
        &&& after@.heap_start == self@.heap_start
        &&& after@.heap_end == self@.heap_end
        &&& !frees(self@, addr, size) ==> after@ == self@
        &&& frees(self@, addr, size) ==> {
            &&& after@.allocated == wrapping_sub_usize(self@.allocated, charge(size as nat) as usize)
            &&& after@.lists == merge_free(self@.lists, self@.heap_start, self@.heap_end, addr, size_order(size as nat))
        }
    }
}

/// Give back `size` bytes at `addr` to the kernel heap (ignored for address
/// 0 or when the heap is not set up).
pub fn kfree(heap: &mut Option<BuddyAllocator>, addr: usize, size: usize)
    requires
        (*old(heap)) is Some ==> (*old(heap)).unwrap().wf(),
    ensures
        (*old(heap)) is None ==> (*final(heap)) is None,
        (*old(heap)) is Some ==> ((*final(heap)) is Some && (*final(heap)).unwrap().wf() && (*old(heap)).unwrap().free_result(
            addr,
            size,
            (*final(heap)).unwrap(),
        )),
{
    if addr == 0 {
        return;
    }
    match heap {
        Some(a) => a.free(addr, size),
        None => {},
    }
}

/// Bytes allocated from the kernel heap (0 when it is not set up).
pub fn allocated_bytes(heap: &Option<BuddyAllocator>) -> (r: usize)
    ensures
        r == match heap {
            Some(a) => a@.allocated,
            None => 0,
        },
{
    match heap {
        Some(a) => a.allocated_bytes(),
        None => 0,
    }
}

/// A block handed out by `allocate` and given back by `free` with the same
/// size (its address lying in the heap) leaves the allocated byte count as
/// it was.
pub proof fn lemma_allocate_then_free(a1: BuddyAllocator, a2: BuddyAllocator, a3: BuddyAllocator, size: usize, r: usize)
    requires
        a1.alloc_result(size, r, a2),
        r != 0,
        a1@.heap_start <= r < a1@.heap_end,
        a2.free_result(r, size, a3),
    ensures
        a3@.allocated == a1@.allocated,
        a3@.heap_start == a1@.heap_start,
        a3@.heap_end == a1@.heap_end,
{
}


/// The block a freed block of order `order` at `addr` would merge with is
/// free in `lists` (and in the heap), so the two would merge.
pub open spec fn buddy_free(lists: Seq<Seq<usize>>, heap_start: usize, heap_end: usize, addr: usize, order: nat) -> bool {
    let buddy = addr ^ (block_size(order) as usize);
    order + 1 < NUM_ORDERS && buddy >= heap_start && buddy < heap_end && exists|i: int|
        last_at(lists[order as int], buddy, i)
}

proof fn lemma_order_from_bound(size: nat, from: nat)
    requires
        from < NUM_ORDERS,
    ensures
        order_from(size, from) < NUM_ORDERS,
    decreases NUM_ORDERS - from,
{
    if !(from + 1 >= NUM_ORDERS || size <= block_size(from)) {
        lemma_order_from_bound(size, from + 1);
    }
}

/// Freeing a block whose buddy is not free, then allocating the same size,
/// hands the same block back and leaves the allocator as it was before the
/// free.
pub proof fn lemma_free_then_allocate(a1: BuddyAllocator, a2: BuddyAllocator, a3: BuddyAllocator, addr: usize, size: usize, r: usize)
    requires
        a1.wf(),
        frees(a1@, addr, size),
        !buddy_free(a1@.lists, a1@.heap_start, a1@.heap_end, addr, size_order(size as nat)),
        a1.free_result(addr, size, a2),
        a2.alloc_result(size, r, a3),
    ensures
        r == addr,
        a3@ == a1@,
{
    let o = size_order(size as nat);
    lemma_order_from_bound(size as nat, 0);
    let l1 = a1@.lists;
    let l2 = a2@.lists;
    assert(l2 == l1.update(o as int, l1[o as int].push(addr)));
    assert(l2[o as int].len() > 0);
    assert(l2[o as int].last() == addr);
    assert(l2.update(o as int, l2[o as int].drop_last()) =~= l1) by {
        assert(l2[o as int].drop_last() =~= l1[o as int]);
    }
}


/// Some list of order `order` or above holds a block.
pub open spec fn block_at_or_above(lists: Seq<Seq<usize>>, order: nat) -> bool {
    exists|k: int| order <= k < NUM_ORDERS && (#[trigger] lists[k]).len() > 0
}

/// A block is taken whenever some list of the order asked for or above
/// holds one.
pub proof fn lemma_take_block_finds(lists: Seq<Seq<usize>>, order: nat)
    requires
        lists.len() == NUM_ORDERS,
        order < NUM_ORDERS,
        block_at_or_above(lists, order),
    ensures
        take_block(lists, order).1 is Some,
    decreases NUM_ORDERS - order,
{
    if lists[order as int].len() == 0 {
        let k = choose|k: int| order <= k < NUM_ORDERS && (#[trigger] lists[k]).len() > 0;
        assert(k != order);
        assert(block_at_or_above(lists, order + 1));
        lemma_take_block_finds(lists, order + 1);
    }
}

/// Freeing a block of order `order` leaves a block in some list of that
/// order or above (the block itself, or what it merged into).
pub proof fn lemma_merge_free_leaves_block(
    lists: Seq<Seq<usize>>,
    heap_start: usize,
    heap_end: usize,
    addr: usize,
    order: nat,
)
    requires
        lists.len() == NUM_ORDERS,
        order < NUM_ORDERS,
    ensures
        merge_free(lists, heap_start, heap_end, addr, order).len() == NUM_ORDERS,
        block_at_or_above(merge_free(lists, heap_start, heap_end, addr, order), order),
    decreases NUM_ORDERS - order,
{
    let bs = block_size(order);
    let buddy = addr ^ (bs as usize);
    if order + 1 < NUM_ORDERS && buddy >= heap_start && buddy < heap_end && exists|i: int|
        last_at(lists[order as int], buddy, i) {
        let i = choose|i: int| last_at(lists[order as int], buddy, i);
        lemma_merge_free_leaves_block(
            lists.update(order as int, lists[order as int].remove(i)),
            heap_start,
            heap_end,
            if addr < buddy { addr } else { buddy },
            order + 1,
        );
        let m = merge_free(lists, heap_start, heap_end, addr, order);
        let k = choose|k: int| order + 1 <= k < NUM_ORDERS && (#[trigger] m[k]).len() > 0;
        assert(order <= k);
    } else {
        let m = lists.update(order as int, lists[order as int].push(addr));
        assert(m[order as int].len() > 0);
    }
}

/// A block given back by `free` can always be allocated again: an
/// allocation of the same size right after the free takes a block (the
/// freed one or one carved from what it merged into), and answers it.
pub proof fn lemma_freed_block_allocatable(a1: BuddyAllocator, a2: BuddyAllocator, a3: BuddyAllocator, addr: usize, size: usize, r: usize)
    requires
        a1.wf(),
        frees(a1@, addr, size),
        a1.free_result(addr, size, a2),
        a2.alloc_result(size, r, a3),
    ensures
        take_block(a2@.lists, size_order(size as nat)).1 is Some,
        r == take_block(a2@.lists, size_order(size as nat)).1.unwrap(),
        a3@.allocated == a1@.allocated,
{
    let o = size_order(size as nat);
    lemma_order_from_bound(size as nat, 0);
    lemma_merge_free_leaves_block(a1@.lists, a1@.heap_start, a1@.heap_end, addr, o);
    lemma_take_block_finds(a2@.lists, o);
}


/// Block `b` of order `order` lies inside the heap `heap_start..heap_end`.
pub open spec fn block_in_heap(heap_start: usize, heap_end: usize, order: int, b: usize) -> bool {
    heap_start <= b && b + block_size(order as nat) <= heap_end
}

/// Every free block lies inside the heap.
pub open spec fn lists_in_heap(lists: Seq<Seq<usize>>, heap_start: usize, heap_end: usize) -> bool {
    forall|o: int, i: int|
        0 <= o < lists.len() && 0 <= i < lists[o].len() ==> block_in_heap(heap_start, heap_end, o, #[trigger] lists[o][i])
}

/// The ranges `b1..b1 + s1` and `b2..b2 + s2` do not overlap.
pub open spec fn apart(b1: int, s1: int, b2: int, s2: int) -> bool {
    b1 + s1 <= b2 || b2 + s2 <= b1
}

/// No two free blocks overlap.
pub open spec fn lists_disjoint(lists: Seq<Seq<usize>>) -> bool {
    forall|o1: int, i1: int, o2: int, i2: int|
        0 <= o1 < lists.len() && 0 <= i1 < lists[o1].len() && 0 <= o2 < lists.len() && 0 <= i2 < lists[o2].len() && (
        o1 != o2 || i1 != i2) ==> apart(
            #[trigger] lists[o1][i1] as int,
            block_size(o1 as nat) as int,
            #[trigger] lists[o2][i2] as int,
            block_size(o2 as nat) as int,
        )
}

/// Taking a block from free lists whose blocks lie in the heap and do not
/// overlap answers a block of the order asked for that lies in the heap and
/// overlaps none of the blocks left free, and the lists left keep both
/// properties.
pub proof fn lemma_take_block_fresh(lists: Seq<Seq<usize>>, heap_start: usize, heap_end: usize, order: nat)
    requires
        lists.len() == NUM_ORDERS,
        order < NUM_ORDERS,
        lists_in_heap(lists, heap_start, heap_end),
        lists_disjoint(lists),
    ensures
        ({
            let (after, b) = take_block(lists, order);
            &&& after.len() == NUM_ORDERS
            &&& lists_in_heap(after, heap_start, heap_end)
            &&& lists_disjoint(after)
            &&& b matches Some(a) ==> {
                &&& block_in_heap(heap_start, heap_end, order as int, a)
                &&& forall|o: int, i: int|
                    0 <= o < after.len() && 0 <= i < after[o].len() ==> apart(
                        a as int,
                        block_size(order) as int,
                        #[trigger] after[o][i] as int,
                        block_size(o as nat) as int,
                    )
            }
        }),
    decreases NUM_ORDERS - order,
{
    let o = order as int;
    if lists[o].len() > 0 {
        let n = lists[o].len() - 1;
        let after = lists.update(o, lists[o].drop_last());
        let a = lists[o].last();
        assert(a == lists[o][n]);
        assert forall|p: int, i: int| 0 <= p < after.len() && 0 <= i < after[p].len() implies block_in_heap(
            heap_start,
            heap_end,
            p,
            #[trigger] after[p][i],
        ) by {
            assert(after[p][i] == lists[p][i]);
        }
        assert forall|o1: int, i1: int, o2: int, i2: int|
            0 <= o1 < after.len() && 0 <= i1 < after[o1].len() && 0 <= o2 < after.len() && 0 <= i2 < after[o2].len() && (
            o1 != o2 || i1 != i2) implies apart(
            #[trigger] after[o1][i1] as int,
            block_size(o1 as nat) as int,
            #[trigger] after[o2][i2] as int,
            block_size(o2 as nat) as int,
        ) by {
            assert(after[o1][i1] == lists[o1][i1]);
            assert(after[o2][i2] == lists[o2][i2]);
        }
        assert forall|p: int, i: int| 0 <= p < after.len() && 0 <= i < after[p].len() implies apart(
            a as int,
            block_size(order) as int,
            #[trigger] after[p][i] as int,
            block_size(p as nat) as int,
        ) by {
            assert(after[p][i] == lists[p][i]);
            assert(p != o || i != n);
            assert(apart(lists[o][n] as int, block_size(o as nat) as int, lists[p][i] as int, block_size(p as nat) as int));
        }
        assert(block_in_heap(heap_start, heap_end, o, lists[o][n]));
    } else if order + 1 < NUM_ORDERS {
        lemma_take_block_fresh(lists, heap_start, heap_end, order + 1);
        let (l2, r) = take_block(lists, order + 1);
        if let Some(b) = r {
            let bs = block_size(order);
            assert(block_size(order + 1) == 2 * bs);
            let c = wrapping_add_usize(b, bs as usize);
            assert(b + block_size(order + 1) <= heap_end);
            assert(c == b + bs);
            let after = l2.update(o, l2[o].push(c));
            let m = l2[o].len() as int;
            assert forall|p: int, i: int| 0 <= p < after.len() && 0 <= i < after[p].len() implies block_in_heap(
                heap_start,
                heap_end,
                p,
                #[trigger] after[p][i],
            ) by {
                if p == o && i == m {
                    assert(after[p][i] == c);
                } else {
                    assert(after[p][i] == l2[p][i]);
                }
            }
            assert forall|o1: int, i1: int, o2: int, i2: int|
                0 <= o1 < after.len() && 0 <= i1 < after[o1].len() && 0 <= o2 < after.len() && 0 <= i2 < after[o2].len()
                    && (o1 != o2 || i1 != i2) implies apart(
                #[trigger] after[o1][i1] as int,
                block_size(o1 as nat) as int,
                #[trigger] after[o2][i2] as int,
                block_size(o2 as nat) as int,
            ) by {
                let new1 = o1 == o && i1 == m;
                let new2 = o2 == o && i2 == m;
                if new1 {
                    assert(after[o1][i1] == c);
                    assert(after[o2][i2] == l2[o2][i2]);
                    assert(apart(b as int, block_size(order + 1) as int, l2[o2][i2] as int, block_size(o2 as nat) as int));
                } else if new2 {
                    assert(after[o2][i2] == c);
                    assert(after[o1][i1] == l2[o1][i1]);
                    assert(apart(b as int, block_size(order + 1) as int, l2[o1][i1] as int, block_size(o1 as nat) as int));
                } else {
                    assert(after[o1][i1] == l2[o1][i1]);
                    assert(after[o2][i2] == l2[o2][i2]);
                }
            }
            assert forall|p: int, i: int| 0 <= p < after.len() && 0 <= i < after[p].len() implies apart(
                b as int,
                bs as int,
                #[trigger] after[p][i] as int,
                block_size(p as nat) as int,
            ) by {
                if p == o && i == m {
                    assert(after[p][i] == c);
                } else {
                    assert(after[p][i] == l2[p][i]);
                    assert(apart(b as int, block_size(order + 1) as int, l2[p][i] as int, block_size(p as nat) as int));
                }
            }
        }
    }
}

/// An allocation from an allocator whose free blocks lie in the heap and do
/// not overlap answers, when it answers a block, one that lies in the heap
/// and overlaps no block left free; the blocks left free keep both
/// properties.
pub proof fn lemma_allocate_fresh(a1: BuddyAllocator, a2: BuddyAllocator, size: usize, r: usize)
    requires
        a1.wf(),
        lists_in_heap(a1@.lists, a1@.heap_start, a1@.heap_end),
        lists_disjoint(a1@.lists),
        a1.alloc_result(size, r, a2),
    ensures
        lists_in_heap(a2@.lists, a2@.heap_start, a2@.heap_end),
        lists_disjoint(a2@.lists),
        servable(size) && take_block(a1@.lists, size_order(size as nat)).1 is Some ==> {
            &&& block_in_heap(a1@.heap_start, a1@.heap_end, size_order(size as nat) as int, r)
            &&& forall|o: int, i: int|
                0 <= o < a2@.lists.len() && 0 <= i < a2@.lists[o].len() ==> apart(
                    r as int,
                    charge(size as nat) as int,
                    #[trigger] a2@.lists[o][i] as int,
                    block_size(o as nat) as int,
                )
        },
{
    if servable(size) {
        lemma_order_from_bound(size as nat, 0);
        lemma_take_block_fresh(a1@.lists, a1@.heap_start, a1@.heap_end, size_order(size as nat));
    }
}


/// The free blocks of an allocator lie in its heap and do not overlap.
pub open spec fn heap_sound(v: BuddyView) -> bool {
    &&& v.lists.len() == NUM_ORDERS
    &&& lists_in_heap(v.lists, v.heap_start, v.heap_end)
    &&& lists_disjoint(v.lists)
}

/// The block of order `order` at `addr` lies in the heap and overlaps no
/// free block: a block that may be given back.
pub open spec fn block_not_free(v: BuddyView, addr: usize, order: nat) -> bool {
    &&& block_in_heap(v.heap_start, v.heap_end, order as int, addr)
    &&& forall|o: int, i: int|
        0 <= o < v.lists.len() && 0 <= i < v.lists[o].len() ==> apart(
            addr as int,
            block_size(order) as int,
            #[trigger] v.lists[o][i] as int,
            block_size(o as nat) as int,
        )
}

/// Flipping a single bit adds or subtracts its value; doubling a bit moves
/// it up by one.
proof fn lemma_bit_flip(a: usize, k: usize)
    by (bit_vector)
    requires
        k < 26,
    ensures
        (a & (1usize << k)) == 0usize ==> (a ^ (1usize << k)) == a + (1usize << k),
        (a & (1usize << k)) != 0usize ==> (a ^ (1usize << k)) == a - (1usize << k),
        (1usize << (k + 1)) == 2 * (1usize << k),
        (1usize << 6usize) == 64usize,
{
}

/// Blocks are single bits: `block_size(order)` is bit `order + 6`.
proof fn lemma_block_size_bit(order: nat)
    requires
        order < NUM_ORDERS,
    ensures
        block_size(order) == (1usize << ((order + 6) as usize)) as nat,
    decreases order,
{
    lemma_bit_flip(0, 6);
    if order > 0 {
        lemma_block_size_bit((order - 1) as nat);
        lemma_bit_flip(0, (order + 5) as usize);
    }
}

/// The buddy of a block is the block of the same size just above or just
/// below it.
proof fn lemma_buddy_adjacent(addr: usize, order: nat)
    requires
        order < NUM_ORDERS,
    ensures
        ({
            let bs = block_size(order);
            let buddy = addr ^ (bs as usize);
            buddy == addr + bs || buddy == addr - bs
        }),
{
    lemma_block_size_bit(order);
    lemma_bit_flip(addr, (order + 6) as usize);
}

/// Freeing a block that lies in the heap and overlaps no free block keeps
/// the free blocks in the heap and apart, whatever buddies merge.
pub proof fn lemma_merge_free_sound(lists: Seq<Seq<usize>>, heap_start: usize, heap_end: usize, addr: usize, order: nat)
    requires
        order < NUM_ORDERS,
        heap_sound(BuddyView { lists, heap_start, heap_end, allocated: 0 }),
        block_not_free(BuddyView { lists, heap_start, heap_end, allocated: 0 }, addr, order),
    ensures
        heap_sound(BuddyView { lists: merge_free(lists, heap_start, heap_end, addr, order), heap_start, heap_end, allocated: 0 }),
    decreases NUM_ORDERS - order,
{
    let o = order as int;
    let bs = block_size(order);
    let buddy = addr ^ (bs as usize);
    if order + 1 < NUM_ORDERS && buddy >= heap_start && buddy < heap_end && exists|i: int|
        last_at(lists[o], buddy, i) {
        let i = choose|i: int| last_at(lists[o], buddy, i);
        let l1 = lists.update(o, lists[o].remove(i));
        let m: usize = if addr < buddy { addr } else { buddy };
        lemma_buddy_adjacent(addr, order);
        assert(block_size(order + 1) == 2 * bs);
        assert(block_in_heap(heap_start, heap_end, o, lists[o][i]));
        // Where an entry of the shortened lists came from.
        assert forall|p: int, j: int| 0 <= p < l1.len() && 0 <= j < l1[p].len() implies #[trigger] l1[p][j] == lists[p][
            if p == o && j >= i { j + 1 } else { j }] by {
        }
        assert forall|p: int, j: int| 0 <= p < l1.len() && 0 <= j < l1[p].len() implies block_in_heap(
            heap_start,
            heap_end,
            p,
            #[trigger] l1[p][j],
        ) by {
            let jj = if p == o && j >= i { j + 1 } else { j };
            assert(l1[p][j] == lists[p][jj]);
        }
        assert forall|o1: int, i1: int, o2: int, i2: int|
            0 <= o1 < l1.len() && 0 <= i1 < l1[o1].len() && 0 <= o2 < l1.len() && 0 <= i2 < l1[o2].len() && (o1 != o2
                || i1 != i2) implies apart(
            #[trigger] l1[o1][i1] as int,
            block_size(o1 as nat) as int,
            #[trigger] l1[o2][i2] as int,
            block_size(o2 as nat) as int,
        ) by {
            let j1 = if o1 == o && i1 >= i { i1 + 1 } else { i1 };
            let j2 = if o2 == o && i2 >= i { i2 + 1 } else { i2 };
            assert(l1[o1][i1] == lists[o1][j1]);
            assert(l1[o2][i2] == lists[o2][j2]);
            assert(o1 != o2 || j1 != j2);
        }
        assert forall|p: int, j: int| 0 <= p < l1.len() && 0 <= j < l1[p].len() implies apart(
            m as int,
            block_size(order + 1) as int,
            #[trigger] l1[p][j] as int,
            block_size(p as nat) as int,
        ) by {
            let jj = if p == o && j >= i { j + 1 } else { j };
            assert(l1[p][j] == lists[p][jj]);
            assert(p != o || jj != i);
            lemma_block_size_bounds(p as nat);
            assert(lists[o][i] == buddy);
            assert(apart(lists[o][i] as int, bs as int, lists[p][jj] as int, block_size(p as nat) as int));
            assert(apart(addr as int, bs as int, lists[p][jj] as int, block_size(p as nat) as int));
        }
        lemma_merge_free_sound(l1, heap_start, heap_end, m, order + 1);
    } else {
        let after = lists.update(o, lists[o].push(addr));
        let n = lists[o].len() as int;
        assert forall|p: int, j: int| 0 <= p < after.len() && 0 <= j < after[p].len() implies block_in_heap(
            heap_start,
            heap_end,
            p,
            #[trigger] after[p][j],
        ) by {
            if p == o && j == n {
                assert(after[p][j] == addr);
            } else {
                assert(after[p][j] == lists[p][j]);
            }
        }
        assert forall|o1: int, i1: int, o2: int, i2: int|
            0 <= o1 < after.len() && 0 <= i1 < after[o1].len() && 0 <= o2 < after.len() && 0 <= i2 < after[o2].len() && (
            o1 != o2 || i1 != i2) implies apart(
            #[trigger] after[o1][i1] as int,
            block_size(o1 as nat) as int,
            #[trigger] after[o2][i2] as int,
            block_size(o2 as nat) as int,
        ) by {
            if o1 == o && i1 == n {
                assert(after[o1][i1] == addr);
                assert(after[o2][i2] == lists[o2][i2]);
            } else if o2 == o && i2 == n {
                assert(after[o2][i2] == addr);
                assert(after[o1][i1] == lists[o1][i1]);
            } else {
                assert(after[o1][i1] == lists[o1][i1]);
                assert(after[o2][i2] == lists[o2][i2]);
            }
        }
    }
}

/// The order chosen for a block is at most the order searched from.
proof fn lemma_largest_order_within_bound(remaining: nat, from: nat)
    ensures
        largest_order_within(remaining, from) <= from,
    decreases from,
{
    if from > 0 && block_size(from) > remaining {
        lemma_largest_order_within_bound(remaining, (from - 1) as nat);
    }
}

/// Carving `addr..addr + remaining` (inside the heap, above every free
/// block) into blocks keeps the free blocks in the heap and apart.
proof fn lemma_carve_sound(lists: Seq<Seq<usize>>, heap_start: usize, heap_end: usize, addr: nat, remaining: nat)
    requires
        heap_sound(BuddyView { lists, heap_start, heap_end, allocated: 0 }),
        heap_start <= addr,
        addr + remaining <= heap_end,
        forall|o: int, i: int|
            0 <= o < lists.len() && 0 <= i < lists[o].len() ==> #[trigger] lists[o][i] + block_size(o as nat) <= addr,
    ensures
        heap_sound(BuddyView { lists: carve(lists, addr, remaining), heap_start, heap_end, allocated: 0 }),
    decreases remaining,
{
    if remaining >= MIN_BLOCK_SIZE {
        let order = largest_order_within(remaining, (NUM_ORDERS - 1) as nat);
        let bs = block_size(order);
        lemma_largest_order_within_bound(remaining, (NUM_ORDERS - 1) as nat);
        if bs <= remaining && bs > 0 {
            let o = order as int;
            let a = addr as usize;
            let after = lists.update(o, lists[o].push(a));
            let n = lists[o].len() as int;
            assert forall|p: int, j: int| 0 <= p < after.len() && 0 <= j < after[p].len() implies block_in_heap(
                heap_start,
                heap_end,
                p,
                #[trigger] after[p][j],
            ) by {
                if p == o && j == n {
                    assert(after[p][j] == a);
                } else {
                    assert(after[p][j] == lists[p][j]);
                }
            }
            assert forall|o1: int, i1: int, o2: int, i2: int|
                0 <= o1 < after.len() && 0 <= i1 < after[o1].len() && 0 <= o2 < after.len() && 0 <= i2 < after[o2].len()
                    && (o1 != o2 || i1 != i2) implies apart(
                #[trigger] after[o1][i1] as int,
                block_size(o1 as nat) as int,
                #[trigger] after[o2][i2] as int,
                block_size(o2 as nat) as int,
            ) by {
                if o1 == o && i1 == n {
                    assert(after[o1][i1] == a);
                    assert(after[o2][i2] == lists[o2][i2]);
                } else if o2 == o && i2 == n {
                    assert(after[o2][i2] == a);
                    assert(after[o1][i1] == lists[o1][i1]);
                } else {
                    assert(after[o1][i1] == lists[o1][i1]);
                    assert(after[o2][i2] == lists[o2][i2]);
                }
            }
            assert forall|p: int, j: int| 0 <= p < after.len() && 0 <= j < after[p].len() implies #[trigger] after[p][j]
                + block_size(p as nat) <= addr + bs by {
                if p == o && j == n {
                    assert(after[p][j] == a);
                } else {
                    assert(after[p][j] == lists[p][j]);
                }
            }
            lemma_carve_sound(after, heap_start, heap_end, addr + bs, (remaining - bs) as nat);
        }
    }
}

/// A range that overlaps no free block overlaps neither the block taken
/// nor any block left free.
proof fn lemma_take_block_spares(lists: Seq<Seq<usize>>, heap_start: usize, heap_end: usize, order: nat, x: int, xs: int)
    requires
        order < NUM_ORDERS,
        heap_sound(BuddyView { lists, heap_start, heap_end, allocated: 0 }),
        forall|o: int, i: int|
            0 <= o < lists.len() && 0 <= i < lists[o].len() ==> apart(
                x,
                xs,
                #[trigger] lists[o][i] as int,
                block_size(o as nat) as int,
            ),
    ensures
        ({
            let (after, b) = take_block(lists, order);
            &&& forall|o: int, i: int|
                0 <= o < after.len() && 0 <= i < after[o].len() ==> apart(
                    x,
                    xs,
                    #[trigger] after[o][i] as int,
                    block_size(o as nat) as int,
                )
            &&& b matches Some(a) ==> apart(x, xs, a as int, block_size(order) as int)
        }),
    decreases NUM_ORDERS - order,
{
    let o = order as int;
    if lists[o].len() > 0 {
        let after = lists.update(o, lists[o].drop_last());
        assert(lists[o].last() == lists[o][lists[o].len() - 1]);
        assert forall|p: int, i: int| 0 <= p < after.len() && 0 <= i < after[p].len() implies apart(
            x,
            xs,
            #[trigger] after[p][i] as int,
            block_size(p as nat) as int,
        ) by {
            assert(after[p][i] == lists[p][i]);
        }
    } else if order + 1 < NUM_ORDERS {
        lemma_take_block_spares(lists, heap_start, heap_end, order + 1, x, xs);
        lemma_take_block_fresh(lists, heap_start, heap_end, order + 1);
        let (l2, r) = take_block(lists, order + 1);
        if let Some(b) = r {
            let bs = block_size(order);
            assert(block_size(order + 1) == 2 * bs);
            let c = wrapping_add_usize(b, bs as usize);
            assert(c == b + bs);
            let after = l2.update(o, l2[o].push(c));
            let m = l2[o].len() as int;
            assert forall|p: int, i: int| 0 <= p < after.len() && 0 <= i < after[p].len() implies apart(
                x,
                xs,
                #[trigger] after[p][i] as int,
                block_size(p as nat) as int,
            ) by {
                if p == o && i == m {
                    assert(after[p][i] == c);
                } else {
                    assert(after[p][i] == l2[p][i]);
                }
            }
        }
    }
}

/// Allocation never hands out memory of a live block: a block that lies
/// in the heap and overlaps no free block before `allocate` overlaps no
/// free block after it, and not the block handed out either.
pub proof fn lemma_allocate_spares_live(a1: BuddyAllocator, a2: BuddyAllocator, size: usize, r: usize, live: usize, live_order: nat)
    requires
        a1.wf(),
        heap_sound(a1@),
        a1.alloc_result(size, r, a2),
        block_not_free(a1@, live, live_order),
    ensures
        block_not_free(a2@, live, live_order),
        servable(size) && take_block(a1@.lists, size_order(size as nat)).1 is Some ==> apart(
            live as int,
            block_size(live_order) as int,
            r as int,
            charge(size as nat) as int,
        ),
{
    if servable(size) {
        lemma_order_from_bound(size as nat, 0);
        lemma_take_block_spares(
            a1@.lists,
            a1@.heap_start,
            a1@.heap_end,
            size_order(size as nat),
            live as int,
            block_size(live_order) as int,
        );
    }
}

/// The order chosen for a block of at most `remaining` bytes fits, and
/// is no lower than any order at most `from` that fits.
proof fn lemma_largest_order_within_fits(remaining: nat, from: nat, o: nat)
    requires
        from < NUM_ORDERS,
        MIN_BLOCK_SIZE <= remaining,
        o <= from,
        block_size(o) <= remaining,
    ensures
        block_size(largest_order_within(remaining, from)) <= remaining,
        o <= largest_order_within(remaining, from),
    decreases from,
{
    if from > 0 && block_size(from) > remaining {
        lemma_largest_order_within_fits(remaining, (from - 1) as nat, o);
    }
}

/// Carving only adds blocks.
proof fn lemma_carve_grows(lists: Seq<Seq<usize>>, addr: nat, remaining: nat)
    requires
        lists.len() == NUM_ORDERS,
    ensures
        carve(lists, addr, remaining).len() == NUM_ORDERS,
        forall|o: int| 0 <= o < NUM_ORDERS ==> #[trigger] carve(lists, addr, remaining)[o].len() >= lists[o].len(),
    decreases remaining,
{
    if remaining >= MIN_BLOCK_SIZE {
        let order = largest_order_within(remaining, (NUM_ORDERS - 1) as nat);
        let bs = block_size(order);
        lemma_largest_order_within_bound(remaining, (NUM_ORDERS - 1) as nat);
        if bs <= remaining && bs > 0 {
            let after = lists.update(order as int, lists[order as int].push(addr as usize));
            lemma_carve_grows(after, addr + bs, (remaining - bs) as nat);
            assert forall|o: int| 0 <= o < NUM_ORDERS implies #[trigger] carve(lists, addr, remaining)[o].len()
                >= lists[o].len() by {
                assert(after[o].len() >= lists[o].len());
            }
        }
    }
}

/// A new heap of `size` bytes serves any request whose charge is at most
/// `size`: the first block carved is at least that large.
pub proof fn lemma_fresh_heap_serves(start: nat, size: nat, request: usize)
    requires
        servable(request),
        charge(request as nat) <= size,
    ensures
        take_block(carve(empty_lists(), start, size), size_order(request as nat)).1 is Some,
{
    let need = size_order(request as nat);
    lemma_order_from_bound(request as nat, 0);
    lemma_block_size_bounds(need);
    lemma_largest_order_within_fits(size, (NUM_ORDERS - 1) as nat, need);
    lemma_largest_order_within_bound(size, (NUM_ORDERS - 1) as nat);
    let order = largest_order_within(size, (NUM_ORDERS - 1) as nat);
    let bs = block_size(order);
    lemma_block_size_bounds(order);
    let l0 = empty_lists();
    let l1 = l0.update(order as int, l0[order as int].push(start as usize));
    lemma_carve_grows(l1, start + bs, (size - bs) as nat);
    let c = carve(empty_lists(), start, size);
    assert(c == carve(l1, start + bs, (size - bs) as nat));
    assert(c[order as int].len() >= 1);
    assert(block_at_or_above(c, need));
    lemma_take_block_finds(c, need);
}

/// A servable request is charged its size rounded up to a block size of
/// at most `MAX_BLOCK_SIZE`.
pub proof fn lemma_charge_fits(size: usize)
    requires
        servable(size),
    ensures
        size <= charge(size as nat) <= MAX_BLOCK_SIZE,
        size_order(size as nat) < NUM_ORDERS,
{
    lemma_order_from_bound(size as nat, 0);
    lemma_block_size_bounds(size_order(size as nat));
    lemma_order_from_fits(size as nat, 0);
}

/// The order found from `from` on holds `size` bytes when the last order does.
proof fn lemma_order_from_fits(size: nat, from: nat)
    requires
        from < NUM_ORDERS,
        size <= MAX_BLOCK_SIZE,
    ensures
        size <= block_size(order_from(size, from)),
    decreases NUM_ORDERS - from,
{
    lemma_block_size_bounds(from);
    if !(from + 1 >= NUM_ORDERS || size <= block_size(from)) {
        lemma_order_from_fits(size, from + 1);
    }
}

/// Alignment to single bits (the bits below clear): alignment to a larger
/// bit gives alignment to a smaller one; adding a bit keeps alignment to
/// it; and an address aligned to a bit, with that bit cleared, is aligned
/// to the next bit.
proof fn lemma_align_bits(a: usize, k: usize, j: usize)
    by (bit_vector)
    requires
        k <= j,
        j < 26,
    ensures
        a & (((1usize << j) - 1) as usize) == 0usize ==> a & (((1usize << k) - 1) as usize) == 0usize,
        a & (((1usize << k) - 1) as usize) == 0usize ==> ((a + (1usize << k)) as usize) & (((1usize << k) - 1) as usize)
            == 0usize,
        a & (((1usize << k) - 1) as usize) == 0usize && a & (1usize << k) == 0usize ==> a & (((1usize << ((k + 1) as usize))
            - 1) as usize) == 0usize,
        a & (((1usize << k) - 1) as usize) == 0usize && a & (1usize << k) != 0usize ==> ((a - (1usize << k)) as usize) & (((
        1usize << ((k + 1) as usize)) - 1) as usize) == 0usize,
{
}

/// `b` is a multiple of the size of blocks of order `order`: the bits
/// below that size are clear.
pub open spec fn block_aligned(b: usize, order: nat) -> bool {
    b & ((block_size(order) - 1) as usize) == 0
}

/// Every free block starts at a multiple of its size.
pub open spec fn lists_aligned(lists: Seq<Seq<usize>>) -> bool {
    forall|o: int, i: int|
        0 <= o < lists.len() && 0 <= i < lists[o].len() ==> block_aligned(#[trigger] lists[o][i], o as nat)
}

/// Alignment of blocks: to a larger order gives alignment to a smaller
/// one; the block just above an aligned block is aligned; an aligned block
/// merged with its buddy starts at a multiple of the next order.
proof fn lemma_block_align(a: usize, o: nat, p: nat)
    requires
        o <= p < NUM_ORDERS,
    ensures
        block_aligned(a, p) ==> block_aligned(a, o),
        block_aligned(a, o) && a + block_size(o) <= usize::MAX ==> block_aligned((a + block_size(o)) as usize, o),
        block_aligned(a, o) && o + 1 < NUM_ORDERS ==> ({
            let buddy = a ^ (block_size(o) as usize);
            block_aligned(if a < buddy { a } else { buddy }, o + 1)
        }),
{
    let k = (o + 6) as usize;
    lemma_block_size_bit(o);
    lemma_block_size_bit(p);
    lemma_align_bits(a, k, (p + 6) as usize);
    lemma_bit_flip(a, k);
    if o + 1 < NUM_ORDERS {
        lemma_block_size_bit(o + 1);
        assert((k + 1) as usize == (o + 1 + 6) as usize);
    }
}

/// Taking a block from aligned, sound free lists answers a block aligned
/// to its order and leaves the lists aligned.
proof fn lemma_take_block_aligned(lists: Seq<Seq<usize>>, heap_start: usize, heap_end: usize, order: nat)
    requires
        order < NUM_ORDERS,
        heap_sound(BuddyView { lists, heap_start, heap_end, allocated: 0 }),
        lists_aligned(lists),
    ensures
        lists_aligned(take_block(lists, order).0),
        take_block(lists, order).1 matches Some(a) ==> block_aligned(a, order),
    decreases NUM_ORDERS - order,
{
    let o = order as int;
    if lists[o].len() > 0 {
        let after = lists.update(o, lists[o].drop_last());
        assert(lists[o].last() == lists[o][lists[o].len() - 1]);
        assert forall|p: int, i: int| 0 <= p < after.len() && 0 <= i < after[p].len() implies block_aligned(
            #[trigger] after[p][i],
            p as nat,
        ) by {
            assert(after[p][i] == lists[p][i]);
        }
    } else if order + 1 < NUM_ORDERS {
        lemma_take_block_aligned(lists, heap_start, heap_end, order + 1);
        lemma_take_block_fresh(lists, heap_start, heap_end, order + 1);
        let (l2, r) = take_block(lists, order + 1);
        if let Some(b) = r {
            let bs = block_size(order);
            assert(block_size(order + 1) == 2 * bs);
            let c = wrapping_add_usize(b, bs as usize);
            assert(c == b + bs);
            lemma_block_align(b, order, order + 1);
            lemma_block_align(b, order, order);
            let after = l2.update(o, l2[o].push(c));
            let m = l2[o].len() as int;
            assert forall|p: int, i: int| 0 <= p < after.len() && 0 <= i < after[p].len() implies block_aligned(
                #[trigger] after[p][i],
                p as nat,
            ) by {
                if p == o && i == m {
                    assert(after[p][i] == c);
                } else {
                    assert(after[p][i] == l2[p][i]);
                }
            }
        }
    }
}

/// Freeing an aligned block into aligned free lists keeps them aligned,
/// whatever buddies merge.
proof fn lemma_merge_free_aligned(lists: Seq<Seq<usize>>, heap_start: usize, heap_end: usize, addr: usize, order: nat)
    requires
        order < NUM_ORDERS,
        lists.len() == NUM_ORDERS,
        lists_aligned(lists),
        block_aligned(addr, order),
    ensures
        lists_aligned(merge_free(lists, heap_start, heap_end, addr, order)),
    decreases NUM_ORDERS - order,
{
    let o = order as int;
    let bs = block_size(order);
    let buddy = addr ^ (bs as usize);
    if order + 1 < NUM_ORDERS && buddy >= heap_start && buddy < heap_end && exists|i: int|
        last_at(lists[o], buddy, i) {
        let i = choose|i: int| last_at(lists[o], buddy, i);
        let l1 = lists.update(o, lists[o].remove(i));
        let m: usize = if addr < buddy { addr } else { buddy };
        lemma_block_align(addr, order, order);
        assert forall|p: int, j: int| 0 <= p < l1.len() && 0 <= j < l1[p].len() implies block_aligned(
            #[trigger] l1[p][j],
            p as nat,
        ) by {
            let jj = if p == o && j >= i { j + 1 } else { j };
            assert(l1[p][j] == lists[p][jj]);
        }
        lemma_merge_free_aligned(l1, heap_start, heap_end, m, order + 1);
    } else {
        let after = lists.update(o, lists[o].push(addr));
        let n = lists[o].len() as int;
        assert forall|p: int, j: int| 0 <= p < after.len() && 0 <= j < after[p].len() implies block_aligned(
            #[trigger] after[p][j],
            p as nat,
        ) by {
            if p == o && j == n {
                assert(after[p][j] == addr);
            } else {
                assert(after[p][j] == lists[p][j]);
            }
        }
    }
}

/// Below `remaining` bytes, no block above order `cap` fits.
proof fn lemma_largest_order_within_cap(remaining: nat, from: nat, cap: nat)
    requires
        from < NUM_ORDERS,
        cap < from ==> remaining < block_size(cap + 1),
    ensures
        largest_order_within(remaining, from) <= cap,
    decreases from,
{
    lemma_largest_order_within_bound(remaining, from);
    if cap < from {
        lemma_block_size_mono(cap + 1, from);
        if from > 0 && block_size(from) > remaining {
            if cap < from - 1 {
                lemma_largest_order_within_cap(remaining, (from - 1) as nat, cap);
            } else {
                lemma_largest_order_within_bound(remaining, (from - 1) as nat);
            }
        }
    }
}

/// A block of the largest order that fits leaves less than a block of the
/// next order.
proof fn lemma_largest_order_within_tight(remaining: nat, from: nat)
    requires
        from < NUM_ORDERS,
    ensures
        ({
            let o = largest_order_within(remaining, from);
            o < from ==> remaining < block_size(o + 1)
        }),
    decreases from,
{
    if from > 0 && block_size(from) > remaining {
        lemma_largest_order_within_tight(remaining, (from - 1) as nat);
    }
}

/// Carving from an address aligned to order `cap`, with no room for a
/// block above `cap`, adds aligned blocks only.
proof fn lemma_carve_aligned(lists: Seq<Seq<usize>>, addr: nat, remaining: nat, cap: nat)
    requires
        lists.len() == NUM_ORDERS,
        lists_aligned(lists),
        cap < NUM_ORDERS,
        addr + remaining <= usize::MAX,
        block_aligned(addr as usize, cap),
        cap + 1 < NUM_ORDERS ==> remaining < block_size(cap + 1),
    ensures
        lists_aligned(carve(lists, addr, remaining)),
    decreases remaining,
{
    if remaining >= MIN_BLOCK_SIZE {
        let order = largest_order_within(remaining, (NUM_ORDERS - 1) as nat);
        let bs = block_size(order);
        lemma_largest_order_within_bound(remaining, (NUM_ORDERS - 1) as nat);
        lemma_largest_order_within_cap(remaining, (NUM_ORDERS - 1) as nat, cap);
        lemma_largest_order_within_tight(remaining, (NUM_ORDERS - 1) as nat);
        if bs <= remaining && bs > 0 {
            let o = order as int;
            let a = addr as usize;
            lemma_block_align(a, order, cap);
            let after = lists.update(o, lists[o].push(a));
            let n = lists[o].len() as int;
            assert forall|p: int, j: int| 0 <= p < after.len() && 0 <= j < after[p].len() implies block_aligned(
                #[trigger] after[p][j],
                p as nat,
            ) by {
                if p == o && j == n {
                    assert(after[p][j] == a);
                } else {
                    assert(after[p][j] == lists[p][j]);
                }
            }
            lemma_block_align(a, order, order);
            lemma_carve_aligned(after, addr + bs, (remaining - bs) as nat, order);
        }
    }
}

} // verus!
