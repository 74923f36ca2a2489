//! Block I/O (BIO) queues: per-device request queues bounded by a target
//! depth, batch submission, and TRIM/DISCARD requests for SSDs.
use vstd::prelude::*;

use crate::sys::{counter_inc, wrap_inc};

verus! {

/// Increment of a 64-bit counter that wraps on overflow.
pub open spec fn wrap_inc64(x: u64) -> u64 {
    if x == u64::MAX { 0 } else { (x + 1) as u64 }
}

/// Decrement of a counter that wraps on underflow.
pub open spec fn wrap_dec(x: usize) -> usize {
    if x == 0 { usize::MAX } else { (x - 1) as usize }
}

fn counter_inc64(x: u64) -> (r: u64)
    ensures
        r == wrap_inc64(x),
{
    x.wrapping_add(1)
}

fn counter_dec(x: usize) -> (r: usize)
    ensures
        r == wrap_dec(x),
{
    x.wrapping_sub(1)
}

/// Block I/O operation type.
#[derive(Clone, Copy, PartialEq, Eq, Debug, Structural)]
pub enum BioOp {
    /// Read operation
    Read,
    /// Write operation
    Write,
    /// Flush operation
    Flush,
    /// TRIM/DISCARD operation
    Trim,
}

/// Block I/O request.
#[derive(Clone, Copy, Debug)]
pub struct BioRequest {
    /// Operation type
    pub op: BioOp,
    /// Device ID
    pub device_id: u64,
    /// Starting block number
    pub start_block: u64,
    /// Number of blocks
    pub block_count: usize,
    /// Buffer address (physical address for DMA)
    pub buffer_addr: u64,
    /// Request ID for tracking
    pub request_id: u64,
    /// Priority (0 = highest)
    pub priority: u8,
}

/// Default priority of a new request (medium).
pub const DEFAULT_BIO_PRIORITY: u8 = 128;

impl BioRequest {
    /// A request with no ID yet and the default priority.
    pub fn new(op: BioOp, device_id: u64, start_block: u64, block_count: usize, buffer_addr: u64) -> (r:
        Self)
        ensures
            r == (BioRequest {
                op,
                device_id,
                start_block,
                block_count,
                buffer_addr,
                request_id: 0,
                priority: DEFAULT_BIO_PRIORITY,
            }),
    {
        BioRequest {
            op,
            device_id,
            start_block,
            block_count,
            buffer_addr,
            request_id: 0,
            priority: DEFAULT_BIO_PRIORITY,
        }
    }

    /// The same request with priority `priority`.
    pub fn with_priority(self, priority: u8) -> (r: Self)
        ensures
            r == (BioRequest { priority, ..self }),
    {
        let mut r = self;
        r.priority = priority;
        r
    }

    /// The same request with ID `request_id`.
    pub fn with_id(self, request_id: u64) -> (r: Self)
        ensures
            r == (BioRequest { request_id, ..self }),
    {
        let mut r = self;
        r.request_id = request_id;
        r
    }
}

/// One slot of a queue.
struct BioQueueEntry {
    request: BioRequest,
    valid: bool,
    submit_time: u64,
}

impl BioQueueEntry {
    /// An empty slot: no valid request, the placeholder request a read of
    /// nothing from device 0, submitted at time 0.
    fn new() -> (r: Self)
        ensures
            r == (BioQueueEntry {
                request: BioRequest {
                    op: BioOp::Read,
                    device_id: 0,
                    start_block: 0,
                    block_count: 0,
                    buffer_addr: 0,
                    request_id: 0,
                    priority: 0,
                },
                valid: false,
                submit_time: 0,
            }),
    {
        BioQueueEntry {
            request: BioRequest {
                op: BioOp::Read,
                device_id: 0,
                start_block: 0,
                block_count: 0,
                buffer_addr: 0,
                request_id: 0,
                priority: 0,
            },
            valid: false,
            submit_time: 0,
        }
    }
}

/// Target queue depth for NVMe devices.
pub const TARGET_QUEUE_DEPTH_NVME: usize = 128;

/// Target queue depth for SATA devices.
pub const TARGET_QUEUE_DEPTH_SATA: usize = 32;

/// Maximum queue depth.
pub const MAX_QUEUE_DEPTH: usize = 256;

/// What a queue holds, as seen by its users.
pub struct BioQueueView {
    /// Device the queue serves
    pub device_id: u64,
    /// Whether the queue is assigned to a device
    pub in_use: bool,
    /// The request in each slot, if any
    pub slots: Seq<Option<BioRequest>>,
    /// Outstanding requests as counted by the queue
    pub depth: usize,
    /// Most outstanding requests accepted
    pub target_depth: usize,
    /// ID the next accepted request gets
    pub next_request_id: u64,
    /// Requests accepted
    pub submitted: usize,
    /// Requests completed
    pub completed: usize,
}

/// Slot `i` is the first empty one.
pub open spec fn first_free(slots: Seq<Option<BioRequest>>, i: int) -> bool {
    &&& 0 <= i < slots.len()
    &&& slots[i] is None
    &&& forall|j: int| 0 <= j < i ==> #[trigger] slots[j] is Some
}

/// Some slot is empty.
pub open spec fn has_free(slots: Seq<Option<BioRequest>>) -> bool {
    exists|i: int| 0 <= i < slots.len() && #[trigger] slots[i] is None
}

/// Slot `i` holds a request with ID `id`.
pub open spec fn holds_id(slots: Seq<Option<BioRequest>>, id: u64, i: int) -> bool {
    0 <= i < slots.len() && (slots[i] matches Some(q) && q.request_id == id)
}

/// Slot `i` is the first that holds a request with ID `id`.
pub open spec fn first_holding(slots: Seq<Option<BioRequest>>, id: u64, i: int) -> bool {
    &&& holds_id(slots, id, i)
    &&& forall|j: int| 0 <= j < i ==> !#[trigger] holds_id(slots, id, j)
}

/// The queue after accepting `request` into slot `i`.
pub open spec fn after_submit(v: BioQueueView, request: BioRequest, i: int) -> BioQueueView {
    BioQueueView {
        slots: v.slots.update(i, Some(BioRequest { request_id: v.next_request_id, ..request })),
        depth: (v.depth + 1) as usize,
        next_request_id: wrap_inc64(v.next_request_id),
        submitted: wrap_inc(v.submitted),
        ..v
    }
}

/// Queue state and answer after submitting `request`: refused when the
/// queue is at its target depth; else the request takes the first empty slot
/// with the next ID, and the ID is used up even when no slot is empty.
pub open spec fn submit_result(v: BioQueueView, request: BioRequest) -> (BioQueueView, Option<u64>) {
    if v.depth >= v.target_depth {
        (v, None)
    } else if exists|i: int| first_free(v.slots, i) {
        (after_submit(v, request, choose|i: int| first_free(v.slots, i)), Some(v.next_request_id))
    } else {
        (BioQueueView { next_request_id: wrap_inc64(v.next_request_id), ..v }, None)
    }
}

/// Queue state and count after submitting `requests` in order until one is
/// refused.
pub open spec fn batch_result(v: BioQueueView, requests: Seq<BioRequest>) -> (BioQueueView, nat)
    decreases requests.len(),
{
    if requests.len() == 0 {
        (v, 0)
    } else {
        let (v1, r) = submit_result(v, requests[0]);
        if r is Some {
            let (v2, n) = batch_result(v1, requests.drop_first());
            (v2, n + 1)
        } else {
            (v1, 0)
        }
    }
}

/// Queue state and answer after completing request `request_id`: the first
/// slot holding it is emptied.
pub open spec fn complete_result(v: BioQueueView, request_id: u64) -> (BioQueueView, bool) {
    if exists|i: int| first_holding(v.slots, request_id, i) {
        let i = choose|i: int| first_holding(v.slots, request_id, i);
        (
            BioQueueView {
                slots: v.slots.update(i, None),
                depth: wrap_dec(v.depth),
                completed: wrap_inc(v.completed),
                ..v
            },
            true,
        )
    } else {
        (v, false)
    }
}

/// The queued requests have distinct IDs, all below the next ID to hand out.
pub open spec fn ids_fresh(v: BioQueueView) -> bool {
    &&& forall|i: int| 0 <= i < v.slots.len() && (#[trigger] v.slots[i]) is Some ==> v.slots[i].unwrap().request_id
        < v.next_request_id
    &&& forall|i: int, j: int|
        0 <= i < v.slots.len() && 0 <= j < v.slots.len() && i != j && (#[trigger] v.slots[i]) is Some
            && (#[trigger] v.slots[j]) is Some ==> v.slots[i].unwrap().request_id != v.slots[j].unwrap().request_id
}

/// A new queue holds no request, so its IDs are fresh.
pub proof fn lemma_new_queue_ids_fresh()
    ensures
        ids_fresh(BioQueue::new_view()),
{
}

/// Submitting keeps the queued IDs distinct and below the next ID, as long
/// as the ID counter has not reached its end.
pub proof fn lemma_submit_keeps_ids_fresh(v: BioQueueView, request: BioRequest)
    requires
        ids_fresh(v),
        v.next_request_id < u64::MAX,
    ensures
        ids_fresh(submit_result(v, request).0),
{
    if v.depth < v.target_depth && exists|i: int| first_free(v.slots, i) {
        let k = choose|i: int| first_free(v.slots, i);
        let v1 = submit_result(v, request).0;
        assert(v1 == after_submit(v, request, k));
        assert forall|i: int, j: int|
            0 <= i < v1.slots.len() && 0 <= j < v1.slots.len() && i != j && (#[trigger] v1.slots[i]) is Some
                && (#[trigger] v1.slots[j]) is Some implies v1.slots[i].unwrap().request_id
                != v1.slots[j].unwrap().request_id by {
            if i != k && j != k {
                assert(v1.slots[i] == v.slots[i] && v1.slots[j] == v.slots[j]);
            } else if i == k {
                assert(v1.slots[j] == v.slots[j]);
            } else {
                assert(v1.slots[i] == v.slots[i]);
            }
        }
    }
}

/// With fresh IDs, completing a request that was completed just before
/// fails and changes nothing: no request carries that ID any more.
pub proof fn lemma_complete_twice_fails(v: BioQueueView, request_id: u64)
    requires
        ids_fresh(v),
        complete_result(v, request_id).1,
    ensures
        complete_result(complete_result(v, request_id).0, request_id) == (complete_result(v, request_id).0, false),
{
    let i = choose|i: int| first_holding(v.slots, request_id, i);
    let v1 = complete_result(v, request_id).0;
    assert forall|j: int| !#[trigger] first_holding(v1.slots, request_id, j) by {
        if first_holding(v1.slots, request_id, j) {
            assert(j != i);
            assert(v1.slots[j] == v.slots[j]);
            assert(holds_id(v.slots, request_id, i));
        }
    }
}

/// Completing a request keeps the queued IDs distinct and below the next ID.
pub proof fn lemma_complete_keeps_ids_fresh(v: BioQueueView, request_id: u64)
    requires
        ids_fresh(v),
    ensures
        ids_fresh(complete_result(v, request_id).0),
{
    if exists|i: int| first_holding(v.slots, request_id, i) {
        let k = choose|i: int| first_holding(v.slots, request_id, i);
        let v1 = complete_result(v, request_id).0;
        assert forall|i: int| 0 <= i < v1.slots.len() && (#[trigger] v1.slots[i]) is Some implies v1.slots[i].unwrap().request_id
            < v1.next_request_id by {
            assert(v1.slots[i] == v.slots[i]);
        }
        assert forall|i: int, j: int|
            0 <= i < v1.slots.len() && 0 <= j < v1.slots.len() && i != j && (#[trigger] v1.slots[i]) is Some
                && (#[trigger] v1.slots[j]) is Some implies v1.slots[i].unwrap().request_id
                != v1.slots[j].unwrap().request_id by {
            assert(v1.slots[i] == v.slots[i] && v1.slots[j] == v.slots[j]);
        }
    }
}

/// A block device's request queue.
pub struct BioQueue {
    device_id: u64,
    in_use: bool,
    entries: Vec<BioQueueEntry>,
    depth: usize,
    target_depth: usize,
    next_request_id: u64,
    timestamp: u64,
    submitted: usize,
    completed: usize,
}

impl View for BioQueue {
    type V = BioQueueView;

    closed spec fn view(&self) -> BioQueueView {
        BioQueueView {
            device_id: self.device_id,
            in_use: self.in_use,
            slots: Seq::new(
                self.entries@.len(),
                |i: int|
                    if self.entries@[i].valid {
                        Some(self.entries@[i].request)
                    } else {
                        None
                    },
            ),
            depth: self.depth,
            target_depth: self.target_depth,
            next_request_id: self.next_request_id,
            submitted: self.submitted,
            completed: self.completed,
        }
    }
}

impl BioQueue {
    /// Every slot exists and the target depth is within bounds.
    pub open spec fn wf(&self) -> bool {
        &&& self@.slots.len() == MAX_QUEUE_DEPTH
        &&& self@.target_depth <= MAX_QUEUE_DEPTH
    }

    /// What a new queue holds.
    pub open spec fn new_view() -> BioQueueView {
        BioQueueView {
            device_id: 0,
            in_use: false,
            slots: Seq::new(MAX_QUEUE_DEPTH as nat, |i: int| None),
            depth: 0,
            target_depth: TARGET_QUEUE_DEPTH_SATA,
            next_request_id: 1,
            submitted: 0,
            completed: 0,
        }
    }

    /// An unassigned, empty queue with the SATA target depth.
    pub fn new() -> (r: Self)
        ensures
            r.wf(),
            r@ == Self::new_view(),
            ids_fresh(r@),
    {
        let mut entries: Vec<BioQueueEntry> = Vec::new();
        let mut i: usize = 0;
        while i < MAX_QUEUE_DEPTH
            invariant
                i <= MAX_QUEUE_DEPTH,
                entries@.len() == i,
                forall|j: int| 0 <= j < i ==> !(#[trigger] entries@[j]).valid,
            decreases MAX_QUEUE_DEPTH - i,
        {
            entries.push(BioQueueEntry::new());
            i = i + 1;
        }
        let r = BioQueue {
            device_id: 0,
            in_use: false,
            entries,
            depth: 0,
            target_depth: TARGET_QUEUE_DEPTH_SATA,
            next_request_id: 1,
            timestamp: 0,
            submitted: 0,
            completed: 0,
        };
        assert(r@.slots =~= Seq::new(MAX_QUEUE_DEPTH as nat, |i: int| None));
        r
    }

    /// Assign the queue to `device_id` with the given target depth (capped
    /// at `MAX_QUEUE_DEPTH`), and zero its counters.
    pub fn init(&mut self, device_id: u64, target_depth: usize)
        requires
            old(self).wf(),
        ensures
            final(self).wf(),
            final(self)@ == (BioQueueView {
                device_id,
                in_use: true,
                depth: 0,
                target_depth: if target_depth < MAX_QUEUE_DEPTH { target_depth } else { MAX_QUEUE_DEPTH },
                submitted: 0,
                completed: 0,
                ..old(self)@
            }),
            ids_fresh(old(self)@) ==> ids_fresh(final(self)@),
    {
        self.device_id = device_id;
        self.target_depth = if target_depth < MAX_QUEUE_DEPTH { target_depth } else { MAX_QUEUE_DEPTH };
        self.in_use = true;
        self.depth = 0;
        self.submitted = 0;
        self.completed = 0;
        assert(self@.slots =~= old(self)@.slots);
    }

    /// Whether the queue is assigned to `device_id`.
    pub fn is_for_device(&self, device_id: u64) -> (r: bool)
        ensures
            r == (self@.in_use && self@.device_id == device_id),
    {
        self.in_use && self.device_id == device_id
    }

    /// Whether the queue is assigned to a device.
    pub fn is_in_use(&self) -> (r: bool)
        ensures
            r == self@.in_use,
    {
        self.in_use
    }

    /// Submit a request: its ID, or None when the queue is at its target
    /// depth or has no empty slot.
    pub fn submit(&mut self, request: BioRequest) -> (r: Option<u64>)
        requires
            old(self).wf(),
        ensures
            final(self).wf(),
            (final(self)@, r) == submit_result(old(self)@, request),
            ids_fresh(old(self)@) && old(self)@.next_request_id < u64::MAX ==> ids_fresh(final(self)@),
    {
        proof {
            if ids_fresh(self@) && self@.next_request_id < u64::MAX {
                lemma_submit_keeps_ids_fresh(self@, request);
            }
        }
        let current_depth = self.depth;
        let target = self.target_depth;
        if current_depth >= target {
            return None;
        }
        let request_id = self.next_request_id;
        self.next_request_id = counter_inc64(request_id);
        let mut req = request;
        req.request_id = request_id;
        let mut i: usize = 0;
        while i < self.entries.len()
            invariant
                self.entries@.len() == MAX_QUEUE_DEPTH,
                i <= self.entries@.len(),
                self@ == (BioQueueView { next_request_id: wrap_inc64(old(self)@.next_request_id), ..old(self)@ }),
                old(self).wf(),
                current_depth == old(self)@.depth,
                current_depth < old(self)@.target_depth,
                request_id == old(self)@.next_request_id,
                req == (BioRequest { request_id, ..request }),
                forall|j: int| 0 <= j < i ==> #[trigger] old(self)@.slots[j] is Some,
            decreases self.entries@.len() - i,
        {
            if !self.entries[i].valid {
                let ts = self.timestamp;
                self.timestamp = counter_inc64(ts);
                let ghost before = self@;
                self.entries[i].request = req;
                self.entries[i].submit_time = ts;
                self.entries[i].valid = true;
                self.depth = current_depth + 1;
                self.submitted = counter_inc(self.submitted);
                proof {
                    assert(first_free(old(self)@.slots, i as int));
                    let k = choose|k: int| first_free(old(self)@.slots, k);
                    assert(k == i) by {
                        if k < i {
                            assert(old(self)@.slots[k] is Some);
                        } else if k > i {
                            assert(old(self)@.slots[i as int] is Some);
                        }
                    }
                    assert(self@.slots =~= old(self)@.slots.update(i as int, Some(req)));
                }
                return Some(request_id);
            }
            i = i + 1;
        }
        proof {
            assert(!exists|k: int| first_free(old(self)@.slots, k));
        }
        None
    }

    /// Submit `requests` in order until one is refused: how many were
    /// accepted.
    pub fn submit_batch(&mut self, requests: &[BioRequest]) -> (r: usize)
        requires
            old(self).wf(),
        ensures
            final(self).wf(),
            (final(self)@, r as nat) == batch_result(old(self)@, requests@),
    {
        let mut submitted: usize = 0;
        let mut k: usize = 0;
        assert(requests@.subrange(0, requests@.len() as int) =~= requests@);
        while k < requests.len()
            invariant
                self.wf(),
                k <= requests@.len(),
                submitted == k,
                batch_result(old(self)@, requests@) == ({
                    let (v2, n) = batch_result(self@, requests@.subrange(k as int, requests@.len() as int));
                    (v2, (n + k) as nat)
                }),
            decreases requests@.len() - k,
        {
            let ghost before = self@;
            let ghost rest = requests@.subrange(k as int, requests@.len() as int);
            assert(rest.drop_first() =~= requests@.subrange(k + 1, requests@.len() as int));
            assert(rest[0] == requests@[k as int]);
            let r = self.submit(requests[k]);
            if r.is_none() {
                return submitted;
            }
            submitted = submitted + 1;
            k = k + 1;
        }
        assert(requests@.subrange(k as int, requests@.len() as int) =~= Seq::<BioRequest>::empty());
        submitted
    }

    /// Complete request `request_id`: false when no slot holds it.
    pub fn complete(&mut self, request_id: u64) -> (r: bool)
        requires
            old(self).wf(),
        ensures
            final(self).wf(),
            (final(self)@, r) == complete_result(old(self)@, request_id),
            ids_fresh(old(self)@) ==> ids_fresh(final(self)@),
            ids_fresh(old(self)@) ==> complete_result(final(self)@, request_id) == (final(self)@, false),
    {
        proof {
            if ids_fresh(self@) {
                lemma_complete_keeps_ids_fresh(self@, request_id);
                if complete_result(self@, request_id).1 {
                    lemma_complete_twice_fails(self@, request_id);
                }
            }
        }
        let mut i: usize = 0;
        while i < self.entries.len()
            invariant
                self.entries@.len() == MAX_QUEUE_DEPTH,
                i <= self.entries@.len(),
                *self == *old(self),
                old(self).wf(),
                forall|j: int| 0 <= j < i ==> !#[trigger] holds_id(old(self)@.slots, request_id, j),
            decreases self.entries@.len() - i,
        {
            if self.entries[i].valid && self.entries[i].request.request_id == request_id {
                self.entries[i].valid = false;
                self.depth = counter_dec(self.depth);
                self.completed = counter_inc(self.completed);
                proof {
                    assert(holds_id(old(self)@.slots, request_id, i as int));
                    assert(first_holding(old(self)@.slots, request_id, i as int));
                    let k = choose|k: int| first_holding(old(self)@.slots, request_id, k);
                    assert(k == i) by {
                        if k < i {
                            assert(!holds_id(old(self)@.slots, request_id, k));
                        } else if k > i {
                            assert(!holds_id(old(self)@.slots, request_id, i as int));
                        }
                    }
                    assert(self@.slots =~= old(self)@.slots.update(i as int, None));
                }
                return true;
            }
            proof {
                assert(!holds_id(old(self)@.slots, request_id, i as int));
            }
            i = i + 1;
        }
        proof {
            assert(!exists|k: int| first_holding(old(self)@.slots, request_id, k));
        }
        false
    }

    /// Outstanding requests.
    pub fn depth(&self) -> (r: usize)
        ensures
            r == self@.depth,
    {
        self.depth
    }

    /// Most outstanding requests accepted.
    pub fn target_depth(&self) -> (r: usize)
        ensures
            r == self@.target_depth,
    {
        self.target_depth
    }

    /// Set the target depth (capped at `MAX_QUEUE_DEPTH`).
    pub fn set_target_depth(&mut self, depth: usize)
        requires
            old(self).wf(),
        ensures
            final(self).wf(),
            final(self)@ == (BioQueueView {
                target_depth: if depth < MAX_QUEUE_DEPTH { depth } else { MAX_QUEUE_DEPTH },
                ..old(self)@
            }),
    {
        self.target_depth = if depth < MAX_QUEUE_DEPTH { depth } else { MAX_QUEUE_DEPTH };
        assert(self@.slots =~= old(self)@.slots);
    }

    /// Requests accepted.
    pub fn submitted_count(&self) -> (r: usize)
        ensures
            r == self@.submitted,
    {
        self.submitted
    }

    /// Requests completed.
    pub fn completed_count(&self) -> (r: usize)
        ensures
            r == self@.completed,
    {
        self.completed
    }

    /// Whether the queue is below its target depth.
    pub fn has_space(&self) -> (r: bool)
        ensures
            r == (self@.depth < self@.target_depth),
    {
        self.depth < self.target_depth
    }

    /// Release the queue: unassigned, every slot emptied, depth 0.
    pub fn reset(&mut self)
        requires
            old(self).wf(),
        ensures
            final(self).wf(),
            final(self)@ == (BioQueueView {
                in_use: false,
                depth: 0,
                slots: Seq::new(MAX_QUEUE_DEPTH as nat, |i: int| None),
                ..old(self)@
            }),
            ids_fresh(final(self)@),
    {
        self.in_use = false;
        self.depth = 0;
        let mut i: usize = 0;
        while i < self.entries.len()
            invariant
                self.entries@.len() == MAX_QUEUE_DEPTH,
                i <= self.entries@.len(),
                forall|j: int| 0 <= j < i ==> !(#[trigger] self.entries@[j]).valid,
                self.device_id == old(self).device_id,
                self.target_depth == old(self).target_depth,
                self.next_request_id == old(self).next_request_id,
                self.submitted == old(self).submitted,
                self.completed == old(self).completed,
                !self.in_use,
                self.depth == 0,
            decreases self.entries@.len() - i,
        {
            self.entries[i].valid = false;
            i = i + 1;
        }
        assert(self@.slots =~= Seq::new(MAX_QUEUE_DEPTH as nat, |i: int| None));
    }
}


/// Maximum number of devices with a queue.
pub const MAX_DEVICES: usize = 16;

/// The queue serves device `device_id`.
pub open spec fn serves(v: BioQueueView, device_id: u64) -> bool {
    v.in_use && v.device_id == device_id
}

/// Queue `i` is the first that serves `device_id`.
pub open spec fn first_serving(qs: Seq<BioQueueView>, device_id: u64, i: int) -> bool {
    &&& 0 <= i < qs.len()
    &&& serves(qs[i], device_id)
    &&& forall|j: int| 0 <= j < i ==> !serves(#[trigger] qs[j], device_id)
}

/// Queue `i` is the first not assigned to any device.
pub open spec fn first_unused(qs: Seq<BioQueueView>, i: int) -> bool {
    &&& 0 <= i < qs.len()
    &&& !qs[i].in_use
    &&& forall|j: int| 0 <= j < i ==> (#[trigger] qs[j]).in_use
}

/// The target depth a newly registered device gets.
pub open spec fn device_target_depth(is_nvme: bool) -> usize {
    if is_nvme { TARGET_QUEUE_DEPTH_NVME } else { TARGET_QUEUE_DEPTH_SATA }
}

/// The queue after `init(device_id, target_depth)`.
pub open spec fn after_init(v: BioQueueView, device_id: u64, target_depth: usize) -> BioQueueView {
    BioQueueView {
        device_id,
        in_use: true,
        depth: 0,
        target_depth: if target_depth < MAX_QUEUE_DEPTH { target_depth } else { MAX_QUEUE_DEPTH },
        submitted: 0,
        completed: 0,
        ..v
    }
}

/// The per-device queues.
pub struct BioQueueManager {
    queues: Vec<BioQueue>,
}

impl View for BioQueueManager {
    type V = Seq<BioQueueView>;

    closed spec fn view(&self) -> Seq<BioQueueView> {
        Seq::new(self.queues@.len(), |i: int| self.queues@[i]@)
    }
}

impl BioQueueManager {
    /// `MAX_DEVICES` well-formed queues.
    pub closed spec fn wf(&self) -> bool {
        &&& self.queues@.len() == MAX_DEVICES
        &&& forall|i: int| 0 <= i < self.queues@.len() ==> (#[trigger] self.queues@[i]).wf()
    }

    /// `MAX_DEVICES` unassigned, empty queues.
    pub fn new() -> (r: Self)
        ensures
            r.wf(),
            r@.len() == MAX_DEVICES,
            forall|i: int| 0 <= i < MAX_DEVICES ==> #[trigger] r@[i] == BioQueue::new_view(),
    {
        let mut queues: Vec<BioQueue> = Vec::new();
        let mut i: usize = 0;
        while i < MAX_DEVICES
            invariant
                i <= MAX_DEVICES,
                queues@.len() == i,
                forall|j: int| 0 <= j < i ==> (#[trigger] queues@[j]).wf() && queues@[j]@ == BioQueue::new_view(),
            decreases MAX_DEVICES - i,
        {
            queues.push(BioQueue::new());
            i = i + 1;
        }
        BioQueueManager { queues }
    }

    fn find_queue(&self, device_id: u64) -> (r: Option<usize>)
        requires
            self.wf(),
        ensures
            r matches Some(i) ==> first_serving(self@, device_id, i as int),
            r is None ==> forall|j: int| 0 <= j < self@.len() ==> !serves(#[trigger] self@[j], device_id),
    {
        let mut i: usize = 0;
        while i < self.queues.len()
            invariant
                self.wf(),
                i <= self.queues@.len(),
                forall|j: int| 0 <= j < i ==> !serves(#[trigger] self@[j], device_id),
            decreases self.queues@.len() - i,
        {
            if self.queues[i].is_for_device(device_id) {
                return Some(i);
            }
            i = i + 1;
        }
        None
    }

    /// Give `device_id` a queue (NVMe devices get a deeper one): the index of
    /// its queue, the one it already has if any; None when every queue is
    /// taken.
    pub fn register_device(&mut self, device_id: u64, is_nvme: bool) -> (r: Option<usize>)
        requires
            old(self).wf(),
        ensures
            final(self).wf(),
            forall|i: int| first_serving(old(self)@, device_id, i) ==> r == Some(i as usize) && final(self)@
                == old(self)@,
            (forall|j: int| 0 <= j < old(self)@.len() ==> !serves(#[trigger] old(self)@[j], device_id)) ==> {
                &&& forall|i: int| first_unused(old(self)@, i) ==> r == Some(i as usize) && final(self)@
                    == old(self)@.update(i, after_init(old(self)@[i], device_id, device_target_depth(is_nvme)))
                &&& (forall|j: int| 0 <= j < old(self)@.len() ==> (#[trigger] old(self)@[j]).in_use) ==> r is None
                    && final(self)@ == old(self)@
            },
    {
        if let Some(i) = self.find_queue(device_id) {
            return Some(i);
        }
        let mut i: usize = 0;
        while i < self.queues.len()
            invariant
                *self == *old(self),
                self.wf(),
                i <= self.queues@.len(),
                forall|j: int| 0 <= j < i ==> (#[trigger] self@[j]).in_use,
                forall|j: int| 0 <= j < old(self)@.len() ==> !serves(#[trigger] old(self)@[j], device_id),
            decreases self.queues@.len() - i,
        {
            if !self.queues[i].is_in_use() {
                let target_depth = if is_nvme { TARGET_QUEUE_DEPTH_NVME } else { TARGET_QUEUE_DEPTH_SATA };
                self.queues[i].init(device_id, target_depth);
                proof {
                    assert forall|k: int| first_unused(old(self)@, k) implies k == i by {
                        if k < i {
                            assert(old(self)@[k].in_use);
                        } else if k > i {
                            assert(old(self)@[i as int].in_use);
                        }
                    }
                    assert(self@ =~= old(self)@.update(i as int, after_init(old(self)@[i as int], device_id, target_depth)));
                }
                return Some(i);
            }
            i = i + 1;
        }
        None
    }

    /// Release the first queue serving `device_id`, if any.
    pub fn unregister_device(&mut self, device_id: u64)
        requires
            old(self).wf(),
        ensures
            final(self).wf(),
            forall|i: int| first_serving(old(self)@, device_id, i) ==> final(self)@ == old(self)@.update(
                i,
                BioQueueView {
                    in_use: false,
                    depth: 0,
                    slots: Seq::new(MAX_QUEUE_DEPTH as nat, |k: int| None),
                    ..old(self)@[i]
                },
            ),
            (forall|j: int| 0 <= j < old(self)@.len() ==> !serves(#[trigger] old(self)@[j], device_id)) ==> final(
            self)@ == old(self)@,
    {
        if let Some(i) = self.find_queue(device_id) {
            self.queues[i].reset();
            proof {
                assert forall|k: int| first_serving(old(self)@, device_id, k) implies k == i by {
                    if k < i {
                        assert(!serves(old(self)@[k], device_id));
                    } else if k > i {
                        assert(!serves(old(self)@[i as int], device_id));
                    }
                }
                assert(self@ =~= old(self)@.update(
                    i as int,
                    BioQueueView {
                        in_use: false,
                        depth: 0,
                        slots: Seq::new(MAX_QUEUE_DEPTH as nat, |k: int| None),
                        ..old(self)@[i as int]
                    },
                ));
            }
        }
    }

    /// The queue serving `device_id`, if any.
    pub fn get_queue(&self, device_id: u64) -> (r: Option<&BioQueue>)
        requires
            self.wf(),
        ensures
            forall|i: int| first_serving(self@, device_id, i) ==> (r matches Some(q) && q@ == self@[i] && q.wf()),
            (forall|j: int| 0 <= j < self@.len() ==> !serves(#[trigger] self@[j], device_id)) ==> r is None,
    {
        match self.find_queue(device_id) {
            Some(i) => {
                proof {
                    assert forall|k: int| first_serving(self@, device_id, k) implies k == i by {
                        if k < i {
                            assert(!serves(self@[k], device_id));
                        } else if k > i {
                            assert(!serves(self@[i as int], device_id));
                        }
                    }
                }
                Some(&self.queues[i])
            },
            None => None,
        }
    }

    /// Submit `request` to the queue of its device: its ID, or None when the
    /// device has no queue or the queue refuses it.
    pub fn submit(&mut self, request: BioRequest) -> (r: Option<u64>)
        requires
            old(self).wf(),
        ensures
            final(self).wf(),
            forall|i: int| first_serving(old(self)@, request.device_id, i) ==> ({
                let (v, a) = submit_result(old(self)@[i], request);
                r == a && final(self)@ == old(self)@.update(i, v)
            }),
            (forall|j: int| 0 <= j < old(self)@.len() ==> !serves(#[trigger] old(self)@[j], request.device_id))
                ==> r is None && final(self)@ == old(self)@,
    {
        match self.find_queue(request.device_id) {
            Some(i) => {
                let r = self.queues[i].submit(request);
                proof {
                    assert forall|k: int| first_serving(old(self)@, request.device_id, k) implies k == i by {
                        if k < i {
                            assert(!serves(old(self)@[k], request.device_id));
                        } else if k > i {
                            assert(!serves(old(self)@[i as int], request.device_id));
                        }
                    }
                    assert(self@ =~= old(self)@.update(i as int, self.queues@[i as int]@));
                }
                r
            },
            None => None,
        }
    }

    /// Submit `requests` in order to the queue of `device_id` until one is
    /// refused: how many were accepted (0 when the device has no queue).
    pub fn submit_batch(&mut self, device_id: u64, requests: &[BioRequest]) -> (r: usize)
        requires
            old(self).wf(),
        ensures
            final(self).wf(),
            forall|i: int| first_serving(old(self)@, device_id, i) ==> ({
                let (v, n) = batch_result(old(self)@[i], requests@);
                r == n && final(self)@ == old(self)@.update(i, v)
            }),
            (forall|j: int| 0 <= j < old(self)@.len() ==> !serves(#[trigger] old(self)@[j], device_id)) ==> r
                == 0 && final(self)@ == old(self)@,
    {
        match self.find_queue(device_id) {
            Some(i) => {
                let r = self.queues[i].submit_batch(requests);
                proof {
                    assert forall|k: int| first_serving(old(self)@, device_id, k) implies k == i by {
                        if k < i {
                            assert(!serves(old(self)@[k], device_id));
                        } else if k > i {
                            assert(!serves(old(self)@[i as int], device_id));
                        }
                    }
                    assert(self@ =~= old(self)@.update(i as int, self.queues@[i as int]@));
                }
                r
            },
            None => 0,
        }
    }

    /// Complete request `request_id` on the queue of `device_id`: false when
    /// the device has no queue or the queue does not hold the request.
    pub fn complete(&mut self, device_id: u64, request_id: u64) -> (r: bool)
        requires
            old(self).wf(),
        ensures
            final(self).wf(),
            forall|i: int| first_serving(old(self)@, device_id, i) ==> ({
                let (v, a) = complete_result(old(self)@[i], request_id);
                r == a && final(self)@ == old(self)@.update(i, v)
            }),
            (forall|j: int| 0 <= j < old(self)@.len() ==> !serves(#[trigger] old(self)@[j], device_id)) ==> !r
                && final(self)@ == old(self)@,
    {
        match self.find_queue(device_id) {
            Some(i) => {
                let r = self.queues[i].complete(request_id);
                proof {
                    assert forall|k: int| first_serving(old(self)@, device_id, k) implies k == i by {
                        if k < i {
                            assert(!serves(old(self)@[k], device_id));
                        } else if k > i {
                            assert(!serves(old(self)@[i as int], device_id));
                        }
                    }
                    assert(self@ =~= old(self)@.update(i as int, self.queues@[i as int]@));
                }
                r
            },
            None => false,
        }
    }
}

/// A TRIM request for `block_count` blocks from `start_block`.
pub open spec fn trim_request(device_id: u64, start_block: u64, block_count: usize) -> BioRequest {
    BioRequest {
        op: BioOp::Trim,
        device_id,
        start_block,
        block_count,
        buffer_addr: 0,
        request_id: 0,
        priority: DEFAULT_BIO_PRIORITY,
    }
}

/// Submit a TRIM/DISCARD request for `block_count` blocks from
/// `start_block` of `device_id`: as `submit` does.
pub fn submit_trim(manager: &mut BioQueueManager, device_id: u64, start_block: u64, block_count: usize) -> (r:
    Option<u64>)
    requires
        old(manager).wf(),
    ensures
        final(manager).wf(),
        forall|i: int| first_serving(old(manager)@, device_id, i) ==> ({
            let (v, a) = submit_result(old(manager)@[i], trim_request(device_id, start_block, block_count));
            r == a && final(manager)@ == old(manager)@.update(i, v)
        }),
        (forall|j: int| 0 <= j < old(manager)@.len() ==> !serves(#[trigger] old(manager)@[j], device_id)) ==> r is None
            && final(manager)@ == old(manager)@,
{
    let request = BioRequest::new(BioOp::Trim, device_id, start_block, block_count, 0);
    manager.submit(request)
}

/// Most ranges one `batch_trim` call takes.
pub const MAX_TRIM_BATCH: usize = 64;

/// Range `b` (start block, block count) starts where range `a` ends, and
/// their counts add up within `usize`.
pub open spec fn trim_adjacent(a: (u64, usize), b: (u64, usize)) -> bool {
    a.0 + a.1 == b.0 && a.1 + b.1 <= usize::MAX
}

/// `ranges` with each range that starts where the one before it (as merged
/// so far) ends merged into it.
pub open spec fn coalesce(ranges: Seq<(u64, usize)>) -> Seq<(u64, usize)>
    decreases ranges.len(),
{
    if ranges.len() == 0 {
        ranges
    } else {
        let c = coalesce(ranges.drop_last());
        let b = ranges.last();
        if c.len() > 0 && trim_adjacent(c.last(), b) {
            c.update(c.len() - 1, (c.last().0, (c.last().1 + b.1) as usize))
        } else {
            c.push(b)
        }
    }
}

/// The first `MAX_TRIM_BATCH` ranges.
pub open spec fn trim_batch(ranges: Seq<(u64, usize)>) -> Seq<(u64, usize)> {
    ranges.take(if ranges.len() < MAX_TRIM_BATCH { ranges.len() as int } else { MAX_TRIM_BATCH as int })
}

/// The TRIM requests for the first `MAX_TRIM_BATCH` ranges, adjacent ranges
/// merged.
pub open spec fn trim_requests(device_id: u64, ranges: Seq<(u64, usize)>) -> Seq<BioRequest> {
    let c = coalesce(trim_batch(ranges));
    Seq::new(c.len(), |i: int| trim_request(device_id, c[i].0, c[i].1))
}

proof fn lemma_coalesce_len(ranges: Seq<(u64, usize)>)
    ensures
        coalesce(ranges).len() <= ranges.len(),
    decreases ranges.len(),
{
    if ranges.len() > 0 {
        lemma_coalesce_len(ranges.drop_last());
    }
}

/// Submit TRIM requests for the first `MAX_TRIM_BATCH` of `ranges` (start
/// block, block count) as one batch, adjacent ranges coalesced into one
/// request: how many requests were accepted.
pub fn batch_trim(manager: &mut BioQueueManager, device_id: u64, ranges: &[(u64, usize)]) -> (r: usize)
    requires
        old(manager).wf(),
    ensures
        final(manager).wf(),
        forall|i: int| first_serving(old(manager)@, device_id, i) ==> ({
            let (v, n) = batch_result(old(manager)@[i], trim_requests(device_id, ranges@));
            r == n && final(manager)@ == old(manager)@.update(i, v)
        }),
        (forall|j: int| 0 <= j < old(manager)@.len() ==> !serves(#[trigger] old(manager)@[j], device_id)) ==> r
            == 0 && final(manager)@ == old(manager)@,
{
    let mut merged: Vec<(u64, usize)> = Vec::new();
    let mut k: usize = 0;
    while k < ranges.len() && k < MAX_TRIM_BATCH
        invariant
            k <= ranges@.len(),
            k <= MAX_TRIM_BATCH,
            merged@ == coalesce(ranges@.take(k as int)),
        decreases ranges@.len() - k,
    {
        let (start_block, block_count) = ranges[k];
        proof {
            assert(ranges@.take(k + 1).drop_last() =~= ranges@.take(k as int));
            assert(ranges@.take(k + 1).last() == ranges@[k as int]);
            lemma_coalesce_len(ranges@.take(k as int));
        }
        let n = merged.len();
        let mut joined = false;
        if n > 0 {
            let (last_start, last_count) = merged[n - 1];
            if (last_start as u128) + (last_count as u128) == start_block as u128 && block_count <= usize::MAX - last_count {
                merged.set(n - 1, (last_start, last_count + block_count));
                joined = true;
            }
        }
        if !joined {
            merged.push((start_block, block_count));
        }
        k = k + 1;
    }
    proof {
        assert(ranges@.take(k as int) =~= trim_batch(ranges@));
    }
    let mut requests: Vec<BioRequest> = Vec::new();
    let mut j: usize = 0;
    while j < merged.len()
        invariant
            j <= merged@.len(),
            merged@ == coalesce(trim_batch(ranges@)),
            requests@.len() == j,
            forall|i: int| 0 <= i < j ==> #[trigger] requests@[i] == trim_request(device_id, merged@[i].0, merged@[i].1),
        decreases merged@.len() - j,
    {
        let (start_block, block_count) = merged[j];
        requests.push(BioRequest::new(BioOp::Trim, device_id, start_block, block_count, 0));
        j = j + 1;
    }
    assert(requests@ =~= trim_requests(device_id, ranges@));
    manager.submit_batch(device_id, requests.as_slice())
}


proof fn lemma_first_free_below(slots: Seq<Option<BioRequest>>, k: int)
    requires
        0 <= k < slots.len(),
        slots[k] is None,
    ensures
        exists|i: int| first_free(slots, i),
    decreases k,
{
    if exists|j: int| 0 <= j < k && #[trigger] slots[j] is None {
        let j = choose|j: int| 0 <= j < k && #[trigger] slots[j] is None;
        lemma_first_free_below(slots, j);
    } else {
        assert(first_free(slots, k));
    }
}

/// A queue below its target depth with an empty slot accepts a request, and
/// completing that request afterwards succeeds and brings the depth back.
pub proof fn lemma_submit_then_complete(v: BioQueueView, request: BioRequest)
    requires
        v.depth < v.target_depth,
        has_free(v.slots),
    ensures
        submit_result(v, request).1 == Some(v.next_request_id),
        complete_result(submit_result(v, request).0, v.next_request_id).1,
        complete_result(submit_result(v, request).0, v.next_request_id).0.depth == v.depth,
{
    let k = choose|k: int| 0 <= k < v.slots.len() && #[trigger] v.slots[k] is None;
    lemma_first_free_below(v.slots, k);
    let i = choose|i: int| first_free(v.slots, i);
    let v1 = submit_result(v, request).0;
    assert(v1 == after_submit(v, request, i));
    assert(holds_id(v1.slots, v.next_request_id, i));
    if !exists|j: int| first_holding(v1.slots, v.next_request_id, j) {
        lemma_first_holding_below(v1.slots, v.next_request_id, i);
    }
}

proof fn lemma_first_holding_below(slots: Seq<Option<BioRequest>>, id: u64, k: int)
    requires
        holds_id(slots, id, k),
    ensures
        exists|i: int| first_holding(slots, id, i),
    decreases k,
{
    if exists|j: int| 0 <= j < k && #[trigger] holds_id(slots, id, j) {
        let j = choose|j: int| 0 <= j < k && #[trigger] holds_id(slots, id, j);
        lemma_first_holding_below(slots, id, j);
    } else {
        assert(first_holding(slots, id, k));
    }
}

} // verus!
