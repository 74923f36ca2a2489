//! Fixed-capacity FIFO queue of task IDs kept in a ring buffer.
use vstd::prelude::*;

verus! {

/// Capacity of a task queue.
pub const QUEUE_CAPACITY: usize = 64;

/// `s` with every occurrence of `id` taken out, the rest in order.
pub open spec fn without(s: Seq<usize>, id: usize) -> Seq<usize>
    decreases s.len(),
{
    if s.len() == 0 {
        s
    } else {
        let rest = without(s.drop_last(), id);
        if s.last() == id {
            rest
        } else {
            rest.push(s.last())
        }
    }
}

/// Taking an ID out never lengthens a sequence.
pub proof fn lemma_without_len(s: Seq<usize>, id: usize)
    ensures
        without(s, id).len() <= s.len(),
    decreases s.len(),
{
    if s.len() > 0 {
        lemma_without_len(s.drop_last(), id);
    }
}

/// FIFO of task IDs in a ring buffer of `QUEUE_CAPACITY` slots.
pub struct TaskQueue {
    tasks: Vec<usize>,
    head: usize,
    tail: usize,
    count: usize,
}

impl TaskQueue {
    /// Ring-buffer invariant: `tail` is `count` slots after `head`.
    pub closed spec fn wf(&self) -> bool {
        &&& self.tasks@.len() == QUEUE_CAPACITY
        &&& self.head < QUEUE_CAPACITY
        &&& self.count <= QUEUE_CAPACITY
        &&& self.tail == (self.head + self.count) % (QUEUE_CAPACITY as int)
    }

    /// The queued task IDs, front first.
    pub closed spec fn view(&self) -> Seq<usize> {
        Seq::new(
            self.count as nat,
            |i: int| self.tasks@[(self.head + i) % (QUEUE_CAPACITY as int)],
        )
    }

    /// Create an empty queue.
    pub fn new() -> (r: Self)
        ensures
            r.wf(),
            r@ == Seq::<usize>::empty(),
    {
        let mut tasks: Vec<usize> = Vec::new();
        let mut i: usize = 0;
        while i < QUEUE_CAPACITY
            invariant
                i <= QUEUE_CAPACITY,
                tasks@.len() == i,
            decreases QUEUE_CAPACITY - i,
        {
            tasks.push(0);
            i = i + 1;
        }
        let r = TaskQueue { tasks, head: 0, tail: 0, count: 0 };
        assert(r@ =~= Seq::<usize>::empty());
        r
    }

    /// Append a task at the back; false (and no change) when the queue is full.
    pub fn push_back(&mut self, task_id: usize) -> (r: bool)
        requires
            old(self).wf(),
        ensures
            final(self).wf(),
            r == (old(self)@.len() < QUEUE_CAPACITY),
            final(self)@ == (if r { old(self)@.push(task_id) } else { old(self)@ }),
    {
        if self.count >= QUEUE_CAPACITY {
            return false;
        }
        let ghost old_view = self@;
        self.tasks.set(self.tail, task_id);
        self.tail = (self.tail + 1) % QUEUE_CAPACITY;
        self.count = self.count + 1;
        proof {
            assert forall|i: int| 0 <= i < old_view.len() implies self@[i] == old_view[i] by {
                assert((self.head + i) % 64 != (self.head + old_view.len()) % 64);
            }
            assert(self@[old_view.len() as int] == task_id);
            assert(self@ =~= old_view.push(task_id));
        }
        true
    }

    /// Remove and return the front task; None when empty.
    pub fn pop_front(&mut self) -> (r: Option<usize>)
        requires
            old(self).wf(),
        ensures
            final(self).wf(),
            old(self)@.len() == 0 ==> r is None && final(self)@ == old(self)@,
            old(self)@.len() > 0 ==> r == Some(old(self)@[0]) && final(self)@ == old(self)@.drop_first(),
    {
        if self.count == 0 {
            return None;
        }
        let ghost old_view = self@;
        let task_id = self.tasks[self.head];
        self.head = (self.head + 1) % QUEUE_CAPACITY;
        self.count = self.count - 1;
        proof {
            assert forall|i: int| 0 <= i < self@.len() implies self@[i] == old_view.drop_first()[i] by {
                assert(((old(self).head + 1) % 64 + i) % 64 == (old(self).head + (i + 1)) % 64);
            }
            assert(self@ =~= old_view.drop_first());
        }
        Some(task_id)
    }

    /// Number of queued tasks.
    pub fn len(&self) -> (r: usize)
        requires
            self.wf(),
        ensures
            r == self@.len(),
            r <= QUEUE_CAPACITY,
    {
        self.count
    }

    /// A well-formed queue never holds more than its capacity.
    pub proof fn lemma_len_bound(&self)
        requires
            self.wf(),
        ensures
            self@.len() <= QUEUE_CAPACITY,
    {
    }

    /// Whether the queue is empty.
    pub fn is_empty(&self) -> (r: bool)
        requires
            self.wf(),
        ensures
            r == (self@.len() == 0),
    {
        self.count == 0
    }

    /// Remove every occurrence of `task_id`, keeping the order of the rest.
    pub fn remove_all(&mut self, task_id: usize)
        requires
            old(self).wf(),
        ensures
            final(self).wf(),
            final(self)@ == without(old(self)@, task_id),
    {
        let n = self.count;
        let ghost s0 = self@;
        let mut k: usize = 0;
        while k < n
            invariant
                self.wf(),
                s0 == old(self)@,
                n == s0.len(),
                k <= n,
                self@ == s0.skip(k as int) + without(s0.take(k as int), task_id),
            decreases n - k,
        {
            proof {
                lemma_without_len(s0.take(k as int), task_id);
                assert(self@[0] == s0[k as int]);
            }
            let x = self.pop_front().unwrap();
            proof {
                assert(s0.take(k + 1).drop_last() =~= s0.take(k as int));
                assert(s0.take(k + 1).last() == x);
            }
            if x != task_id {
                let _ = self.push_back(x);
                assert(self@ =~= s0.skip(k + 1) + without(s0.take(k + 1), task_id));
            } else {
                assert(self@ =~= s0.skip(k + 1) + without(s0.take(k + 1), task_id));
            }
            k = k + 1;
        }
        assert(s0.take(n as int) =~= s0);
        assert(self@ =~= without(s0, task_id));
    }

    /// Remove every task.
    pub fn clear(&mut self)
        requires
            old(self).wf(),
        ensures
            final(self).wf(),
            final(self)@ == Seq::<usize>::empty(),
    {
        self.head = 0;
        self.tail = 0;
        self.count = 0;
        assert(self@ =~= Seq::<usize>::empty());
    }
}

} // verus!
