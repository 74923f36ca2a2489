//! IPC ports: each port holds a bounded FIFO of messages and a FIFO of
//! tasks waiting to receive.
//!
//! Sending and receiving decide what happens; making a task runnable or
//! putting the caller to sleep is left to the scheduler, to which these
//! functions report the task to wake or that the receiver must block.
use vstd::prelude::*;

use crate::sched::queue::{TaskQueue, QUEUE_CAPACITY};
use crate::sys::ipc::{IpcError, Message, MAX_MESSAGE_SIZE};
use crate::sys::{counter_inc, wrap_inc, KernelMetrics};

verus! {

/// Maximum messages queued on one port.
pub const MAX_MESSAGES_PER_PORT: usize = 16;

/// Number of port IDs.
pub const MAX_PORTS: usize = 256;

/// Ports created at boot for kernel use (IDs `0..SYSTEM_PORTS`).
pub const SYSTEM_PORTS: usize = 16;

/// Bounded FIFO of messages.
struct MessageQueue {
    messages: Vec<Message>,
}

impl MessageQueue {
    spec fn wf(&self) -> bool {
        &&& self.messages@.len() <= MAX_MESSAGES_PER_PORT
        &&& forall|i: int| 0 <= i < self.messages@.len() ==> (#[trigger] self.messages@[i]).wf()
    }

    /// Payloads of the queued messages, front first.
    spec fn payloads(&self) -> Seq<Seq<u8>> {
        Seq::new(self.messages@.len(), |i: int| self.messages@[i].payload())
    }

    fn new() -> (r: Self)
        ensures
            r.wf(),
            r.payloads() == Seq::<Seq<u8>>::empty(),
    {
        let r = MessageQueue { messages: Vec::new() };
        assert(r.payloads() =~= Seq::<Seq<u8>>::empty());
        r
    }

    fn push_back(&mut self, message: Message) -> (r: bool)
        requires
            old(self).wf(),
            message.wf(),
        ensures
            final(self).wf(),
            r == (old(self).payloads().len() < MAX_MESSAGES_PER_PORT),
            final(self).payloads() == (if r {
                old(self).payloads().push(message.payload())
            } else {
                old(self).payloads()
            }),
    {
        if self.messages.len() >= MAX_MESSAGES_PER_PORT {
            return false;
        }
        self.messages.push(message);
        assert(self.payloads() =~= old(self).payloads().push(message.payload()));
        true
    }

    fn pop_front(&mut self) -> (r: Option<Message>)
        requires
            old(self).wf(),
        ensures
            final(self).wf(),
            old(self).payloads().len() == 0 ==> r is None && final(self).payloads() == old(self).payloads(),
            old(self).payloads().len() > 0 ==> (r matches Some(m) && m.wf() && m.payload() == old(
                self,
            ).payloads()[0] && final(self).payloads() == old(self).payloads().drop_first()),
    {
        if self.messages.len() == 0 {
            return None;
        }
        let m = self.messages.remove(0);
        assert(self.payloads() =~= old(self).payloads().drop_first());
        Some(m)
    }

    fn len(&self) -> (r: usize)
        requires
            self.wf(),
        ensures
            r == self.payloads().len(),
    {
        self.messages.len()
    }

    fn is_empty(&self) -> (r: bool)
        requires
            self.wf(),
        ensures
            r == (self.payloads().len() == 0),
    {
        self.messages.len() == 0
    }
}

/// A communication endpoint: a FIFO of messages and a FIFO of tasks blocked
/// waiting for one.
pub struct Port {
    /// Port identifier
    pub id: usize,
    queue: MessageQueue,
    blocked_tasks: TaskQueue,
}

impl Port {
    /// Both queues are well formed.
    pub closed spec fn wf(&self) -> bool {
        self.queue.wf() && self.blocked_tasks.wf()
    }

    /// The port's identifier.
    pub closed spec fn port_id(&self) -> usize {
        self.id
    }

    /// Payloads of the queued messages, oldest first.
    pub closed spec fn pending(&self) -> Seq<Seq<u8>> {
        self.queue.payloads()
    }

    /// Tasks waiting for a message, first to wake first.
    pub closed spec fn blocked(&self) -> Seq<usize> {
        self.blocked_tasks@
    }

    /// A port with empty queues.
    pub fn new(id: usize) -> (r: Self)
        ensures
            r.wf(),
            r.port_id() == id,
            r.pending() == Seq::<Seq<u8>>::empty(),
            r.blocked() == Seq::<usize>::empty(),
    {
        Port { id, queue: MessageQueue::new(), blocked_tasks: TaskQueue::new() }
    }

    /// Whether the message queue holds `MAX_MESSAGES_PER_PORT` messages.
    pub fn is_queue_full(&self) -> (r: bool)
        requires
            self.wf(),
        ensures
            r == (self.pending().len() >= MAX_MESSAGES_PER_PORT),
    {
        self.queue.len() >= MAX_MESSAGES_PER_PORT
    }

    /// Whether any message is queued.
    pub fn has_messages(&self) -> (r: bool)
        requires
            self.wf(),
        ensures
            r == (self.pending().len() > 0),
    {
        !self.queue.is_empty()
    }

    /// Whether any task is waiting.
    pub fn has_blocked_tasks(&self) -> (r: bool)
        requires
            self.wf(),
        ensures
            r == (self.blocked().len() > 0),
    {
        !self.blocked_tasks.is_empty()
    }
}

/// What a receive did when it did not fail.
#[derive(Debug, Clone, Copy, PartialEq, Eq, Structural)]
pub enum RecvOutcome {
    /// A message was copied into the buffer; this many bytes.
    Received(usize),
    /// No message was queued: the task was added to the port's waiters and
    /// must block, then receive again once woken.
    Blocked,
}

/// All ports of the system, indexed by port ID.
pub struct PortManager {
    ports: Vec<Option<Port>>,
}

impl PortManager {
    /// One slot per port ID; a port in slot `i` has ID `i`.
    pub closed spec fn wf(&self) -> bool {
        &&& self.ports@.len() == MAX_PORTS
        &&& forall|i: int|
            0 <= i < MAX_PORTS ==> (#[trigger] self.ports@[i] matches Some(p) ==> p.wf() && p.id == i)
    }

    /// Whether port `id` exists.
    pub closed spec fn has_port(&self, id: int) -> bool {
        0 <= id < self.ports@.len() && self.ports@[id] is Some
    }

    /// Payloads queued on port `id`, oldest first.
    pub closed spec fn pending(&self, id: int) -> Seq<Seq<u8>> {
        if self.has_port(id) {
            self.ports@[id]->Some_0.pending()
        } else {
            Seq::empty()
        }
    }

    /// Tasks waiting on port `id`, first to wake first.
    pub closed spec fn blocked(&self, id: int) -> Seq<usize> {
        if self.has_port(id) {
            self.ports@[id]->Some_0.blocked()
        } else {
            Seq::empty()
        }
    }

    /// Port `id` is the same in both managers.
    pub open spec fn same_port(&self, other: &PortManager, id: int) -> bool {
        &&& self.has_port(id) == other.has_port(id)
        &&& self.pending(id) == other.pending(id)
        &&& self.blocked(id) == other.blocked(id)
    }

    /// Every port is the same in both managers.
    pub open spec fn unchanged_from(&self, other: &PortManager) -> bool {
        forall|j: int| #[trigger] self.same_port(other, j)
    }

    /// Every port other than `id` is the same in both managers.
    pub open spec fn others_unchanged(&self, other: &PortManager, id: int) -> bool {
        forall|j: int| j != id ==> #[trigger] self.same_port(other, j)
    }

    /// A manager with no ports.
    pub fn new() -> (r: Self)
        ensures
            r.wf(),
            forall|id: int| !(#[trigger] r.has_port(id)),
    {
        let mut ports: Vec<Option<Port>> = Vec::new();
        let mut i: usize = 0;
        while i < MAX_PORTS
            invariant
                i <= MAX_PORTS,
                ports@.len() == i,
                forall|j: int| 0 <= j < i ==> #[trigger] ports@[j] is None,
            decreases MAX_PORTS - i,
        {
            ports.push(None);
            i = i + 1;
        }
        PortManager { ports }
    }

    /// Create (or re-create, empty) the port `port_id`.
    pub fn create_port(&mut self, port_id: usize) -> (r: Result<(), IpcError>)
        requires
            old(self).wf(),
        ensures
            final(self).wf(),
            port_id >= MAX_PORTS ==> (r == Err::<(), IpcError>(IpcError::InvalidPort)
                && final(self).unchanged_from(old(self))),
            port_id < MAX_PORTS ==> {
                &&& r is Ok
                &&& final(self).has_port(port_id as int)
                &&& final(self).pending(port_id as int) == Seq::<Seq<u8>>::empty()
                &&& final(self).blocked(port_id as int) == Seq::<usize>::empty()
                &&& final(self).others_unchanged(old(self), port_id as int)
            },
    {
        if port_id >= MAX_PORTS {
            return Err(IpcError::InvalidPort);
        }
        let port = Port::new(port_id);
        self.ports.set(port_id, Some(port));
        proof {
            assert forall|j: int| j != port_id implies #[trigger] self.same_port(old(self), j) by {
                if 0 <= j < MAX_PORTS {
                    assert(self.ports@[j] == old(self).ports@[j]);
                }
            }
        }
        Ok(())
    }

    /// Queue a copy of `data` on port `port_id` and wake the first waiting
    /// task, if any, whose ID is returned for the scheduler to make runnable.
    ///
    /// Errors, checked in this order: `InvalidPort` for an ID out of range,
    /// `MessageTooLarge` for more than `MAX_MESSAGE_SIZE` bytes,
    /// `PortNotFound` for a port never created, `QueueFull` when the port
    /// already holds `MAX_MESSAGES_PER_PORT` messages (counted in
    /// `ipc_queue_full`). A successful send is counted in `ipc_sends`.
    pub fn send_message(&mut self, metrics: &mut KernelMetrics, port_id: usize, data: &[u8]) -> (r:
        Result<Option<usize>, IpcError>)
        requires
            old(self).wf(),
        ensures
            final(self).wf(),
            final(metrics).wf() == old(metrics).wf(),
            final(metrics).syscall_count == old(metrics).syscall_count,
            port_id >= MAX_PORTS ==> r == Err::<Option<usize>, IpcError>(IpcError::InvalidPort),
            port_id < MAX_PORTS && data@.len() > MAX_MESSAGE_SIZE ==> r == Err::<
                Option<usize>,
                IpcError,
            >(IpcError::MessageTooLarge),
            port_id < MAX_PORTS && data@.len() <= MAX_MESSAGE_SIZE && !old(self).has_port(
                port_id as int,
            ) ==> r == Err::<Option<usize>, IpcError>(IpcError::PortNotFound),
            port_id < MAX_PORTS && data@.len() <= MAX_MESSAGE_SIZE && old(self).has_port(
                port_id as int,
            ) && old(self).pending(port_id as int).len() >= MAX_MESSAGES_PER_PORT ==> {
                &&& r == Err::<Option<usize>, IpcError>(IpcError::QueueFull)
                &&& final(metrics).ipc_queue_full == wrap_inc(old(metrics).ipc_queue_full)
                &&& final(metrics).ipc_sends == old(metrics).ipc_sends
            },
            r is Err ==> final(self).unchanged_from(old(self)),
            r is Err && r != Err::<Option<usize>, IpcError>(IpcError::QueueFull) ==> *final(metrics)
                == *old(metrics),
            r is Ok <==> (port_id < MAX_PORTS && data@.len() <= MAX_MESSAGE_SIZE && old(self).has_port(
                port_id as int,
            ) && old(self).pending(port_id as int).len() < MAX_MESSAGES_PER_PORT),
            r matches Ok(woken) ==> {
                let id = port_id as int;
                &&& final(self).has_port(id)
                &&& final(self).pending(id) == old(self).pending(id).push(data@)
                &&& old(self).blocked(id).len() == 0 ==> woken is None && final(self).blocked(id)
                    == old(self).blocked(id)
                &&& old(self).blocked(id).len() > 0 ==> woken == Some(old(self).blocked(id)[0])
                    && final(self).blocked(id) == old(self).blocked(id).drop_first()
                &&& final(self).others_unchanged(old(self), id)
                &&& final(metrics).ipc_sends == wrap_inc(old(metrics).ipc_sends)
                &&& final(metrics).ipc_queue_full == old(metrics).ipc_queue_full
            },
            final(metrics).ctx_switches == old(metrics).ctx_switches,
            final(metrics).preemptions == old(metrics).preemptions,
            final(metrics).ipc_recvs == old(metrics).ipc_recvs,
            final(metrics).sleep_count == old(metrics).sleep_count,
            final(metrics).wake_count == old(metrics).wake_count,
            final(metrics).timer_ticks == old(metrics).timer_ticks,
    {
        if port_id >= MAX_PORTS {
            return Err(IpcError::InvalidPort);
        }
        if data.len() > MAX_MESSAGE_SIZE {
            return Err(IpcError::MessageTooLarge);
        }
        let mut slot: Option<Port> = None;
        std::mem::swap(&mut slot, &mut self.ports[port_id]);
        let mut port = match slot {
            Some(p) => p,
            None => {
                assert(self.ports@ =~= old(self).ports@);
                return Err(IpcError::PortNotFound);
            },
        };
        assert(port.wf() && port.id == port_id);
        if port.is_queue_full() {
            self.ports.set(port_id, Some(port));
            assert(self.ports@ =~= old(self).ports@);
            metrics.ipc_queue_full = counter_inc(metrics.ipc_queue_full);
            return Err(IpcError::QueueFull);
        }
        let message = Message::from_slice(data);
        assert(message.payload() =~= data@);
        let pushed = port.queue.push_back(message);
        assert(pushed);
        let woken = port.blocked_tasks.pop_front();
        self.ports.set(port_id, Some(port));
        proof {
            assert forall|j: int| j != port_id implies #[trigger] self.same_port(old(self), j) by {
                if 0 <= j < MAX_PORTS {
                    assert(self.ports@[j] == old(self).ports@[j]);
                }
            }
        }
        metrics.ipc_sends = counter_inc(metrics.ipc_sends);
        Ok(woken)
    }

    /// Receive from port `port_id` into `buf` on behalf of task `task_id`.
    ///
    /// If a message is queued, the oldest is removed and its first
    /// `min(len, buf.len())` bytes are copied into `buf` (counted in
    /// `ipc_recvs`). Otherwise the task joins the port's waiters and
    /// `Blocked` is returned: the caller blocks the task and receives again
    /// once a send has woken it.
    ///
    /// Errors, checked in this order: `InvalidPort` for an ID out of range,
    /// `InvalidBuffer` for an empty buffer, `PortNotFound` for a port never
    /// created, `QueueFull` when no message is queued and the waiters queue
    /// is full.
    pub fn recv_message(
        &mut self,
        metrics: &mut KernelMetrics,
        port_id: usize,
        task_id: usize,
        buf: &mut [u8],
    ) -> (r: Result<RecvOutcome, IpcError>)
        requires
            old(self).wf(),
        ensures
            final(self).wf(),
            final(buf)@.len() == old(buf)@.len(),
            port_id >= MAX_PORTS ==> r == Err::<RecvOutcome, IpcError>(IpcError::InvalidPort),
            port_id < MAX_PORTS && old(buf)@.len() == 0 ==> r == Err::<RecvOutcome, IpcError>(
                IpcError::InvalidBuffer,
            ),
            port_id < MAX_PORTS && old(buf)@.len() > 0 && !old(self).has_port(port_id as int) ==> r
                == Err::<RecvOutcome, IpcError>(IpcError::PortNotFound),
            r is Err ==> final(self).unchanged_from(old(self)) && final(buf)@ == old(buf)@ && *final(metrics)
                == *old(metrics),
            port_id < MAX_PORTS && old(buf)@.len() > 0 && old(self).has_port(port_id as int) ==> {
                let id = port_id as int;
                let q = old(self).pending(id);
                &&& final(self).has_port(id)
                &&& final(self).others_unchanged(old(self), id)
                &&& q.len() > 0 ==> {
                    let n = if q[0].len() < old(buf)@.len() { q[0].len() } else { old(buf)@.len() };
                    &&& r == Ok::<RecvOutcome, IpcError>(RecvOutcome::Received(n as usize))
                    &&& final(self).pending(id) == q.drop_first()
                    &&& final(self).blocked(id) == old(self).blocked(id)
                    &&& final(buf)@ == q[0].subrange(0, n as int) + old(buf)@.subrange(
                        n as int,
                        old(buf)@.len() as int,
                    )
                    &&& final(metrics).ipc_recvs == wrap_inc(old(metrics).ipc_recvs)
                    &&& final(metrics).ipc_sends == old(metrics).ipc_sends
                    &&& final(metrics).ipc_queue_full == old(metrics).ipc_queue_full
                    &&& final(metrics).syscall_count == old(metrics).syscall_count
                }
                &&& q.len() == 0 && old(self).blocked(id).len() >= QUEUE_CAPACITY ==> r == Err::<
                    RecvOutcome,
                    IpcError,
                >(IpcError::QueueFull)
                &&& q.len() == 0 && old(self).blocked(id).len() < QUEUE_CAPACITY ==> {
                    &&& r == Ok::<RecvOutcome, IpcError>(RecvOutcome::Blocked)
                    &&& final(self).pending(id) == q
                    &&& final(self).blocked(id) == old(self).blocked(id).push(task_id)
                    &&& final(buf)@ == old(buf)@
                    &&& *final(metrics) == *old(metrics)
                }
            },
            final(metrics).ctx_switches == old(metrics).ctx_switches,
            final(metrics).preemptions == old(metrics).preemptions,
            final(metrics).sleep_count == old(metrics).sleep_count,
            final(metrics).wake_count == old(metrics).wake_count,
            final(metrics).timer_ticks == old(metrics).timer_ticks,
    {
        if port_id >= MAX_PORTS {
            return Err(IpcError::InvalidPort);
        }
        if buf.len() == 0 {
            return Err(IpcError::InvalidBuffer);
        }
        let mut slot: Option<Port> = None;
        std::mem::swap(&mut slot, &mut self.ports[port_id]);
        let mut port = match slot {
            Some(p) => p,
            None => {
                assert(self.ports@ =~= old(self).ports@);
                return Err(IpcError::PortNotFound);
            },
        };
        assert(port.wf() && port.id == port_id);
        let ghost old_port = port;
        match port.queue.pop_front() {
            Some(message) => {
                let n = if message.len() < buf.len() { message.len() } else { buf.len() };
                let payload = message.as_slice();
                let mut i: usize = 0;
                while i < n
                    invariant
                        n <= payload@.len(),
                        n <= buf@.len(),
                        i <= n,
                        buf@.len() == old(buf)@.len(),
                        forall|j: int| 0 <= j < i ==> #[trigger] buf@[j] == payload@[j],
                        forall|j: int| n <= j < buf@.len() ==> #[trigger] buf@[j] == old(buf)@[j],
                    decreases n - i,
                {
                    buf[i] = payload[i];
                    i = i + 1;
                }
                self.ports.set(port_id, Some(port));
                proof {
                    assert forall|j: int| j != port_id implies #[trigger] self.same_port(old(self), j) by {
                        if 0 <= j < MAX_PORTS {
                            assert(self.ports@[j] == old(self).ports@[j]);
                        }
                    }
                    assert(buf@ =~= payload@.subrange(0, n as int) + old(buf)@.subrange(
                        n as int,
                        old(buf)@.len() as int,
                    ));
                }
                metrics.ipc_recvs = counter_inc(metrics.ipc_recvs);
                Ok(RecvOutcome::Received(n))
            },
            None => {
                if port.blocked_tasks.push_back(task_id) {
                    self.ports.set(port_id, Some(port));
                    proof {
                        assert forall|j: int| j != port_id implies #[trigger] self.same_port(
                            old(self),
                            j,
                        ) by {
                            if 0 <= j < MAX_PORTS {
                                assert(self.ports@[j] == old(self).ports@[j]);
                            }
                        }
                    }
                    Ok(RecvOutcome::Blocked)
                } else {
                    self.ports.set(port_id, Some(port));
                    proof {
                        assert forall|j: int| #[trigger] self.same_port(old(self), j) by {
                            if 0 <= j < MAX_PORTS && j != port_id {
                                assert(self.ports@[j] == old(self).ports@[j]);
                            }
                        }
                    }
                    Err(IpcError::QueueFull)
                }
            },
        }
    }
}

/// Create the system ports `0..SYSTEM_PORTS`.
pub fn init_ipc(manager: &mut PortManager)
    requires
        old(manager).wf(),
    ensures
        final(manager).wf(),
        forall|id: int|
            0 <= id < SYSTEM_PORTS ==> #[trigger] final(manager).has_port(id) && final(manager).pending(
                id,
            ) == Seq::<Seq<u8>>::empty() && final(manager).blocked(id) == Seq::<usize>::empty(),
        forall|id: int| SYSTEM_PORTS <= id ==> #[trigger] final(manager).same_port(old(manager), id),
{
    let mut port_id: usize = 0;
    while port_id < SYSTEM_PORTS
        invariant
            port_id <= SYSTEM_PORTS,
            manager.wf(),
            forall|id: int|
                0 <= id < port_id ==> #[trigger] manager.has_port(id) && manager.pending(id) == Seq::<
                    Seq<u8>,
                >::empty() && manager.blocked(id) == Seq::<usize>::empty(),
            forall|id: int| port_id <= id ==> #[trigger] manager.same_port(old(manager), id),
        decreases SYSTEM_PORTS - port_id,
    {
        let ghost before = *manager;
        let _ = manager.create_port(port_id);
        proof {
            assert forall|id: int| 0 <= id < port_id + 1 implies #[trigger] manager.has_port(id)
                && manager.pending(id) == Seq::<Seq<u8>>::empty() && manager.blocked(id) == Seq::<
                usize,
            >::empty() by {
                if id != port_id {
                    assert(manager.same_port(&before, id));
                }
            }
            assert forall|id: int| port_id + 1 <= id implies #[trigger] manager.same_port(
                old(manager),
                id,
            ) by {
                assert(manager.same_port(&before, id));
                assert(before.same_port(old(manager), id));
            }
        }
        port_id = port_id + 1;
    }
}

} // verus!
