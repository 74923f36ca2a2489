//! IPC message and error types.
use vstd::prelude::*;

verus! {

/// Maximum message size in bytes.
pub const MAX_MESSAGE_SIZE: usize = 4096;

/// IPC error types.
#[derive(Debug, Clone, Copy, PartialEq, Eq, Structural)]
pub enum IpcError {
    /// Port ID is invalid or out of range
    InvalidPort,
    /// Port's message queue is full
    QueueFull,
    /// Buffer pointer or size is invalid
    InvalidBuffer,
    /// Port does not exist
    PortNotFound,
    /// Message size exceeds `MAX_MESSAGE_SIZE` bytes
    MessageTooLarge,
    /// Feature not implemented yet
    NotImplemented,
}

/// An IPC message: a buffer of `MAX_MESSAGE_SIZE` bytes of which the first
/// `len` are the payload.
#[derive(Debug, Clone)]
pub struct Message {
    /// Message buffer (always `MAX_MESSAGE_SIZE` bytes)
    pub data: Vec<u8>,
    /// Actual length of the message
    pub len: usize,
}

impl Message {
    /// The buffer has its full size and the length fits in it.
    pub open spec fn wf(&self) -> bool {
        &&& self.data@.len() == MAX_MESSAGE_SIZE
        &&& self.len <= MAX_MESSAGE_SIZE
    }

    /// The payload bytes.
    pub open spec fn payload(&self) -> Seq<u8> {
        self.data@.subrange(0, self.len as int)
    }

    /// An empty message (zeroed buffer, length 0).
    pub fn new() -> (r: Self)
        ensures
            r.wf(),
            r.len == 0,
            r.payload() == Seq::<u8>::empty(),
            forall|i: int| 0 <= i < MAX_MESSAGE_SIZE ==> #[trigger] r.data@[i] == 0,
    {
        let mut data: Vec<u8> = Vec::new();
        let mut i: usize = 0;
        while i < MAX_MESSAGE_SIZE
            invariant
                i <= MAX_MESSAGE_SIZE,
                data@.len() == i,
                forall|j: int| 0 <= j < i ==> #[trigger] data@[j] == 0,
            decreases MAX_MESSAGE_SIZE - i,
        {
            data.push(0);
            i = i + 1;
        }
        let r = Message { data, len: 0 };
        assert(r.payload() =~= Seq::<u8>::empty());
        r
    }

    /// A message holding a copy of `data`, truncated to `MAX_MESSAGE_SIZE` bytes.
    pub fn from_slice(data: &[u8]) -> (r: Self)
        ensures
            r.wf(),
            r.len == (if data@.len() < MAX_MESSAGE_SIZE { data@.len() } else { MAX_MESSAGE_SIZE as nat }),
            r.payload() == data@.subrange(0, r.len as int),
    {
        let mut msg = Self::new();
        let len = if data.len() < MAX_MESSAGE_SIZE { data.len() } else { MAX_MESSAGE_SIZE };
        let mut i: usize = 0;
        while i < len
            invariant
                len <= data@.len(),
                len <= MAX_MESSAGE_SIZE,
                i <= len,
                msg.data@.len() == MAX_MESSAGE_SIZE,
                msg.len == 0,
                forall|j: int| 0 <= j < i ==> #[trigger] msg.data@[j] == data@[j],
            decreases len - i,
        {
            msg.data.set(i, data[i]);
            i = i + 1;
        }
        msg.len = len;
        assert(msg.payload() =~= data@.subrange(0, len as int));
        msg
    }

    /// Size of the message in bytes.
    pub fn len(&self) -> (r: usize)
        ensures
            r == self.len,
    {
        self.len
    }

    /// Whether the message is empty.
    pub fn is_empty(&self) -> (r: bool)
        ensures
            r == (self.len == 0),
    {
        self.len == 0
    }

    /// The payload bytes.
    pub fn as_slice(&self) -> (r: &[u8])
        requires
            self.wf(),
        ensures
            r@ == self.payload(),
    {
        vstd::slice::slice_subrange(self.data.as_slice(), 0, self.len)
    }
}

} // verus!
