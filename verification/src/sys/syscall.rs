//! File descriptors, pipes and the descriptor-table system calls.
//!
//! The system calls here act on a process's descriptor table and the pipe
//! table. Copying to and from user memory, and the work of PTY devices and
//! files, is done by the caller with what these functions report.
use vstd::prelude::*;

use crate::sched::task::USER_LIMIT;
use crate::io::devtree::{for_each_device, BusType, Device, DeviceRegistry, DeviceState};
use crate::io::irq::{get_all_irq_stats, registered_below, IrqRegistry, MAX_IRQS};
use vstd::string::StringSliceAdditionalSpecFns;

verus! {

/// System call number of `write`.
pub const SYS_WRITE: usize = 0;
/// System call number of `exit`.
pub const SYS_EXIT: usize = 1;
/// System call number of `sleep`.
pub const SYS_SLEEP: usize = 2;
/// System call number of `ipc_send`.
pub const SYS_IPC_SEND: usize = 3;
/// System call number of `ipc_recv`.
pub const SYS_IPC_RECV: usize = 4;
/// System call number of `getpid`.
pub const SYS_GETPID: usize = 5;
/// System call number of `yield`.
pub const SYS_YIELD: usize = 6;
/// System call number of `fork`.
pub const SYS_FORK: usize = 7;
/// System call number of `wait`.
pub const SYS_WAIT: usize = 8;
/// System call number of `exec`.
pub const SYS_EXEC: usize = 9;
/// System call number of `open`.
pub const SYS_OPEN: usize = 10;
/// System call number of `read`.
pub const SYS_READ: usize = 11;
/// System call number of `close`.
pub const SYS_CLOSE: usize = 12;
/// System call number of `ioctl`.
pub const SYS_IOCTL: usize = 13;
/// System call number of `sigaction`.
pub const SYS_SIGACTION: usize = 14;
/// System call number of `kill`.
pub const SYS_KILL: usize = 15;
/// System call number of `setpgid`.
pub const SYS_SETPGID: usize = 16;
/// System call number of `getpgrp`.
pub const SYS_GETPGRP: usize = 17;
/// System call number of `setsid`.
pub const SYS_SETSID: usize = 18;
/// System call number of `getsid`.
pub const SYS_GETSID: usize = 19;
/// System call number of `tcsetpgrp`.
pub const SYS_TCSETPGRP: usize = 20;
/// System call number of `tcgetpgrp`.
pub const SYS_TCGETPGRP: usize = 21;
/// System call number of `fcntl`.
pub const SYS_FCNTL: usize = 22;
/// System call number of `pipe2`.
pub const SYS_PIPE2: usize = 23;
/// System call number of `dup2`.
pub const SYS_DUP2: usize = 24;
/// System call number of `read_stdin`.
pub const SYS_READ_STDIN: usize = 25;
/// System call number of `serial_write`.
pub const SYS_SERIAL_WRITE: usize = 26;
/// System call number of `serial_read`.
pub const SYS_SERIAL_READ: usize = 27;
/// System call number of `block_read`.
pub const SYS_BLOCK_READ: usize = 28;
/// System call number of `block_write`.
pub const SYS_BLOCK_WRITE: usize = 29;
/// System call number of `get_device_list`.
pub const SYS_GET_DEVICE_LIST: usize = 30;
/// System call number of `get_block_device_info`.
pub const SYS_GET_BLOCK_DEVICE_INFO: usize = 31;
/// System call number of `read_kernel_log`.
pub const SYS_READ_KERNEL_LOG: usize = 32;
/// System call number of `get_irq_stats`.
pub const SYS_GET_IRQ_STATS: usize = 33;
/// System call number of `stat`.
pub const SYS_STAT: usize = 34;
/// System call number of `fstat`.
pub const SYS_FSTAT: usize = 35;
/// System call number of `lstat`.
pub const SYS_LSTAT: usize = 36;
/// System call number of `chmod`.
pub const SYS_CHMOD: usize = 37;
/// System call number of `chown`.
pub const SYS_CHOWN: usize = 38;
/// System call number of `utimensat`.
pub const SYS_UTIMENSAT: usize = 39;
/// System call number of `setxattr`.
pub const SYS_SETXATTR: usize = 40;
/// System call number of `getxattr`.
pub const SYS_GETXATTR: usize = 41;
/// System call number of `listxattr`.
pub const SYS_LISTXATTR: usize = 42;
/// System call number of `mknod`.
pub const SYS_MKNOD: usize = 43;
/// System call number of `sync`.
pub const SYS_SYNC: usize = 44;
/// System call number of `fsync`.
pub const SYS_FSYNC: usize = 45;
/// System call number of `fdatasync`.
pub const SYS_FDATASYNC: usize = 46;
/// System call number of `mount`.
pub const SYS_MOUNT: usize = 47;
/// System call number of `umount`.
pub const SYS_UMOUNT: usize = 48;

/// What an open file descriptor refers to.
///
/// A VFS file is identified by its inode number; two VFS descriptors are
/// equal when they name the same inode, whatever their offsets.
#[derive(Debug, Clone, Copy)]
pub enum FdType {
    /// Invalid/closed FD
    Invalid,
    /// PTY master device
    PtyMaster(u32),
    /// PTY slave device
    PtySlave(u32),
    /// Pipe read end
    PipeRead(u32),
    /// Pipe write end
    PipeWrite(u32),
    /// VFS file (regular file, directory, etc.)
    VfsFile { inode: u64, offset: u64, flags: u32 },
}

/// Descriptor equality: same variant and number, VFS files by inode.
pub open spec fn fd_type_eq(a: FdType, b: FdType) -> bool {
    match (a, b) {
        (FdType::Invalid, FdType::Invalid) => true,
        (FdType::PtyMaster(x), FdType::PtyMaster(y)) => x == y,
        (FdType::PtySlave(x), FdType::PtySlave(y)) => x == y,
        (FdType::PipeRead(x), FdType::PipeRead(y)) => x == y,
        (FdType::PipeWrite(x), FdType::PipeWrite(y)) => x == y,
        (FdType::VfsFile { inode: x, .. }, FdType::VfsFile { inode: y, .. }) => x == y,
        _ => false,
    }
}

impl PartialEq for FdType {
    fn eq(&self, other: &Self) -> (r: bool) {
        match (self, other) {
            (FdType::Invalid, FdType::Invalid) => true,
            (FdType::PtyMaster(a), FdType::PtyMaster(b)) => *a == *b,
            (FdType::PtySlave(a), FdType::PtySlave(b)) => *a == *b,
            (FdType::PipeRead(a), FdType::PipeRead(b)) => *a == *b,
            (FdType::PipeWrite(a), FdType::PipeWrite(b)) => *a == *b,
            (FdType::VfsFile { inode: a, .. }, FdType::VfsFile { inode: b, .. }) => *a == *b,
            _ => false,
        }
    }
}

impl vstd::std_specs::cmp::PartialEqSpecImpl for FdType {
    open spec fn obeys_eq_spec() -> bool {
        true
    }

    open spec fn eq_spec(&self, other: &FdType) -> bool {
        fd_type_eq(*self, *other)
    }
}

impl Eq for FdType {

}

} // verus!

verus! {

/// Size of a pipe's ring buffer in bytes.
pub const PIPE_BUF_SIZE: usize = 4096;

/// Number of pipes in the pipe table.
pub const MAX_PIPES: usize = 64;

/// A pipe: a ring buffer of bytes and counts of open read and write ends.
struct Pipe {
    buffer: Vec<u8>,
    read_pos: usize,
    write_pos: usize,
    count: usize,
    readers: usize,
    writers: usize,
}

impl Pipe {
    spec fn wf(&self) -> bool {
        &&& self.buffer@.len() == PIPE_BUF_SIZE
        &&& self.read_pos < PIPE_BUF_SIZE
        &&& self.count <= PIPE_BUF_SIZE
        &&& self.write_pos == (self.read_pos + self.count) % (PIPE_BUF_SIZE as int)
    }

    /// Bytes waiting to be read, oldest first.
    spec fn contents(&self) -> Seq<u8> {
        Seq::new(
            self.count as nat,
            |i: int| self.buffer@[(self.read_pos + i) % (PIPE_BUF_SIZE as int)],
        )
    }

    spec fn spec_allocated(&self) -> bool {
        self.readers > 0 || self.writers > 0
    }

    fn new() -> (r: Self)
        ensures
            r.wf(),
            r.contents() == Seq::<u8>::empty(),
            r.readers == 0,
            r.writers == 0,
    {
        let mut buffer: Vec<u8> = Vec::new();
        let mut i: usize = 0;
        while i < PIPE_BUF_SIZE
            invariant
                i <= PIPE_BUF_SIZE,
                buffer@.len() == i,
            decreases PIPE_BUF_SIZE - i,
        {
            buffer.push(0);
            i = i + 1;
        }
        let r = Pipe { buffer, read_pos: 0, write_pos: 0, count: 0, readers: 0, writers: 0 };
        assert(r.contents() =~= Seq::<u8>::empty());
        r
    }

    fn is_allocated(&self) -> (r: bool)
        ensures
            r == self.spec_allocated(),
    {
        self.readers > 0 || self.writers > 0
    }

    /// Move up to `buf.len()` bytes out of the pipe into the front of `buf`.
    fn read(&mut self, buf: &mut [u8]) -> (n: usize)
        requires
            old(self).wf(),
        ensures
            final(self).wf(),
            n == (if old(buf)@.len() < old(self).count { old(buf)@.len() } else { old(self).count as nat }),
            final(buf)@ == old(self).contents().subrange(0, n as int) + old(buf)@.subrange(
                n as int,
                old(buf)@.len() as int,
            ),
            final(self).contents() == old(self).contents().subrange(n as int, old(self).count as int),
            final(self).readers == old(self).readers,
            final(self).writers == old(self).writers,
    {
        let n = if buf.len() < self.count { buf.len() } else { self.count };
        let ghost start = self.read_pos;
        let ghost contents = self.contents();
        let mut i: usize = 0;
        while i < n
            invariant
                self.buffer@.len() == PIPE_BUF_SIZE,
                self.buffer@ == old(self).buffer@,
                self.count == old(self).count,
                self.readers == old(self).readers,
                self.writers == old(self).writers,
                self.write_pos == old(self).write_pos,
                old(self).wf(),
                start == old(self).read_pos,
                start < PIPE_BUF_SIZE,
                contents == old(self).contents(),
                n <= self.count,
                n <= buf@.len(),
                i <= n,
                self.read_pos == (start + i) % (PIPE_BUF_SIZE as int),
                buf@.len() == old(buf)@.len(),
                forall|j: int| 0 <= j < i ==> #[trigger] buf@[j] == contents[j],
                forall|j: int| n <= j < buf@.len() ==> #[trigger] buf@[j] == old(buf)@[j],
            decreases n - i,
        {
            buf[i] = self.buffer[self.read_pos];
            self.read_pos = (self.read_pos + 1) % PIPE_BUF_SIZE;
            i = i + 1;
        }
        self.count = self.count - n;
        proof {
            assert(buf@ =~= contents.subrange(0, n as int) + old(buf)@.subrange(
                n as int,
                old(buf)@.len() as int,
            ));
            assert forall|j: int| 0 <= j < self.count implies #[trigger] self.contents()[j]
                == contents.subrange(n as int, old(self).count as int)[j] by {
                assert(((start + n) % 4096 + j) % 4096 == (start + (n + j)) % 4096);
            }
            assert(self.contents() =~= contents.subrange(n as int, old(self).count as int));
            assert(((start + n) % 4096 + (old(self).count - n)) % 4096 == (start + old(self).count)
                % 4096);
        }
        n
    }

    /// Append as many bytes of `buf` as fit.
    fn write(&mut self, buf: &[u8]) -> (n: usize)
        requires
            old(self).wf(),
        ensures
            final(self).wf(),
            n == (if buf@.len() < PIPE_BUF_SIZE - old(self).count { buf@.len() } else { (
            PIPE_BUF_SIZE - old(self).count) as nat }),
            final(self).contents() == old(self).contents() + buf@.subrange(0, n as int),
            final(self).readers == old(self).readers,
            final(self).writers == old(self).writers,
    {
        let space = PIPE_BUF_SIZE - self.count;
        let n = if buf.len() < space { buf.len() } else { space };
        let ghost contents = self.contents();
        let mut i: usize = 0;
        while i < n
            invariant
                self.buffer@.len() == PIPE_BUF_SIZE,
                self.read_pos == old(self).read_pos,
                self.read_pos < PIPE_BUF_SIZE,
                self.count == old(self).count,
                self.readers == old(self).readers,
                self.writers == old(self).writers,
                contents == old(self).contents(),
                n <= buf@.len(),
                n + self.count <= PIPE_BUF_SIZE,
                i <= n,
                self.write_pos == (self.read_pos + self.count + i) % (PIPE_BUF_SIZE as int),
                forall|j: int|
                    0 <= j < self.count ==> #[trigger] self.buffer@[(self.read_pos + j) % (
                    PIPE_BUF_SIZE as int)] == contents[j],
                forall|j: int|
                    0 <= j < i ==> #[trigger] self.buffer@[(self.read_pos + self.count + j) % (
                    PIPE_BUF_SIZE as int)] == buf@[j],
            decreases n - i,
        {
            let ghost prev = self.buffer@;
            let ghost wp = self.write_pos;
            self.buffer.set(self.write_pos, buf[i]);
            self.write_pos = (self.write_pos + 1) % PIPE_BUF_SIZE;
            proof {
                assert forall|j: int| 0 <= j < self.count implies #[trigger] self.buffer@[(
                self.read_pos + j) % (PIPE_BUF_SIZE as int)] == contents[j] by {
                    assert((self.read_pos + j) % 4096 != (self.read_pos + self.count + i) % 4096);
                }
                assert forall|j: int| 0 <= j < i + 1 implies #[trigger] self.buffer@[(self.read_pos
                    + self.count + j) % (PIPE_BUF_SIZE as int)] == buf@[j] by {
                    if j < i {
                        assert((self.read_pos + self.count + j) % 4096 != (self.read_pos + self.count
                            + i) % 4096);
                    }
                }
                assert(self.write_pos == (self.read_pos + self.count + i + 1) % 4096);
            }
            i = i + 1;
        }
        self.count = self.count + n;
        proof {
            assert forall|j: int| 0 <= j < self.count implies #[trigger] self.contents()[j] == (
            contents + buf@.subrange(0, n as int))[j] by {
                if j < old(self).count {
                    assert(self.buffer@[(self.read_pos + j) % 4096] == contents[j]);
                } else {
                    let k = j - old(self).count;
                    assert(self.buffer@[(self.read_pos + old(self).count + k) % 4096] == buf@[k]);
                }
            }
            assert(self.contents() =~= contents + buf@.subrange(0, n as int));
        }
        n
    }

    fn is_empty(&self) -> (r: bool)
        requires
            self.wf(),
        ensures
            r == (self.contents().len() == 0),
    {
        self.count == 0
    }

    fn is_full(&self) -> (r: bool)
        requires
            self.wf(),
        ensures
            r == (self.contents().len() == PIPE_BUF_SIZE),
    {
        self.count == PIPE_BUF_SIZE
    }
}

} // verus!

verus! {

/// Decrease by one, stopping at zero.
pub open spec fn dec_floor(x: nat) -> nat {
    if x > 0 { (x - 1) as nat } else { 0 }
}

/// The system's pipes, indexed by pipe ID.
pub struct PipeTable {
    pipes: Vec<Pipe>,
}

impl PipeTable {
    /// One well-formed pipe per ID.
    pub closed spec fn wf(&self) -> bool {
        &&& self.pipes@.len() == MAX_PIPES
        &&& forall|i: int| 0 <= i < MAX_PIPES ==> (#[trigger] self.pipes@[i]).wf()
    }

    /// Whether pipe `id` is in use (has an open read or write end).
    pub closed spec fn allocated(&self, id: int) -> bool {
        0 <= id < self.pipes@.len() && self.pipes@[id].spec_allocated()
    }

    /// Bytes waiting in pipe `id`, oldest first.
    pub closed spec fn contents(&self, id: int) -> Seq<u8> {
        if 0 <= id < self.pipes@.len() { self.pipes@[id].contents() } else { Seq::empty() }
    }

    /// Open read ends of pipe `id`.
    pub closed spec fn readers(&self, id: int) -> nat {
        if 0 <= id < self.pipes@.len() { self.pipes@[id].readers as nat } else { 0 }
    }

    /// Open write ends of pipe `id`.
    pub closed spec fn writers(&self, id: int) -> nat {
        if 0 <= id < self.pipes@.len() { self.pipes@[id].writers as nat } else { 0 }
    }

    /// Pipe `id` is the same in both tables.
    pub open spec fn same_pipe(&self, other: &PipeTable, id: int) -> bool {
        &&& self.allocated(id) == other.allocated(id)
        &&& self.contents(id) == other.contents(id)
        &&& self.readers(id) == other.readers(id)
        &&& self.writers(id) == other.writers(id)
    }

    /// Every pipe other than `id` is the same in both tables.
    pub open spec fn others_unchanged(&self, other: &PipeTable, id: int) -> bool {
        forall|j: int| j != id ==> #[trigger] self.same_pipe(other, j)
    }

    /// Every pipe is the same in both tables.
    pub open spec fn unchanged_from(&self, other: &PipeTable) -> bool {
        forall|j: int| #[trigger] self.same_pipe(other, j)
    }

    proof fn lemma_allocated(&self, id: int)
        requires
            self.wf(),
        ensures
            self.allocated(id) <==> (0 <= id < MAX_PIPES && (self.readers(id) > 0 || self.writers(
                id,
            ) > 0)),
    {
    }

    /// A table of unused pipes.
    pub fn new() -> (r: Self)
        ensures
            r.wf(),
            forall|id: int| !(#[trigger] r.allocated(id)),
            forall|id: int| #[trigger] r.contents(id) == Seq::<u8>::empty(),
    {
        let mut pipes: Vec<Pipe> = Vec::new();
        let mut i: usize = 0;
        while i < MAX_PIPES
            invariant
                i <= MAX_PIPES,
                pipes@.len() == i,
                forall|j: int|
                    0 <= j < i ==> (#[trigger] pipes@[j]).wf() && pipes@[j].contents() == Seq::<
                        u8,
                    >::empty() && pipes@[j].readers == 0 && pipes@[j].writers == 0,
            decreases MAX_PIPES - i,
        {
            pipes.push(Pipe::new());
            i = i + 1;
        }
        PipeTable { pipes }
    }

    /// Take the first unused pipe, open one read and one write end on it and
    /// return its ID; None when every pipe is in use.
    pub fn allocate(&mut self) -> (r: Option<u32>)
        requires
            old(self).wf(),
        ensures
            final(self).wf(),
            r is None <==> forall|j: int| 0 <= j < MAX_PIPES ==> #[trigger] old(self).allocated(j),
            r is None ==> final(self).unchanged_from(old(self)),
            r matches Some(id) ==> {
                &&& id < MAX_PIPES
                &&& !old(self).allocated(id as int)
                &&& forall|j: int| 0 <= j < id ==> #[trigger] old(self).allocated(j)
                &&& final(self).allocated(id as int)
                &&& final(self).readers(id as int) == 1
                &&& final(self).writers(id as int) == 1
                &&& final(self).contents(id as int) == Seq::<u8>::empty()
                &&& final(self).others_unchanged(old(self), id as int)
            },
    {
        let mut i: usize = 0;
        while i < MAX_PIPES
            invariant
                self.wf(),
                *self == *old(self),
                i <= MAX_PIPES,
                forall|j: int| 0 <= j < i ==> #[trigger] self.allocated(j),
            decreases MAX_PIPES - i,
        {
            if !self.pipes[i].is_allocated() {
                assert(!old(self).allocated(i as int));
                let p = &mut self.pipes[i];
                p.readers = 1;
                p.writers = 1;
                p.read_pos = 0;
                p.write_pos = 0;
                p.count = 0;
                proof {
                    assert(self.pipes@[i as int].contents() =~= Seq::<u8>::empty());
                    assert forall|j: int| j != i implies #[trigger] self.same_pipe(old(self), j) by {
                        if 0 <= j < MAX_PIPES {
                            assert(self.pipes@[j] == old(self).pipes@[j]);
                        }
                    }
                }
                return Some(i as u32);
            }
            i = i + 1;
        }
        proof {
            assert forall|j: int| #[trigger] self.same_pipe(old(self), j) by {}
        }
        None
    }

    /// Whether `pipe_id` names a pipe in use.
    pub fn is_allocated(&self, pipe_id: u32) -> (r: bool)
        requires
            self.wf(),
        ensures
            r == self.allocated(pipe_id as int),
    {
        let idx = pipe_id as usize;
        idx < MAX_PIPES && self.pipes[idx].is_allocated()
    }

    /// Close one read end of a pipe in use (no change at zero or when unused).
    pub fn close_reader(&mut self, pipe_id: u32)
        requires
            old(self).wf(),
        ensures
            final(self).wf(),
            final(self).others_unchanged(old(self), pipe_id as int),
            final(self).contents(pipe_id as int) == old(self).contents(pipe_id as int),
            final(self).writers(pipe_id as int) == old(self).writers(pipe_id as int),
            final(self).readers(pipe_id as int) == dec_floor(old(self).readers(pipe_id as int)),
            final(self).allocated(pipe_id as int) == (final(self).readers(pipe_id as int) > 0
                || final(self).writers(pipe_id as int) > 0),
    {
        let idx = pipe_id as usize;
        if idx < MAX_PIPES && self.pipes[idx].is_allocated() {
            if self.pipes[idx].readers > 0 {
                let p = &mut self.pipes[idx];
                p.readers = p.readers - 1;
            }
        }
        proof {
            assert forall|j: int| j != pipe_id implies #[trigger] self.same_pipe(old(self), j) by {
                if 0 <= j < MAX_PIPES {
                    assert(self.pipes@[j] == old(self).pipes@[j]);
                }
            }
        }
    }

    /// Open one more read end on a pipe in use (a duplicated descriptor);
    /// the count saturates at `usize::MAX`.
    pub fn add_reader(&mut self, pipe_id: u32)
        requires
            old(self).wf(),
        ensures
            final(self).wf(),
            final(self).others_unchanged(old(self), pipe_id as int),
            final(self).allocated(pipe_id as int) == old(self).allocated(pipe_id as int),
            final(self).contents(pipe_id as int) == old(self).contents(pipe_id as int),
            final(self).writers(pipe_id as int) == old(self).writers(pipe_id as int),
            old(self).allocated(pipe_id as int) && old(self).readers(pipe_id as int) < usize::MAX
                ==> final(self).readers(pipe_id as int) == old(self).readers(pipe_id as int) + 1,
            !old(self).allocated(pipe_id as int) || old(self).readers(pipe_id as int) == usize::MAX
                ==> final(self).readers(pipe_id as int) == old(self).readers(pipe_id as int),
    {
        let idx = pipe_id as usize;
        if idx < MAX_PIPES && self.pipes[idx].is_allocated() {
            let p = &mut self.pipes[idx];
            p.readers = p.readers.saturating_add(1);
        }
        proof {
            assert forall|j: int| j != pipe_id implies #[trigger] self.same_pipe(old(self), j) by {
                if 0 <= j < MAX_PIPES {
                    assert(self.pipes@[j] == old(self).pipes@[j]);
                }
            }
        }
    }

    /// Open one more write end on a pipe in use (a duplicated descriptor);
    /// the count saturates at `usize::MAX`.
    pub fn add_writer(&mut self, pipe_id: u32)
        requires
            old(self).wf(),
        ensures
            final(self).wf(),
            final(self).others_unchanged(old(self), pipe_id as int),
            final(self).allocated(pipe_id as int) == old(self).allocated(pipe_id as int),
            final(self).contents(pipe_id as int) == old(self).contents(pipe_id as int),
            final(self).readers(pipe_id as int) == old(self).readers(pipe_id as int),
            old(self).allocated(pipe_id as int) && old(self).writers(pipe_id as int) < usize::MAX
                ==> final(self).writers(pipe_id as int) == old(self).writers(pipe_id as int) + 1,
            !old(self).allocated(pipe_id as int) || old(self).writers(pipe_id as int) == usize::MAX
                ==> final(self).writers(pipe_id as int) == old(self).writers(pipe_id as int),
    {
        let idx = pipe_id as usize;
        if idx < MAX_PIPES && self.pipes[idx].is_allocated() {
            let p = &mut self.pipes[idx];
            p.writers = p.writers.saturating_add(1);
        }
        proof {
            assert forall|j: int| j != pipe_id implies #[trigger] self.same_pipe(old(self), j) by {
                if 0 <= j < MAX_PIPES {
                    assert(self.pipes@[j] == old(self).pipes@[j]);
                }
            }
        }
    }

    /// Read from the read end of pipe `pipe_id` into `buf`: -1 for a pipe
    /// not in use, 0 (end of file) when the pipe is empty and has no writer,
    /// otherwise the number of bytes moved into the front of `buf`.
    pub fn read_from(&mut self, pipe_id: u32, buf: &mut [u8]) -> (r: isize)
        requires
            old(self).wf(),
        ensures
            final(self).wf(),
            final(self).others_unchanged(old(self), pipe_id as int),
            final(self).allocated(pipe_id as int) == old(self).allocated(pipe_id as int),
            final(self).readers(pipe_id as int) == old(self).readers(pipe_id as int),
            final(self).writers(pipe_id as int) == old(self).writers(pipe_id as int),
            final(buf)@.len() == old(buf)@.len(),
            !old(self).allocated(pipe_id as int) ==> r == -1 && final(buf)@ == old(buf)@
                && final(self).contents(pipe_id as int) == old(self).contents(pipe_id as int),
            old(self).allocated(pipe_id as int) ==> {
                let c = old(self).contents(pipe_id as int);
                let n = if old(buf)@.len() < c.len() { old(buf)@.len() } else { c.len() };
                &&& (c.len() == 0 && old(self).writers(pipe_id as int) == 0) ==> r == 0
                    && final(buf)@ == old(buf)@ && final(self).contents(pipe_id as int) == c
                &&& !(c.len() == 0 && old(self).writers(pipe_id as int) == 0) ==> {
                    &&& r == n
                    &&& final(buf)@ == c.subrange(0, n as int) + old(buf)@.subrange(
                        n as int,
                        old(buf)@.len() as int,
                    )
                    &&& final(self).contents(pipe_id as int) == c.subrange(n as int, c.len() as int)
                }
            },
    {
        let idx = pipe_id as usize;
        if !(idx < MAX_PIPES && self.pipes[idx].is_allocated()) {
            assert(self.pipes@ == old(self).pipes@);
            return -1;
        }
        if self.pipes[idx].is_empty() && self.pipes[idx].writers == 0 {
            assert(self.pipes@ == old(self).pipes@);
            return 0;
        }
        let p = &mut self.pipes[idx];
        let n = p.read(buf);
        proof {
            assert forall|j: int| j != pipe_id implies #[trigger] self.same_pipe(old(self), j) by {
                if 0 <= j < MAX_PIPES {
                    assert(self.pipes@[j] == old(self).pipes@[j]);
                }
            }
        }
        n as isize
    }

    /// Write `buf` into pipe `pipe_id`: -1 for a pipe not in use or without
    /// a reader (broken pipe), otherwise the number of bytes that fitted.
    pub fn write_to(&mut self, pipe_id: u32, buf: &[u8]) -> (r: isize)
        requires
            old(self).wf(),
        ensures
            final(self).wf(),
            final(self).others_unchanged(old(self), pipe_id as int),
            final(self).allocated(pipe_id as int) == old(self).allocated(pipe_id as int),
            final(self).readers(pipe_id as int) == old(self).readers(pipe_id as int),
            final(self).writers(pipe_id as int) == old(self).writers(pipe_id as int),
            !old(self).allocated(pipe_id as int) || old(self).readers(pipe_id as int) == 0 ==> r == -1
                && final(self).contents(pipe_id as int) == old(self).contents(pipe_id as int),
            old(self).allocated(pipe_id as int) && old(self).readers(pipe_id as int) > 0 ==> {
                let c = old(self).contents(pipe_id as int);
                let space = PIPE_BUF_SIZE - c.len();
                let n = if buf@.len() < space { buf@.len() as int } else { space };
                &&& r == n
                &&& final(self).contents(pipe_id as int) == c + buf@.subrange(0, n)
            },
    {
        let idx = pipe_id as usize;
        if !(idx < MAX_PIPES && self.pipes[idx].is_allocated()) {
            assert(self.pipes@ == old(self).pipes@);
            return -1;
        }
        if self.pipes[idx].readers == 0 {
            assert(self.pipes@ == old(self).pipes@);
            return -1;
        }
        let p = &mut self.pipes[idx];
        let n = p.write(buf);
        proof {
            assert forall|j: int| j != pipe_id implies #[trigger] self.same_pipe(old(self), j) by {
                if 0 <= j < MAX_PIPES {
                    assert(self.pipes@[j] == old(self).pipes@[j]);
                }
            }
        }
        n as isize
    }

    /// Close one write end of a pipe in use (no change at zero or when unused).
    pub fn close_writer(&mut self, pipe_id: u32)
        requires
            old(self).wf(),
        ensures
            final(self).wf(),
            final(self).others_unchanged(old(self), pipe_id as int),
            final(self).contents(pipe_id as int) == old(self).contents(pipe_id as int),
            final(self).readers(pipe_id as int) == old(self).readers(pipe_id as int),
            final(self).writers(pipe_id as int) == dec_floor(old(self).writers(pipe_id as int)),
            final(self).allocated(pipe_id as int) == (final(self).readers(pipe_id as int) > 0
                || final(self).writers(pipe_id as int) > 0),
    {
        let idx = pipe_id as usize;
        if idx < MAX_PIPES && self.pipes[idx].is_allocated() {
            if self.pipes[idx].writers > 0 {
                let p = &mut self.pipes[idx];
                p.writers = p.writers - 1;
            }
        }
        proof {
            assert forall|j: int| j != pipe_id implies #[trigger] self.same_pipe(old(self), j) by {
                if 0 <= j < MAX_PIPES {
                    assert(self.pipes@[j] == old(self).pipes@[j]);
                }
            }
        }
    }
}

} // verus!

verus! {

/// Maximum number of file descriptors per process.
pub const MAX_FDS: usize = 256;
/// Lowest descriptor handed out by allocation (0-2 are the standard streams).
pub const FIRST_ALLOC_FD: usize = 3;
/// Close-on-exec descriptor flag.
pub const FD_CLOEXEC: u32 = 1;
/// Non-blocking status flag.
pub const O_NONBLOCK: u32 = 0x800;
/// Append status flag.
pub const O_APPEND: u32 = 0x400;
/// Close-on-exec flag of `pipe2`.
pub const O_CLOEXEC: usize = 0x80000;
/// fcntl: get descriptor flags.
pub const F_GETFD: usize = 1;
/// fcntl: set descriptor flags.
pub const F_SETFD: usize = 2;
/// fcntl: get status flags.
pub const F_GETFL: usize = 3;
/// fcntl: set status flags.
pub const F_SETFL: usize = 4;

/// An entry of the descriptor table.
#[derive(Debug, Clone, Copy)]
pub struct FileDescriptor {
    /// What the descriptor refers to
    pub fd_type: FdType,
    /// Descriptor flags (FD_CLOEXEC)
    pub fd_flags: u32,
    /// File status flags (O_NONBLOCK, O_APPEND, ...)
    pub status_flags: u32,
}

impl FileDescriptor {
    /// An invalid descriptor with no flags.
    pub fn new() -> (r: Self)
        ensures
            r == (FileDescriptor { fd_type: FdType::Invalid, fd_flags: 0, status_flags: 0 }),
    {
        FileDescriptor { fd_type: FdType::Invalid, fd_flags: 0, status_flags: 0 }
    }

    /// A descriptor of the given type with no flags.
    pub fn with_type(fd_type: FdType) -> (r: Self)
        ensures
            r == (FileDescriptor { fd_type, fd_flags: 0, status_flags: 0 }),
    {
        FileDescriptor { fd_type, fd_flags: 0, status_flags: 0 }
    }

    /// A descriptor of the given type and flags.
    pub fn with_flags(fd_type: FdType, fd_flags: u32, status_flags: u32) -> (r: Self)
        ensures
            r == (FileDescriptor { fd_type, fd_flags, status_flags }),
    {
        FileDescriptor { fd_type, fd_flags, status_flags }
    }
}

/// `i` is the lowest free descriptor at or above `FIRST_ALLOC_FD`.
pub open spec fn is_first_free_fd(s: Seq<Option<FileDescriptor>>, i: int) -> bool {
    &&& FIRST_ALLOC_FD <= i < s.len()
    &&& s[i] is None
    &&& forall|j: int| FIRST_ALLOC_FD <= j < i ==> #[trigger] s[j] is Some
}

/// `i` is the lowest free descriptor above `first`.
pub open spec fn is_next_free_fd(s: Seq<Option<FileDescriptor>>, first: int, i: int) -> bool {
    &&& first < i < s.len()
    &&& s[i] is None
    &&& forall|j: int| first < j < i ==> #[trigger] s[j] is Some
}

/// Every descriptor at or above `FIRST_ALLOC_FD` is in use.
pub open spec fn no_free_fd(s: Seq<Option<FileDescriptor>>) -> bool {
    forall|j: int| FIRST_ALLOC_FD <= j < s.len() ==> #[trigger] s[j] is Some
}

/// At least two descriptors at or above `FIRST_ALLOC_FD` are free.
pub open spec fn two_free_fds(s: Seq<Option<FileDescriptor>>) -> bool {
    exists|a: int, b: int| FIRST_ALLOC_FD <= a < b < s.len() && #[trigger] s[a] is None && #[trigger] s[b] is None
}

/// A process's descriptor table.
pub struct FdTable {
    fds: Vec<Option<FileDescriptor>>,
}

impl FdTable {
    /// One slot per descriptor number.
    pub closed spec fn wf(&self) -> bool {
        self.fds@.len() == MAX_FDS
    }

    /// The slots, indexed by descriptor number.
    pub closed spec fn view(&self) -> Seq<Option<FileDescriptor>> {
        self.fds@
    }

    /// The view of a well-formed table has one slot per descriptor number.
    pub proof fn lemma_len(&self)
        requires
            self.wf(),
        ensures
            self@.len() == MAX_FDS,
    {
    }

    /// A table with every descriptor closed.
    pub fn new() -> (r: Self)
        ensures
            r.wf(),
            r@.len() == MAX_FDS,
            forall|i: int| 0 <= i < MAX_FDS ==> #[trigger] r@[i] is None,
    {
        let mut fds: Vec<Option<FileDescriptor>> = Vec::new();
        let mut i: usize = 0;
        while i < MAX_FDS
            invariant
                i <= MAX_FDS,
                fds@.len() == i,
                forall|j: int| 0 <= j < i ==> #[trigger] fds@[j] is None,
            decreases MAX_FDS - i,
        {
            fds.push(None);
            i = i + 1;
        }
        FdTable { fds }
    }

    /// Open the lowest free descriptor at or above `FIRST_ALLOC_FD` with the
    /// given type and flags; None when all are in use.
    pub fn allocate_with_flags(&mut self, fd_type: FdType, fd_flags: u32, status_flags: u32) -> (r:
        Option<usize>)
        requires
            old(self).wf(),
        ensures
            final(self).wf(),
            r is None <==> no_free_fd(old(self)@),
            r is None ==> final(self)@ == old(self)@,
            r matches Some(i) ==> is_first_free_fd(old(self)@, i as int) && final(self)@ == old(
                self,
            )@.update(i as int, Some(FileDescriptor { fd_type, fd_flags, status_flags })),
    {
        let mut i: usize = FIRST_ALLOC_FD;
        while i < MAX_FDS
            invariant
                self.wf(),
                self@ == old(self)@,
                FIRST_ALLOC_FD <= i <= MAX_FDS,
                forall|j: int| FIRST_ALLOC_FD <= j < i ==> #[trigger] self@[j] is Some,
            decreases MAX_FDS - i,
        {
            if self.fds[i].is_none() {
                self.fds.set(i, Some(FileDescriptor::with_flags(fd_type, fd_flags, status_flags)));
                return Some(i);
            }
            i = i + 1;
        }
        None
    }

    /// Open the lowest free descriptor at or above `FIRST_ALLOC_FD` with the
    /// given type and no flags; None when all are in use.
    pub fn allocate(&mut self, fd_type: FdType) -> (r: Option<usize>)
        requires
            old(self).wf(),
        ensures
            final(self).wf(),
            r is None <==> no_free_fd(old(self)@),
            r is None ==> final(self)@ == old(self)@,
            r matches Some(i) ==> is_first_free_fd(old(self)@, i as int) && final(self)@ == old(
                self,
            )@.update(i as int, Some(FileDescriptor { fd_type, fd_flags: 0, status_flags: 0 })),
    {
        self.allocate_with_flags(fd_type, 0, 0)
    }

    /// Install an entry at descriptor `fd`, replacing any open one; false
    /// (and no change) when `fd` is out of range.
    pub fn allocate_at(&mut self, fd: usize, fd_type: FdType, fd_flags: u32, status_flags: u32) -> (r:
        bool)
        requires
            old(self).wf(),
        ensures
            final(self).wf(),
            r == (fd < MAX_FDS),
            r ==> final(self)@ == old(self)@.update(
                fd as int,
                Some(FileDescriptor { fd_type, fd_flags, status_flags }),
            ),
            !r ==> final(self)@ == old(self)@,
    {
        if fd >= MAX_FDS {
            return false;
        }
        if self.fds[fd].is_some() {
            self.close(fd);
        }
        self.fds.set(fd, Some(FileDescriptor::with_flags(fd_type, fd_flags, status_flags)));
        true
    }

    /// The entry of descriptor `fd`, if open.
    pub fn get(&self, fd: usize) -> (r: Option<FileDescriptor>)
        requires
            self.wf(),
        ensures
            r == (if fd < MAX_FDS { self@[fd as int] } else { None }),
    {
        if fd < MAX_FDS {
            self.fds[fd]
        } else {
            None
        }
    }

    /// Replace the entry of an open descriptor.
    fn update(&mut self, fd: usize, entry: FileDescriptor)
        requires
            old(self).wf(),
            fd < MAX_FDS,
        ensures
            final(self).wf(),
            final(self)@ == old(self)@.update(fd as int, Some(entry)),
    {
        self.fds.set(fd, Some(entry));
    }

    /// Close descriptor `fd`, returning the entry it had.
    pub fn close(&mut self, fd: usize) -> (r: Option<FileDescriptor>)
        requires
            old(self).wf(),
        ensures
            final(self).wf(),
            r == (if fd < MAX_FDS { old(self)@[fd as int] } else { None }),
            fd < MAX_FDS ==> final(self)@ == old(self)@.update(fd as int, None),
            fd >= MAX_FDS ==> final(self)@ == old(self)@,
    {
        if fd < MAX_FDS {
            let e = self.fds[fd];
            self.fds.set(fd, None);
            e
        } else {
            None
        }
    }
}

} // verus!

verus! {

/// A user buffer is non-null and lies entirely below `USER_LIMIT`.
pub open spec fn spec_valid_user_buffer(ptr: u64, len: u64) -> bool {
    ptr != 0 && ptr + len <= u64::MAX && ptr < USER_LIMIT && ptr + len <= USER_LIMIT
}

/// Check a user buffer address and length.
pub fn validate_user_buffer(ptr: u64, len: u64) -> (r: bool)
    ensures
        r == spec_valid_user_buffer(ptr, len),
{
    if ptr == 0 {
        return false;
    }
    match ptr.checked_add(len) {
        Some(end) => ptr < USER_LIMIT && end <= USER_LIMIT,
        None => false,
    }
}

/// Whether a slot holds a descriptor with close-on-exec set.
pub open spec fn is_cloexec(e: Option<FileDescriptor>) -> bool {
    e matches Some(d) && d.fd_flags & FD_CLOEXEC != 0
}

/// The slots after closing every close-on-exec descriptor.
pub open spec fn without_cloexec(s: Seq<Option<FileDescriptor>>) -> Seq<Option<FileDescriptor>> {
    Seq::new(s.len(), |i: int| if is_cloexec(s[i]) { None } else { s[i] })
}

/// PTY numbers of the close-on-exec PTY masters among the slots, in order.
pub open spec fn cloexec_ptys(s: Seq<Option<FileDescriptor>>) -> Seq<u32>
    decreases s.len(),
{
    if s.len() == 0 {
        Seq::empty()
    } else {
        let rest = cloexec_ptys(s.drop_last());
        if is_cloexec(s.last()) && s.last()->Some_0.fd_type is PtyMaster {
            rest.push(s.last()->Some_0.fd_type->PtyMaster_0)
        } else {
            rest
        }
    }
}

/// Whether a slot holds a close-on-exec read end of pipe `p`.
pub open spec fn is_cloexec_read_of(e: Option<FileDescriptor>, p: int) -> bool {
    is_cloexec(e) && (e->Some_0.fd_type matches FdType::PipeRead(q) && q == p)
}

/// Whether a slot holds a close-on-exec write end of pipe `p`.
pub open spec fn is_cloexec_write_of(e: Option<FileDescriptor>, p: int) -> bool {
    is_cloexec(e) && (e->Some_0.fd_type matches FdType::PipeWrite(q) && q == p)
}

/// Number of close-on-exec read ends of pipe `p` among the slots.
pub open spec fn cloexec_reads(s: Seq<Option<FileDescriptor>>, p: int) -> nat
    decreases s.len(),
{
    if s.len() == 0 {
        0
    } else {
        cloexec_reads(s.drop_last(), p) + if is_cloexec_read_of(s.last(), p) { 1nat } else { 0nat }
    }
}

/// Number of close-on-exec write ends of pipe `p` among the slots.
pub open spec fn cloexec_writes(s: Seq<Option<FileDescriptor>>, p: int) -> nat
    decreases s.len(),
{
    if s.len() == 0 {
        0
    } else {
        cloexec_writes(s.drop_last(), p) + if is_cloexec_write_of(s.last(), p) { 1nat } else { 0nat }
    }
}

/// `a - k`, or zero when `k` exceeds `a`.
pub open spec fn sat_sub(a: nat, k: nat) -> nat {
    if a >= k { (a - k) as nat } else { 0 }
}

/// Pipe `p` is in use exactly when it has an open end.
pub open spec fn allocation_follows_ends(t: &PipeTable, p: int) -> bool {
    t.allocated(p) <==> (0 <= p < MAX_PIPES && (t.readers(p) > 0 || t.writers(p) > 0))
}

/// Close every descriptor with close-on-exec set, closing the pipe ends they
/// held. Returns the numbers of the PTYs whose master was closed, in
/// descriptor order, for the PTY layer to release.
pub fn close_fds_with_cloexec(fds: &mut FdTable, pipes: &mut PipeTable) -> (r: Vec<u32>)
    requires
        old(fds).wf(),
        old(pipes).wf(),
    ensures
        final(fds).wf(),
        final(pipes).wf(),
        final(fds)@ == without_cloexec(old(fds)@),
        r@ == cloexec_ptys(old(fds)@),
        forall|p: int|
            {
                &&& #[trigger] final(pipes).readers(p) == sat_sub(
                    old(pipes).readers(p),
                    cloexec_reads(old(fds)@, p),
                )
                &&& final(pipes).writers(p) == sat_sub(
                    old(pipes).writers(p),
                    cloexec_writes(old(fds)@, p),
                )
                &&& final(pipes).contents(p) == old(pipes).contents(p)
                &&& allocation_follows_ends(final(pipes), p)
            },
{
    let ghost s0 = fds@;
    let mut ptys: Vec<u32> = Vec::new();
    let mut fd: usize = 0;
    proof {
        assert(s0.subrange(0, 0) =~= Seq::<Option<FileDescriptor>>::empty());
        assert forall|p: int| #[trigger] allocation_follows_ends(pipes, p) by {
            pipes.lemma_allocated(p);
        }
    }
    while fd < MAX_FDS
        invariant
            fds.wf(),
            pipes.wf(),
            s0 == old(fds)@,
            s0.len() == MAX_FDS,
            fd <= MAX_FDS,
            fds@ == without_cloexec(s0.subrange(0, fd as int)) + s0.subrange(fd as int, MAX_FDS as int),
            ptys@ == cloexec_ptys(s0.subrange(0, fd as int)),
            forall|p: int|
                #[trigger] pipes.readers(p) == sat_sub(
                    old(pipes).readers(p),
                    cloexec_reads(s0.subrange(0, fd as int), p),
                ),
            forall|p: int|
                #[trigger] pipes.writers(p) == sat_sub(
                    old(pipes).writers(p),
                    cloexec_writes(s0.subrange(0, fd as int), p),
                ),
            forall|p: int| #[trigger] pipes.contents(p) == old(pipes).contents(p),
            forall|p: int| #[trigger] allocation_follows_ends(pipes, p),
        decreases MAX_FDS - fd,
    {
        let ghost prefix = s0.subrange(0, fd as int);
        let ghost next = s0.subrange(0, fd as int + 1);
        let ghost pipes_before = *pipes;
        assert(next.drop_last() =~= prefix);
        assert(fds@[fd as int] == s0[fd as int]);
        let entry = fds.get(fd);
        match entry {
            Some(d) => {
                if d.fd_flags & FD_CLOEXEC != 0 {
                    fds.close(fd);
                    match d.fd_type {
                        FdType::PtyMaster(pty_num) => {
                            ptys.push(pty_num);
                        },
                        FdType::PipeRead(pipe_id) => {
                            pipes.close_reader(pipe_id);
                        },
                        FdType::PipeWrite(pipe_id) => {
                            pipes.close_writer(pipe_id);
                        },
                        _ => {},
                    }
                }
            },
            None => {},
        }
        proof {
            assert(fds@ =~= without_cloexec(next) + s0.subrange(fd as int + 1, MAX_FDS as int));
            assert forall|p: int|
                #![trigger pipes.readers(p)]
                #![trigger pipes.writers(p)]
                #![trigger pipes.contents(p)]
                #![trigger allocation_follows_ends(pipes, p)]
                pipes.readers(p) == sat_sub(old(pipes).readers(p), cloexec_reads(next, p))
                    && pipes.writers(p) == sat_sub(old(pipes).writers(p), cloexec_writes(next, p))
                    && pipes.contents(p) == old(pipes).contents(p)
                    && allocation_follows_ends(pipes, p) by {
                assert(pipes_before.readers(p) == sat_sub(
                    old(pipes).readers(p),
                    cloexec_reads(prefix, p),
                ));
                assert(pipes_before.writers(p) == sat_sub(
                    old(pipes).writers(p),
                    cloexec_writes(prefix, p),
                ));
                assert(pipes_before.contents(p) == old(pipes).contents(p));
                assert(allocation_follows_ends(&pipes_before, p));
                if entry is Some && is_cloexec(entry) && (entry->Some_0.fd_type is PipeRead
                    || entry->Some_0.fd_type is PipeWrite) {
                    let pid = if entry->Some_0.fd_type is PipeRead {
                        entry->Some_0.fd_type->PipeRead_0
                    } else {
                        entry->Some_0.fd_type->PipeWrite_0
                    };
                    if p != pid as int {
                        assert(pipes.same_pipe(&pipes_before, p));
                    }
                } else {
                    assert(pipes.same_pipe(&pipes_before, p));
                }
            }
        }
        fd = fd + 1;
        assert(next == s0.subrange(0, fd as int));
    }
    proof {
        assert(s0.subrange(0, MAX_FDS as int) =~= s0);
        assert(fds@ =~= without_cloexec(s0));
    }
    ptys
}

} // verus!

verus! {

/// The pipe table after closing a descriptor of type `t`: its pipe end is
/// closed and every other pipe is untouched.
pub open spec fn pipe_end_closed(new: &PipeTable, old: &PipeTable, t: FdType) -> bool {
    match t {
        FdType::PipeRead(p) => {
            &&& new.others_unchanged(old, p as int)
            &&& new.readers(p as int) == dec_floor(old.readers(p as int))
            &&& new.writers(p as int) == old.writers(p as int)
            &&& new.contents(p as int) == old.contents(p as int)
            &&& allocation_follows_ends(new, p as int)
        },
        FdType::PipeWrite(p) => {
            &&& new.others_unchanged(old, p as int)
            &&& new.writers(p as int) == dec_floor(old.writers(p as int))
            &&& new.readers(p as int) == old.readers(p as int)
            &&& new.contents(p as int) == old.contents(p as int)
            &&& allocation_follows_ends(new, p as int)
        },
        _ => new.unchanged_from(old),
    }
}

/// Close descriptor `fd`: 0 and the entry removed, or -1 (bad descriptor)
/// and no change. Closing a pipe end closes it on the pipe; closing a PTY
/// master returns its number for the PTY layer to release.
pub fn sys_close(fds: &mut FdTable, pipes: &mut PipeTable, fd: usize) -> (r: (isize, Option<u32>))
    requires
        old(fds).wf(),
        old(pipes).wf(),
    ensures
        final(fds).wf(),
        final(pipes).wf(),
        (fd >= MAX_FDS || old(fds)@[fd as int] is None) ==> r == (-1isize, None::<u32>)
            && final(fds)@ == old(fds)@ && final(pipes).unchanged_from(old(pipes)),
        (fd < MAX_FDS && old(fds)@[fd as int] is Some) ==> {
            let t = old(fds)@[fd as int]->Some_0.fd_type;
            &&& r.0 == 0
            &&& r.1 == (if t is PtyMaster { Some(t->PtyMaster_0) } else { None })
            &&& final(fds)@ == old(fds)@.update(fd as int, None)
            &&& pipe_end_closed(final(pipes), old(pipes), t)
        },
{
    match fds.close(fd) {
        Some(entry) => {
            let mut released: Option<u32> = None;
            match entry.fd_type {
                FdType::PtyMaster(pty_num) => {
                    released = Some(pty_num);
                },
                FdType::PipeRead(pipe_id) => {
                    pipes.close_reader(pipe_id);
                },
                FdType::PipeWrite(pipe_id) => {
                    pipes.close_writer(pipe_id);
                },
                _ => {},
            }
            proof {
                assert forall|j: int| #[trigger] allocation_follows_ends(pipes, j) by {
                    pipes.lemma_allocated(j);
                }
            }
            (0, released)
        },
        None => (-1, None),
    }
}

/// Result of `fcntl` on an open descriptor entry: the value returned and the
/// entry afterwards, or None for an unsupported command.
pub open spec fn spec_fcntl(e: FileDescriptor, cmd: usize, arg: usize) -> Option<(int, FileDescriptor)> {
    if cmd == F_GETFD {
        Some(((e.fd_flags as isize) as int, e))
    } else if cmd == F_SETFD {
        Some((0, FileDescriptor { fd_flags: (arg as u32) & FD_CLOEXEC, ..e }))
    } else if cmd == F_GETFL {
        Some(((e.status_flags as isize) as int, e))
    } else if cmd == F_SETFL {
        Some(
            (
                0,
                FileDescriptor {
                    status_flags: (e.status_flags & !(O_NONBLOCK | O_APPEND)) | ((arg as u32) & (
                    O_NONBLOCK | O_APPEND)),
                    ..e
                },
            ),
        )
    } else {
        None
    }
}

/// Descriptor control: get or set the descriptor flags (only close-on-exec
/// is kept) or the status flags (only non-blocking and append can change).
/// -1 for a bad descriptor or an unsupported command.
pub fn sys_fcntl(fds: &mut FdTable, fd: usize, cmd: usize, arg: usize) -> (r: isize)
    requires
        old(fds).wf(),
    ensures
        final(fds).wf(),
        (fd >= MAX_FDS || old(fds)@[fd as int] is None) ==> r == -1 && final(fds)@ == old(fds)@,
        (fd < MAX_FDS && old(fds)@[fd as int] is Some) ==> match spec_fcntl(
            old(fds)@[fd as int]->Some_0,
            cmd,
            arg,
        ) {
            Some((v, e)) => r == v && final(fds)@ == old(fds)@.update(fd as int, Some(e)),
            None => r == -1 && final(fds)@ == old(fds)@,
        },
{
    let entry = match fds.get(fd) {
        Some(e) => e,
        None => {
            return -1;
        },
    };
    if cmd == F_GETFD {
        entry.fd_flags as isize
    } else if cmd == F_SETFD {
        let flags = arg as u32 & FD_CLOEXEC;
        fds.update(fd, FileDescriptor { fd_flags: flags, ..entry });
        0
    } else if cmd == F_GETFL {
        entry.status_flags as isize
    } else if cmd == F_SETFL {
        let flags = arg as u32 & (O_NONBLOCK | O_APPEND);
        let status = (entry.status_flags & !(O_NONBLOCK | O_APPEND)) | flags;
        fds.update(fd, FileDescriptor { status_flags: status, ..entry });
        0
    } else {
        -1
    }
}

/// The pipe table after duplicating a descriptor of type `t`: one more end
/// of its pipe is open and every other pipe is untouched.
pub open spec fn pipe_end_added(new: &PipeTable, old: &PipeTable, t: FdType) -> bool {
    match t {
        FdType::PipeRead(p) => {
            &&& new.others_unchanged(old, p as int)
            &&& new.allocated(p as int) == old.allocated(p as int)
            &&& new.readers(p as int) == (if old.allocated(p as int) && old.readers(p as int)
                < usize::MAX { old.readers(p as int) + 1 } else { old.readers(p as int) })
            &&& new.writers(p as int) == old.writers(p as int)
            &&& new.contents(p as int) == old.contents(p as int)
        },
        FdType::PipeWrite(p) => {
            &&& new.others_unchanged(old, p as int)
            &&& new.allocated(p as int) == old.allocated(p as int)
            &&& new.writers(p as int) == (if old.allocated(p as int) && old.writers(p as int)
                < usize::MAX { old.writers(p as int) + 1 } else { old.writers(p as int) })
            &&& new.readers(p as int) == old.readers(p as int)
            &&& new.contents(p as int) == old.contents(p as int)
        },
        _ => new.unchanged_from(old),
    }
}

/// Make `newfd` a copy of `oldfd` (without close-on-exec), replacing what
/// `newfd` held; returns `newfd`, or -1 for a descriptor out of range or an
/// `oldfd` not open. When both are equal nothing changes.
pub fn sys_dup2(fds: &mut FdTable, pipes: &mut PipeTable, oldfd: usize, newfd: usize) -> (r: isize)
    requires
        old(fds).wf(),
        old(pipes).wf(),
    ensures
        final(fds).wf(),
        final(pipes).wf(),
        (oldfd >= MAX_FDS || newfd >= MAX_FDS || old(fds)@[oldfd as int] is None) ==> r == -1
            && final(fds)@ == old(fds)@ && final(pipes).unchanged_from(old(pipes)),
        (oldfd < MAX_FDS && newfd < MAX_FDS && old(fds)@[oldfd as int] is Some && oldfd == newfd)
            ==> r == newfd && final(fds)@ == old(fds)@ && final(pipes).unchanged_from(old(pipes)),
        (oldfd < MAX_FDS && newfd < MAX_FDS && old(fds)@[oldfd as int] is Some && oldfd != newfd)
            ==> {
            let e = old(fds)@[oldfd as int]->Some_0;
            &&& r == newfd
            &&& final(fds)@ == old(fds)@.update(
                newfd as int,
                Some(FileDescriptor { fd_type: e.fd_type, fd_flags: 0, status_flags: e.status_flags }),
            )
            &&& pipe_end_added(final(pipes), old(pipes), e.fd_type)
        },
{
    if oldfd >= MAX_FDS || newfd >= MAX_FDS {
        return -1;
    }
    if oldfd == newfd {
        if fds.get(oldfd).is_some() {
            return newfd as isize;
        } else {
            return -1;
        }
    }
    let old_entry = match fds.get(oldfd) {
        Some(entry) => entry,
        None => {
            return -1;
        },
    };
    match old_entry.fd_type {
        FdType::PipeRead(pipe_id) => {
            pipes.add_reader(pipe_id);
        },
        FdType::PipeWrite(pipe_id) => {
            pipes.add_writer(pipe_id);
        },
        _ => {},
    }
    if fds.allocate_at(newfd, old_entry.fd_type, 0, old_entry.status_flags) {
        newfd as isize
    } else {
        -1
    }
}

/// Every pipe has the same use and open ends in both tables.
pub open spec fn same_ends(a: &PipeTable, b: &PipeTable) -> bool {
    forall|j: int|
        #[trigger] a.allocated(j) == b.allocated(j) && a.readers(j) == b.readers(j) && a.writers(j)
            == b.writers(j)
}

/// `id` is the lowest pipe not in use.
pub open spec fn is_first_free_pipe(t: &PipeTable, id: int) -> bool {
    &&& 0 <= id < MAX_PIPES
    &&& !t.allocated(id)
    &&& forall|j: int| 0 <= j < id ==> #[trigger] t.allocated(j)
}

/// Descriptor flags given to both ends by `pipe2` flags.
pub open spec fn pipe2_fd_flags(flags: usize) -> u32 {
    if flags & O_CLOEXEC != 0 { FD_CLOEXEC } else { 0 }
}

/// Status flags given to both ends by `pipe2` flags.
pub open spec fn pipe2_status_flags(flags: usize) -> u32 {
    (flags as u32) & O_NONBLOCK
}

/// Create a pipe whose two descriptors are to be stored at user address
/// `pipefd_ptr`: the lowest free pipe is opened and the two lowest free
/// descriptors get its read and then its write end. Returns 0 and the two
/// descriptors, which the caller stores; or -1 and nothing when the pointer
/// is invalid, no pipe is free or fewer than two descriptors are free, in
/// which case no descriptor is taken and the pipe stays unused.
pub fn sys_pipe2(fds: &mut FdTable, pipes: &mut PipeTable, pipefd_ptr: u64, flags: usize) -> (r: (
    isize,
    Option<(usize, usize)>,
))
    requires
        old(fds).wf(),
        old(pipes).wf(),
    ensures
        final(fds).wf(),
        final(pipes).wf(),
        r.0 == 0 <==> r.1 is Some,
        r.0 == 0 || r.0 == -1,
        r.0 == 0 <==> spec_valid_user_buffer(pipefd_ptr, 8) && (exists|j: int|
            0 <= j < MAX_PIPES && !#[trigger] old(pipes).allocated(j)) && two_free_fds(old(fds)@),
        !spec_valid_user_buffer(pipefd_ptr, 8) ==> (r.0 == -1 && final(fds)@ == old(fds)@
            && final(pipes).unchanged_from(old(pipes))),
        (spec_valid_user_buffer(pipefd_ptr, 8) && forall|j: int|
            0 <= j < MAX_PIPES ==> #[trigger] old(pipes).allocated(j)) ==> r.0 == -1 && final(fds)@
            == old(fds)@ && final(pipes).unchanged_from(old(pipes)),
        r.0 == -1 ==> final(fds)@ == old(fds)@,
        r.0 == -1 ==> same_ends(final(pipes), old(pipes)),
        r.1 matches Some((rfd, wfd)) ==> {
            &&& spec_valid_user_buffer(pipefd_ptr, 8)
            &&& is_first_free_fd(old(fds)@, rfd as int)
            &&& is_next_free_fd(old(fds)@, rfd as int, wfd as int)
            &&& exists|id: u32|
                {
                    &&& #[trigger] is_first_free_pipe(old(pipes), id as int)
                    &&& final(fds)@ == old(fds)@.update(
                        rfd as int,
                        Some(
                            FileDescriptor {
                                fd_type: FdType::PipeRead(id),
                                fd_flags: pipe2_fd_flags(flags),
                                status_flags: pipe2_status_flags(flags),
                            },
                        ),
                    ).update(
                        wfd as int,
                        Some(
                            FileDescriptor {
                                fd_type: FdType::PipeWrite(id),
                                fd_flags: pipe2_fd_flags(flags),
                                status_flags: pipe2_status_flags(flags),
                            },
                        ),
                    )
                    &&& final(pipes).allocated(id as int)
                    &&& final(pipes).readers(id as int) == 1
                    &&& final(pipes).writers(id as int) == 1
                    &&& final(pipes).contents(id as int) == Seq::<u8>::empty()
                    &&& final(pipes).others_unchanged(old(pipes), id as int)
                }
        },
{
    if !validate_user_buffer(pipefd_ptr, 8) {
        return (-1, None);
    }
    let fd_flags = if flags & O_CLOEXEC != 0 { FD_CLOEXEC } else { 0 };
    let status_flags = (#[verifier::truncate] (flags as u32)) & O_NONBLOCK;
    let pipe_id = match pipes.allocate() {
        Some(id) => id,
        None => {
            assert forall|j: int| #[trigger] pipes.allocated(j) == old(pipes).allocated(j)
                && pipes.readers(j) == old(pipes).readers(j) && pipes.writers(j) == old(
                pipes,
            ).writers(j) by {
                assert(pipes.same_pipe(old(pipes), j));
            }
            return (-1, None);
        },
    };
    let ghost p1 = *pipes;
    proof {
        old(pipes).lemma_allocated(pipe_id as int);
    }
    let read_fd = match fds.allocate_with_flags(FdType::PipeRead(pipe_id), fd_flags, status_flags) {
        Some(fd) => fd,
        None => {
            proof {
                if two_free_fds(old(fds)@) {
                    let (a, b) = choose|a: int, b: int| FIRST_ALLOC_FD <= a < b < old(fds)@.len() && #[trigger] old(fds)@[a] is None && #[trigger] old(fds)@[b] is None;
                    assert(old(fds)@[a] is None);
                }
            }
            pipes.close_reader(pipe_id);
            let ghost p2 = *pipes;
            pipes.close_writer(pipe_id);
            proof {
                assert forall|j: int| #[trigger] pipes.allocated(j) == old(pipes).allocated(j)
                    && pipes.readers(j) == old(pipes).readers(j) && pipes.writers(j) == old(
                    pipes,
                ).writers(j) by {
                    pipes.lemma_allocated(j);
                    old(pipes).lemma_allocated(j);
                    if j != pipe_id as int {
                        assert(pipes.same_pipe(&p2, j));
                        assert(p2.same_pipe(&p1, j));
                        assert(p1.same_pipe(old(pipes), j));
                    }
                }
            }
            assert(same_ends(pipes, old(pipes)));
            return (-1, None);
        },
    };
    let ghost s1 = fds@;
    let write_fd = match fds.allocate_with_flags(FdType::PipeWrite(pipe_id), fd_flags, status_flags) {
        Some(fd) => fd,
        None => {
            proof {
                if two_free_fds(old(fds)@) {
                    let (a, b) = choose|a: int, b: int| FIRST_ALLOC_FD <= a < b < old(fds)@.len() && #[trigger] old(fds)@[a] is None && #[trigger] old(fds)@[b] is None;
                    if a != read_fd as int {
                        assert(s1[a] is None);
                    } else {
                        assert(s1[b] is None);
                    }
                }
            }
            fds.close(read_fd);
            pipes.close_reader(pipe_id);
            let ghost p2 = *pipes;
            pipes.close_writer(pipe_id);
            proof {
                assert(fds@ =~= old(fds)@);
                assert forall|j: int| #[trigger] pipes.allocated(j) == old(pipes).allocated(j)
                    && pipes.readers(j) == old(pipes).readers(j) && pipes.writers(j) == old(
                    pipes,
                ).writers(j) by {
                    pipes.lemma_allocated(j);
                    old(pipes).lemma_allocated(j);
                    if j != pipe_id as int {
                        assert(pipes.same_pipe(&p2, j));
                        assert(p2.same_pipe(&p1, j));
                        assert(p1.same_pipe(old(pipes), j));
                    }
                }
            }
            assert(same_ends(pipes, old(pipes)));
            return (-1, None);
        },
    };
    proof {
        assert(is_first_free_pipe(old(pipes), pipe_id as int));
        assert(s1[read_fd as int] is Some);
        if write_fd < read_fd {
            assert(old(fds)@[write_fd as int] is Some);
            assert(s1[write_fd as int] == old(fds)@[write_fd as int]);
        }
        assert forall|j: int| read_fd < j < write_fd implies #[trigger] old(fds)@[j] is Some by {
            assert(s1[j] == old(fds)@[j]);
        }
        assert(is_next_free_fd(old(fds)@, read_fd as int, write_fd as int));
        assert(old(fds)@[read_fd as int] is None && old(fds)@[write_fd as int] is None);
        assert(two_free_fds(old(fds)@));
        assert(!old(pipes).allocated(pipe_id as int));
    }
    (0, Some((read_fd, write_fd)))
}

} // verus!

verus! {

/// What a read or write on a descriptor comes to.
#[derive(Debug, Clone, Copy, PartialEq, Eq, Structural)]
pub enum FdIo {
    /// Finished here, with this return value.
    Done(isize),
    /// Write to the console (standard output and error).
    Console,
    /// Transfer on the master side of this PTY.
    PtyMaster(u32),
    /// Transfer on the slave side of this PTY.
    PtySlave(u32),
    /// Transfer on a VFS file, at its offset and with its open flags.
    Vfs { inode: u64, offset: u64, flags: u32 },
}

/// Read from descriptor `fd` into `buf` (already checked as a user buffer).
/// Pipe reads happen here; PTY and file reads are reported to the caller.
/// -1 for a bad descriptor, the write end of a pipe or a pipe not in use.
pub fn sys_read_fd(fds: &FdTable, pipes: &mut PipeTable, fd: usize, buf: &mut [u8]) -> (r: FdIo)
    requires
        fds.wf(),
        old(pipes).wf(),
    ensures
        final(pipes).wf(),
        final(buf)@.len() == old(buf)@.len(),
        old(buf)@.len() == 0 ==> r == FdIo::Done(0isize) && final(buf)@ == old(buf)@ && final(pipes).unchanged_from(old(pipes)),
        old(buf)@.len() > 0 ==> match (if fd < MAX_FDS { fds@[fd as int] } else { None }) {
            None => r == FdIo::Done(-1isize) && final(buf)@ == old(buf)@ && final(pipes).unchanged_from(old(pipes)),
            Some(e) => match e.fd_type {
                FdType::PtyMaster(n) => r == FdIo::PtyMaster(n) && final(buf)@ == old(buf)@
                    && final(pipes).unchanged_from(old(pipes)),
                FdType::PtySlave(n) => r == FdIo::PtySlave(n) && final(buf)@ == old(buf)@
                    && final(pipes).unchanged_from(old(pipes)),
                FdType::VfsFile { inode, offset, flags } => r == (FdIo::Vfs { inode, offset, flags })
                    && final(buf)@ == old(buf)@ && final(pipes).unchanged_from(old(pipes)),
                FdType::PipeRead(p) => {
                    let c = old(pipes).contents(p as int);
                    let n = if old(buf)@.len() < c.len() { old(buf)@.len() } else { c.len() };
                    &&& final(pipes).others_unchanged(old(pipes), p as int)
                    &&& final(pipes).allocated(p as int) == old(pipes).allocated(p as int)
                    &&& final(pipes).readers(p as int) == old(pipes).readers(p as int)
                    &&& final(pipes).writers(p as int) == old(pipes).writers(p as int)
                    &&& !old(pipes).allocated(p as int) ==> r == FdIo::Done(-1isize) && final(buf)@
                        == old(buf)@ && final(pipes).contents(p as int) == c
                    &&& (old(pipes).allocated(p as int) && c.len() == 0 && old(pipes).writers(
                        p as int,
                    ) == 0) ==> r == FdIo::Done(0isize) && final(buf)@ == old(buf)@ && final(pipes).contents(p as int) == c
                    &&& (old(pipes).allocated(p as int) && !(c.len() == 0 && old(pipes).writers(
                        p as int,
                    ) == 0)) ==> r == FdIo::Done(n as isize) && final(buf)@ == c.subrange(
                        0,
                        n as int,
                    ) + old(buf)@.subrange(n as int, old(buf)@.len() as int) && final(pipes).contents(p as int) == c.subrange(n as int, c.len() as int)
                },
                _ => r == FdIo::Done(-1isize) && final(buf)@ == old(buf)@ && final(pipes).unchanged_from(old(pipes)),
            },
        },
{
    if buf.len() == 0 {
        return FdIo::Done(0isize);
    }
    let entry = match fds.get(fd) {
        Some(e) => e,
        None => {
            return FdIo::Done(-1isize);
        },
    };
    match entry.fd_type {
        FdType::PtyMaster(n) => FdIo::PtyMaster(n),
        FdType::PtySlave(n) => FdIo::PtySlave(n),
        FdType::PipeRead(pipe_id) => FdIo::Done(pipes.read_from(pipe_id, buf)),
        FdType::VfsFile { inode, offset, flags } => FdIo::Vfs { inode, offset, flags },
        _ => FdIo::Done(-1isize),
    }
}

/// Write `buf` (already checked as a user buffer) to descriptor `fd`.
/// Descriptors 0 and 1 go to the console; pipe writes happen here; PTY and
/// file writes are reported to the caller. -1 for a bad descriptor, the
/// read end of a pipe, a broken pipe or a file opened read-only.
pub fn sys_write_fd(fds: &FdTable, pipes: &mut PipeTable, fd: usize, buf: &[u8]) -> (r: FdIo)
    requires
        fds.wf(),
        old(pipes).wf(),
    ensures
        final(pipes).wf(),
        buf@.len() == 0 ==> r == FdIo::Done(0isize) && final(pipes).unchanged_from(old(pipes)),
        buf@.len() > 0 && (fd == 0 || fd == 1) ==> r == FdIo::Console && final(pipes).unchanged_from(old(pipes)),
        buf@.len() > 0 && fd != 0 && fd != 1 ==> match (if fd < MAX_FDS {
            fds@[fd as int]
        } else {
            None
        }) {
            None => r == FdIo::Done(-1isize) && final(pipes).unchanged_from(old(pipes)),
            Some(e) => match e.fd_type {
                FdType::PtyMaster(n) => r == FdIo::PtyMaster(n) && final(pipes).unchanged_from(
                    old(pipes),
                ),
                FdType::PtySlave(n) => r == FdIo::PtySlave(n) && final(pipes).unchanged_from(
                    old(pipes),
                ),
                FdType::VfsFile { inode, offset, flags } => final(pipes).unchanged_from(old(pipes))
                    && r == (if flags & 3 == 0 {
                    FdIo::Done(-1isize)
                } else {
                    FdIo::Vfs { inode, offset, flags }
                }),
                FdType::PipeWrite(p) => {
                    let c = old(pipes).contents(p as int);
                    let space = PIPE_BUF_SIZE - c.len();
                    let n = if buf@.len() < space { buf@.len() as int } else { space };
                    &&& final(pipes).others_unchanged(old(pipes), p as int)
                    &&& final(pipes).allocated(p as int) == old(pipes).allocated(p as int)
                    &&& final(pipes).readers(p as int) == old(pipes).readers(p as int)
                    &&& final(pipes).writers(p as int) == old(pipes).writers(p as int)
                    &&& (!old(pipes).allocated(p as int) || old(pipes).readers(p as int) == 0) ==> r
                        == FdIo::Done(-1isize) && final(pipes).contents(p as int) == c
                    &&& (old(pipes).allocated(p as int) && old(pipes).readers(p as int) > 0) ==> r
                        == FdIo::Done(n as isize) && final(pipes).contents(p as int) == c
                        + buf@.subrange(0, n)
                },
                _ => r == FdIo::Done(-1isize) && final(pipes).unchanged_from(old(pipes)),
            },
        },
{
    if buf.len() == 0 {
        return FdIo::Done(0isize);
    }
    if fd == 0 || fd == 1 {
        return FdIo::Console;
    }
    let entry = match fds.get(fd) {
        Some(e) => e,
        None => {
            return FdIo::Done(-1isize);
        },
    };
    match entry.fd_type {
        FdType::PtyMaster(n) => FdIo::PtyMaster(n),
        FdType::PtySlave(n) => FdIo::PtySlave(n),
        FdType::PipeWrite(pipe_id) => FdIo::Done(pipes.write_to(pipe_id, buf)),
        FdType::VfsFile { inode, offset, flags } => {
            if flags & 3 == 0 {
                FdIo::Done(-1isize)
            } else {
                FdIo::Vfs { inode, offset, flags }
            }
        },
        _ => FdIo::Done(-1isize),
    }
}


/// Device information for userland.
#[derive(Debug, Clone, Copy)]
pub struct DeviceInfo {
    /// Device name (null-terminated)
    pub name: [u8; 32],
    /// Bus type (0=Platform, 1=PS2, 2=PCI, 3=Virtio)
    pub bus_type: u32,
    /// I/O base address
    pub io_base: u64,
    /// IRQ number (0xFFFFFFFF if none)
    pub irq: u32,
    /// Device state (0=Detected, 1=Initializing, 2=Active, 3=Failed, 4=Shutdown)
    pub state: u32,
    /// 1 if driver is loaded, 0 otherwise
    pub has_driver: u32,
}

/// Size in bytes of one `DeviceInfo` in user memory.
pub const DEVICE_INFO_SIZE: usize = 64;

/// Block device information for userland.
#[derive(Debug, Clone, Copy)]
pub struct BlockDeviceInfo {
    /// Total number of blocks
    pub block_count: u64,
    /// Size of each block in bytes
    pub block_size: u32,
    /// Total capacity in megabytes
    pub capacity_mb: u32,
}

/// IRQ statistics entry for userland.
#[derive(Debug, Clone, Copy)]
pub struct IrqStatsEntry {
    /// IRQ line
    pub irq: u8,
    /// Padding to the alignment of the counts
    pub _padding: [u8; 7],
    /// Interrupt count per CPU
    pub cpu_counts: [u64; 8],
}

/// Size in bytes of one `IrqStatsEntry` in user memory.
pub const IRQ_STATS_ENTRY_SIZE: usize = 72;

/// Most IRQ entries one `sys_get_irq_stats` call returns.
pub const MAX_IRQ_STATS_ENTRIES: usize = 32;

/// Number of the bus type in `DeviceInfo`.
pub open spec fn bus_type_code(b: BusType) -> u32 {
    match b {
        BusType::Platform => 0,
        BusType::PS2 => 1,
        BusType::PCI => 2,
        BusType::Virtio => 3,
    }
}

/// Number of the device state in `DeviceInfo`.
pub open spec fn device_state_code(s: DeviceState) -> u32 {
    match s {
        DeviceState::Detected => 0,
        DeviceState::Initializing => 1,
        DeviceState::Active => 2,
        DeviceState::Failed => 3,
        DeviceState::Shutdown => 4,
    }
}

/// `DeviceInfo` describes `d`: its name truncated to 31 bytes and padded
/// with zeros, and the codes of its bus, IRQ, state and driver.
pub open spec fn describes(info: DeviceInfo, d: Device) -> bool {
    let bytes = d.name.spec_bytes();
    let n = if bytes.len() < 31 { bytes.len() as int } else { 31 };
    &&& info.name@ == Seq::new(32, |i: int| if i < n { bytes[i] } else { 0u8 })
    &&& info.bus_type == bus_type_code(d.bus)
    &&& info.io_base == d.io_base
    &&& info.irq == match d.irq {
        Some(x) => x as u32,
        None => 0xFFFF_FFFFu32,
    }
    &&& info.state == device_state_code(d.state)
    &&& info.has_driver == if d.driver is Some { 1u32 } else { 0u32 }
}

/// The userland description of device `d`.
pub fn device_info(d: &Device) -> (r: DeviceInfo)
    ensures
        describes(r, *d),
{
    let bytes = d.name.as_bytes();
    let copy_len: usize = if bytes.len() < 31 { bytes.len() } else { 31 };
    let mut name: [u8; 32] = [0; 32];
    let mut i: usize = 0;
    while i < copy_len
        invariant
            copy_len <= bytes@.len(),
            copy_len <= 31,
            bytes@ == d.name.spec_bytes(),
            i <= copy_len,
            name@.len() == 32,
            forall|j: int| 0 <= j < 32 ==> #[trigger] name@[j] == if j < i { bytes@[j] } else { 0u8 },
        decreases copy_len - i,
    {
        name[i] = bytes[i];
        i = i + 1;
    }
    let bus_type: u32 = match d.bus {
        BusType::Platform => 0,
        BusType::PS2 => 1,
        BusType::PCI => 2,
        BusType::Virtio => 3,
    };
    let irq: u32 = match d.irq {
        Some(x) => x as u32,
        None => 0xFFFF_FFFF,
    };
    let state: u32 = match d.state {
        DeviceState::Detected => 0,
        DeviceState::Initializing => 1,
        DeviceState::Active => 2,
        DeviceState::Failed => 3,
        DeviceState::Shutdown => 4,
    };
    let has_driver: u32 = if d.driver.is_some() { 1 } else { 0 };
    let r = DeviceInfo { name, bus_type, io_base: d.io_base, irq, state, has_driver };
    assert(r.name@ =~= Seq::new(
        32,
        |j: int| if j < (if d.name.spec_bytes().len() < 31 { d.name.spec_bytes().len() as int } else { 31 }) {
            d.name.spec_bytes()[j]
        } else {
            0u8
        },
    ));
    r
}

/// The device list syscall: (0, nothing) when `max_devices` is 0, (-1,
/// nothing) when the user buffer for `max_devices` entries is invalid, else
/// the number of entries and the descriptions of the first `max_devices`
/// devices, for the caller to copy to `buf_ptr`.
pub fn sys_get_device_list(tree: &DeviceRegistry, buf_ptr: u64, max_devices: usize) -> (r: (isize, Vec<
    DeviceInfo,
>))
    requires
        tree.wf(),
        max_devices * DEVICE_INFO_SIZE <= usize::MAX,
    ensures
        max_devices == 0 ==> r.0 == 0 && r.1@.len() == 0,
        max_devices != 0 && !spec_valid_user_buffer(buf_ptr, (max_devices * DEVICE_INFO_SIZE) as u64) ==> r.0
            == -1 && r.1@.len() == 0,
        max_devices != 0 && spec_valid_user_buffer(buf_ptr, (max_devices * DEVICE_INFO_SIZE) as u64) ==> {
            let n = if tree@.len() < max_devices { tree@.len() as int } else { max_devices as int };
            &&& r.0 == n
            &&& r.1@.len() == n
            &&& forall|k: int| 0 <= k < n ==> describes(#[trigger] r.1@[k], tree@[k])
        },
{
    let mut out: Vec<DeviceInfo> = Vec::new();
    if max_devices == 0 {
        return (0, out);
    }
    let buf_size = max_devices * DEVICE_INFO_SIZE;
    if !validate_user_buffer(buf_ptr, buf_size as u64) {
        return (-1, out);
    }
    let devices = for_each_device(tree);
    let mut k: usize = 0;
    while k < devices.len() && k < max_devices
        invariant
            devices@ == tree@,
            tree.wf(),
            k <= devices@.len(),
            k <= max_devices,
            out@.len() == k,
            forall|j: int| 0 <= j < k ==> describes(#[trigger] out@[j], tree@[j]),
        decreases devices@.len() - k,
    {
        let info = device_info(&devices[k]);
        out.push(info);
        k = k + 1;
    }
    (k as isize, out)
}

/// The IRQ statistics syscall: (0, nothing) when `max_entries` is 0, (-1,
/// nothing) when the user buffer for `max_entries` entries is invalid, else
/// the number of entries and, for at most `MAX_IRQ_STATS_ENTRIES` lines with
/// a handler in increasing order, the line and its per-CPU counts, for the
/// caller to copy to `buf_ptr`.
pub fn sys_get_irq_stats<H: Copy>(reg: &IrqRegistry<H>, buf_ptr: u64, max_entries: usize) -> (r: (isize, Vec<
    IrqStatsEntry,
>))
    requires
        reg.wf(),
        max_entries * IRQ_STATS_ENTRY_SIZE <= usize::MAX,
    ensures
        max_entries == 0 ==> r.0 == 0 && r.1@.len() == 0,
        max_entries != 0 && !spec_valid_user_buffer(buf_ptr, (max_entries * IRQ_STATS_ENTRY_SIZE) as u64) ==> r.0
            == -1 && r.1@.len() == 0,
        max_entries != 0 && spec_valid_user_buffer(buf_ptr, (max_entries * IRQ_STATS_ENTRY_SIZE) as u64) ==> {
            let regs = registered_below(reg.handlers(), MAX_IRQS as int);
            let cap = if max_entries < MAX_IRQ_STATS_ENTRIES { max_entries as int } else { MAX_IRQ_STATS_ENTRIES as int };
            let n = if regs.len() < cap { regs.len() as int } else { cap };
            &&& r.0 == n
            &&& r.1@.len() == n
            &&& forall|k: int| 0 <= k < n ==> (#[trigger] r.1@[k]).irq == regs[k] && r.1@[k].cpu_counts@ == reg.counts(regs[k])
        },
{
    let mut out: Vec<IrqStatsEntry> = Vec::new();
    if max_entries == 0 {
        return (0, out);
    }
    let buf_size = max_entries * IRQ_STATS_ENTRY_SIZE;
    if !validate_user_buffer(buf_ptr, buf_size as u64) {
        return (-1, out);
    }
    let actual_max: usize = if max_entries > MAX_IRQ_STATS_ENTRIES { MAX_IRQ_STATS_ENTRIES } else { max_entries };
    let mut temp: Vec<(u8, [u64; 8])> = Vec::new();
    let mut i: usize = 0;
    while i < actual_max
        invariant
            i <= actual_max,
            temp@.len() == i,
        decreases actual_max - i,
    {
        temp.push((0, [0; 8]));
        i = i + 1;
    }
    let count = get_all_irq_stats(reg, temp.as_mut_slice(), actual_max);
    let mut k: usize = 0;
    while k < count
        invariant
            k <= count,
            count <= temp@.len(),
            out@.len() == k,
            forall|j: int| 0 <= j < k ==> (#[trigger] out@[j]).irq == temp@[j].0 && out@[j].cpu_counts@ == temp@[j].1@,
        decreases count - k,
    {
        let (irq, cpu_counts) = temp[k];
        out.push(IrqStatsEntry { irq, _padding: [0; 7], cpu_counts });
        k = k + 1;
    }
    (count as isize, out)
}

} // verus!

verus! {

/// Where an `open` of a path goes.
#[derive(Debug, Clone, Copy, PartialEq, Eq, Structural)]
pub enum OpenTarget {
    /// `/dev/ptmx`: allocate a new PTY pair and open its master side.
    NewPty,
    /// `/dev/pts/N`: open the slave side of PTY `N`, if it exists.
    PtySlave(u32),
    /// A `/dev/pts/` path whose rest is not a PTY number: -1.
    BadPtyNumber,
    /// Resolve through the file system: the path as given when `utf8`,
    /// otherwise the empty path.
    Vfs { utf8: bool },
}

/// The bytes of `/dev/ptmx`.
pub open spec fn ptmx_path() -> Seq<u8> {
    seq![47u8, 100u8, 101u8, 118u8, 47u8, 112u8, 116u8, 109u8, 120u8]
}

/// The bytes of `/dev/pts/`.
pub open spec fn pts_prefix() -> Seq<u8> {
    seq![47u8, 100u8, 101u8, 118u8, 47u8, 112u8, 116u8, 115u8, 47u8]
}

/// Whether a byte is an ASCII decimal digit.
pub open spec fn is_digit(b: u8) -> bool {
    48 <= b <= 57
}

/// The value of a string of decimal digits.
pub open spec fn decimal_value(s: Seq<u8>) -> nat
    decreases s.len(),
{
    if s.len() == 0 {
        0
    } else {
        decimal_value(s.drop_last()) * 10 + (s.last() - 48) as nat
    }
}

/// The digits of a number with an optional leading `+`.
pub open spec fn unsigned_digits(s: Seq<u8>) -> Seq<u8> {
    if s.len() > 0 && s[0] == 43u8 { s.drop_first() } else { s }
}

/// Parsing a decimal `u32`: an optional `+`, then at least one digit and
/// nothing else, with a value that fits.
pub open spec fn parse_u32(s: Seq<u8>) -> Option<u32> {
    let d = unsigned_digits(s);
    if d.len() > 0 && (forall|i: int| 0 <= i < d.len() ==> is_digit(#[trigger] d[i]))
        && decimal_value(d) <= u32::MAX {
        Some(decimal_value(d) as u32)
    } else {
        None
    }
}

/// Where an open of `path` goes.
pub open spec fn spec_open_target(path: Seq<u8>) -> OpenTarget {
    if !crate::sys::mount::utf8(path) {
        OpenTarget::Vfs { utf8: false }
    } else if path == ptmx_path() {
        OpenTarget::NewPty
    } else if path.len() >= 9 && path.subrange(0, 9) == pts_prefix() {
        match parse_u32(path.subrange(9, path.len() as int)) {
            Some(n) => OpenTarget::PtySlave(n),
            None => OpenTarget::BadPtyNumber,
        }
    } else {
        OpenTarget::Vfs { utf8: true }
    }
}

/// A string of digits is worth at least each of its prefixes.
proof fn lemma_decimal_prefix(s: Seq<u8>, k: int)
    requires
        0 <= k <= s.len(),
        forall|i: int| 0 <= i < s.len() ==> is_digit(#[trigger] s[i]),
    ensures
        decimal_value(s.subrange(0, k)) <= decimal_value(s),
    decreases s.len(),
{
    if k < s.len() {
        let t = s.drop_last();
        assert(t.subrange(0, k) =~= s.subrange(0, k));
        assert forall|i: int| 0 <= i < t.len() implies is_digit(#[trigger] t[i]) by {
            assert(t[i] == s[i]);
        }
        lemma_decimal_prefix(t, k);
    } else {
        assert(s.subrange(0, k) =~= s);
    }
}

/// Whether `s` begins with `p`.
fn starts_with(s: &[u8], p: &[u8]) -> (r: bool)
    ensures
        r == (p@.len() <= s@.len() && s@.subrange(0, p@.len() as int) == p@),
{
    if p.len() > s.len() {
        return false;
    }
    let mut i: usize = 0;
    while i < p.len()
        invariant
            i <= p.len() <= s.len(),
            s@.subrange(0, i as int) == p@.subrange(0, i as int),
        decreases p.len() - i,
    {
        if s[i] != p[i] {
            assert(s@.subrange(0, p@.len() as int)[i as int] != p@[i as int]);
            return false;
        }
        assert(s@.subrange(0, i + 1) =~= s@.subrange(0, i as int).push(s@[i as int]));
        assert(p@.subrange(0, i + 1) =~= p@.subrange(0, i as int).push(p@[i as int]));
        i = i + 1;
    }
    assert(p@.subrange(0, i as int) =~= p@);
    true
}

/// Parse the decimal `u32` in `s[start..]`.
fn parse_u32_from(s: &[u8], start: usize) -> (r: Option<u32>)
    requires
        start <= s@.len(),
    ensures
        r == parse_u32(s@.subrange(start as int, s@.len() as int)),
{
    let ghost full = s@.subrange(start as int, s@.len() as int);
    let mut i = start;
    if i < s.len() && s[i] == 43u8 {
        i = i + 1;
    }
    let ghost d = unsigned_digits(full);
    assert(d =~= s@.subrange(i as int, s@.len() as int));
    if i == s.len() {
        return None;
    }
    let first = i;
    let mut acc: u64 = 0;
    while i < s.len()
        invariant
            first <= i <= s@.len(),
            first < s@.len(),
            d =~= s@.subrange(first as int, s@.len() as int),
            d == unsigned_digits(full),
            full == s@.subrange(start as int, s@.len() as int),
            forall|j: int| 0 <= j < i - first ==> is_digit(#[trigger] d[j]),
            acc as nat == decimal_value(d.subrange(0, i - first)),
            acc <= u32::MAX,
        decreases s.len() - i,
    {
        let b = s[i];
        if b < 48u8 || b > 57u8 {
            assert(!is_digit(d[i - first]));
            assert(!(forall|j: int| 0 <= j < d.len() ==> is_digit(#[trigger] d[j])));
            assert(parse_u32(full) is None);
            return None;
        }
        let ghost p = d.subrange(0, i - first + 1);
        assert(p.drop_last() =~= d.subrange(0, i - first));
        assert(p.last() == b);
        let next: u64 = acc * 10 + (b - 48u8) as u64;
        if next > 4294967295u64 {
            assert(decimal_value(p) == next);
            proof {
                if forall|j: int| 0 <= j < d.len() ==> is_digit(#[trigger] d[j]) {
                    lemma_decimal_prefix(d, i - first + 1);
                }
            }
            assert(parse_u32(full) is None);
            return None;
        }
        acc = next;
        i = i + 1;
    }
    assert(d.subrange(0, i - first) =~= d);
    Some(acc as u32)
}

/// Classify the path of an `open` (the bytes read up to the terminating
/// NUL): `/dev/ptmx`, a `/dev/pts/` slave with its number, or a path for
/// the file system; bytes that are not UTF-8 stand for the empty path.
pub fn open_target(path: &[u8]) -> (r: OpenTarget)
    ensures
        r == spec_open_target(path@),
{
    if !crate::sys::mount::is_utf8(path) {
        return OpenTarget::Vfs { utf8: false };
    }
    let ptmx: Vec<u8> = vec![47u8, 100u8, 101u8, 118u8, 47u8, 112u8, 116u8, 109u8, 120u8];
    let pts: Vec<u8> = vec![47u8, 100u8, 101u8, 118u8, 47u8, 112u8, 116u8, 115u8, 47u8];
    assert(ptmx@ == ptmx_path());
    assert(pts@ == pts_prefix());
    if path.len() == 9 && starts_with(path, ptmx.as_slice()) {
        assert(path@.subrange(0, 9) =~= path@);
        return OpenTarget::NewPty;
    }
    if path.len() == 9 {
        assert(path@.subrange(0, 9) =~= path@);
    }
    if starts_with(path, pts.as_slice()) {
        match parse_u32_from(path, 9) {
            Some(n) => OpenTarget::PtySlave(n),
            None => OpenTarget::BadPtyNumber,
        }
    } else {
        OpenTarget::Vfs { utf8: true }
    }
}


/// Setting the descriptor flags and reading them back: F_SETFD answers 0
/// and keeps only close-on-exec, the lowest bit of its argument; a
/// following F_GETFD answers exactly that bit; nothing else about the
/// descriptor changes.
pub proof fn lemma_fcntl_set_then_get(e: FileDescriptor, arg: usize, other: usize)
    ensures
        spec_fcntl(e, F_SETFD, arg) is Some,
        ({
            let (r1, e1) = spec_fcntl(e, F_SETFD, arg).unwrap();
            &&& r1 == 0
            &&& e1.fd_flags == (arg as u32) % 2
            &&& e1.fd_type == e.fd_type
            &&& e1.status_flags == e.status_flags
            &&& spec_fcntl(e1, F_GETFD, other) == Some((((arg as u32) % 2) as int, e1))
        }),
{
    let x = arg as u32;
    vstd::bits::lemma_u32_low_bits_mask_is_mod(x, 1);
    vstd::bits::lemma_low_bits_mask_values();
    vstd::arithmetic::power2::lemma2_to64();
    assert(x & FD_CLOEXEC == x % 2);
}

} // verus!
