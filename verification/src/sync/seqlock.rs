//! Sequence lock: readers check an even, unchanged sequence number around a read;
//! a writer makes the number odd while it writes and even again afterwards.
use vstd::prelude::*;

verus! {

/// A value protected by a sequence number (odd while a write is in progress).
pub struct SeqLock<T> {
    seq: usize,
    data: T,
}

/// Permission to write, handed out by `write` and returned to `end_write`.
pub struct SeqLockWriteGuard {
    seq: usize,
}

impl SeqLockWriteGuard {
    /// The (odd) sequence number the write holds.
    pub closed spec fn spec_seq(&self) -> usize {
        self.seq
    }
}

impl<T> SeqLock<T> {
    /// The current sequence number.
    pub closed spec fn spec_seq(&self) -> usize {
        self.seq
    }

    /// The protected value.
    pub closed spec fn spec_data(&self) -> T {
        self.data
    }

    /// Whether a write is in progress.
    pub open spec fn writing(&self) -> bool {
        self.spec_seq() % 2 == 1
    }

    /// Create a seqlock holding `data` with sequence number 0.
    pub fn new(data: T) -> (r: Self)
        ensures
            r.spec_seq() == 0,
            r.spec_data() == data,
    {
        SeqLock { seq: 0, data }
    }

    /// Read through `f` while no write is in progress.
    pub fn read<R, F: Fn(&T) -> R>(&self, f: F) -> (r: R)
        requires
            !self.writing(),
            f.requires((&self.spec_data(),)),
        ensures
            f.ensures((&self.spec_data(),), r),
    {
        f(&self.data)
    }

    /// Read once; None when a write is in progress.
    pub fn try_read<R, F: Fn(&T) -> R>(&self, f: F) -> (r: Option<R>)
        requires
            f.requires((&self.spec_data(),)),
        ensures
            self.writing() ==> r is None,
            !self.writing() ==> (r matches Some(v) && f.ensures((&self.spec_data(),), v)),
    {
        if self.seq % 2 != 0 {
            return None;
        }
        Some(f(&self.data))
    }

    /// Begin a write: the sequence number becomes odd.
    pub fn write(&mut self) -> (g: SeqLockWriteGuard)
        requires
            !old(self).writing(),
            old(self).spec_seq() < usize::MAX,
        ensures
            final(self).spec_seq() == old(self).spec_seq() + 1,
            final(self).spec_data() == old(self).spec_data(),
            g.spec_seq() == final(self).spec_seq(),
    {
        self.seq = self.seq + 1;
        SeqLockWriteGuard { seq: self.seq }
    }

    /// Begin a write unless one is in progress.
    pub fn try_write(&mut self) -> (g: Option<SeqLockWriteGuard>)
        requires
            old(self).spec_seq() < usize::MAX,
        ensures
            old(self).writing() ==> g is None && *final(self) == *old(self),
            !old(self).writing() ==> (g matches Some(gd) && final(self).spec_seq() == old(self).spec_seq() + 1
                && gd.spec_seq() == final(self).spec_seq()
                && final(self).spec_data() == old(self).spec_data()),
    {
        if self.seq % 2 != 0 {
            return None;
        }
        self.seq = self.seq + 1;
        Some(SeqLockWriteGuard { seq: self.seq })
    }

    /// Store a new value during a write.
    pub fn set(&mut self, guard: &SeqLockWriteGuard, data: T)
        requires
            guard.spec_seq() == old(self).spec_seq(),
        ensures
            final(self).spec_seq() == old(self).spec_seq(),
            final(self).spec_data() == data,
    {
        self.data = data;
    }

    /// Finish a write: the sequence number becomes even again.
    pub fn end_write(&mut self, guard: SeqLockWriteGuard)
        requires
            guard.spec_seq() == old(self).spec_seq(),
            old(self).writing(),
            old(self).spec_seq() < usize::MAX,
        ensures
            final(self).spec_seq() == guard.spec_seq() + 1,
            !final(self).writing(),
            final(self).spec_data() == old(self).spec_data(),
    {
        self.seq = guard.seq + 1;
    }
}

} // verus!
