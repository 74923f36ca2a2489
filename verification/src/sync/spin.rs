//! Spin locks as a state machine: a lock is either free or held, and the holder
//! gets a guard that gives the lock back.
use vstd::prelude::*;

verus! {

/// A value protected by a flag that is set while the lock is held.
pub struct SpinLock<T> {
    locked: bool,
    data: T,
}

/// Proof that the holder acquired the lock.
pub struct SpinLockGuard {
    _held: (),
}

impl<T> SpinLock<T> {
    /// Whether the lock is held.
    pub closed spec fn spec_locked(&self) -> bool {
        self.locked
    }

    /// The protected value.
    pub closed spec fn spec_data(&self) -> T {
        self.data
    }

    /// Create an unlocked spin lock.
    pub fn new(data: T) -> (r: Self)
        ensures
            !r.spec_locked(),
            r.spec_data() == data,
    {
        SpinLock { locked: false, data }
    }

    /// Acquire the lock (it must be free: a held lock would spin forever here).
    pub fn lock(&mut self) -> (g: SpinLockGuard)
        requires
            !old(self).spec_locked(),
        ensures
            final(self).spec_locked(),
            final(self).spec_data() == old(self).spec_data(),
    {
        self.locked = true;
        SpinLockGuard { _held: () }
    }

    /// Acquire the lock if it is free.
    pub fn try_lock(&mut self) -> (g: Option<SpinLockGuard>)
        ensures
            g is Some == !old(self).spec_locked(),
            final(self).spec_locked(),
            final(self).spec_data() == old(self).spec_data(),
    {
        if self.locked {
            None
        } else {
            self.locked = true;
            Some(SpinLockGuard { _held: () })
        }
    }

    /// Release the lock.
    pub fn unlock(&mut self, guard: SpinLockGuard)
        requires
            old(self).spec_locked(),
        ensures
            !final(self).spec_locked(),
            final(self).spec_data() == old(self).spec_data(),
    {
        self.locked = false;
    }

    /// Whether the lock is held.
    pub fn is_locked(&self) -> (r: bool)
        ensures
            r == self.spec_locked(),
    {
        self.locked
    }

    /// Read the protected value while holding the lock.
    pub fn get(&self, guard: &SpinLockGuard) -> (r: &T)
        requires
            self.spec_locked(),
        ensures
            *r == self.spec_data(),
    {
        &self.data
    }

    /// Replace the protected value while holding the lock.
    pub fn set(&mut self, guard: &SpinLockGuard, data: T)
        requires
            old(self).spec_locked(),
        ensures
            final(self).spec_locked(),
            final(self).spec_data() == data,
    {
        self.data = data;
    }

    /// Consume the lock and return the value.
    pub fn into_inner(self) -> (r: T)
        ensures
            r == self.spec_data(),
    {
        self.data
    }
}

/// A spin lock that also saves the interrupt flags of the holder.
pub struct IrqSpinLock<T> {
    inner: SpinLock<T>,
}

/// Guard of an `IrqSpinLock`: the inner guard and the saved RFLAGS.
pub struct IrqSpinLockGuard {
    guard: SpinLockGuard,
    flags: u64,
}

impl IrqSpinLockGuard {
    /// The saved RFLAGS value.
    pub closed spec fn spec_flags(&self) -> u64 {
        self.flags
    }

    /// The RFLAGS value to restore on release.
    pub fn flags(&self) -> (r: u64)
        ensures
            r == self.spec_flags(),
    {
        self.flags
    }
}

impl<T> IrqSpinLock<T> {
    /// The protected value.
    pub closed spec fn spec_data(&self) -> T {
        self.inner.spec_data()
    }

    /// Whether the lock is held.
    pub closed spec fn spec_locked(&self) -> bool {
        self.inner.spec_locked()
    }

    /// Create an unlocked IRQ-safe spin lock.
    pub fn new(data: T) -> (r: Self)
        ensures
            !r.spec_locked(),
            r.spec_data() == data,
    {
        IrqSpinLock { inner: SpinLock::new(data) }
    }

    /// Acquire the lock; `flags` is the RFLAGS value saved before interrupts were disabled.
    pub fn lock(&mut self, flags: u64) -> (g: IrqSpinLockGuard)
        requires
            !old(self).spec_locked(),
        ensures
            final(self).spec_locked(),
            final(self).spec_data() == old(self).spec_data(),
            g.spec_flags() == flags,
    {
        let guard = self.inner.lock();
        IrqSpinLockGuard { guard, flags }
    }

    /// Release the lock; returns the RFLAGS value to restore.
    pub fn unlock(&mut self, guard: IrqSpinLockGuard) -> (r: u64)
        requires
            old(self).spec_locked(),
        ensures
            !final(self).spec_locked(),
            final(self).spec_data() == old(self).spec_data(),
            r == guard.spec_flags(),
    {
        let flags = guard.flags;
        self.inner.unlock(guard.guard);
        flags
    }

    /// Consume the lock and return the value.
    pub fn into_inner(self) -> (r: T)
        ensures
            r == self.spec_data(),
    {
        self.inner.into_inner()
    }
}

} // verus!
