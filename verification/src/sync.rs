//! Kernel locks: a spin lock that turns interrupts off while held and restores them on
//! release, and a sleep lock built on it. The CPU's interrupt-enable flag is passed in
//! and out as `irq`.
use vstd::prelude::*;

verus! {

/// A spin lock: whether it is held, and whether interrupts were on when it was taken.
pub struct SpinLock {
    locked: bool,
    intena: bool,
}

impl SpinLock {
    pub closed spec fn held(&self) -> bool {
        self.locked
    }

    /// Whether interrupts are turned back on when the lock is released.
    pub closed spec fn restores(&self) -> bool {
        self.intena
    }

    /// A free lock.
    pub fn new() -> (r: SpinLock)
        ensures
            !r.held(),
            !r.restores(),
    {
        SpinLock { locked: false, intena: false }
    }

    /// Turns interrupts off, remembering whether they were on, and takes the lock, which
    /// must be free (a taker spinning on one CPU would wait forever).
    pub fn lock(&mut self, irq: &mut bool)
        requires
            !old(self).held(),
        ensures
            final(self).held(),
            final(self).restores() == *old(irq),
            *final(irq) == false,
    {
        let was_enabled = *irq;
        *irq = false;
        self.intena = was_enabled;
        self.locked = true;
    }

    /// Releases the lock and turns interrupts back on if they were on when it was taken.
    pub fn unlock(&mut self, irq: &mut bool)
        ensures
            !final(self).held(),
            final(self).restores() == old(self).restores(),
            *final(irq) == (old(self).restores() || *old(irq)),
    {
        self.locked = false;
        if self.intena {
            *irq = true;
        }
    }

    /// Takes the lock if it is free, as `lock` does; otherwise leaves the lock and the
    /// interrupt flag as they were. Returns whether it took the lock.
    pub fn try_lock(&mut self, irq: &mut bool) -> (ok: bool)
        ensures
            ok == !old(self).held(),
            final(self).held(),
            ok ==> final(self).restores() == *old(irq) && *final(irq) == false,
            !ok ==> *final(self) == *old(self) && *final(irq) == *old(irq),
    {
        let was_enabled = *irq;
        *irq = false;
        if !self.locked {
            self.locked = true;
            self.intena = was_enabled;
            true
        } else {
            if was_enabled {
                *irq = true;
            }
            false
        }
    }

    /// Whether the lock is held.
    pub fn is_locked(&self) -> (r: bool)
        ensures
            r == self.held(),
    {
        self.locked
    }
}

/// Taking a spin lock and then releasing it leaves the interrupt flag as it was before:
/// `s1` and `irq1` are what `lock` leaves from `irq0`, `irq2` what `unlock` then leaves.
pub proof fn lemma_unlock_restores_irq(s1: SpinLock, irq0: bool, irq1: bool, irq2: bool)
    requires
        s1.held(),
        s1.restores() == irq0,
        irq1 == false,
        irq2 == (s1.restores() || irq1),
    ensures
        irq2 == irq0,
{
}

/// A lock that a process waits for by sleeping: a spin lock guards the `held` flag.
pub struct SleepLock {
    locked: SpinLock,
    held: bool,
}

impl SleepLock {
    pub closed spec fn held(&self) -> bool {
        self.held
    }

    pub closed spec fn guard_free(&self) -> bool {
        !self.locked.locked
    }

    /// A free sleep lock.
    pub fn new() -> (r: SleepLock)
        ensures
            !r.held(),
            r.guard_free(),
    {
        SleepLock { locked: SpinLock::new(), held: false }
    }

    /// One attempt to take the lock: takes it if it is free and returns true; returns
    /// false if another holds it, and the caller then sleeps until `unlock` wakes it and
    /// tries again. The interrupt flag is as it was afterwards.
    pub fn lock(&mut self, irq: &mut bool) -> (ok: bool)
        requires
            old(self).guard_free(),
        ensures
            ok == !old(self).held(),
            final(self).held(),
            final(self).guard_free(),
            *final(irq) == *old(irq),
    {
        self.locked.lock(irq);
        if !self.held {
            self.held = true;
            self.locked.unlock(irq);
            return true;
        }
        self.locked.unlock(irq);
        false
    }

    /// Releases the lock; the caller then wakes the processes sleeping on it.
    pub fn unlock(&mut self, irq: &mut bool)
        requires
            old(self).guard_free(),
        ensures
            !final(self).held(),
            final(self).guard_free(),
            *final(irq) == *old(irq),
    {
        self.locked.lock(irq);
        self.held = false;
        self.locked.unlock(irq);
    }
}

}
