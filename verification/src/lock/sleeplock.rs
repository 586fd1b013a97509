//! The sleep lock: held by a process, which may sleep while holding it; others who want
//! it sleep until it is released.
use vstd::prelude::*;

verus! {

pub struct SleepLock {
    held: bool,
    pid: usize,
}

/// Held while a process holds the sleep lock; it names that process.
pub struct SleepGuard {
    pid: usize,
}

impl SleepGuard {
    pub closed spec fn pid(&self) -> usize {
        self.pid
    }
}

impl SleepLock {
    pub closed spec fn held_spec(&self) -> bool {
        self.held
    }

    pub closed spec fn pid_spec(&self) -> usize {
        self.pid
    }

    /// A free sleep lock.
    pub fn init() -> (r: SleepLock)
        ensures
            !r.held_spec(),
    {
        SleepLock { held: false, pid: 0 }
    }

    /// Whether process `pid` holds the lock.
    pub fn holding(&self, pid: usize) -> (r: bool)
        ensures
            r == (self.held_spec() && self.pid_spec() == pid),
    {
        self.held && self.pid == pid
    }

    /// One attempt by process `pid` to take the lock: the guard if the lock was free,
    /// otherwise `None`, and the caller sleeps on the lock and tries again when woken.
    pub fn lock(&mut self, pid: usize) -> (g: Option<SleepGuard>)
        ensures
            g is Some <==> !old(self).held_spec(),
            g matches Some(x) ==> x.pid() == pid && final(self).pid_spec() == pid,
            g is None ==> *final(self) == *old(self),
            final(self).held_spec(),
    {
        if self.held {
            return None;
        }
        self.held = true;
        self.pid = pid;
        Some(SleepGuard { pid })
    }

    /// Releases the lock held through `g`; the caller then wakes its sleepers.
    pub fn unlock(&mut self, g: SleepGuard)
        requires
            old(self).held_spec(),
            old(self).pid_spec() == g.pid(),
        ensures
            !final(self).held_spec(),
    {
        self.held = false;
        self.pid = 0;
    }
}

}
