//! The kernel spin lock with an owner: a lock records the CPU that holds it, so that a
//! CPU can ask whether it holds a lock, and may not take a lock it already holds.
use vstd::prelude::*;

verus! {

/// Owner value of a lock that no CPU holds.
pub const NO_OWNER: usize = usize::MAX;

pub struct SpinLock {
    locked: bool,
    owner: usize,
    handoff_pending: bool,
}

/// Held while a CPU holds the lock; it names that CPU.
pub struct SpinGuard {
    cpu: usize,
}

impl SpinGuard {
    pub closed spec fn cpu(&self) -> usize {
        self.cpu
    }
}

impl SpinLock {
    pub closed spec fn locked_spec(&self) -> bool {
        self.locked
    }

    pub closed spec fn owner_spec(&self) -> usize {
        self.owner
    }

    /// A guard was handed off at a switch and not yet taken back.
    pub closed spec fn pending_spec(&self) -> bool {
        self.handoff_pending
    }

    /// What a hand-off at a switch needs: interrupts off, exactly one level of
    /// interrupt nesting, and the lock held by the CPU `cpu` that switches.
    pub open spec fn can_switch_owner(&self, cpu: usize, irq_enabled: bool, depth: usize) -> bool {
        &&& !irq_enabled
        &&& depth == 1
        &&& self.locked_spec()
        &&& self.owner_spec() == cpu
    }

    /// Well formed: the owner is recorded exactly while the lock is held.
    pub closed spec fn wf(&self) -> bool {
        self.locked <==> self.owner != NO_OWNER
    }

    /// A free lock.
    pub fn init() -> (r: SpinLock)
        ensures
            r.wf(),
            !r.locked_spec(),
            !r.pending_spec(),
    {
        SpinLock { locked: false, owner: NO_OWNER, handoff_pending: false }
    }

    /// Whether CPU `cpu` holds the lock.
    pub fn holding(&self, cpu: usize) -> (r: bool)
        requires
            self.wf(),
        ensures
            r == (self.locked_spec() && self.owner_spec() == cpu),
    {
        self.locked && self.owner == cpu
    }

    /// CPU `cpu` takes the lock. It must not hold it already, and on one CPU the lock
    /// must be free: nobody would release it while the taker spins.
    pub fn lock(&mut self, cpu: usize) -> (g: SpinGuard)
        requires
            old(self).wf(),
            !old(self).locked_spec(),
            cpu != NO_OWNER,
        ensures
            final(self).wf(),
            final(self).locked_spec(),
            final(self).owner_spec() == cpu,
            final(self).pending_spec() == old(self).pending_spec(),
            g.cpu() == cpu,
    {
        self.locked = true;
        self.owner = cpu;
        SpinGuard { cpu }
    }

    /// Releases the lock that `g` holds.
    pub fn unlock(&mut self, g: SpinGuard)
        requires
            old(self).wf(),
            old(self).locked_spec(),
            old(self).owner_spec() == g.cpu(),
        ensures
            final(self).wf(),
            !final(self).locked_spec(),
            final(self).pending_spec() == old(self).pending_spec(),
    {
        self.locked = false;
        self.owner = NO_OWNER;
    }
}

impl SpinLock {
    /// Whether the lock can change hands at a switch on CPU `cpu`, given the interrupt
    /// state and nesting depth of that CPU.
    fn check_switch_owner(&self, cpu: usize, irq_enabled: bool, depth: usize) -> (r: bool)
        ensures
            r == self.can_switch_owner(cpu, irq_enabled, depth),
    {
        !irq_enabled && depth == 1 && self.locked && self.owner == cpu
    }

    /// Gives up the guard `g` at a switch without unlocking: the lock stays held and
    /// the flow switched to takes it over with [`SpinLock::resume`].
    pub fn handoff(&mut self, g: SpinGuard, irq_enabled: bool, depth: usize)
        requires
            old(self).wf(),
            old(self).can_switch_owner(g.cpu(), irq_enabled, depth),
            !old(self).pending_spec(),
        ensures
            final(self).wf(),
            final(self).locked_spec() == old(self).locked_spec(),
            final(self).owner_spec() == old(self).owner_spec(),
            final(self).pending_spec(),
    {
        let ok = self.check_switch_owner(g.cpu, irq_enabled, depth);
        proof {
            assert(ok);
        }
        self.handoff_pending = true;
    }

    /// Takes over, on CPU `cpu`, the lock that a flow handed off at the switch.
    pub fn resume(&mut self, cpu: usize, irq_enabled: bool, depth: usize) -> (g: SpinGuard)
        requires
            old(self).wf(),
            old(self).can_switch_owner(cpu, irq_enabled, depth),
            old(self).pending_spec(),
        ensures
            final(self).wf(),
            final(self).locked_spec() == old(self).locked_spec(),
            final(self).owner_spec() == old(self).owner_spec(),
            !final(self).pending_spec(),
            g.cpu() == cpu,
    {
        let ok = self.check_switch_owner(cpu, irq_enabled, depth);
        proof {
            assert(ok);
        }
        self.handoff_pending = false;
        SpinGuard { cpu }
    }
}

impl SpinGuard {
    /// The CPU holding the lock through this guard.
    pub fn lock_ref(&self) -> (r: usize)
        ensures
            r == self.cpu(),
    {
        self.cpu
    }
}

}
