//! The system clock: ticks counted by the boot CPU, one per timer interrupt; the other
//! CPUs only re-arm their timers.
use vstd::prelude::*;

verus! {

pub struct SystemTimer {
    ticks: usize,
}

impl SystemTimer {
    pub closed spec fn ticks_spec(&self) -> usize {
        self.ticks
    }
}

/// A clock at zero ticks.
pub fn create() -> (r: SystemTimer)
    ensures
        r.ticks_spec() == 0,
{
    SystemTimer { ticks: 0 }
}

/// Counts one tick.
pub fn update(t: &mut SystemTimer)
    ensures
        final(t).ticks_spec() == if old(t).ticks_spec() == usize::MAX { 0 } else { (old(t).ticks_spec() + 1) as usize },
{
    t.ticks = t.ticks.wrapping_add(1);
}

/// Ticks counted so far.
pub fn ticks(t: &SystemTimer) -> (n: usize)
    ensures
        n == t.ticks_spec(),
{
    t.ticks
}

/// A timer interrupt on a CPU: the caller re-arms the CPU's timer; only the boot CPU
/// counts the tick.
pub fn tick(t: &mut SystemTimer, is_boot_cpu: bool)
    ensures
        is_boot_cpu ==> final(t).ticks_spec() == if old(t).ticks_spec() == usize::MAX { 0 } else { (old(t).ticks_spec() + 1) as usize },
        !is_boot_cpu ==> *final(t) == *old(t),
{
    if is_boot_cpu {
        update(t);
    }
}

}
