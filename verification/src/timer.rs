//! The timer interrupt's bookkeeping: when the next interrupt is due, and how many a
//! CPU has taken.
use vstd::prelude::*;
use crate::console::{ascii, digits, print_dec, push_ascii};

verus! {

/// Interrupts taken by one CPU since it started.
pub struct Ticks {
    count: u64,
}

impl Ticks {
    pub closed spec fn count(&self) -> u64 {
        self.count
    }
}

/// The deadline that arms a CPU's first timer interrupt: `interval` after `now`, on the
/// wrapping time counter. The tick ledger starts at zero.
pub fn timer_create(now: u64, interval: u64) -> (r: (u64, Ticks))
    ensures
        r.0 == (now + interval) % 0x1_0000_0000_0000_0000,
        r.1.count() == 0,
{
    (now.wrapping_add(interval), Ticks { count: 0 })
}

/// Counts one timer interrupt and returns the total, this one included.
pub fn timer_tick(t: &mut Ticks) -> (n: u64)
    ensures
        final(t).count() == (old(t).count() + 1) % 0x1_0000_0000_0000_0000,
        n == final(t).count(),
{
    t.count = t.count.wrapping_add(1);
    t.count
}

/// Interrupts taken so far.
pub fn timer_ticks(t: &Ticks) -> (n: u64)
    ensures
        n == t.count(),
{
    t.count
}

/// Whether the periodic report is due: every `period` ticks, never for period 0 or
/// before the first tick.
pub fn timer_maybe_report(t: &Ticks, period: u64) -> (r: bool)
    ensures
        r == (period != 0 && t.count() != 0 && t.count() % period == 0),
{
    if period == 0 {
        return false;
    }
    let n = t.count;
    n != 0 && n % period == 0
}


/// The text that follows the CPU number in a tick report: the count, the time counter
/// `now` and the interval, each in decimal.
pub open spec fn ticks_body_text(count: u64, now: u64, interval: u64) -> Seq<u8> {
    ascii(": "@) + digits((count as usize) as nat, 10) + ascii(" ticks (t="@)
        + digits((now as usize) as nat, 10) + ascii(", interval="@)
        + digits((interval as usize) as nat, 10) + ascii(")\n"@)
}

/// The part of a tick report after the CPU number.
pub fn print_ticks_body(t: &Ticks, now: u64, interval: u64) -> (r: Vec<u8>)
    ensures
        r@ == ticks_body_text(t.count(), now, interval),
{
    proof {
        reveal_strlit(": ");
        reveal_strlit(" ticks (t=");
        reveal_strlit(", interval=");
        reveal_strlit(")\n");
    }
    let mut out: Vec<u8> = Vec::new();
    push_ascii(&mut out, ": ");
    out.append(&mut print_dec(t.count as usize));
    push_ascii(&mut out, " ticks (t=");
    out.append(&mut print_dec(now as usize));
    push_ascii(&mut out, ", interval=");
    out.append(&mut print_dec(interval as usize));
    push_ascii(&mut out, ")\n");
    out
}

/// The line that reports the ticks of CPU `hart`, one line so that reports of several
/// CPUs stay apart.
pub fn timer_print_ticks(hart: usize, t: &Ticks, now: u64, interval: u64) -> (r: Vec<u8>)
    ensures
        r@ == ascii("[oslab-rs] hart "@) + digits(hart as nat, 10) + ticks_body_text(t.count(), now, interval),
{
    proof {
        reveal_strlit("[oslab-rs] hart ");
    }
    let mut out: Vec<u8> = Vec::new();
    push_ascii(&mut out, "[oslab-rs] hart ");
    out.append(&mut print_dec(hart));
    out.append(&mut print_ticks_body(t, now, interval));
    out
}

}
