//! The registers saved when a process is switched out: those the calling convention
//! keeps across a call (s0..s11), plus the stack pointer and the return address.
use vstd::prelude::*;

verus! {

/// Saved registers of a switched-out process.
#[derive(Clone, Copy)]
pub struct Context {
    pub ra: usize,
    pub sp: usize,
    pub s0: usize,
    pub s1: usize,
    pub s2: usize,
    pub s3: usize,
    pub s4: usize,
    pub s5: usize,
    pub s6: usize,
    pub s7: usize,
    pub s8: usize,
    pub s9: usize,
    pub s10: usize,
    pub s11: usize,
}

/// Every callee-saved register of `c` is zero.
pub open spec fn saved_zero(c: Context) -> bool {
    c.s0 == 0 && c.s1 == 0 && c.s2 == 0 && c.s3 == 0 && c.s4 == 0 && c.s5 == 0 && c.s6 == 0
        && c.s7 == 0 && c.s8 == 0 && c.s9 == 0 && c.s10 == 0 && c.s11 == 0
}

impl Context {
    /// A context of zeros: a process that has not run yet.
    pub fn zeroed() -> (c: Context)
        ensures
            c.ra == 0,
            c.sp == 0,
            saved_zero(c),
    {
        Context { ra: 0, sp: 0, s0: 0, s1: 0, s2: 0, s3: 0, s4: 0, s5: 0, s6: 0, s7: 0, s8: 0, s9: 0, s10: 0, s11: 0 }
    }

    /// The context a new process is first switched to: as if it had been switched out
    /// just before `entry`, on its own kernel stack.
    pub fn new(entry: usize, kernel_stack_top: usize) -> (c: Context)
        ensures
            c.ra == entry,
            c.sp == kernel_stack_top,
            saved_zero(c),
    {
        let mut c = Context::zeroed();
        c.ra = entry;
        c.sp = kernel_stack_top;
        c
    }
}

}
