//! Console output: the print lock, and numbers turned into the text that the kernel
//! writes to the serial line. The bytes are sent by the caller.
use vstd::prelude::*;

verus! {

/// The print lock: one flag, set while someone holds it.
pub struct SpinLock {
    locked: bool,
}

/// Proof of holding a `SpinLock`; giving it back releases the lock.
pub struct SpinGuard {
    taken: bool,
}

impl SpinLock {
    pub closed spec fn is_locked(&self) -> bool {
        self.locked
    }

    /// An unlocked lock.
    pub fn new() -> (r: SpinLock)
        ensures
            !r.is_locked(),
    {
        SpinLock { locked: false }
    }

    /// Takes the lock, which must be free: on one CPU a held lock is never released
    /// while its taker waits.
    pub fn lock(&mut self) -> (g: SpinGuard)
        requires
            !old(self).is_locked(),
        ensures
            final(self).is_locked(),
    {
        self.locked = true;
        SpinGuard { taken: true }
    }

    /// Takes the lock if it is free; `None`, and no change, if it is held.
    pub fn try_lock(&mut self) -> (g: Option<SpinGuard>)
        ensures
            g is Some <==> !old(self).is_locked(),
            final(self).is_locked(),
    {
        if self.locked {
            None
        } else {
            self.locked = true;
            Some(SpinGuard { taken: true })
        }
    }

    /// Gives the lock back.
    pub fn unlock(&mut self, g: SpinGuard)
        ensures
            !final(self).is_locked(),
    {
        self.locked = false;
    }
}

/// Runs `f` holding the print lock, so that what it prints is not interleaved, and
/// releases the lock afterwards.
pub fn with_lock<R, F: FnOnce() -> R>(lock: &mut SpinLock, f: F) -> (r: R)
    requires
        !old(lock).is_locked(),
        f.requires(()),
    ensures
        f.ensures((), r),
        !final(lock).is_locked(),
{
    let g = lock.lock();
    let r = f();
    lock.unlock(g);
    r
}

/// The ASCII digit for `d` in base 16 (lowercase).
pub open spec fn digit(d: nat) -> u8 {
    if d < 10 { (0x30 + d) as u8 } else { (0x61 + d - 10) as u8 }
}

/// The digits of `v` in base `b`, most significant first, without leading zeros ("0"
/// for zero).
pub open spec fn digits(v: nat, b: nat) -> Seq<u8>
    decreases v,
{
    if b < 2 || v < b {
        seq![digit(v % (if b < 2 { 16 } else { b }))]
    } else {
        proof {
            lemma_div_smaller(v, b);
        }
        digits(v / b, b) + seq![digit(v % b)]
    }
}

pub proof fn lemma_div_smaller(v: nat, b: nat)
    requires
        b >= 2,
        v >= b,
    ensures
        v / b < v,
{
    assert(v / b < v) by (nonlinear_arith)
        requires
            b >= 2,
            v >= b,
    ;
}

proof fn lemma_digit_value(d: nat)
    requires
        d < 16,
    ensures
        digit_value(digit(d)) == d,
{
}

/// The value that the digit `c` stands for.
pub open spec fn digit_value(c: u8) -> nat {
    if 0x30 <= c <= 0x39 { (c - 0x30) as nat } else { (c - 0x61 + 10) as nat }
}

/// The number that digits `s` in base `b` spell.
pub open spec fn value_of(s: Seq<u8>, b: nat) -> nat
    decreases s.len(),
{
    if s.len() == 0 {
        0
    } else {
        value_of(s.drop_last(), b) * b + digit_value(s.last())
    }
}

fn push_digits(v: usize, b: usize, out: &mut Vec<u8>)
    requires
        b == 10 || b == 16,
    ensures
        final(out)@ == old(out)@ + digits(v as nat, b as nat),
    decreases v,
{
    if v >= b {
        push_digits(v / b, b, out);
    }
    let d = v % b;
    let c: u8 = if d < 10 { 0x30 + d as u8 } else { 0x61 + (d - 10) as u8 };
    out.push(c);
    proof {
        assert(out@ =~= old(out)@ + digits(v as nat, b as nat));
    }
}

/// The text of `v` in lowercase hexadecimal, without a prefix.
pub fn print_hex_bare(v: usize) -> (r: Vec<u8>)
    ensures
        r@ == digits(v as nat, 16),
{
    let mut out: Vec<u8> = Vec::new();
    push_digits(v, 16, &mut out);
    proof {
        assert(out@ =~= digits(v as nat, 16));
    }
    out
}

/// The text of `v` in decimal.
pub fn print_dec(v: usize) -> (r: Vec<u8>)
    ensures
        r@ == digits(v as nat, 10),
{
    let mut out: Vec<u8> = Vec::new();
    push_digits(v, 10, &mut out);
    proof {
        assert(out@ =~= digits(v as nat, 10));
    }
    out
}

/// The text of a 32-bit value (a device register) in lowercase hexadecimal, with the
/// `0x` prefix.
pub fn print_hex32(v: u32) -> (r: Vec<u8>)
    ensures
        r@ == seq![0x30u8, 0x78u8] + digits(v as nat, 16),
{
    let mut out: Vec<u8> = Vec::new();
    out.push(0x30);
    out.push(0x78);
    push_digits(v as usize, 16, &mut out);
    proof {
        assert(out@ =~= seq![0x30u8, 0x78u8] + digits(v as nat, 16));
    }
    out
}

/// Reading the printed digits back gives the number: the text names `v` and nothing else.
pub proof fn lemma_digits_value(v: nat, b: nat)
    requires
        b == 10 || b == 16,
    ensures
        value_of(digits(v, b), b) == v,
        digits(v, b).len() >= 1,
    decreases v,
{
    let s = digits(v, b);
    lemma_digit_value(v % b);
    if v < b {
        assert(v % b == v) by (nonlinear_arith)
            requires
                v < b,
                b > 0,
        ;
        assert(s =~= seq![digit(v)]);
        assert(s.drop_last() =~= Seq::<u8>::empty());
        assert(value_of(s.drop_last(), b) == 0);
        assert(value_of(s, b) == 0 * b + digit_value(digit(v)));
    } else {
        lemma_div_smaller(v, b);
        lemma_digits_value(v / b, b);
        assert(s.drop_last() =~= digits(v / b, b));
        assert(v == (v / b) * b + v % b) by (nonlinear_arith)
            requires
                b > 0,
        ;
    }
}

/// The bytes of an ASCII text.
pub open spec fn ascii(s: Seq<char>) -> Seq<u8> {
    Seq::new(s.len(), |i: int| s[i] as u8)
}

/// Appends the bytes of the ASCII text `s` to `out`.
pub fn push_ascii(out: &mut Vec<u8>, s: &str)
    requires
        s.is_ascii(),
    ensures
        final(out)@ == old(out)@ + ascii(s@),
{
    let n = s.unicode_len();
    let mut i: usize = 0;
    let ghost start = out@;
    while i < n
        invariant
            s.is_ascii(),
            n == s@.len(),
            i <= n,
            out@ == start + ascii(s@.subrange(0, i as int)),
        decreases n - i,
    {
        let c = s.get_char(i);
        out.push(c as u8);
        proof {
            assert(ascii(s@.subrange(0, i + 1)) =~= ascii(s@.subrange(0, i as int)).push(c as u8));
        }
        i = i + 1;
    }
    proof {
        assert(s@.subrange(0, n as int) =~= s@);
    }
}

/// Collects what is written to the console, to be sent to the serial line.
pub struct Writer {
    pub out: Vec<u8>,
}

impl Writer {
    /// Appends the bytes of `s`.
    pub fn write_str(&mut self, s: &str) -> (ok: bool)
        requires
            s.is_ascii(),
        ensures
            ok,
            final(self).out@.len() == old(self).out@.len() + s@.len(),
            forall|i: int| 0 <= i < old(self).out@.len() ==> final(self).out@[i] == old(self).out@[i],
            forall|i: int| 0 <= i < s@.len() ==> final(self).out@[old(self).out@.len() + i] == s@[i] as u8,
    {
        let n = s.unicode_len();
        let mut i: usize = 0;
        let ghost start = self.out@.len();
        while i < n
            invariant
                s.is_ascii(),
                n == s@.len(),
                i <= n,
                self.out@.len() == start + i,
                start == old(self).out@.len(),
                forall|k: int| 0 <= k < start ==> self.out@[k] == old(self).out@[k],
                forall|k: int| 0 <= k < i ==> self.out@[start + k] == s@[k] as u8,
            decreases n - i,
        {
            let c = s.get_char(i);
            self.out.push(c as u8);
            i = i + 1;
        }
        true
    }
}


/// The text of a size in bytes: whole mebibytes as "N MiB", anything else as "N B", so
/// that a size that is not a whole number of MiB shows.
pub fn print_size_mib(bytes: usize) -> (r: Vec<u8>)
    ensures
        bytes % 0x10_0000 == 0 ==> r@ == digits((bytes / 0x10_0000) as nat, 10) + seq![0x20u8, 0x4du8, 0x69u8, 0x42u8],
        bytes % 0x10_0000 != 0 ==> r@ == digits(bytes as nat, 10) + seq![0x20u8, 0x42u8],
{
    let mut out: Vec<u8>;
    if bytes % 0x10_0000 == 0 {
        out = print_dec(bytes / 0x10_0000);
        let ghost d = out@;
        out.push(0x20);
        out.push(0x4d);
        out.push(0x69);
        out.push(0x42);
        proof {
            assert(out@ =~= d + seq![0x20u8, 0x4du8, 0x69u8, 0x42u8]);
        }
    } else {
        out = print_dec(bytes);
        let ghost d = out@;
        out.push(0x20);
        out.push(0x42);
        proof {
            assert(out@ =~= d + seq![0x20u8, 0x42u8]);
        }
    }
    out
}

}
