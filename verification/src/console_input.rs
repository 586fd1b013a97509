//! The console's line buffer: characters typed arrive one by one and are edited in the
//! current line; a finished line (or end of input, or a full buffer) becomes readable.
//! Readers take bytes up to the end of a line. The buffer holds `CAPACITY` bytes in all.
use vstd::prelude::*;

verus! {

/// Bytes the buffer holds, readable and edited together.
pub const CAPACITY: usize = 128;
/// Ctrl-U: erase the line being edited.
pub const KILL_LINE: u8 = 21;
/// Backspace.
pub const BACKSPACE: u8 = 8;
/// Delete, treated as backspace.
pub const DELETE: u8 = 127;
/// Ctrl-D: end of input.
pub const EOF: u8 = 4;
pub const NEWLINE: u8 = 10;
pub const RETURN: u8 = 13;

pub struct Input {
    /// Finished bytes not read yet, oldest first.
    ready: Vec<u8>,
    /// The line being edited.
    line: Vec<u8>,
}

/// What erasing one character writes to the screen: back, blank, back.
pub open spec fn erase_echo(k: nat) -> Seq<u8>
    decreases k,
{
    if k == 0 { Seq::empty() } else { erase_echo((k - 1) as nat) + seq![BACKSPACE, 0x20u8, BACKSPACE] }
}

impl Input {
    pub closed spec fn ready_spec(&self) -> Seq<u8> {
        self.ready@
    }

    pub closed spec fn line_spec(&self) -> Seq<u8> {
        self.line@
    }

    pub open spec fn wf(&self) -> bool {
        self.ready_spec().len() + self.line_spec().len() <= CAPACITY
    }

    /// An empty buffer.
    pub fn init() -> (r: Input)
        ensures
            r.wf(),
            r.ready_spec() == Seq::<u8>::empty(),
            r.line_spec() == Seq::<u8>::empty(),
    {
        Input { ready: Vec::new(), line: Vec::new() }
    }

    /// Handles one typed character `c`. Ctrl-U erases the line being edited, backspace
    /// and delete its last character; any other non-zero character is added to the line
    /// if the buffer has room (return becomes newline), echoed unless it is Ctrl-D, and a
    /// newline, Ctrl-D or a full buffer makes the line readable. Returns what to echo and
    /// whether readers are to be woken.
    pub fn edit(&mut self, c: u8) -> (r: (Vec<u8>, bool))
        requires
            old(self).wf(),
        ensures
            final(self).wf(),
            ({
                let (echo, wake) = r;
                let ready = old(self).ready_spec();
                let line = old(self).line_spec();
                let ch = if c == RETURN { NEWLINE } else { c };
                if c == KILL_LINE {
                    &&& final(self).ready_spec() == ready
                    &&& final(self).line_spec() == Seq::<u8>::empty()
                    &&& echo@ == erase_echo(line.len())
                    &&& !wake
                } else if c == BACKSPACE || c == DELETE {
                    &&& final(self).ready_spec() == ready
                    &&& final(self).line_spec() == if line.len() > 0 { line.drop_last() } else { line }
                    &&& echo@ == if line.len() > 0 { erase_echo(1) } else { Seq::<u8>::empty() }
                    &&& !wake
                } else if c != 0 && ready.len() + line.len() < CAPACITY {
                    let full = line.push(ch);
                    let commit = ch == NEWLINE || ch == EOF || ready.len() + full.len() == CAPACITY;
                    &&& echo@ == if ch == EOF { Seq::<u8>::empty() } else { seq![ch] }
                    &&& wake == commit
                    &&& final(self).ready_spec() == if commit { ready + full } else { ready }
                    &&& final(self).line_spec() == if commit { Seq::<u8>::empty() } else { full }
                } else {
                    &&& *final(self) == *old(self)
                    &&& echo@ == Seq::<u8>::empty()
                    &&& !wake
                }
            }),
    {
        let mut echo: Vec<u8> = Vec::new();
        if c == KILL_LINE {
            let ghost n0 = self.line@.len();
            while self.line.len() > 0
                invariant
                    self.ready@ == old(self).ready@,
                    self.line@ == old(self).line@.subrange(0, self.line@.len() as int),
                    self.line@.len() <= n0,
                    n0 == old(self).line@.len(),
                    echo@ == erase_echo((n0 - self.line@.len()) as nat),
                decreases self.line@.len(),
            {
                let ghost before = self.line@;
                self.line.pop();
                echo.push(BACKSPACE);
                echo.push(0x20);
                echo.push(BACKSPACE);
                proof {
                    assert(self.line@ =~= old(self).line@.subrange(0, self.line@.len() as int));
                    assert(echo@ =~= erase_echo((n0 - self.line@.len()) as nat));
                }
            }
            proof {
                assert(self.line@ =~= Seq::<u8>::empty());
            }
            return (echo, false);
        }
        if c == BACKSPACE || c == DELETE {
            if self.line.len() > 0 {
                self.line.pop();
                echo.push(BACKSPACE);
                echo.push(0x20);
                echo.push(BACKSPACE);
                proof {
                    assert(erase_echo(0) =~= Seq::<u8>::empty());
                    assert(echo@ =~= erase_echo(1));
                }
            }
            return (echo, false);
        }
        if c != 0 && self.ready.len() + self.line.len() < CAPACITY {
            let ch = if c == RETURN { NEWLINE } else { c };
            if ch != EOF {
                echo.push(ch);
            }
            self.line.push(ch);
            if ch == NEWLINE || ch == EOF || self.ready.len() + self.line.len() == CAPACITY {
                let ghost r0 = self.ready@;
                let ghost l0 = self.line@;
                let mut k: usize = 0;
                while k < self.line.len()
                    invariant
                        self.line@ == l0,
                        k <= l0.len(),
                        self.ready@ == r0 + l0.subrange(0, k as int),
                    decreases l0.len() - k,
                {
                    let b = self.line[k];
                    self.ready.push(b);
                    proof {
                        assert(self.ready@ =~= r0 + l0.subrange(0, k + 1));
                    }
                    k = k + 1;
                }
                self.line = Vec::new();
                proof {
                    assert(l0.subrange(0, l0.len() as int) =~= l0);
                }
                return (echo, true);
            }
            return (echo, false);
        }
        (echo, false)
    }

    /// One pass of a read of at most `max` bytes into `dst`, which holds what earlier
    /// passes of the same read took. Takes readable bytes up to and including a newline;
    /// Ctrl-D ends the read, and is left for the next read when bytes were already taken.
    /// Returns true when the read is over, false when it ran out of readable bytes first:
    /// the reader then sleeps until a line is finished and calls again.
    pub fn read(&mut self, dst: &mut Vec<u8>, max: usize) -> (done: bool)
        requires
            old(self).wf(),
            old(dst)@.len() <= max,
        ensures
            final(self).wf(),
            final(self).line_spec() == old(self).line_spec(),
            ({
                let (taken, used, d) = take_input(old(self).ready_spec(), (max - old(dst)@.len()) as nat, old(dst)@.len() > 0);
                &&& done == d
                &&& final(dst)@ == old(dst)@ + taken
                &&& final(self).ready_spec() == old(self).ready_spec().subrange(used as int, old(self).ready_spec().len() as int)
            }),
            ({
                let n0 = old(dst)@.len() as int;
                let added = final(dst)@.subrange(n0, final(dst)@.len() as int);
                &&& final(dst)@.subrange(0, n0) == old(dst)@
                &&& final(dst)@.len() <= max
                &&& added == old(self).ready_spec().subrange(0, added.len() as int)
                &&& forall|k: int| 0 <= k < added.len() ==> #[trigger] added[k] != EOF
                &&& forall|k: int| 0 <= k < added.len() && #[trigger] added[k] == NEWLINE ==> k == added.len() - 1
                &&& (added.len() > 0 && added[added.len() - 1] == NEWLINE) ==> done
                    && final(self).ready_spec() == old(self).ready_spec().subrange(added.len() as int, old(self).ready_spec().len() as int)
                &&& !done ==> added == old(self).ready_spec() && final(self).ready_spec().len() == 0
            }),
    {
        let ghost r0 = self.ready@;
        let ghost d0 = dst@;
        let done = self.read_pass(dst, max);
        proof {
            lemma_take_input_one_line(r0, (max - d0.len()) as nat, d0.len() > 0);
            let (t, u, d) = take_input(r0, (max - d0.len()) as nat, d0.len() > 0);
            assert(dst@.subrange(d0.len() as int, dst@.len() as int) =~= t);
            assert(dst@.subrange(0, d0.len() as int) =~= d0);
            if !done {
                assert(self.ready@ =~= r0.subrange(r0.len() as int, r0.len() as int));
            }
        }
        done
    }

    fn read_pass(&mut self, dst: &mut Vec<u8>, max: usize) -> (done: bool)
        requires
            old(self).wf(),
            old(dst)@.len() <= max,
        ensures
            final(self).wf(),
            final(self).line_spec() == old(self).line_spec(),
            ({
                let (taken, used, d) = take_input(old(self).ready_spec(), (max - old(dst)@.len()) as nat, old(dst)@.len() > 0);
                &&& done == d
                &&& final(dst)@ == old(dst)@ + taken
                &&& final(self).ready_spec() == old(self).ready_spec().subrange(used as int, old(self).ready_spec().len() as int)
            }),
    {
        let ghost r0 = self.ready@;
        let ghost d0 = dst@;
        let ghost room0 = (max - dst@.len()) as nat;
        loop
            invariant
                self.wf(),
                self.line@ == old(self).line@,
                d0 == old(dst)@,
                r0 == old(self).ready@,
                room0 == (max - d0.len()) as nat,
                d0.len() <= dst@.len() <= max,
                dst@.subrange(0, d0.len() as int) == d0,
                r0.len() >= self.ready@.len(),
                self.ready@ == r0.subrange(r0.len() - self.ready@.len(), r0.len() as int),
                ({
                    let (t0, u0, e0) = take_input(r0, room0, d0.len() > 0);
                    let (t1, u1, e1) = take_input(self.ready@, (max - dst@.len()) as nat, dst@.len() > 0);
                    &&& t0 == dst@.subrange(d0.len() as int, dst@.len() as int) + t1
                    &&& u0 == (r0.len() - self.ready@.len()) + u1
                    &&& e0 == e1
                }),
            decreases self.ready@.len(),
        {
            if dst.len() >= max {
                proof {
                    assert(dst@.subrange(d0.len() as int, dst@.len() as int) + Seq::<u8>::empty()
                        =~= dst@.subrange(d0.len() as int, dst@.len() as int));
                    assert(dst@ =~= d0 + dst@.subrange(d0.len() as int, dst@.len() as int));
                    assert(r0.subrange(r0.len() - self.ready@.len(), r0.len() as int) =~= r0.subrange((r0.len() - self.ready@.len()), r0.len() as int));
                }
                return true;
            }
            if self.ready.len() == 0 {
                proof {
                    assert(dst@ =~= d0 + dst@.subrange(d0.len() as int, dst@.len() as int));
                    assert(dst@.subrange(d0.len() as int, dst@.len() as int) + Seq::<u8>::empty()
                        =~= dst@.subrange(d0.len() as int, dst@.len() as int));
                }
                return false;
            }
            let c = self.ready[0];
            if c == EOF {
                if dst.len() == 0 {
                    self.ready.remove(0);
                    proof {
                        assert(self.ready@ =~= r0.subrange(r0.len() - self.ready@.len(), r0.len() as int));
                        assert(dst@ =~= d0 + dst@.subrange(d0.len() as int, dst@.len() as int));
                        assert(dst@.subrange(d0.len() as int, dst@.len() as int) + Seq::<u8>::empty()
                            =~= dst@.subrange(d0.len() as int, dst@.len() as int));
                    }
                } else {
                    proof {
                        assert(dst@ =~= d0 + dst@.subrange(d0.len() as int, dst@.len() as int));
                        assert(dst@.subrange(d0.len() as int, dst@.len() as int) + Seq::<u8>::empty()
                            =~= dst@.subrange(d0.len() as int, dst@.len() as int));
                    }
                }
                return true;
            }
            let ghost rb = self.ready@;
            let ghost db = dst@;
            self.ready.remove(0);
            dst.push(c);
            proof {
                assert(self.ready@ =~= rb.drop_first());
                assert(self.ready@ =~= r0.subrange(r0.len() - self.ready@.len(), r0.len() as int));
                assert(dst@.subrange(0, d0.len() as int) =~= d0);
                assert(dst@.subrange(d0.len() as int, dst@.len() as int)
                    =~= db.subrange(d0.len() as int, db.len() as int) + seq![c]);
            }
            if c == NEWLINE {
                proof {
                    assert(dst@ =~= d0 + dst@.subrange(d0.len() as int, dst@.len() as int));
                    assert(dst@.subrange(d0.len() as int, dst@.len() as int) + Seq::<u8>::empty()
                        =~= dst@.subrange(d0.len() as int, dst@.len() as int));
                }
                return true;
            }
        }
    }
}

/// What a read takes from readable bytes `r` with room for `room` more bytes, some bytes
/// having been taken already (`started`): the bytes taken, how many readable bytes are
/// used up, and whether the read is over (false: it waits for more input).
pub open spec fn take_input(r: Seq<u8>, room: nat, started: bool) -> (Seq<u8>, nat, bool)
    decreases r.len(),
{
    if room == 0 {
        (Seq::empty(), 0, true)
    } else if r.len() == 0 {
        (Seq::empty(), 0, false)
    } else if r[0] == EOF {
        if started { (Seq::empty(), 0, true) } else { (Seq::empty(), 1, true) }
    } else if r[0] == NEWLINE {
        (seq![r[0]], 1, true)
    } else {
        let (t, u, d) = take_input(r.drop_first(), (room - 1) as nat, true);
        (seq![r[0]] + t, u + 1, d)
    }
}


/// What one pass of a read takes, stated without the recursion: from readable bytes `r`
/// with room for `room` bytes it takes a prefix of `r` of at most `room` bytes that holds
/// no Ctrl-D and no newline but possibly as its last byte, so a read never takes anything
/// past the first newline, which ends it. The bytes used are those taken, plus a Ctrl-D
/// that ends a read that took nothing before. The read is over when the room is used up,
/// a newline was taken or a Ctrl-D comes next; otherwise it took every readable byte.
pub proof fn lemma_take_input_one_line(r: Seq<u8>, room: nat, started: bool)
    ensures
        ({
            let (t, u, d) = take_input(r, room, started);
            &&& t.len() <= r.len()
            &&& t.len() <= room
            &&& t == r.subrange(0, t.len() as int)
            &&& forall|k: int| 0 <= k < t.len() ==> #[trigger] t[k] != EOF
            &&& forall|k: int| 0 <= k < t.len() && #[trigger] t[k] == NEWLINE ==> k == t.len() - 1
            &&& (u == t.len() || (u == 1 && t.len() == 0 && !started && r.len() > 0 && r[0] == EOF && room > 0))
            &&& d <==> (t.len() == room || (t.len() > 0 && t[t.len() - 1] == NEWLINE)
                || (t.len() < r.len() && r[t.len() as int] == EOF))
            &&& !d ==> t == r
        }),
    decreases r.len(),
{
    if room == 0 || r.len() == 0 {
    } else if r[0] == EOF {
    } else if r[0] == NEWLINE {
        assert(seq![r[0]] == r.subrange(0, 1));
    } else {
        lemma_take_input_one_line(r.drop_first(), (room - 1) as nat, true);
        let (t1, u1, d1) = take_input(r.drop_first(), (room - 1) as nat, true);
        let t = seq![r[0]] + t1;
        assert(t1 == r.drop_first().subrange(0, t1.len() as int));
        assert(t =~= r.subrange(0, t.len() as int));
        assert forall|k: int| 0 <= k < t.len() implies #[trigger] t[k] != EOF by {
            if k > 0 {
                assert(t[k] == t1[k - 1]);
            }
        }
        assert forall|k: int| 0 <= k < t.len() && #[trigger] t[k] == NEWLINE implies k == t.len() - 1 by {
            if k > 0 {
                assert(t[k] == t1[k - 1]);
            }
        }
        if t1.len() > 0 {
            assert(t[t.len() - 1] == t1[t1.len() - 1]);
        }
        if t1.len() < r.drop_first().len() {
            assert(r[t.len() as int] == r.drop_first()[t1.len() as int]);
        }
        if !d1 {
            assert(t =~= r);
        }
    }
}


/// Erasing `k` characters on the screen writes, for each of them in turn, a backspace,
/// a blank over the character and a backspace again: `3 * k` bytes in all.
pub proof fn lemma_erase_echo(k: nat)
    ensures
        erase_echo(k).len() == 3 * k,
        forall|i: int| 0 <= i < 3 * k ==> #[trigger] erase_echo(k)[i] == if i % 3 == 1 { 0x20u8 } else { BACKSPACE },
    decreases k,
{
    if k > 0 {
        lemma_erase_echo((k - 1) as nat);
        let e = erase_echo((k - 1) as nat);
        assert forall|i: int| 0 <= i < 3 * k implies #[trigger] erase_echo(k)[i] == if i % 3 == 1 { 0x20u8 } else { BACKSPACE } by {
            if i < 3 * (k - 1) {
                assert(erase_echo(k)[i] == e[i]);
            } else {
                assert(erase_echo(k)[i] == seq![BACKSPACE, 0x20u8, BACKSPACE][i - 3 * (k - 1)]);
            }
        }
    }
}

}
