//! Buffer guards kept across system calls: a user program gets a token for a buffer it
//! asked for, hands it back on each later call, and gives it up once. Each guard is
//! stored with the pid that owns it.
use vstd::prelude::*;
use crate::fs::buffer::{BufferCache, BufferGuard, release as release_buffer};

verus! {

pub struct Tokens {
    slots: Vec<Option<(usize, BufferGuard)>>,
}

impl Tokens {
    pub closed spec fn slots_spec(&self) -> Seq<Option<(usize, BufferGuard)>> {
        self.slots@
    }

    /// Slot `k` holds a guard of `pid` with token `token`.
    pub open spec fn holds(&self, k: int, pid: usize, token: usize) -> bool {
        &&& 0 <= k < self.slots_spec().len()
        &&& self.slots_spec()[k] matches Some((p, g))
        &&& p == pid
        &&& g.index() == token
    }

    /// Some slot holds a guard of `pid` with token `token`.
    pub open spec fn has(&self, pid: usize, token: usize) -> bool {
        exists|k: int| self.holds(k, pid, token)
    }

    pub open spec fn has_room(&self) -> bool {
        exists|k: int| 0 <= k < self.slots_spec().len() && #[trigger] self.slots_spec()[k] is None
    }

    /// The first slot holding a guard of `pid` with `token`.
    pub open spec fn first_holding(&self, k: int, pid: usize, token: usize) -> bool {
        self.holds(k, pid, token) && forall|j: int| 0 <= j < k ==> !#[trigger] self.holds(j, pid, token)
    }
}

/// Room for `n` guards, none stored.
pub fn init(n: usize) -> (t: Tokens)
    ensures
        t.slots_spec().len() == n,
        forall|k: int| 0 <= k < n ==> #[trigger] t.slots_spec()[k] is None,
{
    let mut slots: Vec<Option<(usize, BufferGuard)>> = Vec::new();
    let mut i: usize = 0;
    while i < n
        invariant
            i <= n,
            slots@.len() == i,
            forall|k: int| 0 <= k < i ==> #[trigger] slots@[k] is None,
        decreases n - i,
    {
        slots.push(None);
        i = i + 1;
    }
    Tokens { slots }
}

/// Keeps guard `g` for process `pid` in the first free slot and returns its token.
/// There must be room: every program holds at most as many guards as there are buffers.
pub fn retain(t: &mut Tokens, pid: usize, g: BufferGuard) -> (token: usize)
    requires
        old(t).has_room(),
    ensures
        token == g.index(),
        exists|k: int| 0 <= k < old(t).slots_spec().len() && old(t).slots_spec()[k] is None
            && (forall|j: int| 0 <= j < k ==> #[trigger] old(t).slots_spec()[j] is Some)
            && final(t).slots_spec() == old(t).slots_spec().update(k, Some((pid, g))),
{
    let token = g.token();
    let mut k: usize = 0;
    while k < t.slots.len()
        invariant
            token == g.index(),
            t.slots@ == old(t).slots@,
            old(t).has_room(),
            k <= t.slots@.len(),
            forall|j: int| 0 <= j < k ==> #[trigger] t.slots@[j] is Some,
        decreases t.slots@.len() - k,
    {
        if t.slots[k].is_none() {
            t.slots.set(k, Some((pid, g)));
            return token;
        }
        k = k + 1;
    }
    proof {
        let w = choose|w: int| 0 <= w < old(t).slots_spec().len() && #[trigger] old(t).slots_spec()[w] is None;
        assert(t.slots@[w] is Some);
    }
    token
}

fn find(t: &Tokens, pid: usize, token: usize) -> (r: Option<usize>)
    ensures
        r matches Some(k) ==> t.first_holding(k as int, pid, token),
        r is None ==> !t.has(pid, token),
{
    let mut k: usize = 0;
    while k < t.slots.len()
        invariant
            k <= t.slots@.len(),
            forall|j: int| 0 <= j < k ==> !#[trigger] t.holds(j, pid, token),
        decreases t.slots@.len() - k,
    {
        match &t.slots[k] {
            Some((p, g)) => {
                if *p == pid && g.token() == token {
                    return Some(k);
                }
            },
            None => {},
        }
        k = k + 1;
    }
    None
}

/// Whether `pid` holds a guard under `token`: what a caller tests before [`with`] or
/// [`release`], failing the request when it does not.
pub fn holding(t: &Tokens, pid: usize, token: usize) -> (r: bool)
    ensures
        r == t.has(pid, token),
{
    find(t, pid, token).is_some()
}

/// Lends the guard that `pid` holds under `token`, which must be one it holds and has
/// not given back. The guard stays retained under the same token.
pub fn with(t: &Tokens, pid: usize, token: usize) -> (r: &BufferGuard)
    requires
        t.has(pid, token),
    ensures
        r.index() == token,
        exists|k: int| #[trigger] t.first_holding(k, pid, token) && t.slots_spec()[k] == Some((pid, *r)),
{
    let k = find(t, pid, token).unwrap();
    match &t.slots[k] {
        Some((_, g)) => g,
        None => {
            proof {
                assert(false);
            }
            &t.slots[k].as_ref().unwrap().1
        },
    }
}

/// Takes back the guard that `pid` holds under `token` and releases its buffer. The
/// token must be one that `pid` holds and has not given back.
pub fn release(t: &mut Tokens, c: &mut BufferCache, pid: usize, token: usize)
    requires
        old(t).has(pid, token),
        old(c).wf(),
        forall|k: int| #[trigger] old(t).holds(k, pid, token) ==> old(c).held(&old(t).slots_spec()[k]->Some_0.1),
    ensures
        final(c).wf(),
        exists|k: int| #[trigger] old(t).first_holding(k, pid, token)
            && final(t).slots_spec() == old(t).slots_spec().update(k, None),
{
    let k = find(t, pid, token).unwrap();
    let mut slot: Option<(usize, BufferGuard)> = None;
    let ghost before = t.slots@;
    core::mem::swap(&mut slot, &mut t.slots[k]);
    proof {
        assert(t.slots@ =~= before.update(k as int, None));
    }
    match slot {
        Some((_, g)) => {
            release_buffer(c, g);
        },
        None => {},
    }
}

}
