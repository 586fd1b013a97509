//! The block buffer cache: buffers move between an active list (referenced buffers)
//! and an inactive list (unreferenced ones) in least-recently-used order.
use vstd::prelude::*;
use crate::fs::BLOCK_SIZE;
use crate::fs::bio::BlockDevice;

verus! {

/// Cache size used by the bitmap and LRU tests.
pub const N_BUFFER_TEST: usize = 8;
/// Cache size of a normal boot.
pub const N_BUFFER: usize = 16384;
/// Block number of a buffer that holds no block.
pub const UNUSED: u32 = 0xffff_ffff;

/// One buffer: the block it holds, its references, whether its page holds the block's
/// current contents, and the page itself (absent until first needed).
pub struct Buffer {
    pub block: u32,
    pub refs: usize,
    pub valid: bool,
    data: Option<Vec<u8>>,
}

/// What a buffer looks like from outside.
pub struct BufferView {
    pub block: u32,
    pub refs: usize,
    pub valid: bool,
    pub data: Option<Seq<u8>>,
}

impl Buffer {
    pub closed spec fn view(&self) -> BufferView {
        BufferView {
            block: self.block,
            refs: self.refs,
            valid: self.valid,
            data: match self.data {
                Some(v) => Some(v@),
                None => None,
            },
        }
    }

    /// A buffer holding nothing.
    pub fn empty() -> (r: Buffer)
        ensures
            r@ == (BufferView { block: UNUSED, refs: 0, valid: false, data: None }),
            r == Buffer::empty_spec(),
    {
        Buffer { block: UNUSED, refs: 0, valid: false, data: None }
    }
}

/// The cache. `active` and `inactive` list buffer indices, most recently used first.
pub struct BufferCache {
    bufs: Vec<Buffer>,
    active: Vec<usize>,
    inactive: Vec<usize>,
}

/// Proof that the holder got buffer `buffer` from `get` and has not released it yet.
pub struct BufferGuard {
    buffer: usize,
}

impl BufferGuard {
    pub closed spec fn index(&self) -> int {
        self.buffer as int
    }

    /// A number naming the buffer, handed to user programs as an opaque token.
    pub fn token(&self) -> (r: usize)
        ensures
            r == self.index(),
    {
        self.buffer
    }
}

impl BufferCache {
    /// Number of buffers.
    pub closed spec fn len(&self) -> int {
        self.bufs@.len() as int
    }

    /// Buffer `i`.
    pub closed spec fn buf(&self, i: int) -> BufferView {
        self.bufs@[i]@
    }

    /// Referenced buffers, most recently used first.
    pub closed spec fn active(&self) -> Seq<usize> {
        self.active@
    }

    /// Unreferenced buffers, most recently released first; the last is evicted first.
    pub closed spec fn inactive(&self) -> Seq<usize> {
        self.inactive@
    }

    /// `block`'s buffer is referenced.
    pub open spec fn block_held(&self, block: u32) -> bool {
        exists|i: int| 0 <= i < self.len() && #[trigger] self.buf(i).block == block && self.buf(i).refs > 0
    }

    /// The guard names a referenced buffer of this cache.
    pub open spec fn held(&self, g: &BufferGuard) -> bool {
        0 <= g.index() < self.len() && self.buf(g.index()).refs > 0
    }

    pub closed spec fn wf(&self) -> bool {
        let n = self.bufs@.len();
        &&& n > 0
        &&& self.lists_ok()
        &&& forall|p: int| 0 <= p < self.active@.len() ==> self.bufs@[#[trigger] self.active@[p] as int].refs > 0
        &&& forall|p: int| 0 <= p < self.inactive@.len() ==> self.bufs@[#[trigger] self.inactive@[p] as int].refs == 0
        &&& forall|i: int, j: int| 0 <= i < n && 0 <= j < n && i != j && #[trigger] self.bufs@[i].block != UNUSED
            ==> self.bufs@[i].block != #[trigger] self.bufs@[j].block
        &&& forall|i: int| 0 <= i < n ==> (#[trigger] self.bufs@[i].valid ==> self.bufs@[i].data is Some
            && self.bufs@[i].block != UNUSED)
        &&& forall|i: int| 0 <= i < n ==> (#[trigger] self.bufs@[i].data matches Some(d) ==> d@.len() == BLOCK_SIZE)
        &&& forall|i: int| 0 <= i < n ==> (#[trigger] self.bufs@[i].refs > 0 ==> self.bufs@[i].data is Some && self.bufs@[i].block != UNUSED)
    }

    /// What every well-formed cache keeps of its lists, whatever operations made it: each
    /// buffer sits in exactly one of the two lists, once; the active list holds exactly the
    /// referenced buffers and the inactive list the unreferenced ones. (`lemma_wf_facts`
    /// gives what it keeps of each buffer.)
    pub proof fn lemma_lists(&self)
        requires
            self.wf(),
        ensures
            self.len() > 0,
            self.active().no_duplicates(),
            self.inactive().no_duplicates(),
            self.active().len() + self.inactive().len() == self.len(),
            forall|p: int| 0 <= p < self.active().len() ==> #[trigger] self.active()[p] < self.len(),
            forall|p: int| 0 <= p < self.inactive().len() ==> #[trigger] self.inactive()[p] < self.len(),
            forall|i: int| 0 <= i < self.len() ==> (self.active().contains(i as usize) <==> #[trigger] self.buf(i).refs > 0),
            forall|i: int| 0 <= i < self.len() ==> (self.inactive().contains(i as usize) <==> #[trigger] self.buf(i).refs == 0),
    {
        assert forall|i: int| 0 <= i < self.len() implies (self.active().contains(i as usize) <==> #[trigger] self.buf(i).refs > 0) by {
            let x = i as usize;
            if self.active@.contains(x) {
                let p = choose|p: int| 0 <= p < self.active@.len() && self.active@[p] == x;
                assert(self.bufs@[self.active@[p] as int].refs > 0);
            } else {
                assert(self.inactive@.contains(x));
                let p = choose|p: int| 0 <= p < self.inactive@.len() && self.inactive@[p] == x;
                assert(self.bufs@[self.inactive@[p] as int].refs == 0);
            }
        }
        assert forall|i: int| 0 <= i < self.len() implies (self.inactive().contains(i as usize) <==> #[trigger] self.buf(i).refs == 0) by {
            let x = i as usize;
            if self.inactive@.contains(x) {
                let p = choose|p: int| 0 <= p < self.inactive@.len() && self.inactive@[p] == x;
                assert(self.bufs@[self.inactive@[p] as int].refs == 0);
            } else {
                assert(self.active@.contains(x));
                let p = choose|p: int| 0 <= p < self.active@.len() && self.active@[p] == x;
                assert(self.bufs@[self.active@[p] as int].refs > 0);
            }
        }
    }
}

/// Builds a cache of `n` empty buffers, all inactive, buffer 0 first in line to be reused last.
pub fn init(n: usize) -> (r: BufferCache)
    requires
        n > 0,
    ensures
        r.wf(),
        r.len() == n,
        r.active() == Seq::<usize>::empty(),
        r.inactive() == Seq::new(n as nat, |i: int| i as usize),
        forall|i: int| 0 <= i < n ==> #[trigger] r.buf(i) == (BufferView { block: UNUSED, refs: 0, valid: false, data: None }),
{
    let mut bufs: Vec<Buffer> = Vec::new();
    let mut inactive: Vec<usize> = Vec::new();
    let mut k: usize = 0;
    while k < n
        invariant
            k <= n,
            bufs@.len() == k,
            inactive@ == Seq::new(k as nat, |i: int| i as usize),
            forall|i: int| 0 <= i < k ==> (#[trigger] bufs@[i])@ == (BufferView { block: UNUSED, refs: 0, valid: false, data: None }),
        decreases n - k,
    {
        bufs.push(Buffer::empty());
        inactive.push(k);
        proof {
            assert(inactive@ =~= Seq::new((k + 1) as nat, |i: int| i as usize));
        }
        k = k + 1;
    }
    let r = BufferCache { bufs, active: Vec::new(), inactive };
    proof {
        assert forall|x: usize| x < n implies #[trigger] r.inactive@.contains(x) by {
            assert(r.inactive@[x as int] == x);
        }
        assert forall|i: int| 0 <= i < n implies #[trigger] r.bufs@[i].block == UNUSED && r.bufs@[i].refs == 0
            && !r.bufs@[i].valid && r.bufs@[i].data is None by {
            assert(r.bufs@[i]@ == (BufferView { block: UNUSED, refs: 0, valid: false, data: None }));
        }
    }
    r
}


/// Index of `x` in `s`, which contains it.
fn position(s: &Vec<usize>, x: usize) -> (p: Option<usize>)
    ensures
        p matches Some(q) ==> q < s@.len() && s@[q as int] == x,
        p is None <==> !s@.contains(x),
{
    let mut i: usize = 0;
    while i < s.len()
        invariant
            i <= s@.len(),
            forall|q: int| 0 <= q < i ==> s@[q] != x,
        decreases s@.len() - i,
    {
        if s[i] == x {
            return Some(i);
        }
        i = i + 1;
    }
    None
}

/// Removing position `p` from a duplicate-free sequence drops exactly that element.
proof fn lemma_remove_contains(s: Seq<usize>, p: int, y: usize)
    requires
        s.no_duplicates(),
        0 <= p < s.len(),
    ensures
        s.remove(p).no_duplicates(),
        s.remove(p).contains(y) <==> (s.contains(y) && y != s[p]),
        s.remove(p).len() == s.len() - 1,
{
    let r = s.remove(p);
    if s.contains(y) && y != s[p] {
        let q = choose|q: int| 0 <= q < s.len() && s[q] == y;
        if q < p {
            assert(r[q] == y);
        } else {
            assert(q > p);
            assert(r[q - 1] == y);
        }
    }
    if r.contains(y) {
        let q = choose|q: int| 0 <= q < r.len() && r[q] == y;
        if q < p {
            assert(s[q] == y);
        } else {
            assert(s[q + 1] == y);
        }
    }
    assert forall|i: int, j: int| 0 <= i < r.len() && 0 <= j < r.len() && i != j implies r[i] != r[j] by {
        let i2 = if i < p { i } else { i + 1 };
        let j2 = if j < p { j } else { j + 1 };
        assert(r[i] == s[i2] && r[j] == s[j2]);
    }
}

/// Inserting a fresh element at position `p` keeps a sequence duplicate-free.
proof fn lemma_insert_contains(s: Seq<usize>, p: int, x: usize, y: usize)
    requires
        s.no_duplicates(),
        0 <= p <= s.len(),
        !s.contains(x),
    ensures
        s.insert(p, x).no_duplicates(),
        s.insert(p, x).contains(y) <==> (s.contains(y) || y == x),
        s.insert(p, x).len() == s.len() + 1,
{
    let r = s.insert(p, x);
    assert(r[p] == x);
    if s.contains(y) {
        let q = choose|q: int| 0 <= q < s.len() && s[q] == y;
        if q < p {
            assert(r[q] == y);
        } else {
            assert(r[q + 1] == y);
        }
    }
    if r.contains(y) {
        let q = choose|q: int| 0 <= q < r.len() && r[q] == y;
        if q < p {
            assert(s[q] == y);
        } else if q > p {
            assert(s[q - 1] == y);
        }
    }
    assert forall|i: int, j: int| 0 <= i < r.len() && 0 <= j < r.len() && i != j implies r[i] != r[j] by {
        if i != p && j != p {
            let i2 = if i < p { i } else { i - 1 };
            let j2 = if j < p { j } else { j - 1 };
            assert(r[i] == s[i2] && r[j] == s[j2]);
        } else if i == p {
            let j2 = if j < p { j } else { j - 1 };
            assert(r[j] == s[j2]);
        } else {
            let i2 = if i < p { i } else { i - 1 };
            assert(r[i] == s[i2]);
        }
    }
}

impl BufferCache {
    /// The two lists partition the buffer indices.
    pub closed spec fn lists_ok(&self) -> bool {
        let n = self.bufs@.len();
        &&& self.active@.no_duplicates()
        &&& self.inactive@.no_duplicates()
        &&& self.active@.len() + self.inactive@.len() == n
        &&& n <= usize::MAX
        &&& forall|p: int| 0 <= p < self.active@.len() ==> #[trigger] self.active@[p] < n
        &&& forall|p: int| 0 <= p < self.inactive@.len() ==> #[trigger] self.inactive@[p] < n
        &&& forall|x: usize| !(self.active@.contains(x) && #[trigger] self.inactive@.contains(x))
        &&& forall|x: usize| #![trigger self.active@.contains(x)] #![trigger self.inactive@.contains(x)]
            x < n ==> self.active@.contains(x) || self.inactive@.contains(x)
    }

    /// The buffers themselves are those of `other`.
    pub closed spec fn same_bufs(&self, other: BufferCache) -> bool {
        self.bufs@ == other.bufs@
    }

    /// Unlinks buffer `node` from its list and links it at the front or back of the active
    /// or inactive list. Reference counts and contents are untouched.
    pub fn move_node(&mut self, node: usize, active: bool, front: bool)
        requires
            old(self).lists_ok(),
            node < old(self).len(),
            old(self).active().contains(node) || old(self).inactive().contains(node),
        ensures
            final(self).lists_ok(),
            final(self).len() == old(self).len(),
            forall|i: int| #[trigger] final(self).buf(i) == old(self).buf(i),
            final(self).same_bufs(*old(self)),
            ({
                let a0 = old(self).active().remove_value(node);
                let i0 = old(self).inactive().remove_value(node);
                &&& active && front ==> final(self).active() == seq![node] + a0 && final(self).inactive() == i0
                &&& active && !front ==> final(self).active() == a0.push(node) && final(self).inactive() == i0
                &&& !active && front ==> final(self).inactive() == seq![node] + i0 && final(self).active() == a0
                &&& !active && !front ==> final(self).inactive() == i0.push(node) && final(self).active() == a0
            }),
    {
        let ghost a_old = self.active@;
        let ghost i_old = self.inactive@;
        match position(&self.active, node) {
            Some(p) => {
                proof {
                    lemma_remove_contains(a_old, p as int, node);
                    a_old.index_of_first_ensures(node);
                    assert(a_old.index_of_first(node) == Some(p as int)) by {
                        assert(a_old.no_duplicates());
                    }
                }
                self.active.remove(p);
                proof {
                    assert(!i_old.contains(node));
                    assert(i_old.remove_value(node) == i_old) by {
                        i_old.index_of_first_ensures(node);
                    }
                }
            },
            None => {
                let p = position(&self.inactive, node).unwrap();
                proof {
                    i_old.index_of_first_ensures(node);
                    assert(i_old.index_of_first(node) == Some(p as int));
                    a_old.index_of_first_ensures(node);
                }
                self.inactive.remove(p);
            },
        }
        let ghost a1 = self.active@;
        let ghost i1 = self.inactive@;
        proof {
            assert forall|y: usize| a1.contains(y) <==> (a_old.contains(y) && y != node) by {
                if a_old.contains(node) {
                    let p = a_old.index_of(node);
                    lemma_remove_contains(a_old, p, y);
                }
            }
            assert forall|y: usize| i1.contains(y) <==> (i_old.contains(y) && y != node) by {
                if i_old.contains(node) {
                    let p = i_old.index_of(node);
                    lemma_remove_contains(i_old, p, y);
                }
            }
            if a_old.contains(node) {
                lemma_remove_contains(a_old, a_old.index_of(node), node);
            } else {
                lemma_remove_contains(i_old, i_old.index_of(node), node);
            }
        }
        if active {
            if front {
                self.active.insert(0, node);
            } else {
                self.active.push(node);
            }
        } else {
            if front {
                self.inactive.insert(0, node);
            } else {
                self.inactive.push(node);
            }
        }
        proof {
            if active {
                let p = if front { 0int } else { a1.len() as int };
                assert(!a1.contains(node));
                assert(self.active@ =~= a1.insert(p, node));
                assert forall|y: usize| #![auto] self.active@.contains(y) <==> (a1.contains(y) || y == node) by {
                    lemma_insert_contains(a1, p, node, y);
                }
                lemma_insert_contains(a1, p, node, node);
                if front {
                    assert(self.active@ =~= seq![node] + a1);
                } else {
                    assert(self.active@ =~= a1.push(node));
                }
            } else {
                let p = if front { 0int } else { i1.len() as int };
                assert(!i1.contains(node));
                assert(self.inactive@ =~= i1.insert(p, node));
                assert forall|y: usize| #![auto] self.inactive@.contains(y) <==> (i1.contains(y) || y == node) by {
                    lemma_insert_contains(i1, p, node, y);
                }
                lemma_insert_contains(i1, p, node, node);
                if front {
                    assert(self.inactive@ =~= seq![node] + i1);
                } else {
                    assert(self.inactive@ =~= i1.push(node));
                }
            }
            assert forall|x: usize| !(self.active@.contains(x) && #[trigger] self.inactive@.contains(x)) by {
                assert(!(a_old.contains(x) && i_old.contains(x)));
            }
            assert(self.active@.len() + self.inactive@.len() == self.bufs@.len());
            assert forall|p: int| 0 <= p < self.active@.len() implies #[trigger] self.active@[p] < self.bufs@.len() by {
                assert(self.active@.contains(self.active@[p]));
            }
            assert forall|p: int| 0 <= p < self.inactive@.len() implies #[trigger] self.inactive@[p] < self.bufs@.len() by {
                assert(self.inactive@.contains(self.inactive@[p]));
            }
        }
    }
}


impl BufferCache {
    /// Moves buffer `i` out, leaving an empty buffer in its place.
    fn take_buf(&mut self, i: usize) -> (b: Buffer)
        requires
            i < old(self).bufs@.len(),
        ensures
            b == old(self).bufs@[i as int],
            final(self).bufs@ == old(self).bufs@.update(i as int, Buffer::empty_spec()),
            final(self).active@ == old(self).active@,
            final(self).inactive@ == old(self).inactive@,
    {
        let mut e = Buffer::empty();
        core::mem::swap(&mut e, &mut self.bufs[i]);
        e
    }

    /// Puts `b` back as buffer `i`.
    fn put_buf(&mut self, i: usize, b: Buffer)
        requires
            i < old(self).bufs@.len(),
        ensures
            final(self).bufs@ == old(self).bufs@.update(i as int, b),
            final(self).active@ == old(self).active@,
            final(self).inactive@ == old(self).inactive@,
    {
        self.bufs.set(i, b);
    }

    /// Position of the buffer holding `block` in the inactive list.
    fn find_inactive(&self, block: u32) -> (r: Option<usize>)
        requires
            self.wf(),
        ensures
            r matches Some(p) ==> p < self.inactive@.len() && self.bufs@[self.inactive@[p as int] as int].block == block,
            r is None ==> forall|p: int| 0 <= p < self.inactive@.len() ==> self.bufs@[#[trigger] self.inactive@[p] as int].block != block,
    {
        let mut p: usize = 0;
        while p < self.inactive.len()
            invariant
                self.wf(),
                p <= self.inactive@.len(),
                forall|q: int| 0 <= q < p ==> self.bufs@[#[trigger] self.inactive@[q] as int].block != block,
            decreases self.inactive@.len() - p,
        {
            let j = self.inactive[p];
            assert(j < self.bufs@.len());
            if self.bufs[j].block == block {
                return Some(p);
            }
            p = p + 1;
        }
        None
    }
}

impl BufferCache {
    /// Position of the buffer holding `block` in the active list.
    fn find_active(&self, block: u32) -> (r: Option<usize>)
        requires
            self.wf(),
        ensures
            r matches Some(p) ==> p < self.active@.len() && self.bufs@[self.active@[p as int] as int].block == block,
            r is None ==> forall|p: int| 0 <= p < self.active@.len() ==> self.bufs@[#[trigger] self.active@[p] as int].block != block,
    {
        let mut p: usize = 0;
        while p < self.active.len()
            invariant
                self.wf(),
                p <= self.active@.len(),
                forall|q: int| 0 <= q < p ==> self.bufs@[#[trigger] self.active@[q] as int].block != block,
            decreases self.active@.len() - p,
        {
            let j = self.active[p];
            assert(j < self.bufs@.len());
            if self.bufs[j].block == block {
                return Some(p);
            }
            p = p + 1;
        }
        None
    }

    /// A cache whose lists hold the same buffers as those of well-formed `c0`, and whose
    /// buffers are those of `c0` but for referenced buffer `j`, still referenced, holding
    /// the same block and a page of a block's size, is well formed.
    proof fn lemma_held_change_keeps_wf(&self, c0: BufferCache, j: usize)
        requires
            c0.wf(),
            self.lists_ok(),
            j < c0.bufs@.len(),
            c0.bufs@[j as int].refs > 0,
            self.bufs@.len() == c0.bufs@.len(),
            forall|i: int| 0 <= i < c0.bufs@.len() && i != j ==> #[trigger] self.bufs@[i] == c0.bufs@[i],
            self.bufs@[j as int].block == c0.bufs@[j as int].block,
            self.bufs@[j as int].refs > 0,
            self.bufs@[j as int].data matches Some(d) && d@.len() == BLOCK_SIZE,
            forall|x: usize| #[trigger] self.active@.contains(x) <==> c0.active@.contains(x),
            forall|x: usize| #[trigger] self.inactive@.contains(x) <==> c0.inactive@.contains(x),
        ensures
            self.wf(),
    {
        let n = self.bufs@.len();
        c0.lemma_lists();
        c0.lemma_wf_facts();
        assert(c0.buf(j as int).refs > 0);
        assert(!c0.inactive@.contains(j));
        assert forall|p: int| 0 <= p < self.active@.len() implies self.bufs@[#[trigger] self.active@[p] as int].refs > 0 by {
            let x = self.active@[p];
            assert(self.active@.contains(x));
            if x != j {
                assert(c0.active@.contains(x));
                let q = choose|q: int| 0 <= q < c0.active@.len() && c0.active@[q] == x;
                assert(c0.bufs@[c0.active@[q] as int].refs > 0);
            }
        }
        assert forall|p: int| 0 <= p < self.inactive@.len() implies self.bufs@[#[trigger] self.inactive@[p] as int].refs == 0 by {
            let x = self.inactive@[p];
            assert(self.inactive@.contains(x));
            assert(c0.inactive@.contains(x));
            let q = choose|q: int| 0 <= q < c0.inactive@.len() && c0.inactive@[q] == x;
            assert(c0.bufs@[c0.inactive@[q] as int].refs == 0);
            assert(x != j);
        }
        assert forall|i: int, k: int| 0 <= i < n && 0 <= k < n && i != k && #[trigger] self.bufs@[i].block != UNUSED
            implies self.bufs@[i].block != #[trigger] self.bufs@[k].block by {
            assert(c0.bufs@[i].block != c0.bufs@[k].block);
        }
    }
}

impl Buffer {
    pub closed spec fn empty_spec() -> Buffer {
        Buffer { block: UNUSED, refs: 0, valid: false, data: None }
    }
}

/// The buffer `get` takes for `block`: its current buffer if inactive, else the least
/// recently used inactive buffer; `None` when neither exists.
pub open spec fn get_victim(c: BufferCache, block: u32) -> Option<usize> {
    if exists|p: int| 0 <= p < c.inactive().len() && #[trigger] c.buf(c.inactive()[p] as int).block == block {
        let p = choose|p: int| 0 <= p < c.inactive().len() && #[trigger] c.buf(c.inactive()[p] as int).block == block;
        Some(c.inactive()[p])
    } else if c.inactive().len() > 0 {
        Some(c.inactive().last())
    } else {
        None
    }
}

/// The referenced buffer that holds `block`, when there is one.
pub open spec fn held_index(c: BufferCache, block: u32) -> int {
    choose|i: int| 0 <= i < c.len() && #[trigger] c.buf(i).block == block && c.buf(i).refs > 0
}

/// The block was found in the inactive list (a hit).
pub open spec fn get_hit(c: BufferCache, block: u32) -> bool {
    exists|p: int| 0 <= p < c.inactive().len() && #[trigger] c.buf(c.inactive()[p] as int).block == block
}

/// What [`get`] does for a block that no referenced buffer holds, from cache `c0` and
/// device contents `blocks` (`healthy` when the device serves its blocks) to cache `c1`
/// and result `r`.
pub open spec fn get_unheld_result(c0: BufferCache, c1: BufferCache, blocks: Seq<Seq<u8>>, healthy: bool, block: u32, r: Result<BufferGuard, ()>) -> bool {
    &&& get_victim(c0, block) is None ==> r is Err && c1 == c0
    &&& (get_victim(c0, block) matches Some(j) ==> {
        let hit = get_hit(c0, block);
        let needs_read = !(hit && c0.buf(j as int).valid);
        &&& j < c0.len()
        &&& c0.buf(j as int).refs == 0
        &&& (r is Ok && needs_read ==> block < blocks.len())
        &&& forall|i: int| 0 <= i < c0.len() && i != j ==> #[trigger] c1.buf(i) == c0.buf(i)
        &&& c1.buf(j as int).block == block
        &&& c1.buf(j as int).data is Some
        &&& !needs_read ==> r is Ok
        &&& healthy && block < blocks.len() ==> r is Ok
        &&& r matches Ok(g) ==> {
            &&& g.index() == j
            &&& c1.buf(j as int) == (BufferView {
                block,
                refs: 1,
                valid: true,
                data: if needs_read { Some(blocks[block as int]) } else { c0.buf(j as int).data },
            })
            &&& c1.active() == if hit { seq![j] + c0.active() } else { c0.active().push(j) }
            &&& c1.inactive() == c0.inactive().remove_value(j)
        }
        &&& r is Err ==> {
            &&& needs_read
            &&& c1.buf(j as int).refs == 0
            &&& !c1.buf(j as int).valid
            &&& c1.active() == c0.active()
            &&& c1.inactive() == seq![j] + c0.inactive().remove_value(j)
        }
    })
}

/// What [`get`] does for a block that referenced buffer `held_index(c0, block)` holds:
/// one more reference to that buffer, which moves to the front of the active list, its
/// page read again only when it is stale. Fails, leaving the cache as it was, when the
/// reference count is at its maximum, and when reading a stale page fails (the buffer
/// then stays stale).
pub open spec fn get_held_result(c0: BufferCache, c1: BufferCache, blocks: Seq<Seq<u8>>, healthy: bool, block: u32, r: Result<BufferGuard, ()>) -> bool {
    let j = held_index(c0, block);
    let b = c0.buf(j);
    &&& 0 <= j < c0.len() && b.block == block && b.refs > 0
    &&& forall|i: int| 0 <= i < c0.len() && i != j ==> #[trigger] c1.buf(i) == c0.buf(i)
    &&& c1.buf(j).block == block
    &&& c1.buf(j).data is Some
    &&& b.refs == usize::MAX ==> r is Err && c1 == c0
    &&& b.refs < usize::MAX && b.valid ==> r is Ok
    &&& b.refs < usize::MAX && healthy && block < blocks.len() ==> r is Ok
    &&& (r is Ok && !b.valid ==> block < blocks.len())
    &&& (r matches Ok(g) ==> {
        &&& g.index() == j
        &&& c1.buf(j) == (BufferView {
            block,
            refs: (b.refs + 1) as usize,
            valid: true,
            data: if b.valid { b.data } else { Some(blocks[block as int]) },
        })
        &&& c1.active() == seq![j as usize] + c0.active().remove_value(j as usize)
        &&& c1.inactive() == c0.inactive()
    })
    &&& r is Err ==> {
        &&& c1.active() == c0.active()
        &&& c1.inactive() == c0.inactive()
        &&& c1.buf(j).refs == b.refs
        &&& (b.refs == usize::MAX || (!b.valid && !c1.buf(j).valid))
    }
}

/// [`get`] for a block that the referenced buffer at position `p` of the active list holds.
fn get_held<D: BlockDevice>(c: &mut BufferCache, dev: &mut D, block: u32, p: usize) -> (r: Result<BufferGuard, ()>)
    requires
        old(c).wf(),
        block != UNUSED,
        old(dev).block_len() == BLOCK_SIZE,
        p < old(c).active@.len(),
        old(c).bufs@[old(c).active@[p as int] as int].block == block,
    ensures
        final(c).wf(),
        final(c).len() == old(c).len(),
        final(dev).blocks() == old(dev).blocks(),
        final(dev).block_len() == old(dev).block_len(),
        old(dev).healthy() ==> final(dev).healthy(),
        old(c).block_held(block),
        get_held_result(*old(c), *final(c), old(dev).blocks(), old(dev).healthy(), block, r),
{
    let ghost c0 = *c;
    let j = c.active[p];
    proof {
        c0.lemma_lists();
        c0.lemma_wf_facts();
        assert(c0.active@.contains(j));
        assert(c0.buf(j as int).refs > 0);
        assert(c0.buf(j as int).block == block);
        assert(c0.block_held(block));
        let h = held_index(c0, block);
        if h != j as int {
            assert(c0.buf(h).block != c0.buf(j as int).block);
        }
        assert(!c0.inactive@.contains(j));
    }
    if c.bufs[j].refs == usize::MAX {
        return Err(());
    }
    let mut b = c.take_buf(j);
    b.refs = b.refs + 1;
    if !b.valid {
        let mut page = b.data.take().unwrap();
        let ok = dev.read_block(block as usize, &mut page);
        b.data = Some(page);
        if !ok {
            b.refs = b.refs - 1;
            c.put_buf(j, b);
            proof {
                c.lemma_held_change_keeps_wf(c0, j);
                assert forall|i: int| 0 <= i < c0.len() && i != j implies #[trigger] c.buf(i) == c0.buf(i) by {
                    assert(c.bufs@[i] == c0.bufs@[i]);
                }
            }
            return Err(());
        }
        b.valid = true;
    }
    c.put_buf(j, b);
    c.move_node(j, true, true);
    proof {
        lemma_remove_value_contains(c0.active@, j);
        lemma_remove_value_absent(c0.inactive@, j);
        assert forall|x: usize| #[trigger] c.active@.contains(x) <==> c0.active@.contains(x) by {
            if x == j {
                assert(c.active@[0] == j);
            } else if c0.active@.contains(x) {
                assert(c0.active@.remove_value(j).contains(x));
                let q = choose|q: int| 0 <= q < c0.active@.remove_value(j).len() && c0.active@.remove_value(j)[q] == x;
                assert(c.active@[q + 1] == x);
            } else if c.active@.contains(x) {
                let q = choose|q: int| 0 <= q < c.active@.len() && c.active@[q] == x;
                assert(q > 0);
                assert(c0.active@.remove_value(j)[q - 1] == x);
                assert(c0.active@.remove_value(j).contains(x));
            }
        }
        c.lemma_held_change_keeps_wf(c0, j);
        assert forall|i: int| 0 <= i < c0.len() && i != j implies #[trigger] c.buf(i) == c0.buf(i) by {
            assert(c.bufs@[i] == c0.bufs@[i]);
        }
    }
    Ok(BufferGuard { buffer: j })
}

/// Gets the buffer of `block` with one more reference. A referenced buffer that holds the
/// block (found in the active list) gains the reference and moves to the front of the
/// active list, its page read again only when stale. Otherwise an inactive buffer holding
/// the block moves to the front of the active list, or the least recently used inactive
/// buffer is reused for the block and goes to the back of the active list; the block is
/// read from `dev` unless the buffer already holds its contents. Fails when every buffer
/// is referenced, or when the read fails: a buffer taken from the inactive list then goes
/// back to its front, its contents marked stale.
pub fn get<D: BlockDevice>(c: &mut BufferCache, dev: &mut D, block: u32) -> (r: Result<BufferGuard, ()>)
    requires
        old(c).wf(),
        block != UNUSED,
        old(dev).block_len() == BLOCK_SIZE,
    ensures
        final(c).wf(),
        final(c).len() == old(c).len(),
        final(dev).blocks() == old(dev).blocks(),
        final(dev).block_len() == old(dev).block_len(),
        old(dev).healthy() ==> final(dev).healthy(),
        old(c).block_held(block) ==> get_held_result(*old(c), *final(c), old(dev).blocks(), old(dev).healthy(), block, r),
        !old(c).block_held(block) ==> get_unheld_result(*old(c), *final(c), old(dev).blocks(), old(dev).healthy(), block, r),
{
    match c.find_active(block) {
        Some(p) => get_held(c, dev, block, p),
        None => {
            proof {
                c.lemma_lists();
                c.lemma_wf_facts();
                if c.block_held(block) {
                    let i = choose|i: int| 0 <= i < c.len() && #[trigger] c.buf(i).block == block && c.buf(i).refs > 0;
                    assert(c.active@.contains(i as usize));
                    let q = choose|q: int| 0 <= q < c.active@.len() && c.active@[q] == i as usize;
                    assert(c.bufs@[c.active@[q] as int].block != block);
                }
            }
            get_unheld(c, dev, block)
        },
    }
}

fn get_unheld<D: BlockDevice>(c: &mut BufferCache, dev: &mut D, block: u32) -> (r: Result<BufferGuard, ()>)
    requires
        old(c).wf(),
        block != UNUSED,
        !old(c).block_held(block),
        old(dev).block_len() == BLOCK_SIZE,
    ensures
        final(c).wf(),
        final(c).len() == old(c).len(),
        final(dev).blocks() == old(dev).blocks(),
        final(dev).block_len() == old(dev).block_len(),
        old(dev).healthy() ==> final(dev).healthy(),
        get_unheld_result(*old(c), *final(c), old(dev).blocks(), old(dev).healthy(), block, r),
{
    let ghost c0 = *c;
    let found = c.find_inactive(block);
    let j: usize;
    let hit: bool;
    match found {
        Some(p) => {
            j = c.inactive[p];
            hit = true;
            proof {
                assert(c0.buf(c0.inactive()[p as int] as int).block == block);
                assert(get_hit(c0, block));
                let q = choose|q: int| 0 <= q < c0.inactive().len() && #[trigger] c0.buf(c0.inactive()[q] as int).block == block;
                assert(c0.inactive()[q] == j) by {
                    if c0.inactive()[q] != j {
                        assert(c0.bufs@[c0.inactive()[q] as int].block == c0.bufs@[j as int].block);
                    }
                }
            }
            c.move_node(j, true, true);
        },
        None => {
            proof {
                assert(!get_hit(c0, block));
            }
            if c.inactive.len() == 0 {
                return Err(());
            }
            j = c.inactive[c.inactive.len() - 1];
            hit = false;
            c.move_node(j, true, false);
        },
    }
    proof {
        lemma_remove_value_absent(c0.active(), j);
        lemma_remove_value_ends(c0.active(), j);
        assert(c.active@.contains(j)) by {
            if hit {
                assert(c.active@[0] == j);
            } else {
                assert(c.active@[c.active@.len() - 1] == j);
            }
        }
    }
    proof {
        lemma_remove_value_contains(c0.inactive@, j);
    }
    let ghost c1 = *c;
    let mut b = c.take_buf(j);
    b.refs = 1;
    if !hit {
        b.block = block;
        b.valid = false;
    }
    if b.data.is_none() {
        b.data = Some(vec![0u8; BLOCK_SIZE]);
    }
    if !b.valid {
        let mut page = b.data.take().unwrap();
        let ok = dev.read_block(block as usize, &mut page);
        b.data = Some(page);
        if ok {
            b.valid = true;
        } else {
            b.refs = 0;
            c.put_buf(j, b);
            c.move_node(j, false, true);
            proof {
                assert(!c1.inactive@.contains(j));
                lemma_remove_value_absent(c1.inactive@, j);
                assert(c.active@ == c0.active@);
                assert(c.inactive@ == seq![j] + c1.inactive@);
                c.lemma_get_keeps_wf(c0, j, block, hit);
            }
            return Err(());
        }
    }
    c.put_buf(j, b);
    proof {
        c.lemma_get_keeps_wf(c0, j, block, hit);
    }
    Ok(BufferGuard { buffer: j })
}

/// Removing a value from a duplicate-free sequence drops exactly that value.
proof fn lemma_remove_value_contains(s: Seq<usize>, v: usize)
    requires
        s.no_duplicates(),
    ensures
        forall|y: usize| #[trigger] s.remove_value(v).contains(y) <==> (s.contains(y) && y != v),
        s.remove_value(v).no_duplicates(),
{
    s.index_of_first_ensures(v);
    if s.contains(v) {
        let p = s.index_of_first(v).unwrap();
        assert forall|y: usize| #[trigger] s.remove_value(v).contains(y) <==> (s.contains(y) && y != v) by {
            lemma_remove_contains(s, p, y);
        }
        lemma_remove_contains(s, p, v);
    }
}

/// Removing a value that a sequence does not hold changes nothing.
proof fn lemma_remove_value_absent(s: Seq<usize>, x: usize)
    requires
        !s.contains(x),
    ensures
        s.remove_value(x) == s,
{
    s.index_of_first_ensures(x);
}

/// Adding a fresh value at either end and removing it again gives the sequence back.
proof fn lemma_remove_value_ends(s: Seq<usize>, x: usize)
    requires
        !s.contains(x),
    ensures
        (seq![x] + s).remove_value(x) == s,
        s.push(x).remove_value(x) == s,
{
    let f = seq![x] + s;
    f.index_of_first_ensures(x);
    assert(f[0] == x);
    assert(f.contains(x));
    assert(f.remove(0) =~= s);
    let b = s.push(x);
    b.index_of_first_ensures(x);
    assert(b[s.len() as int] == x);
    assert(b.contains(x));
    let k = b.index_of_first(x).unwrap();
    if k < s.len() {
        assert(s[k] == x);
    }
    assert(b.remove(s.len() as int) =~= s);
}

impl BufferCache {
    /// After `get` has moved buffer `j` between the lists and rewritten it, the cache is
    /// well formed again: `j` holds `block` (no other buffer does), is referenced exactly
    /// when it sits in the active list, and a valid buffer has its page.
    proof fn lemma_get_keeps_wf(&self, c0: BufferCache, j: usize, block: u32, hit: bool)
        requires
            c0.wf(),
            self.lists_ok(),
            j < c0.bufs@.len(),
            block != UNUSED,
            !c0.block_held(block),
            hit ==> c0.bufs@[j as int].block == block,
            !hit ==> forall|p: int| 0 <= p < c0.inactive@.len() ==> c0.bufs@[#[trigger] c0.inactive@[p] as int].block != block,
            self.bufs@.len() == c0.bufs@.len(),
            forall|i: int| 0 <= i < c0.bufs@.len() && i != j ==> #[trigger] self.bufs@[i] == c0.bufs@[i],
            self.bufs@[j as int].block == block,
            self.bufs@[j as int].data matches Some(d) && d@.len() == BLOCK_SIZE,
            self.bufs@[j as int].refs > 0 <==> self.active@.contains(j),
            self.bufs@[j as int].refs == 0 <==> self.inactive@.contains(j),
            forall|x: usize| x != j ==> (#[trigger] self.active@.contains(x) <==> c0.active@.contains(x)),
            forall|x: usize| x != j ==> (#[trigger] self.inactive@.contains(x) <==> c0.inactive@.contains(x)),
        ensures
            self.wf(),
    {
        let n = self.bufs@.len();
        assert forall|p: int| 0 <= p < self.active@.len() implies self.bufs@[#[trigger] self.active@[p] as int].refs > 0 by {
            let x = self.active@[p];
            assert(self.active@.contains(x));
            if x != j {
                assert(c0.active@.contains(x));
                let q = choose|q: int| 0 <= q < c0.active@.len() && c0.active@[q] == x;
                assert(c0.bufs@[c0.active@[q] as int].refs > 0);
            }
        }
        assert forall|p: int| 0 <= p < self.inactive@.len() implies self.bufs@[#[trigger] self.inactive@[p] as int].refs == 0 by {
            let x = self.inactive@[p];
            assert(self.inactive@.contains(x));
            if x != j {
                assert(c0.inactive@.contains(x));
                let q = choose|q: int| 0 <= q < c0.inactive@.len() && c0.inactive@[q] == x;
                assert(c0.bufs@[c0.inactive@[q] as int].refs == 0);
            }
        }
        assert forall|i: int, k: int| 0 <= i < n && 0 <= k < n && i != k && #[trigger] self.bufs@[i].block != UNUSED
            implies self.bufs@[i].block != #[trigger] self.bufs@[k].block by {
            if i != j && k != j {
                assert(c0.bufs@[i].block != c0.bufs@[k].block);
            } else {
                let o = if i == j { k } else { i };
                assert(o != j);
                if c0.bufs@[o].block == block {
                    if hit {
                        assert(c0.bufs@[j as int].block != UNUSED);
                        assert(c0.bufs@[o].block != c0.bufs@[j as int].block);
                    } else {
                        let ou = o as usize;
                        assert(ou < n);
                        assert(ou as int == o);
                        assert(c0.active@.contains(ou) || c0.inactive@.contains(ou));
                        if c0.active@.contains(ou) {
                            let q = choose|q: int| 0 <= q < c0.active@.len() && c0.active@[q] == ou;
                            assert(c0.bufs@[c0.active@[q] as int].refs > 0);
                            assert(c0.buf(o).block == block && c0.buf(o).refs > 0);
                            assert(c0.block_held(block));
                        } else {
                            let q = choose|q: int| 0 <= q < c0.inactive@.len() && c0.inactive@[q] == ou;
                            assert(c0.bufs@[c0.inactive@[q] as int].block != block);
                        }
                    }
                }
            }
        }
    }
}


impl BufferCache {
    /// Pages held by inactive buffers at list positions `k` and later (towards the tail).
    pub open spec fn pages_from(&self, k: int) -> nat
        decreases self.inactive().len() - k,
    {
        if k < 0 || k >= self.inactive().len() {
            0
        } else {
            self.pages_from(k + 1) + if self.buf(self.inactive()[k] as int).data is Some { 1nat } else { 0nat }
        }
    }

    /// `freemem(count)` frees the page of the inactive buffer at list position `p`: it has
    /// one, and fewer than `count` pages lie between it and the tail.
    pub open spec fn frees_at(&self, count: usize, p: int) -> bool {
        self.buf(self.inactive()[p] as int).data is Some && self.pages_from(p + 1) < count
    }

    proof fn lemma_pages_from_monotonic(&self, a: int, b: int)
        requires
            0 <= a <= b,
        ensures
            self.pages_from(a) >= self.pages_from(b),
        decreases b - a,
    {
        if a < b {
            self.lemma_pages_from_monotonic(a + 1, b);
        }
    }
}

/// A buffer as `freemem` leaves it: no page, contents stale.
pub open spec fn without_page(v: BufferView) -> BufferView {
    BufferView { valid: false, data: None, ..v }
}

/// Frees the pages of up to `count` inactive buffers, starting from the least recently
/// used, and marks their contents stale. Returns how many pages were freed.
pub fn freemem(c: &mut BufferCache, count: usize) -> (r: usize)
    requires
        old(c).wf(),
    ensures
        final(c).wf(),
        final(c).len() == old(c).len(),
        final(c).active() == old(c).active(),
        final(c).inactive() == old(c).inactive(),
        r as int == if old(c).pages_from(0) < count { old(c).pages_from(0) as int } else { count as int },
        forall|p: int| 0 <= p < old(c).active().len() ==> #[trigger] final(c).buf(old(c).active()[p] as int) == old(c).buf(old(c).active()[p] as int),
        forall|p: int| 0 <= p < old(c).inactive().len() ==> #[trigger] final(c).buf(old(c).inactive()[p] as int) ==
            if old(c).frees_at(count, p) { without_page(old(c).buf(old(c).inactive()[p] as int)) } else { old(c).buf(old(c).inactive()[p] as int) },
{
    let ghost c0 = *c;
    let mut p: usize = c.inactive.len();
    let mut freed: usize = 0;
    while p > 0 && freed < count
        invariant
            c0.wf(),
            c.wf(),
            c.active@ == c0.active@,
            c.inactive@ == c0.inactive@,
            c.bufs@.len() == c0.bufs@.len(),
            p <= c0.inactive@.len(),
            freed == c0.pages_from(p as int),
            freed <= count,
            forall|q: int| 0 <= q < c0.active@.len() ==> #[trigger] c.bufs@[c0.active@[q] as int] == c0.bufs@[c0.active@[q] as int],
            forall|q: int| 0 <= q < p ==> #[trigger] c.bufs@[c0.inactive@[q] as int] == c0.bufs@[c0.inactive@[q] as int],
            forall|q: int| p <= q < c0.inactive@.len() ==> #[trigger] c.buf(c0.inactive@[q] as int) ==
                if c0.frees_at(count, q) { without_page(c0.buf(c0.inactive@[q] as int)) } else { c0.buf(c0.inactive@[q] as int) },
        decreases p,
    {
        p = p - 1;
        let j = c.inactive[p];
        let ghost before = *c;
        if c.bufs[j].data.is_some() {
            let mut b = c.take_buf(j);
            b.data = None;
            b.valid = false;
            c.put_buf(j, b);
            freed = freed + 1;
        }
        proof {
            assert(c0.inactive@.contains(j));
            assert forall|q: int| 0 <= q < c0.inactive@.len() && q != p implies c0.inactive@[q] != j by {
                assert(c0.inactive@.no_duplicates());
            }
            assert forall|q: int| p < q < c0.inactive@.len() implies #[trigger] c.buf(c0.inactive@[q] as int) == before.buf(c0.inactive@[q] as int) by {
                assert(c0.inactive@[q] != j);
            }
            assert(c.buf(j as int) == if c0.frees_at(count, p as int) { without_page(c0.buf(j as int)) } else { c0.buf(j as int) });
            assert forall|q: int| 0 <= q < c0.active@.len() implies c0.active@[q] != j by {
                assert(c0.active@.contains(c0.active@[q]));
            }
            assert(c.wf()) by {
                assert forall|x: int, y: int| 0 <= x < c.bufs@.len() && 0 <= y < c.bufs@.len() && x != y
                    && #[trigger] c.bufs@[x].block != UNUSED implies c.bufs@[x].block != #[trigger] c.bufs@[y].block by {
                    assert(before.bufs@[x].block != before.bufs@[y].block);
                }
            }
        }
    }
    proof {
        if freed < count {
            assert(p == 0);
        } else {
            c0.lemma_pages_from_monotonic(0, p as int);
        }
        assert forall|q: int| 0 <= q < p implies !c0.frees_at(count, q) by {
            c0.lemma_pages_from_monotonic(q + 1, p as int);
        }
    }
    freed
}

/// Drops the guard's reference; a buffer left without references goes to the front of
/// the inactive list (most recently used).
pub fn release(c: &mut BufferCache, g: BufferGuard)
    requires
        old(c).wf(),
        old(c).held(&g),
    ensures
        final(c).wf(),
        final(c).len() == old(c).len(),
        forall|i: int| 0 <= i < old(c).len() && i != g.index() ==> #[trigger] final(c).buf(i) == old(c).buf(i),
        final(c).buf(g.index()) == (BufferView { refs: (old(c).buf(g.index()).refs - 1) as usize, ..old(c).buf(g.index()) }),
        old(c).buf(g.index()).refs > 1 ==> final(c).active() == old(c).active() && final(c).inactive() == old(c).inactive(),
        old(c).buf(g.index()).refs == 1 ==> final(c).active() == old(c).active().remove_value(g.index() as usize)
            && final(c).inactive() == seq![g.index() as usize] + old(c).inactive(),
{
    let ghost c0 = *c;
    let j = g.buffer;
    let mut b = c.take_buf(j);
    b.refs = b.refs - 1;
    let zero = b.refs == 0;
    c.put_buf(j, b);
    proof {
        assert(c.bufs@ =~= c0.bufs@.update(j as int, Buffer { refs: (c0.bufs@[j as int].refs - 1) as usize, ..c0.bufs@[j as int] }));
        assert(c0.active@.contains(j)) by {
            if c0.inactive@.contains(j) {
                let q = choose|q: int| 0 <= q < c0.inactive@.len() && c0.inactive@[q] == j;
                assert(c0.bufs@[c0.inactive@[q] as int].refs == 0);
            }
        }
    }
    if zero {
        c.move_node(j, false, true);
        proof {
            assert(!c0.inactive@.contains(j));
            lemma_remove_value_absent(c0.inactive@, j);
            lemma_remove_value_contains(c0.active@, j);
        }
    }
    proof {
        if zero {
            lemma_remove_value_contains(c0.active@, j);
        }
        c.lemma_release_keeps_wf(c0, j);
    }
}

impl BufferCache {
    proof fn lemma_release_keeps_wf(&self, c0: BufferCache, j: usize)
        requires
            c0.wf(),
            self.lists_ok(),
            j < c0.bufs@.len(),
            c0.bufs@[j as int].refs > 0,
            self.bufs@ == c0.bufs@.update(j as int, Buffer { refs: (c0.bufs@[j as int].refs - 1) as usize, ..c0.bufs@[j as int] }),
            self.bufs@[j as int].refs > 0 <==> self.active@.contains(j),
            self.bufs@[j as int].refs == 0 <==> self.inactive@.contains(j),
            forall|x: usize| x != j ==> (#[trigger] self.active@.contains(x) <==> c0.active@.contains(x)),
            forall|x: usize| x != j ==> (#[trigger] self.inactive@.contains(x) <==> c0.inactive@.contains(x)),
        ensures
            self.wf(),
    {
        let n = self.bufs@.len();
        assert forall|p: int| 0 <= p < self.active@.len() implies self.bufs@[#[trigger] self.active@[p] as int].refs > 0 by {
            let x = self.active@[p];
            assert(self.active@.contains(x));
            if x != j {
                assert(c0.active@.contains(x));
                let q = choose|q: int| 0 <= q < c0.active@.len() && c0.active@[q] == x;
                assert(c0.bufs@[c0.active@[q] as int].refs > 0);
            }
        }
        assert forall|p: int| 0 <= p < self.inactive@.len() implies self.bufs@[#[trigger] self.inactive@[p] as int].refs == 0 by {
            let x = self.inactive@[p];
            assert(self.inactive@.contains(x));
            if x != j {
                assert(c0.inactive@.contains(x));
                let q = choose|q: int| 0 <= q < c0.inactive@.len() && c0.inactive@[q] == x;
                assert(c0.bufs@[c0.inactive@[q] as int].refs == 0);
            }
        }
        assert forall|i: int, k: int| 0 <= i < n && 0 <= k < n && i != k && #[trigger] self.bufs@[i].block != UNUSED
            implies self.bufs@[i].block != #[trigger] self.bufs@[k].block by {
            assert(c0.bufs@[i].block != c0.bufs@[k].block);
        }
    }
}

impl BufferGuard {
    /// Reads the guarded buffer's block from `dev` into its page. On success the page holds
    /// the block and is valid; on failure it is marked stale.
    pub fn read<D: BlockDevice>(&self, c: &mut BufferCache, dev: &mut D) -> (ok: bool)
        requires
            old(c).wf(),
            old(c).held(self),
            old(dev).block_len() == BLOCK_SIZE,
        ensures
            final(c).wf(),
            final(c).len() == old(c).len(),
            final(c).active() == old(c).active(),
            final(c).inactive() == old(c).inactive(),
            final(dev).blocks() == old(dev).blocks(),
            final(dev).block_len() == old(dev).block_len(),
            forall|i: int| 0 <= i < old(c).len() && i != self.index() ==> #[trigger] final(c).buf(i) == old(c).buf(i),
            final(c).buf(self.index()).block == old(c).buf(self.index()).block,
            final(c).buf(self.index()).refs == old(c).buf(self.index()).refs,
            final(c).buf(self.index()).valid == ok,
            final(c).buf(self.index()).data matches Some(d) && d.len() == BLOCK_SIZE,
            ok ==> final(c).buf(self.index()).data == Some(old(dev).blocks()[old(c).buf(self.index()).block as int]),
            old(dev).healthy() ==> final(dev).healthy(),
            old(dev).healthy() && old(c).buf(self.index()).block < old(dev).blocks().len() ==> ok,
    {
        let ghost c0 = *c;
        let j = self.buffer;
        let mut b = c.take_buf(j);
        let mut page = b.data.take().unwrap();
        let ok = dev.read_block(b.block as usize, &mut page);
        b.data = Some(page);
        b.valid = ok;
        c.put_buf(j, b);
        proof {
            assert(c.wf()) by {
                let n = c.bufs@.len();
                assert forall|x: int, y: int| 0 <= x < n && 0 <= y < n && x != y && #[trigger] c.bufs@[x].block != UNUSED
                    implies c.bufs@[x].block != #[trigger] c.bufs@[y].block by {
                    assert(c0.bufs@[x].block != c0.bufs@[y].block);
                }
            }
        }
        ok
    }

    /// Writes the guarded buffer's page to its block on `dev`, synchronously. `false` is
    /// the device-error path: the device refused the write (a block beyond its end, or a
    /// device that has failed), which the caller must treat as fatal; the device is then
    /// left as it was. A healthy device always takes a block within it.
    pub fn write<D: BlockDevice>(&self, c: &BufferCache, dev: &mut D) -> (ok: bool)
        requires
            c.wf(),
            c.held(self),
            old(dev).block_len() == BLOCK_SIZE,
        ensures
            final(dev).block_len() == old(dev).block_len(),
            ok ==> final(dev).blocks() == old(dev).blocks().update(c.buf(self.index()).block as int, c.buf(self.index()).data.unwrap()),
            !ok ==> final(dev).blocks() == old(dev).blocks(),
            old(dev).healthy() ==> final(dev).healthy(),
            old(dev).healthy() && c.buf(self.index()).block < old(dev).blocks().len() ==> ok,
    {
        let j = self.buffer;
        let b = &c.bufs[j];
        match &b.data {
            Some(page) => dev.write_block(b.block as usize, page),
            None => false,
        }
    }

    /// The guarded buffer's page.
    pub fn data<'a>(&self, c: &'a BufferCache) -> (r: &'a Vec<u8>)
        requires
            c.wf(),
            c.held(self),
        ensures
            c.buf(self.index()).data == Some(r@),
            r@.len() == BLOCK_SIZE,
    {
        match &c.bufs[self.buffer].data {
            Some(page) => page,
            None => {
                proof {
                    assert(false);
                }
                &c.bufs[0].data.as_ref().unwrap()
            },
        }
    }

    /// Copies `src` into the guarded buffer's page at byte `offset`; the rest of the page
    /// and the disk stay as they are.
    pub fn data_mut(&self, c: &mut BufferCache, offset: usize, src: &Vec<u8>)
        requires
            old(c).wf(),
            old(c).held(self),
            offset + src@.len() <= BLOCK_SIZE,
        ensures
            final(c).wf(),
            final(c).len() == old(c).len(),
            final(c).active() == old(c).active(),
            final(c).inactive() == old(c).inactive(),
            forall|i: int| 0 <= i < old(c).len() && i != self.index() ==> #[trigger] final(c).buf(i) == old(c).buf(i),
            final(c).buf(self.index()) == (BufferView {
                data: Some(old(c).buf(self.index()).data.unwrap().subrange(0, offset as int) + src@
                    + old(c).buf(self.index()).data.unwrap().subrange(offset + src@.len(), BLOCK_SIZE as int)),
                ..old(c).buf(self.index())
            }),
    {
        let ghost c0 = *c;
        let j = self.buffer;
        let mut b = c.take_buf(j);
        let mut page = b.data.take().unwrap();
        let ghost p0 = page@;
        let mut k: usize = 0;
        while k < src.len()
            invariant
                offset + src@.len() <= BLOCK_SIZE,
                p0.len() == BLOCK_SIZE,
                page@.len() == BLOCK_SIZE,
                k <= src@.len(),
                forall|x: int| 0 <= x < offset ==> #[trigger] page@[x] == p0[x],
                forall|x: int| offset + src@.len() <= x < BLOCK_SIZE ==> #[trigger] page@[x] == p0[x],
                forall|x: int| 0 <= x < k ==> #[trigger] page@[offset + x] == src@[x],
                forall|x: int| offset + k <= x < offset + src@.len() ==> #[trigger] page@[x] == p0[x],
            decreases src@.len() - k,
        {
            page.set(offset + k, src[k]);
            k = k + 1;
        }
        proof {
            let want = p0.subrange(0, offset as int) + src@ + p0.subrange(offset + src@.len(), BLOCK_SIZE as int);
            assert forall|x: int| 0 <= x < BLOCK_SIZE implies page@[x] == want[x] by {
                if offset <= x < offset + src@.len() {
                    assert(page@[offset + (x - offset)] == src@[x - offset]);
                }
            }
            assert(page@ =~= want);
        }
        b.data = Some(page);
        c.put_buf(j, b);
        proof {
            assert(c.wf()) by {
                let n = c.bufs@.len();
                assert forall|x: int, y: int| 0 <= x < n && 0 <= y < n && x != y && #[trigger] c.bufs@[x].block != UNUSED
                    implies c.bufs@[x].block != #[trigger] c.bufs@[y].block by {
                    assert(c0.bufs@[x].block != c0.bufs@[y].block);
                }
            }
        }
    }
}


impl BufferCache {
    /// What well-formedness promises of each buffer: a block is held by at most one
    /// buffer, a valid or referenced buffer holds a block and its page, and every page is
    /// one block long.
    pub proof fn lemma_wf_facts(&self)
        requires
            self.wf(),
        ensures
            forall|i: int, k: int| 0 <= i < self.len() && 0 <= k < self.len() && i != k
                && #[trigger] self.buf(i).block != UNUSED ==> self.buf(i).block != #[trigger] self.buf(k).block,
            forall|i: int| 0 <= i < self.len() && (#[trigger] self.buf(i)).valid ==> self.buf(i).data is Some && self.buf(i).block != UNUSED,
            forall|i: int| 0 <= i < self.len() && (#[trigger] self.buf(i)).refs > 0 ==> self.buf(i).data is Some && self.buf(i).block != UNUSED,
            forall|i: int| 0 <= i < self.len() ==> ((#[trigger] self.buf(i)).data matches Some(d) ==> d.len() == BLOCK_SIZE),
    {
        assert forall|i: int| 0 <= i < self.len() implies ((#[trigger] self.buf(i)).data matches Some(d) ==> d.len() == BLOCK_SIZE) by {
            assert(self.bufs@[i].data matches Some(d) ==> d@.len() == BLOCK_SIZE);
        }
    }
}


/// One row of the cache listing: buffer index, block, references, whether it is in the
/// active list, and whether it has a page.
pub open spec fn row_of(c: BufferCache, i: usize, active: bool) -> (usize, u32, usize, bool, bool) {
    (i, c.buf(i as int).block, c.buf(i as int).refs, active, c.buf(i as int).data is Some)
}

/// The cache from head to tail: the active list, most recently used first, then the
/// inactive list. Only a cache of `N_BUFFER_TEST` buffers is listed, so that the listing
/// stays small; for any other size there are no rows (`None`), and the caller reports
/// that the listing needs the test size.
pub fn print_info(c: &BufferCache) -> (r: Option<Vec<(usize, u32, usize, bool, bool)>>)
    requires
        c.wf(),
    ensures
        r is None <==> c.len() != N_BUFFER_TEST,
        r matches Some(rows) ==> {
            &&& rows@.len() == c.active().len() + c.inactive().len()
            &&& forall|p: int| 0 <= p < c.active().len() ==> #[trigger] rows@[p] == row_of(*c, c.active()[p], true)
            &&& forall|p: int| 0 <= p < c.inactive().len() ==> #[trigger] rows@[c.active().len() + p] == row_of(*c, c.inactive()[p], false)
        },
{
    if c.bufs.len() != N_BUFFER_TEST {
        return None;
    }
    let mut rows: Vec<(usize, u32, usize, bool, bool)> = Vec::new();
    let mut p: usize = 0;
    while p < c.active.len()
        invariant
            c.wf(),
            p <= c.active@.len(),
            rows@.len() == p,
            forall|q: int| 0 <= q < p ==> #[trigger] rows@[q] == row_of(*c, c.active@[q], true),
        decreases c.active@.len() - p,
    {
        let i = c.active[p];
        assert(c.active@.contains(i));
        let b = &c.bufs[i];
        rows.push((i, b.block, b.refs, true, b.data.is_some()));
        p = p + 1;
    }
    let mut q: usize = 0;
    while q < c.inactive.len()
        invariant
            c.wf(),
            q <= c.inactive@.len(),
            rows@.len() == c.active@.len() + q,
            forall|x: int| 0 <= x < c.active@.len() ==> #[trigger] rows@[x] == row_of(*c, c.active@[x], true),
            forall|x: int| 0 <= x < q ==> #[trigger] rows@[c.active@.len() + x] == row_of(*c, c.inactive@[x], false),
        decreases c.inactive@.len() - q,
    {
        let i = c.inactive[q];
        assert(c.inactive@.contains(i));
        let b = &c.bufs[i];
        rows.push((i, b.block, b.refs, false, b.data.is_some()));
        q = q + 1;
    }
    Some(rows)
}

}
