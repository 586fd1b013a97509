//! The pool of region descriptors that processes use to record their mmap regions: a
//! fixed array of nodes, the unused ones kept in a free list.
use vstd::prelude::*;

verus! {

/// Nodes in the pool.
pub const N_MMAP: usize = 256;
/// Top of the user stack area.
pub const USER_STACK_TOP: u64 = 0x3f_ffff_e000;
/// End of the mmap area: 4096 pages below the stack top.
pub const MMAP_END: u64 = USER_STACK_TOP - 4096 * 4096;
/// Start of the mmap area: 16384 pages below its end.
pub const MMAP_BEGIN: u64 = MMAP_END - 16384 * 4096;

/// A region of whole pages.
#[derive(PartialEq, Eq, Structural, Clone, Copy, Debug)]
pub struct Region {
    pub begin: usize,
    pub pages: usize,
}

pub struct RegionPool {
    nodes: Vec<Region>,
    free: Vec<usize>,
}

impl RegionPool {
    pub closed spec fn node(&self, i: int) -> Region {
        self.nodes@[i]
    }

    /// Free nodes, the next to be handed out first.
    pub closed spec fn free_list(&self) -> Seq<usize> {
        self.free@
    }

    pub closed spec fn wf(&self) -> bool {
        &&& self.nodes@.len() == N_MMAP
        &&& self.free@.no_duplicates()
        &&& forall|k: int| 0 <= k < self.free@.len() ==> #[trigger] self.free@[k] < N_MMAP
    }

    pub open spec fn is_free(&self, i: usize) -> bool {
        self.free_list().contains(i)
    }
}

/// A pool with every node free, listed by increasing index.
pub fn init() -> (p: RegionPool)
    ensures
        p.wf(),
        p.free_list() == Seq::new(N_MMAP as nat, |i: int| i as usize),
        forall|i: int| 0 <= i < N_MMAP ==> #[trigger] p.node(i) == (Region { begin: 0, pages: 0 }),
{
    let mut nodes: Vec<Region> = Vec::new();
    let mut free: Vec<usize> = Vec::new();
    let mut i: usize = 0;
    while i < N_MMAP
        invariant
            i <= N_MMAP,
            nodes@.len() == i,
            free@ == Seq::new(i as nat, |k: int| k as usize),
            forall|k: int| 0 <= k < i ==> #[trigger] nodes@[k] == (Region { begin: 0, pages: 0 }),
        decreases N_MMAP - i,
    {
        nodes.push(Region { begin: 0, pages: 0 });
        free.push(i);
        proof {
            assert(free@ =~= Seq::new((i + 1) as nat, |k: int| k as usize));
        }
        i = i + 1;
    }
    RegionPool { nodes, free }
}

/// Takes the first free node and clears it. The pool must not be exhausted.
pub fn alloc_node(p: &mut RegionPool) -> (i: usize)
    requires
        old(p).wf(),
        old(p).free_list().len() > 0,
    ensures
        final(p).wf(),
        i == old(p).free_list()[0],
        final(p).free_list() == old(p).free_list().drop_first(),
        final(p).node(i as int) == (Region { begin: 0, pages: 0 }),
        forall|k: int| 0 <= k < N_MMAP && k != i ==> #[trigger] final(p).node(k) == old(p).node(k),
{
    let i = p.free.remove(0);
    proof {
        assert(p.free@ =~= old(p).free@.drop_first());
        assert forall|a: int, b: int| 0 <= a < b < p.free@.len() implies p.free@[a] != p.free@[b] by {
            assert(old(p).free@[a + 1] != old(p).free@[b + 1]);
        }
    }
    p.nodes.set(i, Region { begin: 0, pages: 0 });
    i
}

/// Gives node `i` back: it goes to the front of the free list. The node must belong to
/// the pool and be in use.
pub fn free(p: &mut RegionPool, i: usize)
    requires
        old(p).wf(),
        i < N_MMAP,
        !old(p).is_free(i),
    ensures
        final(p).wf(),
        final(p).free_list() == seq![i] + old(p).free_list(),
        forall|k: int| 0 <= k < N_MMAP ==> #[trigger] final(p).node(k) == old(p).node(k),
{
    p.free.insert(0, i);
    proof {
        assert(p.free@ =~= seq![i] + old(p).free@);
        assert forall|a: int, b: int| 0 <= a < b < p.free@.len() implies p.free@[a] != p.free@[b] by {
            if a == 0 {
                assert(old(p).free@.contains(p.free@[b]));
            } else {
                assert(old(p).free@[a - 1] != old(p).free@[b - 1]);
            }
        }
    }
}

/// Sets node `i` to `r`.
pub fn set_node(p: &mut RegionPool, i: usize, r: Region)
    requires
        old(p).wf(),
        i < N_MMAP,
    ensures
        final(p).wf(),
        final(p).free_list() == old(p).free_list(),
        final(p).node(i as int) == r,
        forall|k: int| 0 <= k < N_MMAP && k != i ==> #[trigger] final(p).node(k) == old(p).node(k),
{
    p.nodes.set(i, r);
}

/// Node `i`.
pub fn get_node(p: &RegionPool, i: usize) -> (r: Region)
    requires
        p.wf(),
        i < N_MMAP,
    ensures
        r == p.node(i as int),
{
    p.nodes[i]
}

/// Two regions can be merged: both non-empty, page aligned, inside the mmap area, and
/// the right one starts where the left one ends.
pub open spec fn mergeable(l: Region, r: Region) -> bool {
    &&& l.pages > 0 && r.pages > 0
    &&& l.begin >= MMAP_BEGIN && r.begin < MMAP_END
    &&& l.begin % 4096 == 0 && r.begin % 4096 == 0
    &&& l.begin < r.begin
    &&& l.pages == (r.begin - l.begin) / 4096
    &&& r.pages <= (MMAP_END - r.begin) / 4096
}

/// Merges adjacent regions `left` and `right` into the one node kept (`left` if
/// `keep_left`), which then covers both, and frees the other. `Err` and no change when
/// the nodes are the same or the regions cannot be merged.
pub fn merge(p: &mut RegionPool, left: usize, right: usize, keep_left: bool) -> (r: Result<usize, ()>)
    requires
        old(p).wf(),
        left < N_MMAP,
        right < N_MMAP,
        !old(p).is_free(left),
        !old(p).is_free(right),
    ensures
        final(p).wf(),
        r is Err <==> left == right || !mergeable(old(p).node(left as int), old(p).node(right as int)),
        r is Err ==> *final(p) == *old(p),
        r matches Ok(k) ==> {
            let discard = if keep_left { right } else { left };
            &&& k == if keep_left { left } else { right }
            &&& final(p).node(k as int) == (Region { begin: old(p).node(left as int).begin,
                pages: (old(p).node(left as int).pages + old(p).node(right as int).pages) as usize })
            &&& final(p).free_list() == seq![discard] + old(p).free_list()
            &&& forall|x: int| 0 <= x < N_MMAP && x != k ==> #[trigger] final(p).node(x) == old(p).node(x)
        },
{
    if left == right {
        return Err(());
    }
    let l = p.nodes[left];
    let rr = p.nodes[right];
    let lb = l.begin as u64;
    let rb = rr.begin as u64;
    if l.pages == 0 || rr.pages == 0 || lb < MMAP_BEGIN || rb >= MMAP_END || l.begin % 4096 != 0
        || rr.begin % 4096 != 0 || l.begin >= rr.begin || l.pages != (rr.begin - l.begin) / 4096
        || rr.pages as u64 > (MMAP_END - rb) / 4096 {
        return Err(());
    }
    let keep = if keep_left { left } else { right };
    let discard = if keep_left { right } else { left };
    proof {
        assert(l.pages + rr.pages <= usize::MAX) by (nonlinear_arith)
            requires
                l.pages == (rr.begin - l.begin) / 4096,
                rr.pages <= (MMAP_END - rr.begin) / 4096,
                l.begin < rr.begin,
                rr.begin < MMAP_END,
                rr.begin <= usize::MAX,
        ;
    }
    let pages = l.pages + rr.pages;
    set_node(p, keep, Region { begin: l.begin, pages });
    free(p, discard);
    Ok(keep)
}


/// The free nodes, the next to be handed out first.
pub fn print_free(p: &RegionPool) -> (r: Vec<usize>)
    requires
        p.wf(),
    ensures
        r@ == p.free_list(),
{
    let mut r: Vec<usize> = Vec::new();
    let mut k: usize = 0;
    while k < p.free.len()
        invariant
            k <= p.free@.len(),
            r@ == p.free@.subrange(0, k as int),
        decreases p.free@.len() - k,
    {
        r.push(p.free[k]);
        proof {
            assert(r@ =~= p.free@.subrange(0, k + 1));
        }
        k = k + 1;
    }
    proof {
        assert(p.free@.subrange(0, p.free@.len() as int) =~= p.free@);
    }
    r
}

}
