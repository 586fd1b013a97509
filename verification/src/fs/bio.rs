//! A small buffer cache over a block device, with clock replacement.
use vstd::prelude::*;

verus! {

/// Number of cache slots.
pub const NBUF: usize = 30;

/// Block size in bytes, equal to the device sector size.
pub const BLOCK_SIZE: usize = 512;

/// The block device interface the file system needs: read or write one whole block.
pub trait BlockDevice {
    /// The contents of the device, one sequence of bytes per block.
    spec fn blocks(&self) -> Seq<Seq<u8>>;

    /// Bytes per block.
    spec fn block_len(&self) -> nat;

    /// The device serves every request for a block it has.
    spec fn healthy(&self) -> bool;

    /// Reads block `blockno` into `buf`; returns whether it succeeded.
    fn read_block(&mut self, blockno: usize, buf: &mut Vec<u8>) -> (ok: bool)
        requires
            old(buf)@.len() == old(self).block_len(),
        ensures
            final(self).blocks() == old(self).blocks(),
            final(self).block_len() == old(self).block_len(),
            final(buf)@.len() == old(buf)@.len(),
            old(self).healthy() ==> final(self).healthy(),
            old(self).healthy() && blockno < old(self).blocks().len() ==> ok,
            ok ==> blockno < old(self).blocks().len() && final(buf)@ == old(self).blocks()[blockno as int];

    /// Writes `buf` to block `blockno`; returns whether it succeeded. A failed write
    /// leaves the device unchanged.
    fn write_block(&mut self, blockno: usize, buf: &Vec<u8>) -> (ok: bool)
        requires
            buf@.len() == old(self).block_len(),
        ensures
            final(self).block_len() == old(self).block_len(),
            old(self).healthy() ==> final(self).healthy(),
            old(self).healthy() && blockno < old(self).blocks().len() ==> ok,
            ok ==> blockno < old(self).blocks().len() && final(self).blocks() == old(self).blocks().update(blockno as int, buf@),
            !ok ==> final(self).blocks() == old(self).blocks();
}

/// A device kept in memory: a list of equally sized blocks.
pub struct RamDisk {
    block_len: usize,
    data: Vec<Vec<u8>>,
}

impl RamDisk {
    pub closed spec fn wf(&self) -> bool {
        forall|i: int| 0 <= i < self.data@.len() ==> #[trigger] self.data@[i]@.len() == self.block_len
    }

    /// A zero-filled device of `count` blocks of `block_len` bytes.
    pub fn new(block_len: usize, count: usize) -> (r: RamDisk)
        ensures
            r.wf(),
            r.healthy(),
            r.block_len() == block_len,
            r.blocks().len() == count,
            forall|i: int, j: int| 0 <= i < count && 0 <= j < block_len ==> #[trigger] r.blocks()[i][j] == 0,
    {
        let mut data: Vec<Vec<u8>> = Vec::new();
        let mut k: usize = 0;
        while k < count
            invariant
                k <= count,
                data@.len() == k,
                forall|i: int| 0 <= i < k ==> #[trigger] data@[i]@.len() == block_len,
                forall|i: int, j: int| 0 <= i < k && 0 <= j < block_len ==> #[trigger] data@[i]@[j] == 0,
            decreases count - k,
        {
            data.push(vec![0u8; block_len]);
            k = k + 1;
        }
        RamDisk { block_len, data }
    }
}

impl BlockDevice for RamDisk {
    closed spec fn blocks(&self) -> Seq<Seq<u8>> {
        self.data@.map_values(|b: Vec<u8>| b@)
    }

    closed spec fn block_len(&self) -> nat {
        self.block_len as nat
    }

    /// Every block of a disk in memory has the disk's block length, so every request
    /// for a block it has succeeds.
    closed spec fn healthy(&self) -> bool {
        self.wf()
    }

    fn read_block(&mut self, blockno: usize, buf: &mut Vec<u8>) -> (ok: bool)
        ensures
            ok <==> blockno < old(self).blocks().len() && old(self).blocks()[blockno as int].len() == old(buf)@.len(),
    {
        if blockno >= self.data.len() || self.data[blockno].len() != buf.len() {
            return false;
        }
        let mut i: usize = 0;
        let n = buf.len();
        while i < n
            invariant
                i <= n,
                n == buf@.len(),
                blockno < self.data@.len(),
                self.data@[blockno as int]@.len() == n,
                forall|j: int| 0 <= j < i ==> #[trigger] buf@[j] == self.data@[blockno as int]@[j],
            decreases n - i,
        {
            let b = self.data[blockno][i];
            buf.set(i, b);
            i = i + 1;
        }
        proof {
            assert(buf@ =~= self.blocks()[blockno as int]);
        }
        true
    }

    fn write_block(&mut self, blockno: usize, buf: &Vec<u8>) -> (ok: bool)
        ensures
            ok <==> blockno < old(self).blocks().len(),
    {
        if blockno >= self.data.len() {
            return false;
        }
        let copy = buf.clone();
        let ghost old_data = self.data@;
        self.data.set(blockno, copy);
        proof {
            assert(self.blocks() =~= old(self).blocks().update(blockno as int, buf@));
        }
        true
    }
}


/// One cache slot.
pub struct Buf {
    /// The block this slot holds.
    pub blockno: usize,
    /// Number of valid bytes (0 when the contents are stale).
    pub valid: usize,
    /// References: a slot with references cannot be reused.
    pub refcnt: usize,
    /// The block's bytes.
    pub data: Vec<u8>,
}

impl Buf {
    /// An unused slot.
    pub fn empty() -> (r: Buf)
        ensures
            r.blockno == 0,
            r.valid == 0,
            r.refcnt == 0,
            r.data@.len() == BLOCK_SIZE,
            forall|j: int| 0 <= j < BLOCK_SIZE ==> #[trigger] r.data@[j] == 0,
    {
        Buf { blockno: 0, valid: 0, refcnt: 0, data: vec![0u8; BLOCK_SIZE] }
    }
}

/// The cache: `NBUF` slots and the clock hand where the next search for a free slot starts.
pub struct BufCache {
    bufs: Vec<Buf>,
    hand: usize,
}

/// The observable state of a slot.
pub struct BufView {
    pub blockno: usize,
    pub valid: usize,
    pub refcnt: usize,
    pub data: Seq<u8>,
}

impl BufCache {
    pub closed spec fn view(&self) -> Seq<BufView> {
        self.bufs@.map_values(|b: Buf| BufView { blockno: b.blockno, valid: b.valid, refcnt: b.refcnt, data: b.data@ })
    }

    pub closed spec fn hand_spec(&self) -> int {
        self.hand as int
    }

    pub closed spec fn wf(&self) -> bool {
        &&& self.bufs@.len() == NBUF
        &&& self.hand < NBUF
        &&& forall|i: int| 0 <= i < NBUF ==> #[trigger] self.bufs@[i].data@.len() == BLOCK_SIZE
    }

    /// A well-formed cache has `NBUF` slots of `BLOCK_SIZE` bytes.
    pub proof fn lemma_view(&self)
        requires
            self.wf(),
        ensures
            self@.len() == NBUF,
            forall|j: int| 0 <= j < NBUF ==> (#[trigger] self@[j]).data.len() == BLOCK_SIZE,
    {
    }

    /// Number of slots with references.
    pub open spec fn pinned_count(&self) -> nat {
        self@.filter(|b: BufView| b.refcnt > 0).len()
    }

    /// A cache of `NBUF` empty slots.
    pub fn new() -> (r: BufCache)
        ensures
            r.wf(),
            r@.len() == NBUF,
            r.hand_spec() == 0,
            forall|i: int| 0 <= i < NBUF ==> #[trigger] r@[i].refcnt == 0 && r@[i].valid == 0 && r@[i].blockno == 0,
    {
        let mut bufs: Vec<Buf> = Vec::new();
        let mut k: usize = 0;
        while k < NBUF
            invariant
                k <= NBUF,
                bufs@.len() == k,
                forall|i: int| 0 <= i < k ==> (#[trigger] bufs@[i]).data@.len() == BLOCK_SIZE
                    && bufs@[i].refcnt == 0 && bufs@[i].valid == 0 && bufs@[i].blockno == 0,
            decreases NBUF - k,
        {
            bufs.push(Buf::empty());
            k = k + 1;
        }
        let r = BufCache { bufs, hand: 0 };
        proof {
            assert forall|i: int| 0 <= i < NBUF implies #[trigger] r@[i].refcnt == 0 && r@[i].valid == 0 && r@[i].blockno == 0 by {
                assert(r@[i] == BufView { blockno: r.bufs@[i].blockno, valid: r.bufs@[i].valid, refcnt: r.bufs@[i].refcnt, data: r.bufs@[i].data@ });
            }
        }
        r
    }

    /// The bytes of slot `i`; empty when `i` is out of range or the slot is stale.
    pub fn block_data(&self, i: usize) -> (r: &[u8])
        requires
            self.wf(),
        ensures
            (i >= NBUF || self@[i as int].valid == 0) ==> r@.len() == 0,
            (i < NBUF && self@[i as int].valid != 0) ==> r@ == self@[i as int].data,
    {
        if i >= NBUF || self.bufs[i].valid == 0 {
            return &[];
        }
        self.bufs[i].data.as_slice()
    }

    /// Drops one reference to slot `i` (no effect when out of range or unreferenced).
    pub fn release(&mut self, i: usize)
        requires
            old(self).wf(),
        ensures
            final(self).wf(),
            final(self).hand_spec() == old(self).hand_spec(),
            final(self)@ == if i < NBUF && old(self)@[i as int].refcnt > 0 {
                old(self)@.update(i as int, BufView { refcnt: (old(self)@[i as int].refcnt - 1) as usize, ..old(self)@[i as int] })
            } else {
                old(self)@
            },
    {
        if i < NBUF && self.bufs[i].refcnt > 0 {
            let mut b = self.take_slot(i);
            b.refcnt = b.refcnt - 1;
            self.put_slot(i, b);
            proof {
                assert(self@ =~= old(self)@.update(i as int, BufView { refcnt: (old(self)@[i as int].refcnt - 1) as usize, ..old(self)@[i as int] }));
            }
        }
    }

    /// Number of referenced slots (self-check).
    pub fn pinned(&self) -> (r: usize)
        requires
            self.wf(),
        ensures
            r == self.pinned_count(),
    {
        let mut n: usize = 0;
        let mut i: usize = 0;
        while i < NBUF
            invariant
                i <= NBUF,
                self.wf(),
                n == self@.take(i as int).filter(|b: BufView| b.refcnt > 0).len(),
                n <= i,
            decreases NBUF - i,
        {
            proof {
                reveal(Seq::filter);
                assert(self@.take(i + 1).drop_last() =~= self@.take(i as int));
                assert(self@.take(i + 1).last() == self@[i as int]);
            }
            if self.bufs[i].refcnt > 0 {
                n = n + 1;
            }
            i = i + 1;
        }
        proof {
            assert(self@.take(NBUF as int) =~= self@);
        }
        n
    }

    /// Moves slot `i` out, leaving an empty slot in its place.
    fn take_slot(&mut self, i: usize) -> (b: Buf)
        requires
            old(self).wf(),
            i < NBUF,
        ensures
            b == old(self).bufs@[i as int],
            final(self).bufs@ == old(self).bufs@.update(i as int, final(self).bufs@[i as int]),
            final(self).bufs@[i as int].data@.len() == BLOCK_SIZE,
            final(self).hand == old(self).hand,
    {
        let mut e = Buf::empty();
        core::mem::swap(&mut e, &mut self.bufs[i]);
        e
    }

    /// Puts `b` into slot `i`.
    fn put_slot(&mut self, i: usize, b: Buf)
        requires
            old(self).bufs@.len() == NBUF,
            old(self).hand < NBUF,
            forall|j: int| 0 <= j < NBUF && j != i ==> #[trigger] old(self).bufs@[j].data@.len() == BLOCK_SIZE,
            i < NBUF,
            b.data@.len() == BLOCK_SIZE,
        ensures
            final(self).wf(),
            final(self).bufs@ == old(self).bufs@.update(i as int, b),
            final(self).hand == old(self).hand,
    {
        self.bufs.set(i, b);
    }
}


/// Slot `i` holds valid contents of block `blockno`.
pub open spec fn holds(v: Seq<BufView>, i: int, blockno: usize) -> bool {
    v[i].blockno == blockno && v[i].valid != 0
}

/// The slot reached after stepping `k` places clockwise from `hand`.
pub open spec fn clock_slot(hand: int, k: int) -> int {
    (hand + k) % NBUF as int
}

impl BufCache {
    /// Gets the slot for `blockno` and adds a reference to it. A slot that already holds
    /// valid contents of the block is reused (the lowest such slot); otherwise the first
    /// unreferenced slot clockwise from the hand is taken, the block is read into it, and
    /// the hand moves past it. When the read fails the slot is marked stale.
    pub fn bread<D: BlockDevice>(&mut self, dev: &mut D, blockno: usize) -> (i: usize)
        requires
            old(self).wf(),
            old(dev).block_len() == BLOCK_SIZE,
            (exists|j: int| 0 <= j < NBUF && holds(old(self)@, j, blockno))
                || (exists|j: int| 0 <= j < NBUF && #[trigger] old(self)@[j].refcnt == 0),
            forall|j: int| 0 <= j < NBUF ==> #[trigger] old(self)@[j].refcnt < usize::MAX,
        ensures
            final(self).wf(),
            final(dev).blocks() == old(dev).blocks(),
            final(dev).block_len() == old(dev).block_len(),
            i < NBUF,
            final(self)@[i as int].blockno == blockno,
            final(self)@[i as int].refcnt == old(self)@[i as int].refcnt + 1,
            forall|j: int| 0 <= j < NBUF && j != i ==> #[trigger] final(self)@[j] == old(self)@[j],
            (exists|j: int| 0 <= j < NBUF && holds(old(self)@, j, blockno)) ==> {
                &&& holds(old(self)@, i as int, blockno)
                &&& forall|j: int| 0 <= j < i ==> !holds(old(self)@, j, blockno)
                &&& final(self)@[i as int].data == old(self)@[i as int].data
                &&& final(self)@[i as int].valid == old(self)@[i as int].valid
                &&& final(self).hand_spec() == old(self).hand_spec()
            },
            !(exists|j: int| 0 <= j < NBUF && holds(old(self)@, j, blockno)) ==> {
                &&& old(self)@[i as int].refcnt == 0
                &&& exists|k: int| 0 <= k < NBUF && i == clock_slot(old(self).hand_spec(), k)
                    && forall|k2: int| 0 <= k2 < k ==> #[trigger] old(self)@[clock_slot(old(self).hand_spec(), k2)].refcnt > 0
                &&& final(self).hand_spec() == (i + 1) % NBUF as int
                &&& (final(self)@[i as int].valid == BLOCK_SIZE || final(self)@[i as int].valid == 0)
                &&& final(self)@[i as int].valid == BLOCK_SIZE ==> blockno < old(dev).blocks().len()
                    && final(self)@[i as int].data == old(dev).blocks()[blockno as int]
                &&& old(dev).healthy() && blockno < old(dev).blocks().len() ==> final(self)@[i as int].valid == BLOCK_SIZE
            },
            old(dev).healthy() ==> final(dev).healthy(),
    {
        let mut j: usize = 0;
        while j < NBUF
            invariant
                j <= NBUF,
                self.wf(),
                *self == *old(self),
                *dev == *old(dev),
                dev.block_len() == BLOCK_SIZE,
                forall|q: int| 0 <= q < NBUF ==> #[trigger] old(self)@[q].refcnt < usize::MAX,
                forall|q: int| 0 <= q < j ==> !holds(self@, q, blockno),
            decreases NBUF - j,
        {
            proof {
                assert(self@[j as int].blockno == self.bufs@[j as int].blockno);
                assert(self@[j as int].valid == self.bufs@[j as int].valid);
            }
            if self.bufs[j].blockno == blockno && self.bufs[j].valid != 0 {
                proof {
                    assert(holds(old(self)@, j as int, blockno));
                    assert(old(self)@[j as int].refcnt == self.bufs@[j as int].refcnt);
                }
                let mut b = self.take_slot(j);
                b.refcnt = b.refcnt + 1;
                self.put_slot(j, b);
                proof {
                    assert forall|q: int| 0 <= q < NBUF && q != j implies #[trigger] self@[q] == old(self)@[q] by {
                        assert(self.bufs@[q] == old(self).bufs@[q]);
                    }
                }
                return j;
            }
            j = j + 1;
        }
        let mut k: usize = 0;
        while k < NBUF
            invariant
                k <= NBUF,
                self.wf(),
                *self == *old(self),
                *dev == *old(dev),
                dev.block_len() == BLOCK_SIZE,
                forall|q: int| 0 <= q < NBUF ==> !holds(self@, q, blockno),
                (exists|j: int| 0 <= j < NBUF && holds(old(self)@, j, blockno))
                    || (exists|j: int| 0 <= j < NBUF && #[trigger] old(self)@[j].refcnt == 0),
                forall|k2: int| 0 <= k2 < k ==> #[trigger] self@[clock_slot(self.hand_spec(), k2)].refcnt > 0,
            decreases NBUF - k,
        {
            let i = (self.hand + k) % NBUF;
            proof {
                assert(self@[i as int].refcnt == self.bufs@[i as int].refcnt);
            }
            if self.bufs[i].refcnt == 0 {
                let ghost kk = k as int;
                let mut b = self.take_slot(i);
                assert(b.data@.len() == BLOCK_SIZE);
                b.blockno = blockno;
                b.valid = 0;
                let ok = dev.read_block(blockno, &mut b.data);
                if ok {
                    b.valid = BLOCK_SIZE;
                }
                b.refcnt = 1;
                self.put_slot(i, b);
                self.hand = (i + 1) % NBUF;
                proof {
                    assert forall|q: int| 0 <= q < NBUF && q != i implies #[trigger] self@[q] == old(self)@[q] by {
                        assert(self.bufs@[q] == old(self).bufs@[q]);
                    }
                    assert(i == clock_slot(old(self).hand_spec(), kk));
                }
                return i;
            }
            k = k + 1;
        }
        proof {
            let j = choose|j: int| 0 <= j < NBUF && #[trigger] old(self)@[j].refcnt == 0;
            let kk = (j - self.hand + NBUF) % NBUF as int;
            assert(clock_slot(self.hand_spec(), kk) == j) by (nonlinear_arith)
                requires 0 <= j < 30, 0 <= self.hand < 30, kk == (j - self.hand + 30) % 30, clock_slot(self.hand_spec(), kk) == (self.hand + kk) % 30;
            assert(self@[clock_slot(self.hand_spec(), kk)].refcnt > 0);
        }
        0
    }

    /// Writes slot `i` back to its block on `dev`; returns whether the write succeeded.
    pub fn bwrite<D: BlockDevice>(&mut self, dev: &mut D, i: usize) -> (ok: bool)
        requires
            old(self).wf(),
            i < NBUF,
            old(dev).block_len() == BLOCK_SIZE,
        ensures
            *final(self) == *old(self),
            final(dev).block_len() == old(dev).block_len(),
            ok ==> final(dev).blocks() == old(dev).blocks().update(old(self)@[i as int].blockno as int, old(self)@[i as int].data),
            !ok ==> final(dev).blocks() == old(dev).blocks(),
            old(dev).healthy() ==> final(dev).healthy(),
            old(dev).healthy() && old(self)@[i as int].blockno < old(dev).blocks().len() ==> ok,
    {
        let blockno = self.bufs[i].blockno;
        dev.write_block(blockno, &self.bufs[i].data)
    }
}

}
