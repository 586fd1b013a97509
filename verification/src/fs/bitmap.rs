//! Allocation bitmaps for data blocks and inodes, kept in bitmap blocks on disk and
//! changed through the buffer cache: bit `i` of a block is bit `i % 8` of byte `i / 8`.
use vstd::prelude::*;
use crate::fs::{BLOCK_SIZE, Superblock};
use crate::fs::bio::BlockDevice;
use crate::fs::buffer::{BufferCache, BufferGuard, UNUSED, get, release, get_held_result, get_unheld_result, held_index};

verus! {

/// Bits in one bitmap block.
pub const BITS_PER_BLOCK: usize = 32768;

/// Mask of bit `b` within a byte.
pub open spec fn mask(b: int) -> u8 {
    (1u8 << (b as u8)) as u8
}

/// Bit `i` of the bytes `d`.
pub open spec fn bit(d: Seq<u8>, i: int) -> bool {
    d[i / 8] & mask(i % 8) != 0
}

/// The bytes `d` with bit `i` set to `v`.
pub open spec fn with_bit(d: Seq<u8>, i: int, v: bool) -> Seq<u8> {
    d.update(i / 8, if v { d[i / 8] | mask(i % 8) } else { d[i / 8] & !mask(i % 8) })
}

/// The first clear bit among the first `valid` bits of `d`.
pub open spec fn first_clear(d: Seq<u8>, valid: int, i: int) -> bool {
    &&& 0 <= i < valid
    &&& !bit(d, i)
    &&& forall|k: int| 0 <= k < i ==> #[trigger] bit(d, k)
}

/// Every one of the first `valid` bits of `d` is set.
pub open spec fn all_set(d: Seq<u8>, valid: int) -> bool {
    forall|k: int| 0 <= k < valid ==> #[trigger] bit(d, k)
}

proof fn lemma_mask_bits(x: u8, b: u8, c: u8)
    requires
        b < 8,
        c < 8,
    ensures
        ((x | (1u8 << b)) & (1u8 << c) != 0) == (b == c || x & (1u8 << c) != 0),
        ((x & !(1u8 << b)) & (1u8 << c) != 0) == (b != c && x & (1u8 << c) != 0),
{
    assert(((x | (1u8 << b)) & (1u8 << c) != 0) == (b == c || x & (1u8 << c) != 0)) by (bit_vector)
        requires
            b < 8,
            c < 8,
    ;
    assert(((x & !(1u8 << b)) & (1u8 << c) != 0) == (b != c && x & (1u8 << c) != 0)) by (bit_vector)
        requires
            b < 8,
            c < 8,
    ;
}

/// Setting or clearing bit `i` changes that bit and no other.
pub proof fn lemma_with_bit(d: Seq<u8>, i: int, v: bool, k: int)
    requires
        0 <= i < d.len() * 8,
        0 <= k < d.len() * 8,
    ensures
        with_bit(d, i, v).len() == d.len(),
        bit(with_bit(d, i, v), k) == if k == i { v } else { bit(d, k) },
{
    let e = with_bit(d, i, v);
    if k / 8 == i / 8 {
        lemma_mask_bits(d[i / 8], (i % 8) as u8, (k % 8) as u8);
        if k != i {
            assert(k % 8 != i % 8);
        }
    }
}

/// Index of the first clear bit among the first `valid` bits of `d`.
pub fn find_clear(d: &Vec<u8>, valid: usize) -> (r: Option<usize>)
    requires
        valid <= d@.len() * 8,
    ensures
        r matches Some(i) ==> first_clear(d@, valid as int, i as int),
        r is None ==> all_set(d@, valid as int),
{
    let mut i: usize = 0;
    while i < valid
        invariant
            i <= valid,
            valid <= d@.len() * 8,
            all_set(d@, i as int),
        decreases valid - i,
    {
        let b = (i % 8) as u8;
        if d[i / 8] & (1u8 << b) == 0 {
            return Some(i);
        }
        i = i + 1;
    }
    None
}

/// Cached contents agree with the disk: a valid buffer holds its block's bytes.
pub open spec fn coherent(c: BufferCache, blocks: Seq<Seq<u8>>) -> bool {
    forall|i: int| 0 <= i < c.len() && #[trigger] c.buf(i).valid ==>
        c.buf(i).block < blocks.len() && c.buf(i).data == Some(blocks[c.buf(i).block as int])
}

/// What the cache guarantees to every call of a bitmap operation, whatever the disk did:
/// it stays well formed, every buffer keeps its reference count, and a referenced buffer
/// keeps its block; so the blocks held stay those held before.
pub open spec fn cache_kept(c0: BufferCache, c1: BufferCache) -> bool {
    &&& c1.wf()
    &&& c1.len() == c0.len()
    &&& forall|i: int| 0 <= i < c0.len() ==> #[trigger] c1.buf(i).refs == c0.buf(i).refs
        && (c0.buf(i).refs > 0 ==> c1.buf(i).block == c0.buf(i).block)
}

/// One more reference can be taken to a buffer holding block `b`: none has its count
/// at the maximum.
pub open spec fn refs_room(c: BufferCache, b: u32) -> bool {
    forall|i: int| 0 <= i < c.len() && #[trigger] c.buf(i).block == b ==> c.buf(i).refs < usize::MAX
}

/// A kept cache holds the same blocks referenced as before, with the same room for
/// more references.
pub proof fn lemma_kept_held(c0: BufferCache, c1: BufferCache)
    requires
        cache_kept(c0, c1),
    ensures
        forall|b: u32| #[trigger] c1.block_held(b) == c0.block_held(b),
        forall|b: u32| #[trigger] refs_room(c0, b) ==> refs_room(c1, b),
{
    assert forall|b: u32| #[trigger] c1.block_held(b) == c0.block_held(b) by {
        if c0.block_held(b) {
            let i = choose|i: int| 0 <= i < c0.len() && #[trigger] c0.buf(i).block == b && c0.buf(i).refs > 0;
            assert(c1.buf(i).refs == c0.buf(i).refs);
            assert(c1.buf(i).block == b);
        }
        if c1.block_held(b) {
            let i = choose|i: int| 0 <= i < c1.len() && #[trigger] c1.buf(i).block == b && c1.buf(i).refs > 0;
            assert(c1.buf(i).refs == c0.buf(i).refs);
            assert(c0.buf(i).block == b);
        }
    }
    assert forall|b: u32| #[trigger] refs_room(c0, b) implies refs_room(c1, b) by {
        assert forall|i: int| 0 <= i < c1.len() && #[trigger] c1.buf(i).block == b implies c1.buf(i).refs < usize::MAX by {
            assert(c1.buf(i).refs == c0.buf(i).refs);
            if c0.buf(i).refs > 0 {
                assert(c0.buf(i).block == b);
            }
        }
    }
}

/// What a failed `get` of `block` leaves of cache `c0`: the same references.
proof fn lemma_get_err_kept(c0: BufferCache, c1: BufferCache, blocks: Seq<Seq<u8>>, healthy: bool, block: u32)
    requires
        c0.wf(),
        c1.wf(),
        c1.len() == c0.len(),
        c0.block_held(block) ==> get_held_result(c0, c1, blocks, healthy, block, Err(())),
        !c0.block_held(block) ==> get_unheld_result(c0, c1, blocks, healthy, block, Err(())),
    ensures
        cache_kept(c0, c1),
{
    if c0.block_held(block) {
        let j = held_index(c0, block);
        assert forall|i: int| 0 <= i < c0.len() implies #[trigger] c1.buf(i).refs == c0.buf(i).refs
            && (c0.buf(i).refs > 0 ==> c1.buf(i).block == c0.buf(i).block) by {
            if i != j {
                assert(c1.buf(i) == c0.buf(i));
            }
        }
    } else {
        match crate::fs::buffer::get_victim(c0, block) {
            Some(j) => {
                assert forall|i: int| 0 <= i < c0.len() implies #[trigger] c1.buf(i).refs == c0.buf(i).refs
                    && (c0.buf(i).refs > 0 ==> c1.buf(i).block == c0.buf(i).block) by {
                    if i != j {
                        assert(c1.buf(i) == c0.buf(i));
                    }
                }
            },
            None => {},
        }
    }
}

/// What a successful `get` of `block`, on a cache that agrees with `blocks`, hands out:
/// a buffer with one reference more, holding exactly the block's bytes; no other buffer
/// changes, and the inactive list loses the buffer when it had no reference before.
proof fn lemma_get_ok(c0: BufferCache, c1: BufferCache, blocks: Seq<Seq<u8>>, healthy: bool, block: u32, g: BufferGuard)
    requires
        c0.wf(),
        c1.wf(),
        c1.len() == c0.len(),
        coherent(c0, blocks),
        c0.block_held(block) ==> get_held_result(c0, c1, blocks, healthy, block, Ok(g)),
        !c0.block_held(block) ==> get_unheld_result(c0, c1, blocks, healthy, block, Ok(g)),
    ensures
        0 <= g.index() < c0.len(),
        c1.buf(g.index()).data == Some(blocks[block as int]),
        c1.buf(g.index()).block == block,
        c1.buf(g.index()).refs == c0.buf(g.index()).refs + 1,
        c0.buf(g.index()).refs > 0 ==> c0.buf(g.index()).block == block,
        forall|i: int| 0 <= i < c0.len() && i != g.index() ==> #[trigger] c1.buf(i) == c0.buf(i),
        c1.inactive().len() + (if c0.buf(g.index()).refs == 0 { 1int } else { 0int }) == c0.inactive().len(),
{
    c0.lemma_lists();
    let j = g.index();
    if c0.block_held(block) {
        assert(j == held_index(c0, block));
        if c0.buf(j).valid {
            assert(c0.buf(j).block == block);
        }
    } else {
        let hit = crate::fs::buffer::get_hit(c0, block);
        if hit && c0.buf(j).valid {
            assert(c0.buf(j).block == block);
        }
        let v = crate::fs::buffer::get_victim(c0, block)->0;
        assert(v == j);
        assert(c0.inactive().contains(v)) by {
            if hit {
                let p = choose|p: int| 0 <= p < c0.inactive().len() && #[trigger] c0.buf(c0.inactive()[p] as int).block == block;
                assert(c0.inactive()[p] == v);
            } else {
                assert(c0.inactive()[c0.inactive().len() - 1] == v);
            }
        }
        c0.inactive().index_of_first_ensures(v);
    }
}

/// Sets bit `i` (`v` true) or clears it in bitmap block `bitmap_block`, through the cache.
fn update_bit<D: BlockDevice>(c: &mut BufferCache, dev: &mut D, bitmap_block: u32, find: bool, bit_index: usize, valid: usize)
    -> (r: Result<Option<u32>, ()>)
    requires
        old(c).wf(),
        old(dev).block_len() == BLOCK_SIZE,
        bitmap_block != UNUSED,
        coherent(*old(c), old(dev).blocks()),
        valid <= BITS_PER_BLOCK,
        bit_index < BITS_PER_BLOCK,
    ensures
        cache_kept(*old(c), *final(c)),
        final(dev).block_len() == old(dev).block_len(),
        old(dev).healthy() ==> final(dev).healthy(),
        old(dev).healthy() && bitmap_block < old(dev).blocks().len() && old(c).inactive().len() > 0
            && refs_room(*old(c), bitmap_block) ==> r is Ok,
        r is Ok ==> final(c).inactive().len() == old(c).inactive().len(),
        r is Ok ==> {
            &&& coherent(*final(c), final(dev).blocks())
            &&& bitmap_block < old(dev).blocks().len()
            &&& old(dev).blocks()[bitmap_block as int].len() == BLOCK_SIZE
            &&& find ==> match r {
                Ok(Some(i)) => first_clear(old(dev).blocks()[bitmap_block as int], valid as int, i as int)
                    && final(dev).blocks() == old(dev).blocks().update(bitmap_block as int,
                        with_bit(old(dev).blocks()[bitmap_block as int], i as int, true)),
                _ => all_set(old(dev).blocks()[bitmap_block as int], valid as int)
                    && final(dev).blocks() == old(dev).blocks(),
            }
            &&& !find ==> r == Ok::<Option<u32>, ()>(None) && final(dev).blocks() == old(dev).blocks().update(bitmap_block as int,
                with_bit(old(dev).blocks()[bitmap_block as int], bit_index as int, false))
        },
{
    let ghost c0 = *c;
    let ghost b0 = dev.blocks();
    let ghost h0 = dev.healthy();
    proof {
        c0.lemma_wf_facts();
        if c0.block_held(bitmap_block) {
            let hj = held_index(c0, bitmap_block);
            assert(c0.buf(hj).block == bitmap_block);
        }
    }
    let g = match get(c, dev, bitmap_block) {
        Ok(g) => g,
        Err(()) => {
            proof {
                lemma_get_err_kept(c0, *c, b0, h0, bitmap_block);
            }
            return Err(());
        },
    };
    let ghost j = g.index();
    proof {
        lemma_get_ok(c0, *c, b0, h0, bitmap_block, g);
    }
    let ghost d0 = b0[bitmap_block as int];
    let target: usize;
    if find {
        match find_clear(g.data(c), valid) {
            Some(i) => {
                target = i;
            },
            None => {
                release(c, g);
                proof {
                    lemma_kept_by_frame(c0, *c, j);
                    lemma_coherent_frame(c0, *c, bitmap_block, b0, b0);
                }
                return Ok(None);
            },
        }
    } else {
        target = bit_index;
    }
    let k = target / 8;
    let byte = g.data(c)[k];
    let m = 1u8 << ((target % 8) as u8);
    let nb = if find { byte | m } else { byte & !m };
    let one = vec![nb];
    g.data_mut(c, k, &one);
    proof {
        assert(c.buf(j).data.unwrap() =~= with_bit(d0, target as int, find));
    }
    let ok = g.write(c, dev);
    release(c, g);
    proof {
        lemma_kept_by_frame(c0, *c, j);
        if ok {
            lemma_coherent_frame(c0, *c, bitmap_block, b0, dev.blocks());
        }
    }
    if !ok {
        return Err(());
    }
    if find {
        Ok(Some(target as u32))
    } else {
        Ok(None)
    }
}


/// A cache that differs from `c0` only in one buffer, with the same reference count
/// and, when referenced, the same block, keeps the references of `c0`.
proof fn lemma_kept_by_frame(c0: BufferCache, c1: BufferCache, j: int)
    requires
        c1.wf(),
        c1.len() == c0.len(),
        0 <= j < c0.len(),
        c1.buf(j).refs == c0.buf(j).refs,
        c0.buf(j).refs > 0 ==> c1.buf(j).block == c0.buf(j).block,
        forall|i: int| 0 <= i < c0.len() && i != j ==> #[trigger] c1.buf(i) == c0.buf(i),
    ensures
        cache_kept(c0, c1),
{
    assert forall|i: int| 0 <= i < c0.len() implies #[trigger] c1.buf(i).refs == c0.buf(i).refs
        && (c0.buf(i).refs > 0 ==> c1.buf(i).block == c0.buf(i).block) by {
        if i != j {
            assert(c1.buf(i) == c0.buf(i));
        }
    }
}

/// Coherence survives a change of one buffer `j`, now holding `bb`, together with a change
/// of the disk confined to block `bb`, when `j` agrees with the new disk.
proof fn lemma_coherent_frame(c0: BufferCache, c1: BufferCache, bb: u32, b0: Seq<Seq<u8>>, b1: Seq<Seq<u8>>)
    requires
        c1.wf(),
        coherent(c0, b0),
        c1.len() == c0.len(),
        bb != UNUSED,
        b1.len() == b0.len(),
        forall|x: int| 0 <= x < b0.len() && x != bb ==> b1[x] == b0[x],
        exists|j: int| 0 <= j < c0.len() && c1.buf(j).block == bb
            && (c1.buf(j).valid ==> bb < b1.len() && c1.buf(j).data == Some(b1[bb as int]))
            && forall|i: int| 0 <= i < c0.len() && i != j ==> #[trigger] c1.buf(i) == c0.buf(i),
    ensures
        coherent(c1, b1),
{
    let j = choose|j: int| 0 <= j < c0.len() && c1.buf(j).block == bb
        && (c1.buf(j).valid ==> bb < b1.len() && c1.buf(j).data == Some(b1[bb as int]))
        && forall|i: int| 0 <= i < c0.len() && i != j ==> #[trigger] c1.buf(i) == c0.buf(i);
    c1.lemma_wf_facts();
    assert forall|i: int| 0 <= i < c1.len() && #[trigger] c1.buf(i).valid implies
        c1.buf(i).block < b1.len() && c1.buf(i).data == Some(b1[c1.buf(i).block as int]) by {
        if i != j {
            assert(c1.buf(i) == c0.buf(i));
            assert(c1.buf(j).block != UNUSED);
            assert(c1.buf(i).block != bb);
        }
    }
}


/// Scans the first `valid` bits of bitmap block `bitmap_block`, sets the first clear one
/// and writes the block back. Returns its index in the block, or `None` when all are set.
/// `Err` when the block cannot be read or written.
pub fn search_and_set<D: BlockDevice>(c: &mut BufferCache, dev: &mut D, bitmap_block: u32, valid: usize)
    -> (r: Result<Option<u32>, ()>)
    requires
        old(c).wf(),
        old(dev).block_len() == BLOCK_SIZE,
        bitmap_block != UNUSED,
        coherent(*old(c), old(dev).blocks()),
        valid <= BITS_PER_BLOCK,
    ensures
        cache_kept(*old(c), *final(c)),
        final(dev).block_len() == old(dev).block_len(),
        old(dev).healthy() ==> final(dev).healthy(),
        old(dev).healthy() && bitmap_block < old(dev).blocks().len() && old(c).inactive().len() > 0
            && refs_room(*old(c), bitmap_block) ==> r is Ok,
        r is Ok ==> final(c).inactive().len() == old(c).inactive().len(),
        r is Ok ==> coherent(*final(c), final(dev).blocks()) && bitmap_block < old(dev).blocks().len(),
        r matches Ok(Some(i)) ==> first_clear(old(dev).blocks()[bitmap_block as int], valid as int, i as int)
            && final(dev).blocks() == old(dev).blocks().update(bitmap_block as int,
                with_bit(old(dev).blocks()[bitmap_block as int], i as int, true)),
        r == Ok::<Option<u32>, ()>(None) ==> all_set(old(dev).blocks()[bitmap_block as int], valid as int)
            && final(dev).blocks() == old(dev).blocks(),
{
    update_bit(c, dev, bitmap_block, true, 0, valid)
}

/// Clears bit `bit_index` of bitmap block `bitmap_block` and writes the block back.
/// `Err` when the block cannot be read or written.
pub fn clear<D: BlockDevice>(c: &mut BufferCache, dev: &mut D, bitmap_block: u32, bit_index: usize) -> (r: Result<(), ()>)
    requires
        old(c).wf(),
        old(dev).block_len() == BLOCK_SIZE,
        bitmap_block != UNUSED,
        coherent(*old(c), old(dev).blocks()),
        bit_index < BITS_PER_BLOCK,
    ensures
        cache_kept(*old(c), *final(c)),
        final(dev).block_len() == old(dev).block_len(),
        old(dev).healthy() ==> final(dev).healthy(),
        old(dev).healthy() && bitmap_block < old(dev).blocks().len() && old(c).inactive().len() > 0
            && refs_room(*old(c), bitmap_block) ==> r is Ok,
        r is Ok ==> final(c).inactive().len() == old(c).inactive().len(),
        r is Ok ==> coherent(*final(c), final(dev).blocks()) && bitmap_block < old(dev).blocks().len()
            && final(dev).blocks() == old(dev).blocks().update(bitmap_block as int,
                with_bit(old(dev).blocks()[bitmap_block as int], bit_index as int, false)),
{
    match update_bit(c, dev, bitmap_block, false, bit_index, 0) {
        Ok(_) => Ok(()),
        Err(()) => Err(()),
    }
}

/// Bit `g` of the bitmap that starts at block `first`.
pub open spec fn region_bit(blocks: Seq<Seq<u8>>, first: int, g: int) -> bool {
    bit(blocks[first + g / (BITS_PER_BLOCK as int)], g % (BITS_PER_BLOCK as int))
}

/// `g` is the first clear bit among the first `total` bits of the bitmap at `first`.
pub open spec fn region_first_clear(blocks: Seq<Seq<u8>>, first: int, total: int, g: int) -> bool {
    &&& 0 <= g < total
    &&& first + g / (BITS_PER_BLOCK as int) < blocks.len()
    &&& !region_bit(blocks, first, g)
    &&& forall|k: int| 0 <= k < g ==> #[trigger] region_bit(blocks, first, k)
}

/// The disk after setting (`v` true) or clearing bit `g` of the bitmap at `first`.
pub open spec fn region_with_bit(blocks: Seq<Seq<u8>>, first: int, g: int, v: bool) -> Seq<Seq<u8>> {
    let b = first + g / (BITS_PER_BLOCK as int);
    blocks.update(b, with_bit(blocks[b], g % (BITS_PER_BLOCK as int), v))
}

proof fn lemma_split(k: int, t: int)
    requires
        0 <= k,
        0 <= t < BITS_PER_BLOCK,
    ensures
        (k * BITS_PER_BLOCK + t) / (BITS_PER_BLOCK as int) == k,
        (k * BITS_PER_BLOCK + t) % (BITS_PER_BLOCK as int) == t,
{
    assert((k * 32768 + t) / 32768 == k && (k * 32768 + t) % 32768 == t) by (nonlinear_arith)
        requires
            0 <= k,
            0 <= t < 32768,
    ;
}

proof fn lemma_div_below(g: int, k: int)
    requires
        0 <= g < k * BITS_PER_BLOCK,
    ensures
        g / (BITS_PER_BLOCK as int) < k,
{
    assert(g / 32768 < k) by (nonlinear_arith)
        requires
            0 <= g < k * 32768,
    ;
}

proof fn lemma_kept_trans(c0: BufferCache, c1: BufferCache, c2: BufferCache)
    requires
        cache_kept(c0, c1),
        cache_kept(c1, c2),
    ensures
        cache_kept(c0, c2),
{
    assert forall|i: int| 0 <= i < c0.len() implies #[trigger] c2.buf(i).refs == c0.buf(i).refs
        && (c0.buf(i).refs > 0 ==> c2.buf(i).block == c0.buf(i).block) by {
        assert(c1.buf(i).refs == c0.buf(i).refs);
        assert(c2.buf(i).refs == c1.buf(i).refs);
    }
}

/// Allocates the first clear bit of the bitmap of `nblocks` blocks at `first`, which
/// covers `total` objects numbered from `base`: sets it, writes its block back and
/// returns `base` plus its index. `None` when every bit is set; `Err` on a disk error.
fn alloc_in<D: BlockDevice>(c: &mut BufferCache, dev: &mut D, first: u32, nblocks: u32, total: u32, base: u32)
    -> (r: Result<Option<u32>, ()>)
    requires
        old(c).wf(),
        old(dev).block_len() == BLOCK_SIZE,
        coherent(*old(c), old(dev).blocks()),
        first + nblocks < UNUSED,
        nblocks * BITS_PER_BLOCK >= total,
        base + total <= u32::MAX,
    ensures
        cache_kept(*old(c), *final(c)),
        final(dev).block_len() == old(dev).block_len(),
        old(dev).healthy() ==> final(dev).healthy(),
        old(dev).healthy() && first + nblocks <= old(dev).blocks().len() && old(c).inactive().len() > 0
            && (forall|b: u32| first <= b < first + nblocks ==> #[trigger] refs_room(*old(c), b)) ==> r is Ok,
        r is Ok ==> coherent(*final(c), final(dev).blocks()),
        r matches Ok(Some(n)) ==> base <= n && region_first_clear(old(dev).blocks(), first as int, total as int, n - base)
            && old(dev).blocks()[first + (n - base) / (BITS_PER_BLOCK as int)].len() == BLOCK_SIZE
            && final(dev).blocks() == region_with_bit(old(dev).blocks(), first as int, n - base, true),
        r == Ok::<Option<u32>, ()>(None) ==> final(dev).blocks() == old(dev).blocks()
            && forall|g: int| 0 <= g < total ==> first + g / (BITS_PER_BLOCK as int) < old(dev).blocks().len()
                && #[trigger] region_bit(old(dev).blocks(), first as int, g),
{
    let ghost c0 = *c;
    let ghost b0 = dev.blocks();
    let mut start: u64 = 0;
    let mut k: u32 = 0;
    while start < total as u64
        invariant
            c0 == *old(c),
            b0 == old(dev).blocks(),
            old(dev).block_len() == BLOCK_SIZE,
            c0.wf(),
            cache_kept(c0, *c),
            dev.block_len() == BLOCK_SIZE,
            dev.blocks() == b0,
            coherent(*c, b0),
            first + nblocks < UNUSED,
            nblocks * BITS_PER_BLOCK >= total,
            base + total <= u32::MAX,
            start == k * BITS_PER_BLOCK,
            k <= nblocks,
            start < total + BITS_PER_BLOCK,
            k == 0 || first + k <= b0.len(),
            forall|g: int| 0 <= g < start && g < total ==> #[trigger] region_bit(b0, first as int, g),
            old(dev).healthy() ==> dev.healthy(),
            c.inactive().len() == c0.inactive().len(),
        decreases nblocks - k,
    {
        assert(k < nblocks) by (nonlinear_arith)
            requires
                start == k * BITS_PER_BLOCK,
                start < total,
                nblocks * BITS_PER_BLOCK >= total,
        ;
        let remaining = total as u64 - start;
        let valid: usize = if remaining < BITS_PER_BLOCK as u64 { remaining as usize } else { BITS_PER_BLOCK };
        let block = first + k;
        let ghost c1 = *c;
        proof {
            lemma_kept_held(c0, c1);
        }
        let r = update_bit(c, dev, block, true, 0, valid);
        proof {
            lemma_kept_trans(c0, c1, *c);
        }
        match r {
            Err(()) => {
                proof {
                    assert(refs_room(c0, block) ==> refs_room(c1, block));
                }
                return Err(());
            },
            Ok(Some(i)) => {
                let n = (base as u64 + start + i as u64) as u32;
                proof {
                    let g = start + i;
                    lemma_split(k as int, i as int);
                    assert(g / (BITS_PER_BLOCK as int) == k);
                    assert forall|x: int| 0 <= x < g implies #[trigger] region_bit(b0, first as int, x) by {
                        if x >= start {
                            lemma_split(k as int, x - start);
                            assert(x - start < i);
                            assert(bit(b0[block as int], x - start));
                        }
                    }
                    assert(region_with_bit(b0, first as int, g, true) == dev.blocks());
                }
                return Ok(Some(n));
            },
            Ok(None) => {
                proof {
                    assert forall|g: int| 0 <= g < start + BITS_PER_BLOCK && g < total implies
                        #[trigger] region_bit(b0, first as int, g) by {
                        if g >= start {
                            lemma_split(k as int, g - start);
                            assert(bit(b0[block as int], g - start));
                        }
                    }
                }
                start = start + BITS_PER_BLOCK as u64;
                k = k + 1;
            },
        }
    }
    proof {
        assert forall|g: int| 0 <= g < total implies first + g / (BITS_PER_BLOCK as int) < b0.len()
            && #[trigger] region_bit(b0, first as int, g) by {
            assert(g < start);
            lemma_div_below(g, k as int);
        }
    }
    Ok(None)
}


/// Clears bit `number - base` of the bitmap at `first` and writes its block back.
fn free_in<D: BlockDevice>(c: &mut BufferCache, dev: &mut D, first: u32, nblocks: u32, base: u32, number: u32) -> (r: Result<(), ()>)
    requires
        old(c).wf(),
        old(dev).block_len() == BLOCK_SIZE,
        coherent(*old(c), old(dev).blocks()),
        first + nblocks < UNUSED,
        base <= number,
        number - base < nblocks * BITS_PER_BLOCK,
    ensures
        cache_kept(*old(c), *final(c)),
        final(dev).block_len() == old(dev).block_len(),
        old(dev).healthy() ==> final(dev).healthy(),
        old(dev).healthy() && first + nblocks <= old(dev).blocks().len() && old(c).inactive().len() > 0
            && (forall|b: u32| first <= b < first + nblocks ==> #[trigger] refs_room(*old(c), b)) ==> r is Ok,
        r is Ok ==> coherent(*final(c), final(dev).blocks())
            && first + (number - base) / (BITS_PER_BLOCK as int) < old(dev).blocks().len()
            && final(dev).blocks() == region_with_bit(old(dev).blocks(), first as int, number - base, false),
{
    let g = number - base;
    let k = g / (BITS_PER_BLOCK as u32);
    proof {
        lemma_div_below(g as int, nblocks as int);
    }
    let block = first + k;
    clear(c, dev, block, (g % (BITS_PER_BLOCK as u32)) as usize)
}

/// Some bit among the first `total` bits of the bitmap at `first`, on the disk, is clear.
pub open spec fn has_clear(blocks: Seq<Seq<u8>>, first: int, total: int) -> bool {
    exists|g: int| 0 <= g < total && first + g / (BITS_PER_BLOCK as int) < blocks.len()
        && !#[trigger] region_bit(blocks, first, g)
}

/// Allocates a data block: sets the first clear bit of the data bitmap and returns the
/// block's number on disk. Some data block must be free. `Err` on a disk error.
pub fn alloc_block<D: BlockDevice>(c: &mut BufferCache, dev: &mut D, sb: &Superblock) -> (r: Result<u32, ()>)
    requires
        old(c).wf(),
        old(dev).block_len() == BLOCK_SIZE,
        coherent(*old(c), old(dev).blocks()),
        sb.layout_ok(),
        has_clear(old(dev).blocks(), sb.data_bitmap as int, sb.data_blocks as int),
    ensures
        cache_kept(*old(c), *final(c)),
        final(dev).block_len() == old(dev).block_len(),
        old(dev).healthy() ==> final(dev).healthy(),
        old(dev).healthy() && sb.data_bitmap + sb.data_bitmap_blocks <= old(dev).blocks().len()
            && old(c).inactive().len() > 0
            && (forall|b: u32| sb.data_bitmap <= b < sb.data_bitmap + sb.data_bitmap_blocks ==> #[trigger] refs_room(*old(c), b)) ==> r is Ok,
        r is Ok ==> coherent(*final(c), final(dev).blocks()),
        r matches Ok(n) ==> sb.data_first <= n
            && region_first_clear(old(dev).blocks(), sb.data_bitmap as int, sb.data_blocks as int, n - sb.data_first)
            && old(dev).blocks()[sb.data_bitmap + (n - sb.data_first) / (BITS_PER_BLOCK as int)].len() == BLOCK_SIZE
            && final(dev).blocks() == region_with_bit(old(dev).blocks(), sb.data_bitmap as int, n - sb.data_first, true),
{
    match alloc_in(c, dev, sb.data_bitmap, sb.data_bitmap_blocks, sb.data_blocks, sb.data_first) {
        Ok(Some(n)) => Ok(n),
        Ok(None) => {
            proof {
                let g = choose|g: int| 0 <= g < sb.data_blocks && sb.data_bitmap + g / (BITS_PER_BLOCK as int) < old(dev).blocks().len()
                    && !#[trigger] region_bit(old(dev).blocks(), sb.data_bitmap as int, g);
                assert(region_bit(old(dev).blocks(), sb.data_bitmap as int, g));
            }
            Err(())
        },
        Err(()) => Err(()),
    }
}

/// Allocates an inode: sets the first clear bit of the inode bitmap and returns the
/// inode's number, counting from 0. Some inode must be free. `Err` on a disk error.
pub fn alloc_inode<D: BlockDevice>(c: &mut BufferCache, dev: &mut D, sb: &Superblock) -> (r: Result<u32, ()>)
    requires
        old(c).wf(),
        old(dev).block_len() == BLOCK_SIZE,
        coherent(*old(c), old(dev).blocks()),
        sb.layout_ok(),
        has_clear(old(dev).blocks(), sb.inode_bitmap as int, sb.total_inodes as int),
    ensures
        cache_kept(*old(c), *final(c)),
        final(dev).block_len() == old(dev).block_len(),
        old(dev).healthy() ==> final(dev).healthy(),
        old(dev).healthy() && sb.inode_bitmap + sb.inode_bitmap_blocks <= old(dev).blocks().len()
            && old(c).inactive().len() > 0
            && (forall|b: u32| sb.inode_bitmap <= b < sb.inode_bitmap + sb.inode_bitmap_blocks ==> #[trigger] refs_room(*old(c), b)) ==> r is Ok,
        r is Ok ==> coherent(*final(c), final(dev).blocks()),
        r matches Ok(n) ==> region_first_clear(old(dev).blocks(), sb.inode_bitmap as int, sb.total_inodes as int, n as int)
            && old(dev).blocks()[sb.inode_bitmap + (n as int) / (BITS_PER_BLOCK as int)].len() == BLOCK_SIZE
            && final(dev).blocks() == region_with_bit(old(dev).blocks(), sb.inode_bitmap as int, n as int, true),
{
    match alloc_in(c, dev, sb.inode_bitmap, sb.inode_bitmap_blocks, sb.total_inodes, 0) {
        Ok(Some(n)) => Ok(n),
        Ok(None) => {
            proof {
                let g = choose|g: int| 0 <= g < sb.total_inodes && sb.inode_bitmap + g / (BITS_PER_BLOCK as int) < old(dev).blocks().len()
                    && !#[trigger] region_bit(old(dev).blocks(), sb.inode_bitmap as int, g);
                assert(region_bit(old(dev).blocks(), sb.inode_bitmap as int, g));
            }
            Err(())
        },
        Err(()) => Err(()),
    }
}

/// Frees data block `number`: clears its bit in the data bitmap.
pub fn free_block<D: BlockDevice>(c: &mut BufferCache, dev: &mut D, sb: &Superblock, number: u32) -> (r: Result<(), ()>)
    requires
        old(c).wf(),
        old(dev).block_len() == BLOCK_SIZE,
        coherent(*old(c), old(dev).blocks()),
        sb.layout_ok(),
        sb.data_first <= number < sb.data_first + sb.data_blocks,
    ensures
        cache_kept(*old(c), *final(c)),
        final(dev).block_len() == old(dev).block_len(),
        old(dev).healthy() ==> final(dev).healthy(),
        old(dev).healthy() && sb.data_bitmap + sb.data_bitmap_blocks <= old(dev).blocks().len()
            && old(c).inactive().len() > 0
            && (forall|b: u32| sb.data_bitmap <= b < sb.data_bitmap + sb.data_bitmap_blocks ==> #[trigger] refs_room(*old(c), b)) ==> r is Ok,
        r is Ok ==> coherent(*final(c), final(dev).blocks())
            && final(dev).blocks() == region_with_bit(old(dev).blocks(), sb.data_bitmap as int, number - sb.data_first, false),
{
    free_in(c, dev, sb.data_bitmap, sb.data_bitmap_blocks, sb.data_first, number)
}

/// Frees inode `number`: clears its bit in the inode bitmap.
pub fn free_inode<D: BlockDevice>(c: &mut BufferCache, dev: &mut D, sb: &Superblock, number: u32) -> (r: Result<(), ()>)
    requires
        old(c).wf(),
        old(dev).block_len() == BLOCK_SIZE,
        coherent(*old(c), old(dev).blocks()),
        sb.layout_ok(),
        number < sb.total_inodes,
    ensures
        cache_kept(*old(c), *final(c)),
        final(dev).block_len() == old(dev).block_len(),
        old(dev).healthy() ==> final(dev).healthy(),
        old(dev).healthy() && sb.inode_bitmap + sb.inode_bitmap_blocks <= old(dev).blocks().len()
            && old(c).inactive().len() > 0
            && (forall|b: u32| sb.inode_bitmap <= b < sb.inode_bitmap + sb.inode_bitmap_blocks ==> #[trigger] refs_room(*old(c), b)) ==> r is Ok,
        r is Ok ==> coherent(*final(c), final(dev).blocks())
            && final(dev).blocks() == region_with_bit(old(dev).blocks(), sb.inode_bitmap as int, number as int, false),
{
    free_in(c, dev, sb.inode_bitmap, sb.inode_bitmap_blocks, 0, number)
}

/// Freeing what was just allocated gives the bitmap block back unchanged: clearing a bit
/// that setting turned on restores every byte.
pub proof fn lemma_free_undoes_alloc(d: Seq<u8>, i: int)
    requires
        0 <= i < d.len() * 8,
        !bit(d, i),
    ensures
        with_bit(with_bit(d, i, true), i, false) == d,
{
    let x = d[i / 8];
    let b = (i % 8) as u8;
    assert(x & (1u8 << b) == 0);
    assert(((x | (1u8 << b)) & !(1u8 << b)) == x) by (bit_vector)
        requires
            b < 8,
            x & (1u8 << b) == 0,
    ;
    assert(with_bit(with_bit(d, i, true), i, false) =~= d);
}

/// The same law for a whole bitmap region: clearing the bit that `alloc` set restores
/// the disk.
pub proof fn lemma_region_free_undoes_alloc(blocks: Seq<Seq<u8>>, first: int, g: int)
    requires
        0 <= g,
        0 <= first + g / (BITS_PER_BLOCK as int) < blocks.len(),
        blocks[first + g / (BITS_PER_BLOCK as int)].len() == BLOCK_SIZE,
        !region_bit(blocks, first, g),
    ensures
        region_with_bit(region_with_bit(blocks, first, g, true), first, g, false) == blocks,
{
    let b = first + g / (BITS_PER_BLOCK as int);
    let t = g % (BITS_PER_BLOCK as int);
    lemma_free_undoes_alloc(blocks[b], t);
    assert(region_with_bit(region_with_bit(blocks, first, g, true), first, g, false) =~= blocks);
}

/// Freeing the data block that [`alloc_block`] just handed out leaves the disk as it was
/// before the allocation, so the next [`alloc_block`] hands out the same block again. The
/// number handed out is one that [`free_block`] takes, and the two calls' effects, as
/// their contracts state them, cancel.
pub proof fn lemma_alloc_free_block_round_trip(sb: Superblock, d0: Seq<Seq<u8>>, d1: Seq<Seq<u8>>, d2: Seq<Seq<u8>>, n: u32)
    requires
        sb.data_first <= n,
        region_first_clear(d0, sb.data_bitmap as int, sb.data_blocks as int, n - sb.data_first),
        d0[sb.data_bitmap + (n - sb.data_first) / (BITS_PER_BLOCK as int)].len() == BLOCK_SIZE,
        d1 == region_with_bit(d0, sb.data_bitmap as int, n - sb.data_first, true),
        d2 == region_with_bit(d1, sb.data_bitmap as int, n - sb.data_first, false),
    ensures
        sb.data_first <= n < sb.data_first + sb.data_blocks,
        d2 == d0,
        region_first_clear(d2, sb.data_bitmap as int, sb.data_blocks as int, n - sb.data_first),
{
    let g = n - sb.data_first;
    assert(0 <= g % (BITS_PER_BLOCK as int) < d0[sb.data_bitmap + g / (BITS_PER_BLOCK as int)].len() * 8);
    lemma_region_free_undoes_alloc(d0, sb.data_bitmap as int, g);
}

/// Freeing the inode that [`alloc_inode`] just handed out leaves the disk as it was
/// before the allocation, so the next [`alloc_inode`] hands out the same inode again.
/// The number handed out is one that [`free_inode`] takes, and the two calls' effects, as
/// their contracts state them, cancel.
pub proof fn lemma_alloc_free_inode_round_trip(sb: Superblock, d0: Seq<Seq<u8>>, d1: Seq<Seq<u8>>, d2: Seq<Seq<u8>>, n: u32)
    requires
        region_first_clear(d0, sb.inode_bitmap as int, sb.total_inodes as int, n as int),
        d0[sb.inode_bitmap + (n as int) / (BITS_PER_BLOCK as int)].len() == BLOCK_SIZE,
        d1 == region_with_bit(d0, sb.inode_bitmap as int, n as int, true),
        d2 == region_with_bit(d1, sb.inode_bitmap as int, n as int, false),
    ensures
        n < sb.total_inodes,
        d2 == d0,
        region_first_clear(d2, sb.inode_bitmap as int, sb.total_inodes as int, n as int),
{
    assert(0 <= (n as int) % (BITS_PER_BLOCK as int) < d0[sb.inode_bitmap + (n as int) / (BITS_PER_BLOCK as int)].len() * 8);
    lemma_region_free_undoes_alloc(d0, sb.inode_bitmap as int, n as int);
}

/// The numbers (`base` plus index) of the set bits among the first `k` bits of the
/// bitmap at `first`, in increasing order.
pub open spec fn set_bits(blocks: Seq<Seq<u8>>, first: int, base: int, k: int) -> Seq<u64>
    decreases k,
{
    if k <= 0 {
        Seq::empty()
    } else if region_bit(blocks, first, k - 1) {
        set_bits(blocks, first, base, k - 1).push((base + k - 1) as u64)
    } else {
        set_bits(blocks, first, base, k - 1)
    }
}

/// Lists the allocated objects of a bitmap: the data bitmap (`print_data`), numbered
/// from the first data block, or the inode bitmap, numbered from 0. Each bitmap block
/// is read through the cache and released before the next. `Err` when a block cannot
/// be read: a device error, which the caller must treat as fatal.
pub fn print<D: BlockDevice>(c: &mut BufferCache, dev: &mut D, sb: &Superblock, print_data: bool) -> (r: Result<Vec<u64>, ()>)
    requires
        old(c).wf(),
        old(dev).block_len() == BLOCK_SIZE,
        coherent(*old(c), old(dev).blocks()),
        sb.layout_ok(),
    ensures
        cache_kept(*old(c), *final(c)),
        final(dev).blocks() == old(dev).blocks(),
        final(dev).block_len() == old(dev).block_len(),
        old(dev).healthy() ==> final(dev).healthy(),
        old(dev).healthy() && old(c).inactive().len() > 0 && (if print_data {
            sb.data_bitmap + sb.data_bitmap_blocks
        } else {
            sb.inode_bitmap + sb.inode_bitmap_blocks
        }) <= old(dev).blocks().len() && (if print_data {
            forall|b: u32| sb.data_bitmap <= b < sb.data_bitmap + sb.data_bitmap_blocks ==> #[trigger] refs_room(*old(c), b)
        } else {
            forall|b: u32| sb.inode_bitmap <= b < sb.inode_bitmap + sb.inode_bitmap_blocks ==> #[trigger] refs_room(*old(c), b)
        }) ==> r is Ok,
        r is Ok ==> coherent(*final(c), final(dev).blocks()),
        r matches Ok(v) ==> v@ == if print_data {
            set_bits(old(dev).blocks(), sb.data_bitmap as int, sb.data_first as int, sb.data_blocks as int)
        } else {
            set_bits(old(dev).blocks(), sb.inode_bitmap as int, 0, sb.total_inodes as int)
        },
{
    let (first, nblocks, total, base) = if print_data {
        (sb.data_bitmap, sb.data_bitmap_blocks, sb.data_blocks, sb.data_first)
    } else {
        (sb.inode_bitmap, sb.inode_bitmap_blocks, sb.total_inodes, 0)
    };
    let ghost c0 = *c;
    let ghost b0 = dev.blocks();
    let mut out: Vec<u64> = Vec::new();
    let mut start: u64 = 0;
    let mut k: u32 = 0;
    while start < total as u64
        invariant
            c0 == *old(c),
            b0 == old(dev).blocks(),
            c0.wf(),
            cache_kept(c0, *c),
            dev.block_len() == BLOCK_SIZE,
            old(dev).block_len() == BLOCK_SIZE,
            dev.blocks() == b0,
            coherent(*c, b0),
            first + nblocks < UNUSED,
            nblocks * BITS_PER_BLOCK >= total,
            base + total <= u32::MAX,
            start == k * BITS_PER_BLOCK,
            k <= nblocks,
            start < total + BITS_PER_BLOCK,
            out@ == set_bits(b0, first as int, base as int, if start < total { start as int } else { total as int }),
            old(dev).healthy() ==> dev.healthy(),
            c.inactive().len() == c0.inactive().len(),
            print_data ==> first == sb.data_bitmap && nblocks == sb.data_bitmap_blocks,
            !print_data ==> first == sb.inode_bitmap && nblocks == sb.inode_bitmap_blocks,
        decreases nblocks - k,
    {
        assert(k < nblocks) by (nonlinear_arith)
            requires
                start == k * BITS_PER_BLOCK,
                start < total,
                nblocks * BITS_PER_BLOCK >= total,
        ;
        let remaining = total as u64 - start;
        let valid: usize = if remaining < BITS_PER_BLOCK as u64 { remaining as usize } else { BITS_PER_BLOCK };
        let block = first + k;
        let ghost c1 = *c;
        let ghost h1 = dev.healthy();
        proof {
            lemma_kept_held(c0, c1);
        }
        let g = match get(c, dev, block) {
            Ok(g) => g,
            Err(()) => {
                proof {
                    lemma_get_err_kept(c1, *c, b0, h1, block);
                    lemma_kept_trans(c0, c1, *c);
                    assert(refs_room(c0, block) ==> refs_room(c1, block));
                    if c1.block_held(block) {
                        let hj = held_index(c1, block);
                        assert(c1.buf(hj).block == block);
                    }
                }
                return Err(());
            },
        };
        let ghost j = g.index();
        proof {
            lemma_get_ok(c1, *c, b0, h1, block, g);
            c.lemma_wf_facts();
        }
        let mut i: usize = 0;
        while i < valid
            invariant
                valid <= BITS_PER_BLOCK,
                j == g.index(),
                c.wf(),
                c.held(&g),
                c.buf(j).data == Some(b0[block as int]),
                b0[block as int].len() == BLOCK_SIZE,
                block == first + k,
                start == k * BITS_PER_BLOCK,
                start + valid <= total,
                base + total <= u32::MAX,
                i <= valid,
                out@ == set_bits(b0, first as int, base as int, start + i),
            decreases valid - i,
        {
            let data = g.data(c);
            let bi = (i % 8) as u8;
            proof {
                lemma_split(k as int, i as int);
            }
            let set = data[i / 8] & (1u8 << bi) != 0;
            proof {
                assert(data@ == b0[block as int]);
                assert(region_bit(b0, first as int, start + i) == set);
            }
            if set {
                out.push(base as u64 + start + i as u64);
            }
            i = i + 1;
        }
        release(c, g);
        proof {
            lemma_kept_by_frame(c1, *c, j);
            lemma_coherent_frame(c1, *c, block, b0, b0);
            lemma_kept_trans(c0, c1, *c);
        }
        start = start + BITS_PER_BLOCK as u64;
        k = k + 1;
    }
    Ok(out)
}

}
