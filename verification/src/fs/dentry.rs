//! Directories of one block: `DENTRIES` slots of `DENTRY_SIZE` bytes, each a name of up
//! to `NAME_BYTES - 1` bytes padded with NUL, then the inode number, little endian. A
//! slot whose first name byte is NUL is free; the directory's size counts the bytes of
//! the slots in use.
use vstd::prelude::*;
use crate::fs::dir::{DirLookup, next_slash};

verus! {

/// Bytes of a name field, the terminating NUL included.
pub const NAME_BYTES: usize = 60;
/// Bytes of one slot.
pub const DENTRY_SIZE: usize = 64;
/// Slots in a directory block.
pub const DENTRIES: usize = 64;
/// Bytes of a directory block.
pub const DIR_BYTES: usize = 4096;
/// Inode number of the root directory.
pub const ROOT_INODE: u32 = 0;

/// Length of `s` up to its first NUL.
pub open spec fn nul_len(s: Seq<u8>) -> int
    decreases s.len(),
{
    if s.len() == 0 {
        0
    } else if s[0] == 0 {
        0
    } else {
        1 + nul_len(s.drop_first())
    }
}

/// `s` up to its first NUL: the name a NUL-padded field holds.
pub open spec fn cname(s: Seq<u8>) -> Seq<u8> {
    s.subrange(0, nul_len(s))
}

/// The number stored little endian in four bytes.
pub open spec fn le32(a: u8, b: u8, c: u8, d: u8) -> u32 {
    (a as u32) | ((b as u32) << 8u32) | ((c as u32) << 16u32) | ((d as u32) << 24u32)
}

pub open spec fn slot_used(d: Seq<u8>, i: int) -> bool {
    d[DENTRY_SIZE * i] != 0
}

pub open spec fn slot_name(d: Seq<u8>, i: int) -> Seq<u8> {
    d.subrange(DENTRY_SIZE * i, DENTRY_SIZE * i + NAME_BYTES)
}

pub open spec fn slot_number(d: Seq<u8>, i: int) -> u32 {
    let o = DENTRY_SIZE * i + NAME_BYTES;
    le32(d[o], d[o + 1], d[o + 2], d[o + 3])
}

/// Slot `i` is in use and holds name `name` (compared up to the first NUL of each).
pub open spec fn slot_named(d: Seq<u8>, i: int, name: Seq<u8>) -> bool {
    slot_used(d, i) && cname(slot_name(d, i)) == cname(name)
}

/// Slot `i` is in use and names inode `n`.
pub open spec fn slot_numbered(d: Seq<u8>, i: int, n: u32) -> bool {
    slot_used(d, i) && slot_number(d, i) == n
}

/// Number of slots in use.
pub open spec fn used_count(d: Seq<u8>, k: int) -> nat
    decreases k,
{
    if k <= 0 {
        0
    } else {
        used_count(d, k - 1) + if slot_used(d, k - 1) { 1nat } else { 0nat }
    }
}

proof fn lemma_nul_len(s: Seq<u8>)
    ensures
        0 <= nul_len(s) <= s.len(),
        nul_len(s) < s.len() ==> s[nul_len(s)] == 0,
        forall|k: int| 0 <= k < nul_len(s) ==> s[k] != 0,
    decreases s.len(),
{
    if s.len() > 0 && s[0] != 0 {
        lemma_nul_len(s.drop_first());
        assert forall|k: int| 0 <= k < nul_len(s) implies s[k] != 0 by {
            if k > 0 {
                assert(s[k] == s.drop_first()[k - 1]);
            }
        }
    }
}

proof fn lemma_nul_len_unique(s: Seq<u8>, n: int)
    requires
        0 <= n <= s.len(),
        n < s.len() ==> s[n] == 0,
        forall|k: int| 0 <= k < n ==> s[k] != 0,
    ensures
        nul_len(s) == n,
    decreases s.len(),
{
    if s.len() > 0 && s[0] != 0 {
        assert forall|k: int| 0 <= k < n - 1 implies s.drop_first()[k] != 0 by {
            assert(s.drop_first()[k] == s[k + 1]);
        }
        lemma_nul_len_unique(s.drop_first(), n - 1);
    }
}

/// `n` is where the first NUL of `s` is (or the length, when none is).
pub proof fn lemma_nul_len_unique_pub(s: Seq<u8>, n: int)
    requires
        0 <= n <= s.len(),
        n < s.len() ==> s[n] == 0,
        forall|k: int| 0 <= k < n ==> s[k] != 0,
    ensures
        nul_len(s) == n,
{
    lemma_nul_len_unique(s, n);
}

/// Position of the first NUL in `s[start..start + max]`, or `max`.
fn find_nul(s: &[u8], start: usize, max: usize) -> (r: usize)
    requires
        start + max <= s@.len(),
    ensures
        r == nul_len(s@.subrange(start as int, start + max)),
{
    let ghost f = s@.subrange(start as int, start + max);
    let len = s.len();
    let mut k: usize = 0;
    while k < max && s[start + k] != 0
        invariant
            start + max <= s@.len(),
            len == s@.len(),
            f == s@.subrange(start as int, start + max),
            k <= max,
            forall|j: int| 0 <= j < k ==> f[j] != 0,
        decreases max - k,
    {
        k = k + 1;
    }
    proof {
        lemma_nul_len_unique(f, k as int);
    }
    k
}

/// Whether slot `i` of `d` is in use and holds `name`.
fn slot_matches(d: &[u8], i: usize, name: &[u8]) -> (r: bool)
    requires
        d@.len() == DIR_BYTES,
        i < DENTRIES,
    ensures
        r == slot_named(d@, i as int, name@),
{
    let o = DENTRY_SIZE * i;
    if d[o] == 0 {
        return false;
    }
    let ls = find_nul(d, o, NAME_BYTES);
    let lt = find_nul(name, 0, name.len());
    proof {
        assert(slot_name(d@, i as int) == d@.subrange(o as int, o + NAME_BYTES));
        assert(name@.subrange(0, name@.len() as int) =~= name@);
        lemma_nul_len(slot_name(d@, i as int));
        lemma_nul_len(name@);
    }
    if ls != lt {
        proof {
            assert(cname(slot_name(d@, i as int)).len() == ls);
            assert(cname(name@).len() == lt);
        }
        return false;
    }
    let mut k: usize = 0;
    while k < ls
        invariant
            ls == nul_len(slot_name(d@, i as int)),
            lt == nul_len(name@),
            slot_name(d@, i as int) == d@.subrange(o as int, o + NAME_BYTES),
            d@.len() == DIR_BYTES,
            o == DENTRY_SIZE * i,
            i < DENTRIES,
            ls == lt,
            ls <= NAME_BYTES,
            lt <= name@.len(),
            k <= ls,
            forall|j: int| 0 <= j < k ==> d@[o + j] == name@[j],
        decreases ls - k,
    {
        if d[o + k] != name[k] {
            proof {
                assert(cname(slot_name(d@, i as int))[k as int] == d@[o + k]);
                assert(cname(name@)[k as int] == name@[k as int]);
            }
            return false;
        }
        k = k + 1;
    }
    proof {
        assert(cname(slot_name(d@, i as int)) =~= cname(name@));
    }
    true
}

/// The number in slot `i`.
fn read_number(d: &[u8], i: usize) -> (r: u32)
    requires
        d@.len() == DIR_BYTES,
        i < DENTRIES,
    ensures
        r == slot_number(d@, i as int),
{
    let o = DENTRY_SIZE * i + NAME_BYTES;
    (d[o] as u32) | ((d[o + 1] as u32) << 8u32) | ((d[o + 2] as u32) << 16u32) | ((d[o + 3] as u32) << 24u32)
}

/// The inode that `name` names in directory block `d`: the first slot in use holding it.
pub fn search(d: &[u8], name: &[u8]) -> (r: Result<u32, ()>)
    requires
        d@.len() == DIR_BYTES,
    ensures
        match r {
            Ok(n) => exists|i: int| 0 <= i < DENTRIES && slot_named(d@, i, name@) && slot_number(d@, i) == n
                && forall|j: int| 0 <= j < i ==> !slot_named(d@, j, name@),
            Err(()) => forall|i: int| 0 <= i < DENTRIES ==> !slot_named(d@, i, name@),
        },
{
    let mut i: usize = 0;
    while i < DENTRIES
        invariant
            d@.len() == DIR_BYTES,
            i <= DENTRIES,
            forall|j: int| 0 <= j < i ==> !slot_named(d@, j, name@),
        decreases DENTRIES - i,
    {
        if slot_matches(d, i, name) {
            return Ok(read_number(d, i));
        }
        i = i + 1;
    }
    Err(())
}


/// The bytes of a slot naming inode `n` as `name`: the name, NUL padding, the number.
pub open spec fn entry_bytes(name: Seq<u8>, n: u32) -> Seq<u8> {
    name + Seq::new((NAME_BYTES - name.len()) as nat, |k: int| 0u8)
        + seq![(n & 0xff) as u8, ((n >> 8u32) & 0xff) as u8, ((n >> 16u32) & 0xff) as u8, ((n >> 24u32) & 0xff) as u8]
}

/// The bytes of a slot that `delete` has freed: all zero.
pub open spec fn empty_slot() -> Seq<u8> {
    Seq::new(DENTRY_SIZE as nat, |x: int| 0u8)
}

/// `d` with slot `i` replaced by `e`.
pub open spec fn with_slot(d: Seq<u8>, i: int, e: Seq<u8>) -> Seq<u8> {
    d.subrange(0, DENTRY_SIZE * i) + e + d.subrange(DENTRY_SIZE * i + DENTRY_SIZE, d.len() as int)
}

proof fn lemma_le32(n: u32)
    ensures
        le32((n & 0xff) as u8, ((n >> 8u32) & 0xff) as u8, ((n >> 16u32) & 0xff) as u8, ((n >> 24u32) & 0xff) as u8) == n,
{
    assert(((((n & 0xff) as u8) as u32) | (((((n >> 8u32) & 0xff) as u8) as u32) << 8u32)
        | (((((n >> 16u32) & 0xff) as u8) as u32) << 16u32) | (((((n >> 24u32) & 0xff) as u8) as u32) << 24u32)) == n)
        by (bit_vector);
}

/// Writes `e` (one slot's bytes) into slot `i`.
fn write_slot(d: &mut Vec<u8>, i: usize, e: &Vec<u8>)
    requires
        old(d)@.len() == DIR_BYTES,
        i < DENTRIES,
        e@.len() == DENTRY_SIZE,
    ensures
        final(d)@ == with_slot(old(d)@, i as int, e@),
{
    let o = DENTRY_SIZE * i;
    let mut k: usize = 0;
    while k < DENTRY_SIZE
        invariant
            d@.len() == DIR_BYTES,
            o == DENTRY_SIZE * i,
            i < DENTRIES,
            e@.len() == DENTRY_SIZE,
            k <= DENTRY_SIZE,
            forall|x: int| 0 <= x < o ==> d@[x] == old(d)@[x],
            forall|x: int| o + DENTRY_SIZE <= x < DIR_BYTES ==> d@[x] == old(d)@[x],
            forall|x: int| 0 <= x < k ==> d@[o + x] == e@[x],
        decreases DENTRY_SIZE - k,
    {
        d.set(o + k, e[k]);
        k = k + 1;
    }
    proof {
        let w = with_slot(old(d)@, i as int, e@);
        assert forall|x: int| 0 <= x < DIR_BYTES implies d@[x] == w[x] by {
            if o <= x < o + DENTRY_SIZE {
                assert(d@[o + (x - o)] == e@[x - o]);
            }
        }
        assert(d@ =~= w);
    }
}

/// Adds an entry naming inode `number` as `name` (its bytes up to the first NUL) in the
/// first free slot, and counts its bytes in `size`. Refused when the name is empty or
/// longer than `NAME_BYTES - 1`, when a slot already holds it, or when no slot is free.
/// Returns the byte offset of the new slot.
pub fn create(d: &mut Vec<u8>, size: &mut u32, number: u32, name: &[u8]) -> (r: Result<u32, ()>)
    requires
        old(d)@.len() == DIR_BYTES,
        *old(size) + DENTRY_SIZE <= u32::MAX,
    ensures
        final(d)@.len() == DIR_BYTES,
        r is Ok <==> 0 < nul_len(name@) < NAME_BYTES
            && (forall|i: int| 0 <= i < DENTRIES ==> !slot_named(old(d)@, i, name@))
            && (exists|i: int| 0 <= i < DENTRIES && !slot_used(old(d)@, i)),
        r is Err ==> final(d)@ == old(d)@ && *final(size) == *old(size),
        r matches Ok(off) ==> exists|i: int| 0 <= i < DENTRIES && off == DENTRY_SIZE * i && !slot_used(old(d)@, i)
            && (forall|j: int| 0 <= j < i ==> slot_used(old(d)@, j))
            && final(d)@ == with_slot(old(d)@, i, entry_bytes(cname(name@), number))
            && *final(size) == *old(size) + DENTRY_SIZE,
{
    let ln = find_nul(name, 0, name.len());
    proof {
        assert(name@.subrange(0, name@.len() as int) =~= name@);
        lemma_nul_len(name@);
    }
    if ln == 0 || ln >= NAME_BYTES {
        return Err(());
    }
    let mut free: usize = DENTRIES;
    let mut i: usize = 0;
    while i < DENTRIES
        invariant
            d@.len() == DIR_BYTES,
            i <= DENTRIES,
            forall|j: int| 0 <= j < i ==> !slot_named(d@, j, name@),
            free == DENTRIES || (free < i && !slot_used(d@, free as int) && forall|j: int| 0 <= j < free ==> slot_used(d@, j)),
            free == DENTRIES ==> forall|j: int| 0 <= j < i ==> slot_used(d@, j),
        decreases DENTRIES - i,
    {
        if slot_matches(d.as_slice(), i, name) {
            return Err(());
        }
        if free == DENTRIES && d[DENTRY_SIZE * i] == 0 {
            free = i;
        }
        i = i + 1;
    }
    if free == DENTRIES {
        return Err(());
    }
    let mut e: Vec<u8> = Vec::new();
    let mut k: usize = 0;
    while k < NAME_BYTES
        invariant
            ln < NAME_BYTES,
            ln <= name@.len(),
            k <= NAME_BYTES,
            e@ == if k <= ln { name@.subrange(0, k as int) } else {
                name@.subrange(0, ln as int) + Seq::new((k - ln) as nat, |x: int| 0u8)
            },
        decreases NAME_BYTES - k,
    {
        let b = if k < ln { name[k] } else { 0u8 };
        let ghost before = e@;
        e.push(b);
        proof {
            if k < ln {
                assert(e@ =~= name@.subrange(0, k + 1));
            } else if k == ln {
                assert(e@ =~= name@.subrange(0, ln as int) + Seq::new(1, |x: int| 0u8));
            } else {
                assert(e@ =~= name@.subrange(0, ln as int) + Seq::new((k + 1 - ln) as nat, |x: int| 0u8));
            }
        }
        k = k + 1;
    }
    e.push((number & 0xff) as u8);
    e.push(((number >> 8u32) & 0xff) as u8);
    e.push(((number >> 16u32) & 0xff) as u8);
    e.push(((number >> 24u32) & 0xff) as u8);
    proof {
        assert(e@ =~= entry_bytes(cname(name@), number));
    }
    write_slot(d, free, &e);
    *size = *size + DENTRY_SIZE as u32;
    Ok((DENTRY_SIZE * free) as u32)
}

/// Removes the first entry holding `name`: zeroes its slot, takes its bytes off `size`
/// and returns the inode it named. `Err` when no slot holds the name.
pub fn delete(d: &mut Vec<u8>, size: &mut u32, name: &[u8]) -> (r: Result<u32, ()>)
    requires
        old(d)@.len() == DIR_BYTES,
        (exists|i: int| 0 <= i < DENTRIES && slot_named(old(d)@, i, name@)) ==> *old(size) >= DENTRY_SIZE,
    ensures
        final(d)@.len() == DIR_BYTES,
        r is Err <==> forall|i: int| 0 <= i < DENTRIES ==> !slot_named(old(d)@, i, name@),
        r is Err ==> final(d)@ == old(d)@ && *final(size) == *old(size),
        r matches Ok(n) ==> exists|i: int| 0 <= i < DENTRIES && slot_named(old(d)@, i, name@)
            && (forall|j: int| 0 <= j < i ==> !slot_named(old(d)@, j, name@))
            && n == slot_number(old(d)@, i)
            && final(d)@ == with_slot(old(d)@, i, Seq::new(DENTRY_SIZE as nat, |x: int| 0u8))
            && *final(size) == *old(size) - DENTRY_SIZE,
{
    let mut i: usize = 0;
    while i < DENTRIES
        invariant
            d@ == old(d)@,
            *size == *old(size),
            (exists|i: int| 0 <= i < DENTRIES && slot_named(old(d)@, i, name@)) ==> *old(size) >= DENTRY_SIZE,
            d@.len() == DIR_BYTES,
            i <= DENTRIES,
            forall|j: int| 0 <= j < i ==> !slot_named(d@, j, name@),
        decreases DENTRIES - i,
    {
        if slot_matches(d.as_slice(), i, name) {
            let n = read_number(d.as_slice(), i);
            assert(slot_named(old(d)@, i as int, name@));
            let zero = vec![0u8; DENTRY_SIZE];
            write_slot(d, i, &zero);
            proof {
                assert(zero@ =~= Seq::new(DENTRY_SIZE as nat, |x: int| 0u8));
            }
            *size = *size - DENTRY_SIZE as u32;
            return Ok(n);
        }
        i = i + 1;
    }
    Err(())
}

/// Finds the first entry naming inode `number`, copies its name field into `name` and
/// returns the length of the name.
pub fn search_number(d: &[u8], number: u32, name: &mut [u8; 60]) -> (r: Result<u32, ()>)
    requires
        d@.len() == DIR_BYTES,
    ensures
        r is Err <==> forall|i: int| 0 <= i < DENTRIES ==> !slot_numbered(d@, i, number),
        r is Err ==> *final(name) == *old(name),
        r matches Ok(len) ==> exists|i: int| 0 <= i < DENTRIES && slot_numbered(d@, i, number)
            && (forall|j: int| 0 <= j < i ==> !slot_numbered(d@, j, number))
            && final(name)@ == slot_name(d@, i)
            && len == nul_len(slot_name(d@, i)),
{
    let mut i: usize = 0;
    while i < DENTRIES
        invariant
            d@.len() == DIR_BYTES,
            i <= DENTRIES,
            *name == *old(name),
            forall|j: int| 0 <= j < i ==> !slot_numbered(d@, j, number),
        decreases DENTRIES - i,
    {
        let o = DENTRY_SIZE * i;
        if d[o] != 0 && read_number(d, i) == number {
            let mut k: usize = 0;
            while k < NAME_BYTES
                invariant
                    d@.len() == DIR_BYTES,
                    o == DENTRY_SIZE * i,
                    i < DENTRIES,
                    k <= NAME_BYTES,
                    forall|x: int| 0 <= x < k ==> name@[x] == d@[o + x],
                decreases NAME_BYTES - k,
            {
                name[k] = d[o + k];
                k = k + 1;
            }
            proof {
                assert(name@ =~= slot_name(d@, i as int));
            }
            let len = find_nul(d, o, NAME_BYTES);
            proof {
                lemma_nul_len(slot_name(d@, i as int));
                assert(slot_numbered(d@, i as int, number));
            }
            return Ok(len as u32);
        }
        i = i + 1;
    }
    Err(())
}

/// The bytes of the slots in use among the first `k`, in order.
pub open spec fn used_bytes(d: Seq<u8>, k: int) -> Seq<u8>
    decreases k,
{
    if k <= 0 {
        Seq::empty()
    } else if slot_used(d, k - 1) {
        used_bytes(d, k - 1) + d.subrange(DENTRY_SIZE * (k - 1), DENTRY_SIZE * k)
    } else {
        used_bytes(d, k - 1)
    }
}

proof fn lemma_used_len(d: Seq<u8>, a: int)
    requires
        0 <= a <= DENTRIES,
        d.len() == DIR_BYTES,
    ensures
        used_bytes(d, a).len() % (DENTRY_SIZE as nat) == 0,
        used_bytes(d, a).len() <= DENTRY_SIZE * a,
    decreases a,
{
    if a > 0 {
        lemma_used_len(d, a - 1);
    }
}

proof fn lemma_used_bytes(d: Seq<u8>, a: int, b: int)
    requires
        0 <= a <= b <= DENTRIES,
        d.len() == DIR_BYTES,
    ensures
        used_bytes(d, a).len() % (DENTRY_SIZE as nat) == 0,
        used_bytes(d, a).len() <= used_bytes(d, b).len(),
        used_bytes(d, b).subrange(0, used_bytes(d, a).len() as int) == used_bytes(d, a),
    decreases b - a,
{
    if a < b {
        lemma_used_bytes(d, a, b - 1);
        let x = used_bytes(d, b - 1);
        let y = used_bytes(d, a);
        if slot_used(d, b - 1) {
            assert(used_bytes(d, b).subrange(0, y.len() as int) =~= x.subrange(0, y.len() as int));
        }
    } else {
        lemma_used_len(d, a);
        assert(used_bytes(d, a).subrange(0, used_bytes(d, a).len() as int) =~= used_bytes(d, a));
    }
}

/// The slots in use, in order, as many whole slots as fit in `cap` bytes.
pub fn transmit(d: &[u8], cap: usize) -> (r: Vec<u8>)
    requires
        d@.len() == DIR_BYTES,
    ensures
        r@ == used_bytes(d@, DENTRIES as int).subrange(0, r@.len() as int),
        r@.len() % (DENTRY_SIZE as nat) == 0,
        r@.len() <= cap,
        r@.len() == used_bytes(d@, DENTRIES as int).len() || r@.len() + DENTRY_SIZE > cap,
{
    let mut out: Vec<u8> = Vec::new();
    let mut i: usize = 0;
    while i < DENTRIES
        invariant
            d@.len() == DIR_BYTES,
            i <= DENTRIES,
            out@ == used_bytes(d@, i as int),
            out@.len() <= cap,
            out@.len() <= DENTRY_SIZE * i,
        decreases DENTRIES - i,
    {
        let o = DENTRY_SIZE * i;
        if d[o] != 0 {
            if out.len() + DENTRY_SIZE > cap {
                proof {
                    lemma_used_bytes(d@, i as int, DENTRIES as int);
                }
                return out;
            }
            let mut k: usize = 0;
            let ghost before = out@;
            while k < DENTRY_SIZE
                invariant
                    d@.len() == DIR_BYTES,
                    o == DENTRY_SIZE * i,
                    i < DENTRIES,
                    k <= DENTRY_SIZE,
                    out@ == before + d@.subrange(o as int, o + k),
                decreases DENTRY_SIZE - k,
            {
                out.push(d[o + k]);
                proof {
                    assert(out@ =~= before + d@.subrange(o as int, o + k + 1));
                }
                k = k + 1;
            }
        }
        i = i + 1;
    }
    proof {
        lemma_used_bytes(d@, DENTRIES as int, DENTRIES as int);
    }
    out
}

/// What `create` wrote is what `search` then finds: the slot holds the name and the
/// inode number.
pub proof fn lemma_search_after_create(d: Seq<u8>, i: int, name: Seq<u8>, n: u32)
    requires
        d.len() == DIR_BYTES,
        0 <= i < DENTRIES,
        0 < nul_len(name) < NAME_BYTES,
    ensures
        slot_named(with_slot(d, i, entry_bytes(cname(name), n)), i, name),
        slot_number(with_slot(d, i, entry_bytes(cname(name), n)), i) == n,
        forall|j: int| 0 <= j < DENTRIES && j != i ==> slot_name(with_slot(d, i, entry_bytes(cname(name), n)), j) == slot_name(d, j)
            && slot_used(with_slot(d, i, entry_bytes(cname(name), n)), j) == slot_used(d, j),
{
    let c = cname(name);
    let e = entry_bytes(c, n);
    let w = with_slot(d, i, e);
    lemma_nul_len(name);
    assert(e.len() == DENTRY_SIZE);
    assert(slot_name(w, i) =~= c + Seq::new((NAME_BYTES - c.len()) as nat, |k: int| 0u8));
    assert(c[0] != 0);
    lemma_nul_len_unique(slot_name(w, i), c.len() as int);
    assert(cname(slot_name(w, i)) =~= c);
    lemma_nul_len_unique(name, nul_len(name));
    assert(cname(c) =~= c) by {
        lemma_nul_len_unique(c, c.len() as int);
    }
    lemma_le32(n);
    assert forall|j: int| 0 <= j < DENTRIES && j != i implies slot_name(w, j) == slot_name(d, j) && slot_used(w, j) == slot_used(d, j) by {
        assert(slot_name(w, j) =~= slot_name(d, j));
    }
}


/// Deleting the name that `create` just added undoes it: in the directory `create` leaves,
/// the new slot is the only one holding the name, so `search` finds it and `delete` picks
/// it and returns the inode it names; zeroing it gives the directory as it was with that
/// slot zeroed, which is exactly as it was when the slot was zero (as `delete` leaves the
/// slots it frees), and no slot holds the name any more, so `search` then fails. (The
/// size goes up and back down by `DENTRY_SIZE`, as the two calls state.)
pub proof fn lemma_delete_after_create(d0: Seq<u8>, i: int, name: Seq<u8>, n: u32)
    requires
        d0.len() == DIR_BYTES,
        0 <= i < DENTRIES,
        0 < nul_len(name) < NAME_BYTES,
        forall|j: int| 0 <= j < DENTRIES ==> !#[trigger] slot_named(d0, j, name),
    ensures
        slot_named(with_slot(d0, i, entry_bytes(cname(name), n)), i, name),
        forall|j: int| 0 <= j < DENTRIES && j != i ==> !#[trigger] slot_named(with_slot(d0, i, entry_bytes(cname(name), n)), j, name),
        slot_number(with_slot(d0, i, entry_bytes(cname(name), n)), i) == n,
        with_slot(with_slot(d0, i, entry_bytes(cname(name), n)), i, Seq::new(DENTRY_SIZE as nat, |x: int| 0u8))
            == with_slot(d0, i, Seq::new(DENTRY_SIZE as nat, |x: int| 0u8)),
        (forall|x: int| 0 <= x < DENTRY_SIZE ==> #[trigger] d0[DENTRY_SIZE * i + x] == 0)
            ==> with_slot(with_slot(d0, i, entry_bytes(cname(name), n)), i, Seq::new(DENTRY_SIZE as nat, |x: int| 0u8)) == d0,
        forall|j: int| 0 <= j < DENTRIES ==> !#[trigger] slot_named(
            with_slot(with_slot(d0, i, entry_bytes(cname(name), n)), i, empty_slot()), j, name),
{
    let e = entry_bytes(cname(name), n);
    let z = Seq::new(DENTRY_SIZE as nat, |x: int| 0u8);
    let d1 = with_slot(d0, i, e);
    lemma_search_after_create(d0, i, name, n);
    lemma_nul_len(name);
    assert(e.len() == DENTRY_SIZE);
    assert forall|j: int| 0 <= j < DENTRIES && j != i implies !#[trigger] slot_named(d1, j, name) by {
        assert(!slot_named(d0, j, name));
    }
    assert(with_slot(d1, i, z) =~= with_slot(d0, i, z));
    let w = with_slot(d0, i, z);
    assert(z == empty_slot());
    assert forall|j: int| 0 <= j < DENTRIES implies !#[trigger] slot_named(with_slot(d1, i, empty_slot()), j, name) by {
        if j == i {
            assert(w[DENTRY_SIZE * i] == z[0]);
        } else {
            assert(slot_name(w, j) =~= slot_name(d0, j));
            assert(w[DENTRY_SIZE * j] == d0[DENTRY_SIZE * j]);
            assert(!slot_named(d0, j, name));
        }
    }
    if forall|x: int| 0 <= x < DENTRY_SIZE ==> #[trigger] d0[DENTRY_SIZE * i + x] == 0 {
        assert forall|x: int| 0 <= x < d0.len() implies #[trigger] with_slot(d0, i, z)[x] == d0[x] by {
            if DENTRY_SIZE * i <= x < DENTRY_SIZE * i + DENTRY_SIZE {
                assert(d0[DENTRY_SIZE * i + (x - DENTRY_SIZE * i)] == 0);
            }
        }
        assert(with_slot(d0, i, z) =~= d0);
    }
}


/// Position of the first byte other than '/' in `p` at or after `from`, or the length.
pub open spec fn next_name(p: Seq<u8>, from: int) -> int
    decreases p.len() - from,
{
    if from >= p.len() {
        p.len() as int
    } else if p[from] != 0x2f {
        from
    } else {
        next_name(p, from + 1)
    }
}

/// The name field for the component `p[b..e]`: at most `NAME_BYTES - 1` of its bytes,
/// then NUL up to `NAME_BYTES`.
pub open spec fn name_field(p: Seq<u8>, b: int, e: int) -> Seq<u8> {
    let n = if e - b < NAME_BYTES - 1 { e - b } else { NAME_BYTES - 1 };
    p.subrange(b, b + n) + Seq::new((NAME_BYTES - n) as nat, |k: int| 0u8)
}

pub proof fn lemma_next_name(p: Seq<u8>, from: int)
    requires
        0 <= from <= p.len(),
    ensures
        from <= next_name(p, from) <= p.len(),
        next_name(p, from) < p.len() ==> p[next_name(p, from)] != 0x2f,
    decreases p.len() - from,
{
    if from < p.len() && p[from] == 0x2f {
        lemma_next_name(p, from + 1);
    }
}

pub proof fn lemma_next_slash_bounds(p: Seq<u8>, from: int)
    requires
        0 <= from <= p.len(),
    ensures
        from <= next_slash(p, from) <= p.len(),
        from < p.len() && p[from] != 0x2f ==> from < next_slash(p, from),
    decreases p.len() - from,
{
    if from < p.len() && p[from] != 0x2f {
        lemma_next_slash_bounds(p, from + 1);
    }
}

fn skip_slashes(p: &[u8], from: usize) -> (r: usize)
    requires
        from <= p@.len(),
    ensures
        r == next_name(p@, from as int),
{
    let mut k = from;
    while k < p.len() && p[k] == 0x2f
        invariant
            from <= k <= p@.len(),
            next_name(p@, from as int) == next_name(p@, k as int),
        decreases p@.len() - k,
    {
        k = k + 1;
    }
    k
}

fn to_slash(p: &[u8], from: usize) -> (r: usize)
    requires
        from <= p@.len(),
    ensures
        r == next_slash(p@, from as int),
{
    let mut k = from;
    while k < p.len() && p[k] != 0x2f
        invariant
            from <= k <= p@.len(),
            next_slash(p@, from as int) == next_slash(p@, k as int),
        decreases p@.len() - k,
    {
        k = k + 1;
    }
    k
}

/// Takes the first component off `path`: skips leading slashes, copies at most
/// `NAME_BYTES - 1` bytes of the component into a NUL-padded name (a longer component
/// is consumed whole and its name cut short) and returns the rest after the slashes that
/// follow. `None` when nothing but slashes is left.
pub fn element(path: &[u8]) -> (r: Option<([u8; 60], &[u8])>)
    ensures
        r is None <==> next_name(path@, 0) == path@.len(),
        r matches Some((name, rest)) ==> {
            let b = next_name(path@, 0);
            let e = next_slash(path@, b);
            &&& name@ == name_field(path@, b, e)
            &&& rest@ == path@.subrange(next_name(path@, e), path@.len() as int)
        },
{
    let plen = path.len();
    let b = skip_slashes(path, 0);
    proof {
        lemma_next_name(path@, 0);
    }
    if b == plen {
        return None;
    }
    let e = to_slash(path, b);
    proof {
        lemma_next_slash_bounds(path@, b as int);
        lemma_next_name(path@, e as int);
    }
    let n: usize = if e - b < NAME_BYTES - 1 { e - b } else { NAME_BYTES - 1 };
    let mut name = [0u8; 60];
    let mut k: usize = 0;
    while k < n
        invariant
            n < NAME_BYTES,
            plen == path@.len(),
            b + n <= path@.len(),
            k <= n,
            forall|x: int| 0 <= x < k ==> name@[x] == path@[b + x],
            forall|x: int| k <= x < NAME_BYTES ==> name@[x] == 0,
        decreases n - k,
    {
        name[k] = path[b + k];
        k = k + 1;
    }
    proof {
        assert(name@ =~= name_field(path@, b as int, e as int));
    }
    let r = skip_slashes(path, e);
    Some((name, &path[r..path.len()]))
}

/// Where walking `p` from directory `cur` arrives: each component's name is looked up in
/// the directory the previous one named. With `parent`, the walk stops before the last
/// component and gives its directory and name; a path without components has no parent.
pub open spec fn path_walk<L: DirLookup>(l: L, cur: u32, p: Seq<u8>, parent: bool) -> Result<(u32, Seq<u8>), ()>
    decreases p.len(),
{
    let b = next_name(p, 0);
    if b >= p.len() {
        if parent { Err(()) } else { Ok((cur, Seq::empty())) }
    } else {
        let e = next_slash(p, b);
        let nm = name_field(p, b, e);
        let r = next_name(p, e);
        let rest = p.subrange(r, p.len() as int);
        if parent && rest.len() == 0 {
            Ok((cur, nm))
        } else {
            proof {
                lemma_next_name(p, 0);
                lemma_next_slash_bounds(p, b);
                lemma_next_name(p, e);
            }
            match l.entry(cur, nm) {
                Some(n) => path_walk(l, n, rest, parent),
                None => Err(()),
            }
        }
    }
}

fn walk_path<L: DirLookup>(path: &[u8], l: &mut L, parent: bool) -> (r: Result<(u32, [u8; 60]), ()>)
    ensures
        forall|d: u32, n: Seq<u8>| #[trigger] final(l).entry(d, n) == old(l).entry(d, n),
        match path_walk(*old(l), ROOT_INODE, path@, parent) {
            Ok((ino, nm)) => r matches Ok((i2, n2)) && i2 == ino && (parent ==> n2@ == nm),
            Err(()) => r is Err,
        },
{
    let ghost l0 = *l;
    let mut cur: u32 = ROOT_INODE;
    let mut p: &[u8] = path;
    loop
        invariant
            l0 == *old(l),
            forall|d: u32, n: Seq<u8>| #[trigger] l.entry(d, n) == l0.entry(d, n),
            path_walk(l0, ROOT_INODE, path@, parent) == path_walk(l0, cur, p@, parent),
        decreases p@.len(),
    {
        proof {
            lemma_next_name(p@, 0);
        }
        match element(p) {
            None => {
                if parent {
                    return Err(());
                }
                return Ok((cur, [0u8; 60]));
            },
            Some((name, rest)) => {
                proof {
                    let b = next_name(p@, 0);
                    lemma_next_slash_bounds(p@, b);
                    lemma_next_name(p@, next_slash(p@, b));
                }
                if parent && rest.len() == 0 {
                    return Ok((cur, name));
                }
                match l.lookup(cur, &name) {
                    Some(n) => {
                        cur = n;
                        p = rest;
                    },
                    None => {
                        return Err(());
                    },
                }
            },
        }
    }
}

/// Resolves absolute path `path` from the root to an inode number.
pub fn lookup<L: DirLookup>(path: &[u8], l: &mut L) -> (r: Result<u32, ()>)
    ensures
        forall|d: u32, n: Seq<u8>| #[trigger] final(l).entry(d, n) == old(l).entry(d, n),
        match path_walk(*old(l), ROOT_INODE, path@, false) {
            Ok((ino, _)) => r == Ok::<u32, ()>(ino),
            Err(()) => r is Err,
        },
{
    match walk_path(path, l, false) {
        Ok((ino, _)) => Ok(ino),
        Err(()) => Err(()),
    }
}

/// Resolves the directory that holds the last component of `path`, and that
/// component's NUL-padded name. `Err` for the root itself.
pub fn parent<L: DirLookup>(path: &[u8], l: &mut L) -> (r: Result<(u32, [u8; 60]), ()>)
    ensures
        forall|d: u32, n: Seq<u8>| #[trigger] final(l).entry(d, n) == old(l).entry(d, n),
        match path_walk(*old(l), ROOT_INODE, path@, true) {
            Ok((ino, nm)) => r matches Ok((i2, n2)) && i2 == ino && n2@ == nm,
            Err(()) => r is Err,
        },
{
    walk_path(path, l, true)
}

/// Slot `i` is in use but its name field holds no NUL.
pub open spec fn slot_unterminated(d: Seq<u8>, i: int) -> bool {
    slot_used(d, i) && nul_len(slot_name(d, i)) == NAME_BYTES
}

/// The listing of the slots in use among the first `k`: the byte offset of each, the
/// inode it names and the length of its name.
pub open spec fn listing(d: Seq<u8>, k: int) -> Seq<(usize, u32, usize)>
    decreases k,
{
    if k <= 0 {
        Seq::empty()
    } else if slot_used(d, k - 1) {
        listing(d, k - 1).push(((DENTRY_SIZE * (k - 1)) as usize, slot_number(d, k - 1), nul_len(slot_name(d, k - 1)) as usize))
    } else {
        listing(d, k - 1)
    }
}

/// Lists the slots in use of directory block `d`, in order: byte offset, inode number and
/// name length of each. The listing stops at the first slot in use whose name field holds
/// no NUL, and the flag is then false.
pub fn print(d: &[u8]) -> (r: (Vec<(usize, u32, usize)>, bool))
    requires
        d@.len() == DIR_BYTES,
    ensures
        r.1 <==> forall|i: int| 0 <= i < DENTRIES ==> !slot_unterminated(d@, i),
        r.1 ==> r.0@ == listing(d@, DENTRIES as int),
        !r.1 ==> exists|i: int| 0 <= i < DENTRIES && slot_unterminated(d@, i)
            && (forall|j: int| 0 <= j < i ==> !slot_unterminated(d@, j))
            && r.0@ == listing(d@, i),
{
    let mut rows: Vec<(usize, u32, usize)> = Vec::new();
    let mut i: usize = 0;
    while i < DENTRIES
        invariant
            d@.len() == DIR_BYTES,
            i <= DENTRIES,
            rows@ == listing(d@, i as int),
            forall|j: int| 0 <= j < i ==> !slot_unterminated(d@, j),
        decreases DENTRIES - i,
    {
        let o = DENTRY_SIZE * i;
        if d[o] != 0 {
            let len = find_nul(d, o, NAME_BYTES);
            proof {
                assert(slot_name(d@, i as int) == d@.subrange(o as int, o + NAME_BYTES));
            }
            if len == NAME_BYTES {
                proof {
                    assert(slot_unterminated(d@, i as int));
                }
                return (rows, false);
            }
            rows.push((o, read_number(d, i), len));
        }
        i = i + 1;
    }
    (rows, true)
}

}
