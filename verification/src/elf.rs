//! Program loading for `exec`: the ELF header as `exec` reads it, the check of each
//! loadable segment against the heap being built, and the initial user stack that
//! carries the arguments.
use vstd::prelude::*;
use crate::proc::elf::{le, rd_u16, rd_u32, rd_u64, lemma_le4, lemma_le8};
use crate::mem::mmap::MMAP_BEGIN;
use crate::mm::pmem::{Pmem, Pool, PAGE_WORDS};
use crate::mm::vm::{checked_translate, checked_walk_from, translate_at};
use crate::mm::uvm::{lemma_walk_ignores_user_write, lemma_user_write_keeps_kernel};

verus! {

/// What `exec` needs of the ELF header.
pub struct Header {
    pub entry: u64,
    pub phoff: u64,
    pub phnum: u16,
}

/// Lowest address of a user program.
pub const USER_ENTRY: u64 = 0x1000;

/// The header of a 64-byte ELF header block `h`: `None` unless it has the magic, is
/// 64-bit, little endian, and for machine `machine`.
pub open spec fn header_of(h: Seq<u8>, machine: u16) -> Option<(nat, nat, nat)> {
    if h.len() == 64 && le(h.subrange(0, 4)) == 0x464c457f && h[4] == 2 && h[5] == 1
        && le(h.subrange(18, 20)) == machine {
        Some((le(h.subrange(24, 32)), le(h.subrange(32, 40)), le(h.subrange(56, 58))))
    } else {
        None
    }
}

/// A header block is accepted exactly when its bytes say so: 64 of them, starting with
/// 0x7f 'E' 'L' 'F', class 2 (64-bit), data 1 (little endian), and the machine number,
/// little endian at bytes 18 and 19, equal to `machine`.
pub proof fn lemma_header_of(h: Seq<u8>, machine: u16)
    ensures
        header_of(h, machine) is Some <==> h.len() == 64 && h[0] == 0x7f && h[1] == 0x45 && h[2] == 0x4c
            && h[3] == 0x46 && h[4] == 2 && h[5] == 1 && h[18] + 256 * h[19] == machine,
{
    if h.len() == 64 {
        let m = h.subrange(0, 4);
        lemma_le4(m);
        assert(m[0] == h[0] && m[1] == h[1] && m[2] == h[2] && m[3] == h[3]);
        let b0 = h[0];
        let b1 = h[1];
        let b2 = h[2];
        let b3 = h[3];
        assert((b0 + 256 * (b1 + 256 * (b2 + 256 * b3)) == 0x464c457f) <==> (b0 == 0x7f && b1 == 0x45 && b2 == 0x4c && b3 == 0x46))
            by (nonlinear_arith)
            requires b0 < 256, b1 < 256, b2 < 256, b3 < 256;
        let mm = h.subrange(18, 20);
        crate::proc::elf::lemma_le2(mm);
        assert(mm[0] == h[18] && mm[1] == h[19]);
    }
}

/// Reads the header that `exec` needs from the first 64 bytes of a program file
/// (`Err` when fewer could be read, or when it is not an executable for `machine`).
pub fn read_header(h: &[u8], machine: u16) -> (r: Result<Header, ()>)
    ensures
        r is Err <==> header_of(h@, machine) is None,
        r matches Ok(hd) ==> header_of(h@, machine) == Some((hd.entry as nat, hd.phoff as nat, hd.phnum as nat)),
        r is Ok <==> h@.len() == 64 && h@[0] == 0x7f && h@[1] == 0x45 && h@[2] == 0x4c && h@[3] == 0x46
            && h@[4] == 2 && h@[5] == 1 && h@[18] + 256 * h@[19] == machine,
{
    proof {
        lemma_header_of(h@, machine);
    }
    if h.len() != 64 {
        return Err(());
    }
    let magic = rd_u32(h, 0);
    let m = rd_u16(h, 18);
    if magic != 0x464c457f || h[4] != 2 || h[5] != 1 || m != machine {
        return Err(());
    }
    Ok(Header { entry: rd_u64(h, 24), phoff: rd_u64(h, 32), phnum: rd_u16(h, 56) })
}

/// A loadable segment to put on the heap: where it goes, how far it reaches, where its
/// bytes are in the file and how many, and its page permissions (read, plus write and
/// execute as its flags say).
pub struct SegmentPlan {
    pub va: u64,
    pub end: u64,
    pub offset: u64,
    pub filesz: u64,
    pub perms: u64,
}

/// What `exec` makes of a 56-byte program header `ph` when the heap reaches `top`:
/// `Ok(None)` to skip a header that is not loadable, `Err` for a segment it refuses
/// (file part beyond memory part, not page aligned, below the entry address, below the
/// heap built so far, into the mmap area, or with file offsets beyond 32 bits).
pub open spec fn segment_of(ph: Seq<u8>, top: u64) -> Result<Option<(u64, u64, u64, u64, u64)>, ()> {
    if le(ph.subrange(0, 4)) != 1 {
        Ok(None)
    } else {
        let flags = le(ph.subrange(4, 8));
        let offset = le(ph.subrange(8, 16));
        let va = le(ph.subrange(16, 24));
        let filesz = le(ph.subrange(32, 40));
        let memsz = le(ph.subrange(40, 48));
        let end = va + memsz;
        if end > u64::MAX || memsz < filesz || va % 4096 != 0 || va < USER_ENTRY || end < top
            || end > MMAP_BEGIN || offset > u32::MAX || filesz > u32::MAX - offset {
            Err(())
        } else {
            let perms = 2 | (if (flags as u32) & 2 != 0 { 4u64 } else { 0u64 }) | (if (flags as u32) & 1 != 0 { 8u64 } else { 0u64 });
            Ok(Some((va as u64, end as u64, offset as u64, filesz as u64, perms)))
        }
    }
}

/// Checks program header `ph` for loading onto a heap that reaches `top`.
pub fn plan_segment(ph: &[u8], top: u64) -> (r: Result<Option<SegmentPlan>, ()>)
    requires
        ph@.len() == 56,
    ensures
        match segment_of(ph@, top) {
            Ok(None) => r matches Ok(None),
            Ok(Some((va, end, offset, filesz, perms))) => r matches Ok(Some(p)) && p.va == va && p.end == end
                && p.offset == offset && p.filesz == filesz && p.perms == perms,
            Err(()) => r is Err,
        },
        r matches Ok(Some(p)) ==> p.perms & 2 == 2 && ((p.perms & 4 == 4) <==> (ph@[4] & 2 == 2))
            && ((p.perms & 8 == 8) <==> (ph@[4] & 1 == 1)) && p.perms & !14u64 == 0,
{
    if rd_u32(ph, 0) != 1 {
        return Ok(None);
    }
    let flags = rd_u32(ph, 4);
    let offset = rd_u64(ph, 8);
    let va = rd_u64(ph, 16);
    let filesz = rd_u64(ph, 32);
    let memsz = rd_u64(ph, 40);
    if memsz > u64::MAX - va {
        return Err(());
    }
    let end = va + memsz;
    if memsz < filesz || va % 4096 != 0 || va < USER_ENTRY || end < top || end > MMAP_BEGIN as u64
        || offset > u32::MAX as u64 || filesz > u32::MAX as u64 - offset {
        return Err(());
    }
    let w: u64 = if flags & 2 != 0 { 4 } else { 0 };
    let x: u64 = if flags & 1 != 0 { 8 } else { 0 };
    let r = SegmentPlan { va, end, offset, filesz, perms: 2 | w | x };
    proof {
        lemma_segment_plan(ph@, top);
    }
    Ok(Some(r))
}


/// What a loadable segment's plan says, stated against the header's bytes: it is always
/// readable, writable exactly when bit 1 (`PF_W`) of `p_flags` is set and executable
/// exactly when bit 0 (`PF_X`) is, each independently of the other, and carries no other
/// permission; its pages start page aligned at or above [`USER_ENTRY`], cover `p_memsz`
/// bytes, reach at least the heap top `top` and stay below the mmap area; the file part
/// fits in the memory part and in 32-bit offsets.
pub proof fn lemma_segment_plan(ph: Seq<u8>, top: u64)
    requires
        ph.len() == 56,
        segment_of(ph, top) matches Ok(Some(_)),
    ensures
        ({
            let (va, end, offset, filesz, perms) = segment_of(ph, top)->Ok_0->Some_0;
            &&& perms & 2 == 2
            &&& (perms & 4 == 4) <==> (ph[4] & 2 == 2)
            &&& (perms & 8 == 8) <==> (ph[4] & 1 == 1)
            &&& perms & !14u64 == 0
            &&& va == le(ph.subrange(16, 24))
            &&& end - va == le(ph.subrange(40, 48))
            &&& offset == le(ph.subrange(8, 16))
            &&& filesz == le(ph.subrange(32, 40))
            &&& va % 4096 == 0
            &&& USER_ENTRY <= va
            &&& top <= end <= MMAP_BEGIN
            &&& filesz <= end - va
            &&& offset + filesz <= u32::MAX
        }),
{
    let fl = le(ph.subrange(4, 8));
    lemma_le4(ph.subrange(4, 8));
    let b0 = ph[4];
    let b1 = ph[5];
    let b2 = ph[6];
    let b3 = ph[7];
    assert(ph.subrange(4, 8)[0] == b0 && ph.subrange(4, 8)[1] == b1 && ph.subrange(4, 8)[2] == b2 && ph.subrange(4, 8)[3] == b3);
    let x: u32 = fl as u32;
    assert(fl < 0x1_0000_0000) by (nonlinear_arith)
        requires fl == b0 + 256 * (b1 + 256 * (b2 + 256 * b3)), b0 < 256, b1 < 256, b2 < 256, b3 < 256;
    assert(x == fl);
    assert(((x & 2 != 0) == (b0 & 2 == 2)) && ((x & 1 != 0) == (b0 & 1 == 1))) by (bit_vector)
        requires x == b0 as u32 + 256 * (b1 as u32 + 256 * (b2 as u32 + 256 * b3 as u32));
    let w: u64 = if x & 2 != 0 { 4u64 } else { 0u64 };
    let e: u64 = if x & 1 != 0 { 8u64 } else { 0u64 };
    let p: u64 = 2 | w | e;
    assert((p & 2 == 2) && ((p & 4 == 4) <==> (w == 4)) && ((p & 8 == 8) <==> (e == 8)) && (p & !14u64 == 0)) by (bit_vector)
        requires p == 2 | w | e, w == 4 || w == 0, e == 8 || e == 0;
}

/// The fields of a plan, in the order of [`segment_of`].
pub open spec fn plan_fields(p: SegmentPlan) -> (u64, u64, u64, u64, u64) {
    (p.va, p.end, p.offset, p.filesz, p.perms)
}

/// The fields of each plan of `v`.
pub open spec fn plan_list(v: Seq<SegmentPlan>) -> Seq<(u64, u64, u64, u64, u64)> {
    v.map_values(|p: SegmentPlan| plan_fields(p))
}

/// Bytes of a program header.
pub const PH_BYTES: usize = 56;

/// The plans for the program headers `i..phnum` of the file `file`, whose headers
/// start at `phoff`, when the heap reaches `top`: the heap top after the last loadable
/// segment and the plans in file order. `Err` when a header lies beyond 32-bit offsets
/// or past the end of the file, or a segment is refused.
pub open spec fn heap_plan(file: Seq<u8>, phoff: nat, phnum: nat, i: nat, top: u64)
    -> Result<(u64, Seq<(u64, u64, u64, u64, u64)>), ()>
    decreases phnum - i,
{
    if i >= phnum {
        Ok((top, Seq::empty()))
    } else {
        let off = phoff + i * PH_BYTES;
        if off > u32::MAX - PH_BYTES || off + PH_BYTES > file.len() {
            Err(())
        } else {
            match segment_of(file.subrange(off, off + PH_BYTES), top) {
                Err(()) => Err(()),
                Ok(None) => heap_plan(file, phoff, phnum, i + 1, top),
                Ok(Some(p)) => match heap_plan(file, phoff, phnum, i + 1, p.1) {
                    Err(()) => Err(()),
                    Ok((t, ps)) => Ok((t, seq![p] + ps)),
                },
            }
        }
    }
}

/// What a heap plan holds: each segment's pages begin page aligned at or above
/// [`USER_ENTRY`], end below the mmap area and no lower than where the heap stood before
/// it (the start `top` for the first, the previous segment's end after that), the file
/// part fits in the memory part, and each is readable; the final heap top is the last
/// segment's end, or `top` when no header is loadable.
pub proof fn lemma_heap_plan(file: Seq<u8>, phoff: nat, phnum: nat, i: nat, top: u64)
    requires
        heap_plan(file, phoff, phnum, i, top) is Ok,
    ensures
        ({
            let (t, ps) = heap_plan(file, phoff, phnum, i, top)->Ok_0;
            &&& ps.len() == 0 ==> t == top
            &&& ps.len() > 0 ==> t == ps[ps.len() - 1].1
            &&& forall|k: int| 0 <= k < ps.len() ==> {
                let (va, end, offset, filesz, perms) = #[trigger] ps[k];
                &&& va % 4096 == 0
                &&& USER_ENTRY <= va
                &&& (if k == 0 { top as int } else { ps[k - 1].1 as int }) <= end <= MMAP_BEGIN
                &&& filesz <= end - va
                &&& perms & 2 == 2
            }
        }),
    decreases phnum - i,
{
    if i < phnum {
        let off = phoff + i * PH_BYTES;
        let ph = file.subrange(off as int, off + PH_BYTES);
        match segment_of(ph, top) {
            Ok(None) => {
                lemma_heap_plan(file, phoff, phnum, i + 1, top);
            },
            Ok(Some(p)) => {
                lemma_segment_plan(ph, top);
                lemma_heap_plan(file, phoff, phnum, i + 1, p.1);
                let (t, ps) = heap_plan(file, phoff, phnum, i + 1, p.1)->Ok_0;
                let all = seq![p] + ps;
                assert forall|k: int| 0 <= k < all.len() implies {
                    let (va, end, offset, filesz, perms) = #[trigger] all[k];
                    &&& va % 4096 == 0
                    &&& USER_ENTRY <= va
                    &&& (if k == 0 { top as int } else { all[k - 1].1 as int }) <= end <= MMAP_BEGIN
                    &&& filesz <= end - va
                    &&& perms & 2 == 2
                } by {
                    if k > 0 {
                        assert(all[k] == ps[k - 1]);
                        if k > 1 {
                            assert(all[k - 1] == ps[k - 2]);
                        }
                    }
                }
                if ps.len() > 0 {
                    assert(all[all.len() - 1] == ps[ps.len() - 1]);
                }
            },
            Err(()) => {},
        }
    }
}

/// Walks the program headers of the program file `file` with header `h` and plans
/// the heap: every loadable segment in file order, each checked against the heap built
/// by the ones before, starting from [`USER_ENTRY`]. Returns the final heap top and the
/// plans; the pages of each plan are then grown on the heap and filled from the file.
pub fn prepare_heap(file: &[u8], h: &Header) -> (r: Result<(u64, Vec<SegmentPlan>), ()>)
    ensures
        match heap_plan(file@, h.phoff as nat, h.phnum as nat, 0, USER_ENTRY) {
            Err(()) => r is Err,
            Ok((t, ps)) => r matches Ok((t2, v)) && t2 == t && v@.len() == ps.len()
                && forall|k: int| 0 <= k < ps.len() ==> #[trigger] plan_fields(v@[k]) == ps[k],
        },
{
    let n = file.len();
    let mut top: u64 = USER_ENTRY;
    let mut plans: Vec<SegmentPlan> = Vec::new();
    let mut i: u16 = 0;
    let ghost whole = heap_plan(file@, h.phoff as nat, h.phnum as nat, 0, USER_ENTRY);
    proof {
        assert(plan_list(plans@) =~= Seq::<(u64, u64, u64, u64, u64)>::empty());
        match whole {
            Ok((t, ps)) => {
                assert(plan_list(plans@) + ps =~= ps);
            },
            Err(()) => {},
        }
    }
    while i < h.phnum
        invariant
            n == file@.len(),
            i <= h.phnum,
            whole == heap_plan(file@, h.phoff as nat, h.phnum as nat, 0, USER_ENTRY),
            whole is Err <==> heap_plan(file@, h.phoff as nat, h.phnum as nat, i as nat, top) is Err,
            heap_plan(file@, h.phoff as nat, h.phnum as nat, i as nat, top) matches Ok((t, ps))
                ==> whole == Ok::<(u64, Seq<(u64, u64, u64, u64, u64)>), ()>((t, plan_list(plans@) + ps)),
        decreases h.phnum - i,
    {
        let ghost rest = heap_plan(file@, h.phoff as nat, h.phnum as nat, i as nat, top);
        let ghost old_plans = plans@;
        if h.phoff > (u32::MAX as u64) - (PH_BYTES as u64) {
            return Err(());
        }
        let off = h.phoff + (i as u64) * (PH_BYTES as u64);
        if off > (u32::MAX as u64) - (PH_BYTES as u64) || off + (PH_BYTES as u64) > n as u64 {
            return Err(());
        }
        let offu = off as usize;
        let ph = &file[offu..offu + PH_BYTES];
        proof {
            assert(ph@ =~= file@.subrange(off as int, off + PH_BYTES));
        }
        match plan_segment(ph, top) {
            Err(()) => {
                return Err(());
            },
            Ok(None) => {},
            Ok(Some(p)) => {
                top = p.end;
                plans.push(p);
                proof {
                    let q = plan_fields(p);
                    let tail = heap_plan(file@, h.phoff as nat, h.phnum as nat, (i + 1) as nat, top);
                    assert(plan_list(plans@)
                        =~= plan_list(old_plans).push(q));
                    if let Ok((t, ps)) = tail {
                        assert(plan_list(old_plans) + (seq![q] + ps)
                            =~= plan_list(plans@) + ps);
                    }
                }
            },
        }
        i = i + 1;
    }
    proof {
        assert(plan_list(plans@) + Seq::<(u64, u64, u64, u64, u64)>::empty()
            =~= plan_list(plans@));
    }
    Ok((top, plans))
}

/// Byte `k` of a segment loaded at `va` goes to physical address `q`.
pub open spec fn loads_to(m: Pmem, root: int, va: int, k: int, q: int) -> bool {
    checked_translate(m, root, va + k) == Some(q)
}

/// `k` is the last of the first `n` bytes of the segment that goes to `q`.
pub open spec fn last_load_at(m: Pmem, root: int, va: int, n: int, q: int, k: int) -> bool {
    &&& 0 <= k < n
    &&& loads_to(m, root, va, k, q)
    &&& forall|j: int| k < j < n ==> !#[trigger] loads_to(m, root, va, j, q)
}

/// The last of the first `n` bytes of the segment at `va` that goes to `q`, if any:
/// the byte that `q` holds once they are loaded in order.
pub open spec fn last_load(m: Pmem, root: int, va: int, n: int, q: int) -> Option<int> {
    if exists|k: int| last_load_at(m, root, va, n, q, k) {
        Some(choose|k: int| last_load_at(m, root, va, n, q, k))
    } else {
        None
    }
}

/// At most one byte is the last to go to `q`.
pub proof fn lemma_last_load_unique(m: Pmem, root: int, va: int, n: int, q: int, k1: int, k2: int)
    requires
        last_load_at(m, root, va, n, q, k1),
        last_load_at(m, root, va, n, q, k2),
    ensures
        k1 == k2,
{
    if k1 < k2 {
        assert(!loads_to(m, root, va, k2, q));
    } else if k2 < k1 {
        assert(!loads_to(m, root, va, k1, q));
    }
}

/// Loading byte `n` makes it the last byte at its address and changes no other.
proof fn lemma_last_load_step(m: Pmem, root: int, va: int, n: int, q: int)
    requires
        n >= 0,
    ensures
        last_load(m, root, va, n + 1, q) == if loads_to(m, root, va, n, q) { Some(n) } else { last_load(m, root, va, n, q) },
{
    let n1 = n + 1;
    if loads_to(m, root, va, n, q) {
        assert(last_load_at(m, root, va, n1, q, n));
        let k = choose|k: int| last_load_at(m, root, va, n1, q, k);
        lemma_last_load_unique(m, root, va, n1, q, k, n);
    } else {
        assert forall|k: int| last_load_at(m, root, va, n1, q, k) <==> last_load_at(m, root, va, n, q, k) by {
            if last_load_at(m, root, va, n, q, k) {
                assert forall|j: int| k < j < n1 implies !#[trigger] loads_to(m, root, va, j, q) by {
                    if j < n {
                        assert(!loads_to(m, root, va, j, q));
                    }
                }
            }
        }
        if exists|k: int| last_load_at(m, root, va, n, q, k) {
            let k1 = choose|k: int| last_load_at(m, root, va, n1, q, k);
            let k2 = choose|k: int| last_load_at(m, root, va, n, q, k);
            lemma_last_load_unique(m, root, va, n, q, k1, k2);
        }
    }
}

/// Copies the `len` bytes at `offset` of the program file `file` into the user pages
/// mapped at `va` through the root table at `root`, in order. Every byte must be mapped
/// to memory of the user pool; page tables are not touched, and a physical byte reached
/// twice keeps the later byte.
pub fn load_segment(m: &mut Pmem, root: usize, file: &[u8], offset: u32, va: usize, len: u32)
    requires
        old(m).wf(),
        va % 4096 == 0,
        va + len <= usize::MAX + 1,
        offset + len <= u32::MAX + 1,
        offset + len <= file@.len(),
        forall|k: int| 0 <= k < len ==> {
            let t = #[trigger] checked_translate(*old(m), root as int, va + k);
            &&& t is Some
            &&& old(m).holds_byte(t->0)
            &&& t->0 >= old(m).pool(Pool::User).begin()
        },
    ensures
        final(m).wf(),
        final(m).pool(Pool::Kernel) == old(m).pool(Pool::Kernel),
        final(m).pool(Pool::User) == old(m).pool(Pool::User),
        final(m).mem_base() == old(m).mem_base(),
        final(m).mem().len() == old(m).mem().len(),
        final(m).inited_spec() == old(m).inited_spec(),
        forall|x: int| #[trigger] checked_translate(*final(m), root as int, x) == checked_translate(*old(m), root as int, x),
        forall|t: int, i: int| old(m).pool(Pool::Kernel).owns(t) && 0 <= i < PAGE_WORDS
            ==> #[trigger] final(m).word(t, i) == old(m).word(t, i),
        forall|q: int| old(m).holds_byte(q) ==> #[trigger] final(m).byte(q) == match last_load(*old(m), root as int, va as int, len as int, q) {
            Some(k) => file@[offset + k],
            None => old(m).byte(q),
        },
{
    let ghost m0 = *m;
    let n = file.len();
    let mut i: u32 = 0;
    while i < len
        invariant
            m0.wf(),
            m.wf(),
            i <= len,
            n == file@.len(),
            va + len <= usize::MAX + 1,
            offset + len <= u32::MAX + 1,
            offset + len <= file@.len(),
            forall|k: int| 0 <= k < len ==> {
                let t = #[trigger] checked_translate(m0, root as int, va + k);
                &&& t is Some
                &&& m0.holds_byte(t->0)
                &&& t->0 >= m0.pool(Pool::User).begin()
            },
            m.pool(Pool::Kernel) == m0.pool(Pool::Kernel),
            m.pool(Pool::User) == m0.pool(Pool::User),
            m.mem_base() == m0.mem_base(),
            m.mem().len() == m0.mem().len(),
            m.inited_spec() == m0.inited_spec(),
            forall|x: int| #[trigger] checked_walk_from(*m, root as int, 2, x) == checked_walk_from(m0, root as int, 2, x),
            forall|t: int, j: int| m0.pool(Pool::Kernel).owns(t) && 0 <= j < PAGE_WORDS
                ==> #[trigger] m.word(t, j) == m0.word(t, j),
            forall|q: int| m0.holds_byte(q) ==> #[trigger] m.byte(q) == match last_load(m0, root as int, va as int, i as int, q) {
                Some(k) => file@[offset + k],
                None => m0.byte(q),
            },
        decreases len - i,
    {
        let x = va + i as usize;
        proof {
            assert(checked_translate(m0, root as int, va + i) is Some);
        }
        let pa = match translate_at(m, root, x) {
            Some(pa) => pa,
            None => {
                proof {
                    assert(checked_walk_from(*m, root as int, 2, x as int) == checked_walk_from(m0, root as int, 2, x as int));
                }
                return;
            },
        };
        proof {
            assert(checked_walk_from(*m, root as int, 2, x as int) == checked_walk_from(m0, root as int, 2, x as int));
            assert(pa == checked_translate(m0, root as int, va + i)->0);
        }
        let b = file[(offset + i) as usize];
        let ghost m1 = *m;
        m.write_byte(pa, b);
        proof {
            assert forall|y: int| #[trigger] checked_walk_from(*m, root as int, 2, y) == checked_walk_from(m0, root as int, 2, y) by {
                lemma_walk_ignores_user_write(m1, *m, pa as int, b, root as int, 2, y);
            }
            assert forall|t: int, j: int| m0.pool(Pool::Kernel).owns(t) && 0 <= j < PAGE_WORDS
                implies #[trigger] m.word(t, j) == m0.word(t, j) by {
                lemma_user_write_keeps_kernel(m1, *m, pa as int, b, t, j);
            }
            assert forall|q: int| m0.holds_byte(q) implies #[trigger] m.byte(q) == match last_load(m0, root as int, va as int, i + 1, q) {
                Some(k) => file@[offset + k],
                None => m0.byte(q),
            } by {
                crate::mm::pmem::lemma_byte_write(m1, *m, pa as int, b, q);
                lemma_last_load_step(m0, root as int, va as int, i as int, q);
            }
        }
        i = i + 1;
    }
    proof {
        assert forall|y: int| #[trigger] checked_translate(*m, root as int, y) == checked_translate(m0, root as int, y) by {
            assert(checked_walk_from(*m, root as int, 2, y) == checked_walk_from(m0, root as int, 2, y));
        }
    }
}

/// `n` rounded up to a multiple of 16.
pub open spec fn round16(n: int) -> int {
    (n + 15) / 16 * 16
}

/// Bytes that the first `k` arguments take on the stack: each with its NUL, rounded up
/// to 16.
pub open spec fn arg_space(argv: Seq<Vec<u8>>, k: int) -> int
    decreases k,
{
    if k <= 0 { 0 } else { arg_space(argv, k - 1) + round16(argv[k - 1]@.len() + 1int) }
}

/// Where in the stack page argument `i` starts.
pub open spec fn arg_at(argv: Seq<Vec<u8>>, i: int) -> int {
    4096 - arg_space(argv, i + 1)
}

/// Where in the stack page the argument pointers start (the initial stack pointer).
pub open spec fn ptrs_at(argv: Seq<Vec<u8>>) -> int {
    4096 - arg_space(argv, argv.len() as int) - round16((argv.len() + 1int) * 8)
}

/// The arguments fit: not too many, none too long or holding a NUL, and strings and
/// pointers together within the page.
pub open spec fn stack_fits(argv: Seq<Vec<u8>>, max_args: usize, arg_bytes: usize) -> bool {
    &&& argv.len() <= max_args
    &&& forall|i: int| 0 <= i < argv.len() ==> (#[trigger] argv[i])@.len() < arg_bytes && !argv[i]@.contains(0u8)
    &&& ptrs_at(argv) >= 0
}

proof fn lemma_arg_space_aligned(argv: Seq<Vec<u8>>, k: int)
    ensures
        arg_space(argv, k) % 16 == 0,
        arg_space(argv, k) >= 0,
    decreases k,
{
    if k > 0 {
        lemma_arg_space_aligned(argv, k - 1);
        let n = argv[k - 1]@.len() + 1int;
        assert(round16(n) % 16 == 0 && round16(n) >= n) by (nonlinear_arith)
            requires round16(n) == (n + 15) / 16 * 16, n >= 1;
    }
}

/// Where the initial stack puts things, when the arguments fit: every argument string
/// starts 16-byte aligned, has room for its bytes and its NUL before the next string up
/// (the first one before the end of the page), and the pointer array, 16-byte aligned,
/// lies below all of them with room for one pointer per argument and the final 0.
pub proof fn lemma_stack_layout(argv: Seq<Vec<u8>>, max_args: usize, arg_bytes: usize)
    requires
        stack_fits(argv, max_args, arg_bytes),
    ensures
        ptrs_at(argv) % 16 == 0,
        0 <= ptrs_at(argv),
        forall|i: int| 0 <= i < argv.len() ==> #[trigger] arg_at(argv, i) % 16 == 0,
        forall|i: int| 0 <= i < argv.len() ==> ptrs_at(argv) + 8 * (argv.len() + 1) <= #[trigger] arg_at(argv, i),
        forall|i: int| 0 <= i < argv.len() ==> #[trigger] arg_at(argv, i) + argv[i]@.len() + 1
            <= if i == 0 { 4096 } else { arg_at(argv, i - 1) },
{
    let n = argv.len() as int;
    lemma_arg_space_aligned(argv, n);
    let pn = (n + 1) * 8;
    assert(round16(pn) % 16 == 0 && round16(pn) >= pn) by (nonlinear_arith)
        requires round16(pn) == (pn + 15) / 16 * 16, pn >= 8;
    assert forall|i: int| 0 <= i < argv.len() implies #[trigger] arg_at(argv, i) % 16 == 0
        && ptrs_at(argv) + 8 * (argv.len() + 1) <= arg_at(argv, i)
        && arg_at(argv, i) + argv[i]@.len() + 1 <= if i == 0 { 4096 } else { arg_at(argv, i - 1) } by {
        lemma_arg_space_aligned(argv, i + 1);
        lemma_arg_space_mono(argv, i + 1, n);
        let m = argv[i]@.len() + 1int;
        assert(round16(m) >= m) by (nonlinear_arith)
            requires round16(m) == (m + 15) / 16 * 16, m >= 1;
        assert(arg_space(argv, i + 1) == arg_space(argv, i) + round16(m));
        lemma_arg_space_aligned(argv, i);
    }
}

proof fn lemma_arg_space_mono(argv: Seq<Vec<u8>>, a: int, b: int)
    requires
        0 <= a <= b,
    ensures
        arg_space(argv, a) + (b - a) <= arg_space(argv, b),
    decreases b - a,
{
    if a < b {
        lemma_arg_space_mono(argv, a, b - 1);
        assert(round16(argv[b - 1]@.len() + 1int) >= 1);
    }
}

/// Writes `v` little endian into `page[off..off + 8]`.
fn write_le64(page: &mut Vec<u8>, off: usize, v: u64)
    requires
        off + 8 <= old(page)@.len(),
    ensures
        final(page)@.len() == old(page)@.len(),
        le(final(page)@.subrange(off as int, off + 8)) == v,
        forall|x: int| 0 <= x < old(page)@.len() && !(off <= x < off + 8) ==> #[trigger] final(page)@[x] == old(page)@[x],
{
    let plen = page.len();
    let b0 = (v & 0xff) as u8;
    let b1 = ((v >> 8) & 0xff) as u8;
    let b2 = ((v >> 16) & 0xff) as u8;
    let b3 = ((v >> 24) & 0xff) as u8;
    let b4 = ((v >> 32) & 0xff) as u8;
    let b5 = ((v >> 40) & 0xff) as u8;
    let b6 = ((v >> 48) & 0xff) as u8;
    let b7 = ((v >> 56) & 0xff) as u8;
    page.set(off, b0);
    page.set(off + 1, b1);
    page.set(off + 2, b2);
    page.set(off + 3, b3);
    page.set(off + 4, b4);
    page.set(off + 5, b5);
    page.set(off + 6, b6);
    page.set(off + 7, b7);
    proof {
        let s = page@.subrange(off as int, off + 8);
        lemma_le8(s);
        lemma_le4(s.subrange(4, 8));
        assert(s.subrange(4, 8)[0] == b4 && s.subrange(4, 8)[1] == b5 && s.subrange(4, 8)[2] == b6 && s.subrange(4, 8)[3] == b7);
        assert(b0 + 256 * (b1 + 256 * (b2 + 256 * (b3 + 256 * (b4 + 256 * (b5 + 256 * (b6 + 256 * b7)))))) == v) by (bit_vector)
            requires
                b0 == (v & 0xff) as u8,
                b1 == ((v >> 8) & 0xff) as u8,
                b2 == ((v >> 16) & 0xff) as u8,
                b3 == ((v >> 24) & 0xff) as u8,
                b4 == ((v >> 32) & 0xff) as u8,
                b5 == ((v >> 40) & 0xff) as u8,
                b6 == ((v >> 48) & 0xff) as u8,
                b7 == ((v >> 56) & 0xff) as u8,
        ;
    }
}

/// Lays out the initial user stack in `page`, the last page below the stack top, which
/// user space sees at address `bottom`: the argument strings from the top down, each
/// NUL-terminated and 16-byte aligned, then below them the array of their addresses
/// ended by 0. Returns the stack pointer (the address of that array). `Err` when there
/// are more than `max_args` arguments, one of `arg_bytes` bytes or more or holding a
/// NUL, or when they do not fit in the page.
pub fn prepare_stack(page: &mut Vec<u8>, bottom: u64, argv: &Vec<Vec<u8>>, max_args: usize, arg_bytes: usize) -> (r: Result<u64, ()>)
    requires
        old(page)@.len() == 4096,
        bottom + 4096 <= u64::MAX,
    ensures
        final(page)@.len() == 4096,
        r is Ok <==> stack_fits(argv@, max_args, arg_bytes),
        r matches Ok(sp) ==> {
            let n = argv@.len() as int;
            let p = ptrs_at(argv@);
            &&& sp == bottom + p
            &&& forall|i: int, t: int| 0 <= i < n && 0 <= t < argv@[i]@.len() ==>
                final(page)@[arg_at(argv@, i) + t] == #[trigger] argv@[i]@[t]
            &&& forall|i: int| 0 <= i < n ==> final(page)@[arg_at(argv@, i) + (#[trigger] argv@[i])@.len()] == 0
            &&& forall|i: int| 0 <= i < n ==> le(final(page)@.subrange(p + 8 * i, p + 8 * i + 8)) == bottom + #[trigger] arg_at(argv@, i)
            &&& le(final(page)@.subrange(p + 8 * n, p + 8 * n + 8)) == 0
        },
{
    let n = argv.len();
    if n > max_args || n > 511 {
        proof {
            if n <= max_args {
                lemma_arg_space_mono(argv@, 0, n as int);
                assert(round16((n + 1int) * 8) > 4096) by (nonlinear_arith)
                    requires
                        n > 511,
                        round16((n + 1int) * 8) == ((n + 1int) * 8 + 15) / 16 * 16,
                ;
            }
        }
        return Err(());
    }
    let mut cursor: usize = 4096;
    let mut ptrs: Vec<u64> = Vec::new();
    let mut i: usize = 0;
    while i < n
        invariant
            n == argv@.len(),
            n <= 511,
            n <= max_args,
            page@.len() == 4096,
            bottom + 4096 <= u64::MAX,
            i <= n,
            cursor == 4096 - arg_space(argv@, i as int),
            cursor <= 4096,
            ptrs@.len() == i,
            forall|k: int| 0 <= k < i ==> ptrs@[k] == bottom + #[trigger] arg_at(argv@, k),
            forall|k: int| 0 <= k < i ==> arg_at(argv@, k) >= cursor,
            forall|k: int| 0 <= k < i ==> arg_at(argv@, k) + (#[trigger] argv@[k])@.len() < 4096,
            forall|k: int| 0 <= k < i ==> (#[trigger] argv@[k])@.len() < arg_bytes && !argv@[k]@.contains(0u8),
            forall|k: int, t: int| 0 <= k < i && 0 <= t < argv@[k]@.len() ==>
                page@[arg_at(argv@, k) + t] == #[trigger] argv@[k]@[t],
            forall|k: int| 0 <= k < i ==> page@[arg_at(argv@, k) + (#[trigger] argv@[k])@.len()] == 0,
        decreases n - i,
    {
        let arg = &argv[i];
        let len = arg.len();
        if len >= arg_bytes || len > 4096 {
            proof {
                if len < arg_bytes {
                    lemma_arg_space_mono(argv@, i as int + 1, n as int);
                    lemma_arg_space_mono(argv@, 0, i as int);
                    assert(round16(len + 1int) >= len + 1) by (nonlinear_arith)
                        requires
                            round16(len + 1int) == (len + 1int + 15) / 16 * 16,
                    ;
                }
            }
            return Err(());
        }
        let mut z: usize = 0;
        while z < len
            invariant
                len == arg@.len(),
                arg == &argv@[i as int],
                i < n,
                n == argv@.len(),
                page@.len() == 4096,
                z <= len,
                forall|x: int| 0 <= x < z ==> arg@[x] != 0,
            decreases len - z,
        {
            if arg[z] == 0 {
                proof {
                    assert(arg@.contains(0u8));
                    assert(!stack_fits(argv@, max_args, arg_bytes));
                }
                return Err(());
            }
            z = z + 1;
        }
        proof {
            assert(!arg@.contains(0u8));
        }
        let need = (len + 1 + 15) / 16 * 16;
        proof {
            assert(need > len) by (nonlinear_arith)
                requires
                    need == (len + 1 + 15) / 16 * 16,
            ;
        }
        if need > cursor {
            proof {
                lemma_arg_space_mono(argv@, i as int + 1, n as int);
            }
            return Err(());
        }
        let prev = cursor;
        cursor = cursor - need;
        let mut t: usize = 0;
        while t < len
            invariant
                len == arg@.len(),
                arg == &argv@[i as int],
                i < n,
                n == argv@.len(),
                cursor + len < prev,
                prev <= 4096,
                page@.len() == 4096,
                t <= len,
                forall|x: int| 0 <= x < t ==> page@[cursor + x] == #[trigger] arg@[x],
                forall|k: int| 0 <= k < i ==> arg_at(argv@, k) >= prev,
                forall|k: int| 0 <= k < i ==> arg_at(argv@, k) + (#[trigger] argv@[k])@.len() < 4096,
                forall|k: int, t2: int| 0 <= k < i && 0 <= t2 < argv@[k]@.len() ==>
                    page@[arg_at(argv@, k) + t2] == #[trigger] argv@[k]@[t2],
                forall|k: int| 0 <= k < i ==> page@[arg_at(argv@, k) + (#[trigger] argv@[k])@.len()] == 0,
            decreases len - t,
        {
            let ghost before = page@;
            page.set(cursor + t, arg[t]);
            proof {
                assert forall|k: int, t2: int| 0 <= k < i && 0 <= t2 < argv@[k]@.len() implies
                    page@[arg_at(argv@, k) + t2] == #[trigger] argv@[k]@[t2] by {
                    assert(before[arg_at(argv@, k) + t2] == argv@[k]@[t2]);
                }
                assert forall|k: int| 0 <= k < i implies page@[arg_at(argv@, k) + (#[trigger] argv@[k])@.len()] == 0 by {
                    assert(before[arg_at(argv@, k) + argv@[k]@.len()] == 0);
                }
            }
            t = t + 1;
        }
        let ghost before_nul = page@;
        page.set(cursor + len, 0);
        proof {
            assert(cursor == arg_at(argv@, i as int));
            assert forall|k: int, t2: int| 0 <= k < i + 1 && 0 <= t2 < argv@[k]@.len() implies
                page@[arg_at(argv@, k) + t2] == #[trigger] argv@[k]@[t2] by {
                if k == i {
                    assert(before_nul[cursor + t2] == arg@[t2]);
                } else {
                    assert(before_nul[arg_at(argv@, k) + t2] == argv@[k]@[t2]);
                }
            }
            assert forall|k: int| 0 <= k < i + 1 implies page@[arg_at(argv@, k) + (#[trigger] argv@[k])@.len()] == 0 by {
                if k < i {
                    assert(before_nul[arg_at(argv@, k) + argv@[k]@.len()] == 0);
                }
            }
        }
        ptrs.push(bottom + cursor as u64);
        i = i + 1;
    }
    let need = ((n + 1) * 8 + 15) / 16 * 16;
    proof {
        assert(need >= (n + 1) * 8) by (nonlinear_arith)
            requires
                need == ((n + 1) * 8 + 15) / 16 * 16,
        ;
    }
    if need > cursor {
        return Err(());
    }
    let top_args = cursor;
    cursor = cursor - need;
    let mut k: usize = 0;
    while k < n
        invariant
            n == argv@.len(),
            n <= 511,
            ptrs@.len() == n,
            page@.len() == 4096,
            cursor == ptrs_at(argv@),
            top_args == 4096 - arg_space(argv@, n as int),
            top_args <= 4096,
            cursor + 8 * (n + 1) <= top_args,
            k <= n,
            forall|j: int| 0 <= j < n ==> ptrs@[j] == bottom + #[trigger] arg_at(argv@, j),
            forall|j: int| 0 <= j < n ==> arg_at(argv@, j) >= top_args,
            forall|j: int| 0 <= j < n ==> arg_at(argv@, j) + (#[trigger] argv@[j])@.len() < 4096,
            forall|j: int| 0 <= j < k ==> le(page@.subrange(cursor + 8 * j, cursor + 8 * j + 8)) == bottom + #[trigger] arg_at(argv@, j),
            forall|j: int, t2: int| 0 <= j < n && 0 <= t2 < argv@[j]@.len() ==>
                page@[arg_at(argv@, j) + t2] == #[trigger] argv@[j]@[t2],
            forall|j: int| 0 <= j < n ==> page@[arg_at(argv@, j) + (#[trigger] argv@[j])@.len()] == 0,
        decreases n - k,
    {
        let ghost before = page@;
        write_le64(page, cursor + 8 * k, ptrs[k]);
        proof {
            assert forall|j: int| 0 <= j < k implies le(page@.subrange(cursor + 8 * j, cursor + 8 * j + 8)) == bottom + #[trigger] arg_at(argv@, j) by {
                assert(page@.subrange(cursor + 8 * j, cursor + 8 * j + 8) =~= before.subrange(cursor + 8 * j, cursor + 8 * j + 8));
            }
            assert forall|j: int, t2: int| 0 <= j < n && 0 <= t2 < argv@[j]@.len() implies
                page@[arg_at(argv@, j) + t2] == #[trigger] argv@[j]@[t2] by {
                assert(before[arg_at(argv@, j) + t2] == argv@[j]@[t2]);
            }
            assert forall|j: int| 0 <= j < n implies page@[arg_at(argv@, j) + (#[trigger] argv@[j])@.len()] == 0 by {
                assert(before[arg_at(argv@, j) + argv@[j]@.len()] == 0);
            }
        }
        k = k + 1;
    }
    let ghost before = page@;
    write_le64(page, cursor + 8 * n, 0);
    proof {
        assert forall|j: int| 0 <= j < n implies le(page@.subrange(cursor + 8 * j, cursor + 8 * j + 8)) == bottom + #[trigger] arg_at(argv@, j) by {
            assert(page@.subrange(cursor + 8 * j, cursor + 8 * j + 8) =~= before.subrange(cursor + 8 * j, cursor + 8 * j + 8));
        }
        assert forall|j: int, t2: int| 0 <= j < n && 0 <= t2 < argv@[j]@.len() implies
            page@[arg_at(argv@, j) + t2] == #[trigger] argv@[j]@[t2] by {
            assert(before[arg_at(argv@, j) + t2] == argv@[j]@[t2]);
        }
        assert forall|j: int| 0 <= j < n implies page@[arg_at(argv@, j) + (#[trigger] argv@[j])@.len()] == 0 by {
            assert(before[arg_at(argv@, j) + argv@[j]@.len()] == 0);
        }
    }
    Ok(bottom + cursor as u64)
}

}
