//! Sv39 page tables kept in the kernel pool of the physical memory model.
use vstd::prelude::*;
use vstd::arithmetic::div_mod::{lemma_div_denominator, lemma_mod_breakdown, lemma_fundamental_div_mod};
use crate::mm::pmem::{Pmem, Pool, PAGE_SIZE, PAGE_WORDS, word_index, lemma_word_distinct, alloc_result, lemma_alloc_keeps_other_pages,
    user_words_kept, lemma_kernel_alloc_keeps_user, lemma_kernel_write_keeps_user};

verus! {

/// Entries per page table (one page of 8-byte entries).
pub const PTE_PER_TABLE: usize = 512;
/// Number of translation levels.
pub const PAGE_LEVELS: usize = 3;
/// Size of a 2 MiB megapage.
pub const MEGAPAGE_SIZE: usize = 2 * 1024 * 1024;
/// Valid bit.
pub const PTE_V: u64 = 1;
/// Readable.
pub const PTE_R: u64 = 2;
/// Writable.
pub const PTE_W: u64 = 4;
/// Executable.
pub const PTE_X: u64 = 8;
/// Accessible from user mode.
pub const PTE_U: u64 = 16;
/// Global mapping.
pub const PTE_G: u64 = 32;
/// Accessed.
pub const PTE_A: u64 = 64;
/// Dirty.
pub const PTE_D: u64 = 128;
/// Physical addresses are below 2^56.
pub const PA_LIMIT: u64 = 0x0100_0000_0000_0000;

/// The entry has its valid bit set.
pub open spec fn pte_valid(e: u64) -> bool {
    e % 2 == 1
}

/// The entry is a leaf: at least one of R, W, X is set.
pub open spec fn pte_leaf(e: u64) -> bool {
    (e / 2) % 8 != 0
}

/// The low ten flag bits of the entry.
pub open spec fn pte_flags(e: u64) -> int {
    (e % 1024) as int
}

/// The physical address the entry points at (44-bit page number).
pub open spec fn pte_pa(e: u64) -> int {
    ((e / 1024) % 0x1000_0000_0000) * 4096
}

/// The entry for page-aligned `pa` with `flags`.
pub open spec fn pte_of(pa: int, flags: int) -> int {
    (pa / 4096) * 1024 + flags
}

/// Index into the table of level `level` for virtual address `va`.
pub open spec fn vpn(va: int, level: int) -> int {
    if level == 0 {
        (va / 4096) % 512
    } else if level == 1 {
        (va / 0x20_0000) % 512
    } else {
        (va / 0x4000_0000) % 512
    }
}

/// The position (tag) of the table of level `level` on the walk of `va`.
pub open spec fn prefix(va: int, level: int) -> int {
    if level == 2 {
        0
    } else if level == 1 {
        vpn(va, 2)
    } else {
        vpn(va, 2) * 512 + vpn(va, 1)
    }
}

/// The 27-bit virtual page number that selects a 4 KiB translation.
pub open spec fn vpage(va: int) -> int {
    (va / 4096) % 0x800_0000
}

/// Bit-level facts about entries.
proof fn lemma_pte_bits(e: u64)
    ensures
        (e & 1 != 0) == pte_valid(e),
        (e & 14 != 0) == pte_leaf(e),
        ((e >> 10) & 0xfff_ffff_ffff) << 12 == pte_pa(e),
        e & 1023 == pte_flags(e),
{
    assert((e & 1 != 0) == (e % 2 == 1)) by (bit_vector);
    assert((e & 14 != 0) == ((e / 2) % 8 != 0)) by (bit_vector);
    assert(((e >> 10) & 0xfff_ffff_ffff) << 12 == ((e / 1024) % 0x1000_0000_0000) * 4096) by (bit_vector);
    assert(e & 1023 == e % 1024) by (bit_vector);
}

/// Whether the entry is valid.
pub fn pte_is_valid(e: u64) -> (r: bool)
    ensures
        r == pte_valid(e),
{
    proof {
        lemma_pte_bits(e);
    }
    e & 1 != 0
}

/// Whether the entry is a leaf.
pub fn pte_is_leaf(e: u64) -> (r: bool)
    ensures
        r == pte_leaf(e),
{
    proof {
        lemma_pte_bits(e);
    }
    e & 14 != 0
}

/// The physical address an entry points at.
pub fn pte_to_pa(e: u64) -> (r: usize)
    requires
        pte_pa(e) <= usize::MAX,
    ensures
        r == pte_pa(e),
        r % PAGE_SIZE == 0,
        r < PA_LIMIT,
{
    proof {
        lemma_pte_bits(e);
        assert(((e >> 10) & 0xfff_ffff_ffff) << 12 < 0x0100_0000_0000_0000) by (bit_vector);
        assert((((e >> 10) & 0xfff_ffff_ffff) << 12) % 4096 == 0) by (bit_vector);
    }
    (((e >> 10) & 0xfff_ffff_ffff) << 12) as usize
}

/// Builds the entry for a page-aligned physical address and ten flag bits.
pub fn make_pte(pa: usize, flags: u64) -> (r: u64)
    requires
        pa % PAGE_SIZE == 0,
        pa < PA_LIMIT,
        flags < 1024,
    ensures
        r == pte_of(pa as int, flags as int),
        pte_pa(r) == pa,
        pte_flags(r) == flags,
        pte_valid(r) == (flags % 2 == 1),
        pte_leaf(r) == ((flags / 2) % 8 != 0),
{
    let p = pa as u64;
    let r = ((p >> 12) << 10) | flags;
    proof {
        lemma_pte_bits(r);
        assert(r == (p / 4096) * 1024 + flags) by (bit_vector)
            requires p % 4096 == 0, p < 0x0100_0000_0000_0000, flags < 1024, r == ((p >> 12) << 10) | flags;
        assert(((r / 1024) % 0x1000_0000_0000) * 4096 == p && r % 1024 == flags) by (bit_vector)
            requires p % 4096 == 0, p < 0x0100_0000_0000_0000, flags < 1024, r == ((p >> 12) << 10) | flags;
        assert(r % 2 == flags % 2 && (r / 2) % 8 == (flags / 2) % 8) by (bit_vector)
            requires flags < 1024, r % 1024 == flags;
    }
    r
}

/// The table index of `va` at `level` (0, 1 or 2).
pub fn vpn_of(va: usize, level: usize) -> (r: usize)
    requires
        level < 3,
    ensures
        r == vpn(va as int, level as int),
        r < PTE_PER_TABLE,
{
    let v = va as u64;
    let r = if level == 0 {
        (v >> 12) & 0x1ff
    } else if level == 1 {
        (v >> 21) & 0x1ff
    } else {
        (v >> 30) & 0x1ff
    };
    proof {
        assert((v >> 12) & 0x1ff == (v / 4096) % 512) by (bit_vector);
        assert((v >> 21) & 0x1ff == (v / 0x20_0000) % 512) by (bit_vector);
        assert((v >> 30) & 0x1ff == (v / 0x4000_0000) % 512) by (bit_vector);
    }
    r as usize
}


/// The walk of `va` starting at the table `t` of level `level`: the leaf entry it ends on
/// and the leaf's level, or `None` when it meets an invalid entry.
pub open spec fn walk_from(m: Pmem, t: int, level: nat, va: int) -> Option<(u64, int)>
    decreases level,
{
    let e = m.word(t, vpn(va, level as int));
    if !pte_valid(e) {
        None
    } else if pte_leaf(e) {
        Some((e, level as int))
    } else if level == 0 {
        None
    } else {
        walk_from(m, pte_pa(e), (level - 1) as nat, va)
    }
}

/// The Sv39 walk of `va` from the root table at `root`.
pub open spec fn walk(m: Pmem, root: int, va: int) -> Option<(u64, int)> {
    walk_from(m, root, 2, va)
}

/// Bytes covered by a leaf at `level`, as the translation uses it.
pub open spec fn leaf_size(level: int) -> int {
    if level == 1 { MEGAPAGE_SIZE as int } else { PAGE_SIZE as int }
}

/// The physical address `va` translates to, if any.
pub open spec fn translate(m: Pmem, root: int, va: int) -> Option<int> {
    match walk(m, root, va) {
        Some((e, l)) => Some(pte_pa(e) + va % leaf_size(l)),
        None => None,
    }
}

/// Following `va` from the root reaches the table `t` of level `l` through valid,
/// non-leaf entries.
pub open spec fn reaches(m: Pmem, root: int, va: int, t: int, l: int) -> bool {
    let e2 = m.word(root, vpn(va, 2));
    let t1 = pte_pa(e2);
    let e1 = m.word(t1, vpn(va, 1));
    if l == 2 {
        t == root
    } else if l == 1 {
        pte_valid(e2) && !pte_leaf(e2) && t == t1
    } else {
        &&& l == 0
        &&& pte_valid(e2) && !pte_leaf(e2)
        &&& pte_valid(e1) && !pte_leaf(e1) && t == pte_pa(e1)
    }
}

/// Entry `i` of table `t` respects the table tags: a link points at a table tagged with
/// the next position, a megapage leaf is megapage aligned, and every address fits a word.
pub open spec fn entry_ok(m: Pmem, tables: Map<int, (int, int)>, t: int, i: int) -> bool {
    let e = m.word(t, i);
    let (l, p) = tables[t];
    &&& pte_pa(e) <= usize::MAX
    &&& (pte_valid(e) && !pte_leaf(e) && l > 0) ==> {
        &&& tables.contains_key(pte_pa(e))
        &&& tables[pte_pa(e)] == (l - 1, p * 512 + i)
    }
    &&& (pte_valid(e) && pte_leaf(e) && l == 1) ==> pte_pa(e) % MEGAPAGE_SIZE as int == 0
}

/// Every table is an allocated kernel page of level 0..2 whose entries respect the tags.
pub open spec fn tables_ok(m: Pmem, tables: Map<int, (int, int)>) -> bool {
    &&& forall|t: int| #[trigger] tables.contains_key(t) ==> {
        &&& m.pool(Pool::Kernel).allocated(t)
        &&& 0 <= tables[t].0 <= 2
    }
    &&& forall|t: int, i: int| tables.contains_key(t) && 0 <= i < 512 ==> #[trigger] entry_ok(m, tables, t, i)
}

/// The tables of `tables` read the same in `m1` and `m2`, except maybe entry `iw` of `tw`.
pub open spec fn same_tables_except(m1: Pmem, m2: Pmem, tables: Map<int, (int, int)>, tw: int, iw: int) -> bool {
    forall|t: int, i: int| tables.contains_key(t) && 0 <= i < 512 && !(t == tw && i == iw)
        ==> #[trigger] m2.word(t, i) == m1.word(t, i)
}

/// A walk that meets table `t` of level `l` meets it at the position of `va` at that level.
proof fn lemma_walk_frame(m1: Pmem, m2: Pmem, tables: Map<int, (int, int)>, t: int, level: nat, va: int, tw: int, iw: int)
    requires
        tables_ok(m1, tables),
        tables.contains_key(t),
        tables[t] == (level as int, prefix(va, level as int)),
        level <= 2,
        same_tables_except(m1, m2, tables, tw, iw),
        !(tables.contains_key(tw) && tables[tw].0 <= level && prefix(va, tables[tw].0) == tables[tw].1
            && vpn(va, tables[tw].0) == iw),
    ensures
        walk_from(m2, t, level, va) == walk_from(m1, t, level, va),
    decreases level,
{
    let i = vpn(va, level as int);
    assert(0 <= i < 512);
    assert(m2.word(t, i) == m1.word(t, i));
    let e = m1.word(t, i);
    assert(entry_ok(m1, tables, t, i));
    if pte_valid(e) && !pte_leaf(e) && level > 0 {
        lemma_walk_frame(m1, m2, tables, pte_pa(e), (level - 1) as nat, va, tw, iw);
    }
}

/// On a table of the tags, a walk that reaches `t` at level `l` continues from `t`.
proof fn lemma_reaches_walk(m: Pmem, tables: Map<int, (int, int)>, root: int, va: int, x: int, t: int, l: int)
    requires
        0 <= l <= 2,
        reaches(m, root, va, t, l),
        prefix(x, l) == prefix(va, l),
    ensures
        walk(m, root, x) == walk_from(m, t, l as nat, x),
{
    reveal_with_fuel(walk_from, 3);
    if l == 0 {
        assert(vpn(x, 2) == vpn(va, 2) && vpn(x, 1) == vpn(va, 1));
    }
    if l == 1 {
        assert(vpn(x, 2) == vpn(va, 2));
    }
}

/// The table a walk reaches carries the tag of the walk's position.
proof fn lemma_reaches_tag(m: Pmem, tables: Map<int, (int, int)>, root: int, va: int, t: int, l: int)
    requires
        tables_ok(m, tables),
        tables.contains_key(root),
        tables[root] == (2int, 0int),
        0 <= l <= 2,
        reaches(m, root, va, t, l),
    ensures
        tables.contains_key(t),
        tables[t] == (l, prefix(va, l)),
{
    let e2 = m.word(root, vpn(va, 2));
    assert(entry_ok(m, tables, root, vpn(va, 2)));
    if l < 2 {
        let t1 = pte_pa(e2);
        if l == 0 {
            assert(entry_ok(m, tables, t1, vpn(va, 1)));
        }
    }
}

/// A page table: the physical page number of its root table, the number of mappings
/// made through it, and the tag (level, position) of each table page it uses.
pub struct PageTable {
    root: usize,
    mapped: usize,
    tables: Ghost<Map<int, (int, int)>>,
}

impl PageTable {
    /// Physical address of the root table.
    pub closed spec fn root_pa(&self) -> int {
        self.root as int * PAGE_SIZE as int
    }

    /// Number of leaf entries written through this table.
    pub closed spec fn mapped_spec(&self) -> int {
        self.mapped as int
    }

    /// The table pages in use with their tags.
    pub closed spec fn tables(&self) -> Map<int, (int, int)> {
        self.tables@
    }

    /// The address `va` translates to under this table in `m`.
    pub open spec fn translate(&self, m: Pmem, va: int) -> Option<int> {
        translate(m, self.root_pa(), va)
    }

    pub closed spec fn wf(&self, m: Pmem) -> bool {
        &&& m.wf()
        &&& self.tables@.contains_key(self.root_pa())
        &&& self.tables@[self.root_pa()] == (2int, 0int)
        &&& tables_ok(m, self.tables@)
        &&& self.root_pa() <= usize::MAX
    }

    /// The physical page number of the root table.
    pub fn root_ppn(&self) -> (r: usize)
        ensures
            r * PAGE_SIZE == self.root_pa(),
    {
        self.root
    }
}


impl PageTable {
    /// Walks the table for `va` and returns the leaf entry with its level (2, 1 or 0);
    /// `None` when the walk meets an invalid entry or runs out of levels.
    pub fn walk_leveled(&self, m: &Pmem, va: usize) -> (r: Option<(u64, usize)>)
        requires
            self.wf(*m),
        ensures
            r matches Some((e, l)) ==> walk(*m, self.root_pa(), va as int) == Some((e, l as int)),
            r is None ==> walk(*m, self.root_pa(), va as int) is None,
            r matches Some((e, l)) ==> pte_pa(e) <= usize::MAX && (l == 1 ==> pte_pa(e) % MEGAPAGE_SIZE as int == 0),
    {
        let mut t: usize = self.root * PAGE_SIZE;
        let mut l: usize = 2;
        loop
            invariant
                self.wf(*m),
                l <= 2,
                self.tables@.contains_key(t as int),
                self.tables@[t as int] == (l as int, prefix(va as int, l as int)),
                walk(*m, self.root_pa(), va as int) == walk_from(*m, t as int, l as nat, va as int),
            decreases l,
        {
            let i = vpn_of(va, l);
            assert(m.pool(Pool::Kernel).allocated(t as int));
            let e = m.read_word(t, i);
            assert(entry_ok(*m, self.tables@, t as int, i as int));
            if !pte_is_valid(e) {
                return None;
            }
            if pte_is_leaf(e) {
                return Some((e, l));
            }
            if l == 0 {
                return None;
            }
            t = pte_to_pa(e);
            l = l - 1;
        }
    }

    /// Translates `va` to a physical address: the leaf's page address plus the offset
    /// within a 4 KiB page, or within a 2 MiB page for a level-1 leaf.
    pub fn translate_with(&self, m: &Pmem, va: usize) -> (r: Option<usize>)
        requires
            self.wf(*m),
        ensures
            r matches Some(pa) ==> self.translate(*m, va as int) == Some(pa as int),
            r is None ==> self.translate(*m, va as int) is None,
    {
        match self.walk_leveled(m, va) {
            None => None,
            Some((e, level)) => Some(leaf_pa(pte_to_pa(e), level, va)),
        }
    }
}

/// The address `va` reaches inside a leaf page at `base` of `level`: the page address
/// plus the offset within a 4 KiB page, or within a 2 MiB page for a level-1 leaf.
fn leaf_pa(base: usize, level: usize, va: usize) -> (pa: usize)
    requires
        base % PAGE_SIZE == 0,
        level == 1 ==> base % MEGAPAGE_SIZE == 0,
    ensures
        pa == base + (va as int) % leaf_size(level as int),
{
    let mask: usize = if level == 1 { MEGAPAGE_SIZE - 1 } else { PAGE_SIZE - 1 };
    let off = va & mask;
    let pa = base | off;
    proof {
        if level == 1 {
            assert(off == va % 0x20_0000 && pa == base + off) by (bit_vector)
                requires mask == 0x1f_ffff, off == va & mask, base % 0x20_0000 == 0, pa == base | off;
        } else {
            assert(off == va % 4096 && pa == base + off) by (bit_vector)
                requires mask == 0xfff, off == va & mask, base % 4096 == 0, pa == base | off;
        }
    }
    pa
}

/// The address an entry points at, when it fits a `usize`.
fn pte_target(e: u64) -> (r: Option<usize>)
    ensures
        r == if pte_pa(e) <= usize::MAX { Some(pte_pa(e) as usize) } else { None::<usize> },
        r matches Some(p) ==> p % PAGE_SIZE == 0,
{
    proof {
        lemma_pte_bits(e);
        assert((((e >> 10) & 0xfff_ffff_ffff) << 12) % 4096 == 0) by (bit_vector);
    }
    let p = ((e >> 10) & 0xfff_ffff_ffff) << 12;
    if p <= usize::MAX as u64 {
        Some(p as usize)
    } else {
        None
    }
}

/// The walk of `va` from the table at `t` of `level` when nothing vouches for the
/// table: it stops with `None` at a table address that is not a kernel-pool page, at
/// an entry whose address does not fit a `usize`, and at a megapage leaf that is not
/// 2 MiB aligned.
pub open spec fn checked_walk_from(m: Pmem, t: int, level: nat, va: int) -> Option<(u64, int)>
    decreases level,
{
    if !m.pool(Pool::Kernel).owns(t) {
        None
    } else {
        let e = m.word(t, vpn(va, level as int));
        if !pte_valid(e) || pte_pa(e) > usize::MAX {
            None
        } else if pte_leaf(e) {
            if level == 1 && pte_pa(e) % MEGAPAGE_SIZE as int != 0 {
                None
            } else {
                Some((e, level as int))
            }
        } else if level == 0 {
            None
        } else {
            checked_walk_from(m, pte_pa(e), (level - 1) as nat, va)
        }
    }
}

/// The address `va` translates to through the root table at `root`, checked as above.
pub open spec fn checked_translate(m: Pmem, root: int, va: int) -> Option<int> {
    match checked_walk_from(m, root, 2, va) {
        Some((e, l)) => Some(pte_pa(e) + va % leaf_size(l)),
        None => None,
    }
}

/// On tables that respect their tags the checks never fire.
proof fn lemma_checked_walk(m: Pmem, tables: Map<int, (int, int)>, t: int, level: nat, va: int)
    requires
        tables_ok(m, tables),
        tables.contains_key(t),
        tables[t].0 == level,
    ensures
        checked_walk_from(m, t, level, va) == walk_from(m, t, level, va),
    decreases level,
{
    assert(m.pool(Pool::Kernel).allocated(t));
    let i = vpn(va, level as int);
    assert(0 <= i < 512);
    assert(entry_ok(m, tables, t, i));
    let e = m.word(t, i);
    if pte_valid(e) && !pte_leaf(e) && level > 0 {
        lemma_checked_walk(m, tables, pte_pa(e), (level - 1) as nat, va);
    }
}

/// Through a well-formed page table the checked translation is the translation.
pub proof fn lemma_checked_translate(pt: PageTable, m: Pmem, va: int)
    requires
        pt.wf(m),
    ensures
        checked_translate(m, pt.root_pa(), va) == pt.translate(m, va),
{
    lemma_checked_walk(m, pt.tables@, pt.root_pa(), 2, va);
}

/// Translates `va` through the root table at physical address `root`, checking each
/// table address on the way as [`checked_walk_from`] does.
pub fn translate_at(m: &Pmem, root: usize, va: usize) -> (r: Option<usize>)
    requires
        m.wf(),
    ensures
        r matches Some(pa) ==> checked_translate(*m, root as int, va as int) == Some(pa as int),
        r is None ==> checked_translate(*m, root as int, va as int) is None,
{
    let mut t: usize = root;
    let mut l: usize = 2;
    loop
        invariant
            m.wf(),
            l <= 2,
            checked_walk_from(*m, root as int, 2, va as int) == checked_walk_from(*m, t as int, l as nat, va as int),
        decreases l,
    {
        if !m.is_kernel_page(t) {
            return None;
        }
        let e = m.read_word(t, vpn_of(va, l));
        if !pte_is_valid(e) {
            return None;
        }
        let target = match pte_target(e) {
            None => return None,
            Some(p) => p,
        };
        if pte_is_leaf(e) {
            if l == 1 && target % MEGAPAGE_SIZE != 0 {
                return None;
            }
            return Some(leaf_pa(target, l, va));
        }
        if l == 0 {
            return None;
        }
        t = target;
        l = l - 1;
    }
}

/// Translates `va` with the page table `pt` (a process table rather than the kernel's).
pub fn kvm_translate_in(pt: &PageTable, m: &Pmem, va: usize) -> (r: Option<usize>)
    requires
        pt.wf(*m),
    ensures
        r matches Some(pa) ==> pt.translate(*m, va as int) == Some(pa as int),
        r is None ==> pt.translate(*m, va as int) is None,
{
    pt.translate_with(m, va)
}


/// How many new tables the walk of `va` down to `level` still needs, and whether a leaf
/// above `level` blocks it.
pub open spec fn create_need(m: Pmem, root: int, va: int, level: int) -> (int, bool) {
    let e2 = m.word(root, vpn(va, 2));
    let e1 = m.word(pte_pa(e2), vpn(va, 1));
    if level >= 2 {
        (0, false)
    } else if !pte_valid(e2) {
        (2 - level, false)
    } else if pte_leaf(e2) {
        (0, true)
    } else if level == 1 {
        (0, false)
    } else if !pte_valid(e1) {
        (1, false)
    } else if pte_leaf(e1) {
        (0, true)
    } else {
        (0, false)
    }
}

/// Every table of `a` is still a table of `b`, with the same tag.
pub open spec fn tables_grow(a: Map<int, (int, int)>, b: Map<int, (int, int)>) -> bool {
    forall|q: int| #[trigger] a.contains_key(q) ==> b.contains_key(q) && b[q] == a[q]
}

proof fn lemma_tables_grow_trans(a: Map<int, (int, int)>, b: Map<int, (int, int)>, c: Map<int, (int, int)>)
    requires
        tables_grow(a, b),
        tables_grow(b, c),
    ensures
        tables_grow(a, c),
{
    assert forall|q: int| #[trigger] a.contains_key(q) implies c.contains_key(q) && c[q] == a[q] by {
        assert(b.contains_key(q));
    }
}

/// The allocator changes of a page-table update: the user pool is untouched, the
/// kernel pool only hands pages out, and earlier allocations stay allocated.
pub open spec fn kernel_only_allocates(m0: Pmem, m1: Pmem) -> bool {
    &&& m1.pool(Pool::User) == m0.pool(Pool::User)
    &&& m1.pool(Pool::Kernel).begin() == m0.pool(Pool::Kernel).begin()
    &&& m1.pool(Pool::Kernel).end() == m0.pool(Pool::Kernel).end()
    &&& m1.pool(Pool::Kernel).free().len() <= m0.pool(Pool::Kernel).free().len()
    &&& forall|q: int| m0.pool(Pool::Kernel).allocated(q) ==> #[trigger] m1.pool(Pool::Kernel).allocated(q)
    &&& m1.mem_base() == m0.mem_base()
    &&& m1.mem().len() == m0.mem().len()
    &&& m1.inited_spec() == m0.inited_spec()
}

/// `q` is a table that the walk of `va` from the root at `root` passes through in `m`.
pub open spec fn on_path(m: Pmem, root: int, va: int, q: int) -> bool {
    q == root || reaches(m, root, va, q, 1) || reaches(m, root, va, q, 0)
}

/// The kernel pages handed out in `m0`, except the tables on the walk of `va` from
/// `root`, read the same in `m1`.
#[verifier::opaque]
pub open spec fn only_path_written(m0: Pmem, m1: Pmem, root: int, va: int) -> bool {
    forall|q: int, i: int| m0.pool(Pool::Kernel).allocated(q) && !on_path(m0, root, va, q) && 0 <= i < PAGE_WORDS
        ==> #[trigger] m1.word(q, i) == m0.word(q, i)
}

/// Linking a freshly allocated, zeroed table under entry `idx` of table `t` keeps the tags
/// consistent and changes no translation.
proof fn lemma_link_fresh_table(
    m1: Pmem, m2: Pmem, m3: Pmem, tables: Map<int, (int, int)>, root: int,
    va: int, t: int, l: int, idx: int, c: usize,
)
    requires
        m1.wf(),
        tables_ok(m1, tables),
        tables.contains_key(root),
        tables[root] == (2int, 0int),
        1 <= l <= 2,
        reaches(m1, root, va, t, l),
        tables.contains_key(t),
        tables[t] == (l, prefix(va, l)),
        idx == vpn(va, l),
        !pte_valid(m1.word(t, idx)),
        alloc_result(m1, m2, Pool::Kernel, c),
        c != 0,
        m2.wf(),
        m2.pool(Pool::Kernel).allocated(c as int),
        m1.pool(Pool::Kernel).owns(c as int),
        c % PAGE_SIZE == 0,
        (c as u64) < PA_LIMIT,
        m3.wf(),
        m3.pool(Pool::Kernel) == m2.pool(Pool::Kernel),
        m3.mem_base() == m2.mem_base(),
        m3.mem() == m2.mem().update(word_index(m2.mem_base(), t) + idx, pte_of(c as int, PTE_V as int) as u64),
    ensures
        tables_ok(m3, tables.insert(c as int, (l - 1, prefix(va, l - 1)))),
        !tables.contains_key(c as int),
        reaches(m3, root, va, c as int, l - 1),
        forall|x: int| walk(m3, root, x) == walk(m1, root, x),
        forall|i: int| 0 <= i < 512 ==> #[trigger] m3.word(c as int, i) == 0,
        pte_valid(m3.word(t, idx)) && !pte_leaf(m3.word(t, idx)) && pte_pa(m3.word(t, idx)) == c,
        l == 1 ==> m3.word(root, vpn(va, 2)) == m1.word(root, vpn(va, 2)),
        forall|q: int| m1.pool(Pool::Kernel).allocated(q) ==> #[trigger] m3.pool(Pool::Kernel).allocated(q),
{
    let tables2 = tables.insert(c as int, (l - 1, prefix(va, l - 1)));
    let e = pte_of(c as int, PTE_V as int) as u64;
    assert(pte_pa(e) == c && pte_valid(e) && !pte_leaf(e)) by {
        let cc = c as u64;
        assert(((cc / 4096) * 1024 + 1) / 1024 % 0x1000_0000_0000 * 4096 == cc
            && ((cc / 4096) * 1024 + 1) % 2 == 1 && (((cc / 4096) * 1024 + 1) / 2) % 8 == 0) by (bit_vector)
            requires cc % 4096 == 0, cc < 0x0100_0000_0000_0000;
    }
    // c is not one of the tables: tables are allocated, c was free.
    assert(m1.pool(Pool::Kernel).free().contains(c));
    assert(!tables.contains_key(c as int)) by {
        if tables.contains_key(c as int) {
            assert(m1.pool(Pool::Kernel).allocated(c as int));
        }
    }
    // m1 -> m2: the tables keep their words and stay allocated.
    assert forall|q: int, i: int| tables.contains_key(q) && 0 <= i < 512 implies #[trigger] m2.word(q, i) == m1.word(q, i) by {
        assert(m1.pool(Pool::Kernel).allocated(q));
        lemma_alloc_keeps_other_pages(m1, m2, c, q, i);
    }
    assert(tables_ok(m2, tables)) by {
        assert forall|q: int| #[trigger] tables.contains_key(q) implies m2.pool(Pool::Kernel).allocated(q) && 0 <= tables[q].0 <= 2 by {
            crate::mm::pmem::lemma_alloc_fresh(m1, m2, Pool::Kernel, c, q);
        }
        assert forall|q: int, i: int| tables.contains_key(q) && 0 <= i < 512 implies #[trigger] entry_ok(m2, tables, q, i) by {
            assert(entry_ok(m1, tables, q, i));
            assert(m2.word(q, i) == m1.word(q, i));
        }
    }
    // m2 -> m3: only entry idx of t changed.
    assert forall|q: int, i: int| tables2.contains_key(q) && 0 <= i < 512 && !(q == t && i == idx)
        implies #[trigger] m3.word(q, i) == m2.word(q, i) by {
        assert(m2.pool(Pool::Kernel).owns(q)) by {
            if q != c as int {
                assert(m1.pool(Pool::Kernel).allocated(q));
                crate::mm::pmem::lemma_alloc_fresh(m1, m2, Pool::Kernel, c, q);
            }
        }
        assert(m2.pool(Pool::Kernel).owns(t)) by {
            assert(m1.pool(Pool::Kernel).allocated(t));
            crate::mm::pmem::lemma_alloc_fresh(m1, m2, Pool::Kernel, c, t);
        }
        lemma_word_distinct(m2, q, i, t, idx);
        m2.lemma_pool_pages_in_mem(Pool::Kernel, t);
        m2.lemma_pool_pages_in_mem(Pool::Kernel, q);
    }
    assert(m3.word(t, idx) == e) by {
        assert(m2.pool(Pool::Kernel).owns(t)) by {
            crate::mm::pmem::lemma_alloc_fresh(m1, m2, Pool::Kernel, c, t);
        }
        m2.lemma_pool_pages_in_mem(Pool::Kernel, t);
    }
    // The new table reads as zeros.
    assert forall|i: int| 0 <= i < 512 implies #[trigger] m3.word(c as int, i) == 0 by {
        m1.lemma_pool_pages_in_mem(Pool::Kernel, c as int);
        assert(m2.word(c as int, i) == 0);
    }
    // tables_ok in m3.
    assert forall|q: int| #[trigger] tables2.contains_key(q) implies m3.pool(Pool::Kernel).allocated(q) && 0 <= tables2[q].0 <= 2 by {
        if q != c as int {
            assert(m1.pool(Pool::Kernel).allocated(q));
            crate::mm::pmem::lemma_alloc_fresh(m1, m2, Pool::Kernel, c, q);
        }
    }
    assert forall|q: int, i: int| tables2.contains_key(q) && 0 <= i < 512 implies #[trigger] entry_ok(m3, tables2, q, i) by {
        if q == c as int {
            assert(m3.word(q, i) == 0);
            assert(pte_pa(0u64) == 0);
        } else if q == t && i == idx {
        } else {
            assert(entry_ok(m1, tables, q, i));
            assert(m3.word(q, i) == m1.word(q, i));
        }
    }
    // The path to t is kept and now continues to c.
    if l == 1 {
        assert(m3.word(root, vpn(va, 2)) == m1.word(root, vpn(va, 2)));
    }
    assert forall|q: int| m1.pool(Pool::Kernel).allocated(q) implies #[trigger] m3.pool(Pool::Kernel).allocated(q) by {
        crate::mm::pmem::lemma_alloc_fresh(m1, m2, Pool::Kernel, c, q);
    }
    // Translations: unchanged everywhere.
    assert forall|x: int| walk(m3, root, x) == walk(m1, root, x) by {
        lemma_walk_frame(m1, m2, tables, root, 2, x, -1, -1);
        if prefix(x, l) == prefix(va, l) && vpn(x, l) == idx {
            lemma_reaches_walk(m2, tables, root, va, x, t, l);
            if l == 1 {
                assert(m2.word(root, vpn(va, 2)) == m1.word(root, vpn(va, 2)));
                assert(m3.word(root, vpn(va, 2)) == m2.word(root, vpn(va, 2)));
            }
            lemma_reaches_walk(m3, tables, root, va, x, t, l);
            assert(m2.word(t, idx) == m1.word(t, idx));
            assert(walk_from(m3, c as int, (l - 1) as nat, x) is None) by {
                assert(m3.word(c as int, vpn(x, l - 1)) == 0);
            }
        } else {
            lemma_walk_frame(m2, m3, tables, root, 2, x, t, idx);
        }
    }
}


impl PageTable {
    /// Descends from the root to the table of level `level` (1 or 0) that holds the entry
    /// for `va`, creating missing intermediate tables from the kernel pool. Returns the
    /// table's physical address; `None` when a leaf above `level` is in the way or the
    /// kernel pool runs out. Translations never change.
    fn walk_create(&mut self, m: &mut Pmem, va: usize, level: usize) -> (r: Option<usize>)
        requires
            old(self).wf(*old(m)),
            level <= 1,
        ensures
            final(self).wf(*final(m)),
            final(self).root_pa() == old(self).root_pa(),
            final(self).mapped_spec() == old(self).mapped_spec(),
            tables_grow(old(self).tables(), final(self).tables()),
            kernel_only_allocates(*old(m), *final(m)),
            user_words_kept(*old(m), *final(m)),
            only_path_written(*old(m), *final(m), old(self).root_pa(), va as int),
            forall|q: int| #[trigger] final(self).tables().contains_key(q)
                ==> old(self).tables().contains_key(q) || !old(m).pool(Pool::Kernel).allocated(q),
            r matches Some(t) ==> !old(m).pool(Pool::Kernel).allocated(t as int) || on_path(*old(m), old(self).root_pa(), va as int, t as int),
            forall|x: int| walk(*final(m), final(self).root_pa(), x) == walk(*old(m), old(self).root_pa(), x),
            r matches Some(t) ==> reaches(*final(m), final(self).root_pa(), va as int, t as int, level as int)
                && final(self).tables().contains_key(t as int)
                && final(self).tables()[t as int] == (level as int, prefix(va as int, level as int)),
            r is None <==> ({
                let need = create_need(*old(m), old(self).root_pa(), va as int, level as int);
                need.1 || old(m).pool(Pool::Kernel).free().len() < need.0
            }),
            r is None ==> ({
                let need = create_need(*final(m), final(self).root_pa(), va as int, level as int);
                need.1 || final(m).pool(Pool::Kernel).free().len() < need.0
            }),
            r is Some ==> final(m).pool(Pool::Kernel).free().len()
                == old(m).pool(Pool::Kernel).free().len() - create_need(*old(m), old(self).root_pa(), va as int, level as int).0,
    {
        let ghost m0 = *m;
        let ghost root = self.root_pa();
        let ghost need0 = create_need(m0, root, va as int, level as int);
        let ghost tab0 = self.tables@;
        proof {
            reveal(only_path_written);
        }
        let mut t: usize = self.root * PAGE_SIZE;
        let mut l: usize = 2;
        while l > level
            invariant
                level <= 1,
                level <= l <= 2,
                self.wf(*m),
                self.root_pa() == root,
                root == old(self).root_pa(),
                m0 == *old(m),
                need0 == create_need(m0, root, va as int, level as int),
                self.mapped == old(self).mapped,
                tab0 == old(self).tables@,
                tables_grow(tab0, self.tables@),
                kernel_only_allocates(m0, *m),
                user_words_kept(m0, *m),
                only_path_written(m0, *m, root, va as int),
                forall|q: int| #[trigger] self.tables@.contains_key(q) ==> tab0.contains_key(q) || !m0.pool(Pool::Kernel).allocated(q),
                (m.mem() == m0.mem() && (l == 2 ==> t == root) && (l < 2 ==> reaches(m0, root, va as int, t as int, l as int)))
                    || (!m0.pool(Pool::Kernel).allocated(t as int) && (l > level ==> m.word(t as int, vpn(va as int, l as int)) == 0)),
                forall|x: int| walk(*m, root, x) == walk(m0, root, x),
                reaches(*m, root, va as int, t as int, l as int),
                self.tables@.contains_key(t as int),
                self.tables@[t as int] == (l as int, prefix(va as int, l as int)),
                create_need(*m, root, va as int, level as int).1 == need0.1,
                m.pool(Pool::Kernel).free().len() - create_need(*m, root, va as int, level as int).0
                    == m0.pool(Pool::Kernel).free().len() - need0.0,
                l == level ==> create_need(*m, root, va as int, level as int) == (0int, false),
            decreases l,
        {
            let i = vpn_of(va, l);
            assert(m.pool(Pool::Kernel).allocated(t as int));
            let e = m.read_word(t, i);
            assert(entry_ok(*m, self.tables@, t as int, i as int));
            if pte_is_valid(e) {
                if pte_is_leaf(e) {
                    proof {
                        assert(create_need(*m, root, va as int, level as int).1);
                    }
                    return None;
                }
                let ghost tt = t as int;
                proof {
                    if m.mem() == m0.mem() {
                        assert(m.word(tt, i as int) == m0.word(tt, i as int));
                    }
                }
                t = pte_to_pa(e);
                l = l - 1;
                proof {
                    assert(self.tables@.contains_key(t as int));
                    assert(m.pool(Pool::Kernel).allocated(t as int));
                    if l > level {
                        // l == 1, level == 0
                        assert(reaches(*m, root, va as int, t as int, 1));
                    }
                }
            } else {
                let ghost m1 = *m;
                let c = m.pmem_alloc(Pool::Kernel);
                if c == 0 {
                    proof {
                        assert(create_need(m1, root, va as int, level as int).0 >= 1);
                        assert(m.mem() == m1.mem());
                        assert forall|q: int| #[trigger] self.tables@.contains_key(q) implies m.pool(Pool::Kernel).allocated(q) && 0 <= self.tables@[q].0 <= 2 by {
                            assert(m1.pool(Pool::Kernel).allocated(q));
                        }
                        assert forall|q: int, j: int| self.tables@.contains_key(q) && 0 <= j < 512 implies #[trigger] entry_ok(*m, self.tables@, q, j) by {
                            assert(entry_ok(m1, self.tables@, q, j));
                        }
                        assert forall|q: int| m0.pool(Pool::Kernel).allocated(q) implies #[trigger] m.pool(Pool::Kernel).allocated(q) by {
                            assert(m1.pool(Pool::Kernel).allocated(q));
                        }
                        assert forall|x: int| walk(*m, root, x) == walk(m1, root, x) by {
                            lemma_walk_frame(m1, *m, self.tables@, root, 2, x, -1, -1);
                        }
                        assert forall|q: int, j: int| m0.pool(Pool::User).owns(q) && 0 <= j < PAGE_WORDS
                            implies #[trigger] m.word(q, j) == m0.word(q, j) by {
                            assert(m1.word(q, j) == m0.word(q, j));
                        }
                        reveal(only_path_written);
                        assert forall|q: int, j: int| m0.pool(Pool::Kernel).allocated(q) && !on_path(m0, root, va as int, q) && 0 <= j < PAGE_WORDS
                            implies #[trigger] m.word(q, j) == m0.word(q, j) by {
                            assert(m1.word(q, j) == m0.word(q, j));
                        }
                    }
                    return None;
                }
                let ghost m2 = *m;
                proof {
                    assert(m1.pool(Pool::Kernel).owns(c as int));
                    vstd::arithmetic::div_mod::lemma_mod_adds(m1.pool(Pool::Kernel).begin(), c - m1.pool(Pool::Kernel).begin(), PAGE_SIZE as int);
                    assert(c % PAGE_SIZE == 0);
                    assert((c as u64) < PA_LIMIT) by {
                        m1.lemma_pool_pages_in_mem(Pool::Kernel, c as int);
                    }
                    assert(m2.pool(Pool::Kernel).owns(t as int)) by {
                        crate::mm::pmem::lemma_alloc_fresh(m1, m2, Pool::Kernel, c, t as int);
                    }
                }
                let link = make_pte(c, PTE_V);
                m.write_word(t, i, link);
                proof {
                    lemma_kernel_alloc_keeps_user(m1, m2, c);
                    lemma_kernel_write_keeps_user(m2, *m, t as int, i as int, link);
                    m1.lemma_free_distinct(Pool::Kernel);
                    assert(!m0.pool(Pool::Kernel).allocated(c as int)) by {
                        let f1 = m1.pool(Pool::Kernel).free();
                        assert(f1[f1.len() - 1] == c);
                        assert(f1.contains(c));
                        assert(m0.pool(Pool::Kernel).allocated(c as int) ==> m1.pool(Pool::Kernel).allocated(c as int));
                    }
                    reveal(only_path_written);
                    assert forall|q: int, j: int| m0.pool(Pool::Kernel).allocated(q) && !on_path(m0, root, va as int, q) && 0 <= j < PAGE_WORDS
                        implies #[trigger] m.word(q, j) == m0.word(q, j) by {
                        assert(m1.pool(Pool::Kernel).allocated(q));
                        assert(q != c);
                        assert(q != t);
                        lemma_alloc_keeps_other_pages(m1, m2, c, q, j);
                        assert(m2.pool(Pool::Kernel).owns(q));
                        lemma_word_distinct(m2, t as int, i as int, q, j);
                        m2.lemma_pool_pages_in_mem(Pool::Kernel, q);
                        m2.lemma_pool_pages_in_mem(Pool::Kernel, t as int);
                        assert(m1.word(q, j) == m0.word(q, j));
                    }
                    assert forall|q: int, j: int| m0.pool(Pool::User).owns(q) && 0 <= j < PAGE_WORDS
                        implies #[trigger] m.word(q, j) == m0.word(q, j) by {
                        assert(m2.word(q, j) == m1.word(q, j));
                        assert(m1.word(q, j) == m0.word(q, j));
                    }
                    let tables = self.tables@;
                    let ghost need1 = create_need(m1, root, va as int, level as int);
                    lemma_link_fresh_table(m1, m2, *m, tables, root, va as int, t as int, l as int, i as int, c);
                    assert forall|q: int| m0.pool(Pool::Kernel).allocated(q) implies #[trigger] m.pool(Pool::Kernel).allocated(q) by {
                        assert(m1.pool(Pool::Kernel).allocated(q));
                    }
                    assert(m2.pool(Pool::Kernel).free().len() == m1.pool(Pool::Kernel).free().len() - 1);
                    assert(m.pool(Pool::User) == m0.pool(Pool::User));
                    assert(m.mem().len() == m0.mem().len());
                    assert(m.pool(Pool::Kernel).free().len() <= m0.pool(Pool::Kernel).free().len());
                    assert(m.pool(Pool::Kernel).begin() == m0.pool(Pool::Kernel).begin());
                    assert(m.mem_base() == m0.mem_base());
                    assert(m.inited_spec() == m0.inited_spec());
                    if l == 2 {
                        assert(need1.0 == 2 - level);
                        if level == 0 {
                            assert(m.word(c as int, vpn(va as int, 1)) == 0);
                        }
                    } else {
                        assert(need1.0 == 1);
                    }
                    assert(create_need(*m, root, va as int, level as int).0 == need1.0 - 1);
                    self.tables@ = tables.insert(c as int, (l - 1, prefix(va as int, l - 1)));
                    assert(tables_grow(tables, self.tables@));
                    lemma_tables_grow_trans(tab0, tables, self.tables@);
                    assert(self.tables@[root] == (2int, 0int));
                }
                t = c;
                l = l - 1;
                proof {
                    if l > level {
                        assert(m.word(t as int, vpn(va as int, l as int)) == 0);
                    }
                }
            }
        }
        Some(t)
    }
}


/// `x` and `va` select the same entry of the level-`l` table: they agree on the table
/// indices of levels 2 down to `l`.
pub open spec fn same_slot(x: int, va: int, l: int) -> bool {
    prefix(x, l) == prefix(va, l) && vpn(x, l) == vpn(va, l)
}

/// The tables are wf in the new memory: only the kernel memory words changed.
proof fn lemma_write_leaf(m1: Pmem, m2: Pmem, tables: Map<int, (int, int)>, root: int, va: int, t: int, l: int, e: u64)
    requires
        m1.wf(),
        m2.wf(),
        tables_ok(m1, tables),
        tables.contains_key(root),
        tables[root] == (2int, 0int),
        0 <= l <= 1,
        reaches(m1, root, va, t, l),
        tables.contains_key(t),
        tables[t] == (l, prefix(va, l)),
        m2.pool(Pool::Kernel) == m1.pool(Pool::Kernel),
        m2.mem_base() == m1.mem_base(),
        m2.mem() == m1.mem().update(word_index(m1.mem_base(), t) + vpn(va, l), e),
        pte_valid(e),
        pte_leaf(e),
        pte_pa(e) <= usize::MAX,
        l == 1 ==> pte_pa(e) % MEGAPAGE_SIZE as int == 0,
    ensures
        tables_ok(m2, tables),
        forall|x: int| #[trigger] walk(m2, root, x) == if same_slot(x, va, l) { Some((e, l)) } else { walk(m1, root, x) },
{
    let idx = vpn(va, l);
    assert(m1.pool(Pool::Kernel).allocated(t));
    m1.lemma_pool_pages_in_mem(Pool::Kernel, t);
    assert forall|q: int, i: int| tables.contains_key(q) && 0 <= i < 512 && !(q == t && i == idx)
        implies #[trigger] m2.word(q, i) == m1.word(q, i) by {
        assert(m1.pool(Pool::Kernel).allocated(q));
        lemma_word_distinct(m1, q, i, t, idx);
        m1.lemma_pool_pages_in_mem(Pool::Kernel, q);
    }
    assert(m2.word(t, idx) == e);
    assert forall|q: int, i: int| tables.contains_key(q) && 0 <= i < 512 implies #[trigger] entry_ok(m2, tables, q, i) by {
        if !(q == t && i == idx) {
            assert(entry_ok(m1, tables, q, i));
        }
    }
    if l == 0 {
        lemma_reaches_tag(m1, tables, root, va, pte_pa(m1.word(root, vpn(va, 2))), 1);
        assert(m2.word(root, vpn(va, 2)) == m1.word(root, vpn(va, 2)));
        let t1 = pte_pa(m1.word(root, vpn(va, 2)));
        assert(m2.word(t1, vpn(va, 1)) == m1.word(t1, vpn(va, 1)));
    } else {
        assert(m2.word(root, vpn(va, 2)) == m1.word(root, vpn(va, 2)));
    }
    assert(reaches(m2, root, va, t, l));
    assert forall|x: int| #[trigger] walk(m2, root, x) == if same_slot(x, va, l) { Some((e, l)) } else { walk(m1, root, x) } by {
        if same_slot(x, va, l) {
            lemma_reaches_walk(m2, tables, root, va, x, t, l);
        } else {
            lemma_walk_frame(m1, m2, tables, root, 2, x, t, idx);
        }
    }
}

impl PageTable {
    /// Builds an empty page table whose root is a fresh zeroed kernel page; `None` when
    /// the kernel pool is exhausted.
    pub fn alloc_table(m: &mut Pmem) -> (r: Option<PageTable>)
        requires
            old(m).wf(),
        ensures
            final(m).wf(),
            kernel_only_allocates(*old(m), *final(m)),
            r is None <==> old(m).pool(Pool::Kernel).free().len() == 0,
            r matches Some(pt) ==> pt.wf(*final(m)) && pt.mapped_spec() == 0
                && forall|x: int| walk(*final(m), pt.root_pa(), x) is None,
            r matches Some(pt) ==> pt.root_pa() == old(m).pool(Pool::Kernel).free().last(),
    {
        let ghost m0 = *m;
        let pa = m.pmem_alloc(Pool::Kernel);
        if pa == 0 {
            return None;
        }
        proof {
            assert forall|q: int| m0.pool(Pool::Kernel).allocated(q) implies #[trigger] m.pool(Pool::Kernel).allocated(q) by {
                crate::mm::pmem::lemma_alloc_fresh(m0, *m, Pool::Kernel, pa, q);
            }
            vstd::arithmetic::div_mod::lemma_mod_adds(m0.pool(Pool::Kernel).begin(), pa - m0.pool(Pool::Kernel).begin(), PAGE_SIZE as int);
            vstd::arithmetic::div_mod::lemma_fundamental_div_mod(pa as int, PAGE_SIZE as int);
            m0.lemma_pool_pages_in_mem(Pool::Kernel, pa as int);
        }
        let pt = PageTable { root: pa / PAGE_SIZE, mapped: 0, tables: Ghost(Map::empty().insert(pa as int, (2int, 0int))) };
        proof {
            assert(pt.root_pa() == pa);
            assert forall|i: int| 0 <= i < 512 implies #[trigger] m.word(pa as int, i) == 0 by {}
            assert forall|q: int, i: int| pt.tables@.contains_key(q) && 0 <= i < 512 implies #[trigger] entry_ok(*m, pt.tables@, q, i) by {
                assert(m.word(q, i) == 0);
                assert(pte_pa(0u64) == 0);
            }
            assert forall|x: int| walk(*m, pt.root_pa(), x) is None by {
                assert(m.word(pa as int, vpn(x, 2)) == 0);
            }
        }
        Some(pt)
    }

    /// Maps the 4 KiB page at `va` to the page at `pa` with permission bits `perms`
    /// (the valid bit is added). Missing intermediate tables come from the kernel pool.
    /// Fails, changing no translation, when a larger leaf covers `va` or the kernel
    /// pool runs out.
    pub fn map(&mut self, m: &mut Pmem, va: usize, pa: usize, perms: u64) -> (r: Result<(), &'static str>)
        requires
            old(self).wf(*old(m)),
            pa % PAGE_SIZE == 0,
            (pa as u64) < PA_LIMIT,
            perms < 1024,
            pte_leaf(perms),
            old(self).mapped_spec() < usize::MAX,
        ensures
            final(self).wf(*final(m)),
            final(self).root_pa() == old(self).root_pa(),
            tables_grow(old(self).tables(), final(self).tables()),
            kernel_only_allocates(*old(m), *final(m)),
            user_words_kept(*old(m), *final(m)),
            only_path_written(*old(m), *final(m), old(self).root_pa(), va as int),
            forall|q: int| #[trigger] final(self).tables().contains_key(q)
                ==> old(self).tables().contains_key(q) || !old(m).pool(Pool::Kernel).allocated(q),
            r is Err <==> ({
                let need = create_need(*old(m), old(self).root_pa(), va as int, 0);
                need.1 || old(m).pool(Pool::Kernel).free().len() < need.0
            }),
            r is Err ==> ({
                let need = create_need(*final(m), final(self).root_pa(), va as int, 0);
                need.1 || final(m).pool(Pool::Kernel).free().len() < need.0
            }),
            r is Ok ==> final(self).mapped_spec() == old(self).mapped_spec() + 1,
            r is Ok ==> final(m).pool(Pool::Kernel).free().len()
                == old(m).pool(Pool::Kernel).free().len() - create_need(*old(m), old(self).root_pa(), va as int, 0).0,
            r is Ok ==> forall|x: int| #[trigger] walk(*final(m), final(self).root_pa(), x) == if same_slot(x, va as int, 0) {
                Some((pte_of(pa as int, (perms | PTE_V) as int) as u64, 0int))
            } else {
                walk(*old(m), old(self).root_pa(), x)
            },
            r is Err ==> forall|x: int| walk(*final(m), final(self).root_pa(), x) == walk(*old(m), old(self).root_pa(), x),
            r is Err ==> final(self).mapped_spec() == old(self).mapped_spec(),
    {
        let t = match self.walk_create(m, va, 0) {
            None => return Err("map: cannot create the page table page"),
            Some(t) => t,
        };
        let ghost m1 = *m;
        let i = vpn_of(va, 0);
        let flags = perms | PTE_V;
        proof {
            assert(flags < 1024 && pte_leaf(flags)) by (bit_vector)
                requires perms < 1024, (perms / 2) % 8 != 0, flags == perms | 1;
        }
        let e = make_pte(pa, flags);
        proof {
            assert(pte_valid(e)) by {
                assert(flags % 2 == 1) by (bit_vector) requires flags == perms | 1;
            }
            assert(m.pool(Pool::Kernel).allocated(t as int));
        }
        m.write_word(t, i, e);
        proof {
            reveal(only_path_written);
            assert forall|q: int, j: int| old(m).pool(Pool::Kernel).allocated(q) && !on_path(*old(m), self.root_pa(), va as int, q)
                && 0 <= j < PAGE_WORDS implies #[trigger] m.word(q, j) == old(m).word(q, j) by {
                assert(m1.pool(Pool::Kernel).allocated(q));
                assert(q != t);
                lemma_word_distinct(m1, t as int, i as int, q, j);
                m1.lemma_pool_pages_in_mem(Pool::Kernel, q);
                m1.lemma_pool_pages_in_mem(Pool::Kernel, t as int);
                assert(m1.word(q, j) == old(m).word(q, j));
            }
            lemma_kernel_write_keeps_user(m1, *m, t as int, i as int, e);
            assert forall|q: int, j: int| old(m).pool(Pool::User).owns(q) && 0 <= j < PAGE_WORDS
                implies #[trigger] m.word(q, j) == old(m).word(q, j) by {
                assert(m1.word(q, j) == old(m).word(q, j));
            }
            lemma_write_leaf(m1, *m, self.tables@, self.root_pa(), va as int, t as int, 0, e);
            assert forall|q: int| m1.pool(Pool::Kernel).allocated(q) implies #[trigger] m.pool(Pool::Kernel).allocated(q) by {}
        }
        self.mapped = self.mapped + 1;
        Ok(())
    }
}


/// The 18-bit number of the 2 MiB region holding `va`.
pub open spec fn mpage(va: int) -> int {
    (va / 0x20_0000) % 0x4_0000
}

/// `va` reduced to the 39 bits that Sv39 translates.
pub open spec fn va39(va: int) -> int {
    va % 0x80_0000_0000
}

/// The table indices are the base-512 digits of the virtual page number.
pub proof fn lemma_vpage_digits(x: int)
    requires
        x >= 0,
    ensures
        vpn(x, 0) == vpage(x) % 512,
        vpn(x, 1) == (vpage(x) / 512) % 512,
        vpn(x, 2) == vpage(x) / 0x4_0000,
        vpage(x) == vpn(x, 2) * 0x4_0000 + vpn(x, 1) * 512 + vpn(x, 0),
        mpage(x) == vpage(x) / 512,
        mpage(x) == vpn(x, 2) * 512 + vpn(x, 1),
        0 <= vpage(x) < 0x800_0000,
        va39(x) == vpage(x) * 4096 + x % 4096,
        va39(x) == mpage(x) * 0x20_0000 + x % 0x20_0000,
{
    let q = x / 4096;
    lemma_div_denominator(x, 4096, 512);
    lemma_div_denominator(x, 4096, 0x4_0000);
    lemma_div_denominator(q, 512, 512);
    lemma_mod_breakdown(q, 512, 0x4_0000);
    lemma_mod_breakdown(q / 512, 512, 512);
    lemma_mod_breakdown(q, 512, 512);
    vstd::arithmetic::div_mod::lemma_mod_mod(q / 512, 512, 512);
    vstd::arithmetic::div_mod::lemma_div_pos_is_pos(q, 512);
    assert(vpage(x) / 512 == (q / 512) % 0x4_0000) by {
        vstd::arithmetic::div_mod::lemma_mod_breakdown(q, 512, 0x4_0000);
        vstd::arithmetic::div_mod::lemma_fundamental_div_mod(q % 0x800_0000, 512);
        vstd::arithmetic::div_mod::lemma_div_multiples_vanish_fancy((q / 512) % 0x4_0000, q % 512, 512);
    }
    assert(mpage(x) == (q / 512) % 0x4_0000);
    assert(vpage(x) / 0x4_0000 == (q / 0x4_0000) % 512) by {
        lemma_mod_breakdown(q, 0x4_0000, 512);
        vstd::arithmetic::div_mod::lemma_fundamental_div_mod(q % 0x800_0000, 0x4_0000);
        vstd::arithmetic::div_mod::lemma_div_multiples_vanish_fancy((q / 0x4_0000) % 512, q % 0x4_0000, 0x4_0000);
    }
    lemma_div_denominator(x, 4096, 0x4_0000);
    assert(x / 0x4000_0000 == q / 0x4_0000);
    assert(x / 0x20_0000 == q / 512);
    lemma_fundamental_div_mod(x, 4096);
    lemma_fundamental_div_mod(x, 0x20_0000);
    lemma_mod_breakdown(x, 4096, 0x800_0000);
    lemma_mod_breakdown(x, 0x20_0000, 0x4_0000);
    vstd::arithmetic::div_mod::lemma_div_pos_is_pos(q, 0x4_0000);
}


/// Stepping by whole 2 MiB regions inside one 1 GiB region only moves the level-1 index.
proof fn lemma_mega_step(base: int, i: int)
    requires
        base >= 0,
        base % 0x20_0000 == 0,
        i >= 0,
        vpn(base, 1) + i < 512,
    ensures
        vpn(base + i * 0x20_0000, 1) == vpn(base, 1) + i,
        vpn(base + i * 0x20_0000, 2) == vpn(base, 2),
{
    let x = base + i * 0x20_0000;
    lemma_vpage_digits(base);
    lemma_vpage_digits(x);
    lemma_fundamental_div_mod(base, 0x20_0000);
    vstd::arithmetic::div_mod::lemma_div_multiples_vanish_fancy(base / 0x20_0000 + i, 0, 0x20_0000);
    assert(x / 0x20_0000 == base / 0x20_0000 + i);
    vstd::arithmetic::div_mod::lemma_mod_adds(base / 0x20_0000, i, 0x4_0000);
    vstd::arithmetic::div_mod::lemma_small_mod(i as nat, 0x4_0000);
    assert(mpage(x) == mpage(base) + i);
    let v2 = vpn(base, 2);
    let v1 = vpn(base, 1);
    assert(mpage(x) == v2 * 512 + (v1 + i));
    assert(vpn(x, 1) == v1 + i && vpn(x, 2) == v2) by (nonlinear_arith)
        requires mpage(x) == vpn(x, 2) * 512 + vpn(x, 1), mpage(x) == v2 * 512 + (v1 + i),
            0 <= vpn(x, 1) < 512, 0 <= v1 + i < 512;
}

/// The region of megapages written by `map_megapages`: those of the same 1 GiB region
/// as `base` with level-1 index in `[vpn(base, 1), vpn(base, 1) + n)`.
pub open spec fn in_mega_run(x: int, base: int, n: int) -> bool {
    vpn(x, 2) == vpn(base, 2) && vpn(base, 1) <= vpn(x, 1) < vpn(base, 1) + n
}

/// The identity megapage leaf for the region of `x` inside a run starting at `base`.
pub open spec fn mega_leaf(x: int, base: int, flags: int) -> u64 {
    pte_of(base + (vpn(x, 1) - vpn(base, 1)) * MEGAPAGE_SIZE as int, flags) as u64
}

/// One step of `map_megapages`: writing the leaf of run index `i` extends the run.
proof fn lemma_mega_iteration(mb: Pmem, m: Pmem, m0: Pmem, m1: Pmem, tables: Map<int, (int, int)>, root: int,
    base: int, table: int, i: int, e: u64, flags: int)
    requires
        mb.wf(),
        m.wf(),
        tables_ok(mb, tables),
        tables.contains_key(root),
        tables[root] == (2int, 0int),
        base >= 0,
        base % 0x20_0000 == 0,
        i >= 0,
        vpn(base, 1) + i < 512,
        reaches(mb, root, base, table, 1),
        tables.contains_key(table),
        tables[table] == (1int, prefix(base, 1)),
        m.pool(Pool::Kernel) == mb.pool(Pool::Kernel),
        m.mem_base() == mb.mem_base(),
        m.mem() == mb.mem().update(word_index(mb.mem_base(), table) + vpn(base, 1) + i, e),
        m.mem().len() == mb.mem().len(),
        m.inited_spec() == mb.inited_spec(),
        m.pool(Pool::User) == mb.pool(Pool::User),
        e == pte_of(base + i * MEGAPAGE_SIZE, flags) as u64,
        pte_valid(e),
        pte_leaf(e),
        pte_pa(e) == base + i * MEGAPAGE_SIZE,
        pte_pa(e) <= usize::MAX,
        (base + i * MEGAPAGE_SIZE) % MEGAPAGE_SIZE as int == 0,
        kernel_only_allocates(m0, mb),
        forall|x: int| #[trigger] walk(mb, root, x) == if in_mega_run(x, base, i) {
            Some((mega_leaf(x, base, flags), 1int))
        } else {
            walk(m1, root, x)
        },
    ensures
        tables_ok(m, tables),
        kernel_only_allocates(m0, m),
        reaches(m, root, base, table, 1),
        forall|x: int| #[trigger] walk(m, root, x) == if in_mega_run(x, base, i + 1) {
            Some((mega_leaf(x, base, flags), 1int))
        } else {
            walk(m1, root, x)
        },
{
    let vai = base + i * MEGAPAGE_SIZE;
    lemma_mega_step(base, i);
    assert(reaches(mb, root, vai, table, 1));
    assert(vpn(vai, 1) == vpn(base, 1) + i);
    lemma_write_leaf(mb, m, tables, root, vai, table, 1, e);
    assert(mb.pool(Pool::Kernel).allocated(root));
    assert(mb.pool(Pool::Kernel).allocated(table));
    lemma_word_distinct(mb, root, vpn(base, 2), table, vpn(base, 1) + i);
    mb.lemma_pool_pages_in_mem(Pool::Kernel, table);
    mb.lemma_pool_pages_in_mem(Pool::Kernel, root);
    assert(m.word(root, vpn(base, 2)) == mb.word(root, vpn(base, 2)));
    assert forall|x: int| #[trigger] walk(m, root, x) == if in_mega_run(x, base, i + 1) {
        Some((mega_leaf(x, base, flags), 1int))
    } else {
        walk(m1, root, x)
    } by {
        if same_slot(x, vai, 1) {
            assert(vpn(x, 1) - vpn(base, 1) == i);
        }
    }
    assert forall|q: int| m0.pool(Pool::Kernel).allocated(q) implies #[trigger] m.pool(Pool::Kernel).allocated(q) by {
        assert(mb.pool(Pool::Kernel).allocated(q));
    }
}

impl PageTable {
    /// Maps `[base, base + size)` onto itself with 2 MiB leaves. Both `base` and `size`
    /// must be 2 MiB aligned, the level-1 table is created if missing, and the run must
    /// stay inside one 1 GiB region: leaves past that boundary are not written and the
    /// call fails after writing the ones before it.
    pub fn map_megapages(&mut self, m: &mut Pmem, base: usize, size: usize, perms: u64) -> (r: Result<(), &'static str>)
        requires
            old(self).wf(*old(m)),
            base + size <= PA_LIMIT,
            perms < 1024,
            pte_leaf(perms),
            old(self).mapped_spec() + size as int / MEGAPAGE_SIZE as int <= usize::MAX,
        ensures
            final(self).wf(*final(m)),
            final(self).root_pa() == old(self).root_pa(),
            tables_grow(old(self).tables(), final(self).tables()),
            kernel_only_allocates(*old(m), *final(m)),
            (base % MEGAPAGE_SIZE != 0 || size % MEGAPAGE_SIZE != 0) ==> r is Err
                && *final(m) == *old(m) && *final(self) == *old(self),
            base % MEGAPAGE_SIZE == 0 && size % MEGAPAGE_SIZE == 0 && ({
                let need = create_need(*old(m), old(self).root_pa(), base as int, 1);
                need.1 || old(m).pool(Pool::Kernel).free().len() < need.0
            }) ==> r is Err && final(self).mapped_spec() == old(self).mapped_spec()
                && forall|x: int| walk(*final(m), final(self).root_pa(), x) == walk(*old(m), old(self).root_pa(), x),
            base % MEGAPAGE_SIZE == 0 && size % MEGAPAGE_SIZE == 0
                && blocked_at(*old(m), old(self).root_pa(), base as int, 1)
                ==> blocked_at(*final(m), final(self).root_pa(), base as int, 1),
            base % MEGAPAGE_SIZE == 0 && size % MEGAPAGE_SIZE == 0 && !({
                let need = create_need(*old(m), old(self).root_pa(), base as int, 1);
                need.1 || old(m).pool(Pool::Kernel).free().len() < need.0
            }) ==> {
                let n = size as int / MEGAPAGE_SIZE as int;
                let written = if vpn(base as int, 1) + n <= 512 { n } else { 512 - vpn(base as int, 1) };
                &&& (r is Ok <==> vpn(base as int, 1) + n <= 512)
                &&& final(self).mapped_spec() == old(self).mapped_spec() + written
                &&& forall|x: int| #[trigger] walk(*final(m), final(self).root_pa(), x) == if in_mega_run(x, base as int, written) {
                    Some((mega_leaf(x, base as int, (perms | PTE_V) as int), 1int))
                } else {
                    walk(*old(m), old(self).root_pa(), x)
                }
            },
    {
        if base % MEGAPAGE_SIZE != 0 || size % MEGAPAGE_SIZE != 0 {
            return Err("map_megapages: address or size not 2 MiB aligned");
        }
        let ghost m0 = *m;
        let table = match self.walk_create(m, base, 1) {
            None => return Err("map_megapages: cannot allocate the level-1 table"),
            Some(t) => t,
        };
        let ghost m1 = *m;
        let ghost root = self.root_pa();
        let count = size / MEGAPAGE_SIZE;
        let first = vpn_of(base, 1);
        let flags = perms | PTE_V;
        proof {
            assert(flags < 1024 && pte_leaf(flags) && flags % 2 == 1) by (bit_vector)
                requires perms < 1024, (perms / 2) % 8 != 0, flags == perms | 1;
        }
        let mut i: usize = 0;
        while i < count
            invariant
                i <= count,
                count == size as int / MEGAPAGE_SIZE as int,
                first == vpn(base as int, 1),
                first + i <= 512,
                base % MEGAPAGE_SIZE == 0,
                base + size <= PA_LIMIT,
                flags < 1024 && pte_leaf(flags) && flags % 2 == 1,
                flags == perms | PTE_V,
                self.wf(*m),
                self.root_pa() == root,
                root == old(self).root_pa(),
                m0 == *old(m),
                size % MEGAPAGE_SIZE == 0,
                !({
                    let need = create_need(m0, root, base as int, 1);
                    need.1 || m0.pool(Pool::Kernel).free().len() < need.0
                }),
                tables_grow(old(self).tables(), self.tables()),
                kernel_only_allocates(m0, *m),
                reaches(*m, root, base as int, table as int, 1),
                self.tables@.contains_key(table as int),
                self.tables@[table as int] == (1int, prefix(base as int, 1)),
                self.mapped == old(self).mapped + i,
                old(self).mapped_spec() + count <= usize::MAX,
                forall|x: int| #[trigger] walk(*m, root, x) == if in_mega_run(x, base as int, i as int) {
                    Some((mega_leaf(x, base as int, flags as int), 1int))
                } else {
                    walk(m1, root, x)
                },
                forall|x: int| walk(m1, root, x) == walk(m0, root, x),
            decreases count - i,
        {
            let idx = first + i;
            if idx >= PTE_PER_TABLE {
                return Err("map_megapages: run crosses a 1 GiB boundary");
            }
            let pa = base + i * MEGAPAGE_SIZE;
            proof {
                assert(i * MEGAPAGE_SIZE < size) by (nonlinear_arith)
                    requires i < count, count == size as int / MEGAPAGE_SIZE as int, size % MEGAPAGE_SIZE == 0;
                lemma_mega_step(base as int, i as int);
                assert((i * MEGAPAGE_SIZE) % MEGAPAGE_SIZE as int == 0) by (nonlinear_arith);
                vstd::arithmetic::div_mod::lemma_mod_adds(base as int, i * MEGAPAGE_SIZE, MEGAPAGE_SIZE as int);
                assert(pa % PAGE_SIZE == 0) by (nonlinear_arith)
                    requires pa as int % MEGAPAGE_SIZE as int == 0;
            }
            let e = make_pte(pa, flags);
            let ghost mb = *m;
            assert(m.pool(Pool::Kernel).allocated(table as int));
            m.write_word(table, idx, e);
            proof {
                lemma_mega_iteration(mb, *m, m0, m1, self.tables@, root, base as int, table as int, i as int, e, flags as int);
            }
            self.mapped = self.mapped + 1;
            i = i + 1;
        }
        Ok(())
    }
}


/// Sv39 translates the low 39 bits of a virtual address.
pub const VA_LIMIT: u64 = 0x80_0000_0000;

/// For a page-aligned `va` below 2^39, `x` selects `va`'s level-0 entry exactly when the
/// low 39 bits of `x` fall in that page.
pub proof fn lemma_page_slot(x: int, va: int)
    requires
        x >= 0,
        0 <= va < VA_LIMIT,
        va % 4096 == 0,
    ensures
        same_slot(x, va, 0) <==> va <= va39(x) < va + 4096,
{
    lemma_vpage_digits(x);
    lemma_vpage_digits(va);
    vstd::arithmetic::div_mod::lemma_small_mod(va as nat, VA_LIMIT as nat);
    assert(vpage(x) == vpage(va) <==> same_slot(x, va, 0)) by {
        if vpage(x) == vpage(va) {
            assert(vpn(x, 0) == vpn(va, 0) && vpn(x, 1) == vpn(va, 1) && vpn(x, 2) == vpn(va, 2));
        }
    }
    assert(vpage(x) == vpage(va) <==> va <= va39(x) < va + 4096) by (nonlinear_arith)
        requires va39(x) == vpage(x) * 4096 + x % 4096, va39(va) == vpage(va) * 4096 + va % 4096,
            va39(va) == va, va % 4096 == 0, 0 <= x % 4096 < 4096;
}

/// For a 2 MiB aligned run of `n` megapages starting at `base` inside one 1 GiB region,
/// `x` lies in the run exactly when its low 39 bits do, and its identity leaf adds up.
pub proof fn lemma_mega_slot(x: int, base: int, n: int)
    requires
        x >= 0,
        0 <= base < VA_LIMIT,
        base + n * MEGAPAGE_SIZE <= VA_LIMIT,
        base % 0x20_0000 == 0,
        n >= 0,
        vpn(base, 1) + n <= 512,
    ensures
        in_mega_run(x, base, n) <==> base <= va39(x) < base + n * MEGAPAGE_SIZE,
        in_mega_run(x, base, n) ==> base + (vpn(x, 1) - vpn(base, 1)) * MEGAPAGE_SIZE + x % MEGAPAGE_SIZE as int == va39(x),
{
    lemma_vpage_digits(x);
    lemma_vpage_digits(base);
    vstd::arithmetic::div_mod::lemma_small_mod(base as nat, VA_LIMIT as nat);
    let mb = mpage(base);
    let mx = mpage(x);
    assert(base == mb * 0x20_0000);
    assert(va39(x) == mx * 0x20_0000 + x % 0x20_0000);
    assert(in_mega_run(x, base, n) <==> mb <= mx < mb + n) by (nonlinear_arith)
        requires mb == vpn(base, 2) * 512 + vpn(base, 1), mx == vpn(x, 2) * 512 + vpn(x, 1),
            0 <= vpn(x, 1) < 512, 0 <= vpn(base, 1), vpn(base, 1) + n <= 512, n >= 0,
            in_mega_run(x, base, n) == (vpn(x, 2) == vpn(base, 2) && vpn(base, 1) <= vpn(x, 1) < vpn(base, 1) + n);
    assert(mb <= mx < mb + n <==> base <= va39(x) < base + n * MEGAPAGE_SIZE) by (nonlinear_arith)
        requires base == mb * 0x20_0000, va39(x) == mx * 0x20_0000 + x % 0x20_0000, 0 <= x % 0x20_0000 < 0x20_0000;
}

/// The identity mapping `[start, c)`: addresses whose low 39 bits fall in it translate to
/// those bits; every other address translates as in `m0`.
pub open spec fn identity_upto(m: Pmem, m0: Pmem, root: int, start: int, c: int) -> bool {
    forall|x: int| x >= 0 ==> #[trigger] translate(m, root, x) == if start <= va39(x) < c { Some(va39(x)) } else { translate(m0, root, x) }
}

/// The walk `w` ends on a leaf of level `l` whose flag bits are `flags`.
pub open spec fn leaf_with(w: Option<(u64, int)>, flags: int, l: int) -> bool {
    match w {
        Some((e, k)) => k == l && pte_flags(e) == flags,
        None => false,
    }
}

/// Every address of `[lo, hi)` walks from `root` to a leaf of level `l` with `flags`.
#[verifier::opaque]
pub open spec fn leaves_in(m: Pmem, root: int, lo: int, hi: int, flags: int, l: int) -> bool {
    forall|x: int| x >= 0 && lo <= va39(x) < hi ==> leaf_with(#[trigger] walk(m, root, x), flags, l)
}

/// Walks from `root` outside `[a, b)` are the same in `m1` and `m2`.
#[verifier::opaque]
pub open spec fn walks_kept_outside(m1: Pmem, m2: Pmem, root: int, a: int, b: int) -> bool {
    forall|x: int| x >= 0 && !(a <= va39(x) < b) ==> #[trigger] walk(m2, root, x) == walk(m1, root, x)
}

/// An entry made from an aligned address keeps its flag bits.
pub proof fn lemma_pte_of_flags(pa: int, flags: int)
    requires
        0 <= pa < PA_LIMIT,
        pa % 4096 == 0,
        0 <= flags < 1024,
    ensures
        pte_flags(pte_of(pa, flags) as u64) == flags,
{
    lemma_pte_of(pa, flags);
    vstd::arithmetic::div_mod::lemma_fundamental_div_mod_converse(pte_of(pa, flags), 1024, pa / 4096, flags);
}


/// One more identity page at `va` extends the leaves over `[from, va)` to `va + 4096` and
/// keeps every walk outside.
proof fn lemma_identity_leaf_step(m0: Pmem, m1: Pmem, m2: Pmem, root: int, from: int, va: int, flags: int)
    requires
        0 <= from <= va,
        va + 4096 <= VA_LIMIT,
        va % 4096 == 0,
        0 <= flags < 1024,
        walks_kept_outside(m0, m1, root, from, va),
        leaves_in(m1, root, from, va, flags, 0),
        forall|x: int| #[trigger] walk(m2, root, x) == if same_slot(x, va, 0) {
            Some((pte_of(va, flags) as u64, 0int))
        } else {
            walk(m1, root, x)
        },
    ensures
        walks_kept_outside(m0, m2, root, from, va + 4096),
        leaves_in(m2, root, from, va + 4096, flags, 0),
{
    reveal(leaves_in);
    reveal(walks_kept_outside);
    lemma_pte_of_flags(va, flags);
    assert forall|x: int| x >= 0 && !(from <= va39(x) < va + 4096) implies
        #[trigger] walk(m2, root, x) == walk(m0, root, x) by {
        lemma_page_slot(x, va);
        assert(walk(m2, root, x) == walk(m1, root, x));
    }
    assert forall|x: int| x >= 0 && from <= va39(x) < va + 4096 implies
        leaf_with(#[trigger] walk(m2, root, x), flags, 0) by {
        lemma_page_slot(x, va);
        if !(va <= va39(x)) {
            assert(walk(m2, root, x) == walk(m1, root, x));
        }
    }
}

/// A refused map keeps every walk, so what held outside `[from, va)` holds outside
/// `[from, to)`.
proof fn lemma_identity_refused(m0: Pmem, m1: Pmem, m2: Pmem, root: int, from: int, va: int, to: int)
    requires
        va <= to,
        walks_kept_outside(m0, m1, root, from, va),
        forall|x: int| walk(m2, root, x) == walk(m1, root, x),
    ensures
        walks_kept_outside(m0, m2, root, from, to),
{
    reveal(walks_kept_outside);
}

/// Nothing is mapped yet: the empty range.
proof fn lemma_identity_start(m0: Pmem, root: int, from: int, flags: int)
    ensures
        walks_kept_outside(m0, m0, root, from, from),
        leaves_in(m0, root, from, from, flags, 0),
{
    reveal(leaves_in);
    reveal(walks_kept_outside);
}


/// The walk `w` ends on a leaf, of any level, whose flag bits are `flags`.
pub open spec fn leaf_flags_are(w: Option<(u64, int)>, flags: int) -> bool {
    match w {
        Some((e, _)) => pte_flags(e) == flags,
        None => false,
    }
}

/// What `map_range` leaves over `[base, base + size)`, as flags: every address of the
/// range walks to a leaf carrying `flags`.
proof fn lemma_range_flags(m: Pmem, root: int, base: int, size: int, flags: int)
    requires
        mega_lo(base) < mega_hi(base, size) ==> {
            &&& leaves_in(m, root, range_start(base), mega_lo(base), flags, 0)
            &&& leaves_in(m, root, mega_lo(base), mega_hi(base, size), flags, 1)
            &&& leaves_in(m, root, mega_hi(base, size), range_end(base, size), flags, 0)
        },
        !(mega_lo(base) < mega_hi(base, size)) ==> leaves_in(m, root, range_start(base), range_end(base, size), flags, 0),
    ensures
        forall|x: int| x >= 0 && range_start(base) <= va39(x) < range_end(base, size)
            ==> leaf_flags_are(#[trigger] walk(m, root, x), flags),
{
    reveal(leaves_in);
    assert forall|x: int| x >= 0 && range_start(base) <= va39(x) < range_end(base, size)
        implies leaf_flags_are(#[trigger] walk(m, root, x), flags) by {
        if mega_lo(base) < mega_hi(base, size) {
            if va39(x) < mega_lo(base) {
                assert(leaf_with(walk(m, root, x), flags, 0));
            } else if va39(x) < mega_hi(base, size) {
                assert(leaf_with(walk(m, root, x), flags, 1));
            } else {
                assert(leaf_with(walk(m, root, x), flags, 0));
            }
        } else {
            assert(leaf_with(walk(m, root, x), flags, 0));
        }
    }
}

/// The three stages of `map_range` put together: 4 KiB pages over `[start, head_end)`, a
/// megapage run over `[lo, hi)` when it is not empty, and 4 KiB pages over `[cursor, end)`.
proof fn lemma_map_range_done(m0: Pmem, mh: Pmem, m2: Pmem, mf: Pmem, root: int, start: int, head_end: int,
    lo: int, hi: int, cursor: int, end: int, f: int)
    requires
        start <= head_end <= cursor <= end,
        walks_kept_outside(m0, mh, root, start, head_end),
        leaves_in(mh, root, start, head_end, f, 0),
        lo < hi ==> walks_kept_outside(mh, m2, root, lo, hi) && leaves_in(m2, root, lo, hi, f, 1)
            && head_end == lo && cursor == hi,
        !(lo < hi) ==> m2 == mh && cursor == head_end,
        walks_kept_outside(m2, mf, root, cursor, end),
        leaves_in(mf, root, cursor, end, f, 0),
    ensures
        walks_kept_outside(m0, mf, root, start, end),
        lo < hi ==> leaves_in(mf, root, start, lo, f, 0) && leaves_in(mf, root, lo, hi, f, 1)
            && leaves_in(mf, root, hi, end, f, 0),
        !(lo < hi) ==> leaves_in(mf, root, start, end, f, 0),
{
    reveal(walks_kept_outside);
    reveal(leaves_in);
    assert forall|x: int| x >= 0 && !(start <= va39(x) < end) implies #[trigger] walk(mf, root, x) == walk(m0, root, x) by {
        assert(walk(mf, root, x) == walk(m2, root, x));
        assert(walk(m2, root, x) == walk(mh, root, x));
    }
    assert forall|x: int| x >= 0 && start <= va39(x) < head_end implies leaf_with(#[trigger] walk(mf, root, x), f, 0) by {
        assert(walk(mf, root, x) == walk(m2, root, x));
        assert(walk(m2, root, x) == walk(mh, root, x));
    }
    if lo < hi {
        assert forall|x: int| x >= 0 && lo <= va39(x) < hi implies leaf_with(#[trigger] walk(mf, root, x), f, 1) by {
            assert(walk(mf, root, x) == walk(m2, root, x));
        }
    }
}

/// A run of `n` megapage leaves written at `lo` gives leaves of level 1 over the run and
/// keeps every walk outside it.
proof fn lemma_mega_leaves(m1: Pmem, m2: Pmem, root: int, lo: int, n: int, flags: int)
    requires
        lo % 0x20_0000 == 0,
        0 <= lo < VA_LIMIT,
        n >= 0,
        lo + n * MEGAPAGE_SIZE <= VA_LIMIT,
        vpn(lo, 1) + n <= 512,
        0 <= flags < 1024,
        forall|x: int| #[trigger] walk(m2, root, x) == if in_mega_run(x, lo, n) {
            Some((mega_leaf(x, lo, flags), 1int))
        } else {
            walk(m1, root, x)
        },
    ensures
        walks_kept_outside(m1, m2, root, lo, lo + n * MEGAPAGE_SIZE),
        leaves_in(m2, root, lo, lo + n * MEGAPAGE_SIZE, flags, 1),
{
    reveal(leaves_in);
    reveal(walks_kept_outside);
    assert forall|x: int| x >= 0 && !(lo <= va39(x) < lo + n * MEGAPAGE_SIZE) implies
        #[trigger] walk(m2, root, x) == walk(m1, root, x) by {
        lemma_mega_slot(x, lo, n);
    }
    assert forall|x: int| x >= 0 && lo <= va39(x) < lo + n * MEGAPAGE_SIZE implies
        leaf_with(#[trigger] walk(m2, root, x), flags, 1) by {
        lemma_mega_slot(x, lo, n);
        let k = vpn(x, 1) - vpn(lo, 1);
        let pa = lo + k * MEGAPAGE_SIZE;
        lemma_vpn_range(x, 1);
        assert(0 <= k < n);
        assert(0 <= pa < lo + n * MEGAPAGE_SIZE && pa % 4096 == 0) by (nonlinear_arith)
            requires pa == lo + k * 0x20_0000, 0 <= k < n, lo % 0x20_0000 == 0, lo >= 0;
        lemma_pte_of_flags(pa, flags);
    }
}

/// A mapping at `va` with a leaf of level `l` cannot be made through the table at `root`:
/// a larger leaf covers it, or the kernel pool lacks the table pages it needs.
pub open spec fn blocked_at(m: Pmem, root: int, va: int, l: int) -> bool {
    let need = create_need(m, root, va, l);
    need.1 || m.pool(Pool::Kernel).free().len() < need.0
}

/// Where `map_range` may have stopped: every address translates as before or, inside
/// `[start, end)`, to itself.
pub open spec fn identity_partial(m: Pmem, m0: Pmem, root: int, start: int, end: int) -> bool {
    forall|x: int| x >= 0 ==> #[trigger] translate(m, root, x) == translate(m0, root, x)
        || (start <= va39(x) < end && translate(m, root, x) == Some(va39(x)))
}


/// The entry for an aligned address points back at that address.
pub proof fn lemma_pte_of(pa: int, flags: int)
    requires
        0 <= pa < PA_LIMIT,
        pa % 4096 == 0,
        0 <= flags < 1024,
    ensures
        0 <= pte_of(pa, flags) <= u64::MAX,
        pte_pa(pte_of(pa, flags) as u64) == pa,
{
    let p = pa as u64;
    let f = flags as u64;
    assert((p / 4096) * 1024 + f < 0x0040_0000_0000_0000
        && (((p / 4096) * 1024 + f) / 1024) % 0x1000_0000_0000 * 4096 == p) by (bit_vector)
        requires p % 4096 == 0, p < 0x0100_0000_0000_0000, f < 1024;
}

/// Mapping the identity page at `va` right after `[start, va)` extends the identity run.
proof fn lemma_identity_step(m1: Pmem, m2: Pmem, m0: Pmem, root: int, start: int, va: int, flags: int)
    requires
        identity_upto(m1, m0, root, start, va),
        start <= va,
        0 <= va,
        va + 4096 <= VA_LIMIT,
        va % 4096 == 0,
        0 <= flags < 1024,
        forall|x: int| #[trigger] walk(m2, root, x) == if same_slot(x, va, 0) {
            Some((pte_of(va, flags) as u64, 0int))
        } else {
            walk(m1, root, x)
        },
    ensures
        identity_upto(m2, m0, root, start, va + 4096),
{
    lemma_pte_of(va, flags);
    assert forall|x: int| x >= 0 implies #[trigger] translate(m2, root, x) == if start <= va39(x) < va + 4096 { Some(va39(x)) } else { translate(m0, root, x) } by {
        lemma_page_slot(x, va);
        lemma_vpage_digits(x);
        if same_slot(x, va, 0) {
            assert(walk(m2, root, x) == Some((pte_of(va, flags) as u64, 0int)));
            assert(va == vpage(x) * 4096) by (nonlinear_arith)
                requires va <= va39(x) < va + 4096, va39(x) == vpage(x) * 4096 + x % 4096, 0 <= x % 4096 < 4096, va % 4096 == 0;
        } else {
            assert(walk(m2, root, x) == walk(m1, root, x));
            assert(translate(m1, root, x) == translate(m2, root, x));
        }
    }
}

impl PageTable {
    /// Identity-maps the pages `[from, to)` one 4 KiB page at a time, continuing an
    /// identity run that started at `start`.
    fn map_identity_pages(&mut self, m: &mut Pmem, from: usize, to: usize, perms: u64,
        Ghost(start): Ghost<int>, Ghost(m0): Ghost<Pmem>) -> (r: Result<(), &'static str>)
        requires
            old(self).wf(*old(m)),
            start <= from <= to,
            from % PAGE_SIZE == 0,
            to % PAGE_SIZE == 0,
            to <= VA_LIMIT,
            perms < 1024,
            pte_leaf(perms),
            old(self).mapped_spec() + (to - from) / PAGE_SIZE as int <= usize::MAX,
            identity_upto(*old(m), m0, old(self).root_pa(), start, from as int),
            kernel_only_allocates(m0, *old(m)),
        ensures
            final(self).wf(*final(m)),
            final(self).root_pa() == old(self).root_pa(),
            tables_grow(old(self).tables(), final(self).tables()),
            kernel_only_allocates(m0, *final(m)),
            final(self).mapped_spec() <= old(self).mapped_spec() + (to - from) / PAGE_SIZE as int,
            r is Ok ==> identity_upto(*final(m), m0, final(self).root_pa(), start, to as int),
            r is Err ==> identity_partial(*final(m), m0, final(self).root_pa(), start, to as int),
            r is Err ==> exists|va: int| from <= va < to && va % PAGE_SIZE as int == 0
                && identity_upto(*final(m), m0, final(self).root_pa(), start, va)
                && #[trigger] blocked_at(*final(m), final(self).root_pa(), va, 0),
            walks_kept_outside(*old(m), *final(m), old(self).root_pa(), from as int, to as int),
            r is Ok ==> leaves_in(*final(m), old(self).root_pa(), from as int, to as int, (perms | PTE_V) as int, 0),
    {
        let ghost root = self.root_pa();
        proof {
            lemma_identity_start(*old(m), root, from as int, (perms | PTE_V) as int);
        }
        let mut va = from;
        while va < to
            invariant
                start <= from <= va <= to,
                from % PAGE_SIZE == 0,
                va % PAGE_SIZE == 0,
                to % PAGE_SIZE == 0,
                to <= VA_LIMIT,
                perms < 1024,
                pte_leaf(perms),
                self.wf(*m),
                self.root_pa() == root,
                root == old(self).root_pa(),
                tables_grow(old(self).tables(), self.tables()),
                kernel_only_allocates(m0, *m),
                self.mapped_spec() == old(self).mapped_spec() + (va - from) / PAGE_SIZE as int,
                old(self).mapped_spec() + (to - from) / PAGE_SIZE as int <= usize::MAX,
                identity_upto(*m, m0, root, start, va as int),
                walks_kept_outside(*old(m), *m, root, from as int, va as int),
                leaves_in(*m, root, from as int, va as int, (perms | PTE_V) as int, 0),
            decreases to - va,
        {
            let ghost m1 = *m;
            let ghost t1 = self.tables@;
            proof {
                assert((va - from) / PAGE_SIZE as int + 1 <= (to - from) / PAGE_SIZE as int) by (nonlinear_arith)
                    requires va < to, va % 4096 == 0, to % 4096 == 0, from % 4096 == 0, from <= va;
                assert(va + PAGE_SIZE <= to) by (nonlinear_arith)
                    requires va < to, va % 4096 == 0, to % 4096 == 0;
            }
            match self.map(m, va, va, perms) {
                Err(e) => {
                    proof {
                        lemma_tables_grow_trans(old(self).tables(), t1, self.tables());
                        assert forall|q: int| m0.pool(Pool::Kernel).allocated(q) implies #[trigger] m.pool(Pool::Kernel).allocated(q) by {
                            assert(m1.pool(Pool::Kernel).allocated(q));
                        }
                        assert forall|x: int| x >= 0 implies #[trigger] translate(*m, root, x) == translate(m0, root, x)
                            || (start <= va39(x) < to && translate(*m, root, x) == Some(va39(x))) by {
                            assert(translate(*m, root, x) == translate(m1, root, x));
                        }
                        assert forall|x: int| x >= 0 implies #[trigger] translate(*m, root, x)
                            == if start <= va39(x) < va { Some(va39(x)) } else { translate(m0, root, x) } by {
                            assert(translate(*m, root, x) == translate(m1, root, x));
                        }
                        assert(blocked_at(*m, root, va as int, 0));
                        lemma_identity_refused(*old(m), m1, *m, root, from as int, va as int, to as int);
                    }
                    return Err(e);
                },
                Ok(()) => {},
            }
            proof {
                lemma_tables_grow_trans(old(self).tables(), t1, self.tables());
                assert forall|q: int| m0.pool(Pool::Kernel).allocated(q) implies #[trigger] m.pool(Pool::Kernel).allocated(q) by {
                    assert(m1.pool(Pool::Kernel).allocated(q));
                }
                assert((perms | PTE_V) < 1024) by (bit_vector) requires perms < 1024;
                lemma_identity_step(m1, *m, m0, root, start, va as int, (perms | PTE_V) as int);
                lemma_identity_leaf_step(*old(m), m1, *m, root, from as int, va as int, (perms | PTE_V) as int);
                assert((va + PAGE_SIZE - from) / PAGE_SIZE as int == (va - from) / PAGE_SIZE as int + 1) by (nonlinear_arith)
                    requires va % 4096 == 0, from % 4096 == 0, from <= va;
            }
            va = va + PAGE_SIZE;
        }
        Ok(())
    }
}


/// Writing an identity run of megapages right after `[start, base)` extends the identity run.
proof fn lemma_identity_mega(m1: Pmem, m2: Pmem, m0: Pmem, root: int, start: int, base: int, n: int, flags: int)
    requires
        identity_upto(m1, m0, root, start, base),
        start <= base,
        0 <= base < VA_LIMIT,
        base + n * MEGAPAGE_SIZE <= VA_LIMIT,
        base % 0x20_0000 == 0,
        n >= 0,
        vpn(base, 1) + n <= 512,
        0 <= flags < 1024,
        forall|x: int| #[trigger] walk(m2, root, x) == if in_mega_run(x, base, n) {
            Some((mega_leaf(x, base, flags), 1int))
        } else {
            walk(m1, root, x)
        },
    ensures
        identity_upto(m2, m0, root, start, base + n * MEGAPAGE_SIZE),
{
    assert forall|x: int| x >= 0 implies #[trigger] translate(m2, root, x) == if start <= va39(x) < base + n * MEGAPAGE_SIZE { Some(va39(x)) } else { translate(m0, root, x) } by {
        lemma_mega_slot(x, base, n);
        if in_mega_run(x, base, n) {
            let pa = base + (vpn(x, 1) - vpn(base, 1)) * MEGAPAGE_SIZE;
            assert(0 <= vpn(x, 1) - vpn(base, 1) < n);
            assert(0 <= pa < PA_LIMIT && pa % 4096 == 0) by (nonlinear_arith)
                requires pa == base + (vpn(x, 1) - vpn(base, 1)) * MEGAPAGE_SIZE, 0 <= vpn(x, 1) - vpn(base, 1) < n,
                    base % 0x20_0000 == 0, 0 <= base, base + n * MEGAPAGE_SIZE <= VA_LIMIT;
            lemma_pte_of(pa, flags);
        } else {
            assert(translate(m1, root, x) == translate(m2, root, x));
        }
    }
}

/// Start of the page range `map_range` covers.
pub open spec fn range_start(base: int) -> int {
    base - base % PAGE_SIZE as int
}

/// End of the page range `map_range` covers (empty when `size` is 0).
pub open spec fn range_end(base: int, size: int) -> int {
    if size == 0 {
        range_start(base)
    } else {
        base + size + ((PAGE_SIZE - (base + size) % PAGE_SIZE as int) as int) % PAGE_SIZE as int
    }
}

/// First 2 MiB boundary at or above the start of the pages `map_range` covers.
pub open spec fn mega_lo(base: int) -> int {
    range_start(base) + (MEGAPAGE_SIZE as int - range_start(base) % MEGAPAGE_SIZE as int) % MEGAPAGE_SIZE as int
}

/// Last 2 MiB boundary at or below the end of the pages `map_range` covers.
pub open spec fn mega_hi(base: int, size: int) -> int {
    range_end(base, size) - range_end(base, size) % MEGAPAGE_SIZE as int
}

/// Why `map_range` of `[base, base + size)` can stop, read in the memory it leaves: a
/// 4 KiB page outside the megapage run cannot be mapped, or the megapage run cannot be
/// started or leaves its 1 GiB region.
pub open spec fn range_refused(m: Pmem, root: int, base: int, size: int) -> bool {
    ||| exists|va: int| range_start(base) <= va < range_end(base, size) && va % PAGE_SIZE as int == 0
        && !(mega_lo(base) <= va < mega_hi(base, size)) && #[trigger] blocked_at(m, root, va, 0)
    ||| mega_lo(base) < mega_hi(base, size) && (blocked_at(m, root, mega_lo(base), 1)
        || vpn(mega_lo(base), 1) + (mega_hi(base, size) - mega_lo(base)) / MEGAPAGE_SIZE as int > 512)
}

proof fn lemma_refused_page(m: Pmem, root: int, base: int, size: int, va: int)
    requires
        range_start(base) <= va < range_end(base, size),
        va % PAGE_SIZE as int == 0,
        !(mega_lo(base) <= va < mega_hi(base, size)),
        blocked_at(m, root, va, 0),
    ensures
        range_refused(m, root, base, size),
{
}

impl PageTable {
    /// Maps `[base, base + size)`, widened to whole pages, onto itself. The 2 MiB aligned
    /// middle uses megapages; the ends use 4 KiB pages. On failure the mapping is left
    /// partly done: nothing outside the range changed, and addresses inside it translate
    /// either as before or to themselves.
    #[verifier::rlimit(100)]
    #[verifier::spinoff_prover]
    pub fn map_range(&mut self, m: &mut Pmem, base: usize, size: usize, perms: u64) -> (r: Result<(), &'static str>)
        requires
            old(self).wf(*old(m)),
            base + size + PAGE_SIZE <= VA_LIMIT,
            base + size + MEGAPAGE_SIZE <= usize::MAX,
            perms < 1024,
            pte_leaf(perms),
            old(self).mapped_spec() + size as int / PAGE_SIZE as int + 2 <= usize::MAX,
        ensures
            final(self).wf(*final(m)),
            final(self).root_pa() == old(self).root_pa(),
            tables_grow(old(self).tables(), final(self).tables()),
            kernel_only_allocates(*old(m), *final(m)),
            final(self).mapped_spec() <= old(self).mapped_spec()
                + (range_end(base as int, size as int) - range_start(base as int)) / PAGE_SIZE as int,
            r is Ok ==> identity_upto(*final(m), *old(m), final(self).root_pa(), range_start(base as int), range_end(base as int, size as int)),
            r is Err ==> identity_partial(*final(m), *old(m), final(self).root_pa(), range_start(base as int), range_end(base as int, size as int)),
            r is Err ==> range_refused(*final(m), final(self).root_pa(), base as int, size as int),
            r is Ok ==> walks_kept_outside(*old(m), *final(m), final(self).root_pa(), range_start(base as int),
                range_end(base as int, size as int)),
            r is Ok && mega_lo(base as int) < mega_hi(base as int, size as int) ==> {
                let f = (perms | PTE_V) as int;
                let root = final(self).root_pa();
                &&& leaves_in(*final(m), root, range_start(base as int), mega_lo(base as int), f, 0)
                &&& leaves_in(*final(m), root, mega_lo(base as int), mega_hi(base as int, size as int), f, 1)
                &&& leaves_in(*final(m), root, mega_hi(base as int, size as int), range_end(base as int, size as int), f, 0)
            },
            r is Ok && !(mega_lo(base as int) < mega_hi(base as int, size as int)) ==>
                leaves_in(*final(m), final(self).root_pa(), range_start(base as int), range_end(base as int, size as int),
                    (perms | PTE_V) as int, 0),
    {
        let ghost m0 = *m;
        let ghost root = self.root_pa();
        proof {
            crate::mm::pmem::lemma_page_sizes_pow2();
            assert forall|q: int| m0.pool(Pool::Kernel).allocated(q) implies #[trigger] m0.pool(Pool::Kernel).allocated(q) by {}
        }
        if size == 0 {
            proof {
                assert(range_end(base as int, 0) == range_start(base as int));
                assert(mega_lo(base as int) >= range_start(base as int));
                assert(mega_hi(base as int, 0) <= range_end(base as int, 0));
                lemma_identity_start(*m, root, range_start(base as int), (perms | PTE_V) as int);
            }
            return Ok(());
        }
        let start = crate::mm::pmem::align_down(base, PAGE_SIZE);
        let end = crate::mm::pmem::align_up(base + size, PAGE_SIZE);
        let mega_start = crate::mm::pmem::align_up(start, MEGAPAGE_SIZE);
        let mega_end = crate::mm::pmem::align_down(end, MEGAPAGE_SIZE);
        let head_end = if mega_start < end { mega_start } else { end };
        proof {
            assert(head_end % PAGE_SIZE == 0) by (nonlinear_arith)
                requires head_end == mega_start || head_end == end, mega_start % 0x20_0000 == 0, end % 4096 == 0;
            assert(mega_end % PAGE_SIZE == 0) by (nonlinear_arith) requires mega_end % 0x20_0000 == 0;
            assert((head_end - start) / PAGE_SIZE as int <= size as int / PAGE_SIZE as int + 2) by (nonlinear_arith)
                requires head_end <= end, start <= base, end < base + size + 4096, start % 4096 == 0, head_end % 4096 == 0,
                    base - start < 4096, start <= head_end;
        }
        match self.map_identity_pages(m, start, head_end, perms, Ghost(start as int), Ghost(m0)) {
            Err(e) => {
                proof {
                    assert((head_end - start) / PAGE_SIZE as int <= (end - start) / PAGE_SIZE as int) by (nonlinear_arith)
                        requires start <= head_end <= end;
                    let va = choose|va: int| start <= va < head_end && va % PAGE_SIZE as int == 0
                        && identity_upto(*m, m0, root, start as int, va) && #[trigger] blocked_at(*m, root, va, 0);
                    assert(start == range_start(base as int) && end == range_end(base as int, size as int)
                        && mega_start == mega_lo(base as int) && mega_end == mega_hi(base as int, size as int));
                    lemma_refused_page(*m, root, base as int, size as int, va);
                }
                return Err(e);
            },
            Ok(()) => {},
        }
        let ghost mh = *m;
        let mut cursor = head_end;
        proof {
            assert(self.mapped_spec() <= old(self).mapped_spec() + (cursor - start) / PAGE_SIZE as int);
        }
        if mega_start < mega_end {
            let ghost m1 = *m;
            let ghost t1 = self.tables@;
            let ghost mapped1 = self.mapped_spec();
            let n = (mega_end - mega_start) / MEGAPAGE_SIZE;
            proof {
                let mapped0 = old(self).mapped_spec();
                assert(mapped1 + n <= usize::MAX) by (nonlinear_arith)
                    requires mapped1 <= mapped0 + (head_end - start) / 4096,
                        mapped0 + size / 4096 + 2 <= usize::MAX,
                        n == (mega_end - mega_start) / 0x20_0000, mega_start == head_end, mega_end <= end,
                        end < base + size + 4096, start <= base, base - start < 4096, start % 4096 == 0,
                        head_end % 4096 == 0, start <= head_end, mega_start % 0x20_0000 == 0, mega_end % 0x20_0000 == 0;
            }
            let res = self.map_megapages(m, mega_start, mega_end - mega_start, perms);
            proof {
                lemma_tables_grow_trans(old(self).tables(), t1, self.tables());
                assert forall|q: int| m0.pool(Pool::Kernel).allocated(q) implies #[trigger] m.pool(Pool::Kernel).allocated(q) by {
                    assert(m1.pool(Pool::Kernel).allocated(q));
                }
                assert((perms | PTE_V) < 1024) by (bit_vector) requires perms < 1024;
                let need = create_need(m1, root, mega_start as int, 1);
                if need.1 || m1.pool(Pool::Kernel).free().len() < need.0 {
                    assert forall|x: int| x >= 0 implies #[trigger] translate(*m, root, x) == translate(m0, root, x)
                        || (start <= va39(x) < end && translate(*m, root, x) == Some(va39(x))) by {
                        assert(translate(*m, root, x) == translate(m1, root, x));
                    }
                } else {
                    let written = if vpn(mega_start as int, 1) + n <= 512 { n as int } else { 512 - vpn(mega_start as int, 1) };
                    assert(written * MEGAPAGE_SIZE <= mega_end - mega_start) by (nonlinear_arith)
                        requires written <= n, n == (mega_end - mega_start) / 0x20_0000, mega_start <= mega_end;
                    lemma_identity_mega(m1, *m, m0, root, start as int, mega_start as int, written, (perms | PTE_V) as int);
                    if res is Err {
                        assert forall|x: int| x >= 0 implies #[trigger] translate(*m, root, x) == translate(m0, root, x)
                            || (start <= va39(x) < end && translate(*m, root, x) == Some(va39(x))) by {}
                    } else {
                        assert(written * MEGAPAGE_SIZE == mega_end - mega_start) by (nonlinear_arith)
                            requires written == n, n == (mega_end - mega_start) / 0x20_0000, mega_start <= mega_end,
                                mega_start % 0x20_0000 == 0, mega_end % 0x20_0000 == 0;
                    }
                }
            }
            proof {
                let mapped0 = old(self).mapped_spec();
                assert(self.mapped_spec() <= mapped1 + n);
                assert(mapped1 + n <= mapped0 + (mega_end - start) / 4096) by (nonlinear_arith)
                    requires mapped1 <= mapped0 + (head_end - start) / 4096, n == (mega_end - mega_start) / 0x20_0000,
                        mega_start == head_end, start <= head_end, head_end < mega_end, start % 4096 == 0,
                        head_end % 0x20_0000 == 0, mega_end % 0x20_0000 == 0;
                assert((mega_end - start) / 4096 <= (end - start) / 4096) by (nonlinear_arith)
                    requires mega_end <= end, start <= mega_end;
            }
            match res {
                Err(e) => {
                    proof {
                        assert(start == range_start(base as int) && end == range_end(base as int, size as int)
                            && mega_start == mega_lo(base as int) && mega_end == mega_hi(base as int, size as int));
                        assert(range_refused(*m, root, base as int, size as int));
                    }
                    return Err(e);
                },
                Ok(()) => {},
            }
            proof {
                assert(n as int * MEGAPAGE_SIZE == mega_end - mega_start) by (nonlinear_arith)
                    requires n == (mega_end - mega_start) / 0x20_0000, mega_start <= mega_end,
                        mega_start % 0x20_0000 == 0, mega_end % 0x20_0000 == 0;
                lemma_mega_leaves(m1, *m, root, mega_start as int, n as int, (perms | PTE_V) as int);
            }
            cursor = mega_end;
        }
        proof {
            assert(cursor % PAGE_SIZE == 0);
            assert(start <= cursor <= end);
        }
        let ghost m2 = *m;
        let ghost t2 = self.tables@;
        let ghost mapped2 = self.mapped_spec();
        proof {
            let mapped0 = old(self).mapped_spec();
            assert(mapped2 + (end - cursor) / 4096 <= mapped0 + (end - start) / 4096) by (nonlinear_arith)
                requires mapped2 <= mapped0 + (cursor - start) / 4096, start <= cursor <= end, start % 4096 == 0,
                    cursor % 4096 == 0, end % 4096 == 0;
            assert((end - start) / 4096 <= size / 4096 + 2) by (nonlinear_arith)
                requires start <= base, base - start < 4096, end < base + size + 4096, start % 4096 == 0, end % 4096 == 0, start <= end;
        }
        let r = self.map_identity_pages(m, cursor, end, perms, Ghost(start as int), Ghost(m0));
        proof {
            lemma_tables_grow_trans(old(self).tables(), t2, self.tables());
            let f = (perms | PTE_V) as int;
            assert(start == range_start(base as int) && end == range_end(base as int, size as int)
                && mega_start == mega_lo(base as int) && mega_end == mega_hi(base as int, size as int));
            if r is Ok {
                lemma_map_range_done(m0, mh, m2, *m, root, start as int, head_end as int, mega_start as int,
                    mega_end as int, cursor as int, end as int, f);
            }
            if r is Err {
                let va = choose|va: int| cursor <= va < end && va % PAGE_SIZE as int == 0
                    && identity_upto(*m, m0, root, start as int, va) && #[trigger] blocked_at(*m, root, va, 0);
                assert(start == range_start(base as int) && end == range_end(base as int, size as int)
                    && mega_start == mega_lo(base as int) && mega_end == mega_hi(base as int, size as int));
                lemma_refused_page(*m, root, base as int, size as int, va);
            }
        }
        r
    }
}


impl PageTable {
    /// Finds the level-0 table whose entry for `va` is a valid 4 KiB leaf.
    fn leaf_table(&self, m: &Pmem, va: usize) -> (r: Option<usize>)
        requires
            self.wf(*m),
        ensures
            r is None <==> !(walk(*m, self.root_pa(), va as int) matches Some((_, l)) && l == 0),
            r matches Some(t) ==> reaches(*m, self.root_pa(), va as int, t as int, 0)
                && self.tables().contains_key(t as int)
                && self.tables()[t as int] == (0int, prefix(va as int, 0))
                && walk(*m, self.root_pa(), va as int) == Some((m.word(t as int, vpn(va as int, 0)), 0int)),
    {
        reveal_with_fuel(walk_from, 3);
        let root = self.root * PAGE_SIZE;
        let i2 = vpn_of(va, 2);
        assert(m.pool(Pool::Kernel).allocated(root as int));
        let e2 = m.read_word(root, i2);
        assert(entry_ok(*m, self.tables@, root as int, i2 as int));
        if !pte_is_valid(e2) || pte_is_leaf(e2) {
            return None;
        }
        let t1 = pte_to_pa(e2);
        let i1 = vpn_of(va, 1);
        assert(m.pool(Pool::Kernel).allocated(t1 as int));
        let e1 = m.read_word(t1, i1);
        assert(entry_ok(*m, self.tables@, t1 as int, i1 as int));
        if !pte_is_valid(e1) || pte_is_leaf(e1) {
            return None;
        }
        let t0 = pte_to_pa(e1);
        let i0 = vpn_of(va, 0);
        assert(m.pool(Pool::Kernel).allocated(t0 as int));
        let e0 = m.read_word(t0, i0);
        if !pte_is_valid(e0) || !pte_is_leaf(e0) {
            return None;
        }
        Some(t0)
    }

    /// Removes the 4 KiB mapping of `va` and returns the physical page it pointed at;
    /// fails, changing nothing, when `va` has no 4 KiB mapping. Intermediate tables stay.
    pub fn unmap(&mut self, m: &mut Pmem, va: usize) -> (r: Result<usize, &'static str>)
        requires
            old(self).wf(*old(m)),
        ensures
            final(self).wf(*final(m)),
            final(self).root_pa() == old(self).root_pa(),
            final(self).tables() == old(self).tables(),
            final(m).pool(Pool::Kernel) == old(m).pool(Pool::Kernel),
            final(m).pool(Pool::User) == old(m).pool(Pool::User),
            final(m).mem_base() == old(m).mem_base(),
            final(m).mem().len() == old(m).mem().len(),
            final(m).inited_spec() == old(m).inited_spec(),
            r is Err <==> !(walk(*old(m), old(self).root_pa(), va as int) matches Some((_, l)) && l == 0),
            r is Err ==> *final(m) == *old(m),
            r matches Ok(pa) ==> walk(*old(m), old(self).root_pa(), va as int) matches Some((e, _)) && pte_pa(e) == pa,
            r is Ok ==> forall|x: int| #[trigger] walk(*final(m), final(self).root_pa(), x) == if same_slot(x, va as int, 0) {
                None
            } else {
                walk(*old(m), old(self).root_pa(), x)
            },
    {
        let t = match self.leaf_table(m, va) {
            None => return Err("unmap: no 4 KiB mapping"),
            Some(t) => t,
        };
        let ghost m1 = *m;
        let ghost root = self.root_pa();
        let i = vpn_of(va, 0);
        let e = m.read_word(t, i);
        assert(entry_ok(*m, self.tables@, t as int, i as int));
        let pa = pte_to_pa(e);
        m.write_word(t, i, 0);
        proof {
            let tables = self.tables@;
            m1.lemma_pool_pages_in_mem(Pool::Kernel, t as int);
            assert forall|q: int, j: int| tables.contains_key(q) && 0 <= j < 512 && !(q == t && j == i)
                implies #[trigger] m.word(q, j) == m1.word(q, j) by {
                assert(m1.pool(Pool::Kernel).allocated(q));
                lemma_word_distinct(m1, q, j, t as int, i as int);
                m1.lemma_pool_pages_in_mem(Pool::Kernel, q);
            }
            assert(m.word(t as int, i as int) == 0);
            assert forall|q: int, j: int| tables.contains_key(q) && 0 <= j < 512 implies #[trigger] entry_ok(*m, tables, q, j) by {
                if !(q == t && j == i) {
                    assert(entry_ok(m1, tables, q, j));
                } else {
                    assert(pte_pa(0u64) == 0);
                }
            }
            lemma_reaches_tag(m1, tables, root, va as int, pte_pa(m1.word(root, vpn(va as int, 2))), 1);
            let t1 = pte_pa(m1.word(root, vpn(va as int, 2)));
            assert(m.word(root, vpn(va as int, 2)) == m1.word(root, vpn(va as int, 2)));
            assert(m.word(t1, vpn(va as int, 1)) == m1.word(t1, vpn(va as int, 1)));
            assert forall|x: int| #[trigger] walk(*m, root, x) == if same_slot(x, va as int, 0) { None } else { walk(m1, root, x) } by {
                if same_slot(x, va as int, 0) {
                    lemma_reaches_walk(*m, tables, root, va as int, x, t as int, 0);
                } else {
                    lemma_walk_frame(m1, *m, tables, root, 2, x, t as int, i as int);
                }
            }
        }
        Ok(pa)
    }
}

/// Unmapping a page right after mapping it gives back the original translations, when
/// that page had no mapping before.
pub proof fn lemma_unmap_undoes_map(m0: Pmem, m1: Pmem, m2: Pmem, root: int, va: int, e: u64)
    requires
        forall|x: int| same_slot(x, va, 0) ==> #[trigger] walk(m0, root, x) is None,
        forall|x: int| #[trigger] walk(m1, root, x) == if same_slot(x, va, 0) { Some((e, 0int)) } else { walk(m0, root, x) },
        forall|x: int| #[trigger] walk(m2, root, x) == if same_slot(x, va, 0) { None } else { walk(m1, root, x) },
    ensures
        forall|x: int| #[trigger] walk(m2, root, x) == walk(m0, root, x),
        forall|x: int| #[trigger] translate(m2, root, x) == translate(m0, root, x),
{
    assert forall|x: int| #[trigger] walk(m2, root, x) == walk(m0, root, x) by {
        assert(walk(m1, root, x) == walk(m1, root, x));
    }
    assert forall|x: int| #[trigger] translate(m2, root, x) == translate(m0, root, x) by {
        assert(walk(m2, root, x) == walk(m0, root, x));
    }
}

/// After `map` of a page-aligned `va` below 2^39 to `pa`, each address of that page
/// translates to `pa` plus its offset in the page.
pub proof fn lemma_translate_after_map(m1: Pmem, root: int, va: int, pa: int, flags: int, x: int)
    requires
        0 <= va,
        va + 4096 <= VA_LIMIT,
        va % 4096 == 0,
        0 <= pa < PA_LIMIT,
        pa % 4096 == 0,
        0 <= flags < 1024,
        forall|y: int| same_slot(y, va, 0) ==> #[trigger] walk(m1, root, y) == Some((pte_of(pa, flags) as u64, 0int)),
        va <= x < va + 4096,
    ensures
        translate(m1, root, x) == Some(pa + (x - va)),
{
    lemma_page_slot(x, va);
    vstd::arithmetic::div_mod::lemma_small_mod(x as nat, VA_LIMIT as nat);
    lemma_pte_of(pa, flags);
    assert(walk(m1, root, x) == Some((pte_of(pa, flags) as u64, 0int)));
    assert(x % 4096 == x - va) by (nonlinear_arith)
        requires va <= x < va + 4096, va % 4096 == 0;
}


/// A region to identity-map: base, size in bytes, permission bits.
pub type Region = (usize, usize, u64);

/// The page range of one of the first `k` regions holds `y`.
pub open spec fn in_regions(regions: Seq<Region>, k: int, y: int) -> bool {
    exists|j: int| 0 <= j < k && #[trigger] range_start(regions[j].0 as int) <= y
        && y < range_end(regions[j].0 as int, regions[j].1 as int)
}

/// Address `y` lies in one of the first `k` regions whose permissions, with the valid
/// bit, are the flags of the leaf that `x` walks to.
pub open spec fn region_flags(m: Pmem, root: int, regions: Seq<Region>, k: int, x: int) -> bool {
    exists|j: int| 0 <= j < k && range_start(regions[j].0 as int) <= va39(x)
        && va39(x) < range_end(regions[j].0 as int, regions[j].1 as int)
        && #[trigger] leaf_flags_are(walk(m, root, x), (regions[j].2 | PTE_V) as int)
}

/// Mapping region `k` keeps the flags of the earlier regions outside it and gives its own
/// inside it.
proof fn lemma_region_flags_step(m1: Pmem, m2: Pmem, root: int, regions: Seq<Region>, k: int)
    requires
        0 <= k < regions.len(),
        forall|x: int| x >= 0 && in_regions(regions, k, va39(x)) ==> #[trigger] region_flags(m1, root, regions, k, x),
        walks_kept_outside(m1, m2, root, range_start(regions[k].0 as int), range_end(regions[k].0 as int, regions[k].1 as int)),
        forall|x: int| x >= 0 && range_start(regions[k].0 as int) <= va39(x) < range_end(regions[k].0 as int, regions[k].1 as int)
            ==> leaf_flags_are(#[trigger] walk(m2, root, x), (regions[k].2 | PTE_V) as int),
    ensures
        forall|x: int| x >= 0 && in_regions(regions, k + 1, va39(x)) ==> #[trigger] region_flags(m2, root, regions, k + 1, x),
{
    reveal(walks_kept_outside);
    assert forall|x: int| x >= 0 && in_regions(regions, k + 1, va39(x)) implies #[trigger] region_flags(m2, root, regions, k + 1, x) by {
        let lo = range_start(regions[k].0 as int);
        let hi = range_end(regions[k].0 as int, regions[k].1 as int);
        if lo <= va39(x) < hi {
            assert(leaf_flags_are(walk(m2, root, x), (regions[k].2 | PTE_V) as int));
        } else {
            assert(walk(m2, root, x) == walk(m1, root, x));
            let j = choose|j: int| 0 <= j < k + 1 && #[trigger] range_start(regions[j].0 as int) <= va39(x)
                && va39(x) < range_end(regions[j].0 as int, regions[j].1 as int);
            assert(j < k);
            assert(in_regions(regions, k, va39(x)));
            assert(region_flags(m1, root, regions, k, x));
            let i = choose|i: int| 0 <= i < k && range_start(regions[i].0 as int) <= va39(x)
                && va39(x) < range_end(regions[i].0 as int, regions[i].1 as int)
                && #[trigger] leaf_flags_are(walk(m1, root, x), (regions[i].2 | PTE_V) as int);
            assert(leaf_flags_are(walk(m2, root, x), (regions[i].2 | PTE_V) as int));
        }
    }
}

/// A region list `kvm_init` accepts: each region fits below 2^39 with room to round up,
/// and carries leaf permissions.
pub open spec fn regions_ok(regions: Seq<Region>) -> bool {
    &&& regions.len() * (VA_LIMIT / 4096 + 2) <= usize::MAX
    &&& forall|j: int| 0 <= j < regions.len() ==> {
        let (b, sz, p) = #[trigger] regions[j];
        &&& b + sz + MEGAPAGE_SIZE <= VA_LIMIT
        &&& b + sz + MEGAPAGE_SIZE <= usize::MAX
        &&& p < 1024
        &&& pte_leaf(p)
    }
}

/// Builds the kernel page table: a fresh root, then each region mapped onto itself.
/// Addresses inside a region's pages translate to themselves, all others have no
/// translation. Fails when the kernel pool runs out or a region cannot be mapped.
pub fn kvm_init(m: &mut Pmem, regions: &Vec<Region>) -> (r: Result<PageTable, &'static str>)
    requires
        old(m).wf(),
        regions_ok(regions@),
    ensures
        final(m).wf(),
        kernel_only_allocates(*old(m), *final(m)),
        r matches Ok(pt) ==> pt.wf(*final(m)) && forall|x: int| x >= 0 ==> #[trigger] pt.translate(*final(m), x)
            == if in_regions(regions@, regions@.len() as int, va39(x)) { Some(va39(x)) } else { None },
        r matches Ok(pt) ==> forall|x: int| x >= 0 && in_regions(regions@, regions@.len() as int, va39(x))
            ==> #[trigger] region_flags(*final(m), pt.root_pa(), regions@, regions@.len() as int, x),
        r is Err ==> old(m).pool(Pool::Kernel).free().len() == 0 || exists|k: int| 0 <= k < regions@.len()
            && range_refused(*final(m), old(m).pool(Pool::Kernel).free().last() as int,
                #[trigger] regions@[k].0 as int, regions@[k].1 as int),
{
    let ghost m0 = *m;
    let mut pt = match PageTable::alloc_table(m) {
        None => return Err("kvm_init: no page for the root table"),
        Some(pt) => pt,
    };
    let ghost root = pt.root_pa();
    let mut k: usize = 0;
    proof {
        assert forall|x: int| x >= 0 implies #[trigger] translate(*m, root, x)
            == if in_regions(regions@, 0, va39(x)) { Some(va39(x)) } else { None } by {}
    }
    while k < regions.len()
        invariant
            k <= regions@.len(),
            regions_ok(regions@),
            pt.wf(*m),
            pt.root_pa() == root,
            root == m0.pool(Pool::Kernel).free().last(),
            forall|x: int| x >= 0 && in_regions(regions@, k as int, va39(x)) ==> #[trigger] region_flags(*m, root, regions@, k as int, x),
            m0 == *old(m),
            kernel_only_allocates(m0, *m),
            pt.mapped_spec() <= k * (VA_LIMIT / 4096 + 2),
            forall|x: int| x >= 0 ==> #[trigger] translate(*m, root, x)
                == if in_regions(regions@, k as int, va39(x)) { Some(va39(x)) } else { None },
        decreases regions@.len() - k,
    {
        let (b, sz, p) = regions[k];
        let ghost m1 = *m;
        proof {
            assert(regions@[k as int] == (b, sz, p));
            assert(pt.mapped_spec() + sz as int / 4096 + 2 <= usize::MAX) by (nonlinear_arith)
                requires pt.mapped_spec() <= k * (VA_LIMIT / 4096 + 2), k < regions@.len(),
                    regions@.len() * (VA_LIMIT / 4096 + 2) <= usize::MAX, b + sz + MEGAPAGE_SIZE <= VA_LIMIT;
        }
        let ghost mapped1 = pt.mapped_spec();
        let res = pt.map_range(m, b, sz, p);
        proof {
            assert forall|q: int| m0.pool(Pool::Kernel).allocated(q) implies #[trigger] m.pool(Pool::Kernel).allocated(q) by {
                assert(m1.pool(Pool::Kernel).allocated(q));
            }
        }
        match res {
            Err(e) => {
                proof {
                    assert(regions@[k as int].0 == b && regions@[k as int].1 == sz);
                    assert(range_refused(*m, root, regions@[k as int].0 as int, regions@[k as int].1 as int));
                }
                return Err(e);
            },
            Ok(()) => {},
        }
        proof {
            assert(regions@[k as int] == (b, sz, p));
            assert((p | PTE_V) < 1024) by (bit_vector) requires p < 1024;
            lemma_range_flags(*m, root, b as int, sz as int, (p | PTE_V) as int);
            lemma_region_flags_step(m1, *m, root, regions@, k as int);
            assert forall|q: int| m0.pool(Pool::Kernel).allocated(q) implies #[trigger] m.pool(Pool::Kernel).allocated(q) by {
                assert(m1.pool(Pool::Kernel).allocated(q));
            }
            assert forall|x: int| x >= 0 implies #[trigger] translate(*m, root, x)
                == if in_regions(regions@, k + 1, va39(x)) { Some(va39(x)) } else { None } by {
                if range_start(b as int) <= va39(x) < range_end(b as int, sz as int) {
                    assert(in_regions(regions@, k + 1, va39(x))) by {
                        assert(regions@[k as int].0 == b && regions@[k as int].1 == sz);
                    }
                } else {
                    assert(translate(*m, root, x) == translate(m1, root, x));
                    if in_regions(regions@, k + 1, va39(x)) {
                        let j = choose|j: int| 0 <= j < k + 1 && #[trigger] range_start(regions@[j].0 as int) <= va39(x)
                            && va39(x) < range_end(regions@[j].0 as int, regions@[j].1 as int);
                        assert(j < k);
                        assert(in_regions(regions@, k as int, va39(x)));
                    }
                }
            }
            assert(pt.mapped_spec() <= (k + 1) * (VA_LIMIT / 4096 + 2)) by (nonlinear_arith)
                requires pt.mapped_spec() <= mapped1 + (range_end(b as int, sz as int) - range_start(b as int)) / 4096,
                    mapped1 <= k * (VA_LIMIT / 4096 + 2), range_end(b as int, sz as int) <= VA_LIMIT, range_start(b as int) >= 0;
        }
        k = k + 1;
    }
    Ok(pt)
}

/// `(root table physical address, mappings made)` for the boot self-check.
pub fn kvm_stat(pt: &PageTable) -> (r: (usize, usize))
    requires
        pt.root_pa() <= usize::MAX,
    ensures
        r.0 == pt.root_pa(),
        r.1 == pt.mapped_spec(),
{
    (pt.root * PAGE_SIZE, pt.mapped)
}

/// Translates `va` with the kernel page table.
pub fn kvm_translate(pt: &PageTable, m: &Pmem, va: usize) -> (r: Option<usize>)
    requires
        pt.wf(*m),
    ensures
        r matches Some(pa) ==> pt.translate(*m, va as int) == Some(pa as int),
        r is None ==> pt.translate(*m, va as int) is None,
{
    pt.translate_with(m, va)
}


/// Copies the 512 entries of the kernel-pool table at `src` into the table at `dst`;
/// every other kernel page keeps its words.
fn copy_table(m: &mut Pmem, src: usize, dst: usize)
    requires
        old(m).wf(),
        old(m).pool(Pool::Kernel).owns(src as int),
        old(m).pool(Pool::Kernel).owns(dst as int),
        src != dst,
    ensures
        final(m).wf(),
        final(m).pool(Pool::Kernel) == old(m).pool(Pool::Kernel),
        final(m).pool(Pool::User) == old(m).pool(Pool::User),
        final(m).mem_base() == old(m).mem_base(),
        final(m).mem().len() == old(m).mem().len(),
        final(m).inited_spec() == old(m).inited_spec(),
        forall|i: int| 0 <= i < 512 ==> #[trigger] final(m).word(dst as int, i) == old(m).word(src as int, i),
        forall|q: int, j: int| old(m).pool(Pool::Kernel).owns(q) && q != dst && 0 <= j < 512
            ==> #[trigger] final(m).word(q, j) == old(m).word(q, j),
{
    let ghost m0 = *m;
    let mut i: usize = 0;
    while i < PTE_PER_TABLE
        invariant
            i <= 512,
            m.wf(),
            m0.wf(),
            m.pool(Pool::Kernel) == m0.pool(Pool::Kernel),
            m.pool(Pool::User) == m0.pool(Pool::User),
            m.mem_base() == m0.mem_base(),
            m.mem().len() == m0.mem().len(),
            m.inited_spec() == m0.inited_spec(),
            m0.pool(Pool::Kernel).owns(src as int),
            m0.pool(Pool::Kernel).owns(dst as int),
            src != dst,
            forall|j: int| 0 <= j < i ==> #[trigger] m.word(dst as int, j) == m0.word(src as int, j),
            forall|q: int, j: int| m0.pool(Pool::Kernel).owns(q) && q != dst && 0 <= j < 512
                ==> #[trigger] m.word(q, j) == m0.word(q, j),
        decreases 512 - i,
    {
        let e = m.read_word(src, i);
        let ghost m1 = *m;
        m.write_word(dst, i, e);
        proof {
            assert forall|q: int, j: int| m0.pool(Pool::Kernel).owns(q) && 0 <= j < 512 && !(q == dst && j == i)
                implies #[trigger] m.word(q, j) == m1.word(q, j) by {
                lemma_word_distinct(m1, dst as int, i as int, q, j);
                m1.lemma_pool_pages_in_mem(Pool::Kernel, q);
                m1.lemma_pool_pages_in_mem(Pool::Kernel, dst as int);
            }
        }
        i = i + 1;
    }
}

/// Entry 0 of the root table at `root` links to a table of the next level.
pub open spec fn root_links_low(m: Pmem, root: int) -> bool {
    pte_valid(m.word(root, 0)) && !pte_leaf(m.word(root, 0))
}

/// Pages a new process table takes from the kernel pool: its root, and a copy of the
/// kernel's table under root entry 0 when there is one.
pub open spec fn process_table_pages(m: Pmem, kernel_root: int) -> int {
    if root_links_low(m, kernel_root) { 2 } else { 1 }
}

/// The tables of a process table built from the kernel tables `tables`: the kernel's,
/// the new root `r`, and the copy `c` of the table under root entry 0 when `deep` holds.
pub open spec fn process_tables(tables: Map<int, (int, int)>, r: int, c: int, deep: bool) -> Map<int, (int, int)> {
    if deep {
        tables.insert(r, (2int, 0int)).insert(c, (1int, 0int))
    } else {
        tables.insert(r, (2int, 0int))
    }
}

/// A root that copies the kernel root, with entry 0 pointing at a copy `c` of the
/// kernel's low table when `deep` holds, is well tagged and translates as the kernel's.
proof fn lemma_process_table(m0: Pmem, mf: Pmem, tables: Map<int, (int, int)>, kroot: int, r: int, c: int, deep: bool)
    requires
        tables_ok(m0, tables),
        tables.contains_key(kroot),
        tables[kroot] == (2int, 0int),
        !tables.contains_key(r),
        deep ==> !tables.contains_key(c) && c != r,
        deep == root_links_low(m0, kroot),
        same_tables_except(m0, mf, tables, kroot, 512),
        forall|q: int| #[trigger] tables.contains_key(q) ==> mf.pool(Pool::Kernel).allocated(q),
        mf.pool(Pool::Kernel).allocated(r),
        deep ==> mf.pool(Pool::Kernel).allocated(c),
        forall|i: int| 0 <= i < 512 && !(deep && i == 0) ==> #[trigger] mf.word(r, i) == m0.word(kroot, i),
        deep ==> pte_valid(mf.word(r, 0)) && !pte_leaf(mf.word(r, 0)) && pte_pa(mf.word(r, 0)) == c,
        deep ==> forall|i: int| 0 <= i < 512 ==> #[trigger] mf.word(c, i) == m0.word(pte_pa(m0.word(kroot, 0)), i),
        0 <= c <= usize::MAX,
    ensures
        tables_ok(mf, tables),
        tables_ok(mf, process_tables(tables, r, c, deep)),
        forall|x: int| #[trigger] walk(mf, kroot, x) == walk(m0, kroot, x),
        forall|x: int| #[trigger] walk(mf, r, x) == walk(m0, kroot, x),
{
    let p = process_tables(tables, r, c, deep);
    assert forall|t: int, i: int| tables.contains_key(t) && 0 <= i < 512 implies #[trigger] entry_ok(mf, tables, t, i) by {
        assert(entry_ok(m0, tables, t, i));
        assert(mf.word(t, i) == m0.word(t, i));
    }
    assert forall|t: int, i: int| p.contains_key(t) && 0 <= i < 512 implies #[trigger] entry_ok(mf, p, t, i) by {
        if tables.contains_key(t) {
            assert(entry_ok(m0, tables, t, i));
            assert(mf.word(t, i) == m0.word(t, i));
        } else if t == r {
            if !(deep && i == 0) {
                assert(entry_ok(m0, tables, kroot, i));
            }
        } else {
            let k1 = pte_pa(m0.word(kroot, 0));
            assert(entry_ok(m0, tables, kroot, 0));
            assert(entry_ok(m0, tables, k1, i));
        }
    }
    assert forall|x: int| #[trigger] walk(mf, kroot, x) == walk(m0, kroot, x) by {
        lemma_walk_frame(m0, mf, tables, kroot, 2, x, kroot, 512);
    }
    assert forall|x: int| #[trigger] walk(mf, r, x) == walk(m0, kroot, x) by {
        let i2 = vpn(x, 2);
        assert(0 <= i2 < 512);
        assert(entry_ok(m0, tables, kroot, i2));
        if deep && i2 == 0 {
            let k1 = pte_pa(m0.word(kroot, 0));
            let i1 = vpn(x, 1);
            assert(0 <= i1 < 512);
            assert(entry_ok(m0, tables, k1, i1));
            let e1 = m0.word(k1, i1);
            assert(mf.word(c, i1) == e1);
            if pte_valid(e1) && !pte_leaf(e1) {
                lemma_walk_frame(m0, mf, tables, pte_pa(e1), 0, x, kroot, 512);
            }
            reveal_with_fuel(walk_from, 3);
        } else {
            let e2 = m0.word(kroot, i2);
            assert(mf.word(r, i2) == e2);
            if pte_valid(e2) && !pte_leaf(e2) {
                lemma_walk_frame(m0, mf, tables, pte_pa(e2), 1, x, kroot, 512);
            }
            reveal_with_fuel(walk_from, 2);
        }
    }
}

/// Builds the page table of a new process: a fresh root holding the kernel root's
/// entries, with the kernel's table under root entry 0 (the low gigabyte, where user
/// pages go) copied into a fresh page so that the process's user mappings stay its own.
///
/// `None` when there is no kernel table yet or the kernel pool lacks the pages; a root
/// taken before the pool ran out stays allocated.
pub fn kvm_create_process_table(kernel: Option<&PageTable>, m: &mut Pmem) -> (r: Option<PageTable>)
    requires
        old(m).wf(),
        kernel matches Some(k) ==> k.wf(*old(m)),
    ensures
        final(m).wf(),
        kernel_only_allocates(*old(m), *final(m)),
        kernel is None ==> *final(m) == *old(m),
        r is None <==> (kernel is None
            || old(m).pool(Pool::Kernel).free().len() < process_table_pages(*old(m), kernel.unwrap().root_pa())),
        kernel matches Some(k) ==> k.wf(*final(m))
            && forall|x: int| #[trigger] walk(*final(m), k.root_pa(), x) == walk(*old(m), k.root_pa(), x),
        r matches Some(pt) ==> {
            let k = kernel.unwrap();
            &&& pt.wf(*final(m))
            &&& pt.mapped_spec() == 0
            &&& pt.root_pa() == old(m).pool(Pool::Kernel).free().last()
            &&& forall|x: int| #[trigger] walk(*final(m), pt.root_pa(), x) == walk(*old(m), k.root_pa(), x)
            &&& !old(m).pool(Pool::Kernel).allocated(pt.root_pa())
            &&& !k.tables().contains_key(pt.root_pa())
            &&& forall|i: int| 1 <= i < 512 ==> #[trigger] final(m).word(pt.root_pa(), i) == old(m).word(k.root_pa(), i)
            &&& !root_links_low(*old(m), k.root_pa()) ==> final(m).word(pt.root_pa(), 0) == old(m).word(k.root_pa(), 0)
            &&& root_links_low(*old(m), k.root_pa()) ==> {
                let c = pte_pa(final(m).word(pt.root_pa(), 0));
                let low = pte_pa(old(m).word(k.root_pa(), 0));
                &&& final(m).word(pt.root_pa(), 0) == pte_of(c, PTE_V as int) as u64
                &&& c != low
                &&& forall|i: int| 0 <= i < 512 ==> #[trigger] final(m).word(c, i) == old(m).word(low, i)
            }
            &&& root_links_low(*old(m), k.root_pa()) ==> {
                &&& root_links_low(*final(m), pt.root_pa())
                &&& !old(m).pool(Pool::Kernel).allocated(pte_pa(final(m).word(pt.root_pa(), 0)))
                &&& !k.tables().contains_key(pte_pa(final(m).word(pt.root_pa(), 0)))
            }
        },
{
    let k = match kernel {
        None => return None,
        Some(k) => k,
    };
    let ghost m0 = *m;
    let ghost ktables = k.tables@;
    let kroot = k.root * PAGE_SIZE;
    proof {
        assert(m0.pool(Pool::Kernel).allocated(kroot as int));
    }
    let root = m.pmem_alloc(Pool::Kernel);
    if root == 0 {
        proof {
            assert(same_tables_except(m0, *m, ktables, kroot as int, 512)) by {
                assert forall|q: int, j: int| ktables.contains_key(q) && 0 <= j < 512 && !(q == kroot && j == 512)
                    implies #[trigger] m.word(q, j) == m0.word(q, j) by {}
            }
            assert forall|x: int| #[trigger] walk(*m, k.root_pa(), x) == walk(m0, k.root_pa(), x) by {
                lemma_walk_frame(m0, *m, ktables, kroot as int, 2, x, kroot as int, 512);
            }
            assert forall|t: int, i: int| ktables.contains_key(t) && 0 <= i < 512 implies #[trigger] entry_ok(*m, ktables, t, i) by {
                assert(entry_ok(m0, ktables, t, i));
            }
        }
        return None;
    }
    let ghost m1 = *m;
    proof {
        m0.lemma_free_distinct(Pool::Kernel);
        assert(m0.pool(Pool::Kernel).free().contains(root));
        assert forall|q: int| m0.pool(Pool::Kernel).allocated(q) implies #[trigger] m1.pool(Pool::Kernel).allocated(q) by {
            crate::mm::pmem::lemma_alloc_fresh(m0, m1, Pool::Kernel, root, q);
        }
        assert forall|q: int, j: int| ktables.contains_key(q) && 0 <= j < 512
            implies #[trigger] m1.word(q, j) == m0.word(q, j) by {
            assert(m0.pool(Pool::Kernel).allocated(q));
            lemma_alloc_keeps_other_pages(m0, m1, root, q, j);
        }
    }
    copy_table(m, kroot, root);
    let ghost m2 = *m;
    proof {
        assert forall|q: int, j: int| ktables.contains_key(q) && 0 <= j < 512
            implies #[trigger] m2.word(q, j) == m0.word(q, j) by {
            assert(m0.pool(Pool::Kernel).allocated(q));
            assert(m1.word(q, j) == m0.word(q, j));
        }
        assert forall|i: int| 0 <= i < 512 implies #[trigger] m2.word(root as int, i) == m0.word(kroot as int, i) by {
            assert(m1.word(kroot as int, i) == m0.word(kroot as int, i));
        }
    }
    let e0 = m.read_word(kroot, 0);
    let mut copy: usize = 0;
    if pte_is_valid(e0) && !pte_is_leaf(e0) {
        proof {
            assert(entry_ok(m0, ktables, kroot as int, 0));
        }
        let low = pte_to_pa(e0);
        let c = m.pmem_alloc(Pool::Kernel);
        if c == 0 {
            proof {
                assert(m1.pool(Pool::Kernel).free() == m0.pool(Pool::Kernel).free().drop_last());
                assert(same_tables_except(m0, *m, ktables, kroot as int, 512)) by {
                    assert forall|q: int, j: int| ktables.contains_key(q) && 0 <= j < 512 && !(q == kroot && j == 512)
                        implies #[trigger] m.word(q, j) == m0.word(q, j) by {
                        assert(m2.word(q, j) == m0.word(q, j));
                    }
                }
                assert forall|x: int| #[trigger] walk(*m, k.root_pa(), x) == walk(m0, k.root_pa(), x) by {
                    lemma_walk_frame(m0, *m, ktables, kroot as int, 2, x, kroot as int, 512);
                }
                assert forall|t: int, i: int| ktables.contains_key(t) && 0 <= i < 512 implies #[trigger] entry_ok(*m, ktables, t, i) by {
                    assert(entry_ok(m0, ktables, t, i));
                    assert(m2.word(t, i) == m0.word(t, i));
                }
            }
            return None;
        }
        let ghost m3 = *m;
        proof {
            m2.lemma_free_distinct(Pool::Kernel);
            assert(m2.pool(Pool::Kernel).free().contains(c));
            assert forall|q: int| m2.pool(Pool::Kernel).allocated(q) implies #[trigger] m3.pool(Pool::Kernel).allocated(q) by {
                crate::mm::pmem::lemma_alloc_fresh(m2, m3, Pool::Kernel, c, q);
            }
            assert(ktables.contains_key(low as int));
            assert forall|q: int, j: int| ktables.contains_key(q) && 0 <= j < 512
                implies #[trigger] m3.word(q, j) == m0.word(q, j) by {
                assert(m0.pool(Pool::Kernel).allocated(q));
                assert(m2.pool(Pool::Kernel).allocated(q));
                lemma_alloc_keeps_other_pages(m2, m3, c, q, j);
                assert(m2.word(q, j) == m0.word(q, j));
            }
            assert forall|i: int| 0 <= i < 512 implies #[trigger] m3.word(root as int, i) == m0.word(kroot as int, i) by {
                lemma_alloc_keeps_other_pages(m2, m3, c, root as int, i);
                assert(m2.word(root as int, i) == m0.word(kroot as int, i));
            }
        }
        copy_table(m, low, c);
        let ghost m4 = *m;
        proof {
            m2.lemma_pool_pages_in_mem(Pool::Kernel, c as int);
            assert forall|q: int, j: int| ktables.contains_key(q) && 0 <= j < 512
                implies #[trigger] m4.word(q, j) == m0.word(q, j) by {
                assert(m2.pool(Pool::Kernel).allocated(q));
                assert(m3.word(q, j) == m0.word(q, j));
            }
            assert forall|i: int| 0 <= i < 512 implies #[trigger] m4.word(root as int, i) == m0.word(kroot as int, i) by {
                assert(m3.word(root as int, i) == m0.word(kroot as int, i));
            }
            assert forall|i: int| 0 <= i < 512 implies #[trigger] m4.word(c as int, i) == m0.word(low as int, i) by {
                assert(m3.word(low as int, i) == m0.word(low as int, i));
            }
        }
        let link = make_pte(c, PTE_V);
        m.write_word(root, 0, link);
        proof {
            assert(m.word(root as int, 0) == link);
            assert(m2.pool(Pool::Kernel).allocated(low as int));
            assert(c != low);
            assert forall|q: int, j: int| ktables.contains_key(q) && 0 <= j < 512
                implies #[trigger] m.word(q, j) == m0.word(q, j) by {
                assert(m2.pool(Pool::Kernel).allocated(q));
                assert(m4.pool(Pool::Kernel).owns(q));
                assert(m4.word(q, j) == m0.word(q, j));
                lemma_word_distinct(m4, root as int, 0, q, j);
                m4.lemma_pool_pages_in_mem(Pool::Kernel, q);
                m4.lemma_pool_pages_in_mem(Pool::Kernel, root as int);
            }
            assert forall|i: int| 0 <= i < 512 && i != 0 implies #[trigger] m.word(root as int, i) == m0.word(kroot as int, i) by {
                assert(m4.pool(Pool::Kernel).owns(root as int));
                assert(m4.word(root as int, i) == m0.word(kroot as int, i));
                lemma_word_distinct(m4, root as int, 0, root as int, i);
                m4.lemma_pool_pages_in_mem(Pool::Kernel, root as int);
            }
            assert forall|i: int| 0 <= i < 512 implies #[trigger] m.word(c as int, i) == m0.word(low as int, i) by {
                assert(m4.pool(Pool::Kernel).owns(c as int));
                assert(m4.word(c as int, i) == m0.word(low as int, i));
                lemma_word_distinct(m4, root as int, 0, c as int, i);
                m4.lemma_pool_pages_in_mem(Pool::Kernel, c as int);
                m4.lemma_pool_pages_in_mem(Pool::Kernel, root as int);
            }
        }
        copy = c;
    }
    let ghost mf = *m;
    let ghost deep = root_links_low(m0, kroot as int);
    proof {
        assert(same_tables_except(m0, mf, ktables, kroot as int, 512));
        lemma_process_table(m0, mf, ktables, kroot as int, root as int, copy as int, deep);
    }
    let pt = PageTable {
        root: root / PAGE_SIZE,
        mapped: 0,
        tables: Ghost(process_tables(ktables, root as int, copy as int, deep)),
    };
    Some(pt)
}


impl PageTable {
    /// A well-formed table lives in a well-formed memory.
    pub proof fn lemma_wf_mem(&self, m: Pmem)
        requires
            self.wf(m),
        ensures
            m.wf(),
            0 <= self.root_pa() <= usize::MAX,
            forall|q: int| #[trigger] self.tables().contains_key(q) ==> m.pool(Pool::Kernel).allocated(q),
    {
    }

    /// A change of memory that keeps the kernel pool and the words of its pages keeps the
    /// table well formed and every translation through it.
    pub proof fn lemma_kernel_unchanged(&self, m1: Pmem, m2: Pmem)
        requires
            self.wf(m1),
            m2.wf(),
            m2.pool(Pool::Kernel) == m1.pool(Pool::Kernel),
            m2.mem_base() == m1.mem_base(),
            forall|q: int, i: int| m1.pool(Pool::Kernel).owns(q) && 0 <= i < PAGE_WORDS ==> #[trigger] m2.word(q, i) == m1.word(q, i),
        ensures
            self.wf(m2),
            forall|x: int| #[trigger] walk(m2, self.root_pa(), x) == walk(m1, self.root_pa(), x),
    {
        let tables = self.tables@;
        assert forall|t: int, i: int| tables.contains_key(t) && 0 <= i < 512 implies #[trigger] entry_ok(m2, tables, t, i) by {
            assert(entry_ok(m1, tables, t, i));
            assert(m1.pool(Pool::Kernel).allocated(t));
            assert(m2.word(t, i) == m1.word(t, i));
        }
        assert(same_tables_except(m1, m2, tables, self.root_pa(), 512)) by {
            assert forall|t: int, i: int| tables.contains_key(t) && 0 <= i < 512 && !(t == self.root_pa() && i == 512)
                implies #[trigger] m2.word(t, i) == m1.word(t, i) by {
                assert(m1.pool(Pool::Kernel).allocated(t));
            }
        }
        assert forall|x: int| #[trigger] walk(m2, self.root_pa(), x) == walk(m1, self.root_pa(), x) by {
            lemma_walk_frame(m1, m2, tables, self.root_pa(), 2, x, self.root_pa(), 512);
        }
    }
}


/// A user page mapped in a process table stays out of the kernel table. When neither the
/// process root nor the table under its entry 0 is a kernel table, and that table holds
/// no 4 KiB table for the 2 MiB region of `va` in the low gigabyte, the walk of `va`
/// meets no kernel table, so mapping `va` in the process table keeps the kernel table
/// well formed and every kernel translation as it was.
pub proof fn lemma_process_map_isolated(kernel: PageTable, m0: Pmem, m1: Pmem, root: int, va: int)
    requires
        kernel.wf(m0),
        m1.wf(),
        kernel_only_allocates(m0, m1),
        !kernel.tables().contains_key(root),
        vpn(va, 2) == 0,
        root_links_low(m0, root) ==> {
            let c = pte_pa(m0.word(root, 0));
            &&& !kernel.tables().contains_key(c)
            &&& !(pte_valid(m0.word(c, vpn(va, 1))) && !pte_leaf(m0.word(c, vpn(va, 1))))
        },
        only_path_written(m0, m1, root, va),
    ensures
        kernel.wf(m1),
        forall|x: int| #[trigger] walk(m1, kernel.root_pa(), x) == walk(m0, kernel.root_pa(), x),
{
    reveal(only_path_written);
    let tables = kernel.tables@;
    assert forall|q: int, i: int| tables.contains_key(q) && 0 <= i < 512 implies #[trigger] m1.word(q, i) == m0.word(q, i) by {
        assert(m0.pool(Pool::Kernel).allocated(q));
        assert(!on_path(m0, root, va, q));
    }
    assert forall|t: int, i: int| tables.contains_key(t) && 0 <= i < 512 implies #[trigger] entry_ok(m1, tables, t, i) by {
        assert(entry_ok(m0, tables, t, i));
        assert(m1.word(t, i) == m0.word(t, i));
    }
    assert(same_tables_except(m0, m1, tables, kernel.root_pa(), 512));
    assert forall|x: int| #[trigger] walk(m1, kernel.root_pa(), x) == walk(m0, kernel.root_pa(), x) by {
        lemma_walk_frame(m0, m1, tables, kernel.root_pa(), 2, x, kernel.root_pa(), 512);
    }
}


impl PageTable {
    /// A table whose own pages keep their words, in a memory that keeps the kernel pages
    /// handed out, stays well formed and translates as before.
    pub proof fn lemma_tables_kept(&self, m1: Pmem, m2: Pmem)
        requires
            self.wf(m1),
            m2.wf(),
            m2.mem_base() == m1.mem_base(),
            forall|q: int| m1.pool(Pool::Kernel).allocated(q) ==> #[trigger] m2.pool(Pool::Kernel).allocated(q),
            forall|q: int, i: int| self.tables().contains_key(q) && 0 <= i < 512 ==> #[trigger] m2.word(q, i) == m1.word(q, i),
        ensures
            self.wf(m2),
            forall|x: int| #[trigger] walk(m2, self.root_pa(), x) == walk(m1, self.root_pa(), x),
    {
        let tables = self.tables@;
        assert forall|t: int, i: int| tables.contains_key(t) && 0 <= i < 512 implies #[trigger] entry_ok(m2, tables, t, i) by {
            assert(entry_ok(m1, tables, t, i));
            assert(m2.word(t, i) == m1.word(t, i));
        }
        assert forall|t: int| #[trigger] tables.contains_key(t) implies m2.pool(Pool::Kernel).allocated(t) && 0 <= tables[t].0 <= 2 by {
            assert(m1.pool(Pool::Kernel).allocated(t));
        }
        assert(same_tables_except(m1, m2, tables, self.root_pa(), 512));
        assert forall|x: int| #[trigger] walk(m2, self.root_pa(), x) == walk(m1, self.root_pa(), x) by {
            lemma_walk_frame(m1, m2, tables, self.root_pa(), 2, x, self.root_pa(), 512);
        }
    }
}

/// Mapping a page through `target` leaves alone a table `other` that shares no page with
/// it: `other` stays well formed and translates as before.
pub proof fn lemma_map_spares(target: PageTable, other: PageTable, m1: Pmem, m2: Pmem, va: int)
    requires
        target.wf(m1),
        other.wf(m1),
        forall|q: int| !(#[trigger] target.tables().contains_key(q) && other.tables().contains_key(q)),
        only_path_written(m1, m2, target.root_pa(), va),
        m2.wf(),
        m2.mem_base() == m1.mem_base(),
        forall|q: int| m1.pool(Pool::Kernel).allocated(q) ==> #[trigger] m2.pool(Pool::Kernel).allocated(q),
    ensures
        other.wf(m2),
        forall|x: int| #[trigger] walk(m2, other.root_pa(), x) == walk(m1, other.root_pa(), x),
{
    reveal(only_path_written);
    let tt = target.tables@;
    assert forall|q: int, i: int| other.tables().contains_key(q) && 0 <= i < 512 implies #[trigger] m2.word(q, i) == m1.word(q, i) by {
        assert(m1.pool(Pool::Kernel).allocated(q));
        assert(!(target.tables().contains_key(q) && other.tables().contains_key(q)));
        assert(!tt.contains_key(q));
        if reaches(m1, target.root_pa(), va, q, 1) {
            lemma_reaches_tag(m1, tt, target.root_pa(), va, q, 1);
        }
        if reaches(m1, target.root_pa(), va, q, 0) {
            lemma_reaches_tag(m1, tt, target.root_pa(), va, q, 0);
        }
        assert(!on_path(m1, target.root_pa(), va, q));
    }
    other.lemma_tables_kept(m1, m2);
}


/// Mapping an address that has no translation meets no leaf on the way and needs at most
/// two new tables.
pub proof fn lemma_unmapped_need(m: Pmem, root: int, va: int)
    requires
        walk(m, root, va) is None,
    ensures
        !create_need(m, root, va, 0).1,
        create_need(m, root, va, 0).0 <= 2,
{
    reveal_with_fuel(walk_from, 3);
}

/// The table that entry `i` of table `t` links to, if that entry is a valid link.
pub open spec fn link_at(m: Pmem, t: int, i: int) -> Option<int> {
    let e = m.word(t, i);
    if pte_valid(e) && !pte_leaf(e) { Some(pte_pa(e)) } else { None }
}

/// The tables that the walk of some address passes through from the root at `root`.
pub open spec fn tree_tables(m: Pmem, root: int) -> Set<usize> {
    Set::new(|q: usize| exists|va: int| #[trigger] on_path(m, root, va, q as int))
}

/// The user-pool page that `va` is mapped to by a 4 KiB leaf of the table at `root`.
pub open spec fn user_leaf(m: Pmem, root: int, va: int) -> Option<usize> {
    match walk(m, root, va) {
        Some((e, l)) => if l == 0 && m.pool(Pool::User).owns(pte_pa(e)) { Some(pte_pa(e) as usize) } else { None },
        None => None,
    }
}

/// The user-pool pages that 4 KiB leaves of the table at `root` map.
pub open spec fn user_leaf_pages(m: Pmem, root: int) -> Set<usize> {
    Set::new(|p: usize| exists|va: int| #[trigger] user_leaf(m, root, va) == Some(p))
}

/// Each user page mapped by a 4 KiB leaf of the table at `root` is handed out, and no
/// two pages of the address space map it.
pub open spec fn user_leaves_owned(m: Pmem, root: int) -> bool {
    &&& forall|x: int| #[trigger] user_leaf(m, root, x) matches Some(p) ==> m.pool(Pool::User).allocated(p as int)
    &&& forall|x: int, y: int| #![trigger user_leaf(m, root, x), user_leaf(m, root, y)]
        user_leaf(m, root, x) matches Some(p) && user_leaf(m, root, y) == Some(p) ==> vpage(x) == vpage(y)
}

/// The first address of the page with table indices `i2`, `i1`, `i0`.
pub open spec fn slot_va(i2: int, i1: int, i0: int) -> int {
    ((i2 * 512 + i1) * 512 + i0) * 4096
}

/// The address of a slot has the slot's indices.
pub proof fn lemma_slot_va(i2: int, i1: int, i0: int)
    requires
        0 <= i2 < 512,
        0 <= i1 < 512,
        0 <= i0 < 512,
    ensures
        0 <= slot_va(i2, i1, i0) < 0x80_0000_0000,
        vpn(slot_va(i2, i1, i0), 2) == i2,
        vpn(slot_va(i2, i1, i0), 1) == i1,
        vpn(slot_va(i2, i1, i0), 0) == i0,
        vpage(slot_va(i2, i1, i0)) == (i2 * 512 + i1) * 512 + i0,
{
    let s = (i2 * 512 + i1) * 512 + i0;
    let va = slot_va(i2, i1, i0);
    assert(0 <= s < 0x800_0000) by (nonlinear_arith)
        requires s == (i2 * 512 + i1) * 512 + i0, 0 <= i2 < 512, 0 <= i1 < 512, 0 <= i0 < 512;
    vstd::arithmetic::div_mod::lemma_fundamental_div_mod_converse(va, 4096, s, 0);
    vstd::arithmetic::div_mod::lemma_small_mod(s as nat, 0x800_0000);
    lemma_vpage_digits(va);
    vstd::arithmetic::div_mod::lemma_fundamental_div_mod_converse(s, 512, i2 * 512 + i1, i0);
    vstd::arithmetic::div_mod::lemma_fundamental_div_mod_converse(i2 * 512 + i1, 512, i2, i1);
    vstd::arithmetic::div_mod::lemma_small_mod(i1 as nat, 512);
    assert(vpage(va) / 0x4_0000 == i2) by {
        vstd::arithmetic::div_mod::lemma_div_denominator(s, 512, 512);
    }
}

/// The user leaf of `va` read through the table links of its indices.
proof fn lemma_user_leaf_links(m: Pmem, root: int, va: int)
    ensures
        user_leaf(m, root, va) == match link_at(m, root, vpn(va, 2)) {
            Some(t1) => match link_at(m, t1, vpn(va, 1)) {
                Some(t0) => {
                    let e = m.word(t0, vpn(va, 0));
                    if pte_valid(e) && pte_leaf(e) && m.pool(Pool::User).owns(pte_pa(e)) {
                        Some(pte_pa(e) as usize)
                    } else {
                        None
                    }
                },
                None => None,
            },
            None => None,
        },
{
    reveal_with_fuel(walk_from, 3);
}

/// A slot index is below 512.
proof fn lemma_vpn_range(va: int, l: int)
    ensures
        0 <= vpn(va, l) < 512,
{
}

impl PageTable {
    /// The pages of the table tree: every table a walk passes through, and every
    /// user-pool page a 4 KiB leaf maps, each once.
    pub fn tree_pages(&self, m: &Pmem) -> (r: (Vec<usize>, Vec<usize>))
        requires
            self.wf(*m),
            user_leaves_owned(*m, self.root_pa()),
        ensures
            r.0@.no_duplicates(),
            r.0@.to_set() == tree_tables(*m, self.root_pa()),
            forall|k: int| 0 <= k < r.0@.len() ==> m.pool(Pool::Kernel).allocated(#[trigger] r.0@[k] as int),
            r.1@.no_duplicates(),
            r.1@.to_set() == user_leaf_pages(*m, self.root_pa()),
    {
        let ghost root = self.root_pa();
        let ghost tabs = self.tables@;
        let rt = self.root * PAGE_SIZE;
        let mut ts: Vec<usize> = Vec::new();
        ts.push(rt);
        let mut ls: Vec<usize> = Vec::new();
        let ghost mut wit: Seq<int> = Seq::empty();
        proof {
            assert(on_path(*m, root, 0, root));
            assert(tree_tables(*m, root).contains(rt));
        }
        let mut i2: usize = 0;
        while i2 < 512
            invariant
                self.wf(*m),
                root == self.root_pa(),
                rt == root,
                tabs == self.tables@,
                tabs.contains_key(root),
                tabs[root] == (2int, 0int),
                tables_ok(*m, tabs),
                m.wf(),
                user_leaves_owned(*m, root),
                i2 <= 512,
                ts@.len() >= 1,
                ts@[0] == rt,
                ts@.no_duplicates(),
                forall|k: int| 0 <= k < ts@.len() ==> tree_tables(*m, root).contains(#[trigger] ts@[k]),
                forall|k: int| 0 < k < ts@.len() ==> {
                    let t = #[trigger] ts@[k] as int;
                    &&& tabs.contains_key(t)
                    &&& (tabs[t].0 == 1 && tabs[t].1 < i2) || (tabs[t].0 == 0 && tabs[t].1 < i2 * 512)
                },
                forall|va: int, q: usize| vpn(va, 2) < i2 && #[trigger] on_path(*m, root, va, q as int) ==> ts@.contains(q),
                ls@.no_duplicates(),
                wit.len() == ls@.len(),
                forall|k: int| 0 <= k < ls@.len() ==> user_leaf(*m, root, #[trigger] wit[k]) == Some(ls@[k])
                    && vpage(wit[k]) < i2 * 0x4_0000,
                forall|va: int| vpn(va, 2) < i2 && #[trigger] user_leaf(*m, root, va) is Some
                    ==> ls@.contains(user_leaf(*m, root, va)->0),
            decreases 512 - i2,
        {
            assert(m.pool(Pool::Kernel).allocated(rt as int));
            let e2 = m.read_word(rt, i2);
            assert(entry_ok(*m, tabs, root, i2 as int));
            if pte_is_valid(e2) && !pte_is_leaf(e2) {
                let t1 = pte_to_pa(e2);
                proof {
                    lemma_slot_va(i2 as int, 0, 0);
                    assert(on_path(*m, root, slot_va(i2 as int, 0, 0), t1 as int));
                    assert(tree_tables(*m, root).contains(t1));
                    assert(tabs[t1 as int] == (1int, i2 as int));
                    assert forall|k: int| 0 <= k < ts@.len() implies ts@[k] != t1 by {
                        if k > 0 {
                            let t = ts@[k] as int;
                            assert(tabs.contains_key(t));
                        }
                    }
                }
                ts.push(t1);
                proof {
                    broadcast use vstd::seq_lib::lemma_seq_contains_after_push;
                    assert(ts@[0] == rt);
                    assert(ts@.contains(t1));
                    assert forall|va: int, q: usize| (vpn(va, 2) < i2 || (vpn(va, 2) == i2 && vpn(va, 1) < 0))
                        && #[trigger] on_path(*m, root, va, q as int) implies ts@.contains(q) by {
                    }
                }
                let mut i1: usize = 0;
                while i1 < 512
                    invariant
                        self.wf(*m),
                        root == self.root_pa(),
                        rt == root,
                        tabs == self.tables@,
                        tabs.contains_key(root),
                        tabs[root] == (2int, 0int),
                        tables_ok(*m, tabs),
                        m.wf(),
                        user_leaves_owned(*m, root),
                        i2 < 512,
                        i1 <= 512,
                        link_at(*m, root, i2 as int) == Some(t1 as int),
                        tabs.contains_key(t1 as int),
                        tabs[t1 as int] == (1int, i2 as int),
                        ts@.contains(t1),
                        ts@.len() >= 1,
                        ts@[0] == rt,
                        ts@.no_duplicates(),
                        forall|k: int| 0 <= k < ts@.len() ==> tree_tables(*m, root).contains(#[trigger] ts@[k]),
                        forall|k: int| 0 < k < ts@.len() ==> {
                            let t = #[trigger] ts@[k] as int;
                            &&& tabs.contains_key(t)
                            &&& (tabs[t].0 == 1 && tabs[t].1 <= i2) || (tabs[t].0 == 0 && tabs[t].1 < i2 * 512 + i1)
                        },
                        forall|va: int, q: usize| (vpn(va, 2) < i2 || (vpn(va, 2) == i2 && vpn(va, 1) < i1))
                            && #[trigger] on_path(*m, root, va, q as int) ==> ts@.contains(q),
                        ls@.no_duplicates(),
                        wit.len() == ls@.len(),
                        forall|k: int| 0 <= k < ls@.len() ==> user_leaf(*m, root, #[trigger] wit[k]) == Some(ls@[k])
                            && vpage(wit[k]) < i2 * 0x4_0000 + i1 * 512,
                        forall|va: int| (vpn(va, 2) < i2 || (vpn(va, 2) == i2 && vpn(va, 1) < i1))
                            && #[trigger] user_leaf(*m, root, va) is Some ==> ls@.contains(user_leaf(*m, root, va)->0),
                    decreases 512 - i1,
                {
                    assert(m.pool(Pool::Kernel).allocated(t1 as int));
                    let e1 = m.read_word(t1, i1);
                    assert(entry_ok(*m, tabs, t1 as int, i1 as int));
                    if pte_is_valid(e1) && !pte_is_leaf(e1) {
                        let t0 = pte_to_pa(e1);
                        proof {
                            lemma_slot_va(i2 as int, i1 as int, 0);
                            assert(on_path(*m, root, slot_va(i2 as int, i1 as int, 0), t0 as int));
                            assert(tree_tables(*m, root).contains(t0));
                            assert(tabs[t0 as int] == (0int, i2 * 512 + i1));
                            assert forall|k: int| 0 <= k < ts@.len() implies ts@[k] != t0 by {
                                if k > 0 {
                                    let t = ts@[k] as int;
                                    assert(tabs.contains_key(t));
                                }
                            }
                        }
                        let ghost ts_before = ts@;
                        ts.push(t0);
                        proof {
                            broadcast use vstd::seq_lib::lemma_seq_contains_after_push;
                            assert(ts@[0] == rt);
                            assert(ts_before.contains(t1));
                            assert(ts@.contains(t1));
                            assert(ts@.contains(t0));
                            assert forall|va: int, q: usize| (vpn(va, 2) < i2 || (vpn(va, 2) == i2 && vpn(va, 1) < i1))
                                && #[trigger] on_path(*m, root, va, q as int) implies ts@.contains(q) by {
                                assert(ts_before.contains(q));
                            }
                        }
                        let mut i0: usize = 0;
                        while i0 < 512
                            invariant
                                self.wf(*m),
                                root == self.root_pa(),
                                tabs == self.tables@,
                                tables_ok(*m, tabs),
                                m.wf(),
                                user_leaves_owned(*m, root),
                                i2 < 512,
                                i1 < 512,
                                i0 <= 512,
                                link_at(*m, root, i2 as int) == Some(t1 as int),
                                link_at(*m, t1 as int, i1 as int) == Some(t0 as int),
                                tabs.contains_key(t0 as int),
                                tabs[t0 as int] == (0int, i2 * 512 + i1),
                                ls@.no_duplicates(),
                                wit.len() == ls@.len(),
                                forall|k: int| 0 <= k < ls@.len() ==> user_leaf(*m, root, #[trigger] wit[k]) == Some(ls@[k])
                                    && vpage(wit[k]) < i2 * 0x4_0000 + i1 * 512 + i0,
                                forall|va: int| (vpn(va, 2) < i2 || (vpn(va, 2) == i2 && vpn(va, 1) < i1)
                                    || (vpn(va, 2) == i2 && vpn(va, 1) == i1 && vpn(va, 0) < i0))
                                    && #[trigger] user_leaf(*m, root, va) is Some ==> ls@.contains(user_leaf(*m, root, va)->0),
                            decreases 512 - i0,
                        {
                            assert(m.pool(Pool::Kernel).allocated(t0 as int));
                            let e0 = m.read_word(t0, i0);
                            assert(entry_ok(*m, tabs, t0 as int, i0 as int));
                            let ghost va = slot_va(i2 as int, i1 as int, i0 as int);
                            proof {
                                lemma_slot_va(i2 as int, i1 as int, i0 as int);
                                lemma_user_leaf_links(*m, root, va);
                            }
                            if pte_is_valid(e0) && pte_is_leaf(e0) {
                                let pa = pte_to_pa(e0);
                                if m.is_user_page(pa) {
                                    proof {
                                        assert(user_leaf(*m, root, va) == Some(pa));
                                        assert forall|k: int| 0 <= k < ls@.len() implies ls@[k] != pa by {
                                            if ls@[k] == pa {
                                                assert(user_leaf(*m, root, wit[k]) == Some(pa));
                                                assert(vpage(wit[k]) == vpage(va));
                                            }
                                        }
                                        wit = wit.push(va);
                                    }
                                    ls.push(pa);
                                }
                            }
                            proof {
                                broadcast use vstd::seq_lib::lemma_seq_contains_after_push;
                                assert forall|x: int| (vpn(x, 2) < i2 || (vpn(x, 2) == i2 && vpn(x, 1) < i1)
                                    || (vpn(x, 2) == i2 && vpn(x, 1) == i1 && vpn(x, 0) < i0 + 1))
                                    && #[trigger] user_leaf(*m, root, x) is Some implies ls@.contains(user_leaf(*m, root, x)->0) by {
                                    if vpn(x, 2) == i2 && vpn(x, 1) == i1 && vpn(x, 0) == i0 {
                                        lemma_user_leaf_links(*m, root, x);
                                    }
                                }
                            }
                            i0 = i0 + 1;
                        }
                    }
                    proof {
                        assert forall|va: int, q: usize| (vpn(va, 2) < i2 || (vpn(va, 2) == i2 && vpn(va, 1) < i1 + 1))
                            && #[trigger] on_path(*m, root, va, q as int) implies ts@.contains(q) by {
                            if vpn(va, 2) == i2 && vpn(va, 1) == i1 {
                                assert(ts@[0] == rt);
                                assert(ts@.contains(rt));
                            }
                        }
                        assert forall|x: int| (vpn(x, 2) < i2 || (vpn(x, 2) == i2 && vpn(x, 1) < i1 + 1))
                            && #[trigger] user_leaf(*m, root, x) is Some implies ls@.contains(user_leaf(*m, root, x)->0) by {
                            lemma_vpn_range(x, 0);
                            if vpn(x, 2) == i2 && vpn(x, 1) == i1 {
                                lemma_user_leaf_links(*m, root, x);
                            }
                        }
                    }
                    i1 = i1 + 1;
                }
            }
            proof {
                assert forall|va: int, q: usize| vpn(va, 2) < i2 + 1 && #[trigger] on_path(*m, root, va, q as int)
                    implies ts@.contains(q) by {
                    lemma_vpn_range(va, 1);
                    if vpn(va, 2) == i2 {
                        assert(ts@[0] == rt);
                        assert(ts@.contains(rt));
                    }
                }
                assert forall|x: int| vpn(x, 2) < i2 + 1 && #[trigger] user_leaf(*m, root, x) is Some
                    implies ls@.contains(user_leaf(*m, root, x)->0) by {
                    lemma_vpn_range(x, 1);
                    if vpn(x, 2) == i2 {
                        lemma_user_leaf_links(*m, root, x);
                    }
                }
            }
            i2 = i2 + 1;
        }
        proof {
            assert forall|q: usize| #[trigger] ts@.to_set().contains(q) <==> tree_tables(*m, root).contains(q) by {
                if tree_tables(*m, root).contains(q) {
                    let va = choose|va: int| #[trigger] on_path(*m, root, va, q as int);
                    lemma_vpn_range(va, 2);
                }
                if ts@.to_set().contains(q) {
                    let k = choose|k: int| 0 <= k < ts@.len() && ts@[k] == q;
                    assert(tree_tables(*m, root).contains(ts@[k]));
                }
            }
            assert(ts@.to_set() =~= tree_tables(*m, root));
            assert forall|p: usize| #[trigger] ls@.to_set().contains(p) <==> user_leaf_pages(*m, root).contains(p) by {
                if user_leaf_pages(*m, root).contains(p) {
                    let va = choose|va: int| #[trigger] user_leaf(*m, root, va) == Some(p);
                    lemma_vpn_range(va, 2);
                }
                if ls@.to_set().contains(p) {
                    let k = choose|k: int| 0 <= k < ls@.len() && ls@[k] == p;
                    assert(user_leaf(*m, root, wit[k]) == Some(p));
                }
            }
            assert(ls@.to_set() =~= user_leaf_pages(*m, root));
            assert forall|k: int| 0 <= k < ts@.len() implies m.pool(Pool::Kernel).allocated(#[trigger] ts@[k] as int) by {
                if k > 0 {
                    assert(tabs.contains_key(ts@[k] as int));
                }
            }
        }
        (ts, ls)
    }
}

/// A line of a table dump: the level of the table, the index of the entry, the address
/// it points at and its ten flag bits.
pub open spec fn dump_row(level: int, i: int, e: u64) -> (usize, usize, usize, u64) {
    (level as usize, i as usize, pte_pa(e) as usize, e % 1024)
}

/// The dump of the first `i` entries of the table `t` of level `level`: each valid entry,
/// followed, for a link, by the dump of the table it links to.
pub open spec fn dump_upto(m: Pmem, t: int, level: nat, i: nat) -> Seq<(usize, usize, usize, u64)>
    decreases level, i,
{
    if i == 0 {
        Seq::empty()
    } else {
        let j = (i - 1) as nat;
        let e = m.word(t, j as int);
        dump_upto(m, t, level, j) + if pte_valid(e) {
            seq![dump_row(level as int, j as int, e)] + if level > 0 && !pte_leaf(e) {
                dump_upto(m, pte_pa(e), (level - 1) as nat, 512)
            } else {
                Seq::empty()
            }
        } else {
            Seq::empty()
        }
    }
}

impl PageTable {
    /// The dump of the whole table, root first, entries in index order, each link
    /// followed by the table it links to.
    pub fn print(&self, m: &Pmem) -> (rows: Vec<(usize, usize, usize, u64)>)
        requires
            self.wf(*m),
        ensures
            rows@ == dump_upto(*m, self.root_pa(), 2, 512),
    {
        let ghost root = self.root_pa();
        let ghost tabs = self.tables@;
        let rt = self.root * PAGE_SIZE;
        let mut out: Vec<(usize, usize, usize, u64)> = Vec::new();
        let mut i2: usize = 0;
        while i2 < 512
            invariant
                self.wf(*m),
                m.wf(),
                rt == root,
                root == self.root_pa(),
                tabs == self.tables@,
                tabs.contains_key(root),
                tabs[root] == (2int, 0int),
                tables_ok(*m, tabs),
                i2 <= 512,
                out@ == dump_upto(*m, root, 2, i2 as nat),
            decreases 512 - i2,
        {
            assert(m.pool(Pool::Kernel).allocated(rt as int));
            let e2 = m.read_word(rt, i2);
            assert(entry_ok(*m, tabs, root, i2 as int));
            let ghost base2 = out@;
            if pte_is_valid(e2) {
                out.push((2, i2, pte_to_pa(e2), e2 & 1023));
                proof {
                    lemma_pte_bits(e2);
                }
                if !pte_is_leaf(e2) {
                    let t1 = pte_to_pa(e2);
                    let mut i1: usize = 0;
                    while i1 < 512
                        invariant
                            m.wf(),
                            tabs == self.tables@,
                            tables_ok(*m, tabs),
                            tabs.contains_key(t1 as int),
                            tabs[t1 as int].0 == 1,
                            i1 <= 512,
                            out@ == base2 + seq![dump_row(2, i2 as int, e2)] + dump_upto(*m, t1 as int, 1, i1 as nat),
                        decreases 512 - i1,
                    {
                        assert(m.pool(Pool::Kernel).allocated(t1 as int));
                        let e1 = m.read_word(t1, i1);
                        assert(entry_ok(*m, tabs, t1 as int, i1 as int));
                        let ghost base1 = out@;
                        if pte_is_valid(e1) {
                            out.push((1, i1, pte_to_pa(e1), e1 & 1023));
                            proof {
                                lemma_pte_bits(e1);
                            }
                            if !pte_is_leaf(e1) {
                                let t0 = pte_to_pa(e1);
                                let mut i0: usize = 0;
                                while i0 < 512
                                    invariant
                                        m.wf(),
                                        tabs == self.tables@,
                                        tables_ok(*m, tabs),
                                        tabs.contains_key(t0 as int),
                                        i0 <= 512,
                                        out@ == base1 + seq![dump_row(1, i1 as int, e1)] + dump_upto(*m, t0 as int, 0, i0 as nat),
                                    decreases 512 - i0,
                                {
                                    assert(m.pool(Pool::Kernel).allocated(t0 as int));
                                    let e0 = m.read_word(t0, i0);
                                    assert(entry_ok(*m, tabs, t0 as int, i0 as int));
                                    let ghost base0 = out@;
                                    if pte_is_valid(e0) {
                                        out.push((0, i0, pte_to_pa(e0), e0 & 1023));
                                        proof {
                                            lemma_pte_bits(e0);
                                        }
                                    }
                                    proof {
                                        assert(out@ =~= base1 + seq![dump_row(1, i1 as int, e1)] + dump_upto(*m, t0 as int, 0, (i0 + 1) as nat));
                                    }
                                    i0 = i0 + 1;
                                }
                            }
                        }
                        proof {
                            assert(out@ =~= base2 + seq![dump_row(2, i2 as int, e2)] + dump_upto(*m, t1 as int, 1, (i1 + 1) as nat));
                        }
                        i1 = i1 + 1;
                    }
                }
            }
            proof {
                assert(out@ =~= dump_upto(*m, root, 2, (i2 + 1) as nat));
            }
            i2 = i2 + 1;
        }
        out
    }
}

/// A walk ends only at a valid leaf entry.
pub proof fn lemma_walk_ends_at_leaf(m: Pmem, t: int, level: nat, va: int)
    ensures
        walk_from(m, t, level, va) matches Some((e, _)) ==> pte_valid(e) && pte_leaf(e),
    decreases level,
{
    let e = m.word(t, vpn(va, level as int));
    if pte_valid(e) && !pte_leaf(e) && level > 0 {
        lemma_walk_ends_at_leaf(m, pte_pa(e), (level - 1) as nat, va);
    }
}

/// Keeping the bits R, W, X, U, G, A, D of an entry gives ten flag bits that are a leaf
/// exactly when the entry is.
pub proof fn lemma_copy_flags(e: u64)
    ensures
        (e & 254) < 1024,
        pte_leaf(e & 254) == pte_leaf(e),
        ((e & 254) | PTE_V) < 1024,
{
    assert((e & 254) < 1024 && (((e & 254) / 2) % 8 == (e / 2) % 8) && ((e & 254) | 1) < 1024) by (bit_vector);
}

}
