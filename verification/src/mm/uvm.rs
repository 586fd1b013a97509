//! User memory seen from the kernel: the layout of a user address space, and the
//! only way the kernel reads or writes user memory, through the running process's
//! page table and never by a raw address.
use vstd::prelude::*;
use crate::mm::pmem::{Pmem, Pool, PAGE_SIZE, PAGE_WORDS, word_index, with_byte, user_words_kept, page_of, lemma_byte_via_word, alloc_result};
use crate::mm::vm::{checked_translate, checked_walk_from, translate_at, pte_valid, pte_leaf, pte_pa, pte_of, vpn,
    PageTable, walk, va39, create_need, lemma_page_slot, lemma_pte_of, lemma_checked_translate, kvm_create_process_table,
    lemma_map_spares, lemma_unmapped_need, lemma_copy_flags, same_slot, pte_to_pa, tree_tables, user_leaf_pages,
    user_leaves_owned,
    tables_grow, process_table_pages, PTE_R, PTE_W, PTE_U, PTE_V, VA_LIMIT};
use crate::proc::proc::{Proc, ProcTable, NCPU, NPROC, current_slot};
use crate::elf::{load_segment, last_load, last_load_at, loads_to, lemma_last_load_unique};

verus! {

/// Size of the initial user stack: one page.
pub const USER_STACK_SIZE: usize = PAGE_SIZE;

/// Where user programs are loaded; page 0 stays unmapped so that a null access faults.
pub const USER_BASE: usize = 0x1000;

/// Fixed address of the user stack: above the code, below the lowest device address.
pub const USER_STACK_BASE: usize = 0x0010_0000;

/// Physical address of the root table of the process the CPU runs (0: none).
pub open spec fn current_root(t: ProcTable, cpu: Option<usize>) -> int {
    match current_slot(t, cpu) {
        Some(pid) => t.procs@[pid as int].pgtbl as int,
        None => 0,
    }
}

/// The physical address a user access to `va` reaches through the root table at
/// `root`; a root of 0 means no table.
pub open spec fn user_pa(m: Pmem, root: int, va: int) -> Option<int> {
    if root == 0 {
        None
    } else {
        checked_translate(m, root, va)
    }
}

/// What a user read of `va` gives: `None` for an address at or above `kernel_base`,
/// an unmapped one, or one that leads outside memory.
pub open spec fn user_byte(m: Pmem, root: int, kernel_base: int, va: int) -> Option<u8> {
    if va >= kernel_base {
        None
    } else {
        match user_pa(m, root, va) {
            Some(pa) => if m.holds_byte(pa) { Some(m.byte(pa)) } else { None },
            None => None,
        }
    }
}

/// `m1` is `m0` with the byte at `pa` set to `b`.
pub open spec fn byte_written(m0: Pmem, m1: Pmem, pa: int, b: u8) -> bool {
    &&& m1.wf()
    &&& m1.pool(Pool::Kernel) == m0.pool(Pool::Kernel)
    &&& m1.pool(Pool::User) == m0.pool(Pool::User)
    &&& m1.mem_base() == m0.mem_base()
    &&& m1.inited_spec() == m0.inited_spec()
    &&& m1.mem() == m0.mem().update(word_index(m0.mem_base(), pa),
            with_byte(m0.mem()[word_index(m0.mem_base(), pa)], (pa - m0.mem_base()) % 8, b))
}

/// Translates a user address with the page table of the process the CPU numbered
/// `cpu` runs; `None` when it runs none, the process has no table, or `va` is unmapped.
pub fn user_translate(procs: &ProcTable, cpu: Option<usize>, m: &Pmem, va: usize) -> (r: Option<usize>)
    requires
        procs.wf(),
        cpu matches Some(c) ==> c < NCPU,
        m.wf(),
    ensures
        r matches Some(pa) ==> user_pa(*m, current_root(*procs, cpu), va as int) == Some(pa as int),
        r is None ==> user_pa(*m, current_root(*procs, cpu), va as int) is None,
{
    let p = match procs.current(cpu) {
        None => return None,
        Some(p) => p,
    };
    if p.pgtbl == 0 {
        return None;
    }
    translate_at(m, p.pgtbl, va)
}

/// Reads the byte at user address `va`; `None` when the address is not below
/// `kernel_base` or does not lead to memory.
pub fn copy_from_user(procs: &ProcTable, cpu: Option<usize>, m: &Pmem, kernel_base: usize, va: usize) -> (r: Option<u8>)
    requires
        procs.wf(),
        cpu matches Some(c) ==> c < NCPU,
        m.wf(),
    ensures
        r == user_byte(*m, current_root(*procs, cpu), kernel_base as int, va as int),
{
    if va >= kernel_base {
        return None;
    }
    let pa = match user_translate(procs, cpu, m, va) {
        None => return None,
        Some(pa) => pa,
    };
    if !m.has_byte(pa) {
        return None;
    }
    Some(m.read_byte(pa))
}

/// Writes the byte `b` at user address `va`; `None`, with memory unchanged, where a
/// read of `va` would give `None`.
pub fn copy_to_user(procs: &ProcTable, cpu: Option<usize>, m: &mut Pmem, kernel_base: usize, va: usize, b: u8) -> (r: Option<()>)
    requires
        procs.wf(),
        cpu matches Some(c) ==> c < NCPU,
        old(m).wf(),
    ensures
        r is Some <==> user_byte(*old(m), current_root(*procs, cpu), kernel_base as int, va as int) is Some,
        r is None ==> *final(m) == *old(m),
        r is Some ==> ({
            let pa = user_pa(*old(m), current_root(*procs, cpu), va as int)->0;
            byte_written(*old(m), *final(m), pa, b)
        }),
{
    if va >= kernel_base {
        return None;
    }
    let pa = match user_translate(procs, cpu, m, va) {
        None => return None,
        Some(pa) => pa,
    };
    if !m.has_byte(pa) {
        return None;
    }
    m.write_byte(pa, b);
    Some(())
}

/// Byte `i` of the user string at `va`, as a user read gives it.
pub open spec fn user_byte_at(m: Pmem, root: int, kernel_base: int, va: int, i: int) -> Option<u8> {
    user_byte(m, root, kernel_base, va + i)
}

/// A byte of a string before its end: a readable byte other than NUL.
pub open spec fn is_text(o: Option<u8>) -> bool {
    match o {
        Some(b) => b != 0,
        None => false,
    }
}

/// The first `k` bytes of the user string at `va` are readable and not NUL.
pub open spec fn text_run(m: Pmem, root: int, kernel_base: int, va: int, k: int) -> bool {
    forall|i: int| 0 <= i < k ==> is_text(#[trigger] user_byte_at(m, root, kernel_base, va, i))
}

/// A copy into `n` bytes stops at `k`: the bytes before it are text, and `k` is the
/// limit `n`, an unreadable byte, or the NUL.
pub open spec fn copy_stops_at(m: Pmem, root: int, kernel_base: int, va: int, n: int, k: int) -> bool {
    &&& 0 <= k <= n
    &&& text_run(m, root, kernel_base, va, k)
    &&& (k == n || !is_text(user_byte_at(m, root, kernel_base, va, k)))
}

/// Copies the NUL-terminated user string at `va` into `dst`, at most `dst.len()`
/// bytes, the NUL included. True when the NUL was copied; false when a byte could not
/// be read or `dst` filled up first. Bytes of `dst` past the stop are left as they were.
pub fn copy_str_from_user(procs: &ProcTable, cpu: Option<usize>, m: &Pmem, kernel_base: usize, va: usize, dst: &mut [u8]) -> (r: bool)
    requires
        procs.wf(),
        cpu matches Some(c) ==> c < NCPU,
        m.wf(),
        va + old(dst)@.len() <= usize::MAX + 1,
    ensures
        final(dst)@.len() == old(dst)@.len(),
        forall|k: int| #[trigger] copy_stops_at(*m, current_root(*procs, cpu), kernel_base as int, va as int, old(dst)@.len() as int, k) ==> {
            let root = current_root(*procs, cpu);
            &&& r == (k < old(dst)@.len() && user_byte_at(*m, root, kernel_base as int, va as int, k) == Some(0u8))
            &&& forall|i: int| 0 <= i < old(dst)@.len() ==> #[trigger] final(dst)@[i] == if i < k {
                user_byte_at(*m, root, kernel_base as int, va as int, i)->0
            } else if i == k && r {
                0u8
            } else {
                old(dst)@[i]
            }
        },
{
    let ghost root = current_root(*procs, cpu);
    let ghost d0 = dst@;
    let n = dst.len();
    let mut i: usize = 0;
    while i < n
        invariant
            procs.wf(),
            cpu matches Some(c) ==> c < NCPU,
            m.wf(),
            root == current_root(*procs, cpu),
            n == d0.len(),
            d0 == old(dst)@,
            dst@.len() == n,
            va + n <= usize::MAX + 1,
            i <= n,
            text_run(*m, root, kernel_base as int, va as int, i as int),
            forall|j: int| 0 <= j < n ==> #[trigger] dst@[j] == if j < i {
                user_byte_at(*m, root, kernel_base as int, va as int, j)->0
            } else {
                d0[j]
            },
        decreases n - i,
    {
        match copy_from_user(procs, cpu, m, kernel_base, va + i) {
            Some(0) => {
                dst[i] = 0;
                proof {
                    lemma_stop_unique(*m, root, kernel_base as int, va as int, n as int, i as int);
                }
                return true;
            },
            Some(b) => {
                dst[i] = b;
            },
            None => {
                proof {
                    lemma_stop_unique(*m, root, kernel_base as int, va as int, n as int, i as int);
                }
                return false;
            },
        }
        i = i + 1;
    }
    proof {
        lemma_stop_unique(*m, root, kernel_base as int, va as int, n as int, n as int);
    }
    false
}

/// A copy stops at one place only.
proof fn lemma_stop_unique(m: Pmem, root: int, kernel_base: int, va: int, n: int, k: int)
    requires
        copy_stops_at(m, root, kernel_base, va, n, k),
    ensures
        forall|j: int| #[trigger] copy_stops_at(m, root, kernel_base, va, n, j) ==> j == k,
{
    assert forall|j: int| #[trigger] copy_stops_at(m, root, kernel_base, va, n, j) implies j == k by {
        if j < k {
            assert(is_text(user_byte_at(m, root, kernel_base, va, j)));
        } else if j > k {
            assert(is_text(user_byte_at(m, root, kernel_base, va, k)));
        }
    }
}

/// A byte written in the user pool leaves every word of every kernel page.
pub proof fn lemma_user_write_keeps_kernel(m0: Pmem, m1: Pmem, pa: int, b: u8, t: int, i: int)
    requires
        m0.wf(),
        m0.holds_byte(pa),
        pa >= m0.pool(Pool::User).begin(),
        byte_written(m0, m1, pa, b),
        m0.pool(Pool::Kernel).owns(t),
        0 <= i < PAGE_WORDS,
    ensures
        m1.word(t, i) == m0.word(t, i),
{
    m0.lemma_pool_layout();
    m0.lemma_pool_pages_in_mem(Pool::Kernel, t);
    let base = m0.mem_base();
    let wt = word_index(base, t) + i;
    let wp = word_index(base, pa);
    assert(wt < wp) by {
        let ub = m0.pool(Pool::User).begin();
        vstd::arithmetic::div_mod::lemma_fundamental_div_mod(t - base, 8);
        vstd::arithmetic::div_mod::lemma_fundamental_div_mod(pa - base, 8);
        vstd::arithmetic::div_mod::lemma_fundamental_div_mod(ub - base, 8);
        vstd::arithmetic::div_mod::lemma_mod_multiples_vanish((t - base) / 4096, 0, 8);
        assert((t - base) % 8 == 0) by {
            vstd::arithmetic::div_mod::lemma_fundamental_div_mod(t - base, 4096);
            vstd::arithmetic::div_mod::lemma_mod_breakdown(t - base, 8, 512);
        }
    }
}

/// A walk that only reads kernel-pool pages is blind to a write in the user pool.
pub proof fn lemma_walk_ignores_user_write(m0: Pmem, m1: Pmem, pa: int, b: u8, t: int, level: nat, va: int)
    requires
        m0.wf(),
        m0.holds_byte(pa),
        pa >= m0.pool(Pool::User).begin(),
        byte_written(m0, m1, pa, b),
    ensures
        checked_walk_from(m1, t, level, va) == checked_walk_from(m0, t, level, va),
    decreases level,
{
    if m0.pool(Pool::Kernel).owns(t) {
        let i = vpn(va, level as int);
        assert(0 <= i < 512);
        lemma_user_write_keeps_kernel(m0, m1, pa, b, t, i);
        let e = m0.word(t, i);
        if pte_valid(e) && !pte_leaf(e) && level > 0 {
            lemma_walk_ignores_user_write(m0, m1, pa, b, pte_pa(e), (level - 1) as nat, va);
        }
    }
}

/// A byte written through a user address into the user pool reads back at that
/// address, leaves every translation as it was, and changes what no other address reads.
pub proof fn lemma_user_read_after_write(m0: Pmem, m1: Pmem, root: int, kernel_base: int, va: int, b: u8, x: int)
    requires
        m0.wf(),
        user_byte(m0, root, kernel_base, va) is Some,
        user_pa(m0, root, va)->0 >= m0.pool(Pool::User).begin(),
        byte_written(m0, m1, user_pa(m0, root, va)->0, b),
    ensures
        user_pa(m1, root, x) == user_pa(m0, root, x),
        user_byte(m1, root, kernel_base, va) == Some(b),
        user_pa(m0, root, x) != user_pa(m0, root, va) ==> user_byte(m1, root, kernel_base, x) == user_byte(m0, root, kernel_base, x),
{
    let pa = user_pa(m0, root, va)->0;
    lemma_walk_ignores_user_write(m0, m1, pa, b, root, 2, x);
    lemma_walk_ignores_user_write(m0, m1, pa, b, root, 2, va);
    crate::mm::pmem::lemma_byte_write(m0, m1, pa, b, pa);
    if x < kernel_base {
        if let Some(q) = user_pa(m0, root, x) {
            if m0.holds_byte(q) {
                crate::mm::pmem::lemma_byte_write(m0, m1, pa, b, q);
            }
        }
    }
}


/// Permissions of heap pages: readable, writable, user.
pub const HEAP_PERMS: u64 = 22;

/// The page that the `k`-th allocation from the user pool of `m` hands out.
pub open spec fn next_user_page(m: Pmem, k: int) -> usize {
    m.pool(Pool::User).free()[m.pool(Pool::User).free().len() - 1 - k]
}

/// The leaf entry of a heap page at `pa`.
pub open spec fn heap_leaf(pa: int) -> u64 {
    pte_of(pa, (HEAP_PERMS | PTE_V) as int) as u64
}

/// `m1` is `m0` with the pages `[start, start + 4096 k)` of the table at `root` mapped in
/// order to the first `k` pages that the user pool of `m0` hands out, each taken from the
/// pool and zeroed; every other address translates as before.
pub open spec fn heap_pages_mapped(m0: Pmem, m1: Pmem, root: int, start: int, k: int) -> bool {
    &&& 0 <= k <= m0.pool(Pool::User).free().len()
    &&& m1.pool(Pool::User).free() == m0.pool(Pool::User).free().subrange(0, m0.pool(Pool::User).free().len() - k)
    &&& forall|x: int| x >= 0 ==> #[trigger] walk(m1, root, x) == if start <= va39(x) < start + 4096 * k {
        Some((heap_leaf(next_user_page(m0, (va39(x) - start) / 4096) as int), 0int))
    } else {
        walk(m0, root, x)
    }
    &&& forall|j: int, i: int| 0 <= j < k && 0 <= i < PAGE_WORDS ==> #[trigger] m1.word(next_user_page(m0, j) as int, i) == 0
}

/// What a heap change keeps of physical memory: the pool bounds, the kernel pages
/// already handed out, and the layout of the memory model.
pub open spec fn heap_frame(m0: Pmem, m1: Pmem) -> bool {
    &&& m1.pool(Pool::User).begin() == m0.pool(Pool::User).begin()
    &&& m1.pool(Pool::User).end() == m0.pool(Pool::User).end()
    &&& m1.pool(Pool::Kernel).begin() == m0.pool(Pool::Kernel).begin()
    &&& m1.pool(Pool::Kernel).end() == m0.pool(Pool::Kernel).end()
    &&& forall|q: int| m0.pool(Pool::Kernel).allocated(q) ==> #[trigger] m1.pool(Pool::Kernel).allocated(q)
    &&& m1.mem_base() == m0.mem_base()
    &&& m1.mem().len() == m0.mem().len()
    &&& m1.inited_spec() == m0.inited_spec()
}

/// A heap top of `top + len` stays inside the 39-bit user address space (and leaves
/// room to round it up to a page).
pub open spec fn grow_in_range(top: int, len: int) -> bool {
    top + len <= VA_LIMIT && top + len <= usize::MAX - PAGE_SIZE
}

/// `v` rounded up to a page boundary.
pub open spec fn page_up(v: int) -> int {
    (v + 4095) / 4096 * 4096
}

/// Mapping the page at `va` through the table at `root` in `m` cannot be done: a larger
/// leaf covers it, or the kernel pool lacks the table pages it needs.
pub open spec fn map_blocked(m: Pmem, root: int, va: int) -> bool {
    let need = create_need(m, root, va, 0);
    need.1 || m.pool(Pool::Kernel).free().len() < need.0
}

/// One more heap page: the next user page was handed out (`m1` to `m2`) and mapped at
/// `va`, the page after the `k` already mapped (`m2` to `m3`).
proof fn lemma_heap_step(m0: Pmem, m1: Pmem, m2: Pmem, m3: Pmem, root: int, start: int, k: int, va: int, pa: usize)
    requires
        m0.wf(),
        m1.wf(),
        m0.pool(Pool::User).free().no_duplicates(),
        heap_frame(m0, m1),
        heap_pages_mapped(m0, m1, root, start, k),
        crate::mm::pmem::alloc_result(m1, m2, Pool::User, pa),
        pa != 0,
        pa == next_user_page(m0, k),
        forall|x: int| #[trigger] walk(m2, root, x) == walk(m1, root, x),
        forall|x: int| #[trigger] walk(m3, root, x) == if crate::mm::vm::same_slot(x, va, 0) {
            Some((heap_leaf(pa as int), 0int))
        } else {
            walk(m2, root, x)
        },
        user_words_kept(m2, m3),
        m3.pool(Pool::User) == m2.pool(Pool::User),
        va == start + 4096 * k,
        0 <= va < VA_LIMIT,
        va % 4096 == 0,
    ensures
        heap_pages_mapped(m0, m3, root, start, k + 1),
{
    let l0 = m0.pool(Pool::User).free().len();
    assert(m1.pool(Pool::User).free().len() > 0);
    assert(m3.pool(Pool::User).free() =~= m0.pool(Pool::User).free().subrange(0, l0 - (k + 1)));
    m0.lemma_free_distinct(Pool::User);
    assert forall|j: int, i: int| 0 <= j < k + 1 && 0 <= i < PAGE_WORDS implies
        #[trigger] m3.word(next_user_page(m0, j) as int, i) == 0 by {
        let q = next_user_page(m0, j) as int;
        assert(m0.pool(Pool::User).owns(q));
        assert(m1.pool(Pool::User).owns(q));
        crate::mm::pmem::lemma_alloc_page_words(m1, m2, Pool::User, pa, q, i);
        if j < k {
            assert(next_user_page(m0, j) != next_user_page(m0, k));
        }
        assert(m2.pool(Pool::User).owns(q));
        assert(m3.word(q, i) == m2.word(q, i));
    }
    assert forall|x: int| x >= 0 implies #[trigger] walk(m3, root, x) == if start <= va39(x) < start + 4096 * (k + 1) {
        Some((heap_leaf(next_user_page(m0, (va39(x) - start) / 4096) as int), 0int))
    } else {
        walk(m0, root, x)
    } by {
        lemma_page_slot(x, va);
        assert(walk(m2, root, x) == walk(m1, root, x));
        if va <= va39(x) < va + 4096 {
            assert((va39(x) - start) / 4096 == k) by (nonlinear_arith)
                requires va == start + 4096 * k, va <= va39(x) < va + 4096;
        }
    }
}

/// A refused mapping of the next page, with that page given back to the pool (`m1` to
/// `m4`), leaves the `k` pages mapped before.
proof fn lemma_heap_refused(m0: Pmem, m1: Pmem, m2: Pmem, m3: Pmem, m4: Pmem, root: int, start: int, k: int, pa: usize)
    requires
        m0.wf(),
        m1.wf(),
        m0.pool(Pool::User).free().no_duplicates(),
        heap_frame(m0, m1),
        heap_pages_mapped(m0, m1, root, start, k),
        crate::mm::pmem::alloc_result(m1, m2, Pool::User, pa),
        pa != 0,
        pa == next_user_page(m0, k),
        forall|x: int| #[trigger] walk(m2, root, x) == walk(m1, root, x),
        forall|x: int| #[trigger] walk(m3, root, x) == walk(m2, root, x),
        forall|x: int| #[trigger] walk(m4, root, x) == walk(m3, root, x),
        user_words_kept(m2, m3),
        m3.pool(Pool::User) == m2.pool(Pool::User),
        crate::mm::pmem::free_result(m3, m4, Pool::User, pa),
    ensures
        heap_pages_mapped(m0, m4, root, start, k),
{
    let l0 = m0.pool(Pool::User).free().len();
    assert(m4.pool(Pool::User).free() =~= m0.pool(Pool::User).free().subrange(0, l0 - k));
    m0.lemma_free_distinct(Pool::User);
    assert forall|j: int, i: int| 0 <= j < k && 0 <= i < PAGE_WORDS implies
        #[trigger] m4.word(next_user_page(m0, j) as int, i) == 0 by {
        let q = next_user_page(m0, j) as int;
        assert(m0.pool(Pool::User).owns(q));
        assert(m1.pool(Pool::User).owns(q));
        crate::mm::pmem::lemma_alloc_page_words(m1, m2, Pool::User, pa, q, i);
        assert(next_user_page(m0, j) != next_user_page(m0, k));
        assert(m2.pool(Pool::User).owns(q));
        assert(m3.word(q, i) == m2.word(q, i));
    }
}

/// Maps a fresh zeroed page of the user pool, readable, writable and user, at every page
/// of `[start, end)`, in order. False when the user pool runs dry or a page cannot be
/// mapped; the pages before that one stay mapped.
pub fn map_fresh_pages(pt: &mut PageTable, m: &mut Pmem, start: usize, end: usize) -> (ok: bool)
    requires
        old(pt).wf(*old(m)),
        start % 4096 == 0,
        end % 4096 == 0,
        start <= end <= VA_LIMIT,
        old(pt).mapped_spec() + (end - start) / 4096 + 1 <= usize::MAX,
    ensures
        final(pt).wf(*final(m)),
        final(pt).root_pa() == old(pt).root_pa(),
        heap_frame(*old(m), *final(m)),
        final(pt).mapped_spec() <= old(pt).mapped_spec() + (end - start) / 4096,
        ok ==> heap_pages_mapped(*old(m), *final(m), old(pt).root_pa(), start as int, (end - start) / 4096),
        !ok ==> exists|k: int| {
            &&& 0 <= k < (end - start) / 4096
            &&& #[trigger] heap_pages_mapped(*old(m), *final(m), old(pt).root_pa(), start as int, k)
            &&& (final(m).pool(Pool::User).free().len() == 0
                || map_blocked(*final(m), old(pt).root_pa(), start + 4096 * k))
        },
{
    let ghost m0 = *m;
    let ghost root = pt.root_pa();
    let ghost n = (end - start) / 4096;
    proof {
        pt.lemma_wf_mem(*m);
        assert(start + 4096 * n == end) by (nonlinear_arith)
            requires n == (end - start) / 4096, start % 4096 == 0, end % 4096 == 0, start <= end;
        assert(m.pool(Pool::User).free() =~= m0.pool(Pool::User).free().subrange(0, m0.pool(Pool::User).free().len() as int));
        m0.lemma_free_distinct(Pool::User);
    }
    let mut va = start;
    let ghost mut k: int = 0;
    while va < end
        invariant
            m0 == *old(m),
            m0.wf(),
            m0.pool(Pool::User).free().no_duplicates(),
            m.wf(),
            pt.wf(*m),
            pt.root_pa() == root,
            root == old(pt).root_pa(),
            start <= va <= end,
            va == start + 4096 * k,
            start % 4096 == 0,
            end % 4096 == 0,
            end <= VA_LIMIT,
            n == (end - start) / 4096,
            start + 4096 * n == end,
            0 <= k <= n,
            pt.mapped_spec() + (n - k) + 1 <= usize::MAX,
            pt.mapped_spec() == old(pt).mapped_spec() + k,
            heap_frame(m0, *m),
            heap_pages_mapped(m0, *m, root, start as int, k),
            m.pool(Pool::User).free().len() == m0.pool(Pool::User).free().len() - k,
        decreases end - va,
    {
        let ghost m1 = *m;
        let pa = m.pmem_alloc(Pool::User);
        let ghost m2 = *m;
        proof {
            assert forall|q: int, i: int| m1.pool(Pool::Kernel).owns(q) && 0 <= i < PAGE_WORDS
                implies #[trigger] m2.word(q, i) == m1.word(q, i) by {
                crate::mm::pmem::lemma_user_alloc_keeps_kernel(m1, m2, pa, q, i);
            }
            pt.lemma_kernel_unchanged(m1, m2);
        }
        if pa == 0 {
            proof {
                assert(m2.pool(Pool::User).free() == m1.pool(Pool::User).free());
                assert forall|j: int, i: int| 0 <= j < k && 0 <= i < PAGE_WORDS implies
                    #[trigger] m2.word(next_user_page(m0, j) as int, i) == 0 by {
                    assert(m2.word(next_user_page(m0, j) as int, i) == m1.word(next_user_page(m0, j) as int, i));
                }
                assert(heap_pages_mapped(m0, m2, root, start as int, k));
            }
            return false;
        }
        proof {
            m1.lemma_free_distinct(Pool::User);
            m1.lemma_pool_pages_in_mem(Pool::User, pa as int);
            assert(pa == next_user_page(m0, k));
            assert(m2.pool(Pool::User).allocated(pa as int));
        }
        match pt.map(m, va, pa, HEAP_PERMS) {
            Ok(()) => {},
            Err(_) => {
                let ghost m3 = *m;
                proof {
                    pt.lemma_wf_mem(m3);
                }
                m.pmem_free(pa, Pool::User);
                proof {
                    pt.lemma_kernel_unchanged(m3, *m);
                    lemma_heap_refused(m0, m1, m2, m3, *m, root, start as int, k, pa);
                }
                return false;
            },
        }
        proof {
            pt.lemma_wf_mem(*m);
            lemma_heap_step(m0, m1, m2, *m, root, start as int, k, va as int, pa);
        }
        va = va + 4096;
        proof {
            k = k + 1;
        }
    }
    true
}

/// Grows the user heap from `cur_heap_top` by `len` bytes: every page from the page
/// boundary at or above the old top up to the one at or above the new top gets a fresh
/// zeroed page of the user pool, mapped readable, writable and user. Returns the new top.
/// `None` when the new top would leave the address space (nothing changes), or when the
/// user pool runs dry or a page cannot be mapped; the pages before that one stay mapped.
pub fn uvm_heap_grow(pt: &mut PageTable, m: &mut Pmem, cur_heap_top: usize, len: usize) -> (r: Option<usize>)
    requires
        old(pt).wf(*old(m)),
        old(pt).mapped_spec() + len / PAGE_SIZE + 2 <= usize::MAX,
    ensures
        final(pt).wf(*final(m)),
        final(pt).root_pa() == old(pt).root_pa(),
        heap_frame(*old(m), *final(m)),
        !grow_in_range(cur_heap_top as int, len as int) ==> r is None && *final(m) == *old(m),
        r matches Some(t) ==> t == cur_heap_top + len && heap_pages_mapped(*old(m), *final(m), old(pt).root_pa(),
            page_up(cur_heap_top as int), (page_up(cur_heap_top + len) - page_up(cur_heap_top as int)) / 4096),
        (r is None && grow_in_range(cur_heap_top as int, len as int)) ==> exists|k: int| {
            &&& 0 <= k < (page_up(cur_heap_top + len) - page_up(cur_heap_top as int)) / 4096
            &&& #[trigger] heap_pages_mapped(*old(m), *final(m), old(pt).root_pa(), page_up(cur_heap_top as int), k)
            &&& (final(m).pool(Pool::User).free().len() == 0
                || map_blocked(*final(m), old(pt).root_pa(), page_up(cur_heap_top as int) + 4096 * k))
        },
{
    if len > usize::MAX - cur_heap_top {
        return None;
    }
    let new_top = cur_heap_top + len;
    if new_top as u64 > VA_LIMIT || new_top > usize::MAX - PAGE_SIZE {
        return None;
    }
    let start = (cur_heap_top + 4095) / 4096 * 4096;
    let end = (new_top + 4095) / 4096 * 4096;
    proof {
        assert(start <= end) by (nonlinear_arith)
            requires start == (cur_heap_top + 4095) / 4096 * 4096, end == (new_top + 4095) / 4096 * 4096,
                cur_heap_top <= new_top;
        assert(start % 4096 == 0 && end % 4096 == 0) by (nonlinear_arith)
            requires start == (cur_heap_top + 4095) / 4096 * 4096, end == (new_top + 4095) / 4096 * 4096;
        assert((end - start) / 4096 <= len / 4096 + 1) by (nonlinear_arith)
            requires start == (cur_heap_top + 4095) / 4096 * 4096, end == (new_top + 4095) / 4096 * 4096,
                new_top == cur_heap_top + len;
        assert(end <= VA_LIMIT) by (nonlinear_arith)
            requires end == (new_top + 4095) / 4096 * 4096, new_top <= 0x80_0000_0000;
    }
    let ghost m0 = *m;
    let ghost root = pt.root_pa();
    assert(start == page_up(cur_heap_top as int) && end == page_up(new_top as int));
    if map_fresh_pages(pt, m, start, end) {
        Some(new_top)
    } else {
        proof {
            let k = choose|k: int| {
                &&& 0 <= k < (end - start) / 4096
                &&& #[trigger] heap_pages_mapped(m0, *m, root, start as int, k)
                &&& (m.pool(Pool::User).free().len() == 0 || map_blocked(*m, root, start + 4096 * k))
            };
            assert(heap_pages_mapped(m0, *m, root, page_up(cur_heap_top as int), k));
        }
        None
    }
}


/// Pages set aside below the top of the user stack for it to grow into.
pub const STACK_RESERVE_PAGES: usize = 4096;

/// A fault at `fault` is one the stack of `npage` pages under `stack_top` grows for: the
/// stack is within its reserve, and the address lies below the stack and within the reserve.
pub open spec fn stack_fault_ok(stack_top: int, npage: int, fault: int) -> bool {
    &&& npage <= STACK_RESERVE_PAGES
    &&& stack_top - 4096 * STACK_RESERVE_PAGES <= fault < stack_top - 4096 * npage
}

/// Grows the user stack below `stack_top`, now `old_ustack_npage` pages, down to the page
/// of `fault_addr` when that is a stack growth: fresh zeroed user pages are mapped from
/// that page up to the old bottom, and the new page count is returned. `None`, with
/// nothing changed, for an address the stack does not grow to; `None` also when the user
/// pool runs dry or a page cannot be mapped, the pages above it staying mapped.
pub fn uvm_ustack_grow(pt: &mut PageTable, m: &mut Pmem, stack_top: usize, old_ustack_npage: usize, fault_addr: usize) -> (r: Option<usize>)
    requires
        old(pt).wf(*old(m)),
        stack_top % 4096 == 0,
        4096 * STACK_RESERVE_PAGES <= stack_top <= VA_LIMIT,
        old(pt).mapped_spec() + STACK_RESERVE_PAGES + 1 <= usize::MAX,
    ensures
        final(pt).wf(*final(m)),
        final(pt).root_pa() == old(pt).root_pa(),
        heap_frame(*old(m), *final(m)),
        !stack_fault_ok(stack_top as int, old_ustack_npage as int, fault_addr as int) ==> r is None && *final(m) == *old(m),
        r matches Some(n) ==> {
            let low = fault_addr / 4096 * 4096;
            &&& n == (stack_top - low) / 4096
            &&& heap_pages_mapped(*old(m), *final(m), old(pt).root_pa(), low as int, (stack_top - 4096 * old_ustack_npage - low) / 4096)
        },
        (r is None && stack_fault_ok(stack_top as int, old_ustack_npage as int, fault_addr as int)) ==> exists|k: int| {
            &&& 0 <= k < (stack_top - 4096 * old_ustack_npage - fault_addr / 4096 * 4096) / 4096
            &&& #[trigger] heap_pages_mapped(*old(m), *final(m), old(pt).root_pa(), fault_addr / 4096 * 4096, k)
            &&& (final(m).pool(Pool::User).free().len() == 0
                || map_blocked(*final(m), old(pt).root_pa(), fault_addr / 4096 * 4096 + 4096 * k))
        },
{
    if old_ustack_npage > STACK_RESERVE_PAGES {
        return None;
    }
    let bottom = stack_top - 4096 * old_ustack_npage;
    if fault_addr < stack_top - 4096 * STACK_RESERVE_PAGES || fault_addr >= bottom {
        return None;
    }
    let low = fault_addr / 4096 * 4096;
    proof {
        assert(low % 4096 == 0 && low <= fault_addr && fault_addr - low < 4096) by (nonlinear_arith)
            requires low == fault_addr / 4096 * 4096;
        assert(bottom % 4096 == 0) by (nonlinear_arith)
            requires bottom == stack_top - 4096 * old_ustack_npage, stack_top % 4096 == 0;
        assert((bottom - low) / 4096 <= STACK_RESERVE_PAGES) by (nonlinear_arith)
            requires bottom - low <= 4096 * 4096, bottom >= low;
        assert((stack_top - low) % 4096 == 0) by (nonlinear_arith)
            requires low % 4096 == 0, stack_top % 4096 == 0, low <= stack_top;
    }
    let ghost m0 = *m;
    let ghost root = pt.root_pa();
    if map_fresh_pages(pt, m, low, bottom) {
        Some((stack_top - low) / 4096)
    } else {
        proof {
            let k = choose|k: int| {
                &&& 0 <= k < (bottom - low) / 4096
                &&& #[trigger] heap_pages_mapped(m0, *m, root, low as int, k)
                &&& (m.pool(Pool::User).free().len() == 0 || map_blocked(*m, root, low + 4096 * k))
            };
            assert(heap_pages_mapped(m0, *m, root, low as int, k));
        }
        None
    }
}

/// The walk result for the page numbered `j` (the page at `4096 * j`).
pub open spec fn heap_page(m: Pmem, root: int, j: int) -> Option<(u64, int)> {
    walk(m, root, 4096 * j)
}

/// The physical page that maps the page numbered `j`.
pub open spec fn heap_page_pa(m: Pmem, root: int, j: int) -> int {
    match heap_page(m, root, j) {
        Some((e, _)) => pte_pa(e),
        None => 0,
    }
}

/// The pages numbered `[lo, hi)` are each mapped by a 4 KiB leaf to a page handed out
/// from the user pool, no two to the same page.
pub open spec fn heap_backed(m: Pmem, root: int, lo: int, hi: int) -> bool {
    &&& forall|j: int| lo <= j < hi ==> {
        &&& #[trigger] heap_page(m, root, j) matches Some((_, l)) && l == 0
        &&& m.pool(Pool::User).allocated(heap_page_pa(m, root, j))
    }
    &&& forall|j1: int, j2: int| lo <= j1 < j2 < hi ==> #[trigger] heap_page_pa(m, root, j1) != #[trigger] heap_page_pa(m, root, j2)
}

/// The pages behind the pages numbered `[lo, hi)`, from the highest down: the order in
/// which shrinking the heap gives them back.
pub open spec fn freed_pages(m: Pmem, root: int, lo: int, hi: int) -> Seq<usize> {
    Seq::new((hi - lo) as nat, |i: int| heap_page_pa(m, root, hi - 1 - i) as usize)
}

/// One page less on the heap: the page numbered `j` was unmapped (`m1` to `m2`) and its
/// page given back to the user pool (`m2` to `m3`).
proof fn lemma_ungrow_step(m0: Pmem, m1: Pmem, m2: Pmem, m3: Pmem, root: int, lo: int, hi: int, j: int, pa: usize)
    requires
        heap_backed(m0, root, lo, hi),
        0 <= lo <= j < hi,
        4096 * hi <= VA_LIMIT,
        m1.pool(Pool::User).free() == m0.pool(Pool::User).free() + freed_pages(m0, root, j + 1, hi),
        forall|x: int| x >= 0 ==> #[trigger] walk(m1, root, x)
            == if 4096 * (j + 1) <= va39(x) < 4096 * hi { None } else { walk(m0, root, x) },
        forall|i: int| lo <= i < j + 1 ==> m1.pool(Pool::User).allocated(#[trigger] heap_page_pa(m0, root, i)),
        m2.pool(Pool::User) == m1.pool(Pool::User),
        forall|x: int| #[trigger] walk(m2, root, x) == if crate::mm::vm::same_slot(x, 4096 * j, 0) {
            None
        } else {
            walk(m1, root, x)
        },
        pa == heap_page_pa(m0, root, j),
        crate::mm::pmem::free_result(m2, m3, Pool::User, pa),
        forall|x: int| #[trigger] walk(m3, root, x) == walk(m2, root, x),
    ensures
        m3.pool(Pool::User).free() == m0.pool(Pool::User).free() + freed_pages(m0, root, j, hi),
        forall|x: int| x >= 0 ==> #[trigger] walk(m3, root, x)
            == if 4096 * j <= va39(x) < 4096 * hi { None } else { walk(m0, root, x) },
        forall|i: int| lo <= i < j ==> m3.pool(Pool::User).allocated(#[trigger] heap_page_pa(m0, root, i)),
{
    assert(m3.pool(Pool::User).free() =~= m0.pool(Pool::User).free() + freed_pages(m0, root, j, hi));
    assert forall|i: int| lo <= i < j implies m3.pool(Pool::User).allocated(#[trigger] heap_page_pa(m0, root, i)) by {
        let q = heap_page_pa(m0, root, i);
        assert(q != heap_page_pa(m0, root, j));
        assert(m1.pool(Pool::User).allocated(q));
        m1.lemma_owned_fits(Pool::User, q);
        vstd::seq_lib::lemma_seq_contains_after_push(m2.pool(Pool::User).free(), pa, q as usize);
    }
    assert forall|x: int| x >= 0 implies #[trigger] walk(m3, root, x)
        == if 4096 * j <= va39(x) < 4096 * hi { None } else { walk(m0, root, x) } by {
        lemma_page_slot(x, 4096 * j);
    }
}

/// Shrinks the user heap from `cur_heap_top` by `len` bytes: every page from the page
/// boundary at or above the new top up to the one at or above the old top is unmapped
/// and its page given back to the user pool, the highest first. Returns the new top;
/// `None`, with nothing changed, when `len` exceeds the top.
pub fn uvm_heap_ungrow(pt: &mut PageTable, m: &mut Pmem, cur_heap_top: usize, len: usize) -> (r: Option<usize>)
    requires
        old(pt).wf(*old(m)),
        len <= cur_heap_top ==> grow_in_range(cur_heap_top - len, len as int),
        len <= cur_heap_top ==> heap_backed(*old(m), old(pt).root_pa(),
            page_up(cur_heap_top - len) / 4096, page_up(cur_heap_top as int) / 4096),
    ensures
        final(pt).wf(*final(m)),
        final(pt).root_pa() == old(pt).root_pa(),
        final(m).pool(Pool::Kernel) == old(m).pool(Pool::Kernel),
        final(m).pool(Pool::User).begin() == old(m).pool(Pool::User).begin(),
        final(m).pool(Pool::User).end() == old(m).pool(Pool::User).end(),
        final(m).mem_base() == old(m).mem_base(),
        final(m).mem().len() == old(m).mem().len(),
        final(m).inited_spec() == old(m).inited_spec(),
        len > cur_heap_top ==> r is None && *final(m) == *old(m),
        len <= cur_heap_top ==> {
            let lo = page_up(cur_heap_top - len) / 4096;
            let hi = page_up(cur_heap_top as int) / 4096;
            &&& r == Some((cur_heap_top - len) as usize)
            &&& final(m).pool(Pool::User).free() == old(m).pool(Pool::User).free() + freed_pages(*old(m), old(pt).root_pa(), lo, hi)
            &&& forall|x: int| x >= 0 ==> #[trigger] walk(*final(m), old(pt).root_pa(), x)
                == if 4096 * lo <= va39(x) < 4096 * hi { None } else { walk(*old(m), old(pt).root_pa(), x) }
        },
{
    let ghost m0 = *m;
    let ghost root = pt.root_pa();
    proof {
        pt.lemma_wf_mem(*m);
    }
    if len > cur_heap_top {
        return None;
    }
    let new_top = cur_heap_top - len;
    let start = (new_top + 4095) / 4096 * 4096;
    let end = (cur_heap_top + 4095) / 4096 * 4096;
    let ghost lo = start as int / 4096;
    let ghost hi = end as int / 4096;
    proof {
        assert(start <= end) by (nonlinear_arith)
            requires start == (new_top + 4095) / 4096 * 4096, end == (cur_heap_top + 4095) / 4096 * 4096,
                new_top <= cur_heap_top;
        assert(start % 4096 == 0 && end % 4096 == 0) by (nonlinear_arith)
            requires start == (new_top + 4095) / 4096 * 4096, end == (cur_heap_top + 4095) / 4096 * 4096;
        assert(end <= VA_LIMIT) by (nonlinear_arith)
            requires end == (cur_heap_top + 4095) / 4096 * 4096, cur_heap_top <= 0x80_0000_0000;
        assert(start == 4096 * lo && end == 4096 * hi);
        assert(m.pool(Pool::User).free() =~= m0.pool(Pool::User).free() + freed_pages(m0, root, hi, hi));
    }
    let mut va = end;
    let ghost mut j: int = hi;
    while va > start
        invariant
            m0 == *old(m),
            m0.wf(),
            m.wf(),
            pt.wf(*m),
            pt.root_pa() == root,
            root == old(pt).root_pa(),
            start == 4096 * lo,
            end == 4096 * hi,
            end <= VA_LIMIT,
            lo <= j <= hi,
            va == 4096 * j,
            heap_backed(m0, root, lo, hi),
            m.pool(Pool::Kernel) == m0.pool(Pool::Kernel),
            m.pool(Pool::User).begin() == m0.pool(Pool::User).begin(),
            m.pool(Pool::User).end() == m0.pool(Pool::User).end(),
            m.mem_base() == m0.mem_base(),
            m.mem().len() == m0.mem().len(),
            m.inited_spec() == m0.inited_spec(),
            m.pool(Pool::User).free() == m0.pool(Pool::User).free() + freed_pages(m0, root, j, hi),
            forall|x: int| x >= 0 ==> #[trigger] walk(*m, root, x)
                == if 4096 * j <= va39(x) < 4096 * hi { None } else { walk(m0, root, x) },
            forall|i: int| lo <= i < j ==> m.pool(Pool::User).allocated(#[trigger] heap_page_pa(m0, root, i)),
        decreases va,
    {
        va = va - 4096;
        let ghost m1 = *m;
        proof {
            j = j - 1;
            assert(heap_page(m0, root, j) matches Some((_, l)) && l == 0);
            assert(va39(va as int) == va) by {
                vstd::arithmetic::div_mod::lemma_small_mod(va as nat, 0x80_0000_0000);
            }
            assert(walk(*m, root, va as int) == walk(m0, root, va as int));
        }
        let pa = match pt.unmap(m, va) {
            Ok(pa) => pa,
            Err(_) => {
                proof {
                    assert(false);
                }
                return None;
            },
        };
        let ghost m2 = *m;
        proof {
            pt.lemma_wf_mem(m2);
            assert(pa == heap_page_pa(m0, root, j));
        }
        m.pmem_free(pa, Pool::User);
        proof {
            assert forall|q: int, i: int| m2.pool(Pool::Kernel).owns(q) && 0 <= i < PAGE_WORDS
                implies #[trigger] m.word(q, i) == m2.word(q, i) by {}
            pt.lemma_kernel_unchanged(m2, *m);
            lemma_ungrow_step(m0, m1, m2, *m, root, lo, hi, j, pa);
        }
    }
    proof {
        assert(j == lo);
    }
    Some(new_top)
}


/// The pages a heap grow mapped are backed heap pages: each a 4 KiB leaf to its own page
/// handed out from the user pool.
pub proof fn lemma_grown_is_backed(m0: Pmem, m1: Pmem, root: int, start: int, n: int)
    requires
        m0.wf(),
        heap_frame(m0, m1),
        heap_pages_mapped(m0, m1, root, start, n),
        start >= 0,
        start % 4096 == 0,
        start + 4096 * n <= VA_LIMIT,
    ensures
        heap_backed(m1, root, start / 4096, start / 4096 + n),
        forall|j: int| start / 4096 <= j < start / 4096 + n
            ==> #[trigger] heap_page_pa(m1, root, j) == next_user_page(m0, j - start / 4096),
{
    assert((HEAP_PERMS | PTE_V) == 23) by (bit_vector);
    let lo = start / 4096;
    let l0 = m0.pool(Pool::User).free().len();
    m0.lemma_free_distinct(Pool::User);
    assert forall|j: int| lo <= j < lo + n implies {
        &&& #[trigger] heap_page(m1, root, j) matches Some((_, l)) && l == 0
        &&& m1.pool(Pool::User).allocated(heap_page_pa(m1, root, j))
        &&& heap_page_pa(m1, root, j) == next_user_page(m0, j - lo)
    } by {
        let x = 4096 * j;
        assert(va39(x) == x) by {
            vstd::arithmetic::div_mod::lemma_small_mod(x as nat, 0x80_0000_0000);
        }
        assert((va39(x) - start) / 4096 == j - lo);
        let p = next_user_page(m0, j - lo);
        assert(m0.pool(Pool::User).owns(p as int));
        m0.lemma_pool_pages_in_mem(Pool::User, p as int);
        lemma_pte_of(p as int, (HEAP_PERMS | PTE_V) as int);
        assert(!m1.pool(Pool::User).free().contains(p)) by {
            if m1.pool(Pool::User).free().contains(p) {
                let w = choose|w: int| 0 <= w < m1.pool(Pool::User).free().len() && m1.pool(Pool::User).free()[w] == p;
                assert(m0.pool(Pool::User).free()[w] == m0.pool(Pool::User).free()[l0 - 1 - (j - lo)]);
            }
        }
    }
    assert forall|j1: int, j2: int| lo <= j1 < j2 < lo + n implies #[trigger] heap_page_pa(m1, root, j1) != #[trigger] heap_page_pa(m1, root, j2) by {
        assert(heap_page(m1, root, j1) matches Some((_, l)) && l == 0);
        assert(heap_page(m1, root, j2) matches Some((_, l)) && l == 0);
        assert(next_user_page(m0, j1 - lo) != next_user_page(m0, j2 - lo));
    }
}

/// Shrinking the heap by what a grow just added to it gives the pages back in the order
/// the user pool had them, and, where those pages had no mapping before the grow, every
/// translation is again what it was.
pub proof fn lemma_ungrow_undoes_grow(m0: Pmem, m1: Pmem, m2: Pmem, root: int, top: int, len: int)
    requires
        m0.wf(),
        0 <= top,
        0 <= len,
        grow_in_range(top, len),
        heap_frame(m0, m1),
        heap_pages_mapped(m0, m1, root, page_up(top), (page_up(top + len) - page_up(top)) / 4096),
        forall|x: int| x >= 0 && page_up(top) <= va39(x) < page_up(top + len) ==> #[trigger] walk(m0, root, x) is None,
        m2.pool(Pool::User).free() == m1.pool(Pool::User).free()
            + freed_pages(m1, root, page_up(top) / 4096, page_up(top + len) / 4096),
        forall|x: int| x >= 0 ==> #[trigger] walk(m2, root, x) == if 4096 * (page_up(top) / 4096) <= va39(x) < 4096 * (page_up(top + len) / 4096) {
            None
        } else {
            walk(m1, root, x)
        },
    ensures
        m2.pool(Pool::User).free() == m0.pool(Pool::User).free(),
        forall|x: int| x >= 0 ==> #[trigger] walk(m2, root, x) == walk(m0, root, x),
{
    let start = page_up(top);
    let end = page_up(top + len);
    assert(start <= end && start % 4096 == 0 && end % 4096 == 0 && end <= VA_LIMIT) by (nonlinear_arith)
        requires start == (top + 4095) / 4096 * 4096, end == (top + len + 4095) / 4096 * 4096, len >= 0,
            top + len <= 0x80_0000_0000, top >= 0;
    let n = (end - start) / 4096;
    let lo = start / 4096;
    let hi = end / 4096;
    assert(hi == lo + n && start == 4096 * lo && end == 4096 * hi);
    lemma_grown_is_backed(m0, m1, root, start, n);
    let l0 = m0.pool(Pool::User).free().len();
    assert forall|i: int| 0 <= i < n implies #[trigger] freed_pages(m1, root, lo, hi)[i] == m0.pool(Pool::User).free()[l0 - n + i] by {
        assert(heap_page(m1, root, hi - 1 - i) matches Some((_, l)) && l == 0);
    }
    assert(m2.pool(Pool::User).free() =~= m0.pool(Pool::User).free());
    assert forall|x: int| x >= 0 implies #[trigger] walk(m2, root, x) == walk(m0, root, x) by {
        assert(walk(m1, root, x) == if start <= va39(x) < start + 4096 * n {
            Some((heap_leaf(next_user_page(m0, (va39(x) - start) / 4096) as int), 0int))
        } else {
            walk(m0, root, x)
        });
    }
}


/// Where a loaded user program starts: its page table, the entry address and the
/// initial stack pointer.
pub struct UserStart {
    pub pgtbl: PageTable,
    pub epc: usize,
    pub sp: usize,
}

/// End of the code pages of an image of `len` bytes loaded at [`USER_BASE`].
pub open spec fn code_end(len: int) -> int {
    USER_BASE + page_up(len)
}

/// Byte `k` of an image whose pages were mapped in order from the pages the user pool of
/// `m1` hands out, with the stack page mapped after them, is reached at that page plus
/// the offset, a byte of memory in the user pool.
proof fn lemma_code_translate(pt: PageTable, m1: Pmem, m2: Pmem, m3: Pmem, nc: int, k: int)
    requires
        m1.wf(),
        pt.wf(m3),
        heap_frame(m1, m2),
        heap_frame(m2, m3),
        heap_pages_mapped(m1, m2, pt.root_pa(), USER_BASE as int, nc),
        heap_pages_mapped(m2, m3, pt.root_pa(), USER_STACK_BASE as int, 1),
        0 <= k < 4096 * nc,
        USER_BASE + 4096 * nc <= USER_STACK_BASE,
    ensures
        checked_translate(m3, pt.root_pa(), USER_BASE + k) == Some(next_user_page(m1, k / 4096) + k % 4096),
        m3.holds_byte(next_user_page(m1, k / 4096) + k % 4096),
        next_user_page(m1, k / 4096) + k % 4096 >= m3.pool(Pool::User).begin(),
{
    let x = USER_BASE + k;
    assert(va39(x) == x) by {
        vstd::arithmetic::div_mod::lemma_small_mod(x as nat, 0x80_0000_0000);
    }
    assert((va39(x) - USER_BASE) / 4096 == k / 4096);
    let p = next_user_page(m1, k / 4096);
    m1.lemma_free_distinct(Pool::User);
    assert(m1.pool(Pool::User).owns(p as int));
    m1.lemma_pool_pages_in_mem(Pool::User, p as int);
    assert((HEAP_PERMS | PTE_V) == 23) by (bit_vector);
    lemma_pte_of(p as int, 23);
    lemma_checked_translate(pt, m3, x);
    assert(x % 4096 == k % 4096) by (nonlinear_arith)
        requires x == 4096 + k, k >= 0;
    m1.lemma_pool_layout();
}

/// Distinct bytes of the image reach distinct bytes of memory.
proof fn lemma_code_bytes_distinct(m1: Pmem, nc: int, j: int, k: int)
    requires
        m1.wf(),
        0 <= j < 4096 * nc,
        0 <= k < 4096 * nc,
        nc <= m1.pool(Pool::User).free().len(),
        j != k,
    ensures
        next_user_page(m1, j / 4096) + j % 4096 != next_user_page(m1, k / 4096) + k % 4096,
{
    m1.lemma_free_distinct(Pool::User);
    let pj = next_user_page(m1, j / 4096) as int;
    let pk = next_user_page(m1, k / 4096) as int;
    assert(m1.pool(Pool::User).owns(pj));
    assert(m1.pool(Pool::User).owns(pk));
    if j / 4096 != k / 4096 {
        assert(pj != pk);
        assert(pj + j % 4096 != pk + k % 4096) by (nonlinear_arith)
            requires pj % 4096 == 0, pk % 4096 == 0, pj != pk, 0 <= j % 4096 < 4096, 0 <= k % 4096 < 4096;
    } else {
        assert(j % 4096 != k % 4096) by (nonlinear_arith)
            requires j / 4096 == k / 4096, j != k, j >= 0, k >= 0;
    }
}

/// Loads the program image `image` into a fresh address space for the process in slot
/// `pid`: a page table made from the kernel's, the image copied into fresh user pages
/// from [`USER_BASE`] and a zeroed stack page at [`USER_STACK_BASE`]. Returns the table
/// with the entry address and stack pointer, after recording the table in the slot.
/// `None`, with memory unchanged, for a slot that is not a process slot or an image that
/// would reach the stack; `None` also when a page cannot be had or mapped.
pub fn proc_make_user(t: &mut ProcTable, kernel: &PageTable, m: &mut Pmem, pid: usize, image: &[u8]) -> (r: Option<UserStart>)
    requires
        old(t).wf(),
        kernel.wf(*old(m)),
    ensures
        final(m).wf(),
        r is None ==> *final(t) == *old(t),
        (pid == 0 || pid >= NPROC || image@.len() > USER_STACK_BASE - USER_BASE) ==> r is None && *final(m) == *old(m),
        r is None ==> pid == 0 || pid >= NPROC || image@.len() > USER_STACK_BASE - USER_BASE
            || old(m).pool(Pool::Kernel).free().len() < process_table_pages(*old(m), kernel.root_pa())
            || final(m).pool(Pool::User).free().len() == 0
            || exists|va: int| USER_BASE <= va < USER_STACK_BASE + USER_STACK_SIZE && va % 4096 == 0
                && #[trigger] map_blocked(*final(m), old(m).pool(Pool::Kernel).free().last() as int, va),
        r matches Some(u) ==> {
            let root = u.pgtbl.root_pa();
            &&& u.pgtbl.wf(*final(m))
            &&& u.epc == USER_BASE
            &&& u.sp == USER_STACK_BASE + USER_STACK_SIZE
            &&& final(t).wf()
            &&& final(t).current@ == old(t).current@
            &&& final(t).procs@ == old(t).procs@.update(pid as int, Proc { pgtbl: root as usize, ..old(t).procs@[pid as int] })
            &&& forall|k: int| 0 <= k < image@.len() ==> {
                let pa = #[trigger] checked_translate(*final(m), root, USER_BASE + k);
                &&& pa is Some
                &&& final(m).holds_byte(pa->0)
                &&& final(m).byte(pa->0) == image@[k]
            }
            &&& forall|x: int| x >= 0 && !(USER_BASE <= va39(x) < code_end(image@.len() as int))
                && !(USER_STACK_BASE <= va39(x) < USER_STACK_BASE + USER_STACK_SIZE)
                ==> #[trigger] walk(*final(m), root, x) == walk(*old(m), kernel.root_pa(), x)
        },
{
    let ghost m0 = *m;
    proof {
        kernel.lemma_wf_mem(*m);
    }
    if pid == 0 || pid >= NPROC {
        return None;
    }
    let len = image.len();
    if len > USER_STACK_BASE - USER_BASE {
        return None;
    }
    let mut pt = match kvm_create_process_table(Some(kernel), m) {
        None => return None,
        Some(pt) => pt,
    };
    let ghost m1 = *m;
    let ghost root = pt.root_pa();
    let code_end_va = USER_BASE + (len + 4095) / 4096 * 4096;
    let ghost nc = (code_end_va - USER_BASE) / 4096;
    proof {
        pt.lemma_wf_mem(m1);
        assert(code_end_va % 4096 == 0 && code_end_va <= USER_STACK_BASE && code_end_va >= USER_BASE) by (nonlinear_arith)
            requires code_end_va == 4096 + (len + 4095) / 4096 * 4096, len <= 0xff000;
        assert(USER_BASE + 4096 * nc == code_end_va) by (nonlinear_arith)
            requires nc == (code_end_va - 4096) / 4096, code_end_va % 4096 == 0, code_end_va >= 4096;
        assert(len <= 4096 * nc) by (nonlinear_arith)
            requires code_end_va == 4096 + (len + 4095) / 4096 * 4096, 4096 + 4096 * nc == code_end_va;
        assert(code_end_va == code_end(len as int));
    }
    if !map_fresh_pages(&mut pt, m, USER_BASE, code_end_va) {
        proof {
            pt.lemma_wf_mem(*m);
            let k = choose|k: int| {
                &&& 0 <= k < (code_end_va - USER_BASE) / 4096
                &&& #[trigger] heap_pages_mapped(m1, *m, root, USER_BASE as int, k)
                &&& (m.pool(Pool::User).free().len() == 0 || map_blocked(*m, root, USER_BASE + 4096 * k))
            };
            assert(USER_BASE + 4096 * k < code_end_va && (USER_BASE + 4096 * k) % 4096 == 0) by (nonlinear_arith)
                requires 0 <= k < (code_end_va - 4096) / 4096, code_end_va >= 4096;
            if m.pool(Pool::User).free().len() != 0 {
                assert(map_blocked(*m, root, USER_BASE + 4096 * k));
            }
        }
        return None;
    }
    let ghost m2 = *m;
    if !map_fresh_pages(&mut pt, m, USER_STACK_BASE, USER_STACK_BASE + USER_STACK_SIZE) {
        proof {
            pt.lemma_wf_mem(*m);
            let k = choose|k: int| {
                &&& 0 <= k < (USER_STACK_BASE + USER_STACK_SIZE - USER_STACK_BASE) / 4096
                &&& #[trigger] heap_pages_mapped(m2, *m, root, USER_STACK_BASE as int, k)
                &&& (m.pool(Pool::User).free().len() == 0 || map_blocked(*m, root, USER_STACK_BASE + 4096 * k))
            };
            assert(k == 0);
            if m.pool(Pool::User).free().len() != 0 {
                assert(map_blocked(*m, root, USER_STACK_BASE as int));
            }
        }
        return None;
    }
    let ghost m3 = *m;
    proof {
        pt.lemma_wf_mem(m3);
        assert forall|k: int| 0 <= k < len implies {
            let t = #[trigger] checked_translate(m3, root, USER_BASE + k);
            &&& t is Some
            &&& m3.holds_byte(t->0)
            &&& t->0 >= m3.pool(Pool::User).begin()
        } by {
            lemma_code_translate(pt, m1, m2, m3, nc, k);
        }
    }
    let root_addr = pt.root_ppn() * PAGE_SIZE;
    load_segment(m, root_addr, image, 0, USER_BASE, len as u32);
    proof {
        pt.lemma_kernel_unchanged(m3, *m);
        assert forall|k: int| 0 <= k < len implies {
            let pa = #[trigger] checked_translate(*m, root, USER_BASE + k);
            &&& pa is Some
            &&& m.holds_byte(pa->0)
            &&& m.byte(pa->0) == image@[k]
        } by {
            lemma_code_translate(pt, m1, m2, m3, nc, k);
            let q = next_user_page(m1, k / 4096) + k % 4096;
            assert(checked_translate(*m, root, USER_BASE + k) == checked_translate(m3, root, USER_BASE + k));
            assert forall|j: int| k < j < len implies !#[trigger] loads_to(m3, root, USER_BASE as int, j, q) by {
                lemma_code_translate(pt, m1, m2, m3, nc, j);
                lemma_code_bytes_distinct(m1, nc, j, k);
            }
            assert(last_load_at(m3, root, USER_BASE as int, len as int, q, k));
            let k2 = choose|k2: int| last_load_at(m3, root, USER_BASE as int, len as int, q, k2);
            lemma_last_load_unique(m3, root, USER_BASE as int, len as int, q, k2, k);
        }
        assert forall|x: int| x >= 0 && !(USER_BASE <= va39(x) < code_end(len as int))
            && !(USER_STACK_BASE <= va39(x) < USER_STACK_BASE + USER_STACK_SIZE)
            implies #[trigger] walk(*m, root, x) == walk(m0, kernel.root_pa(), x) by {
            lemma_checked_translate(pt, *m, x);
            assert(walk(m3, root, x) == walk(m2, root, x));
            assert(walk(m2, root, x) == walk(m1, root, x));
        }
    }
    t.set_pgtbl(pid, root_addr);
    Some(UserStart { pgtbl: pt, epc: USER_BASE, sp: USER_STACK_BASE + USER_STACK_SIZE })
}


/// Bits a copied page keeps of its source entry: readable, writable, executable, user,
/// global, accessed, dirty.
pub const COPY_FLAGS: u64 = 254;

/// The leaf entry of the page numbered `j` through the table at `root` (0 without one).
pub open spec fn leaf_entry(m: Pmem, root: int, j: int) -> u64 {
    match heap_page(m, root, j) {
        Some((e, _)) => e,
        None => 0,
    }
}

/// The entry the copy of page `lo + k` gets: the `k`-th page the user pool of `m0`
/// hands out, with the kept bits of the source entry and the valid bit.
pub open spec fn copy_leaf(m0: Pmem, sroot: int, lo: int, k: int) -> u64 {
    pte_of(next_user_page(m0, k) as int, ((leaf_entry(m0, sroot, lo + k) & COPY_FLAGS) | PTE_V) as int) as u64
}

/// Each of the `n` pages from page number `lo` is mapped through the table at `root` by
/// a 4 KiB user leaf to a page handed out from the user pool.
pub open spec fn copy_source_ok(m: Pmem, root: int, lo: int, n: int) -> bool {
    forall|j: int| lo <= j < lo + n ==> {
        &&& #[trigger] heap_page(m, root, j) matches Some((_, l)) && l == 0
        &&& (leaf_entry(m, root, j) / 16) % 2 == 1
        &&& m.pool(Pool::User).allocated(heap_page_pa(m, root, j))
    }
}

/// `q` lies in one of the first `k` pages the user pool of `m0` hands out.
pub open spec fn in_fresh_pages(m0: Pmem, k: int, q: int) -> bool {
    exists|j: int| 0 <= j < k && next_user_page(m0, j) <= q < #[trigger] next_user_page(m0, j) + PAGE_SIZE
}

/// `m` is `m0` after the first `k` pages from `begin` were copied from the table at
/// `sroot` into fresh pages mapped through the table at `troot`.
pub open spec fn copied(m0: Pmem, m: Pmem, sroot: int, troot: int, begin: int, k: int) -> bool {
    &&& heap_frame(m0, m)
    &&& 0 <= k <= m0.pool(Pool::User).free().len()
    &&& m.pool(Pool::User).free() == m0.pool(Pool::User).free().subrange(0, m0.pool(Pool::User).free().len() - k)
    &&& forall|x: int| #[trigger] walk(m, sroot, x) == walk(m0, sroot, x)
    &&& forall|x: int| x >= 0 ==> #[trigger] walk(m, troot, x) == if begin <= va39(x) < begin + 4096 * k {
        Some((copy_leaf(m0, sroot, begin / 4096, (va39(x) - begin) / 4096), 0int))
    } else {
        walk(m0, troot, x)
    }
    &&& forall|j: int, o: int| 0 <= j < k && 0 <= o < PAGE_SIZE ==> #[trigger] m.byte(next_user_page(m0, j) + o)
        == m0.byte(heap_page_pa(m0, sroot, begin / 4096 + j) + o)
    &&& forall|q: int| m0.holds_byte(q) && q >= m0.pool(Pool::User).begin() && !in_fresh_pages(m0, k, q)
        ==> #[trigger] m.byte(q) == m0.byte(q)
}

/// A change that keeps the words of a page keeps its bytes.
proof fn lemma_page_bytes_kept(m1: Pmem, m2: Pmem, q: int)
    requires
        m1.wf(),
        m2.wf(),
        m1.holds_byte(q),
        m2.mem_base() == m1.mem_base(),
        m2.mem().len() == m1.mem().len(),
        forall|i: int| 0 <= i < PAGE_WORDS ==> #[trigger] m2.word(page_of(m1, q), i) == m1.word(page_of(m1, q), i),
    ensures
        m2.byte(q) == m1.byte(q),
{
    lemma_byte_via_word(m1, q);
    lemma_byte_via_word(m2, q);
    assert(page_of(m2, q) == page_of(m1, q));
    let i = (q - page_of(m1, q)) / 8;
    assert(0 <= i < PAGE_WORDS);
    assert(m2.word(page_of(m1, q), i) == m1.word(page_of(m1, q), i));
}

/// Different pages handed out by the user pool do not overlap, and none overlaps a page
/// the pool had already handed out.
proof fn lemma_fresh_apart(m0: Pmem, j: int, k: int, q: int)
    requires
        m0.wf(),
        0 <= j < m0.pool(Pool::User).free().len(),
        0 <= k < m0.pool(Pool::User).free().len(),
        j != k,
        next_user_page(m0, j) <= q < next_user_page(m0, j) + PAGE_SIZE,
    ensures
        !(next_user_page(m0, k) <= q < next_user_page(m0, k) + PAGE_SIZE),
{
    m0.lemma_free_distinct(Pool::User);
    let pj = next_user_page(m0, j) as int;
    let pk = next_user_page(m0, k) as int;
    m0.lemma_pool_pages_in_mem(Pool::User, pj);
    m0.lemma_pool_pages_in_mem(Pool::User, pk);
    crate::mm::pmem::lemma_pages_apart(m0, pj, pk);
}

/// The translations and the pool after one more copied page.
proof fn lemma_copy_step_walks(m0: Pmem, m1: Pmem, m3: Pmem, m4: Pmem, sroot: int, troot: int, begin: int, k: int,
    va: int, pa: usize, e: u64)
    requires
        m0.wf(),
        copied(m0, m1, sroot, troot, begin, k),
        begin >= 0,
        begin % 4096 == 0,
        va == begin + 4096 * k,
        va + 4096 <= VA_LIMIT,
        pa == next_user_page(m0, k),
        e == leaf_entry(m0, sroot, begin / 4096 + k),
        m1.pool(Pool::User).free().len() > 0,
        m4.pool(Pool::User).free() == m1.pool(Pool::User).free().drop_last(),
        forall|x: int| #[trigger] walk(m3, troot, x) == walk(m1, troot, x),
        forall|x: int| #[trigger] walk(m4, sroot, x) == walk(m1, sroot, x),
        forall|x: int| #[trigger] walk(m4, troot, x) == if same_slot(x, va, 0) {
            Some((pte_of(pa as int, ((e & COPY_FLAGS) | PTE_V) as int) as u64, 0int))
        } else {
            walk(m3, troot, x)
        },
    ensures
        m4.pool(Pool::User).free() == m0.pool(Pool::User).free().subrange(0, m0.pool(Pool::User).free().len() - (k + 1)),
        forall|x: int| #[trigger] walk(m4, sroot, x) == walk(m0, sroot, x),
        forall|x: int| x >= 0 ==> #[trigger] walk(m4, troot, x) == if begin <= va39(x) < begin + 4096 * (k + 1) {
            Some((copy_leaf(m0, sroot, begin / 4096, (va39(x) - begin) / 4096), 0int))
        } else {
            walk(m0, troot, x)
        },
{
    let l0 = m0.pool(Pool::User).free().len();
    assert(m4.pool(Pool::User).free() =~= m0.pool(Pool::User).free().subrange(0, l0 - (k + 1)));
    assert forall|x: int| x >= 0 implies #[trigger] walk(m4, troot, x) == if begin <= va39(x) < begin + 4096 * (k + 1) {
        Some((copy_leaf(m0, sroot, begin / 4096, (va39(x) - begin) / 4096), 0int))
    } else {
        walk(m0, troot, x)
    } by {
        lemma_page_slot(x, va);
        if va <= va39(x) < va + 4096 {
            assert((va39(x) - begin) / 4096 == k) by (nonlinear_arith)
                requires va == begin + 4096 * k, va <= va39(x) < va + 4096;
        }
    }
}

/// A byte of the user region outside the page handed out keeps its value through the
/// allocation (`m1` to `m2`) and the mapping (`m3` to `m4`).
proof fn lemma_copy_kept_byte(m1: Pmem, m2: Pmem, m3: Pmem, m4: Pmem, pa: usize, q: int)
    requires
        m1.wf(),
        m2.wf(),
        m3.wf(),
        m4.wf(),
        alloc_result(m1, m2, Pool::User, pa),
        pa != 0,
        m1.holds_byte(q),
        q >= m1.pool(Pool::User).begin(),
        !(pa <= q < pa + PAGE_SIZE),
        m3.pool(Pool::User) == m2.pool(Pool::User),
        m3.mem_base() == m1.mem_base(),
        m3.mem().len() == m1.mem().len(),
        m4.mem_base() == m1.mem_base(),
        m4.mem().len() == m1.mem().len(),
        user_words_kept(m3, m4),
    ensures
        m2.byte(q) == m1.byte(q),
        m4.byte(q) == m3.byte(q),
{
    lemma_byte_via_word(m1, q);
    let p = page_of(m1, q);
    assert(p != pa);
    assert forall|i: int| 0 <= i < PAGE_WORDS implies #[trigger] m2.word(page_of(m1, q), i) == m1.word(page_of(m1, q), i) by {
        crate::mm::pmem::lemma_alloc_page_words(m1, m2, Pool::User, pa, p, i);
    }
    lemma_page_bytes_kept(m1, m2, q);
    assert(page_of(m3, q) == p);
    assert(m3.pool(Pool::User).owns(p));
    assert forall|i: int| 0 <= i < PAGE_WORDS implies #[trigger] m4.word(page_of(m3, q), i) == m3.word(page_of(m3, q), i) by {}
    lemma_page_bytes_kept(m3, m4, q);
}

/// A byte of the new page after the mapping is the copied byte.
proof fn lemma_copy_new_byte(m3: Pmem, m4: Pmem, pa: usize, o: int)
    requires
        m3.wf(),
        m4.wf(),
        m3.pool(Pool::User).owns(pa as int),
        0 <= o < PAGE_SIZE,
        m4.mem_base() == m3.mem_base(),
        m4.mem().len() == m3.mem().len(),
        user_words_kept(m3, m4),
    ensures
        m4.byte(pa + o) == m3.byte(pa + o),
{
    m3.lemma_pool_pages_in_mem(Pool::User, pa as int);
    let q = pa + o;
    lemma_byte_via_word(m3, q);
    let p = page_of(m3, q);
    assert(p == pa) by (nonlinear_arith)
        requires p == m3.mem_base() + (q - m3.mem_base()) / 4096 * 4096, q == pa + o, 0 <= o < 4096,
            (pa - m3.mem_base()) % 4096 == 0;
    assert forall|i: int| 0 <= i < PAGE_WORDS implies #[trigger] m4.word(page_of(m3, q), i) == m3.word(page_of(m3, q), i) by {}
    lemma_page_bytes_kept(m3, m4, q);
}

/// One more page copied: the next user page was handed out (`m1` to `m2`), the source
/// page copied into it (`m2` to `m3`) and mapped at `va` through the target (`m3` to `m4`).
#[verifier::rlimit(40)]
proof fn lemma_copy_step(m0: Pmem, m1: Pmem, m2: Pmem, m3: Pmem, m4: Pmem, sroot: int, troot: int, begin: int, k: int,
    va: int, src: int, pa: usize, e: u64)
    requires
        m0.wf(),
        m1.wf(),
        m2.wf(),
        m3.wf(),
        m4.wf(),
        copied(m0, m1, sroot, troot, begin, k),
        copy_source_ok(m0, sroot, begin / 4096, k + 1),
        begin >= 0,
        begin % 4096 == 0,
        va == begin + 4096 * k,
        va + 4096 <= VA_LIMIT,
        alloc_result(m1, m2, Pool::User, pa),
        pa != 0,
        pa == next_user_page(m0, k),
        src == heap_page_pa(m0, sroot, begin / 4096 + k),
        e == leaf_entry(m0, sroot, begin / 4096 + k),
        m3.pool(Pool::Kernel) == m2.pool(Pool::Kernel),
        m3.pool(Pool::User) == m2.pool(Pool::User),
        m3.mem_base() == m2.mem_base(),
        m3.mem().len() == m2.mem().len(),
        m3.inited_spec() == m2.inited_spec(),
        forall|q: int| m2.holds_byte(q) ==> #[trigger] m3.byte(q)
            == if pa <= q < pa + PAGE_SIZE { m2.byte(src + (q - pa)) } else { m2.byte(q) },
        forall|x: int| #[trigger] walk(m3, troot, x) == walk(m1, troot, x),
        forall|x: int| #[trigger] walk(m4, sroot, x) == walk(m1, sroot, x),
        forall|x: int| #[trigger] walk(m4, troot, x) == if same_slot(x, va, 0) {
            Some((pte_of(pa as int, ((e & COPY_FLAGS) | PTE_V) as int) as u64, 0int))
        } else {
            walk(m3, troot, x)
        },
        user_words_kept(m3, m4),
        crate::mm::vm::kernel_only_allocates(m3, m4),
    ensures
        copied(m0, m4, sroot, troot, begin, k + 1),
{
    let l0 = m0.pool(Pool::User).free().len();
    let lo = begin / 4096;
    m0.lemma_free_distinct(Pool::User);
    assert(m1.pool(Pool::User).free().len() > 0);
    lemma_copy_step_walks(m0, m1, m3, m4, sroot, troot, begin, k, va, pa, e);
    assert(m0.pool(Pool::User).allocated(src)) by {
        assert(heap_page(m0, sroot, lo + k) matches Some((_, l)) && l == 0);
    }
    m0.lemma_pool_pages_in_mem(Pool::User, src);
    m0.lemma_pool_pages_in_mem(Pool::User, pa as int);
    assert(src != pa) by {
        let f = m0.pool(Pool::User).free();
        assert(f[l0 - 1 - k] == pa);
        assert(f.contains(pa));
    }
    assert forall|o: int| 0 <= o < PAGE_SIZE implies #[trigger] m4.byte(pa + o) == m0.byte(src + o) by {
        crate::mm::pmem::lemma_pages_apart(m0, src, pa as int);
        assert(m3.byte(pa + o) == m2.byte(src + o));
        lemma_copy_kept_byte(m1, m2, m3, m4, pa, src + o);
        assert(!in_fresh_pages(m0, k, src + o)) by {
            if in_fresh_pages(m0, k, src + o) {
                let j = choose|j: int| 0 <= j < k && next_user_page(m0, j) <= src + o < #[trigger] next_user_page(m0, j) + PAGE_SIZE;
                let f = m0.pool(Pool::User).free();
                assert(f[l0 - 1 - j] == next_user_page(m0, j));
                assert(f.contains(next_user_page(m0, j)));
                m0.lemma_pool_pages_in_mem(Pool::User, next_user_page(m0, j) as int);
                crate::mm::pmem::lemma_pages_apart(m0, src, next_user_page(m0, j) as int);
            }
        }
        lemma_copy_new_byte(m3, m4, pa, o);
    }
    assert forall|j: int, o: int| 0 <= j < k + 1 && 0 <= o < PAGE_SIZE implies #[trigger] m4.byte(next_user_page(m0, j) + o)
        == m0.byte(heap_page_pa(m0, sroot, lo + j) + o) by {
        if j < k {
            let q = next_user_page(m0, j) + o;
            m0.lemma_pool_pages_in_mem(Pool::User, next_user_page(m0, j) as int);
            lemma_fresh_apart(m0, j, k, q);
            lemma_copy_kept_byte(m1, m2, m3, m4, pa, q);
            assert(m3.byte(q) == m2.byte(q));
        }
    }
    assert forall|q: int| m0.holds_byte(q) && q >= m0.pool(Pool::User).begin() && !in_fresh_pages(m0, k + 1, q)
        implies #[trigger] m4.byte(q) == m0.byte(q) by {
        assert(!(pa <= q < pa + PAGE_SIZE)) by {
            if pa <= q < pa + PAGE_SIZE {
                assert(next_user_page(m0, k) <= q < next_user_page(m0, k) + PAGE_SIZE);
                assert(in_fresh_pages(m0, k + 1, q));
            }
        }
        assert(!in_fresh_pages(m0, k, q)) by {
            if in_fresh_pages(m0, k, q) {
                let j = choose|j: int| 0 <= j < k && next_user_page(m0, j) <= q < #[trigger] next_user_page(m0, j) + PAGE_SIZE;
                assert(0 <= j < k + 1 && next_user_page(m0, j) <= q < next_user_page(m0, j) + PAGE_SIZE);
            }
        }
        lemma_copy_kept_byte(m1, m2, m3, m4, pa, q);
        assert(m3.byte(q) == m2.byte(q));
    }
}

/// Copies every page of `[begin, end)` that `source` maps into a fresh page of the user
/// pool, mapped at the same address through `target` with the source entry's kept bits.
/// Each page is really copied, so that the two address spaces share no page. The source
/// pages must be 4 KiB user pages handed out from the user pool, the target range must be
/// unmapped, and the pools must hold the pages this takes.
#[verifier::rlimit(60)]
#[verifier::spinoff_prover]
pub fn copy_range(source: &PageTable, target: &mut PageTable, m: &mut Pmem, begin: usize, end: usize)
    requires
        source.wf(*old(m)),
        old(target).wf(*old(m)),
        forall|q: int| !(#[trigger] source.tables().contains_key(q) && old(target).tables().contains_key(q)),
        begin % 4096 == 0,
        end % 4096 == 0,
        begin <= end <= VA_LIMIT,
        copy_source_ok(*old(m), source.root_pa(), begin as int / 4096, (end - begin) as int / 4096),
        forall|x: int| x >= 0 && begin <= va39(x) < end ==> #[trigger] walk(*old(m), old(target).root_pa(), x) is None,
        old(m).pool(Pool::User).free().len() >= (end - begin) / 4096,
        old(m).pool(Pool::Kernel).free().len() >= 2 * ((end - begin) / 4096),
        old(target).mapped_spec() + (end - begin) / 4096 + 1 <= usize::MAX,
    ensures
        source.wf(*final(m)),
        final(target).wf(*final(m)),
        final(target).root_pa() == old(target).root_pa(),
        forall|q: int| !(#[trigger] source.tables().contains_key(q) && final(target).tables().contains_key(q)),
        copied(*old(m), *final(m), source.root_pa(), old(target).root_pa(), begin as int, (end - begin) / 4096),
{
    let ghost m0 = *m;
    let ghost sroot = source.root_pa();
    let ghost troot = target.root_pa();
    let ghost n: int = (end - begin) as int / 4096;
    let ghost lo: int = begin as int / 4096;
    proof {
        source.lemma_wf_mem(m0);
        m0.lemma_free_distinct(Pool::User);
        assert(begin + 4096 * n == end) by (nonlinear_arith)
            requires n == (end - begin) as int / 4096, begin % 4096 == 0, end % 4096 == 0, begin <= end;
        assert(m.pool(Pool::User).free() =~= m0.pool(Pool::User).free().subrange(0, m0.pool(Pool::User).free().len() as int));
        assert forall|q: int| m0.holds_byte(q) && q >= m0.pool(Pool::User).begin() && !in_fresh_pages(m0, 0, q)
            implies #[trigger] m.byte(q) == m0.byte(q) by {}
        assert(copied(m0, *m, sroot, troot, begin as int, 0));
    }
    let mut va = begin;
    let ghost mut k: int = 0;
    while va < end
        invariant
            m0 == *old(m),
            m0.wf(),
            m0.pool(Pool::User).free().no_duplicates(),
            m.wf(),
            source.wf(*m),
            target.wf(*m),
            sroot == source.root_pa(),
            troot == old(target).root_pa(),
            target.root_pa() == troot,
            forall|q: int| !(#[trigger] source.tables().contains_key(q) && target.tables().contains_key(q)),
            begin % 4096 == 0,
            end <= VA_LIMIT,
            lo == begin as int / 4096,
            n == (end - begin) as int / 4096,
            begin + 4096 * n == end,
            va == begin + 4096 * k,
            0 <= k <= n,
            copied(m0, *m, sroot, troot, begin as int, k),
            copy_source_ok(m0, sroot, lo, n),
            forall|x: int| x >= 0 && begin <= va39(x) < end ==> #[trigger] walk(m0, troot, x) is None,
            m0.pool(Pool::User).free().len() >= n,
            m.pool(Pool::Kernel).free().len() >= 2 * (n - k),
            target.mapped_spec() + (n - k) + 1 <= usize::MAX,
        decreases end - va,
    {
        let ghost m1 = *m;
        proof {
            assert(4096 * (lo + k) == va) by (nonlinear_arith)
                requires lo == begin as int / 4096, begin % 4096 == 0, va == begin + 4096 * k;
            assert(heap_page(m0, sroot, lo + k) matches Some((_, l)) && l == 0);
            assert(walk(*m, sroot, va as int) == walk(m0, sroot, va as int));
        }
        let e = match source.walk_leveled(m, va) {
            Some((e, _)) => e,
            None => {
                proof {
                    assert(false);
                }
                return;
            },
        };
        let src = pte_to_pa(e);
        let pa = m.pmem_alloc(Pool::User);
        let ghost m2 = *m;
        proof {
            assert(m1.pool(Pool::User).free().len() > 0);
            assert(pa == next_user_page(m0, k));
            assert forall|q: int, i: int| m1.pool(Pool::Kernel).owns(q) && 0 <= i < PAGE_WORDS
                implies #[trigger] m2.word(q, i) == m1.word(q, i) by {
                crate::mm::pmem::lemma_user_alloc_keeps_kernel(m1, m2, pa, q, i);
            }
            source.lemma_kernel_unchanged(m1, m2);
            target.lemma_kernel_unchanged(m1, m2);
            assert(m0.pool(Pool::User).allocated(src as int));
            m0.lemma_pool_pages_in_mem(Pool::User, src as int);
            m0.lemma_pool_pages_in_mem(Pool::User, pa as int);
            let f = m0.pool(Pool::User).free();
            assert(f[f.len() - 1 - k] == pa);
            assert(f.contains(pa));
        }
        m.copy_page(src, pa);
        let ghost m3 = *m;
        proof {
            assert forall|q: int, i: int| m2.pool(Pool::Kernel).owns(q) && 0 <= i < PAGE_WORDS
                implies #[trigger] m3.word(q, i) == m2.word(q, i) by {
                m2.lemma_pool_pages_in_mem(Pool::Kernel, q);
                m2.lemma_pool_layout();
            }
            source.lemma_kernel_unchanged(m2, m3);
            target.lemma_kernel_unchanged(m2, m3);
            lemma_copy_flags(e);
            crate::mm::vm::lemma_walk_ends_at_leaf(m1, sroot, 2, va as int);
            lemma_unmapped_need(m3, troot, va as int);
            vstd::arithmetic::div_mod::lemma_small_mod(va as nat, 0x80_0000_0000);
        }
        let ghost tb = *target;
        match target.map(m, va, pa, e & COPY_FLAGS) {
            Ok(()) => {},
            Err(_) => {
                proof {
                    assert(false);
                }
                return;
            },
        }
        let ghost m4 = *m;
        proof {
            target.lemma_wf_mem(m4);
            lemma_map_spares(tb, *source, m3, m4, va as int);
            assert forall|q: int| !(#[trigger] source.tables().contains_key(q) && target.tables().contains_key(q)) by {
                if source.tables().contains_key(q) && target.tables().contains_key(q) {
                    assert(!tb.tables().contains_key(q));
                    source.lemma_wf_mem(m3);
                    assert(m3.pool(Pool::Kernel).allocated(q));
                }
            }
            lemma_copy_step(m0, m1, m2, m3, m4, sroot, troot, begin as int, k, va as int, src as int, pa, e);
        }
        va = va + 4096;
        proof {
            k = k + 1;
        }
    }
}

/// The kernel-pool page that `va` is mapped to by a 4 KiB leaf of the table at `root`.
pub open spec fn frame_page(m: Pmem, root: int, va: int) -> Option<usize> {
    match walk(m, root, va) {
        Some((e, l)) => if l == 0 && m.pool(Pool::Kernel).owns(pte_pa(e)) { Some(pte_pa(e) as usize) } else { None },
        None => None,
    }
}

/// What the kernel free list of `m` becomes once the frame page at `va` (if any) is back.
pub open spec fn with_frame(m: Pmem, root: int, va: int) -> Seq<usize> {
    match frame_page(m, root, va) {
        Some(f) => m.pool(Pool::Kernel).free().push(f),
        None => m.pool(Pool::Kernel).free(),
    }
}

/// Tears down the address space of `pt`. The kernel-pool page that `trapframe` maps, if
/// any, goes back to the kernel pool; then every user-pool page that a 4 KiB leaf maps goes
/// back to the user pool and every table page of the tree to the kernel pool, each once.
/// The table pages are given back whole, so no entry is cleared first; the contents of
/// memory do not change. The table must own its tree: a tree that shares tables with
/// another page table (as a process table made from the kernel's does) loses them too.
/// The page at `trapframe` must be a 4 KiB page, and a kernel page there must be handed
/// out and not be a table of the tree.
pub fn destroy(pt: PageTable, m: &mut Pmem, trapframe: usize)
    requires
        pt.wf(*old(m)),
        user_leaves_owned(*old(m), pt.root_pa()),
        walk(*old(m), pt.root_pa(), trapframe as int) matches Some((_, l)) ==> l == 0,
        frame_page(*old(m), pt.root_pa(), trapframe as int) matches Some(f)
            ==> old(m).pool(Pool::Kernel).allocated(f as int) && !tree_tables(*old(m), pt.root_pa()).contains(f),
    ensures
        final(m).wf(),
        final(m).mem() == old(m).mem(),
        final(m).mem_base() == old(m).mem_base(),
        final(m).inited_spec() == old(m).inited_spec(),
        final(m).pool(Pool::Kernel).begin() == old(m).pool(Pool::Kernel).begin(),
        final(m).pool(Pool::Kernel).end() == old(m).pool(Pool::Kernel).end(),
        final(m).pool(Pool::User).begin() == old(m).pool(Pool::User).begin(),
        final(m).pool(Pool::User).end() == old(m).pool(Pool::User).end(),
        ({
            let kf = with_frame(*old(m), pt.root_pa(), trapframe as int);
            &&& final(m).pool(Pool::Kernel).free().subrange(0, kf.len() as int) == kf
            &&& final(m).pool(Pool::Kernel).free().skip(kf.len() as int).no_duplicates()
            &&& final(m).pool(Pool::Kernel).free().skip(kf.len() as int).to_set() == tree_tables(*old(m), pt.root_pa())
        }),
        ({
            let uf = old(m).pool(Pool::User).free();
            &&& final(m).pool(Pool::User).free().subrange(0, uf.len() as int) == uf
            &&& final(m).pool(Pool::User).free().skip(uf.len() as int).no_duplicates()
            &&& final(m).pool(Pool::User).free().skip(uf.len() as int).to_set() == user_leaf_pages(*old(m), pt.root_pa())
        }),
{
    let ghost m0 = *m;
    let ghost root = pt.root_pa();
    let (ts, ls) = pt.tree_pages(m);
    proof {
        pt.lemma_wf_mem(m0);
    }
    match pt.walk_leveled(m, trapframe) {
        Some((e, _)) => {
            let f = pte_to_pa(e);
            if m.is_kernel_page(f) {
                m.pmem_free(f, Pool::Kernel);
            }
        },
        None => {},
    }
    let ghost m1 = *m;
    proof {
        assert(m1.pool(Pool::Kernel).free() == with_frame(m0, root, trapframe as int));
        assert(m1.pool(Pool::Kernel).begin() == m0.pool(Pool::Kernel).begin());
        assert(m1.pool(Pool::Kernel).end() == m0.pool(Pool::Kernel).end());
        assert(m1.pool(Pool::User) == m0.pool(Pool::User));
        assert(m1.mem() == m0.mem());
    }
    let mut i: usize = 0;
    while i < ls.len()
        invariant
            m.wf(),
            m1.pool(Pool::User) == m0.pool(Pool::User),
            ls@.no_duplicates(),
            ls@.to_set() == user_leaf_pages(m0, root),
            user_leaves_owned(m0, root),
            i <= ls@.len(),
            m.pool(Pool::Kernel) == m1.pool(Pool::Kernel),
            m.mem() == m1.mem(),
            m.mem_base() == m1.mem_base(),
            m.inited_spec() == m1.inited_spec(),
            m.pool(Pool::User).begin() == m1.pool(Pool::User).begin(),
            m.pool(Pool::User).end() == m1.pool(Pool::User).end(),
            m.pool(Pool::User).free() == m1.pool(Pool::User).free() + ls@.subrange(0, i as int),
        decreases ls@.len() - i,
    {
        let pa = ls[i];
        proof {
            assert(ls@.to_set().contains(pa));
            let va = choose|va: int| #[trigger] crate::mm::vm::user_leaf(m0, root, va) == Some(pa);
            assert(m0.pool(Pool::User).allocated(pa as int));
            assert(!ls@.subrange(0, i as int).contains(pa)) by {
                if ls@.subrange(0, i as int).contains(pa) {
                    let k = choose|k: int| 0 <= k < i && ls@.subrange(0, i as int)[k] == pa;
                    assert(ls@[k] == ls@[i as int]);
                }
            }
            assert(!m.pool(Pool::User).free().contains(pa)) by {
                if m.pool(Pool::User).free().contains(pa) {
                    let k = choose|k: int| 0 <= k < m.pool(Pool::User).free().len() && m.pool(Pool::User).free()[k] == pa;
                    if k < m1.pool(Pool::User).free().len() {
                        assert(m1.pool(Pool::User).free().contains(pa));
                    } else {
                        assert(ls@.subrange(0, i as int)[k - m1.pool(Pool::User).free().len()] == pa);
                    }
                }
            }
        }
        m.pmem_free(pa, Pool::User);
        proof {
            assert(ls@.subrange(0, i + 1) == ls@.subrange(0, i as int).push(pa));
        }
        i = i + 1;
    }
    let ghost m2 = *m;
    proof {
        assert(ls@.subrange(0, ls@.len() as int) == ls@);
    }
    let mut j: usize = 0;
    while j < ts.len()
        invariant
            m.wf(),
            ts@.no_duplicates(),
            forall|k: int| 0 <= k < ts@.len() ==> m0.pool(Pool::Kernel).allocated(#[trigger] ts@[k] as int),
            frame_page(m0, root, trapframe as int) matches Some(f) ==> !ts@.contains(f),
            m1.pool(Pool::Kernel).free() == with_frame(m0, root, trapframe as int),
            m1.pool(Pool::Kernel).begin() == m0.pool(Pool::Kernel).begin(),
            m1.pool(Pool::Kernel).end() == m0.pool(Pool::Kernel).end(),
            j <= ts@.len(),
            m.pool(Pool::User) == m2.pool(Pool::User),
            m.mem() == m2.mem(),
            m.mem_base() == m2.mem_base(),
            m.inited_spec() == m2.inited_spec(),
            m2.pool(Pool::Kernel) == m1.pool(Pool::Kernel),
            m.pool(Pool::Kernel).begin() == m1.pool(Pool::Kernel).begin(),
            m.pool(Pool::Kernel).end() == m1.pool(Pool::Kernel).end(),
            m.pool(Pool::Kernel).free() == m1.pool(Pool::Kernel).free() + ts@.subrange(0, j as int),
        decreases ts@.len() - j,
    {
        let t = ts[j];
        proof {
            assert(m0.pool(Pool::Kernel).allocated(ts@[j as int] as int));
            assert(!ts@.subrange(0, j as int).contains(t)) by {
                if ts@.subrange(0, j as int).contains(t) {
                    let k = choose|k: int| 0 <= k < j && ts@.subrange(0, j as int)[k] == t;
                    assert(ts@[k] == ts@[j as int]);
                }
            }
            assert(!m.pool(Pool::Kernel).free().contains(t)) by {
                if m.pool(Pool::Kernel).free().contains(t) {
                    let k = choose|k: int| 0 <= k < m.pool(Pool::Kernel).free().len() && m.pool(Pool::Kernel).free()[k] == t;
                    let n0 = m0.pool(Pool::Kernel).free().len();
                    if k < n0 {
                        assert(m0.pool(Pool::Kernel).free().contains(t));
                    } else if k < m1.pool(Pool::Kernel).free().len() {
                        assert(frame_page(m0, root, trapframe as int) == Some(t));
                        assert(ts@.contains(t));
                    } else {
                        assert(ts@.subrange(0, j as int)[k - m1.pool(Pool::Kernel).free().len()] == t);
                    }
                }
            }
        }
        m.pmem_free(t, Pool::Kernel);
        proof {
            assert(ts@.subrange(0, j + 1) == ts@.subrange(0, j as int).push(t));
        }
        j = j + 1;
    }
    proof {
        assert(ts@.subrange(0, ts@.len() as int) == ts@);
        let kf = with_frame(m0, root, trapframe as int);
        assert(m.pool(Pool::Kernel).free().subrange(0, kf.len() as int) == kf);
        assert(m.pool(Pool::Kernel).free().skip(kf.len() as int) == ts@);
        let uf = m0.pool(Pool::User).free();
        assert(m.pool(Pool::User).free().subrange(0, uf.len() as int) == uf);
        assert(m.pool(Pool::User).free().skip(uf.len() as int) == ls@);
    }
}

/// The page that a leaf of the table at `root` maps `va` into.
pub open spec fn mapped_page(m: Pmem, root: int, va: int) -> Option<int> {
    match walk(m, root, va) {
        Some((e, _)) => Some(pte_pa(e)),
        None => None,
    }
}

/// Two addresses of one 4 KiB page walk alike.
proof fn lemma_walk_same_page(m: Pmem, root: int, x: int, va: int)
    requires
        x >= 0,
        0 <= va < VA_LIMIT,
        va % 4096 == 0,
        va <= va39(x) < va + 4096,
    ensures
        walk(m, root, x) == walk(m, root, va),
{
    lemma_page_slot(x, va);
    crate::mm::vm::lemma_vpage_digits(x);
    crate::mm::vm::lemma_vpage_digits(va);
    assert(vpn(x, 2) == vpn(va, 2) && vpn(x, 1) == vpn(va, 1)) by {
        let p = vpn(x, 2) * 512 + vpn(x, 1);
        assert(p == vpn(va, 2) * 512 + vpn(va, 1));
        vstd::arithmetic::div_mod::lemma_fundamental_div_mod_converse(p, 512, vpn(x, 2), vpn(x, 1));
        vstd::arithmetic::div_mod::lemma_fundamental_div_mod_converse(p, 512, vpn(va, 2), vpn(va, 1));
    }
    reveal_with_fuel(crate::mm::vm::walk_from, 3);
}

/// After a copy the two address spaces share no page over the copied range: the page the
/// target maps at any copied address is not the page the source maps at any copied
/// address, so a write through one is never seen through the other.
#[verifier::rlimit(50)]
#[verifier::spinoff_prover]
pub proof fn lemma_copy_shares_no_page(m0: Pmem, m: Pmem, sroot: int, troot: int, begin: int, n: int, x: int, y: int)
    requires
        m0.wf(),
        begin >= 0,
        begin % 4096 == 0,
        begin + 4096 * n <= VA_LIMIT,
        copied(m0, m, sroot, troot, begin, n),
        copy_source_ok(m0, sroot, begin / 4096, n),
        x >= 0,
        y >= 0,
        begin <= va39(x) < begin + 4096 * n,
        begin <= va39(y) < begin + 4096 * n,
    ensures
        mapped_page(m, troot, x) is Some,
        mapped_page(m, sroot, y) is Some,
        mapped_page(m, troot, x) != mapped_page(m, sroot, y),
{
    let lo = begin / 4096;
    let jx = (va39(x) - begin) / 4096;
    let jy = (va39(y) - begin) / 4096;
    assert(0 <= jx < n && 0 <= jy < n) by (nonlinear_arith)
        requires jx == (va39(x) - begin) / 4096, jy == (va39(y) - begin) / 4096,
            begin <= va39(x) < begin + 4096 * n, begin <= va39(y) < begin + 4096 * n;
    let vy = 4096 * (lo + jy);
    assert(vy == begin + 4096 * jy && vy <= va39(y) < vy + 4096) by (nonlinear_arith)
        requires vy == 4096 * (lo + jy), lo == begin / 4096, begin % 4096 == 0, jy == (va39(y) - begin) / 4096,
            begin <= va39(y);
    lemma_walk_same_page(m0, sroot, y, vy);
    assert(heap_page(m0, sroot, lo + jy) matches Some((_, l)) && l == 0);
    let src = heap_page_pa(m0, sroot, lo + jy);
    assert(m0.pool(Pool::User).allocated(src));
    let f = m0.pool(Pool::User).free();
    let dst = next_user_page(m0, jx);
    assert(f.contains(dst)) by {
        assert(f[f.len() - 1 - jx] == dst);
    }
    m0.lemma_free_distinct(Pool::User);
    assert(m0.pool(Pool::User).owns(dst as int));
    m0.lemma_pool_pages_in_mem(Pool::User, dst as int);
    lemma_copy_flags(leaf_entry(m0, sroot, lo + jx));
    lemma_pte_of(dst as int, ((leaf_entry(m0, sroot, lo + jx) & COPY_FLAGS) | PTE_V) as int);
    assert(dst as int != src);
}

}
