use vstd::prelude::*;
use vstd::arithmetic::power2::pow2;
use vstd::bits::low_bits_mask;
use vstd::bits::lemma_u64_low_bits_mask_is_mod;

verus! {

/// `align` is a power of two that fits in a machine word.
pub open spec fn is_pow2(align: usize) -> bool {
    exists|k: nat| k < 64 && align == #[trigger] pow2(k)
}

/// For a power of two `align`, clearing the low bits of `x` gives a multiple of `align`.
proof fn lemma_masked_is_multiple(x: usize, align: usize)
    requires
        is_pow2(align),
    ensures
        (x & !((align - 1) as usize)) % align == 0,
        x & !((align - 1) as usize) <= x,
        x - (x & !((align - 1) as usize)) < align,
        x % align == x - (x & !((align - 1) as usize)),
{
    let k = choose|k: nat| k < 64 && align == #[trigger] pow2(k);
    vstd::arithmetic::power2::lemma_pow2_pos(k);
    let r = x & !((align - 1) as usize);
    let m = (align - 1) as usize;
    assert(low_bits_mask(k) == m);
    let x64 = x as u64;
    let r64 = r as u64;
    let m64 = m as u64;
    lemma_u64_low_bits_mask_is_mod(r64, k);
    lemma_u64_low_bits_mask_is_mod(x64, k);
    assert(r & m == 0 && r <= x && x - r == x & m) by (bit_vector)
        requires
            r == x & !m;
    assert(r64 & m64 == 0 && (x64 & m64) == (x & m) as u64) by (bit_vector)
        requires
            r == x & !m, x64 == x as u64, r64 == r as u64, m64 == m as u64;
}

/// A power of two is positive.
proof fn lemma_pow2_positive(align: usize)
    requires
        is_pow2(align),
    ensures
        align > 0,
{
    let k = choose|k: nat| k < 64 && align == #[trigger] pow2(k);
    vstd::arithmetic::power2::lemma_pow2_pos(k);
}

/// Rounds `v` up to the next multiple of `align` (a power of two).
pub fn align_up(v: usize, align: usize) -> (r: usize)
    requires
        is_pow2(align),
        v + align - 1 <= usize::MAX,
    ensures
        r % align == 0,
        v <= r < v + align,
        r == v + ((align - v % align) as int) % (align as int),
{
    proof {
        lemma_pow2_positive(align);
    }
    let s = v + (align - 1);
    let r = s & !(align - 1);
    proof {
        lemma_masked_is_multiple(s, align);
        lemma_masked_is_multiple(v, align);
        let m = v % align;
        let a = align as int;
        vstd::arithmetic::div_mod::lemma_mod_adds(v as int, a - 1, a);
        vstd::arithmetic::div_mod::lemma_small_mod((align - 1) as nat, align as nat);
        if m == 0 {
            assert(s % align == align - 1);
            vstd::arithmetic::div_mod::lemma_mod_self_0(a);
        } else {
            let t = v as int % a + (a - 1) % a;
            assert(t == m + a - 1);
            assert(a * (t / a) == a) by (nonlinear_arith)
                requires 0 < m < a, t == m + a - 1;
            assert(s % align == m - 1);
            vstd::arithmetic::div_mod::lemma_small_mod((align - m) as nat, align as nat);
        }
    }
    r
}

/// Rounds `v` down to a multiple of `align` (a power of two).
pub fn align_down(v: usize, align: usize) -> (r: usize)
    requires
        is_pow2(align),
    ensures
        r % align == 0,
        r <= v < r + align,
        r == v - v % align,
{
    proof {
        lemma_pow2_positive(align);
    }
    let r = v & !(align - 1);
    proof {
        lemma_masked_is_multiple(v, align);
    }
    r
}


/// Size of a physical page in bytes.
pub const PAGE_SIZE: usize = 4096;

/// Physical addresses lie below 2^56.
pub const PHYS_LIMIT: u64 = 0x0100_0000_0000_0000;

/// Number of 64-bit words in a page.
pub const PAGE_WORDS: usize = 512;

/// Bytes kept for the kernel pool above the first allocatable address.
pub const KERNEL_RESERVE: usize = 4 * 1024 * 1024;

/// The two pools managed by the allocator.
#[derive(Debug, Clone, Copy, PartialEq, Eq, Structural)]
pub enum Pool {
    /// Kernel pages: page tables, kernel stacks, process structures.
    Kernel,
    /// User pages: user address spaces and stacks.
    User,
}

/// A pool of pages in `[begin, end)`, kept as a stack of free page addresses.
/// The last element of `pages` is the head of the free list: the next page handed out.
pub struct FreeList {
    begin: usize,
    end: usize,
    pages: Vec<usize>,
}

impl FreeList {
    pub closed spec fn begin(&self) -> int {
        self.begin as int
    }

    pub closed spec fn end(&self) -> int {
        self.end as int
    }

    /// The free pages, head last.
    pub closed spec fn free(&self) -> Seq<usize> {
        self.pages@
    }

    /// Number of pages in the pool.
    pub open spec fn total(&self) -> int {
        (self.end() - self.begin()) / PAGE_SIZE as int
    }

    /// `pa` is the address of a page of this pool.
    pub open spec fn owns(&self, pa: int) -> bool {
        &&& self.begin() <= pa
        &&& pa + PAGE_SIZE <= self.end()
        &&& pa % PAGE_SIZE as int == 0
    }

    /// `pa` is a page of this pool that is currently handed out.
    pub open spec fn allocated(&self, pa: int) -> bool {
        self.owns(pa) && !self.free().contains(pa as usize)
    }

    pub closed spec fn wf(&self) -> bool {
        &&& self.begin % PAGE_SIZE == 0
        &&& self.end % PAGE_SIZE == 0
        &&& self.begin <= self.end
        &&& self.pages@.no_duplicates()
        &&& forall|i: int| 0 <= i < self.pages@.len() ==> self.owns(#[trigger] self.pages@[i] as int)
        &&& self.pages@.len() <= self.total()
    }

    /// Builds a pool whose free list holds every page of `[begin, end)`, lowest page first out.
    fn new(begin: usize, end: usize) -> (r: FreeList)
        requires
            begin % PAGE_SIZE == 0,
            end % PAGE_SIZE == 0,
            begin <= end,
        ensures
            r.wf(),
            r.begin() == begin,
            r.end() == end,
            r.free().len() == r.total(),
            forall|pa: int| r.owns(pa) ==> r.free().contains(pa as usize),
            r.total() > 0 ==> r.free().last() == begin,
            forall|i: int| 0 <= i < r.free().len() ==> #[trigger] r.free()[i] == begin + (r.free().len() - 1 - i) * PAGE_SIZE,
    {
        let n = (end - begin) / PAGE_SIZE;
        let mut pages: Vec<usize> = Vec::new();
        let mut k: usize = n;
        while k > 0
            invariant
                k <= n,
                n == (end - begin) / PAGE_SIZE as int,
                begin % PAGE_SIZE == 0,
                end % PAGE_SIZE == 0,
                begin <= end,
                pages@.len() == n - k,
                forall|i: int| 0 <= i < pages@.len() ==> #[trigger] pages@[i] == begin + (n - 1 - i) * PAGE_SIZE,
            decreases k,
        {
            k = k - 1;
            assert(k * PAGE_SIZE < n * PAGE_SIZE) by (nonlinear_arith) requires k < n;
            assert(n * PAGE_SIZE <= end - begin) by (nonlinear_arith)
                requires n == (end - begin) / PAGE_SIZE as int, begin <= end;
            pages.push(begin + k * PAGE_SIZE);
        }
        let r = FreeList { begin, end, pages };
        proof {
            assert forall|i: int| 0 <= i < r.pages@.len() implies r.owns(#[trigger] r.pages@[i] as int) by {
                let j = n - 1 - i;
                assert(0 <= j < n);
                assert((j + 1) * PAGE_SIZE <= n * PAGE_SIZE) by (nonlinear_arith) requires j + 1 <= n;
                assert(n * PAGE_SIZE <= end - begin) by (nonlinear_arith)
                    requires n == (end - begin) / PAGE_SIZE as int, begin <= end;
                assert((j * PAGE_SIZE) % PAGE_SIZE as int == 0) by (nonlinear_arith);
                vstd::arithmetic::div_mod::lemma_mod_adds(begin as int, j * PAGE_SIZE, PAGE_SIZE as int);
            }
            assert forall|i: int, j: int| 0 <= i < r.pages@.len() && 0 <= j < r.pages@.len() && i != j
                implies r.pages@[i] != r.pages@[j] by {
                assert((n - 1 - i) * PAGE_SIZE != (n - 1 - j) * PAGE_SIZE) by (nonlinear_arith) requires i != j;
            }
            assert forall|pa: int| r.owns(pa) implies r.free().contains(pa as usize) by {
                let j = (pa - begin) / PAGE_SIZE as int;
                vstd::arithmetic::div_mod::lemma_mod_adds(begin as int, pa - begin, PAGE_SIZE as int);
                vstd::arithmetic::div_mod::lemma_fundamental_div_mod(pa - begin, PAGE_SIZE as int);
                assert(0 <= j < n) by (nonlinear_arith)
                    requires j == (pa - begin) / PAGE_SIZE as int, 0 <= pa - begin,
                        pa + PAGE_SIZE <= end, n == (end - begin) / PAGE_SIZE as int;
                let i = n - 1 - j;
                assert(r.pages@[i] == pa);
            }
        }
        r
    }

    /// Takes the head of the free list, or `None` when the pool is exhausted.
    fn take(&mut self) -> (r: Option<usize>)
        requires
            old(self).wf(),
        ensures
            final(self).wf(),
            final(self).begin() == old(self).begin(),
            final(self).end() == old(self).end(),
            old(self).free().len() == 0 ==> r is None && final(self).free() == old(self).free(),
            old(self).free().len() > 0 ==> r == Some(old(self).free().last())
                && final(self).free() == old(self).free().drop_last(),
    {
        let r = self.pages.pop();
        proof {
            if old(self).pages@.len() > 0 {
                assert(self.pages@ =~= old(self).pages@.drop_last());
                assert forall|i: int| 0 <= i < self.pages@.len() implies self.owns(#[trigger] self.pages@[i] as int) by {
                    assert(self.pages@[i] == old(self).pages@[i]);
                }
            }
        }
        r
    }

    /// Puts a handed-out page back at the head of the free list.
    fn give(&mut self, pa: usize)
        requires
            old(self).wf(),
            old(self).allocated(pa as int),
        ensures
            final(self).wf(),
            final(self).begin() == old(self).begin(),
            final(self).end() == old(self).end(),
            final(self).free() == old(self).free().push(pa),
    {
        proof {
            lemma_free_bounded(*old(self), pa as int);
        }
        self.pages.push(pa);
        proof {
            assert forall|i: int| 0 <= i < self.pages@.len() implies self.owns(#[trigger] self.pages@[i] as int) by {
                if i < old(self).pages@.len() {
                    assert(self.pages@[i] == old(self).pages@[i]);
                }
            }
            assert forall|i: int, j: int| 0 <= i < self.pages@.len() && 0 <= j < self.pages@.len() && i != j
                implies self.pages@[i] != self.pages@[j] by {
                if i < old(self).pages@.len() && j < old(self).pages@.len() {
                    assert(old(self).pages@[i] == self.pages@[i]);
                    assert(old(self).pages@[j] == self.pages@[j]);
                } else if i < old(self).pages@.len() {
                    assert(old(self).pages@.contains(self.pages@[i]));
                } else if j < old(self).pages@.len() {
                    assert(old(self).pages@.contains(self.pages@[j]));
                }
            }
        }
    }
}

/// A free list that misses an owned page is shorter than the pool.
proof fn lemma_free_bounded(l: FreeList, pa: int)
    requires
        l.wf(),
        l.allocated(pa),
    ensures
        l.free().len() < l.total(),
{
    let s = l.free().to_set();
    let idx = Set::new(|q: int| 0 <= q < l.total());
    let f = |a: usize| (a - l.begin()) / PAGE_SIZE as int;
    l.free().unique_seq_to_set();
    assert forall|a: usize| #[trigger] s.contains(a) implies idx.contains(f(a)) && l.owns(a as int) by {
        let i = choose|i: int| 0 <= i < l.free().len() && l.free()[i] == a;
        assert(l.owns(l.free()[i] as int));
        assert(0 <= f(a) < l.total()) by (nonlinear_arith)
            requires l.begin() <= a, a + PAGE_SIZE <= l.end(), f(a) == (a - l.begin()) / PAGE_SIZE as int,
                l.total() == (l.end() - l.begin()) / PAGE_SIZE as int;
    }
    let img = s.map(f);
    assert forall|a: usize, b: usize| s.contains(a) && s.contains(b) && #[trigger] f(a) == #[trigger] f(b) implies a == b by {
        assert(l.owns(a as int) && l.owns(b as int));
        vstd::arithmetic::div_mod::lemma_fundamental_div_mod(a - l.begin(), PAGE_SIZE as int);
        vstd::arithmetic::div_mod::lemma_fundamental_div_mod(b - l.begin(), PAGE_SIZE as int);
        vstd::arithmetic::div_mod::lemma_mod_adds(l.begin(), a - l.begin(), PAGE_SIZE as int);
        vstd::arithmetic::div_mod::lemma_mod_adds(l.begin(), b - l.begin(), PAGE_SIZE as int);
    }
    vstd::set_lib::lemma_map_size(s, img, f);
    let fpa = f(pa as usize);
    assert(0 <= fpa < l.total()) by (nonlinear_arith)
        requires l.begin() <= pa, pa + PAGE_SIZE <= l.end(), fpa == (pa - l.begin()) / PAGE_SIZE as int,
            l.total() == (l.end() - l.begin()) / PAGE_SIZE as int;
    assert(!img.contains(fpa)) by {
        if img.contains(fpa) {
            let a = choose|a: usize| s.contains(a) && f(a) == fpa;
            assert(l.owns(a as int));
            vstd::arithmetic::div_mod::lemma_fundamental_div_mod(a - l.begin(), PAGE_SIZE as int);
            vstd::arithmetic::div_mod::lemma_fundamental_div_mod(pa - l.begin(), PAGE_SIZE as int);
            vstd::arithmetic::div_mod::lemma_mod_adds(l.begin(), a - l.begin(), PAGE_SIZE as int);
            vstd::arithmetic::div_mod::lemma_mod_adds(l.begin(), pa - l.begin(), PAGE_SIZE as int);
            assert(a == pa);
        }
    }
    assert(img.subset_of(idx.remove(fpa)));
    vstd::set_lib::lemma_int_range(0, l.total());
    assert(idx =~= vstd::set_lib::set_int_range(0, l.total()));
    vstd::set_lib::lemma_len_subset(img, idx.remove(fpa));
}


/// The physical page allocator: a kernel pool followed by a user pool, and the
/// contents of every page of both pools as 64-bit words.
pub struct Pmem {
    kernel: FreeList,
    user: FreeList,
    base: usize,
    words: Vec<u64>,
    inited: bool,
}

/// Index of the word at byte address `pa` in a memory starting at `base`.
pub open spec fn word_index(base: int, pa: int) -> int {
    (pa - base) / 8
}

impl Pmem {
    pub closed spec fn pool(&self, pool: Pool) -> FreeList {
        match pool {
            Pool::Kernel => self.kernel,
            Pool::User => self.user,
        }
    }

    /// First byte covered by the memory model.
    pub closed spec fn mem_base(&self) -> int {
        self.base as int
    }

    /// The contents of both pools as words; word `i` is at byte `mem_base() + 8 * i`.
    pub closed spec fn mem(&self) -> Seq<u64> {
        self.words@
    }

    pub closed spec fn inited_spec(&self) -> bool {
        self.inited
    }

    /// `pa` is a page of the memory model.
    pub open spec fn in_mem(&self, pa: int) -> bool {
        &&& self.mem_base() <= pa
        &&& pa + PAGE_SIZE <= self.mem_base() + 8 * self.mem().len()
        &&& (pa - self.mem_base()) % PAGE_SIZE as int == 0
    }

    /// Word `i` of the page at `pa`.
    pub open spec fn word(&self, pa: int, i: int) -> u64 {
        self.mem()[word_index(self.mem_base(), pa) + i]
    }

    pub closed spec fn wf(&self) -> bool {
        &&& self.kernel.wf()
        &&& self.user.wf()
        &&& self.kernel.begin == self.base
        &&& self.kernel.end == self.user.begin
        &&& self.user.end == self.base + 8 * self.words@.len()
        &&& self.base % PAGE_SIZE == 0
        &&& self.base > 0
        &&& self.base + 8 * self.words@.len() <= PHYS_LIMIT
    }

    /// Free and total page counts of a pool.
    pub open spec fn stat_of(&self, pool: Pool) -> (int, int) {
        (self.pool(pool).free().len() as int, self.pool(pool).total())
    }

    /// Every page of both pools lies in the memory model.
    /// The free pages of a pool are distinct pages of the pool.
    pub proof fn lemma_free_distinct(&self, pool: Pool)
        requires
            self.wf(),
        ensures
            self.pool(pool).free().no_duplicates(),
            forall|i: int| 0 <= i < self.pool(pool).free().len() ==> self.pool(pool).owns(#[trigger] self.pool(pool).free()[i] as int),
    {
    }

    /// The kernel pool starts the memory model and ends where the user pool starts.
    pub proof fn lemma_pool_layout(&self)
        requires
            self.wf(),
        ensures
            self.pool(Pool::Kernel).begin() == self.mem_base(),
            self.pool(Pool::Kernel).end() == self.pool(Pool::User).begin(),
            self.pool(Pool::User).end() == self.mem_base() + 8 * self.mem().len(),
            self.mem_base() % PAGE_SIZE as int == 0,
            self.pool(Pool::User).begin() % PAGE_SIZE as int == 0,
    {
    }

    /// A page of a pool has an address that fits a `usize`.
    pub proof fn lemma_owned_fits(&self, pool: Pool, pa: int)
        requires
            self.pool(pool).owns(pa),
        ensures
            0 <= pa,
            pa + PAGE_SIZE <= usize::MAX + 1,
    {
    }

    pub proof fn lemma_pool_pages_in_mem(&self, pool: Pool, pa: int)
        requires
            self.wf(),
            self.pool(pool).owns(pa),
        ensures
            self.in_mem(pa),
            pa + PAGE_SIZE <= PHYS_LIMIT,
            word_index(self.mem_base(), pa) + PAGE_WORDS <= self.mem().len(),
            word_index(self.mem_base(), pa) >= 0,
            word_index(self.mem_base(), pa) % PAGE_WORDS as int == 0,
    {
        vstd::arithmetic::div_mod::lemma_mod_adds(self.mem_base(), pa - self.mem_base(), PAGE_SIZE as int);
        vstd::arithmetic::div_mod::lemma_fundamental_div_mod(pa - self.mem_base(), PAGE_SIZE as int);
        let q = (pa - self.mem_base()) / PAGE_SIZE as int;
        assert(word_index(self.mem_base(), pa) == q * 512) by (nonlinear_arith)
            requires pa - self.mem_base() == PAGE_SIZE * q, word_index(self.mem_base(), pa) == (pa - self.mem_base()) / 8;
        assert((q * 512) % 512 == 0) by (nonlinear_arith);
    }
}

/// Builds the allocator for the free memory `[alloc_begin, dram_end)`.
///
/// The first page boundary at or above `alloc_begin` starts the kernel pool, which
/// spans [`KERNEL_RESERVE`] bytes (or less if memory ends first); the user pool takes
/// the rest up to the last whole page. All pages start free and zeroed.
pub fn pmem_init(alloc_begin: usize, dram_end: usize) -> (r: Pmem)
    requires
        0 < alloc_begin <= dram_end,
        PAGE_SIZE <= dram_end,
        dram_end <= PHYS_LIMIT,
        dram_end + PAGE_SIZE <= usize::MAX,
    ensures
        r.wf(),
        r.inited_spec(),
        r.pool(Pool::Kernel).begin() == kernel_pool_begin(alloc_begin as int, dram_end as int),
        r.pool(Pool::Kernel).end() == kernel_pool_end(alloc_begin as int, dram_end as int),
        r.pool(Pool::User).begin() == kernel_pool_end(alloc_begin as int, dram_end as int),
        r.pool(Pool::User).end() == user_pool_end(dram_end as int),
        r.stat_of(Pool::Kernel).0 == r.stat_of(Pool::Kernel).1,
        r.stat_of(Pool::User).0 == r.stat_of(Pool::User).1,
        forall|i: int| 0 <= i < r.mem().len() ==> r.mem()[i] == 0,
        forall|i: int| 0 <= i < r.pool(Pool::Kernel).free().len() ==> #[trigger] r.pool(Pool::Kernel).free()[i]
            == r.pool(Pool::Kernel).begin() + (r.pool(Pool::Kernel).free().len() - 1 - i) * PAGE_SIZE,
        forall|i: int| 0 <= i < r.pool(Pool::User).free().len() ==> #[trigger] r.pool(Pool::User).free()[i]
            == r.pool(Pool::User).begin() + (r.pool(Pool::User).free().len() - 1 - i) * PAGE_SIZE,
{
    proof {
        assert(is_pow2(PAGE_SIZE)) by {
            vstd::arithmetic::power2::lemma2_to64();
            assert(PAGE_SIZE == pow2(12));
        }
    }
    let kbegin = align_up(alloc_begin, PAGE_SIZE);
    let end_page = align_down(dram_end, PAGE_SIZE);
    let kbegin = if kbegin > end_page { end_page } else { kbegin };
    let kend = if end_page - kbegin > KERNEL_RESERVE { kbegin + KERNEL_RESERVE } else { end_page };
    proof {
        assert((kend - kbegin) % PAGE_SIZE as int == 0) by {
            vstd::arithmetic::div_mod::lemma_sub_mod_noop(kend as int, kbegin as int, PAGE_SIZE as int);
        }
        assert((end_page - kbegin) % 8 == 0) by {
            vstd::arithmetic::div_mod::lemma_fundamental_div_mod((end_page - kbegin) as int, PAGE_SIZE as int);
        }
    }
    let kernel = FreeList::new(kbegin, kend);
    let user = FreeList::new(kend, end_page);
    let nwords = (end_page - kbegin) / 8;
    let words: Vec<u64> = vec![0u64; nwords];
    Pmem { kernel, user, base: kbegin, words, inited: true }
}

/// Last page boundary at or below `dram_end`.
pub open spec fn user_pool_end(dram_end: int) -> int {
    dram_end - dram_end % PAGE_SIZE as int
}

/// Start of the kernel pool: the first page boundary at or above `alloc_begin`,
/// but not past the end of memory.
pub open spec fn kernel_pool_begin(alloc_begin: int, dram_end: int) -> int {
    let up = alloc_begin + (PAGE_SIZE - alloc_begin % PAGE_SIZE as int) % PAGE_SIZE as int;
    if up > user_pool_end(dram_end) { user_pool_end(dram_end) } else { up }
}

/// End of the kernel pool (and start of the user pool).
pub open spec fn kernel_pool_end(alloc_begin: int, dram_end: int) -> int {
    let b = kernel_pool_begin(alloc_begin, dram_end);
    if user_pool_end(dram_end) - b > KERNEL_RESERVE { b + KERNEL_RESERVE } else { user_pool_end(dram_end) }
}


/// `after` is `before` with the page at word index `w` zeroed.
pub open spec fn zeroed_page(before: Seq<u64>, after: Seq<u64>, w: int) -> bool {
    &&& after.len() == before.len()
    &&& forall|i: int| 0 <= i < after.len() ==> #[trigger] after[i] == if w <= i < w + PAGE_WORDS { 0 } else { before[i] }
}

/// The effect of handing out one page of `pool`: `after` is `before` with the head of the
/// pool's free list removed and `pa` zeroed; `pa` is 0 and nothing changes when the pool is empty.
pub open spec fn alloc_result(before: Pmem, after: Pmem, pool: Pool, pa: usize) -> bool {
    let other = if pool == Pool::Kernel { Pool::User } else { Pool::Kernel };
    &&& after.pool(other) == before.pool(other)
    &&& after.pool(pool).begin() == before.pool(pool).begin()
    &&& after.pool(pool).end() == before.pool(pool).end()
    &&& after.mem_base() == before.mem_base()
    &&& after.inited_spec() == before.inited_spec()
    &&& if before.pool(pool).free().len() == 0 {
        &&& pa == 0
        &&& after.pool(pool).free() == before.pool(pool).free()
        &&& after.mem() == before.mem()
    } else {
        &&& pa == before.pool(pool).free().last()
        &&& after.pool(pool).free() == before.pool(pool).free().drop_last()
        &&& zeroed_page(before.mem(), after.mem(), word_index(before.mem_base(), pa as int))
    }
}

/// The effect of giving page `pa` back to `pool`: it becomes the head of the free list.
pub open spec fn free_result(before: Pmem, after: Pmem, pool: Pool, pa: usize) -> bool {
    let other = if pool == Pool::Kernel { Pool::User } else { Pool::Kernel };
    &&& after.pool(other) == before.pool(other)
    &&& after.pool(pool).begin() == before.pool(pool).begin()
    &&& after.pool(pool).end() == before.pool(pool).end()
    &&& after.pool(pool).free() == before.pool(pool).free().push(pa)
    &&& after.mem() == before.mem()
    &&& after.mem_base() == before.mem_base()
    &&& after.inited_spec() == before.inited_spec()
}

impl Pmem {
    /// Hands out one zeroed page of `pool` and returns its physical address; 0 when the
    /// pool is exhausted. Address 0 is never a page of either pool.
    pub fn pmem_alloc(&mut self, pool: Pool) -> (pa: usize)
        requires
            old(self).wf(),
        ensures
            final(self).wf(),
            alloc_result(*old(self), *final(self), pool, pa),
            (pa == 0) == (old(self).pool(pool).free().len() == 0),
            pa != 0 ==> old(self).pool(pool).owns(pa as int) && final(self).pool(pool).allocated(pa as int),
    {
        let taken = match pool {
            Pool::Kernel => self.kernel.take(),
            Pool::User => self.user.take(),
        };
        let ghost mid = *self;
        let mut result: usize = 0;
        if let Some(pa) = taken {
            proof {
                let l = old(self).pool(pool);
                assert(l.free().contains(pa));
                assert(l.owns(pa as int));
                old(self).lemma_pool_pages_in_mem(pool, pa as int);
                let f = self.pool(pool).free();
                assert(!f.contains(pa)) by {
                    if f.contains(pa) {
                        let i = choose|i: int| 0 <= i < f.len() && f[i] == pa;
                        assert(l.free()[i] == l.free()[l.free().len() - 1]);
                    }
                }
            }
            let w = (pa - self.base) / 8;
            let mut j: usize = 0;
            while j < PAGE_WORDS
                invariant
                    j <= PAGE_WORDS,
                    w == word_index(old(self).mem_base(), pa as int),
                    w + PAGE_WORDS <= self.words@.len(),
                    self.words@.len() == old(self).words@.len(),
                    self.kernel == mid.kernel,
                    self.user == mid.user,
                    self.base == mid.base,
                    self.inited == mid.inited,
                    forall|i: int| 0 <= i < self.words@.len() ==> #[trigger] self.words@[i]
                        == if w <= i < w + j { 0 } else { old(self).words@[i] },
                decreases PAGE_WORDS - j,
            {
                self.words.set(w + j, 0);
                j = j + 1;
            }
            result = pa;
        }
        proof {
            if old(self).pool(pool).free().len() > 0 {
                let l = old(self).pool(pool);
                assert(l.free().contains(l.free().last()));
                assert(l.owns(l.free().last() as int));
            }
        }
        result
    }

    /// Gives page `pa` back to `pool`; it becomes the next page handed out.
    pub fn pmem_free(&mut self, pa: usize, pool: Pool)
        requires
            old(self).wf(),
            old(self).pool(pool).allocated(pa as int),
        ensures
            final(self).wf(),
            free_result(*old(self), *final(self), pool, pa),
    {
        match pool {
            Pool::Kernel => self.kernel.give(pa),
            Pool::User => self.user.give(pa),
        }
    }

    /// Free and total page counts: `(kernel_free, kernel_total, user_free, user_total)`.
    pub fn pmem_stat(&self) -> (r: (usize, usize, usize, usize))
        requires
            self.wf(),
        ensures
            r.0 == self.stat_of(Pool::Kernel).0,
            r.1 == self.stat_of(Pool::Kernel).1,
            r.2 == self.stat_of(Pool::User).0,
            r.3 == self.stat_of(Pool::User).1,
            r.0 <= r.1,
            r.2 <= r.3,
    {
        (self.kernel.pages.len(), (self.kernel.end - self.kernel.begin) / PAGE_SIZE,
         self.user.pages.len(), (self.user.end - self.user.begin) / PAGE_SIZE)
    }

    /// Whether the allocator has been set up.
    pub fn is_inited(&self) -> (r: bool)
        ensures
            r == self.inited_spec(),
    {
        self.inited
    }
}

/// Freeing the page that an allocation just handed out puts the pool back exactly as it
/// was: same free list, hence the same counts.
pub proof fn lemma_free_undoes_alloc(s0: Pmem, s1: Pmem, s2: Pmem, pool: Pool, pa: usize)
    requires
        alloc_result(s0, s1, pool, pa),
        pa != 0,
        free_result(s1, s2, pool, pa),
    ensures
        s2.pool(pool).free() == s0.pool(pool).free(),
        s2.stat_of(Pool::Kernel) == s0.stat_of(Pool::Kernel),
        s2.stat_of(Pool::User) == s0.stat_of(Pool::User),
{
    assert(s0.pool(pool).free().len() > 0);
    assert(s2.pool(pool).free() =~= s0.pool(pool).free());
}

proof fn lemma_allocs_take_tail(a: Seq<Pmem>, pool: Pool, got: Seq<usize>, k: int)
    requires
        a.len() == got.len() + 1,
        0 <= k <= got.len(),
        forall|i: int| 0 <= i < got.len() ==> alloc_result(a[i], a[i + 1], pool, #[trigger] got[i]) && got[i] != 0,
    ensures
        k <= a[0].pool(pool).free().len(),
        a[k].pool(pool).free() == a[0].pool(pool).free().subrange(0, a[0].pool(pool).free().len() - k),
        a[k].pool(pool).begin() == a[0].pool(pool).begin(),
        a[k].pool(pool).end() == a[0].pool(pool).end(),
        a[k].pool(other_pool(pool)) == a[0].pool(other_pool(pool)),
        forall|j: int| 0 <= j < k ==> #[trigger] got[j] == a[0].pool(pool).free()[a[0].pool(pool).free().len() - 1 - j],
    decreases k,
{
    if k > 0 {
        lemma_allocs_take_tail(a, pool, got, k - 1);
        assert(alloc_result(a[k - 1], a[k], pool, got[k - 1]));
        let f0 = a[0].pool(pool).free();
        assert(a[k - 1].pool(pool).free().len() > 0);
        assert(a[k].pool(pool).free() =~= f0.subrange(0, f0.len() - k));
    }
}

proof fn lemma_frees_push(f: Seq<Pmem>, pool: Pool, back: Seq<usize>, k: int)
    requires
        f.len() == back.len() + 1,
        0 <= k <= back.len(),
        forall|i: int| 0 <= i < back.len() ==> free_result(#[trigger] f[i], f[i + 1], pool, back[i]),
    ensures
        f[k].pool(pool).free() == f[0].pool(pool).free() + back.subrange(0, k),
        f[k].pool(pool).begin() == f[0].pool(pool).begin(),
        f[k].pool(pool).end() == f[0].pool(pool).end(),
        f[k].pool(other_pool(pool)) == f[0].pool(other_pool(pool)),
    decreases k,
{
    if k > 0 {
        lemma_frees_push(f, pool, back, k - 1);
        assert(free_result(f[k - 1], f[k], pool, back[k - 1]));
        assert(f[k].pool(pool).free() =~= f[0].pool(pool).free() + back.subrange(0, k));
    }
}

/// The pool that is not `pool`.
pub open spec fn other_pool(pool: Pool) -> Pool {
    if pool == Pool::Kernel { Pool::User } else { Pool::Kernel }
}

/// Allocating N pages from a pool with `pmem_alloc` and then freeing N pages to it with
/// `pmem_free` (each call's effect as its contract states it) brings the counts that
/// `pmem_stat` reports for both pools back to what they were, whichever pages are given
/// back; when the pages go back in the reverse of the order they came out, the free list
/// itself is as it was.
pub proof fn lemma_allocs_then_frees(a: Seq<Pmem>, f: Seq<Pmem>, pool: Pool, got: Seq<usize>, back: Seq<usize>)
    requires
        a.len() == got.len() + 1,
        f.len() == back.len() + 1,
        back.len() == got.len(),
        f[0] == a[got.len() as int],
        forall|i: int| 0 <= i < got.len() ==> alloc_result(a[i], a[i + 1], pool, #[trigger] got[i]) && got[i] != 0,
        forall|i: int| 0 <= i < back.len() ==> free_result(#[trigger] f[i], f[i + 1], pool, back[i]),
    ensures
        f[back.len() as int].stat_of(Pool::Kernel) == a[0].stat_of(Pool::Kernel),
        f[back.len() as int].stat_of(Pool::User) == a[0].stat_of(Pool::User),
        (forall|i: int| 0 <= i < back.len() ==> #[trigger] back[i] == got[got.len() - 1 - i])
            ==> f[back.len() as int].pool(pool).free() == a[0].pool(pool).free(),
{
    let n = got.len() as int;
    lemma_allocs_take_tail(a, pool, got, n);
    lemma_frees_push(f, pool, back, n);
    let f0 = a[0].pool(pool).free();
    let fin = f[n].pool(pool).free();
    assert(back.subrange(0, n) =~= back);
    assert(fin.len() == f0.len());
    if forall|i: int| 0 <= i < back.len() ==> #[trigger] back[i] == got[got.len() - 1 - i] {
        assert forall|i: int| 0 <= i < f0.len() implies #[trigger] fin[i] == f0[i] by {
            if i >= f0.len() - n {
                let j = i - (f0.len() - n);
                assert(back[j] == got[n - 1 - j]);
                assert(got[n - 1 - j] == f0[f0.len() - 1 - (n - 1 - j)]);
            }
        }
        assert(fin =~= f0);
    }
    if pool == Pool::Kernel {
        assert(other_pool(pool) == Pool::User);
    } else {
        assert(other_pool(pool) == Pool::Kernel);
    }
}

/// A page just given back is the next page handed out.
pub proof fn lemma_alloc_after_free(s0: Pmem, s1: Pmem, s2: Pmem, pool: Pool, pa: usize, pb: usize)
    requires
        free_result(s0, s1, pool, pa),
        alloc_result(s1, s2, pool, pb),
    ensures
        pb == pa,
        s2.pool(pool).free() == s0.pool(pool).free(),
{
    assert(s2.pool(pool).free() =~= s0.pool(pool).free());
}

/// Allocating never hands out a page that is still allocated: the page comes from the
/// free list, so every previously allocated page stays allocated and differs from it.
pub proof fn lemma_alloc_fresh(s0: Pmem, s1: Pmem, pool: Pool, pa: usize, q: int)
    requires
        s0.wf(),
        alloc_result(s0, s1, pool, pa),
        pa != 0,
        s0.pool(pool).allocated(q),
    ensures
        q != pa,
        s1.pool(pool).allocated(q),
{
    assert(s0.pool(pool).free().contains(pa));
    if s1.pool(pool).free().contains(q as usize) {
        let i = choose|i: int| 0 <= i < s1.pool(pool).free().len() && s1.pool(pool).free()[i] == q as usize;
        assert(s0.pool(pool).free()[i] == q as usize);
    }
}


impl Pmem {
    /// Reads word `i` of the kernel-pool page at `pa`.
    pub fn read_word(&self, pa: usize, i: usize) -> (r: u64)
        requires
            self.wf(),
            self.pool(Pool::Kernel).owns(pa as int),
            i < PAGE_WORDS,
        ensures
            r == self.word(pa as int, i as int),
    {
        proof {
            self.lemma_pool_pages_in_mem(Pool::Kernel, pa as int);
        }
        self.words[(pa - self.base) / 8 + i]
    }

    /// Writes word `i` of the kernel-pool page at `pa`; nothing else changes.
    pub fn write_word(&mut self, pa: usize, i: usize, v: u64)
        requires
            old(self).wf(),
            old(self).pool(Pool::Kernel).owns(pa as int),
            i < PAGE_WORDS,
        ensures
            final(self).wf(),
            final(self).pool(Pool::Kernel) == old(self).pool(Pool::Kernel),
            final(self).pool(Pool::User) == old(self).pool(Pool::User),
            final(self).mem_base() == old(self).mem_base(),
            final(self).inited_spec() == old(self).inited_spec(),
            final(self).mem() == old(self).mem().update(word_index(old(self).mem_base(), pa as int) + i, v),
            final(self).mem().len() == old(self).mem().len(),
            final(self).word(pa as int, i as int) == v,
    {
        proof {
            old(self).lemma_pool_pages_in_mem(Pool::Kernel, pa as int);
        }
        let w = (pa - self.base) / 8 + i;
        self.words.set(w, v);
    }
}

/// Word `i` of page `p` and word `j` of page `q` are the same memory word only when
/// both the pages and the offsets agree.
pub proof fn lemma_word_distinct(m: Pmem, p: int, i: int, q: int, j: int)
    requires
        m.wf(),
        m.pool(Pool::Kernel).owns(p),
        m.pool(Pool::Kernel).owns(q),
        0 <= i < PAGE_WORDS,
        0 <= j < PAGE_WORDS,
        p != q || i != j,
    ensures
        word_index(m.mem_base(), p) + i != word_index(m.mem_base(), q) + j,
{
    m.lemma_pool_pages_in_mem(Pool::Kernel, p);
    m.lemma_pool_pages_in_mem(Pool::Kernel, q);
    let a = word_index(m.mem_base(), p);
    let b = word_index(m.mem_base(), q);
    vstd::arithmetic::div_mod::lemma_fundamental_div_mod(p - m.mem_base(), PAGE_SIZE as int);
    vstd::arithmetic::div_mod::lemma_fundamental_div_mod(q - m.mem_base(), PAGE_SIZE as int);
    if p != q {
        assert(a != b);
        assert(a % 512 == 0 && b % 512 == 0);
        assert(a + i != b + j) by (nonlinear_arith)
            requires a % 512 == 0, b % 512 == 0, a != b, 0 <= i < 512, 0 <= j < 512;
    }
}


/// The words of two different pages do not overlap.
pub proof fn lemma_pages_disjoint(m: Pmem, p: int, q: int)
    requires
        m.wf(),
        m.pool(Pool::Kernel).owns(p),
        m.pool(Pool::Kernel).owns(q),
        p != q,
    ensures
        word_index(m.mem_base(), p) + PAGE_WORDS <= word_index(m.mem_base(), q)
            || word_index(m.mem_base(), q) + PAGE_WORDS <= word_index(m.mem_base(), p),
{
    m.lemma_pool_pages_in_mem(Pool::Kernel, p);
    m.lemma_pool_pages_in_mem(Pool::Kernel, q);
    let a = word_index(m.mem_base(), p);
    let b = word_index(m.mem_base(), q);
    vstd::arithmetic::div_mod::lemma_fundamental_div_mod(p - m.mem_base(), PAGE_SIZE as int);
    vstd::arithmetic::div_mod::lemma_fundamental_div_mod(q - m.mem_base(), PAGE_SIZE as int);
    assert(a != b);
    assert(a + 512 <= b || b + 512 <= a) by (nonlinear_arith)
        requires a % 512 == 0, b % 512 == 0, a != b;
}

/// A kernel allocation leaves every other kernel page's words as they were.
pub proof fn lemma_alloc_keeps_other_pages(s0: Pmem, s1: Pmem, pa: usize, q: int, i: int)
    requires
        s0.wf(),
        alloc_result(s0, s1, Pool::Kernel, pa),
        pa != 0,
        s0.pool(Pool::Kernel).owns(pa as int),
        s0.pool(Pool::Kernel).owns(q),
        q != pa,
        0 <= i < PAGE_WORDS,
    ensures
        s1.word(q, i) == s0.word(q, i),
{
    lemma_pages_disjoint(s0, q, pa as int);
    s0.lemma_pool_pages_in_mem(Pool::Kernel, q);
    let w = word_index(s0.mem_base(), q) + i;
    assert(s1.mem()[w] == s0.mem()[w]);
}


/// The page and megapage sizes are powers of two.
pub proof fn lemma_page_sizes_pow2()
    ensures
        is_pow2(PAGE_SIZE),
        is_pow2(0x20_0000),
{
    vstd::arithmetic::power2::lemma2_to64();
    assert(PAGE_SIZE == pow2(12));
    assert(0x20_0000 == pow2(21));
}


/// Byte `k` (0 is the lowest) of the little-endian word `w`.
pub open spec fn byte_of(w: u64, k: int) -> u8 {
    ((w >> ((8 * k) as u64)) & 0xff) as u8
}

/// The word `w` with byte `k` replaced by `b`.
pub open spec fn with_byte(w: u64, k: int, b: u8) -> u64 {
    (w & !(0xffu64 << ((8 * k) as u64))) | ((b as u64) << ((8 * k) as u64))
}

/// Replacing one byte of a word changes that byte and no other.
pub proof fn lemma_with_byte(w: u64, k: u64, j: u64, b: u8)
    requires
        k < 8,
        j < 8,
    ensures
        byte_of(with_byte(w, k as int, b), j as int) == if j == k { b } else { byte_of(w, j as int) },
{
    let s = (8 * k) as u64;
    let t = (8 * j) as u64;
    let bb = b as u64;
    assert((((w & !(0xffu64 << s)) | (bb << s)) >> t) & 0xff == if j == k { bb } else { (w >> t) & 0xff }) by (bit_vector)
        requires k < 8, j < 8, s == 8 * k, t == 8 * j, bb < 256;
}

impl Pmem {
    /// `pa` is a byte of the memory model.
    pub open spec fn holds_byte(&self, pa: int) -> bool {
        self.mem_base() <= pa < self.mem_base() + 8 * self.mem().len()
    }

    /// The byte at physical address `pa` (words are little endian).
    pub open spec fn byte(&self, pa: int) -> u8 {
        byte_of(self.mem()[word_index(self.mem_base(), pa)], (pa - self.mem_base()) % 8)
    }

    /// Whether `pa` is the address of a kernel-pool page.
    pub fn is_kernel_page(&self, pa: usize) -> (r: bool)
        requires
            self.wf(),
        ensures
            r == self.pool(Pool::Kernel).owns(pa as int),
    {
        let begin = self.kernel.begin;
        let end = self.kernel.end;
        pa >= begin && pa % PAGE_SIZE == 0 && pa <= end && end - pa >= PAGE_SIZE
    }

    /// Whether `pa` is the address of a user-pool page.
    pub fn is_user_page(&self, pa: usize) -> (r: bool)
        requires
            self.wf(),
        ensures
            r == self.pool(Pool::User).owns(pa as int),
    {
        let begin = self.user.begin;
        let end = self.user.end;
        pa >= begin && pa % PAGE_SIZE == 0 && pa <= end && end - pa >= PAGE_SIZE
    }

    /// Whether `pa` is a byte of the memory model.
    pub fn has_byte(&self, pa: usize) -> (r: bool)
        requires
            self.wf(),
        ensures
            r == self.holds_byte(pa as int),
    {
        pa >= self.base && (pa - self.base) / 8 < self.words.len()
    }

    /// Reads the byte at `pa`.
    pub fn read_byte(&self, pa: usize) -> (r: u8)
        requires
            self.wf(),
            self.holds_byte(pa as int),
        ensures
            r == self.byte(pa as int),
    {
        let w = self.words[(pa - self.base) / 8];
        let k = ((pa - self.base) % 8) as u64;
        ((w >> (8 * k)) & 0xff) as u8
    }

    /// Writes the byte at `pa`; the word holding it changes in that byte alone.
    pub fn write_byte(&mut self, pa: usize, b: u8)
        requires
            old(self).wf(),
            old(self).holds_byte(pa as int),
        ensures
            final(self).wf(),
            final(self).pool(Pool::Kernel) == old(self).pool(Pool::Kernel),
            final(self).pool(Pool::User) == old(self).pool(Pool::User),
            final(self).mem_base() == old(self).mem_base(),
            final(self).inited_spec() == old(self).inited_spec(),
            final(self).mem() == old(self).mem().update(word_index(old(self).mem_base(), pa as int),
                with_byte(old(self).mem()[word_index(old(self).mem_base(), pa as int)], (pa - old(self).mem_base()) % 8, b)),
    {
        let i = (pa - self.base) / 8;
        let k = ((pa - self.base) % 8) as u64;
        let w = self.words[i];
        let nw = (w & !(0xffu64 << (8 * k))) | ((b as u64) << (8 * k));
        self.words.set(i, nw);
    }
}

/// After a byte write at `pa`, the byte at `pa` reads back and every other byte of the
/// memory model is as before.
pub proof fn lemma_byte_write(m0: Pmem, m1: Pmem, pa: int, b: u8, q: int)
    requires
        m0.wf(),
        m0.holds_byte(pa),
        m0.holds_byte(q),
        m1.mem_base() == m0.mem_base(),
        m1.mem() == m0.mem().update(word_index(m0.mem_base(), pa),
            with_byte(m0.mem()[word_index(m0.mem_base(), pa)], (pa - m0.mem_base()) % 8, b)),
    ensures
        m1.byte(q) == if q == pa { b } else { m0.byte(q) },
{
    let base = m0.mem_base();
    let wp = word_index(base, pa);
    let wq = word_index(base, q);
    let kp = (pa - base) % 8;
    let kq = (q - base) % 8;
    assert(0 <= wp < m0.mem().len()) by {
        vstd::arithmetic::div_mod::lemma_fundamental_div_mod(pa - base, 8);
    }
    assert(0 <= wq < m0.mem().len()) by {
        vstd::arithmetic::div_mod::lemma_fundamental_div_mod(q - base, 8);
    }
    if wq == wp {
        lemma_with_byte(m0.mem()[wp], kp as u64, kq as u64, b);
        if q != pa {
            vstd::arithmetic::div_mod::lemma_fundamental_div_mod(pa - base, 8);
            vstd::arithmetic::div_mod::lemma_fundamental_div_mod(q - base, 8);
            assert(kq != kp);
        }
    }
}


/// The words of the user-pool pages of `m0` read the same in `m1`.
pub open spec fn user_words_kept(m0: Pmem, m1: Pmem) -> bool {
    forall|q: int, i: int| m0.pool(Pool::User).owns(q) && 0 <= i < PAGE_WORDS
        ==> #[trigger] m1.word(q, i) == m0.word(q, i)
}

/// A word of a kernel-pool page is never a word of a user-pool page.
pub proof fn lemma_kernel_user_words(m: Pmem, t: int, i: int, q: int, j: int)
    requires
        m.wf(),
        m.pool(Pool::Kernel).owns(t),
        m.pool(Pool::User).owns(q),
        0 <= i < PAGE_WORDS,
        0 <= j < PAGE_WORDS,
    ensures
        word_index(m.mem_base(), t) + i < word_index(m.mem_base(), q) + j
            || word_index(m.mem_base(), t) + i > word_index(m.mem_base(), q) + j,
        word_index(m.mem_base(), t) + i < word_index(m.mem_base(), q),
{
    m.lemma_pool_layout();
    let base = m.mem_base();
    vstd::arithmetic::div_mod::lemma_fundamental_div_mod(t - base, 8);
    vstd::arithmetic::div_mod::lemma_fundamental_div_mod(q - base, 8);
    assert((t - base) % 8 == 0) by {
        vstd::arithmetic::div_mod::lemma_mod_adds(base, t - base, PAGE_SIZE as int);
        vstd::arithmetic::div_mod::lemma_fundamental_div_mod(t - base, 4096);
        vstd::arithmetic::div_mod::lemma_mod_breakdown(t - base, 8, 512);
    }
}

/// A kernel allocation keeps the words of the user pool.
pub proof fn lemma_kernel_alloc_keeps_user(s0: Pmem, s1: Pmem, pa: usize)
    requires
        s0.wf(),
        alloc_result(s0, s1, Pool::Kernel, pa),
    ensures
        user_words_kept(s0, s1),
{
    assert forall|q: int, i: int| s0.pool(Pool::User).owns(q) && 0 <= i < PAGE_WORDS
        implies #[trigger] s1.word(q, i) == s0.word(q, i) by {
        if pa != 0 {
            s0.lemma_free_distinct(Pool::Kernel);
            assert(s0.pool(Pool::Kernel).free().contains(pa));
            lemma_kernel_user_words(s0, pa as int, 0, q, i);
            lemma_kernel_user_words(s0, pa as int, 511, q, i);
            s0.lemma_pool_pages_in_mem(Pool::User, q);
        }
    }
}

/// A write to a word of a kernel page keeps the words of the user pool.
pub proof fn lemma_kernel_write_keeps_user(s0: Pmem, s1: Pmem, pa: int, k: int, v: u64)
    requires
        s0.wf(),
        s0.pool(Pool::Kernel).owns(pa),
        0 <= k < PAGE_WORDS,
        s1.mem_base() == s0.mem_base(),
        s1.mem() == s0.mem().update(word_index(s0.mem_base(), pa) + k, v),
    ensures
        user_words_kept(s0, s1),
{
    assert forall|q: int, i: int| s0.pool(Pool::User).owns(q) && 0 <= i < PAGE_WORDS
        implies #[trigger] s1.word(q, i) == s0.word(q, i) by {
        lemma_kernel_user_words(s0, pa, k, q, i);
        s0.lemma_pool_pages_in_mem(Pool::User, q);
        s0.lemma_pool_pages_in_mem(Pool::Kernel, pa);
    }
}


/// An allocation from `pool` zeroes the page it hands out and keeps every other page of
/// that pool.
pub proof fn lemma_alloc_page_words(s0: Pmem, s1: Pmem, pool: Pool, pa: usize, q: int, i: int)
    requires
        s0.wf(),
        alloc_result(s0, s1, pool, pa),
        pa != 0,
        s0.pool(pool).owns(q),
        0 <= i < PAGE_WORDS,
    ensures
        s1.word(q, i) == if q == pa { 0 } else { s0.word(q, i) },
{
    s0.lemma_free_distinct(pool);
    assert(s0.pool(pool).free().contains(pa));
    s0.lemma_pool_pages_in_mem(pool, q);
    s0.lemma_pool_pages_in_mem(pool, pa as int);
    let a = word_index(s0.mem_base(), pa as int);
    let b = word_index(s0.mem_base(), q);
    if q != pa {
        vstd::arithmetic::div_mod::lemma_fundamental_div_mod(pa - s0.mem_base(), PAGE_SIZE as int);
        vstd::arithmetic::div_mod::lemma_fundamental_div_mod(q - s0.mem_base(), PAGE_SIZE as int);
        assert(a != b);
        assert(a + 512 <= b || b + 512 <= a) by (nonlinear_arith)
            requires a % 512 == 0, b % 512 == 0, a != b;
    }
}


/// An allocation from the user pool keeps the words of every kernel page.
pub proof fn lemma_user_alloc_keeps_kernel(s0: Pmem, s1: Pmem, pa: usize, q: int, i: int)
    requires
        s0.wf(),
        alloc_result(s0, s1, Pool::User, pa),
        s0.pool(Pool::Kernel).owns(q),
        0 <= i < PAGE_WORDS,
    ensures
        s1.word(q, i) == s0.word(q, i),
{
    s0.lemma_pool_pages_in_mem(Pool::Kernel, q);
    if pa != 0 {
        s0.lemma_free_distinct(Pool::User);
        assert(s0.pool(Pool::User).free().contains(pa));
        lemma_kernel_user_words(s0, q, i, pa as int, 0);
    }
}


impl Pmem {
    /// Copies the page at `src` into the page at `dst`, byte by byte; no other byte changes.
    pub fn copy_page(&mut self, src: usize, dst: usize)
        requires
            old(self).wf(),
            old(self).in_mem(src as int),
            old(self).in_mem(dst as int),
            src != dst,
        ensures
            final(self).wf(),
            final(self).pool(Pool::Kernel) == old(self).pool(Pool::Kernel),
            final(self).pool(Pool::User) == old(self).pool(Pool::User),
            final(self).mem_base() == old(self).mem_base(),
            final(self).mem().len() == old(self).mem().len(),
            final(self).inited_spec() == old(self).inited_spec(),
            forall|q: int| old(self).holds_byte(q) ==> #[trigger] final(self).byte(q)
                == if dst <= q < dst + PAGE_SIZE { old(self).byte(src + (q - dst)) } else { old(self).byte(q) },
            forall|q: int, i: int| 0 <= i < PAGE_WORDS && old(self).in_mem(q) && q != dst
                ==> #[trigger] final(self).word(q, i) == old(self).word(q, i),
    {
        let ghost m0 = *self;
        proof {
            lemma_pages_apart(m0, src as int, dst as int);
        }
        let mut o: usize = 0;
        while o < PAGE_SIZE
            invariant
                m0.wf(),
                self.wf(),
                m0.in_mem(src as int),
                m0.in_mem(dst as int),
                src + PAGE_SIZE <= dst || dst + PAGE_SIZE <= src,
                o <= PAGE_SIZE,
                self.pool(Pool::Kernel) == m0.pool(Pool::Kernel),
                self.pool(Pool::User) == m0.pool(Pool::User),
                self.mem_base() == m0.mem_base(),
                self.mem().len() == m0.mem().len(),
                self.inited_spec() == m0.inited_spec(),
                forall|q: int| m0.holds_byte(q) ==> #[trigger] self.byte(q)
                    == if dst <= q < dst + o { m0.byte(src + (q - dst)) } else { m0.byte(q) },
                forall|q: int, i: int| 0 <= i < PAGE_WORDS && m0.in_mem(q) && q != dst
                    ==> #[trigger] self.word(q, i) == m0.word(q, i),
            decreases PAGE_SIZE - o,
        {
            let b = self.read_byte(src + o);
            let ghost m1 = *self;
            self.write_byte(dst + o, b);
            proof {
                assert forall|q: int| m0.holds_byte(q) implies #[trigger] self.byte(q)
                    == if dst <= q < dst + o + 1 { m0.byte(src + (q - dst)) } else { m0.byte(q) } by {
                    lemma_byte_write(m1, *self, dst + o, b, q);
                }
                assert forall|q: int, i: int| 0 <= i < PAGE_WORDS && m0.in_mem(q) && q != dst
                    implies #[trigger] self.word(q, i) == m0.word(q, i) by {
                    lemma_word_outside_page(m1, *self, b, dst as int, o as int, q, i);
                }
            }
            o = o + 1;
        }
    }
}

/// Two different pages of memory do not overlap.
pub proof fn lemma_pages_apart(m: Pmem, p: int, q: int)
    requires
        m.wf(),
        m.in_mem(p),
        m.in_mem(q),
        p != q,
    ensures
        p + PAGE_SIZE <= q || q + PAGE_SIZE <= p,
{
    vstd::arithmetic::div_mod::lemma_fundamental_div_mod(p - m.mem_base(), PAGE_SIZE as int);
    vstd::arithmetic::div_mod::lemma_fundamental_div_mod(q - m.mem_base(), PAGE_SIZE as int);
    let a = (p - m.mem_base()) / PAGE_SIZE as int;
    let b = (q - m.mem_base()) / PAGE_SIZE as int;
    assert(a != b);
    assert(a + 1 <= b || b + 1 <= a);
    assert(p + PAGE_SIZE <= q || q + PAGE_SIZE <= p) by (nonlinear_arith)
        requires p - m.mem_base() == 4096 * a, q - m.mem_base() == 4096 * b, a + 1 <= b || b + 1 <= a;
}

/// A byte write inside the page at `dst` leaves the words of every other page.
proof fn lemma_word_outside_page(m1: Pmem, m2: Pmem, b: u8, dst: int, o: int, q: int, i: int)
    requires
        m1.wf(),
        m1.in_mem(dst),
        0 <= o < PAGE_SIZE,
        m1.in_mem(q),
        q != dst,
        0 <= i < PAGE_WORDS,
        m2.mem_base() == m1.mem_base(),
        m2.mem() == m1.mem().update(word_index(m1.mem_base(), dst + o),
            with_byte(m1.mem()[word_index(m1.mem_base(), dst + o)], (dst + o - m1.mem_base()) % 8, b)),
    ensures
        m2.word(q, i) == m1.word(q, i),
{
    lemma_pages_apart(m1, dst, q);
    let base = m1.mem_base();
    vstd::arithmetic::div_mod::lemma_fundamental_div_mod(dst - base, PAGE_SIZE as int);
    vstd::arithmetic::div_mod::lemma_fundamental_div_mod(q - base, PAGE_SIZE as int);
    let a = (dst - base) / PAGE_SIZE as int;
    let c = (q - base) / PAGE_SIZE as int;
    assert(word_index(base, dst + o) == 512 * a + o / 8) by {
        assert(dst + o - base == 4096 * a + o);
        assert((4096 * a + o) / 8 == 512 * a + o / 8) by (nonlinear_arith)
            requires 0 <= o < 4096;
    }
    assert(word_index(base, q) == 512 * c) by {
        assert((4096 * c) / 8 == 512 * c) by (nonlinear_arith);
    }
    assert(a != c);
    assert(512 * a + o / 8 != 512 * c + i) by (nonlinear_arith)
        requires a != c, 0 <= o < 4096, 0 <= i < 512;
    assert(0 <= 512 * c + i < m1.mem().len()) by {
        assert(q + PAGE_SIZE <= base + 8 * m1.mem().len());
        assert(512 * c + 512 <= m1.mem().len()) by (nonlinear_arith)
            requires q - base == 4096 * c, q + 4096 <= base + 8 * m1.mem().len();
    }
}


/// The page of the memory model that holds the byte at `q`.
pub open spec fn page_of(m: Pmem, q: int) -> int {
    m.mem_base() + (q - m.mem_base()) / PAGE_SIZE as int * PAGE_SIZE as int
}

/// A byte of the memory model lies in a page of it, in the word of that page at its
/// offset over 8.
pub proof fn lemma_byte_via_word(m: Pmem, q: int)
    requires
        m.wf(),
        m.holds_byte(q),
    ensures
        m.in_mem(page_of(m, q)),
        page_of(m, q) <= q < page_of(m, q) + PAGE_SIZE,
        m.byte(q) == byte_of(m.word(page_of(m, q), (q - page_of(m, q)) / 8), (q - page_of(m, q)) % 8),
        q >= m.pool(Pool::User).begin() ==> m.pool(Pool::User).owns(page_of(m, q)),
        q < m.pool(Pool::User).begin() ==> m.pool(Pool::Kernel).owns(page_of(m, q)),
{
    m.lemma_pool_layout();
    let base = m.mem_base();
    let d = q - base;
    let a = d / 4096;
    let r = d % 4096;
    vstd::arithmetic::div_mod::lemma_fundamental_div_mod(d, 4096);
    let p = page_of(m, q);
    assert(p == base + 4096 * a);
    assert(q == p + r);
    assert(0 <= r < 4096);
    assert((p - base) % 4096 == 0) by {
        vstd::arithmetic::div_mod::lemma_mod_multiples_basic(a, 4096);
    }
    assert(word_index(base, q) == word_index(base, p) + r / 8 && d % 8 == r % 8) by {
        assert((4096 * a + r) / 8 == 512 * a + r / 8 && (4096 * a) / 8 == 512 * a && (4096 * a + r) % 8 == r % 8) by (nonlinear_arith)
            requires 0 <= r < 4096;
    }
    assert(p + PAGE_SIZE <= base + 8 * m.mem().len()) by {
        assert(q < base + 8 * m.mem().len());
        let len8 = 8 * m.mem().len();
        assert(len8 % 4096 == 0) by {
            assert(m.pool(Pool::User).end() - base == len8);
            assert((m.pool(Pool::User).end() - base) % 4096 == 0) by {
                assert(m.pool(Pool::User).end() % 4096 == 0);
                vstd::arithmetic::div_mod::lemma_mod_sub_multiples_vanish(m.pool(Pool::User).end(), 4096);
                assert(base % 4096 == 0);
                vstd::arithmetic::div_mod::lemma_sub_mod_noop(m.pool(Pool::User).end(), base, 4096);
            }
        }
        assert(4096 * a + 4096 <= len8) by (nonlinear_arith)
            requires 4096 * a + r < len8, len8 % 4096 == 0, 0 <= r < 4096, a >= 0;
    }
    assert(p % 4096 == 0) by {
        vstd::arithmetic::div_mod::lemma_mod_adds(base, 4096 * a, 4096);
        vstd::arithmetic::div_mod::lemma_mod_multiples_basic(a, 4096);
    }
    if q >= m.pool(Pool::User).begin() {
        let ub = m.pool(Pool::User).begin();
        assert(p >= ub) by (nonlinear_arith)
            requires q >= ub, ub % 4096 == 0, p % 4096 == 0, q == p + r, 0 <= r < 4096;
    } else {
        let ub = m.pool(Pool::User).begin();
        assert(p + 4096 <= ub) by (nonlinear_arith)
            requires q < ub, ub % 4096 == 0, p % 4096 == 0, q == p + r, 0 <= r < 4096;
    }
}

}
