//! Physical pages by pool flag: the kernel pool takes the first `KERNEL_PAGES` pages
//! after the kernel image, the user pool the rest of memory.
use vstd::prelude::*;
use crate::mm::pmem::{Pmem, Pool, pmem_init, kernel_pool_begin, kernel_pool_end, user_pool_end, PAGE_SIZE, PHYS_LIMIT};

verus! {

/// Pages of the kernel pool.
pub const KERNEL_PAGES: usize = 1024;

/// The pool a flag names.
pub open spec fn pool_of(kernel: bool) -> Pool {
    if kernel { Pool::Kernel } else { Pool::User }
}

/// Splits the memory from `kernel_end` (rounded up to a page) to `dram_end` into the two
/// pools, every page free.
pub fn init(kernel_end: usize, dram_end: usize) -> (m: Pmem)
    requires
        0 < kernel_end <= dram_end,
        PAGE_SIZE <= dram_end,
        dram_end <= PHYS_LIMIT,
        dram_end + PAGE_SIZE <= usize::MAX,
    ensures
        m.wf(),
        m.pool(Pool::Kernel).begin() == kernel_pool_begin(kernel_end as int, dram_end as int),
        m.pool(Pool::Kernel).end() == kernel_pool_end(kernel_end as int, dram_end as int),
        m.pool(Pool::User).begin() == kernel_pool_end(kernel_end as int, dram_end as int),
        m.pool(Pool::User).end() == user_pool_end(dram_end as int),
        m.stat_of(Pool::Kernel).0 == m.stat_of(Pool::Kernel).1,
        m.stat_of(Pool::User).0 == m.stat_of(Pool::User).1,
{
    pmem_init(kernel_end, dram_end)
}

/// A zeroed page from the kernel pool (`kernel`) or the user pool. The pool must have a
/// free page: running out is fatal.
pub fn alloc_page(m: &mut Pmem, kernel: bool) -> (pa: usize)
    requires
        old(m).wf(),
        old(m).pool(pool_of(kernel)).free().len() > 0,
    ensures
        final(m).wf(),
        crate::mm::pmem::alloc_result(*old(m), *final(m), pool_of(kernel), pa),
        pa != 0,
{
    let pool = if kernel { Pool::Kernel } else { Pool::User };
    m.pmem_alloc(pool)
}

/// Gives page `pa` back to the pool it came from.
pub fn free(m: &mut Pmem, pa: usize, kernel: bool)
    requires
        old(m).wf(),
        old(m).pool(pool_of(kernel)).allocated(pa as int),
    ensures
        final(m).wf(),
        crate::mm::pmem::free_result(*old(m), *final(m), pool_of(kernel), pa),
{
    let pool = if kernel { Pool::Kernel } else { Pool::User };
    m.pmem_free(pa, pool)
}

/// Free pages of the kernel pool (`kernel`) or of the user pool.
pub fn stat(m: &Pmem, kernel: bool) -> (n: usize)
    requires
        m.wf(),
    ensures
        n == m.stat_of(pool_of(kernel)).0,
{
    let s = m.pmem_stat();
    if kernel { s.0 } else { s.2 }
}

}
