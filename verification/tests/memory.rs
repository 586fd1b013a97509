use lib::mm::pmem::{align_down, align_up, pmem_init, Pool, PAGE_SIZE};
use lib::mm::vm::{kvm_init, kvm_stat, kvm_translate, make_pte, pte_is_leaf, pte_is_valid, pte_to_pa, vpn_of, PageTable, PTE_R, PTE_V, PTE_W, PTE_X};

const BASE: usize = 0x8000_0000;

#[test]
fn pmem_align_values() {
    assert_eq!(align_up(0x1001, 0x1000), 0x2000);
    assert_eq!(align_up(0x1000, 0x1000), 0x1000);
    assert_eq!(align_down(0x1fff, 0x1000), 0x1000);
    assert_eq!(align_down(7, 1), 7);
}

#[test]
fn pmem_pools_split_kernel_first() {
    let m = pmem_init(BASE + 10, BASE + 1100 * PAGE_SIZE);
    let (kfree, ktotal, ufree, utotal) = m.pmem_stat();
    assert_eq!((kfree, ktotal), (1024, 1024));
    // the first page is partly used by the kernel image, so 1099 whole pages remain
    assert_eq!((ufree, utotal), (1099 - 1024, 1099 - 1024));
    assert!(m.is_inited());
}

#[test]
fn pmem_alloc_free_alloc_gives_same_page() {
    let mut m = pmem_init(BASE, BASE + 16 * PAGE_SIZE);
    let a = m.pmem_alloc(Pool::Kernel);
    assert_ne!(a, 0);
    assert_eq!(a % PAGE_SIZE, 0);
    m.write_word(a, 3, 0xdead);
    assert_eq!(m.read_word(a, 3), 0xdead);
    m.pmem_free(a, Pool::Kernel);
    let b = m.pmem_alloc(Pool::Kernel);
    assert_eq!(a, b);
    // a page comes back zeroed
    assert_eq!(m.read_word(b, 3), 0);
}

#[test]
fn pmem_exhaustion_returns_zero() {
    let mut m = pmem_init(BASE, BASE + 4 * PAGE_SIZE);
    for _ in 0..4 {
        assert_ne!(m.pmem_alloc(Pool::Kernel), 0);
    }
    assert_eq!(m.pmem_alloc(Pool::Kernel), 0);
    assert_eq!(m.pmem_alloc(Pool::User), 0);
    assert_eq!(m.pmem_stat().0, 0);
}

#[test]
fn vm_pte_helpers() {
    let e = make_pte(0x8020_0000, PTE_V | PTE_R | PTE_W);
    assert!(!pte_is_valid(make_pte(0x8020_0000, PTE_R)));
    assert!(pte_is_valid(e));
    assert!(pte_is_leaf(e));
    assert_eq!(pte_to_pa(e), 0x8020_0000);
    assert_eq!(e & PTE_V, PTE_V);
    assert_eq!(vpn_of(0x8020_1000, 0), 0x001);
    assert_eq!(vpn_of(0x8020_1000, 1), 0x001);
    assert_eq!(vpn_of(0x8020_1000, 2), 0x002);
}

#[test]
fn vm_map_translate_unmap() {
    let mut m = pmem_init(BASE, BASE + 32 * PAGE_SIZE);
    let mut pt = PageTable::alloc_table(&mut m).expect("root");
    let page = m.pmem_alloc(Pool::Kernel);
    assert!(pt.map(&mut m, 0x40_0000, page, PTE_R | PTE_W).is_ok());
    assert_eq!(pt.translate_with(&m, 0x40_0123), Some(page + 0x123));
    assert_eq!(pt.translate_with(&m, 0x40_1000), None);
    assert_eq!(kvm_stat(&pt).1, 1);
    assert_eq!(pt.unmap(&mut m, 0x40_0000), Ok(page));
    assert_eq!(pt.translate_with(&m, 0x40_0123), None);
    assert!(pt.unmap(&mut m, 0x40_0000).is_err());
}

#[test]
fn vm_map_fails_without_table_pages() {
    let mut m = pmem_init(BASE, BASE + PAGE_SIZE);
    let mut pt = PageTable::alloc_table(&mut m).expect("root");
    // the only page went to the root: the two lower tables cannot be made
    assert!(pt.map(&mut m, 0x1000, 0x9000_0000, PTE_R).is_err());
    assert_eq!(pt.translate_with(&m, 0x1000), None);
}

#[test]
fn vm_kvm_init_identity_maps_regions() {
    let mut m = pmem_init(BASE, BASE + 64 * PAGE_SIZE);
    let regions = vec![(0x1000_0000usize, 0x1000usize, PTE_R | PTE_W), (0x8000_0000usize, 0x40_0000usize, PTE_R | PTE_W | PTE_X)];
    let pt = kvm_init(&mut m, &regions).expect("kvm");
    assert_eq!(kvm_translate(&pt, &m, 0x1000_0008), Some(0x1000_0008));
    assert_eq!(kvm_translate(&pt, &m, 0x8012_3456), Some(0x8012_3456));
    assert_eq!(kvm_translate(&pt, &m, 0x2000_0000), None);
}

#[test]
fn map_range_leaves_carry_perms() {
    let mut m = pmem_init(BASE, BASE + 64 * PAGE_SIZE);
    let mut pt = PageTable::alloc_table(&mut m).expect("root");
    // a 4 KiB head, one 2 MiB page, a 4 KiB tail
    assert!(pt.map_range(&mut m, 0x1f_f000, 0x20_2000, PTE_R | PTE_W).is_ok());
    let (head, lh) = pt.walk_leveled(&m, 0x1f_f000).expect("head");
    let (mid, lm) = pt.walk_leveled(&m, 0x30_0000).expect("middle");
    let (tail, lt) = pt.walk_leveled(&m, 0x40_0000).expect("tail");
    assert_eq!((lh, lm, lt), (0, 1, 0));
    for e in [head, mid, tail] {
        assert_eq!(e & 0x3ff, PTE_R | PTE_W | PTE_V);
    }
    assert_eq!(pt.translate_with(&m, 0x31_2345), Some(0x31_2345));
    assert!(pt.walk_leveled(&m, 0x40_1000).is_none());
}

#[test]
fn kvm_init_regions_keep_their_perms() {
    let mut m = pmem_init(BASE, BASE + 64 * PAGE_SIZE);
    let regions = vec![(0x1000_0000usize, 0x1000usize, PTE_R | PTE_W), (0x8000_0000usize, 0x40_0000usize, PTE_R | PTE_W | PTE_X)];
    let pt = kvm_init(&mut m, &regions).expect("kvm");
    let (uart, lu) = pt.walk_leveled(&m, 0x1000_0008).expect("uart");
    assert_eq!((lu, uart & 0x3ff), (0, PTE_R | PTE_W | PTE_V));
    let (code, lc) = pt.walk_leveled(&m, 0x8012_3456).expect("kernel");
    assert_eq!((lc, code & 0x3ff), (1, PTE_R | PTE_W | PTE_X | PTE_V));
}

#[test]
fn pmem_n_allocs_then_frees_restore_stat() {
    let mut m = pmem_init(BASE, BASE + 64 * PAGE_SIZE);
    let before = m.pmem_stat();
    let mut got = Vec::new();
    for _ in 0..5 {
        let pa = m.pmem_alloc(Pool::Kernel);
        assert_ne!(pa, 0);
        got.push(pa);
    }
    assert_eq!(m.pmem_stat().0, before.0 - 5);
    for pa in got.iter().rev() {
        m.pmem_free(*pa, Pool::Kernel);
    }
    assert_eq!(m.pmem_stat(), before);
    // given back in reverse, they come out again in the same order
    for pa in got.iter() {
        assert_eq!(m.pmem_alloc(Pool::Kernel), *pa);
    }
}
