use lib::mm::pmem::{pmem_init, Pool, PAGE_SIZE};
use lib::mm::uvm::{
    copy_from_user, copy_range, copy_str_from_user, destroy, copy_to_user, proc_make_user, user_translate, uvm_heap_grow, uvm_heap_ungrow,
    uvm_ustack_grow, USER_BASE, USER_STACK_BASE, USER_STACK_SIZE,
};
use lib::mm::vm::{kvm_create_process_table, kvm_init, kvm_translate, translate_at, PageTable, PTE_R, PTE_U, PTE_W, PTE_X};
use lib::proc::proc::proc_init;

const BASE: usize = 0x8000_0000;
const KERNEL_BASE: usize = 0x8000_0000;

fn kernel_regions() -> Vec<(usize, usize, u64)> {
    vec![(0x1000_0000usize, 0x1000usize, PTE_R | PTE_W), (0x8000_0000usize, 0x40_0000usize, PTE_R | PTE_W | PTE_X)]
}

#[test]
fn process_table_translates_as_kernel() {
    let mut m = pmem_init(BASE, BASE + MEM_PAGES * PAGE_SIZE);
    let kernel = kvm_init(&mut m, &kernel_regions()).expect("kvm");
    let mut proc_pt = kvm_create_process_table(Some(&kernel), &mut m).expect("process table");
    assert_ne!(proc_pt.root_ppn(), kernel.root_ppn());
    assert_eq!(kvm_translate(&proc_pt, &m, 0x1000_0008), Some(0x1000_0008));
    assert_eq!(kvm_translate(&proc_pt, &m, 0x8012_3456), Some(0x8012_3456));
    assert_eq!(kvm_translate(&proc_pt, &m, 0x2000_0000), None);
    // a user page of the process stays out of the kernel table
    let page = m.pmem_alloc(Pool::User);
    assert_ne!(page, 0);
    assert!(proc_pt.map(&mut m, 0x1000, page, PTE_R | PTE_W | PTE_U).is_ok());
    assert_eq!(kvm_translate(&proc_pt, &m, 0x1004), Some(page + 4));
    assert_eq!(kvm_translate(&kernel, &m, 0x1004), None);
    assert_eq!(kvm_translate(&kernel, &m, 0x1000_0008), Some(0x1000_0008));
}

#[test]
fn process_table_needs_kernel_table_and_pages() {
    let mut m = pmem_init(BASE, BASE + 64 * PAGE_SIZE);
    assert!(kvm_create_process_table(None, &mut m).is_none());
    let mut small = pmem_init(BASE, BASE + 4 * PAGE_SIZE);
    let kernel = kvm_init(&mut small, &vec![(0x1000_0000usize, 0x1000usize, PTE_R | PTE_W)]).expect("kvm");
    // root, level-1 and level-0 tables took three pages: one left, two needed
    assert!(kvm_create_process_table(Some(&kernel), &mut small).is_none());
}

// The kernel pool takes the first 4 MiB; the pages after it form the user pool.
const MEM_PAGES: usize = 1100;

fn user_setup() -> (lib::mm::pmem::Pmem, PageTable, lib::proc::proc::ProcTable, usize) {
    let mut m = pmem_init(BASE, BASE + MEM_PAGES * PAGE_SIZE);
    let mut pt = PageTable::alloc_table(&mut m).expect("root");
    let page = m.pmem_alloc(Pool::User);
    assert_ne!(page, 0);
    assert!(pt.map(&mut m, 0x1000, page, PTE_R | PTE_W | PTE_U).is_ok());
    let mut t = proc_init();
    t.procs[1].pgtbl = pt.root_ppn() * PAGE_SIZE;
    t.set_current(0, 1);
    (m, pt, t, page)
}

#[test]
fn user_translate_uses_current_process_table() {
    let (m, _pt, mut t, page) = user_setup();
    assert_eq!(user_translate(&t, Some(0), &m, 0x1005), Some(page + 5));
    assert_eq!(user_translate(&t, Some(0), &m, 0x2005), None);
    assert_eq!(user_translate(&t, None, &m, 0x1005), None);
    assert_eq!(user_translate(&t, Some(1), &m, 0x1005), None);
    t.procs[1].pgtbl = 0;
    assert_eq!(user_translate(&t, Some(0), &m, 0x1005), None);
}

#[test]
fn copy_to_user_then_from_user() {
    let (mut m, _pt, t, page) = user_setup();
    assert_eq!(copy_from_user(&t, Some(0), &m, KERNEL_BASE, 0x1005), Some(0));
    assert_eq!(copy_to_user(&t, Some(0), &mut m, KERNEL_BASE, 0x1005, 0x41), Some(()));
    assert_eq!(copy_from_user(&t, Some(0), &m, KERNEL_BASE, 0x1005), Some(0x41));
    assert_eq!(m.read_byte(page + 5), 0x41);
    assert_eq!(copy_from_user(&t, Some(0), &m, KERNEL_BASE, 0x1004), Some(0));
    // unmapped, kernel half, no process
    assert_eq!(copy_to_user(&t, Some(0), &mut m, KERNEL_BASE, 0x3000, 1), None);
    assert_eq!(copy_from_user(&t, Some(0), &m, KERNEL_BASE, 0x3000), None);
    assert_eq!(copy_from_user(&t, Some(0), &m, 0x1005, 0x1005), None);
    assert_eq!(copy_to_user(&t, None, &mut m, KERNEL_BASE, 0x1005, 1), None);
    assert_eq!(copy_from_user(&t, Some(0), &m, KERNEL_BASE, 0x1005), Some(0x41));
}

#[test]
fn copy_str_from_user_stops_at_nul() {
    let (mut m, _pt, t, _page) = user_setup();
    for (i, b) in b"hi".iter().enumerate() {
        assert!(copy_to_user(&t, Some(0), &mut m, KERNEL_BASE, 0x1010 + i, *b).is_some());
    }
    let mut dst = [0xffu8; 6];
    assert!(copy_str_from_user(&t, Some(0), &m, KERNEL_BASE, 0x1010, &mut dst));
    assert_eq!(dst, [b'h', b'i', 0, 0xff, 0xff, 0xff]);
}

#[test]
fn copy_str_from_user_limit_and_fault() {
    let (mut m, _pt, t, _page) = user_setup();
    for (i, b) in b"abc".iter().enumerate() {
        assert!(copy_to_user(&t, Some(0), &mut m, KERNEL_BASE, 0x1ffd + i, *b).is_some());
    }
    // dst full before the end of the string
    let mut two = [0u8; 2];
    assert!(!copy_str_from_user(&t, Some(0), &m, KERNEL_BASE, 0x1ffd, &mut two));
    assert_eq!(two, [b'a', b'b']);
    // the string runs into the unmapped page at 0x2000
    let mut dst = [0x55u8; 8];
    assert!(!copy_str_from_user(&t, Some(0), &m, KERNEL_BASE, 0x1ffd, &mut dst));
    assert_eq!(dst, [b'a', b'b', b'c', 0x55, 0x55, 0x55, 0x55, 0x55]);
}

#[test]
fn translate_at_walks_raw_root() {
    let (m, pt, _t, page) = user_setup();
    let root = pt.root_ppn() * PAGE_SIZE;
    assert_eq!(translate_at(&m, root, 0x1fff), Some(page + 0xfff));
    assert_eq!(translate_at(&m, root, 0x2000), None);
    // a root that is not a kernel page is refused
    assert_eq!(translate_at(&m, 0x1000, 0x1fff), None);
}

#[test]
fn heap_grow_maps_zeroed_pages() {
    let (mut m, mut pt, _t, _page) = user_setup();
    let user_free = m.pmem_stat().2;
    // from 0x2800 by 0x1900 bytes: pages 0x3000 and 0x4000 are new
    assert_eq!(uvm_heap_grow(&mut pt, &mut m, 0x2800, 0x1900), Some(0x4100));
    assert_eq!(m.pmem_stat().2, user_free - 2);
    let a = pt.translate_with(&m, 0x3000).expect("page 0x3000");
    let b = pt.translate_with(&m, 0x4ff8).expect("page 0x4000");
    assert_eq!(m.read_byte(a), 0);
    assert_eq!(m.read_byte(b), 0);
    assert_eq!(pt.translate_with(&m, 0x2800), None);
    assert_eq!(pt.translate_with(&m, 0x5000), None);
    // a grow within the current last page maps nothing
    assert_eq!(uvm_heap_grow(&mut pt, &mut m, 0x4100, 0x100), Some(0x4200));
    assert_eq!(m.pmem_stat().2, user_free - 2);
}

#[test]
fn heap_grow_refuses_out_of_range() {
    let (mut m, mut pt, _t, _page) = user_setup();
    let before = m.pmem_stat();
    assert_eq!(uvm_heap_grow(&mut pt, &mut m, 0x80_0000_0000 - 0x1000, 0x2000), None);
    assert_eq!(uvm_heap_grow(&mut pt, &mut m, usize::MAX - 4, 10), None);
    assert_eq!(m.pmem_stat(), before);
}

#[test]
fn heap_ungrow_returns_pages() {
    let (mut m, mut pt, _t, _page) = user_setup();
    let user_free = m.pmem_stat().2;
    assert_eq!(uvm_heap_grow(&mut pt, &mut m, 0x3000, 0x3000), Some(0x6000));
    assert_eq!(m.pmem_stat().2, user_free - 3);
    // shrinking back by the same amount frees the three pages and their mappings
    assert_eq!(uvm_heap_ungrow(&mut pt, &mut m, 0x6000, 0x3000), Some(0x3000));
    assert_eq!(m.pmem_stat().2, user_free);
    assert_eq!(pt.translate_with(&m, 0x3000), None);
    assert_eq!(pt.translate_with(&m, 0x5fff), None);
    // the page below the heap is untouched
    assert!(pt.translate_with(&m, 0x1000).is_some());
    // more than the top
    assert_eq!(uvm_heap_ungrow(&mut pt, &mut m, 0x3000, 0x4000), None);
}

#[test]
fn heap_grow_then_ungrow_gives_pages_back_in_order() {
    let (mut m, mut pt, _t, _page) = user_setup();
    let first = m.pmem_alloc(Pool::User);
    m.pmem_free(first, Pool::User);
    assert_eq!(uvm_heap_grow(&mut pt, &mut m, 0x8000, 0x2000), Some(0xa000));
    assert_eq!(uvm_heap_ungrow(&mut pt, &mut m, 0xa000, 0x2000), Some(0x8000));
    // the pool hands out the same page first again
    assert_eq!(m.pmem_alloc(Pool::User), first);
}

#[test]
fn stack_grows_down_to_fault() {
    let (mut m, mut pt, _t, _page) = user_setup();
    let top: usize = 0x3f_ffff_e000;
    // one page in use: a fault two pages further down maps two pages
    assert_eq!(uvm_ustack_grow(&mut pt, &mut m, top, 1, top - 0x2ff0), Some(3));
    assert!(pt.translate_with(&m, top - 0x3000).is_some());
    assert!(pt.translate_with(&m, top - 0x2000).is_some());
    assert_eq!(pt.translate_with(&m, top - 0x1000), None);
    // above the bottom, or below the reserve
    assert_eq!(uvm_ustack_grow(&mut pt, &mut m, top, 3, top - 0x10), None);
    assert_eq!(uvm_ustack_grow(&mut pt, &mut m, top, 3, top - 4096 * 4096 - 1), None);
    assert_eq!(uvm_ustack_grow(&mut pt, &mut m, top, 5000, 0x1000), None);
}

#[test]
fn make_user_loads_image_and_stack() {
    let mut m = pmem_init(BASE, BASE + MEM_PAGES * PAGE_SIZE);
    let kernel = kvm_init(&mut m, &kernel_regions()).expect("kvm");
    let mut t = proc_init();
    let image: Vec<u8> = (0..5000u32).map(|i| (i % 200) as u8 + 1).collect();
    let start = proc_make_user(&mut t, &kernel, &mut m, 2, &image).expect("load");
    assert_eq!(start.epc, USER_BASE);
    assert_eq!(start.sp, USER_STACK_BASE + USER_STACK_SIZE);
    assert_eq!(t.procs[2].pgtbl, start.pgtbl.root_ppn() * PAGE_SIZE);
    t.set_current(0, 2);
    for k in [0usize, 1, 4095, 4096, 4999] {
        assert_eq!(copy_from_user(&t, Some(0), &m, KERNEL_BASE, USER_BASE + k), Some(image[k]));
    }
    // the rest of the last code page and the stack page read zero
    assert_eq!(copy_from_user(&t, Some(0), &m, KERNEL_BASE, USER_BASE + 5000), Some(0));
    assert_eq!(copy_from_user(&t, Some(0), &m, KERNEL_BASE, USER_STACK_BASE + 8), Some(0));
    // the kernel mappings carry over
    assert_eq!(kvm_translate(&start.pgtbl, &m, 0x8012_3456), Some(0x8012_3456));
}

#[test]
fn make_user_refusals() {
    let mut m = pmem_init(BASE, BASE + MEM_PAGES * PAGE_SIZE);
    let kernel = kvm_init(&mut m, &kernel_regions()).expect("kvm");
    let mut t = proc_init();
    assert!(proc_make_user(&mut t, &kernel, &mut m, 0, &[1, 2, 3]).is_none());
    assert!(proc_make_user(&mut t, &kernel, &mut m, 64, &[1, 2, 3]).is_none());
    let big = vec![1u8; USER_STACK_BASE - USER_BASE + 1];
    assert!(proc_make_user(&mut t, &kernel, &mut m, 1, &big).is_none());
    assert_eq!(t.procs[1].pgtbl, 0);
}

#[test]
fn copy_range_copies_each_page() {
    let (mut m, mut parent, _t, _page) = user_setup();
    assert_eq!(uvm_heap_grow(&mut parent, &mut m, 0x3000, 0x2000), Some(0x5000));
    let p1 = parent.translate_with(&m, 0x3000).expect("parent page 0x3000");
    let p2 = parent.translate_with(&m, 0x4000).expect("parent page 0x4000");
    m.write_byte(p1 + 7, 0x5a);
    m.write_byte(p2 + 4095, 0xa5);
    let mut child = PageTable::alloc_table(&mut m).expect("child root");
    let user_free = m.pmem_stat().2;
    copy_range(&parent, &mut child, &mut m, 0x3000, 0x5000);
    assert_eq!(m.pmem_stat().2, user_free - 2);
    let c1 = child.translate_with(&m, 0x3000).expect("child page 0x3000");
    let c2 = child.translate_with(&m, 0x4000).expect("child page 0x4000");
    // fresh pages with the same bytes
    assert_ne!(c1, p1);
    assert_ne!(c2, p2);
    assert_eq!(m.read_byte(c1 + 7), 0x5a);
    assert_eq!(m.read_byte(c2 + 4095), 0xa5);
    assert_eq!(m.read_byte(c1 + 8), 0);
    // a later write in the child leaves the parent alone
    m.write_byte(c1 + 7, 0x11);
    assert_eq!(m.read_byte(p1 + 7), 0x5a);
    // only the range is copied
    assert_eq!(child.translate_with(&m, 0x1000), None);
    assert_eq!(child.translate_with(&m, 0x5000), None);
    assert_eq!(child.walk_leveled(&m, 0x3000).map(|(e, _)| e & 0xff), parent.walk_leveled(&m, 0x3000).map(|(e, _)| e & 0xff));
}

#[test]
fn destroy_gives_back_every_page() {
    let mut m = pmem_init(BASE, BASE + MEM_PAGES * PAGE_SIZE);
    let (kernel_free, _, user_free, _) = m.pmem_stat();
    let mut pt = PageTable::alloc_table(&mut m).expect("root");
    assert_eq!(uvm_heap_grow(&mut pt, &mut m, 0x1000, 0x3000), Some(0x4000));
    // a frame page of the kernel pool at the top of the address space
    let frame = m.pmem_alloc(Pool::Kernel);
    assert_ne!(frame, 0);
    let trapframe: usize = 0x3f_ffff_e000;
    assert!(pt.map(&mut m, trapframe, frame, PTE_R | PTE_W).is_ok());
    let (k_used, _, u_used, _) = m.pmem_stat();
    // three user pages; root, two level-1 and two level-0 tables, and the frame
    assert_eq!(user_free - u_used, 3);
    assert_eq!(kernel_free - k_used, 6);
    destroy(pt, &mut m, trapframe);
    let (k_after, _, u_after, _) = m.pmem_stat();
    assert_eq!(k_after, kernel_free);
    assert_eq!(u_after, user_free);
}

#[test]
fn destroy_without_frame_keeps_kernel_mappings_alone() {
    let (mut m, pt, _t, page) = user_setup();
    let (k_before, _, u_before, _) = m.pmem_stat();
    destroy(pt, &mut m, 0x3f_ffff_e000);
    let (k_after, _, u_after, _) = m.pmem_stat();
    // the user page at 0x1000 and the three tables on its walk
    assert_eq!(u_after, u_before + 1);
    assert_eq!(k_after, k_before + 3);
    // the last page given back is handed out first
    assert_eq!(m.pmem_alloc(Pool::User), page);
}

#[test]
fn table_dump_lists_entries_depth_first() {
    let (mut m, mut pt, _t, page) = user_setup();
    let rows = pt.print(&m);
    assert_eq!(rows.len(), 3);
    assert_eq!((rows[0].0, rows[0].1, rows[0].3), (2, 0, 1));
    assert_eq!((rows[1].0, rows[1].1, rows[1].3), (1, 0, 1));
    assert_eq!(rows[2], (0, 1, page, 1 | PTE_R | PTE_W | PTE_U));
    // a second page in another level-1 slot adds its tables after the first subtree
    let other = m.pmem_alloc(Pool::User);
    assert!(pt.map(&mut m, 0x4000_0000, other, PTE_R | PTE_U).is_ok());
    let rows = pt.print(&m);
    assert_eq!(rows.len(), 6);
    assert_eq!((rows[3].0, rows[3].1), (2, 1));
    assert_eq!((rows[4].0, rows[4].1), (1, 0));
    assert_eq!(rows[5], (0, 0, other, 1 | PTE_R | PTE_U));
    // each link row points at the table whose rows follow it
    assert_eq!(pt.translate_with(&m, 0x4000_0010), Some(other + 0x10));
}

#[test]
fn process_table_copies_root_entries() {
    let mut m = pmem_init(BASE, BASE + MEM_PAGES * PAGE_SIZE);
    let kernel = kvm_init(&mut m, &kernel_regions()).expect("kvm");
    let proc_pt = kvm_create_process_table(Some(&kernel), &mut m).expect("process table");
    let kroot = kernel.root_ppn() * PAGE_SIZE;
    let proot = proc_pt.root_ppn() * PAGE_SIZE;
    for i in 1..512 {
        assert_eq!(m.read_word(proot, i), m.read_word(kroot, i));
    }
    // entry 0 of the kernel links to a level-1 table; the process gets its own copy
    let k0 = m.read_word(kroot, 0);
    let p0 = m.read_word(proot, 0);
    assert_eq!(k0 & 0x3ff, PTE_V_ONLY);
    assert_eq!(p0 & 0x3ff, PTE_V_ONLY);
    let kl1 = ((k0 >> 10) as usize) * PAGE_SIZE;
    let pl1 = ((p0 >> 10) as usize) * PAGE_SIZE;
    assert_ne!(kl1, pl1);
    for i in 0..512 {
        assert_eq!(m.read_word(pl1, i), m.read_word(kl1, i));
    }
}

const PTE_V_ONLY: u64 = 1;
