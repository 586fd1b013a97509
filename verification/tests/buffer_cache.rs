use lib::fs::bio::{BlockDevice, RamDisk};
use lib::fs::buffer::{freemem, get, init, print_info, release, N_BUFFER_TEST, UNUSED};
use lib::fs::BLOCK_SIZE;

fn disk() -> RamDisk {
    RamDisk::new(BLOCK_SIZE, 64)
}

#[test]
fn buffer_init_lists_all_inactive() {
    let c = init(N_BUFFER_TEST);
    let rows = print_info(&c).expect("test size");
    assert_eq!(rows.len(), 8);
    for (k, row) in rows.iter().enumerate() {
        assert_eq!(*row, (k, UNUSED, 0, false, false));
    }
}

#[test]
fn buffer_get_takes_lru_and_reads_block() {
    let mut c = init(N_BUFFER_TEST);
    let mut d = disk();
    let page = vec![7u8; BLOCK_SIZE];
    assert!(d.write_block(5, &page));
    let g = get(&mut c, &mut d, 5).expect("get");
    assert_eq!(g.token(), 7);
    assert_eq!(g.data(&c), &page);
    let rows = print_info(&c).expect("test size");
    assert_eq!(rows[0], (7, 5, 1, true, true));
    assert_eq!(rows[1], (0, UNUSED, 0, false, false));
    release(&mut c, g);
    let rows = print_info(&c).expect("test size");
    assert_eq!(rows[0], (7, 5, 0, false, true));
}

#[test]
fn buffer_hit_moves_to_active_front() {
    let mut c = init(N_BUFFER_TEST);
    let mut d = disk();
    let a = get(&mut c, &mut d, 1).unwrap();
    let b = get(&mut c, &mut d, 2).unwrap();
    assert_eq!((a.token(), b.token()), (7, 6));
    release(&mut c, a);
    // block 1 is now at the inactive front; getting it again is a hit on buffer 7,
    // which goes to the front of the active list.
    let a2 = get(&mut c, &mut d, 1).unwrap();
    assert_eq!(a2.token(), 7);
    let rows = print_info(&c).expect("test size");
    assert_eq!(rows[0].0, 7);
    assert_eq!(rows[1].0, 6);
    release(&mut c, a2);
    release(&mut c, b);
}

#[test]
fn buffer_write_reaches_disk_and_reads_back() {
    let mut c = init(N_BUFFER_TEST);
    let mut d = disk();
    let g = get(&mut c, &mut d, 9).unwrap();
    g.data_mut(&mut c, 100, &vec![1, 2, 3]);
    assert!(g.write(&c, &mut d));
    let mut raw = vec![0u8; BLOCK_SIZE];
    assert!(d.read_block(9, &mut raw));
    assert_eq!(&raw[99..104], &[0, 1, 2, 3, 0]);
    release(&mut c, g);
    // once its page is freed, the next get reads the block from disk again
    assert_eq!(freemem(&mut c, 8), 1);
    let g = get(&mut c, &mut d, 9).unwrap();
    assert_eq!(g.data(&c)[101], 2);
    release(&mut c, g);
}

#[test]
fn buffer_freemem_frees_from_the_tail() {
    let mut c = init(N_BUFFER_TEST);
    let mut d = disk();
    for b in 0..3u32 {
        let g = get(&mut c, &mut d, b).unwrap();
        release(&mut c, g);
    }
    // inactive now holds buffers 5, 6, 7 (most recent first) with pages, then 0..4.
    assert_eq!(freemem(&mut c, 2), 2);
    let rows = print_info(&c).expect("test size");
    let with_page: Vec<usize> = rows.iter().filter(|r| r.4).map(|r| r.0).collect();
    assert_eq!(with_page, vec![5]);
    assert_eq!(freemem(&mut c, 8), 1);
    assert_eq!(freemem(&mut c, 8), 0);
}

#[test]
fn buffer_get_fails_when_all_referenced() {
    let mut c = init(2);
    let mut d = disk();
    let a = get(&mut c, &mut d, 1).unwrap();
    let b = get(&mut c, &mut d, 2).unwrap();
    assert!(get(&mut c, &mut d, 3).is_err());
    release(&mut c, a);
    release(&mut c, b);
}

#[test]
fn buffer_get_fails_on_read_error() {
    let mut c = init(N_BUFFER_TEST);
    let mut d = disk();
    // block 1000 is beyond the disk: the read fails and the buffer goes back unreferenced
    assert!(get(&mut c, &mut d, 1000).is_err());
    let rows = print_info(&c).expect("test size");
    assert_eq!(rows[0], (N_BUFFER_TEST - 1, 1000, 0, false, true));
}

#[test]
fn buffer_guard_read_refreshes_page() {
    let mut c = init(4);
    let mut d = disk();
    let g = get(&mut c, &mut d, 3).unwrap();
    assert!(d.write_block(3, &vec![9u8; BLOCK_SIZE]));
    assert!(g.read(&mut c, &mut d));
    assert_eq!(g.data(&c)[0], 9);
    release(&mut c, g);
}

#[test]
fn buffer_listing_needs_test_size() {
    let c = init(16);
    assert!(print_info(&c).is_none());
}

#[test]
fn buffer_get_referenced_block_adds_reference() {
    let mut c = init(N_BUFFER_TEST);
    let mut d = disk();
    let a = get(&mut c, &mut d, 1).unwrap();
    let _b = get(&mut c, &mut d, 2).unwrap();
    // block 1 is referenced: the same buffer gains a reference and goes to the front
    let a2 = get(&mut c, &mut d, 1).unwrap();
    assert_eq!(a2.token(), a.token());
    let rows = print_info(&c).expect("test size");
    assert_eq!((rows[0].1, rows[0].2, rows[0].3), (1, 2, true));
    assert_eq!((rows[1].1, rows[1].2, rows[1].3), (2, 1, true));
    release(&mut c, a2);
    let rows = print_info(&c).expect("test size");
    assert_eq!((rows[0].1, rows[0].2), (1, 1));
    release(&mut c, a);
}
