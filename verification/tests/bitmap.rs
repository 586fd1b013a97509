use lib::fs::bio::{BlockDevice, RamDisk};
use lib::fs::bitmap::{alloc_block, alloc_inode, clear, find_clear, free_block, free_inode, search_and_set};
use lib::fs::buffer::{get, init, release};
use lib::fs::{Superblock, BLOCK_SIZE};

fn sb() -> Superblock {
    Superblock {
        magic: 0x1020_3040,
        block_size: BLOCK_SIZE as u32,
        total_blocks: 64,
        total_inodes: 100,
        inode_bitmap: 1,
        inode_bitmap_blocks: 1,
        inode_first: 2,
        inode_blocks: 2,
        data_bitmap: 4,
        data_bitmap_blocks: 1,
        data_first: 5,
        data_blocks: 59,
    }
}

#[test]
fn bitmap_find_clear_first_zero() {
    let d = vec![0xffu8, 0b1011, 0];
    assert_eq!(find_clear(&d, 24), Some(10));
    assert_eq!(find_clear(&d, 10), None);
    assert_eq!(find_clear(&vec![0xffu8], 8), None);
}

#[test]
fn bitmap_search_and_set_then_clear() {
    let mut c = init(4);
    let mut d = RamDisk::new(BLOCK_SIZE, 8);
    assert_eq!(search_and_set(&mut c, &mut d, 3, 100), Ok(Some(0)));
    assert_eq!(search_and_set(&mut c, &mut d, 3, 100), Ok(Some(1)));
    let mut raw = vec![0u8; BLOCK_SIZE];
    assert!(d.read_block(3, &mut raw));
    assert_eq!(raw[0], 0b11);
    assert_eq!(clear(&mut c, &mut d, 3, 0), Ok(()));
    assert!(d.read_block(3, &mut raw));
    assert_eq!(raw[0], 0b10);
    assert_eq!(search_and_set(&mut c, &mut d, 3, 100), Ok(Some(0)));
    // only 2 valid bits, both set
    assert_eq!(search_and_set(&mut c, &mut d, 3, 2), Ok(None));
}

#[test]
fn bitmap_alloc_block_numbers_from_data_first() {
    let mut c = init(4);
    let mut d = RamDisk::new(BLOCK_SIZE, 64);
    let s = sb();
    assert_eq!(alloc_block(&mut c, &mut d, &s), Ok(5));
    assert_eq!(alloc_block(&mut c, &mut d, &s), Ok(6));
    assert_eq!(free_block(&mut c, &mut d, &s, 5), Ok(()));
    assert_eq!(alloc_block(&mut c, &mut d, &s), Ok(5));
}

#[test]
fn bitmap_alloc_inode_counts_from_zero_and_exhausts() {
    let mut c = init(4);
    let mut d = RamDisk::new(BLOCK_SIZE, 64);
    let mut s = sb();
    s.total_inodes = 3;
    assert_eq!(alloc_inode(&mut c, &mut d, &s), Ok(0));
    assert_eq!(alloc_inode(&mut c, &mut d, &s), Ok(1));
    assert_eq!(alloc_inode(&mut c, &mut d, &s), Ok(2));
    // every inode is in use: the bitmap has no clear bit left to hand out
    assert_eq!(search_and_set(&mut c, &mut d, 1, 3), Ok(None));
    assert_eq!(free_inode(&mut c, &mut d, &s, 1), Ok(()));
    assert_eq!(alloc_inode(&mut c, &mut d, &s), Ok(1));
}

#[test]
fn bitmap_free_restores_disk() {
    let mut c = init(4);
    let mut d = RamDisk::new(BLOCK_SIZE, 64);
    let s = sb();
    let mut before = vec![0u8; BLOCK_SIZE];
    assert!(d.read_block(4, &mut before));
    let n = alloc_block(&mut c, &mut d, &s).unwrap();
    assert_eq!(free_block(&mut c, &mut d, &s, n), Ok(()));
    let mut after = vec![0u8; BLOCK_SIZE];
    assert!(d.read_block(4, &mut after));
    assert_eq!(before, after);
}

#[test]
fn bitmap_io_error_on_missing_block() {
    let mut c = init(4);
    let mut d = RamDisk::new(BLOCK_SIZE, 2);
    assert_eq!(search_and_set(&mut c, &mut d, 5, 10), Err(()));
}

#[test]
fn bitmap_alloc_while_bitmap_block_is_referenced() {
    let mut c = init(4);
    let mut d = RamDisk::new(BLOCK_SIZE, 64);
    let s = sb();
    // another holder keeps the data bitmap block referenced
    let g = get(&mut c, &mut d, 4).unwrap();
    assert_eq!(alloc_block(&mut c, &mut d, &s), Ok(5));
    // the holder's buffer is the one the allocation changed
    assert_eq!(g.data(&c)[0], 1);
    assert_eq!(free_block(&mut c, &mut d, &s, 5), Ok(()));
    assert_eq!(g.data(&c)[0], 0);
    release(&mut c, g);
}
