use lib::fs::bio::{BlockDevice, RamDisk};
use lib::fs::bitmap::print;
use lib::fs::block::{finish, interrupt, may_transfer, request_header, requests_init, start};
use lib::fs::buffer::{get, init};
use lib::fs::mount::{check_root, check_superblock, find_dirent, MountError, Superblock as MountSb};
use lib::fs::tokens::{holding, init as tokens_init, release, retain, with};
use lib::fs::{read_superblock, Superblock, BLOCK_SIZE};
use lib::mem::mmap::{alloc_node, free, get_node, init as mmap_init, merge, print_free, set_node, Region, MMAP_BEGIN};
use lib::mem::pmem::{alloc_page, init as pool_init, stat, free as free_page};

fn le32(v: u32) -> [u8; 4] {
    v.to_le_bytes()
}

#[test]
fn superblock_decode_and_checks() {
    let fields: [u32; 12] = [0x1020_3040, 4096, 64, 100, 1, 1, 2, 2, 4, 1, 5, 59];
    let mut b = vec![0u8; 48];
    for (i, f) in fields.iter().enumerate() {
        b[4 * i..4 * i + 4].copy_from_slice(&le32(*f));
    }
    let sb = read_superblock(&b).expect("valid");
    assert_eq!((sb.total_blocks, sb.data_first, sb.data_blocks), (64, 5, 59));
    let mut bad = b.clone();
    bad[44..48].copy_from_slice(&le32(60));
    assert!(read_superblock(&bad).is_err());
    let mut bad = b.clone();
    bad[4..8].copy_from_slice(&le32(512));
    assert!(read_superblock(&bad).is_err());
}

#[test]
fn mount_superblock_checks() {
    let mut raw = vec![0u8; 24];
    raw[0..4].copy_from_slice(&le32(0x1020_3040));
    raw[4..8].copy_from_slice(&le32(100));
    raw[8..12].copy_from_slice(&le32(16));
    raw[12..16].copy_from_slice(&le32(2));
    raw[20..24].copy_from_slice(&le32(3));
    let sb = MountSb::parse(&raw);
    assert_eq!((sb.magic, sb.size, sb.ninodes, sb.inodestart, sb.nfiles), (0x1020_3040, 100, 16, 2, 3));
    assert_eq!(check_superblock(&sb), Ok(()));
    let mut s2 = sb;
    s2.magic = 1;
    assert_eq!(check_superblock(&s2), Err(MountError::BadMagic));
    let mut s3 = sb;
    s3.ninodes = 0;
    assert_eq!(check_superblock(&s3), Err(MountError::BadSuperblock));
    let mut s4 = sb;
    s4.size = 3;
    assert_eq!(check_superblock(&s4), Err(MountError::BadSuperblock));
    assert_eq!(check_root(1), Ok(()));
    assert_eq!(check_root(2), Err(MountError::BadRoot));
}

#[test]
fn mount_find_dirent_in_blocks() {
    let mut d = vec![0u8; 1024];
    d[0..4].copy_from_slice(&le32(5));
    d[6..9].copy_from_slice(b"abc");
    d[512 + 20..512 + 24].copy_from_slice(&le32(8));
    d[512 + 26..512 + 40].copy_from_slice(b"fourteen-bytes");
    assert_eq!(find_dirent(&d, b"abc"), Some(5));
    assert_eq!(find_dirent(&d, b"fourteen-bytes"), Some(8));
    assert_eq!(find_dirent(&d, b"ab"), None);
    assert_eq!(find_dirent(&d, b""), None);
}

#[test]
fn bitmap_listing() {
    let mut c = init(4);
    let mut dev = RamDisk::new(BLOCK_SIZE, 64);
    let mut bm = vec![0u8; BLOCK_SIZE];
    bm[0] = 0b1010_0001;
    assert!(dev.write_block(4, &bm));
    let sb = Superblock {
        magic: 0, block_size: 4096, total_blocks: 64, total_inodes: 10, inode_bitmap: 1,
        inode_bitmap_blocks: 1, inode_first: 2, inode_blocks: 2, data_bitmap: 4,
        data_bitmap_blocks: 1, data_first: 5, data_blocks: 59,
    };
    assert_eq!(print(&mut c, &mut dev, &sb, true), Ok(vec![5, 10, 12]));
    assert_eq!(print(&mut c, &mut dev, &sb, false), Ok(vec![]));
}

#[test]
fn tokens_keep_guards_per_process() {
    let mut c = init(4);
    let mut dev = RamDisk::new(BLOCK_SIZE, 8);
    let mut t = tokens_init(4);
    let g = get(&mut c, &mut dev, 2).unwrap();
    let tok = retain(&mut t, 7, g);
    assert_eq!(tok, 3);
    assert!(holding(&t, 7, tok));
    assert!(!holding(&t, 8, tok));
    assert_eq!(with(&t, 7, tok).token(), tok);
    assert_eq!(with(&t, 7, tok).data(&c).len(), BLOCK_SIZE);
    release(&mut t, &mut c, 7, tok);
    assert!(!holding(&t, 7, tok));
}

#[test]
fn block_requests() {
    assert!(may_transfer(true, 3, 10, 0x8000_1000, 4096, 0x8000_0000, 0x1000_0000));
    assert!(!may_transfer(false, 3, 10, 0x8000_1000, 4096, 0x8000_0000, 0x1000_0000));
    assert!(!may_transfer(true, 10, 10, 0x8000_1000, 4096, 0x8000_0000, 0x1000_0000));
    assert!(!may_transfer(true, 3, 10, 0x8000_1001, 4096, 0x8000_0000, 0x1000_0000));
    assert!(!may_transfer(true, 3, 10, 0x9000_0000, 4096, 0x8000_0000, 0x1000_0000));
    assert_eq!(request_header(3, true), (1, 24));
    assert_eq!(request_header(3, false), (0, 24));
    let mut r = requests_init();
    start(&mut r, 2);
    assert_eq!(finish(&mut r, 2), None);
    interrupt(&mut r, 2, true);
    assert_eq!(finish(&mut r, 2), Some(true));
    assert!(!r.active[2]);
}

#[test]
fn mmap_node_pool() {
    let mut p = mmap_init();
    assert_eq!(print_free(&p)[..3], [0, 1, 2]);
    let a = alloc_node(&mut p);
    let b = alloc_node(&mut p);
    assert_eq!((a, b), (0, 1));
    let base = MMAP_BEGIN as usize;
    set_node(&mut p, a, Region { begin: base, pages: 2 });
    set_node(&mut p, b, Region { begin: base + 2 * 4096, pages: 3 });
    assert_eq!(merge(&mut p, a, b, true), Ok(a));
    assert_eq!(get_node(&p, a), Region { begin: base, pages: 5 });
    assert_eq!(print_free(&p)[0], b);
    let c = alloc_node(&mut p);
    set_node(&mut p, c, Region { begin: base + 9 * 4096, pages: 1 });
    assert_eq!(merge(&mut p, a, c, true), Err(()));
    assert_eq!(merge(&mut p, a, a, true), Err(()));
    free(&mut p, c);
    assert_eq!(print_free(&p)[0], c);
}

#[test]
fn pools_by_flag() {
    let mut m = pool_init(0x8000_0000, 0x8000_0000 + 1100 * 4096);
    assert_eq!(stat(&m, true), 1024);
    assert_eq!(stat(&m, false), 1100 - 1024);
    let a = alloc_page(&mut m, false);
    assert_eq!(stat(&m, false), 1100 - 1025);
    free_page(&mut m, a, false);
    assert_eq!(stat(&m, false), 1100 - 1024);
}

#[test]
fn superblock_describes_itself() {
    let sb = Superblock {
        magic: 0xdead_beef, block_size: 4096, total_blocks: 64, total_inodes: 10, inode_bitmap: 1,
        inode_bitmap_blocks: 1, inode_first: 2, inode_blocks: 2, data_bitmap: 4,
        data_bitmap_blocks: 1, data_first: 5, data_blocks: 59,
    };
    let text = String::from_utf8(sb.print()).unwrap();
    assert_eq!(
        text,
        "superblock: magic=0xdeadbeef block_size=4096\n\
         total_blocks=64 total_inodes=10\n\
         inode_bitmap=1 blocks=1 inode_first=2 blocks=2\n\
         data_bitmap=4 blocks=1 data_first=5 blocks=59\n"
    );
}

#[test]
fn ram_disk_serves_blocks_it_has() {
    let mut dev = RamDisk::new(16, 3);
    let mut buf = vec![7u8; 16];
    assert!(dev.write_block(2, &buf));
    assert!(!dev.write_block(3, &buf));
    buf = vec![0u8; 16];
    assert!(dev.read_block(2, &mut buf));
    assert_eq!(buf, vec![7u8; 16]);
    assert!(!dev.read_block(5, &mut buf));
}
