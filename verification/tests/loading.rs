use lib::elf::{load_segment, prepare_heap, prepare_stack, Header, USER_ENTRY};
use lib::fs::bio::{BlockDevice, BufCache, RamDisk};
use lib::fs::inode::DiskInode;
use lib::fs::mount::{Fs, MountError, FSMAGIC, ROOTINO, T_DIR};
use lib::lock::spinlock::SpinLock as OwnedSpinLock;
use lib::mm::pmem::{pmem_init, Pool, PAGE_SIZE};
use lib::mm::vm::{PageTable, PTE_R, PTE_U, PTE_W};
use lib::proc::proc::proc_init;
use lib::timer::{timer_create, timer_print_ticks, timer_tick};
use lib::trap::handler::{was_from_user, TrapCause};

fn put32(v: &mut Vec<u8>, off: usize, x: u32) {
    v[off..off + 4].copy_from_slice(&x.to_le_bytes());
}

fn put64(v: &mut Vec<u8>, off: usize, x: u64) {
    v[off..off + 8].copy_from_slice(&x.to_le_bytes());
}

#[test]
fn lock_handoff_and_resume() {
    let mut l = OwnedSpinLock::init();
    let g = l.lock(2);
    l.handoff(g, false, 1);
    assert!(l.holding(2));
    let g2 = l.resume(2, false, 1);
    assert_eq!(g2.lock_ref(), 2);
    assert!(l.holding(2));
    l.unlock(g2);
    assert!(!l.holding(2));
}

#[test]
fn trap_source_by_cause() {
    assert!(was_from_user(TrapCause::SyscallFromUser, false));
    assert!(!was_from_user(TrapCause::SyscallFromKernel, true));
    assert!(was_from_user(TrapCause::LoadPageFault, true));
    assert!(!was_from_user(TrapCause::TimerInterrupt, false));
}

#[test]
fn tick_report_line() {
    let (_deadline, mut t) = timer_create(0, 10);
    for _ in 0..5 {
        timer_tick(&mut t);
    }
    assert_eq!(timer_print_ticks(3, &t, 100, 10), b"[oslab-rs] hart 3: 5 ticks (t=100, interval=10)\n".to_vec());
}

#[test]
fn current_process_of_cpu() {
    let mut t = proc_init();
    t.set_current(0, 3);
    assert_eq!(t.current(Some(0)).map(|p| p.pid), Some(3));
    assert!(t.current(Some(1)).is_none());
    assert!(t.current(None).is_none());
}

fn sample_inode() -> DiskInode {
    let mut ino = DiskInode::zero();
    ino.kind = 2;
    ino.major = 1;
    ino.minor = 7;
    ino.nlink = 3;
    ino.size = 0x1234_5678;
    for k in 0..13 {
        ino.index[k] = 100 + k as u32;
    }
    ino
}

#[test]
fn inode_encode_decode_round_trip() {
    let ino = sample_inode();
    let bytes = ino.encode();
    assert_eq!(bytes.len(), 64);
    assert_eq!(&bytes[0..12], &[2, 0, 1, 0, 7, 0, 3, 0, 0x78, 0x56, 0x34, 0x12]);
    assert_eq!(&bytes[12..16], &[100, 0, 0, 0]);
    let mut padded = vec![0xeeu8; 8];
    padded.extend_from_slice(&bytes);
    let back = DiskInode::decode(&padded, 8);
    assert_eq!((back.kind, back.major, back.minor, back.nlink, back.size), (2, 1, 7, 3, 0x1234_5678));
    assert_eq!(back.index[12], 112);
}

fn disk_with(magic: u32, ninodes: u32, root_kind: u16) -> RamDisk {
    let mut d = RamDisk::new(512, 16);
    let mut b0 = vec![0u8; 512];
    put32(&mut b0, 0, magic);
    put32(&mut b0, 4, 16);
    put32(&mut b0, 8, ninodes);
    put32(&mut b0, 12, 2);
    put32(&mut b0, 20, 1);
    assert!(d.write_block(0, &b0));
    let mut root = DiskInode::zero();
    root.kind = root_kind;
    root.nlink = 1;
    let mut b2 = vec![0u8; 512];
    b2[0..64].copy_from_slice(&root.encode());
    assert!(d.write_block(2, &b2));
    d
}

#[test]
fn mount_checks_superblock_and_root() {
    let mut cache = BufCache::new();
    let fs = Fs::mount(disk_with(FSMAGIC, 8, T_DIR), &mut cache);
    let mut fs = match fs {
        Ok(fs) => fs,
        Err(e) => panic!("mount failed: {:?}", e),
    };
    assert_eq!(fs.sb.ninodes, 8);
    assert_eq!(fs.sb.inodestart, 2);
    let root = fs.read_inode(&mut cache, ROOTINO).expect("root inode");
    assert_eq!(root.kind, T_DIR);
    assert_eq!(root.nlink, 1);
    assert_eq!(cache.pinned(), 0);
}

#[test]
fn mount_errors() {
    let mut cache = BufCache::new();
    assert_eq!(Fs::mount(disk_with(0x1234, 8, T_DIR), &mut cache).err(), Some(MountError::BadMagic));
    let mut cache = BufCache::new();
    assert_eq!(Fs::mount(disk_with(FSMAGIC, 0, T_DIR), &mut cache).err(), Some(MountError::BadSuperblock));
    let mut cache = BufCache::new();
    assert_eq!(Fs::mount(disk_with(FSMAGIC, 8, 2), &mut cache).err(), Some(MountError::BadRoot));
    // more inodes than the disk has room for
    let mut cache = BufCache::new();
    assert_eq!(Fs::mount(disk_with(FSMAGIC, 200, T_DIR), &mut cache).err(), Some(MountError::BadSuperblock));
}

fn program(headers: &[(u32, u32, u64, u64, u64, u64)]) -> (Vec<u8>, Header) {
    let mut file = vec![0u8; 0x400];
    for (i, &(kind, flags, offset, va, filesz, memsz)) in headers.iter().enumerate() {
        let o = 64 + 56 * i;
        put32(&mut file, o, kind);
        put32(&mut file, o + 4, flags);
        put64(&mut file, o + 8, offset);
        put64(&mut file, o + 16, va);
        put64(&mut file, o + 32, filesz);
        put64(&mut file, o + 40, memsz);
    }
    (file, Header { entry: 0x1000, phoff: 64, phnum: headers.len() as u16 })
}

#[test]
fn prepare_heap_plans_loadable_segments() {
    let (file, h) = program(&[(1, 5, 0x100, 0x1000, 0x80, 0x2000), (4, 4, 0, 0, 0, 0), (1, 6, 0x200, 0x3000, 0x10, 0x1800)]);
    let (top, plans) = prepare_heap(&file, &h).expect("plan");
    assert_eq!(top, 0x4800);
    assert_eq!(plans.len(), 2);
    assert_eq!((plans[0].va, plans[0].end, plans[0].offset, plans[0].filesz, plans[0].perms), (0x1000, 0x3000, 0x100, 0x80, 2 | 8));
    assert_eq!((plans[1].va, plans[1].end, plans[1].perms), (0x3000, 0x4800, 2 | 4));
    let (file, h) = program(&[]);
    assert_eq!(prepare_heap(&file, &h).map(|(t, p)| (t, p.len())), Ok((USER_ENTRY, 0)));
}

#[test]
fn prepare_heap_refusals() {
    // the second segment starts below the heap the first one built
    let (file, h) = program(&[(1, 4, 0, 0x2000, 0, 0x2000), (1, 4, 0, 0x1000, 0, 0x1000)]);
    assert!(prepare_heap(&file, &h).is_err());
    // the program header table runs past the end of the file
    let (file, mut h) = program(&[(1, 4, 0, 0x1000, 0, 0x1000)]);
    h.phoff = 0x3e0;
    assert!(prepare_heap(&file, &h).is_err());
}

#[test]
fn load_segment_fills_user_pages() {
    // the kernel pool takes the first 4 MiB, the user pages come after it
    let mut m = pmem_init(0x8000_0000, 0x8000_0000 + 1100 * PAGE_SIZE);
    let mut pt = PageTable::alloc_table(&mut m).expect("root");
    let p1 = m.pmem_alloc(Pool::User);
    let p2 = m.pmem_alloc(Pool::User);
    assert!(p1 != 0 && p2 != 0);
    assert!(pt.map(&mut m, 0x1000, p1, PTE_R | PTE_W | PTE_U).is_ok());
    assert!(pt.map(&mut m, 0x2000, p2, PTE_R | PTE_W | PTE_U).is_ok());
    let file: Vec<u8> = (0..0x2000u32).map(|i| (i % 251) as u8).collect();
    let root = pt.root_ppn() * PAGE_SIZE;
    load_segment(&mut m, root, &file, 16, 0x1000, 0x1100);
    assert_eq!(m.read_byte(p1), 16);
    assert_eq!(m.read_byte(p1 + 0xfff), ((16 + 0xfff) % 251) as u8);
    assert_eq!(m.read_byte(p2), ((16 + 0x1000) % 251) as u8);
    assert_eq!(m.read_byte(p2 + 0xff), ((16 + 0x10ff) % 251) as u8);
    assert_eq!(m.read_byte(p2 + 0x100), 0);
}

#[test]
fn prepare_stack_lays_out_arguments() {
    let mut page = vec![0u8; 4096];
    let bottom: u64 = 0x3f_ffff_d000;
    let argv = vec![b"ls".to_vec(), b"-l".to_vec()];
    let sp = prepare_stack(&mut page, bottom, &argv, 8, 64).expect("stack");
    assert_eq!(sp, bottom + 4032);
    assert_eq!(&page[4080..4083], b"ls\0");
    assert_eq!(&page[4064..4067], b"-l\0");
    assert_eq!(u64::from_le_bytes(page[4032..4040].try_into().unwrap()), bottom + 4080);
    assert_eq!(u64::from_le_bytes(page[4040..4048].try_into().unwrap()), bottom + 4064);
    assert_eq!(u64::from_le_bytes(page[4048..4056].try_into().unwrap()), 0);
}

#[test]
fn prepare_stack_refusals() {
    let mut page = vec![0u8; 4096];
    let bottom: u64 = 0x3f_ffff_d000;
    assert!(prepare_stack(&mut page, bottom, &vec![b"a".to_vec(); 3], 2, 64).is_err());
    assert!(prepare_stack(&mut page, bottom, &vec![b"a\0b".to_vec()], 2, 64).is_err());
    assert!(prepare_stack(&mut page, bottom, &vec![vec![b'x'; 64]], 2, 64).is_err());
}

#[test]
fn prepare_stack_terminates_arguments_on_a_used_page() {
    let mut page = vec![0xaau8; 4096];
    let bottom: u64 = 0x3f_ffff_d000;
    let argv = vec![b"cat".to_vec(), b"f".to_vec()];
    let sp = prepare_stack(&mut page, bottom, &argv, 8, 64).expect("stack");
    let p0 = (u64::from_le_bytes(page[(sp - bottom) as usize..(sp - bottom) as usize + 8].try_into().unwrap()) - bottom) as usize;
    let p1 = (u64::from_le_bytes(page[(sp - bottom) as usize + 8..(sp - bottom) as usize + 16].try_into().unwrap()) - bottom) as usize;
    assert_eq!(&page[p0..p0 + 4], b"cat\0");
    assert_eq!(&page[p1..p1 + 2], b"f\0");
    assert_eq!(sp % 16, 0);
}
