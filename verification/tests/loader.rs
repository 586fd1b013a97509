use lib::console::print_size_mib;
use lib::elf::{plan_segment, read_header};

fn header(machine: u16) -> Vec<u8> {
    let mut h = vec![0u8; 64];
    h[0..4].copy_from_slice(&[0x7f, b'E', b'L', b'F']);
    h[4] = 2;
    h[5] = 1;
    h[18..20].copy_from_slice(&machine.to_le_bytes());
    h[24..32].copy_from_slice(&0x1234u64.to_le_bytes());
    h[32..40].copy_from_slice(&64u64.to_le_bytes());
    h[56..58].copy_from_slice(&2u16.to_le_bytes());
    h
}

fn ph(kind: u32, flags: u32, offset: u64, va: u64, filesz: u64, memsz: u64) -> Vec<u8> {
    let mut p = vec![0u8; 56];
    p[0..4].copy_from_slice(&kind.to_le_bytes());
    p[4..8].copy_from_slice(&flags.to_le_bytes());
    p[8..16].copy_from_slice(&offset.to_le_bytes());
    p[16..24].copy_from_slice(&va.to_le_bytes());
    p[32..40].copy_from_slice(&filesz.to_le_bytes());
    p[40..48].copy_from_slice(&memsz.to_le_bytes());
    p
}

#[test]
fn exec_header() {
    let h = read_header(&header(243), 243).expect("header");
    assert_eq!((h.entry, h.phoff, h.phnum), (0x1234, 64, 2));
    assert!(read_header(&header(62), 243).is_err());
    assert!(read_header(&header(243)[..63], 243).is_err());
}

#[test]
fn exec_segment_plans() {
    let p = plan_segment(&ph(1, 5, 0x100, 0x1000, 0x20, 0x30), 0x1000).unwrap().unwrap();
    assert_eq!((p.va, p.end, p.offset, p.filesz, p.perms), (0x1000, 0x1030, 0x100, 0x20, 2 | 8));
    assert!(plan_segment(&ph(2, 5, 0, 0x1000, 0, 0), 0x1000).unwrap().is_none());
    assert!(plan_segment(&ph(1, 2, 0, 0x1001, 0, 8), 0x1000).is_err());
    assert!(plan_segment(&ph(1, 2, 0, 0x1000, 9, 8), 0x1000).is_err());
    assert!(plan_segment(&ph(1, 2, 0, 0x1000, 0, 8), 0x2000).is_err());
    assert!(plan_segment(&ph(1, 2, 0, 0, 0, 8), 0).is_err());
}

#[test]
fn size_text() {
    assert_eq!(print_size_mib(128 * 1024 * 1024), b"128 MiB".to_vec());
    assert_eq!(print_size_mib(128 * 1000 * 1000), b"128000000 B".to_vec());
    assert_eq!(print_size_mib(0), b"0 MiB".to_vec());
}
