use lib::fs::dentry::{create, delete, element, lookup, parent, print, search, search_number, transmit, DIR_BYTES, DENTRY_SIZE};
use lib::fs::dir::DirTable;

fn name60(s: &[u8]) -> [u8; 60] {
    let mut n = [0u8; 60];
    n[..s.len()].copy_from_slice(s);
    n
}

#[test]
fn dentry_create_search_delete() {
    let mut d = vec![0u8; DIR_BYTES];
    let mut size = 0u32;
    assert_eq!(create(&mut d, &mut size, 5, b"a"), Ok(0));
    assert_eq!(create(&mut d, &mut size, 9, b"bb"), Ok(64));
    assert_eq!(size, 128);
    assert_eq!(search(&d, b"bb"), Ok(9));
    assert_eq!(search(&d, &name60(b"bb")), Ok(9));
    assert_eq!(search(&d, b"c"), Err(()));
    assert_eq!(create(&mut d, &mut size, 3, b"a"), Err(()));
    assert_eq!(delete(&mut d, &mut size, b"a"), Ok(5));
    assert_eq!(size, 64);
    assert_eq!(search(&d, b"a"), Err(()));
    // the freed first slot is reused
    assert_eq!(create(&mut d, &mut size, 11, b"c"), Ok(0));
    assert_eq!(delete(&mut d, &mut size, b"zz"), Err(()));
}

#[test]
fn dentry_create_refuses_bad_names_and_full_dir() {
    let mut d = vec![0u8; DIR_BYTES];
    let mut size = 0u32;
    assert_eq!(create(&mut d, &mut size, 1, b""), Err(()));
    assert_eq!(create(&mut d, &mut size, 1, &[b'x'; 60]), Err(()));
    assert_eq!(create(&mut d, &mut size, 1, &[b'x'; 59]), Ok(0));
    for i in 1..64u32 {
        let name = format!("f{}", i);
        assert_eq!(create(&mut d, &mut size, i, name.as_bytes()), Ok(64 * i));
    }
    assert_eq!(create(&mut d, &mut size, 99, b"more"), Err(()));
    assert_eq!(size, 4096);
}

#[test]
fn dentry_number_is_little_endian() {
    let mut d = vec![0u8; DIR_BYTES];
    let mut size = 0u32;
    assert_eq!(create(&mut d, &mut size, 0x0102_0304, b"n"), Ok(0));
    assert_eq!(&d[60..64], &[4, 3, 2, 1]);
    let mut name = [0u8; 60];
    assert_eq!(search_number(&d, 0x0102_0304, &mut name), Ok(1));
    assert_eq!(name[0], b'n');
    assert_eq!(search_number(&d, 7, &mut name), Err(()));
}

#[test]
fn dentry_transmit_whole_entries() {
    let mut d = vec![0u8; DIR_BYTES];
    let mut size = 0u32;
    create(&mut d, &mut size, 1, b"a").unwrap();
    create(&mut d, &mut size, 2, b"b").unwrap();
    create(&mut d, &mut size, 3, b"c").unwrap();
    delete(&mut d, &mut size, b"b").unwrap();
    let all = transmit(&d, 1000);
    assert_eq!(all.len(), 2 * DENTRY_SIZE);
    assert_eq!(all[0], b'a');
    assert_eq!(all[DENTRY_SIZE], b'c');
    assert_eq!(transmit(&d, 100).len(), DENTRY_SIZE);
    assert_eq!(transmit(&d, 63).len(), 0);
}

#[test]
fn dentry_element_splits_components() {
    let (n, rest) = element(b"//usr///bin/").unwrap();
    assert_eq!(&n[..4], b"usr\0");
    assert_eq!(rest, b"bin/");
    let (n, rest) = element(rest).unwrap();
    assert_eq!(&n[..4], b"bin\0");
    assert_eq!(rest, b"");
    assert!(element(b"///").is_none());
    let long = [b'y'; 70];
    let (n, rest) = element(&long).unwrap();
    assert_eq!(n[58], b'y');
    assert_eq!(n[59], 0);
    assert!(rest.is_empty());
}

#[test]
fn dentry_lookup_and_parent() {
    let mut t = DirTable { entries: vec![(0, name60(b"home").to_vec(), 4), (4, name60(b"me").to_vec(), 8)] };
    assert_eq!(lookup(b"/home/me", &mut t), Ok(8));
    assert_eq!(lookup(b"/", &mut t), Ok(0));
    assert_eq!(lookup(b"/nope", &mut t), Err(()));
    let (dir, last) = parent(b"/home/me", &mut t).unwrap();
    assert_eq!(dir, 4);
    assert_eq!(&last[..3], b"me\0");
    assert!(parent(b"/", &mut t).is_err());
}

#[test]
fn dentry_print_lists_slots_in_use() {
    let mut d = vec![0u8; DIR_BYTES];
    let mut size = 0u32;
    assert_eq!(create(&mut d, &mut size, 5, b"a"), Ok(0));
    assert_eq!(create(&mut d, &mut size, 9, b"bbb"), Ok(64));
    assert_eq!(create(&mut d, &mut size, 7, b"cc"), Ok(128));
    assert_eq!(delete(&mut d, &mut size, b"bbb"), Ok(9));
    let (rows, ok) = print(&d);
    assert!(ok);
    assert_eq!(rows, vec![(0, 5, 1), (128, 7, 2)]);
    // a slot in use whose name fills the whole field stops the listing there
    for k in 0..60 {
        d[192 + k] = b'z';
    }
    assert_eq!(create(&mut d, &mut size, 8, b"dd").map(|_| ()), Ok(()));
    let (rows, ok) = print(&d);
    assert!(!ok);
    assert_eq!(rows, vec![(0, 5, 1), (64, 8, 2), (128, 7, 2)]);
}

#[test]
fn dentry_delete_undoes_create() {
    let mut d = vec![0u8; DIR_BYTES];
    let mut size = 0u32;
    assert_eq!(create(&mut d, &mut size, 5, b"keep"), Ok(0));
    let before = d.clone();
    let size_before = size;
    assert_eq!(create(&mut d, &mut size, 77, b"tmp"), Ok(DENTRY_SIZE as u32));
    assert_eq!(delete(&mut d, &mut size, b"tmp"), Ok(77));
    assert_eq!(d, before);
    assert_eq!(size, size_before);
}
