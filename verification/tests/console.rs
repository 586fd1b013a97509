use lib::console::{print_dec, print_hex32, print_hex_bare, with_lock, SpinLock, Writer};
use lib::console_input::Input;

#[test]
fn console_number_text() {
    assert_eq!(print_hex_bare(0), b"0".to_vec());
    assert_eq!(print_hex_bare(0xdead_beef), b"deadbeef".to_vec());
    assert_eq!(print_dec(0), b"0".to_vec());
    assert_eq!(print_dec(1234567890), b"1234567890".to_vec());
    assert_eq!(print_dec(usize::MAX), usize::MAX.to_string().into_bytes());
    assert_eq!(print_hex32(0x1f), b"0x1f".to_vec());
}

#[test]
fn console_lock_and_try_lock() {
    let mut l = SpinLock::new();
    let g = l.lock();
    assert!(l.try_lock().is_none());
    l.unlock(g);
    let g = l.try_lock().expect("free");
    l.unlock(g);
    assert_eq!(with_lock(&mut l, || 41 + 1), 42);
    assert!(l.try_lock().is_some());
}

#[test]
fn console_writer_appends() {
    let mut w = Writer { out: Vec::new() };
    assert!(w.write_str("ab"));
    assert!(w.write_str("c"));
    assert_eq!(w.out, b"abc".to_vec());
}

#[test]
fn console_input_line_editing() {
    let mut i = Input::init();
    assert_eq!(i.edit(b'h'), (b"h".to_vec(), false));
    assert_eq!(i.edit(b'x'), (b"x".to_vec(), false));
    assert_eq!(i.edit(127), (vec![8, b' ', 8], false));
    assert_eq!(i.edit(b'i'), (b"i".to_vec(), false));
    let mut dst = Vec::new();
    // nothing is readable before the line ends
    assert!(!i.read(&mut dst, 10));
    assert_eq!(i.edit(b'\r'), (b"\n".to_vec(), true));
    assert!(i.read(&mut dst, 10));
    assert_eq!(dst, b"hi\n".to_vec());
}

#[test]
fn console_input_kill_line_and_eof() {
    let mut i = Input::init();
    i.edit(b'a');
    i.edit(b'b');
    assert_eq!(i.edit(21), (vec![8, b' ', 8, 8, b' ', 8], false));
    assert_eq!(i.edit(b'c'), (b"c".to_vec(), false));
    assert_eq!(i.edit(4), (vec![], true));
    let mut dst = Vec::new();
    assert!(i.read(&mut dst, 10));
    assert_eq!(dst, b"c".to_vec());
    // the end-of-input mark was left for the next read, which returns nothing
    let mut dst2 = Vec::new();
    assert!(i.read(&mut dst2, 10));
    assert!(dst2.is_empty());
}

#[test]
fn console_input_read_stops_at_room() {
    let mut i = Input::init();
    for c in b"abcd\n" {
        i.edit(*c);
    }
    let mut dst = Vec::new();
    assert!(i.read(&mut dst, 2));
    assert_eq!(dst, b"ab".to_vec());
    let mut rest = Vec::new();
    assert!(i.read(&mut rest, 10));
    assert_eq!(rest, b"cd\n".to_vec());
}

#[test]
fn console_input_full_buffer_commits() {
    let mut i = Input::init();
    for _ in 0..127 {
        assert!(!i.edit(b'z').1);
    }
    assert!(i.edit(b'z').1);
    // no room left: further characters are ignored
    assert_eq!(i.edit(b'q'), (vec![], false));
}
