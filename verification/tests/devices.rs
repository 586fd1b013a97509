use lib::console::Writer;
use lib::console_input::Input;
use lib::fs::dev::{dev_read, dev_write, device_kind, DeviceKind};
use lib::fs::device::{gpt, gpt_answer, gpt_question, name_until_nul, init, null_read, null_write, open_check, read, register, stdout, zero, DeviceTable, GptContext, GptQuestion, OPEN_READ, OPEN_WRITE};

fn ctx() -> GptContext {
    GptContext { pid: 3, name: b"init".to_vec(), kernel_free: 10, user_free: 20 }
}

#[test]
fn device_kinds() {
    assert_eq!(device_kind(1), Some(DeviceKind::Console));
    assert_eq!(device_kind(2), Some(DeviceKind::Null));
    assert_eq!(device_kind(0), None);
    let mut w = Writer { out: Vec::new() };
    assert_eq!(dev_write(DeviceKind::Console, &mut w, b"hey"), 3);
    assert_eq!(dev_write(DeviceKind::Null, &mut w, b"zz"), 2);
    assert_eq!(w.out, b"hey".to_vec());
    let mut b = vec![1u8, 2];
    assert_eq!(dev_read(DeviceKind::Console, &mut b), 0);
}

#[test]
fn device_table_permissions() {
    let t = init();
    assert!(open_check(&t, 1, OPEN_READ));
    assert!(!open_check(&t, 1, OPEN_WRITE));
    assert!(open_check(&t, 2, OPEN_WRITE));
    assert!(!open_check(&t, 2, OPEN_READ));
    assert!(open_check(&t, 5, OPEN_READ | OPEN_WRITE));
    assert!(open_check(&t, 6, OPEN_WRITE));
    assert!(!open_check(&t, 0, 0));
    assert!(!open_check(&t, 7, 0));
}

#[test]
fn device_register_checks() {
    let mut t = DeviceTable::new();
    assert_eq!(register(&mut t, 0, b"x", true, false), Err(()));
    assert_eq!(register(&mut t, 7, b"x", true, false), Err(()));
    assert_eq!(register(&mut t, 1, b"", true, false), Err(()));
    assert_eq!(register(&mut t, 1, b"a\0b", true, false), Err(()));
    assert_eq!(register(&mut t, 1, b"x", false, false), Err(()));
    assert_eq!(register(&mut t, 1, &[b'n'; 60], true, false), Err(()));
    assert_eq!(register(&mut t, 1, b"x", true, false), Ok(()));
    assert!(open_check(&t, 1, OPEN_READ));
}

#[test]
fn device_zero_and_null() {
    let mut b = vec![5u8; 4];
    assert_eq!(zero(&mut b), 4);
    assert_eq!(b, vec![0; 4]);
    assert_eq!(null_read(&mut b), 0);
    assert_eq!(null_write(b"abc"), 3);
    let mut input = Input::init();
    let mut dst = Vec::new();
    assert_eq!(read(4, &mut input, &mut dst, 3), Ok(true));
    assert_eq!(dst, vec![0, 0, 0]);
    assert_eq!(read(5, &mut input, &mut dst, 3), Ok(true));
    assert_eq!(read(2, &mut input, &mut dst, 3), Err(()));
}

#[test]
fn device_write_dispatch() {
    let mut w = Writer { out: Vec::new() };
    assert_eq!(stdout(&mut w, b"ok"), 2);
    assert_eq!(lib::fs::device::write(3, &mut w, b"bad", &ctx()), Ok(3));
    assert_eq!(w.out, b"okERROR: bad".to_vec());
    assert_eq!(lib::fs::device::write(5, &mut w, b"zz", &ctx()), Ok(2));
    assert_eq!(lib::fs::device::write(1, &mut w, b"zz", &ctx()), Err(()));
    assert_eq!(w.out, b"okERROR: bad".to_vec());
}

#[test]
fn device_gpt_answers() {
    assert_eq!(gpt_question(b"Hello\n"), GptQuestion::Hello);
    assert_eq!(gpt_question(b"Guess who I am\r\n"), GptQuestion::WhoAmI);
    assert_eq!(gpt_question(b"How many free memory left"), GptQuestion::FreeMemory);
    assert_eq!(gpt_question(b"Good job"), GptQuestion::GoodJob);
    assert_eq!(gpt_question(b"hello"), GptQuestion::Unknown);
    let mut w = Writer { out: Vec::new() };
    assert_eq!(gpt(&mut w, b"Guess who I am\n", &ctx()), 15);
    assert_eq!(w.out, b"Your procid is 3 and name is init.\n".to_vec());
    let mut w = Writer { out: Vec::new() };
    gpt(&mut w, b"How many free memory left", &ctx());
    assert_eq!(w.out, b"We have 10 free pages in kernel space, 20 free pages in user space!\n".to_vec());
    let mut w = Writer { out: Vec::new() };
    lib::fs::device::write(6, &mut w, b"what", &ctx()).unwrap();
    assert_eq!(w.out, b"Sorry, I can not understand it.\n".to_vec());
}

#[test]
fn device_gpt_name_cut_at_nul() {
    let mut name = b"sh".to_vec();
    name.resize(16, 0);
    let c = GptContext { pid: 2, name, kernel_free: 0, user_free: 0 };
    let mut w = Writer { out: Vec::new() };
    gpt(&mut w, b"Guess who I am", &c);
    assert_eq!(w.out, b"Your procid is 2 and name is sh.\n".to_vec());
}

#[test]
fn device_gpt_name_not_utf8() {
    let c = GptContext { pid: 4, name: vec![0xff, 0xfe, 0], kernel_free: 0, user_free: 0 };
    let mut w = Writer { out: Vec::new() };
    gpt(&mut w, b"Guess who I am", &c);
    assert_eq!(w.out, b"Your procid is 4 and name is <invalid UTF-8>.\n".to_vec());
}

#[test]
fn device_gpt_answer_shows_placeholder_when_told() {
    let mut w = Writer { out: Vec::new() };
    gpt_answer(&mut w, GptQuestion::WhoAmI, &ctx(), false);
    assert_eq!(w.out, b"Your procid is 3 and name is <invalid UTF-8>.\n".to_vec());
    let mut w = Writer { out: Vec::new() };
    gpt_answer(&mut w, GptQuestion::Hello, &ctx(), false);
    assert_eq!(w.out, b"Hi, I am gpt0!\n".to_vec());
    assert_eq!(name_until_nul(b"ab\0cd"), b"ab");
}
