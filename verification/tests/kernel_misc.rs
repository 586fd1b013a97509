use lib::lock::sleeplock::SleepLock as OwnedSleepLock;
use lib::lock::spinlock::SpinLock as OwnedSpinLock;
use lib::proc::context::Context;
use lib::proc::elf::{check_entry, check_segment, parse_header, parse_segment, perm_of, ElfError, LoadSegment, PF_R, PF_X};
use lib::sync::{SleepLock, SpinLock};
use lib::timer::{timer_create, timer_maybe_report, timer_tick, timer_ticks};
use lib::trap::handler::{external_interrupt, syscall_return_address, trap_action, uart_interrupt, Fatal, IrqAction, TrapAction, TrapCause};
use lib::trap::timer::{create, tick, ticks, update};
use lib::console::Writer;
use lib::mm::vm::{PTE_R, PTE_U, PTE_X};

#[test]
fn sync_spinlock_restores_interrupts() {
    let mut l = SpinLock::new();
    let mut irq = true;
    l.lock(&mut irq);
    assert!(!irq);
    assert!(l.is_locked());
    assert!(!l.try_lock(&mut irq));
    l.unlock(&mut irq);
    assert!(irq);
    assert!(!l.is_locked());
    let mut off = false;
    assert!(l.try_lock(&mut off));
    l.unlock(&mut off);
    assert!(!off);
}

#[test]
fn sync_sleeplock_attempts() {
    let mut s = SleepLock::new();
    let mut irq = true;
    assert!(s.lock(&mut irq));
    assert!(!s.lock(&mut irq));
    assert!(irq);
    s.unlock(&mut irq);
    assert!(s.lock(&mut irq));
}

#[test]
fn owned_locks_know_their_holder() {
    let mut l = OwnedSpinLock::init();
    assert!(!l.holding(0));
    let g = l.lock(2);
    assert!(l.holding(2));
    assert!(!l.holding(1));
    assert_eq!(g.lock_ref(), 2);
    l.unlock(g);
    assert!(!l.holding(2));
    let mut s = OwnedSleepLock::init();
    let g = s.lock(7).unwrap();
    assert!(s.holding(7));
    assert!(s.lock(8).is_none());
    s.unlock(g);
    assert!(!s.holding(7));
}

#[test]
fn context_first_switch() {
    let z = Context::zeroed();
    assert_eq!((z.ra, z.sp, z.s11), (0, 0, 0));
    let c = Context::new(0x8000_1000, 0x8100_0000);
    assert_eq!((c.ra, c.sp, c.s0), (0x8000_1000, 0x8100_0000, 0));
}

fn elf_image() -> Vec<u8> {
    let mut img = vec![0u8; 64 + 56];
    img[0..4].copy_from_slice(&[0x7f, b'E', b'L', b'F']);
    img[4] = 2;
    img[5] = 1;
    img[18..20].copy_from_slice(&243u16.to_le_bytes());
    img[24..32].copy_from_slice(&0x1000u64.to_le_bytes());
    img[32..40].copy_from_slice(&64u64.to_le_bytes());
    img[54..56].copy_from_slice(&56u16.to_le_bytes());
    img[56..58].copy_from_slice(&1u16.to_le_bytes());
    let ph = 64;
    img[ph..ph + 4].copy_from_slice(&1u32.to_le_bytes());
    img[ph + 4..ph + 8].copy_from_slice(&5u32.to_le_bytes());
    img[ph + 8..ph + 16].copy_from_slice(&0x100u64.to_le_bytes());
    img[ph + 16..ph + 24].copy_from_slice(&0x1000u64.to_le_bytes());
    img[ph + 32..ph + 40].copy_from_slice(&0x20u64.to_le_bytes());
    img[ph + 40..ph + 48].copy_from_slice(&0x30u64.to_le_bytes());
    img
}

#[test]
fn elf_header_and_segment() {
    let img = elf_image();
    let h = parse_header(&img).expect("header");
    assert_eq!((h.entry, h.phoff, h.phentsize, h.phnum), (0x1000, 64, 56, 1));
    let s = parse_segment(&img, &h, 0).expect("segment");
    assert_eq!((s.flags, s.offset, s.vaddr, s.filesz, s.memsz), (5, 0x100, 0x1000, 0x20, 0x30));
    assert_eq!(parse_segment(&img, &h, 1).err(), Some(ElfError::TooSmall));
    assert_eq!(check_segment(&s), Ok(()));
}

#[test]
fn elf_header_errors() {
    let img = elf_image();
    assert_eq!(parse_header(&img[..63]).err(), Some(ElfError::TooSmall));
    let mut bad = img.clone();
    bad[1] = b'X';
    assert_eq!(parse_header(&bad).err(), Some(ElfError::BadMagic));
    let mut bad = img.clone();
    bad[4] = 1;
    assert_eq!(parse_header(&bad).err(), Some(ElfError::Not64));
    let mut bad = img.clone();
    bad[5] = 2;
    assert_eq!(parse_header(&bad).err(), Some(ElfError::NotLittleEndian));
    let mut bad = img.clone();
    bad[18] = 62;
    assert_eq!(parse_header(&bad).err(), Some(ElfError::WrongMachine));
}

#[test]
fn elf_ranges_and_perms() {
    assert_eq!(check_entry(0x1000), Ok(()));
    assert_eq!(check_entry(0xfff), Err(ElfError::OutOfUserRange));
    assert_eq!(check_entry(0x0200_0000), Err(ElfError::OutOfUserRange));
    let seg = LoadSegment { offset: 0, vaddr: 0x01ff_f000, filesz: 0, memsz: 0x2000, flags: 0 };
    assert_eq!(check_segment(&seg), Err(ElfError::OutOfUserRange));
    let seg = LoadSegment { offset: 0, vaddr: 0x2000, filesz: 0x20, memsz: 0x10, flags: 0 };
    assert_eq!(check_segment(&seg), Err(ElfError::OutOfUserRange));
    assert_eq!(perm_of(PF_R | PF_X), PTE_R | PTE_X | PTE_U);
    assert_eq!(perm_of(0), PTE_U);
}

#[test]
fn timer_counts_and_reports() {
    let (deadline, mut t) = timer_create(u64::MAX, 2);
    assert_eq!(deadline, 1);
    assert_eq!(timer_ticks(&t), 0);
    assert!(!timer_maybe_report(&t, 3));
    assert_eq!(timer_tick(&mut t), 1);
    timer_tick(&mut t);
    timer_tick(&mut t);
    assert!(timer_maybe_report(&t, 3));
    assert!(!timer_maybe_report(&t, 0));
    let mut s = create();
    update(&mut s);
    tick(&mut s, false);
    tick(&mut s, true);
    assert_eq!(ticks(&s), 2);
}

#[test]
fn trap_decisions() {
    assert_eq!(trap_action(TrapCause::TimerInterrupt), TrapAction::Tick);
    assert_eq!(trap_action(TrapCause::SyscallFromUser), TrapAction::Syscall);
    assert_eq!(trap_action(TrapCause::LoadPageFault), TrapAction::Stop(Fatal::PageFault));
    assert_eq!(trap_action(TrapCause::UnknownInterrupt(9)), TrapAction::Stop(Fatal::Unknown));
    assert_eq!(trap_action(TrapCause::SyscallFromKernel), TrapAction::Stop(Fatal::FirmwareRejected));
    assert_eq!(syscall_return_address(0x1000), 0x1004);
    assert_eq!(external_interrupt(0), IrqAction::Idle);
    assert_eq!(external_interrupt(10), IrqAction::Uart);
    assert_eq!(external_interrupt(3), IrqAction::Unexpected);
    let mut w = Writer { out: Vec::new() };
    uart_interrupt(&mut w, b"k");
    assert_eq!(w.out, b"k".to_vec());
}
