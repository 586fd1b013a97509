use lib::mm::pmem::{pmem_init, PAGE_SIZE};
use lib::proc::files::{fd_alloc, fd_get, N_FD};
use lib::proc::lifecycle::{exit, fork, sleep, wait, wakeup, PidAllocator, WaitResult};
use lib::proc::proc::{proc_init, sched_init_hart, sched_yield, ProcState, KSTACK_PAGES, NPROC, TRAPFRAME_SIZE};
use lib::sched::{init_hart, inited, pick_next, pick_next_and_switch, switch_to, Sched};
use lib::syscall::{dispatch, fork as sys_fork, getpid, Syscall, E_BADARG};

const BASE: usize = 0x8000_0000;

#[test]
fn proc_alloc_takes_first_free_slot_and_stack() {
    let mut m = pmem_init(BASE, BASE + 64 * PAGE_SIZE);
    let mut t = proc_init();
    let before = m.pmem_stat().0;
    assert_eq!(t.proc_alloc(&mut m), Some(1));
    assert_eq!(m.pmem_stat().0, before - KSTACK_PAGES);
    assert_eq!(t.procs[1].kstack.len(), KSTACK_PAGES);
    // the slot is still unused until filled in: the next call takes it again
    t.procs[1].state = ProcState::Runnable;
    assert_eq!(t.proc_alloc(&mut m), Some(2));
}

#[test]
fn proc_alloc_failure_gives_pages_back() {
    let mut m = pmem_init(BASE, BASE + 3 * PAGE_SIZE);
    let mut t = proc_init();
    assert_eq!(t.proc_alloc(&mut m), None);
    assert_eq!(m.pmem_stat().0, 3);
}

#[test]
fn proc_at_and_current() {
    let mut t = proc_init();
    assert!(t.proc_at(0).is_none());
    assert!(t.proc_at(NPROC).is_none());
    assert_eq!(t.proc_at(5).unwrap().pid, 5);
    assert_eq!(t.current_pid(0), None);
    t.set_current(0, 9);
    assert_eq!(t.current_pid(0), Some(9));
}

#[test]
fn sched_round_robin_pick() {
    let mut t = proc_init();
    t.procs[3].state = ProcState::Runnable;
    t.procs[7].state = ProcState::Runnable;
    assert_eq!(pick_next(&t, 0), Some(3));
    assert_eq!(pick_next(&t, 3), Some(7));
    assert_eq!(pick_next(&t, 7), Some(3));
    assert_eq!(pick_next(&t, NPROC - 1), Some(3));
    let empty = proc_init();
    assert_eq!(pick_next(&empty, 5), None);
}

#[test]
fn sched_switch_bookkeeping() {
    let mut t = proc_init();
    t.procs[2].state = ProcState::Running;
    t.procs[4].state = ProcState::Runnable;
    t.procs[4].pgtbl = 0x8123_4000;
    t.set_current(1, 2);
    let sw = switch_to(&mut t, 1, 4, 0x8000_0000).expect("switch");
    assert_eq!((sw.from, sw.to, sw.root), (2, 4, 0x8123_4000));
    assert_eq!(t.procs[2].state, ProcState::Runnable);
    assert_eq!(t.procs[4].state, ProcState::Running);
    assert_eq!(t.current_pid(1), Some(4));
    assert!(switch_to(&mut t, 1, 4, 0).is_none());
}

#[test]
fn sched_idle_and_pick_switch() {
    let mut m = pmem_init(BASE, BASE + 64 * PAGE_SIZE);
    let mut t = proc_init();
    let mut s = Sched { last_picked: vec![0; 8], idle: vec![0; 8], inited: false };
    assert!(!inited(&s));
    assert!(init_hart(&mut s, &mut t, &mut m, 0, 0x8000_2000));
    assert!(inited(&s));
    let idle = s.idle[0];
    assert_eq!(t.procs[idle].state, ProcState::Runnable);
    assert_eq!(t.procs[idle].context.ra, 0x8000_2000);
    assert_eq!(t.procs[idle].context.sp, t.procs[idle].kstack[0] + KSTACK_PAGES * PAGE_SIZE);
    t.set_current(0, idle);
    t.procs[idle].state = ProcState::Running;
    t.procs[5].state = ProcState::Runnable;
    let sw = pick_next_and_switch(&mut s, &mut t, 0, 0x9000_0000).expect("switch");
    assert_eq!(sw.to, 5);
    assert_eq!(sw.root, 0x9000_0000);
    assert_eq!(s.last_picked[0], 5);
}

#[test]
fn lifecycle_fork_exit_wait() {
    let mut m = pmem_init(BASE, BASE + 64 * PAGE_SIZE);
    let mut t = proc_init();
    t.procs[1].state = ProcState::Running;
    let c = fork(&mut t, &mut m, 1).expect("fork");
    assert_eq!(c, 2);
    assert_eq!(t.procs[c].state, ProcState::Runnable);
    assert_eq!(t.procs[c].parent, 1);
    // the parent waits: the child is alive, so it sleeps on its own pid
    assert!(matches!(wait(&mut t, 1), WaitResult::Sleep));
    assert_eq!(t.procs[1].state, ProcState::Sleeping);
    assert!(!exit(&mut t, c, 7));
    assert_eq!(t.procs[c].state, ProcState::Zombie);
    assert_eq!(t.procs[1].state, ProcState::Runnable);
    match wait(&mut t, 1) {
        WaitResult::Reaped(pid, code, pages) => {
            assert_eq!((pid, code, pages.len()), (2, 7, KSTACK_PAGES));
        },
        _ => panic!("expected a reaped child"),
    }
    assert_eq!(t.procs[c].state, ProcState::Unused);
    assert!(matches!(wait(&mut t, 1), WaitResult::NoChildren));
}

#[test]
fn lifecycle_exit_reparents_to_init() {
    let mut t = proc_init();
    t.procs[1].state = ProcState::Sleeping;
    t.procs[1].chan = 1;
    t.procs[3].state = ProcState::Running;
    t.procs[3].parent = 1;
    t.procs[4].state = ProcState::Zombie;
    t.procs[4].parent = 3;
    assert!(exit(&mut t, 3, 0));
    assert_eq!(t.procs[4].parent, 1);
    assert_eq!(t.procs[1].state, ProcState::Runnable);
}

#[test]
fn lifecycle_sleep_and_wakeup() {
    let mut t = proc_init();
    t.procs[2].state = ProcState::Running;
    sleep(&mut t, 2, 99);
    t.procs[3].state = ProcState::Sleeping;
    t.procs[3].chan = 5;
    wakeup(&mut t, 99);
    assert_eq!(t.procs[2].state, ProcState::Runnable);
    assert_eq!(t.procs[3].state, ProcState::Sleeping);
    let mut p = PidAllocator::pid_init();
    assert_eq!(p.alloc_pid(), 1);
    assert_eq!(p.alloc_pid(), 2);
}

#[test]
fn syscall_numbers() {
    assert_eq!(dispatch(1), Some(Syscall::Brk));
    assert_eq!(dispatch(6), Some(Syscall::GetPid));
    assert_eq!(dispatch(10), Some(Syscall::Sleep));
    assert_eq!(dispatch(0), None);
    assert_eq!(dispatch(11), None);
    assert_eq!(getpid(12), 12);
    assert_eq!(sys_fork(Some(4)), 4);
    assert_eq!(sys_fork(None), E_BADARG);
}

#[test]
fn file_descriptors() {
    let mut files: Vec<Option<u32>> = vec![None; N_FD];
    assert_eq!(fd_alloc(&mut files, 10), Ok(0));
    assert_eq!(fd_alloc(&mut files, 11), Ok(1));
    assert_eq!(fd_get(&files, 1), Some(&11));
    assert_eq!(fd_get(&files, 2), None);
    assert_eq!(fd_get(&files, 99), None);
    let mut full: Vec<Option<u32>> = vec![Some(1); 2];
    assert_eq!(fd_alloc(&mut full, 5), Err(5));
}

#[test]
fn sched_yield_round_robin_then_idle() {
    let mut m = pmem_init(BASE, BASE + 64 * PAGE_SIZE);
    let mut t = proc_init();
    let mut s = Sched { last_picked: vec![0; 8], idle: vec![0; 8], inited: false };
    assert!(sched_init_hart(&mut s, &mut t, &mut m, 1, 0x8000_3000));
    let idle = s.idle[1];
    assert_eq!(t.procs[idle].context.ra, 0x8000_3000);
    // the idle process is the only runnable one: yielding from it picks it again
    t.set_current(1, idle);
    t.procs[idle].state = ProcState::Running;
    t.procs[3].state = ProcState::Runnable;
    t.procs[3].pgtbl = 0x8123_4000;
    let sw = sched_yield(&mut s, &mut t, 1, 0x9000_0000).expect("to 3");
    assert_eq!((sw.from, sw.to, sw.root), (idle, 3, 0x8123_4000));
    assert_eq!(t.procs[idle].state, ProcState::Runnable);
    assert_eq!(t.procs[3].state, ProcState::Running);
    assert_eq!(t.current[1], 3);
    // from 3 the round goes on past 3 and comes back to the idle process
    let sw = sched_yield(&mut s, &mut t, 1, 0x9000_0000).expect("to idle");
    assert_eq!(sw.to, idle);
    assert_eq!(sw.root, 0x9000_0000);
    assert_eq!(t.procs[3].state, ProcState::Runnable);
}

#[test]
fn proc_alloc_stack_is_contiguous_with_trapframe_below_top() {
    let mut m = pmem_init(BASE, BASE + 64 * PAGE_SIZE);
    let mut t = proc_init();
    for pid in 1..3 {
        assert_eq!(t.proc_alloc(&mut m), Some(pid));
        let p = &t.procs[pid];
        assert_eq!(p.kstack_top % PAGE_SIZE, 0);
        assert_eq!(p.kstack_top, p.kstack[0] + KSTACK_PAGES * PAGE_SIZE);
        for j in 0..KSTACK_PAGES {
            assert_eq!(p.kstack[j], p.kstack_top - (KSTACK_PAGES - j) * PAGE_SIZE);
        }
        assert_eq!(p.trapframe, p.kstack_top - TRAPFRAME_SIZE);
        t.procs[pid].state = ProcState::Runnable;
    }
}

#[test]
fn sched_switch_keeps_processes_on_one_cpu() {
    let mut t = proc_init();
    t.procs[2].state = ProcState::Running;
    t.procs[3].state = ProcState::Running;
    t.procs[4].state = ProcState::Runnable;
    t.set_current(0, 2);
    t.set_current(1, 3);
    let target = pick_next(&t, 0).expect("runnable");
    assert_eq!(target, 4);
    switch_to(&mut t, 1, target, 0).expect("switch");
    assert_eq!(t.current_pid(0), Some(2));
    assert_eq!(t.current_pid(1), Some(4));
    assert_eq!(t.procs[3].state, ProcState::Runnable);
    // the process just put back is picked next, and not by two CPUs at once
    assert_eq!(pick_next(&t, 4), Some(3));
}

#[test]
fn proc_alloc_refuses_a_stack_with_a_hole() {
    let mut m = pmem_init(BASE, BASE + 64 * PAGE_SIZE);
    let mut t = proc_init();
    let a = m.pmem_alloc(lib::mm::pmem::Pool::Kernel);
    let _b = m.pmem_alloc(lib::mm::pmem::Pool::Kernel);
    // a goes back to the head of the list: the next four pages are a, then a gap
    m.pmem_free(a, lib::mm::pmem::Pool::Kernel);
    let before = m.pmem_stat();
    assert_eq!(t.proc_alloc(&mut m), None);
    assert_eq!(m.pmem_stat(), before);
    assert_eq!(m.pmem_alloc(lib::mm::pmem::Pool::Kernel), a);
}
