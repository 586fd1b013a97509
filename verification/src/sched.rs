//! Round-robin scheduling over the process table: which process a CPU runs next, and
//! the bookkeeping of a switch. The register switch itself is done by the caller.
use vstd::prelude::*;
use crate::mm::pmem::{Pmem, Pool, PAGE_SIZE};
use crate::proc::context::Context;
use crate::proc::proc::{ProcState, ProcTable, NPROC, NCPU, KSTACK_PAGES, popped};

verus! {

/// The `s`-th pid tried after `last` (for `s` from 1): pids 1..NPROC in a ring.
pub open spec fn candidate(last: usize, s: int) -> int {
    let start = if 1 <= last < NPROC { last as int } else { 0 };
    (start + s - 1) % (NPROC - 1) as int + 1
}

/// The pids tried after `last` go round the ring of process pids: each is a pid from 1
/// to `NPROC - 1`, the first is the one after `last` (1 after the last pid, or when
/// `last` names no process), each next one follows the one before, and the last tried is
/// `last` itself, so every pid is tried once and the one just picked comes last.
pub proof fn lemma_candidate_ring(last: usize, s: int)
    requires
        1 <= s < NPROC,
    ensures
        1 <= candidate(last, s) < NPROC,
        s == 1 ==> candidate(last, 1) == if 1 <= last < NPROC - 1 { last + 1 } else { 1 },
        s + 1 < NPROC ==> candidate(last, s + 1) == if candidate(last, s) + 1 < NPROC { candidate(last, s) + 1 } else { 1 },
        1 <= last < NPROC ==> candidate(last, NPROC - 1) == last,
{
    let start = if 1 <= last < NPROC { last as int } else { 0 };
    assert(0 <= start < 64);
    assert(0 <= (start + s - 1) % 63 < 63);
    if s + 1 < NPROC {
        assert((start + s) % 63 == if (start + s - 1) % 63 + 1 < 63 { (start + s - 1) % 63 + 1 } else { 0 });
    }
    if 1 <= last < NPROC {
        assert((start + 62) % 63 + 1 == start);
    }
}

pub open spec fn runnable(t: ProcTable, pid: int) -> bool {
    t.procs@[pid].state == ProcState::Runnable
}

/// The next runnable process after `last`, going round the pids from 1: `None` when
/// none is runnable.
pub fn pick_next(t: &ProcTable, last: usize) -> (r: Option<usize>)
    requires
        t.wf(),
    ensures
        r matches Some(p) ==> exists|s: int| 1 <= s < NPROC && p == candidate(last, s) && runnable(*t, p as int)
            && forall|s2: int| 1 <= s2 < s ==> !runnable(*t, #[trigger] candidate(last, s2)),
        r is None ==> forall|s: int| 1 <= s < NPROC ==> !runnable(*t, #[trigger] candidate(last, s)),
{
    let start: usize = if 1 <= last && last < NPROC { last } else { 0 };
    let mut s: usize = 1;
    while s < NPROC
        invariant
            t.wf(),
            start == if 1 <= last < NPROC { last as int } else { 0 },
            1 <= s <= NPROC,
            forall|s2: int| 1 <= s2 < s ==> !runnable(*t, #[trigger] candidate(last, s2)),
        decreases NPROC - s,
    {
        let p = (start + s - 1) % (NPROC - 1) + 1;
        assert(p == candidate(last, s as int));
        if t.procs[p].state == ProcState::Runnable {
            return Some(p);
        }
        s = s + 1;
    }
    None
}

/// What a switch does: the pids switched from and to, and the page table root to
/// install (the process's own, or the kernel's for a process without one).
pub struct Switch {
    pub from: usize,
    pub to: usize,
    pub root: usize,
}

/// `t1` and `r` are what switching CPU `cpu` of `t0` to process `target` gives.
pub open spec fn switched(t0: ProcTable, t1: ProcTable, cpu: int, target: usize, kernel_root: usize, r: Option<Switch>) -> bool {
    let cur = if 0 < t0.current@[cpu] < NPROC { t0.current@[cpu] } else { 0 };
    let demoted = if 0 < cur < NPROC && t0.procs@[cur as int].state == ProcState::Running {
        t0.procs@.update(cur as int, crate::proc::proc::Proc { state: ProcState::Runnable, ..t0.procs@[cur as int] })
    } else {
        t0.procs@
    };
    let promoted = if 0 < target < NPROC {
        demoted.update(target as int, crate::proc::proc::Proc { state: ProcState::Running, ..demoted[target as int] })
    } else {
        demoted
    };
    if cur == target {
        &&& r is None
        &&& t1.procs@ == t0.procs@
        &&& t1.current@ == t0.current@
    } else if cur == 0 || target == 0 || target >= NPROC {
        &&& r is None
        &&& t1.procs@ == promoted
        &&& t1.current@ == t0.current@
    } else {
        &&& t1.procs@ == promoted
        &&& t1.current@ == t0.current@.update(cpu, target)
        &&& r matches Some(sw) && sw.from == cur && sw.to == target
            && sw.root == if promoted[target as int].pgtbl != 0 { promoted[target as int].pgtbl } else { kernel_root }
    }
}

/// The bookkeeping of switching CPU `cpu` to process `target`: nothing when it already
/// runs it. Otherwise a running current process becomes runnable and the target running;
/// when the current pid names no slot the switch stops there. Then the target becomes
/// the CPU's current process and the switch to perform is returned.
pub fn switch_to(t: &mut ProcTable, cpu: usize, target: usize, kernel_root: usize) -> (r: Option<Switch>)
    requires
        old(t).wf(),
        cpu < NCPU,
    ensures
        final(t).wf(),
        switched(*old(t), *final(t), cpu as int, target, kernel_root, r),
{
    let cur = match t.current_pid(cpu) {
        Some(p) => p,
        None => 0,
    };
    if cur == target {
        return None;
    }
    if cur != 0 && t.procs[cur].state == ProcState::Running {
        set_state(t, cur, ProcState::Runnable);
    }
    if target != 0 && target < NPROC {
        set_state(t, target, ProcState::Running);
    }
    if cur == 0 || target == 0 || target >= NPROC {
        return None;
    }
    t.set_current(cpu, target);
    let pg = t.procs[target].pgtbl;
    let root = if pg != 0 { pg } else { kernel_root };
    Some(Switch { from: cur, to: target, root })
}

/// Every process is current on at most one CPU, and no CPU's current process is waiting
/// to be picked (runnable).
pub open spec fn one_cpu_each(t: ProcTable) -> bool {
    &&& forall|c1: int, c2: int| 0 <= c1 < NCPU && 0 <= c2 < NCPU && c1 != c2 && 0 < #[trigger] t.current@[c1] < NPROC
        ==> t.current@[c1] != #[trigger] t.current@[c2]
    &&& forall|c: int| 0 <= c < NCPU && 0 < #[trigger] t.current@[c] < NPROC ==> !runnable(t, t.current@[c] as int)
}

/// Switching a CPU to a runnable process, as the scheduler picks one, keeps every process
/// on at most one CPU: the target is then no CPU's current process, so the CPU that takes
/// it shares it with none, and every current process stays out of the runnable state.
pub proof fn lemma_switch_keeps_one_cpu(t0: ProcTable, t1: ProcTable, cpu: int, target: usize, kernel_root: usize, r: Option<Switch>)
    requires
        t0.wf(),
        0 <= cpu < NCPU,
        0 < target < NPROC,
        runnable(t0, target as int),
        one_cpu_each(t0),
        switched(t0, t1, cpu, target, kernel_root, r),
    ensures
        one_cpu_each(t1),
{
    let cur = if 0 < t0.current@[cpu] < NPROC { t0.current@[cpu] } else { 0 };
    assert forall|c: int| 0 <= c < NCPU && 0 < t0.current@[c] < NPROC implies t0.current@[c] != target by {
        assert(!runnable(t0, t0.current@[c] as int));
    }
    assert forall|c1: int, c2: int| 0 <= c1 < NCPU && 0 <= c2 < NCPU && c1 != c2 && 0 < #[trigger] t1.current@[c1] < NPROC
        implies t1.current@[c1] != #[trigger] t1.current@[c2] by {
        if c1 != cpu && c2 != cpu {
            assert(t0.current@[c1] != t0.current@[c2]);
        } else if c1 == cpu {
            if cur != 0 {
                assert(t0.current@[c2] != target);
            } else {
                assert(t0.current@[c1] != t0.current@[c2]);
            }
        } else {
            if cur != 0 {
                assert(t0.current@[c1] != target);
            } else {
                assert(t0.current@[c1] != t0.current@[c2]);
            }
        }
    }
    assert forall|c: int| 0 <= c < NCPU && 0 < #[trigger] t1.current@[c] < NPROC implies !runnable(t1, t1.current@[c] as int) by {
        assert(!runnable(t0, t0.current@[c] as int));
        if c != cpu && cur != 0 {
            assert(t0.current@[c] != t0.current@[cpu]);
        }
    }
}

/// Sets the state of slot `pid`.
pub fn set_state(t: &mut ProcTable, pid: usize, s: ProcState)
    requires
        old(t).wf(),
        pid < NPROC,
    ensures
        final(t).wf(),
        final(t).current@ == old(t).current@,
        final(t).procs@ == old(t).procs@.update(pid as int, crate::proc::proc::Proc { state: s, ..old(t).procs@[pid as int] }),
{
    let mut e = crate::proc::proc::Proc {
        pid: 0,
        state: ProcState::Unused,
        context: Context::zeroed(),
        kstack: Vec::new(),
        kstack_top: 0,
        trapframe: 0,
        exit_code: 0,
        parent: 0,
        pgtbl: 0,
        chan: 0,
    };
    core::mem::swap(&mut e, &mut t.procs[pid]);
    e.state = s;
    t.procs.set(pid, e);
    proof {
        assert(t.procs@ =~= old(t).procs@.update(pid as int, crate::proc::proc::Proc { state: s, ..old(t).procs@[pid as int] }));
    }
}

/// The scheduler's own state: which CPUs have their idle process, and each CPU's last
/// pick.
pub struct Sched {
    pub last_picked: Vec<usize>,
    pub idle: Vec<usize>,
    pub inited: bool,
}

/// Gives CPU `cpu` an idle process: the slot `proc_alloc` takes, made runnable and set
/// up to start at `idle_entry` with its stack pointer at the top of its kernel stack, the
/// first page taken plus the stack size. `false`, with nothing changed, when no process
/// slot or stack can be had (see `proc_alloc`: the stack pages must come out of the
/// kernel pool as one run, as they do from a pool fresh from `pmem_init`).
pub fn init_hart(s: &mut Sched, t: &mut ProcTable, m: &mut Pmem, cpu: usize, idle_entry: usize) -> (ok: bool)
    requires
        old(t).wf(),
        old(m).wf(),
        cpu < NCPU,
        old(s).idle@.len() == NCPU,
        old(m).pool(Pool::Kernel).end() + KSTACK_PAGES * PAGE_SIZE <= usize::MAX,
    ensures
        final(t).wf(),
        final(m).wf(),
        final(s).idle@.len() == NCPU,
        final(t).current@ == old(t).current@,
        final(m).pool(Pool::User) == old(m).pool(Pool::User),
        ok <==> old(t).has_unused() && crate::proc::proc::stack_run(old(m).pool(Pool::Kernel).free()),
        !ok ==> *final(s) == *old(s) && final(t).procs@ == old(t).procs@
            && final(m).pool(Pool::Kernel).free() == old(m).pool(Pool::Kernel).free(),
        ok ==> {
            let p = final(s).idle@[cpu as int];
            let f = old(m).pool(Pool::Kernel).free();
            let q = final(t).procs@[p as int];
            &&& old(t).first_unused(p as int)
            &&& final(s).idle@ == old(s).idle@.update(cpu as int, p)
            &&& final(s).last_picked@ == old(s).last_picked@
            &&& final(s).inited
            &&& final(m).pool(Pool::Kernel).free() == f.subrange(0, f.len() - KSTACK_PAGES)
            &&& q.kstack@ == popped(f, KSTACK_PAGES as int)
            &&& q.pid == p
            &&& q.state == ProcState::Runnable
            &&& q.context.ra == idle_entry
            &&& q.context.sp == q.kstack_top
            &&& crate::proc::proc::stack_fields(q)
            &&& forall|j: int| 0 <= j < KSTACK_PAGES ==>
                #[trigger] q.kstack@[j] == q.kstack_top - (KSTACK_PAGES - j) * PAGE_SIZE
            &&& q.exit_code == 0 && q.parent == 0 && q.pgtbl == 0
            &&& forall|j: int| 0 <= j < NPROC && j != p ==> #[trigger] final(t).procs@[j] == old(t).procs@[j]
        },
{
    let p = match t.proc_alloc(m) {
        Some(p) => p,
        None => return false,
    };
    let top: usize = t.procs[p].kstack_top;
    let mut e = crate::proc::proc::Proc {
        pid: 0,
        state: ProcState::Unused,
        context: Context::zeroed(),
        kstack: Vec::new(),
        kstack_top: 0,
        trapframe: 0,
        exit_code: 0,
        parent: 0,
        pgtbl: 0,
        chan: 0,
    };
    core::mem::swap(&mut e, &mut t.procs[p]);
    e.state = ProcState::Runnable;
    e.context = Context::new(idle_entry, top);
    t.procs.set(p, e);
    s.idle.set(cpu, p);
    s.inited = true;
    true
}

/// Whether some CPU has set up its scheduler.
pub fn inited(s: &Sched) -> (r: bool)
    ensures
        r == s.inited,
{
    s.inited
}

/// One scheduling decision on CPU `cpu`: the next runnable process after the CPU's
/// last pick, or its idle process when none is runnable, is switched to.
pub fn pick_next_and_switch(s: &mut Sched, t: &mut ProcTable, cpu: usize, kernel_root: usize) -> (r: Option<Switch>)
    requires
        old(t).wf(),
        cpu < NCPU,
        old(s).idle@.len() == NCPU,
        old(s).last_picked@.len() == NCPU,
    ensures
        final(t).wf(),
        final(s).idle@ == old(s).idle@,
        final(s).inited == old(s).inited,
        final(s).last_picked@ == match pick_next_spec(*old(t), old(s).last_picked@[cpu as int]) {
            Some(p) => old(s).last_picked@.update(cpu as int, p),
            None => old(s).last_picked@,
        },
        switched(*old(t), *final(t), cpu as int, match pick_next_spec(*old(t), old(s).last_picked@[cpu as int]) {
            Some(p) => p,
            None => old(s).idle@[cpu as int],
        }, kernel_root, r),
{
    let last = s.last_picked[cpu];
    let target = match pick_next(t, last) {
        Some(p) => {
            s.last_picked.set(cpu, p);
            p
        },
        None => s.idle[cpu],
    };
    switch_to(t, cpu, target, kernel_root)
}

/// The pick of `pick_next`, as a function.
pub open spec fn pick_next_spec(t: ProcTable, last: usize) -> Option<usize> {
    if exists|s: int| 1 <= s < NPROC && runnable(t, #[trigger] candidate(last, s)) {
        let s = choose|s: int| 1 <= s < NPROC && runnable(t, #[trigger] candidate(last, s))
            && forall|s2: int| 1 <= s2 < s ==> !runnable(t, #[trigger] candidate(last, s2));
        Some(candidate(last, s) as usize)
    } else {
        None
    }
}

}
