//! Process life: pids, sleeping and waking, fork, exit and wait, over the process table.
use vstd::prelude::*;
use crate::mm::pmem::Pmem;
use crate::proc::proc::{Proc, ProcState, ProcTable, NPROC};
use crate::sched::set_state;

verus! {

/// Pid of the first process, which adopts the children of exiting processes.
pub const INIT_PID: usize = 1;

/// Hands out pids in increasing order, from 1.
pub struct PidAllocator {
    next: u32,
}

impl PidAllocator {
    pub closed spec fn next_spec(&self) -> u32 {
        self.next
    }

    pub fn pid_init() -> (r: PidAllocator)
        ensures
            r.next_spec() == 1,
    {
        PidAllocator { next: 1 }
    }

    /// The next pid. Pids beyond the largest `i32` are never handed out.
    pub fn alloc_pid(&mut self) -> (pid: usize)
        requires
            old(self).next_spec() <= i32::MAX,
        ensures
            pid == old(self).next_spec(),
            final(self).next_spec() == old(self).next_spec() + 1,
    {
        let pid = self.next as usize;
        self.next = self.next + 1;
        pid
    }
}

/// Slot `p` after a wakeup on `chan`.
pub open spec fn woken(p: Proc, chan: usize) -> Proc {
    if p.state == ProcState::Sleeping && p.chan == chan { Proc { state: ProcState::Runnable, ..p } } else { p }
}

/// Makes every process sleeping on `chan` runnable.
pub fn wakeup(t: &mut ProcTable, chan: usize)
    requires
        old(t).wf(),
    ensures
        final(t).wf(),
        final(t).current@ == old(t).current@,
        forall|i: int| 0 <= i < NPROC ==> #[trigger] final(t).procs@[i] == woken(old(t).procs@[i], chan),
        forall|i: int| 0 <= i < NPROC && old(t).procs@[i].state == ProcState::Sleeping && old(t).procs@[i].chan == chan
            ==> #[trigger] final(t).procs@[i] == (Proc { state: ProcState::Runnable, ..old(t).procs@[i] }),
        forall|i: int| 0 <= i < NPROC && !(old(t).procs@[i].state == ProcState::Sleeping && old(t).procs@[i].chan == chan)
            ==> #[trigger] final(t).procs@[i] == old(t).procs@[i],
        forall|i: int| 0 <= i < NPROC ==> !(#[trigger] final(t).procs@[i].state == ProcState::Sleeping && final(t).procs@[i].chan == chan),
{
    let mut i: usize = 0;
    while i < NPROC
        invariant
            t.wf(),
            old(t).wf(),
            t.current@ == old(t).current@,
            i <= NPROC,
            forall|k: int| 0 <= k < i ==> #[trigger] t.procs@[k] == woken(old(t).procs@[k], chan),
            forall|k: int| i <= k < NPROC ==> #[trigger] t.procs@[k] == old(t).procs@[k],
        decreases NPROC - i,
    {
        if t.procs[i].state == ProcState::Sleeping && t.procs[i].chan == chan {
            set_state(t, i, ProcState::Runnable);
        }
        i = i + 1;
    }
}

/// Puts process `pid` to sleep on `chan`.
pub fn sleep(t: &mut ProcTable, pid: usize, chan: usize)
    requires
        old(t).wf(),
        pid < NPROC,
    ensures
        final(t).wf(),
        final(t).current@ == old(t).current@,
        final(t).procs@ == old(t).procs@.update(pid as int, Proc { state: ProcState::Sleeping, chan, ..old(t).procs@[pid as int] }),
{
    set_state(t, pid, ProcState::Sleeping);
    let mut p = take(t, pid);
    p.chan = chan;
    t.procs.set(pid, p);
    proof {
        assert(t.procs@ =~= old(t).procs@.update(pid as int, Proc { state: ProcState::Sleeping, chan, ..old(t).procs@[pid as int] }));
    }
}

fn take(t: &mut ProcTable, pid: usize) -> (p: Proc)
    requires
        old(t).wf(),
        pid < NPROC,
    ensures
        final(t).wf(),
        p == old(t).procs@[pid as int],
        final(t).current@ == old(t).current@,
        forall|j: int| 0 <= j < NPROC && j != pid ==> #[trigger] final(t).procs@[j] == old(t).procs@[j],
{
    let mut e = Proc {
        pid: 0,
        state: ProcState::Unused,
        context: crate::proc::context::Context::zeroed(),
        kstack: Vec::new(),
        kstack_top: 0,
        trapframe: 0,
        exit_code: 0,
        parent: 0,
        pgtbl: 0,
        chan: 0,
    };
    core::mem::swap(&mut e, &mut t.procs[pid]);
    e
}

/// Creates a child of `parent` in a new slot (see `proc_alloc`): it is runnable and
/// starts from the parent's saved context. Returns its pid, or `None` when no slot or
/// kernel stack can be had.
pub fn fork(t: &mut ProcTable, m: &mut Pmem, parent: usize) -> (r: Option<usize>)
    requires
        old(t).wf(),
        old(m).wf(),
        old(m).pool(crate::mm::pmem::Pool::Kernel).end() + crate::proc::proc::KSTACK_PAGES * crate::mm::pmem::PAGE_SIZE <= usize::MAX,
        parent < NPROC,
    ensures
        final(t).wf(),
        final(m).wf(),
        r is None <==> !old(t).has_unused() || !crate::proc::proc::stack_run(old(m).pool(crate::mm::pmem::Pool::Kernel).free()),
        r is None ==> final(t).procs@ == old(t).procs@,
        r matches Some(c) ==> {
            &&& old(t).first_unused(c as int)
            &&& final(t).procs@[c as int].state == ProcState::Runnable
            &&& final(t).procs@[c as int].parent == parent
            &&& final(t).procs@[c as int].pid == c
            &&& final(t).procs@[c as int].context == old(t).procs@[parent as int].context
            &&& forall|j: int| 0 <= j < NPROC && j != c ==> #[trigger] final(t).procs@[j] == old(t).procs@[j]
        },
{
    let ctx = t.procs[parent].context;
    let c = match t.proc_alloc(m) {
        Some(c) => c,
        None => return None,
    };
    let mut p = take(t, c);
    p.state = ProcState::Runnable;
    p.parent = parent;
    p.context = ctx;
    t.procs.set(c, p);
    Some(c)
}

/// Slot `p` after process `pid` has exited: its children now belong to the first
/// process.
pub open spec fn reparented(p: Proc, pid: usize) -> Proc {
    if p.parent == pid && p.state != ProcState::Unused { Proc { parent: INIT_PID, ..p } } else { p }
}

/// Process `pid` exits with `status`: its children go to the first process, it becomes
/// a zombie keeping `status` for its parent, and the parent is woken if it waits.
/// Returns whether the first process was given a zombie child (it is then woken too).
pub fn exit(t: &mut ProcTable, pid: usize, status: usize) -> (init_gets_zombie: bool)
    requires
        old(t).wf(),
        0 < pid < NPROC,
        pid != INIT_PID,
    ensures
        final(t).wf(),
        final(t).current@ == old(t).current@,
        ({
            let parent = old(t).procs@[pid as int].parent;
            &&& final(t).procs@[pid as int].state == ProcState::Zombie
            &&& final(t).procs@[pid as int].exit_code == status
            &&& final(t).procs@[pid as int].parent == parent
            &&& forall|i: int| 0 <= i < NPROC && i != pid && i != parent && i != INIT_PID ==>
                #[trigger] final(t).procs@[i] == reparented(old(t).procs@[i], pid)
            &&& 0 < parent < NPROC && parent != pid && old(t).procs@[parent as int].state == ProcState::Sleeping
                && old(t).procs@[parent as int].chan == parent ==> final(t).procs@[parent as int].state == ProcState::Runnable
            &&& init_gets_zombie == exists|i: int| 0 <= i < NPROC && i != pid
                && old(t).procs@[i].parent == pid && #[trigger] old(t).procs@[i].state == ProcState::Zombie
        }),
        forall|i: int| 0 <= i < NPROC && i != pid ==> #[trigger] final(t).procs@[i].parent == reparented(old(t).procs@[i], pid).parent,
        forall|i: int| 0 <= i < NPROC && i != pid ==>
            (#[trigger] final(t).procs@[i].state == ProcState::Unused) == (old(t).procs@[i].state == ProcState::Unused),
        forall|i: int| 0 <= i < NPROC && i != pid && old(t).procs@[i].parent == pid
            && #[trigger] old(t).procs@[i].state != ProcState::Unused ==> final(t).procs@[i].parent == INIT_PID,
        forall|i: int| 0 <= i < NPROC && i != pid && #[trigger] final(t).procs@[i].state != ProcState::Unused
            ==> final(t).procs@[i].parent != pid,
{
    let parent = t.procs[pid].parent;
    let mut zombie_child = false;
    let mut i: usize = 0;
    while i < NPROC
        invariant
            t.wf(),
            old(t).wf(),
            0 < pid < NPROC,
            pid != INIT_PID,
            t.current@ == old(t).current@,
            t.procs@[pid as int] == old(t).procs@[pid as int],
            parent == old(t).procs@[pid as int].parent,
            i <= NPROC,
            forall|k: int| 0 <= k < i && k != pid ==> #[trigger] t.procs@[k] == reparented(old(t).procs@[k], pid),
            forall|k: int| i <= k < NPROC ==> #[trigger] t.procs@[k] == old(t).procs@[k],
            zombie_child == exists|k: int| 0 <= k < i && k != pid && old(t).procs@[k].parent == pid
                && #[trigger] old(t).procs@[k].state == ProcState::Zombie,
        decreases NPROC - i,
    {
        if i != pid && t.procs[i].parent == pid && t.procs[i].state != ProcState::Unused {
            if t.procs[i].state == ProcState::Zombie {
                zombie_child = true;
            }
            let mut p = take(t, i);
            p.parent = INIT_PID;
            t.procs.set(i, p);
        }
        proof {
            if !zombie_child {
                assert forall|k: int| 0 <= k < i + 1 && k != pid && old(t).procs@[k].parent == pid
                    implies #[trigger] old(t).procs@[k].state != ProcState::Zombie by {
                    if k == i {
                    }
                }
            }
        }
        i = i + 1;
    }
    let ghost t1 = *t;
    let mut p = take(t, pid);
    p.exit_code = status;
    p.state = ProcState::Zombie;
    t.procs.set(pid, p);
    if parent > 0 && parent < NPROC && parent != pid && t.procs[parent].state == ProcState::Sleeping
        && t.procs[parent].chan == parent {
        set_state(t, parent, ProcState::Runnable);
    }
    if zombie_child && t.procs[INIT_PID].state == ProcState::Sleeping && t.procs[INIT_PID].chan == INIT_PID {
        set_state(t, INIT_PID, ProcState::Runnable);
    }
    proof {
        assert forall|i: int| 0 <= i < NPROC && i != pid implies #[trigger] t.procs@[i].parent == reparented(old(t).procs@[i], pid).parent
            && ((t.procs@[i].state == ProcState::Unused) == (old(t).procs@[i].state == ProcState::Unused)) by {
            assert(t1.procs@[i] == reparented(old(t).procs@[i], pid));
        }
        lemma_exit_hands_children_to_init(*old(t), *t, pid);
    }
    zombie_child
}

/// Every child of an exiting process, live or zombie, goes to the first process: after
/// `exit(pid)` (its effect as its contract states it), a slot that was in use with
/// parent `pid` has parent `INIT_PID`, no slot in use but `pid` itself still has parent
/// `pid`, and every other slot keeps its parent.
pub proof fn lemma_exit_hands_children_to_init(t0: ProcTable, t1: ProcTable, pid: usize)
    requires
        t0.wf(),
        t1.wf(),
        0 < pid < NPROC,
        pid != INIT_PID,
        forall|i: int| 0 <= i < NPROC && i != pid ==> #[trigger] t1.procs@[i].parent == reparented(t0.procs@[i], pid).parent,
        forall|i: int| 0 <= i < NPROC && i != pid ==>
            (#[trigger] t1.procs@[i].state == ProcState::Unused) == (t0.procs@[i].state == ProcState::Unused),
    ensures
        forall|i: int| 0 <= i < NPROC && i != pid && t0.procs@[i].parent == pid
            && #[trigger] t0.procs@[i].state != ProcState::Unused ==> t1.procs@[i].parent == INIT_PID,
        forall|i: int| 0 <= i < NPROC && i != pid && #[trigger] t1.procs@[i].state != ProcState::Unused
            ==> t1.procs@[i].parent != pid,
        forall|i: int| 0 <= i < NPROC && i != pid && !(t0.procs@[i].parent == pid && t0.procs@[i].state != ProcState::Unused)
            ==> #[trigger] t1.procs@[i].parent == t0.procs@[i].parent,
{
    assert forall|i: int| 0 <= i < NPROC && i != pid && #[trigger] t1.procs@[i].state != ProcState::Unused
        implies t1.procs@[i].parent != pid by {
        assert(t1.procs@[i].parent == reparented(t0.procs@[i], pid).parent);
    }
    assert forall|i: int| 0 <= i < NPROC && i != pid && t0.procs@[i].parent == pid
        && #[trigger] t0.procs@[i].state != ProcState::Unused implies t1.procs@[i].parent == INIT_PID by {
        assert(t1.procs@[i].parent == reparented(t0.procs@[i], pid).parent);
    }
    assert forall|i: int| 0 <= i < NPROC && i != pid && !(t0.procs@[i].parent == pid && t0.procs@[i].state != ProcState::Unused)
        implies #[trigger] t1.procs@[i].parent == t0.procs@[i].parent by {
        assert(t1.procs@[i].parent == reparented(t0.procs@[i], pid).parent);
    }
}

/// What a wait of a process came to.
pub enum WaitResult {
    /// A zombie child was reaped: its pid, its exit status, and its kernel stack pages
    /// for the caller to give back to the kernel pool.
    Reaped(usize, usize, Vec<usize>),
    /// The process has no children.
    NoChildren,
    /// It has children, none exited yet: it now sleeps on its own pid.
    Sleep,
}

/// Process `pid` waits for a child: reaps the first zombie child (its slot becomes
/// unused), or reports that there are no children, or goes to sleep until one exits.
pub fn wait(t: &mut ProcTable, pid: usize) -> (r: WaitResult)
    requires
        old(t).wf(),
        pid < NPROC,
    ensures
        final(t).wf(),
        final(t).current@ == old(t).current@,
        r matches WaitResult::Reaped(c, code, pages) ==> {
            &&& 0 <= c < NPROC && c != pid
            &&& old(t).procs@[c as int].parent == pid && old(t).procs@[c as int].state == ProcState::Zombie
            &&& forall|k: int| 0 <= k < c && k != pid ==> !(old(t).procs@[k].parent == pid
                && #[trigger] old(t).procs@[k].state == ProcState::Zombie)
            &&& code == old(t).procs@[c as int].exit_code
            &&& pages@ == old(t).procs@[c as int].kstack@
            &&& final(t).procs@[c as int].state == ProcState::Unused
            &&& final(t).procs@[c as int].kstack@.len() == 0
            &&& forall|j: int| 0 <= j < NPROC && j != c ==> #[trigger] final(t).procs@[j] == old(t).procs@[j]
        },
        r is NoChildren <==> forall|k: int| 0 <= k < NPROC && k != pid ==> !(old(t).procs@[k].parent == pid
            && #[trigger] old(t).procs@[k].state != ProcState::Unused),
        r is NoChildren ==> final(t).procs@ == old(t).procs@,
        r is Sleep ==> forall|k: int| 0 <= k < NPROC && k != pid ==> !(old(t).procs@[k].parent == pid
            && #[trigger] old(t).procs@[k].state == ProcState::Zombie),
        r is Sleep ==> final(t).procs@ == old(t).procs@.update(pid as int,
            Proc { state: ProcState::Sleeping, chan: pid, ..old(t).procs@[pid as int] }),
{
    let mut has_child = false;
    let mut i: usize = 0;
    while i < NPROC
        invariant
            t.wf(),
            *t == *old(t),
            pid < NPROC,
            i <= NPROC,
            forall|k: int| 0 <= k < i && k != pid ==> !(t.procs@[k].parent == pid
                && #[trigger] t.procs@[k].state == ProcState::Zombie),
            has_child == exists|k: int| 0 <= k < i && k != pid && t.procs@[k].parent == pid
                && #[trigger] t.procs@[k].state != ProcState::Unused,
        decreases NPROC - i,
    {
        if i != pid && t.procs[i].parent == pid {
            if t.procs[i].state == ProcState::Zombie {
                let mut p = take(t, i);
                let code = p.exit_code;
                let mut pages: Vec<usize> = Vec::new();
                core::mem::swap(&mut pages, &mut p.kstack);
                p.state = ProcState::Unused;
                t.procs.set(i, p);
                return WaitResult::Reaped(i, code, pages);
            }
            if t.procs[i].state != ProcState::Unused {
                has_child = true;
            }
        }
        proof {
            if !has_child {
                assert forall|k: int| 0 <= k < i + 1 && k != pid && t.procs@[k].parent == pid
                    implies #[trigger] t.procs@[k].state == ProcState::Unused by {
                    if k == i {
                    }
                }
            }
        }
        i = i + 1;
    }
    if !has_child {
        return WaitResult::NoChildren;
    }
    sleep(t, pid, pid);
    WaitResult::Sleep
}

}
