//! The process table: slots numbered by pid, each with its state, saved context and
//! kernel stack, and the process each CPU is running.
use vstd::prelude::*;
use crate::mm::pmem::{FreeList, Pmem, Pool, PAGE_SIZE};
use crate::proc::context::Context;
use crate::sched::{Sched, Switch, switched, pick_next_spec};

verus! {

/// The states of a process slot.
#[derive(PartialEq, Eq, Structural, Clone, Copy, Debug)]
pub enum ProcState {
    Unused,
    Runnable,
    Running,
    Sleeping,
    Zombie,
}

/// Slots in the process table; slot 0 is never handed out.
pub const NPROC: usize = 64;
/// Pages of a kernel stack.
pub const KSTACK_PAGES: usize = 4;
/// CPUs.
pub const NCPU: usize = 8;
/// Bytes of the trap frame kept at the top of a kernel stack.
pub const TRAPFRAME_SIZE: usize = 272;

/// The last `KSTACK_PAGES` pages of free list `f` (those handed out next) are one run of
/// consecutive pages going up from the first one handed out.
pub open spec fn stack_run(f: Seq<usize>) -> bool {
    &&& f.len() >= KSTACK_PAGES
    &&& forall|j: int| 0 <= j < KSTACK_PAGES ==> #[trigger] f[f.len() - 1 - j] == f.last() + j * PAGE_SIZE
}

/// A free list that is one run of pages going down from its head, so that the lowest
/// page comes out first (as `pmem_init` lays the pools out, and as such a list stays
/// after pages are taken from it), hands out a contiguous kernel stack.
pub proof fn lemma_stack_run_of_descending(f: Seq<usize>, base: int)
    requires
        f.len() >= KSTACK_PAGES,
        forall|i: int| 0 <= i < f.len() ==> #[trigger] f[i] == base + (f.len() - 1 - i) * PAGE_SIZE,
    ensures
        stack_run(f),
{
    assert(f.last() == f[f.len() - 1]);
    assert forall|j: int| 0 <= j < KSTACK_PAGES implies #[trigger] f[f.len() - 1 - j] == f.last() + j * PAGE_SIZE by {
        assert(f[f.len() - 1 - j] == base + (f.len() - 1 - (f.len() - 1 - j)) * PAGE_SIZE);
    }
}

/// The stack fields of a slot given pages `pages`: the top is the first page plus the
/// stack size, and the trap frame sits right below it.
pub open spec fn stack_fields(p: Proc) -> bool {
    &&& p.kstack@.len() == KSTACK_PAGES
    &&& p.kstack_top == p.kstack@[0] + KSTACK_PAGES * PAGE_SIZE
    &&& p.kstack_top % PAGE_SIZE == 0
    &&& p.trapframe == p.kstack_top - TRAPFRAME_SIZE
}

pub struct Proc {
    pub pid: usize,
    pub state: ProcState,
    pub context: Context,
    /// The pages of the kernel stack, in the order they were allocated.
    pub kstack: Vec<usize>,
    /// The top (high end) of the kernel stack: the first page plus the stack size.
    pub kstack_top: usize,
    /// Where the trap frame sits: `TRAPFRAME_SIZE` bytes below the stack top.
    pub trapframe: usize,
    pub exit_code: usize,
    pub parent: usize,
    pub pgtbl: usize,
    /// What a sleeping process waits for.
    pub chan: usize,
}

pub struct ProcTable {
    pub procs: Vec<Proc>,
    /// The pid each CPU runs (0: none).
    pub current: Vec<usize>,
}

impl ProcTable {
    pub open spec fn wf(&self) -> bool {
        &&& self.procs@.len() == NPROC
        &&& self.current@.len() == NCPU
    }

    /// Slot `i` is free, and every free slot before it is 0.
    pub open spec fn first_unused(&self, i: int) -> bool {
        &&& 1 <= i < NPROC
        &&& self.procs@[i].state == ProcState::Unused
        &&& forall|j: int| 1 <= j < i ==> #[trigger] self.procs@[j].state != ProcState::Unused
    }

    pub open spec fn has_unused(&self) -> bool {
        exists|i: int| 1 <= i < NPROC && #[trigger] self.procs@[i].state == ProcState::Unused
    }
}

/// The table of a booted system: every slot unused and numbered by its index.
pub fn proc_init() -> (t: ProcTable)
    ensures
        t.wf(),
        forall|i: int| 0 <= i < NPROC ==> (#[trigger] t.procs@[i]).pid == i && t.procs@[i].state == ProcState::Unused
            && t.procs@[i].kstack@.len() == 0,
        forall|c: int| 0 <= c < NCPU ==> t.current@[c] == 0,
{
    let mut procs: Vec<Proc> = Vec::new();
    let mut i: usize = 0;
    while i < NPROC
        invariant
            i <= NPROC,
            procs@.len() == i,
            forall|k: int| 0 <= k < i ==> (#[trigger] procs@[k]).pid == k && procs@[k].state == ProcState::Unused
                && procs@[k].kstack@.len() == 0,
        decreases NPROC - i,
    {
        procs.push(Proc {
            pid: i,
            state: ProcState::Unused,
            context: Context::zeroed(),
            kstack: Vec::new(),
            kstack_top: 0,
            trapframe: 0,
            exit_code: 0,
            parent: 0,
            pgtbl: 0,
            chan: 0,
        });
        i = i + 1;
    }
    let mut current: Vec<usize> = Vec::new();
    let mut c: usize = 0;
    while c < NCPU
        invariant
            c <= NCPU,
            current@.len() == c,
            forall|k: int| 0 <= k < c ==> current@[k] == 0,
        decreases NCPU - c,
    {
        current.push(0);
        c = c + 1;
    }
    ProcTable { procs, current }
}

/// The first `k` pages popped from free list `f`, in the order they come off.
pub open spec fn popped(f: Seq<usize>, k: int) -> Seq<usize> {
    Seq::new(k as nat, |j: int| f[f.len() - 1 - j])
}

impl ProcTable {
    /// Takes the first unused slot from 1 on and gives it a kernel stack of
    /// `KSTACK_PAGES` consecutive pages from the kernel pool, the first one taken lowest:
    /// the stack top is that page plus the stack size, and the trap frame sits right below
    /// it. `None` when no slot is unused, or when the pages the pool hands out next are not
    /// such a run (too few of them, or a hole between them): the pages already taken are
    /// then given back and the pool is as it was. The slot stays unused until its caller
    /// fills it in.
    pub fn proc_alloc(&mut self, m: &mut Pmem) -> (r: Option<usize>)
        requires
            old(self).wf(),
            old(m).wf(),
            old(m).pool(Pool::Kernel).end() + KSTACK_PAGES * PAGE_SIZE <= usize::MAX,
        ensures
            final(self).wf(),
            final(m).wf(),
            final(m).pool(Pool::User) == old(m).pool(Pool::User),
            final(m).pool(Pool::Kernel).begin() == old(m).pool(Pool::Kernel).begin(),
            final(m).pool(Pool::Kernel).end() == old(m).pool(Pool::Kernel).end(),
            r is None <==> !old(self).has_unused() || !stack_run(old(m).pool(Pool::Kernel).free()),
            r is None ==> final(self).procs@ == old(self).procs@ && final(m).pool(Pool::Kernel).free() == old(m).pool(Pool::Kernel).free(),
            final(self).current@ == old(self).current@,
            r matches Some(i) ==> {
                let f = old(m).pool(Pool::Kernel).free();
                &&& old(self).first_unused(i as int)
                &&& final(m).pool(Pool::Kernel).free() == f.subrange(0, f.len() - KSTACK_PAGES)
                &&& final(self).procs@[i as int].kstack@ == popped(f, KSTACK_PAGES as int)
                &&& final(self).procs@[i as int].pid == i
                &&& final(self).procs@[i as int].state == ProcState::Unused
                &&& final(self).procs@[i as int].exit_code == 0
                &&& final(self).procs@[i as int].parent == 0
                &&& final(self).procs@[i as int].pgtbl == 0
                &&& stack_fields(final(self).procs@[i as int])
                &&& forall|j: int| 0 <= j < KSTACK_PAGES ==>
                    #[trigger] final(self).procs@[i as int].kstack@[j] == final(self).procs@[i as int].kstack_top - (KSTACK_PAGES - j) * PAGE_SIZE
                        && final(m).pool(Pool::Kernel).allocated(final(self).procs@[i as int].kstack@[j] as int)
                &&& forall|j: int| 0 <= j < NPROC && j != i ==> #[trigger] final(self).procs@[j] == old(self).procs@[j]
            },
    {
        let mut i: usize = 1;
        while i < NPROC
            invariant
                old(self).wf(),
                old(m).wf(),
                self.wf(),
                *self == *old(self),
                *m == *old(m),
                old(m).pool(Pool::Kernel).end() + KSTACK_PAGES * PAGE_SIZE <= usize::MAX,
                1 <= i <= NPROC,
                forall|j: int| 1 <= j < i ==> #[trigger] self.procs@[j].state != ProcState::Unused,
            decreases NPROC - i,
        {
            if self.procs[i].state == ProcState::Unused {
                return self.fill_slot(m, i);
            }
            i = i + 1;
        }
        None
    }

    fn fill_slot(&mut self, m: &mut Pmem, i: usize) -> (r: Option<usize>)
        requires
            old(self).wf(),
            old(m).wf(),
            old(m).pool(Pool::Kernel).end() + KSTACK_PAGES * PAGE_SIZE <= usize::MAX,
            old(self).first_unused(i as int),
        ensures
            final(self).wf(),
            final(m).wf(),
            final(m).pool(Pool::User) == old(m).pool(Pool::User),
            final(m).pool(Pool::Kernel).begin() == old(m).pool(Pool::Kernel).begin(),
            final(m).pool(Pool::Kernel).end() == old(m).pool(Pool::Kernel).end(),
            r is None <==> !stack_run(old(m).pool(Pool::Kernel).free()),
            r is None ==> final(self).procs@ == old(self).procs@ && final(m).pool(Pool::Kernel).free() == old(m).pool(Pool::Kernel).free(),
            final(self).current@ == old(self).current@,
            r matches Some(k) ==> {
                let f = old(m).pool(Pool::Kernel).free();
                &&& k == i
                &&& final(m).pool(Pool::Kernel).free() == f.subrange(0, f.len() - KSTACK_PAGES)
                &&& final(self).procs@[i as int].kstack@ == popped(f, KSTACK_PAGES as int)
                &&& final(self).procs@[i as int].pid == i
                &&& final(self).procs@[i as int].state == ProcState::Unused
                &&& final(self).procs@[i as int].exit_code == 0
                &&& final(self).procs@[i as int].parent == 0
                &&& final(self).procs@[i as int].pgtbl == 0
                &&& stack_fields(final(self).procs@[i as int])
                &&& forall|j: int| 0 <= j < KSTACK_PAGES ==>
                    #[trigger] final(self).procs@[i as int].kstack@[j] == final(self).procs@[i as int].kstack_top - (KSTACK_PAGES - j) * PAGE_SIZE
                        && final(m).pool(Pool::Kernel).allocated(final(self).procs@[i as int].kstack@[j] as int)
                &&& forall|j: int| 0 <= j < NPROC && j != i ==> #[trigger] final(self).procs@[j] == old(self).procs@[j]
            },
    {
        let ghost f = m.pool(Pool::Kernel).free();
        let ghost u = m.pool(Pool::User);
        proof {
            m.lemma_free_distinct(Pool::Kernel);
        }
        let mut pages: Vec<usize> = Vec::new();
        let mut k: usize = 0;
        while k < KSTACK_PAGES
            invariant
                m.wf(),
                *self == *old(self),
                old(self).wf(),
                f.no_duplicates(),
                k <= KSTACK_PAGES,
                k <= f.len(),
                m.pool(Pool::User) == u,
                m.pool(Pool::Kernel).free() == f.subrange(0, f.len() - k),
                pages@ == popped(f, k as int),
                forall|j: int| 0 <= j < k ==> m.pool(Pool::Kernel).allocated(#[trigger] pages@[j] as int),
                f == old(m).pool(Pool::Kernel).free(),
                u == old(m).pool(Pool::User),
                old(m).pool(Pool::Kernel).begin() == m.pool(Pool::Kernel).begin(),
                old(m).pool(Pool::Kernel).end() == m.pool(Pool::Kernel).end(),
            decreases KSTACK_PAGES - k,
        {
            let ghost before = m.pool(Pool::Kernel).free();
            let page = m.pmem_alloc(Pool::Kernel);
            if page == 0 {
                proof {
                    assert(f.len() == k);
                }
                give_back(m, &pages, Ghost(f), Ghost(u));
                return None;
            }
            pages.push(page);
            proof {
                assert(pages@ =~= popped(f, (k + 1) as int));
                assert(m.pool(Pool::Kernel).free() =~= f.subrange(0, f.len() - (k + 1)));
                assert forall|j: int| 0 <= j < k + 1 implies m.pool(Pool::Kernel).allocated(#[trigger] pages@[j] as int) by {
                    if j < k {
                        if m.pool(Pool::Kernel).free().contains(pages@[j]) {
                            let q = choose|q: int| 0 <= q < m.pool(Pool::Kernel).free().len()
                                && m.pool(Pool::Kernel).free()[q] == pages@[j];
                            assert(before[q] == pages@[j]);
                        }
                    }
                }
            }
            k = k + 1;
        }
        proof {
            assert(pages@[0] == f[f.len() - 1]);
            assert(old(m).pool(Pool::Kernel).owns(f[f.len() - 1] as int));
            assert(f[f.len() - 1] % PAGE_SIZE == 0);
        }
        let base = pages[0];
        if !(pages[1] == base + PAGE_SIZE && pages[2] == base + 2 * PAGE_SIZE && pages[3] == base + 3 * PAGE_SIZE) {
            proof {
                assert(!stack_run(f)) by {
                    if stack_run(f) {
                        assert(f[f.len() - 1 - 1] == f.last() + 1 * PAGE_SIZE);
                        assert(f[f.len() - 1 - 2] == f.last() + 2 * PAGE_SIZE);
                        assert(f[f.len() - 1 - 3] == f.last() + 3 * PAGE_SIZE);
                    }
                }
            }
            give_back(m, &pages, Ghost(f), Ghost(u));
            return None;
        }
        proof {
            assert(stack_run(f)) by {
                assert forall|j: int| 0 <= j < KSTACK_PAGES implies #[trigger] f[f.len() - 1 - j] == f.last() + j * PAGE_SIZE by {
                    assert(pages@[j] == f[f.len() - 1 - j]);
                }
            }
        }
        let top = base + KSTACK_PAGES * PAGE_SIZE;
        let mut p = self.take_proc(i);
        p.kstack = pages;
        p.kstack_top = top;
        p.trapframe = top - TRAPFRAME_SIZE;
        p.state = ProcState::Unused;
        p.exit_code = 0;
        p.parent = 0;
        p.pgtbl = 0;
        p.pid = i;
        self.procs.set(i, p);
        Some(i)
    }

    fn take_proc(&mut self, i: usize) -> (p: Proc)
        requires
            old(self).wf(),
            i < NPROC,
        ensures
            final(self).wf(),
            p == old(self).procs@[i as int],
            final(self).current@ == old(self).current@,
            forall|j: int| 0 <= j < NPROC && j != i ==> #[trigger] final(self).procs@[j] == old(self).procs@[j],
    {
        let mut e = Proc {
            pid: 0,
            state: ProcState::Unused,
            context: Context::zeroed(),
            kstack: Vec::new(),
            kstack_top: 0,
            trapframe: 0,
            exit_code: 0,
            parent: 0,
            pgtbl: 0,
            chan: 0,
        };
        core::mem::swap(&mut e, &mut self.procs[i]);
        e
    }

    /// The pid CPU `cpu` is running, if it runs a process.
    pub fn current_pid(&self, cpu: usize) -> (r: Option<usize>)
        requires
            self.wf(),
            cpu < NCPU,
        ensures
            r == if 0 < self.current@[cpu as int] < NPROC { Some(self.current@[cpu as int]) } else { None::<usize> },
    {
        let pid = self.current[cpu];
        if pid == 0 || pid >= NPROC {
            None
        } else {
            Some(pid)
        }
    }

    /// Records that CPU `cpu` runs `pid`.
    pub fn set_current(&mut self, cpu: usize, pid: usize)
        requires
            old(self).wf(),
            cpu < NCPU,
        ensures
            final(self).wf(),
            final(self).procs@ == old(self).procs@,
            final(self).current@ == old(self).current@.update(cpu as int, pid),
    {
        self.current.set(cpu, pid);
    }

    /// The process the CPU numbered `cpu` runs; `None` when the CPU is unknown or runs
    /// no process.
    pub fn current(&self, cpu: Option<usize>) -> (r: Option<&Proc>)
        requires
            self.wf(),
            cpu matches Some(c) ==> c < NCPU,
        ensures
            r == match current_slot(*self, cpu) {
                Some(pid) => Some(&self.procs@[pid as int]),
                None => None::<&Proc>,
            },
    {
        let c = match cpu {
            None => return None,
            Some(c) => c,
        };
        let pid = self.current[c];
        if pid == 0 || pid >= NPROC {
            return None;
        }
        Some(&self.procs[pid])
    }

    /// Records `root` as the page table of the process in slot `pid`.
    pub fn set_pgtbl(&mut self, pid: usize, root: usize)
        requires
            old(self).wf(),
            pid < NPROC,
        ensures
            final(self).wf(),
            final(self).current@ == old(self).current@,
            final(self).procs@ == old(self).procs@.update(pid as int, Proc { pgtbl: root, ..old(self).procs@[pid as int] }),
    {
        let mut e = Proc {
            pid: 0,
            state: ProcState::Unused,
            context: Context::zeroed(),
            kstack: Vec::new(),
            kstack_top: 0,
            trapframe: 0,
            exit_code: 0,
            parent: 0,
            pgtbl: 0,
            chan: 0,
        };
        core::mem::swap(&mut e, &mut self.procs[pid]);
        e.pgtbl = root;
        self.procs.set(pid, e);
        proof {
            assert(self.procs@ =~= old(self).procs@.update(pid as int, Proc { pgtbl: root, ..old(self).procs@[pid as int] }));
        }
    }

    /// The slot of `pid`, whatever its state; `None` for 0 and past the table.
    pub fn proc_at(&self, pid: usize) -> (r: Option<&Proc>)
        requires
            self.wf(),
        ensures
            r is None <==> pid == 0 || pid >= NPROC,
            r matches Some(p) ==> *p == self.procs@[pid as int],
    {
        if pid == 0 || pid >= NPROC {
            return None;
        }
        Some(&self.procs[pid])
    }
}

/// The pid the CPU numbered `cpu` runs, if it is known and runs a process.
pub open spec fn current_slot(t: ProcTable, cpu: Option<usize>) -> Option<usize> {
    match cpu {
        Some(c) => {
            let pid = t.current@[c as int];
            if 0 < pid < NPROC { Some(pid) } else { None }
        },
        None => None,
    }
}

/// Gives back `pages`, the pages taken last from the kernel free list `f` (the first
/// taken first in `pages`), so that the free list is `f` again.
fn give_back(m: &mut Pmem, pages: &Vec<usize>, Ghost(f): Ghost<Seq<usize>>, Ghost(u): Ghost<FreeList>)
    requires
        old(m).wf(),
        pages@.len() <= f.len(),
        f.no_duplicates(),
        old(m).pool(Pool::User) == u,
        old(m).pool(Pool::Kernel).free() == f.subrange(0, f.len() - pages@.len()),
        pages@ == popped(f, pages@.len() as int),
        forall|j: int| 0 <= j < pages@.len() ==> old(m).pool(Pool::Kernel).allocated(#[trigger] pages@[j] as int),
    ensures
        final(m).wf(),
        final(m).pool(Pool::User) == u,
        final(m).pool(Pool::Kernel).free() == f,
        final(m).pool(Pool::Kernel).begin() == old(m).pool(Pool::Kernel).begin(),
        final(m).pool(Pool::Kernel).end() == old(m).pool(Pool::Kernel).end(),
{
    let k = pages.len();
    let mut t: usize = k;
    while t > 0
        invariant
            m.wf(),
            t <= k,
            k == pages@.len(),
            k <= f.len(),
            m.pool(Pool::User) == u,
            m.pool(Pool::Kernel).free() == f.subrange(0, f.len() - t),
            pages@ == popped(f, k as int),
            forall|j: int| 0 <= j < t ==> m.pool(Pool::Kernel).allocated(#[trigger] pages@[j] as int),
            f.no_duplicates(),
            old(m).pool(Pool::Kernel).begin() == m.pool(Pool::Kernel).begin(),
            old(m).pool(Pool::Kernel).end() == m.pool(Pool::Kernel).end(),
        decreases t,
    {
        t = t - 1;
        let pa = pages[t];
        let ghost fb = m.pool(Pool::Kernel).free();
        m.pmem_free(pa, Pool::Kernel);
        proof {
            assert(m.pool(Pool::Kernel).free() =~= f.subrange(0, f.len() - t));
            assert forall|j: int| 0 <= j < t implies m.pool(Pool::Kernel).allocated(#[trigger] pages@[j] as int) by {
                assert(pages@[j] != pa) by {
                    assert(f[f.len() - 1 - j] != f[f.len() - 1 - t]);
                }
                assert(!fb.contains(pages@[j]));
                if m.pool(Pool::Kernel).free().contains(pages@[j]) {
                    let q = choose|q: int| 0 <= q < m.pool(Pool::Kernel).free().len()
                        && m.pool(Pool::Kernel).free()[q] == pages@[j];
                    if q < fb.len() {
                        assert(fb[q] == pages@[j]);
                    }
                }
            }
        }
    }
    proof {
        assert(f.subrange(0, f.len() as int) =~= f);
    }
}

/// A failed `proc_alloc` leaves the kernel pool's free pages as they were, and a
/// successful one takes exactly the `KSTACK_PAGES` pages at the top of the free list.
pub proof fn lemma_proc_alloc_pages(f: Seq<usize>, after: Seq<usize>, got: Option<usize>, kstack: Seq<usize>)
    requires
        got is None ==> after == f,
        got is Some ==> after == f.subrange(0, f.len() - KSTACK_PAGES) && kstack == popped(f, KSTACK_PAGES as int)
            && f.len() >= KSTACK_PAGES,
    ensures
        got is Some ==> after + kstack.reverse() == f,
        got is None ==> after == f,
{
    if got is Some {
        assert(after + kstack.reverse() =~= f);
    }
}

/// Gives up CPU `cpu`: one scheduling decision, as [`crate::sched::pick_next_and_switch`]
/// makes it.
pub fn sched_yield(s: &mut Sched, t: &mut ProcTable, cpu: usize, kernel_root: usize) -> (r: Option<Switch>)
    requires
        old(t).wf(),
        cpu < NCPU,
        old(s).idle@.len() == NCPU,
        old(s).last_picked@.len() == NCPU,
    ensures
        final(t).wf(),
        final(s).idle@ == old(s).idle@,
        final(s).inited == old(s).inited,
        final(s).last_picked@ == match pick_next_spec(*old(t), old(s).last_picked@[cpu as int]) {
            Some(p) => old(s).last_picked@.update(cpu as int, p),
            None => old(s).last_picked@,
        },
        switched(*old(t), *final(t), cpu as int, match pick_next_spec(*old(t), old(s).last_picked@[cpu as int]) {
            Some(p) => p,
            None => old(s).idle@[cpu as int],
        }, kernel_root, r),
{
    crate::sched::pick_next_and_switch(s, t, cpu, kernel_root)
}

/// Sets CPU `cpu` up for scheduling, as [`crate::sched::init_hart`] does: an idle process
/// that starts at `idle_entry` on its own kernel stack.
pub fn sched_init_hart(s: &mut Sched, t: &mut ProcTable, m: &mut Pmem, cpu: usize, idle_entry: usize) -> (ok: bool)
    requires
        old(t).wf(),
        old(m).wf(),
        cpu < NCPU,
        old(s).idle@.len() == NCPU,
        old(m).pool(Pool::Kernel).end() + KSTACK_PAGES * PAGE_SIZE <= usize::MAX,
    ensures
        final(t).wf(),
        final(m).wf(),
        final(s).idle@.len() == NCPU,
        final(t).current@ == old(t).current@,
        final(m).pool(Pool::User) == old(m).pool(Pool::User),
        ok <==> old(t).has_unused() && stack_run(old(m).pool(Pool::Kernel).free()),
        !ok ==> *final(s) == *old(s) && final(t).procs@ == old(t).procs@
            && final(m).pool(Pool::Kernel).free() == old(m).pool(Pool::Kernel).free(),
        ok ==> {
            let p = final(s).idle@[cpu as int];
            let f = old(m).pool(Pool::Kernel).free();
            let q = final(t).procs@[p as int];
            &&& old(t).first_unused(p as int)
            &&& final(s).idle@ == old(s).idle@.update(cpu as int, p)
            &&& final(s).last_picked@ == old(s).last_picked@
            &&& final(s).inited
            &&& final(m).pool(Pool::Kernel).free() == f.subrange(0, f.len() - KSTACK_PAGES)
            &&& q.kstack@ == popped(f, KSTACK_PAGES as int)
            &&& q.pid == p
            &&& q.state == ProcState::Runnable
            &&& q.context.ra == idle_entry
            &&& q.context.sp == q.kstack_top
            &&& crate::proc::proc::stack_fields(q)
            &&& forall|j: int| 0 <= j < KSTACK_PAGES ==>
                #[trigger] q.kstack@[j] == q.kstack_top - (KSTACK_PAGES - j) * PAGE_SIZE
            &&& q.exit_code == 0 && q.parent == 0 && q.pgtbl == 0
            &&& forall|j: int| 0 <= j < NPROC && j != p ==> #[trigger] final(t).procs@[j] == old(t).procs@[j]
        },
{
    crate::sched::init_hart(s, t, m, cpu, idle_entry)
}

}
