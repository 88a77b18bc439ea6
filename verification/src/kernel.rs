//! The kernel state: the table of processes, the scheduler, the thread that
//! runs, and the threads that sleep; and the steps that move threads between
//! them.

use vstd::prelude::*;
use crate::manager::{pick, lemma_pick_in_range, TaskManager};
use crate::demand::TableOp;
use crate::process::{lemma_same_content_wf, ProcessControlBlock, ProcessView};
use crate::slots::{first_free, slot_views};
use crate::stride::{advanced, pass_of, MIN_PRIORITY};
use crate::task::{TaskControlBlock, TaskStatus};

verus! {

/// A thread that sleeps until a point in time.
#[derive(Clone, Copy)]
pub struct Sleeper {
    /// The time, in milliseconds, from which the thread may run again.
    pub expire_ms: usize,
    /// The thread.
    pub task: TaskControlBlock,
}

/// The kernel state.
pub struct Kernel {
    /// The processes, by id. The slot of a process that was reaped stays
    /// empty, so no id is given out twice.
    pub procs: Vec<Option<ProcessControlBlock>>,
    /// The scheduler with its queue of ready threads.
    pub manager: TaskManager,
    /// The thread that runs, if one does.
    pub current: Option<TaskControlBlock>,
    /// The threads that sleep, in the order in which they went to sleep.
    pub sleepers: Vec<Sleeper>,
}

/// What the kernel state is.
pub struct KernelView {
    /// The processes, by id.
    pub procs: Seq<Option<ProcessView>>,
    /// The ready threads, in the order in which they became ready.
    pub ready: Seq<TaskControlBlock>,
    /// The thread that runs, if one does.
    pub current: Option<TaskControlBlock>,
    /// The threads that sleep, in the order in which they went to sleep.
    pub sleepers: Seq<Sleeper>,
}

/// The sleepers that do not belong to process `pid`.
pub open spec fn sleeper_not_of(pid: usize) -> spec_fn(Sleeper) -> bool {
    |s: Sleeper| s.task.pid != pid
}

/// The sleepers whose time has come at `now_ms`.
pub open spec fn due_at(now_ms: usize) -> spec_fn(Sleeper) -> bool {
    |s: Sleeper| s.expire_ms <= now_ms
}

/// The sleepers whose time has not come at `now_ms`.
pub open spec fn asleep_at(now_ms: usize) -> spec_fn(Sleeper) -> bool {
    |s: Sleeper| s.expire_ms > now_ms
}

/// The thread of a sleeper, as it stands in the ready queue.
pub open spec fn roused() -> spec_fn(Sleeper) -> TaskControlBlock {
    |s: Sleeper| readied(s.task)
}

/// `task` as it stands in the ready queue.
pub open spec fn readied(task: TaskControlBlock) -> TaskControlBlock {
    TaskControlBlock { task_status: TaskStatus::Ready, ..task }
}

/// `task` as it runs after it was taken from the ready queue: it is charged
/// for its turn, so its stride has moved forward by the pass of its priority,
/// and it waits for nothing any more.
pub open spec fn dispatched(task: TaskControlBlock) -> TaskControlBlock {
    TaskControlBlock {
        task_status: TaskStatus::Running,
        stride: advanced(task.stride, pass_of(task.priority)),
        awaits: None,
        ..task
    }
}

impl KernelView {
    /// `pid` names a process that was not reaped.
    pub open spec fn has_process(self, pid: int) -> bool {
        0 <= pid < self.procs.len() && self.procs[pid] is Some
    }

    /// `task` is a thread of a process of this kernel that can be scheduled.
    pub open spec fn runnable(self, task: TaskControlBlock) -> bool {
        self.has_process(task.pid as int) && self.procs[task.pid as int]->0.member(task)
    }

    /// `child` is a process whose parent is `pid`.
    pub open spec fn is_child(self, pid: int, child: usize) -> bool {
        self.has_process(child as int) && self.procs[child as int]->0.parent == Some(pid as usize)
    }

    /// The invariant of the kernel: every process is well formed and stands
    /// in the slot of its id; every child in a list of children exists, has
    /// that parent, and is listed once; and every thread that runs, is ready
    /// or sleeps belongs to a process that has it.
    pub open spec fn wf(self) -> bool {
        &&& self.procs.len() <= isize::MAX
        &&& forall|p: int| #[trigger]
            self.has_process(p) ==> self.procs[p]->0.pid == p && self.procs[p]->0.wf()
        &&& forall|p: int, k: int|
            self.has_process(p) && 0 <= k < self.procs[p]->0.children.len() ==> self.is_child(
                p,
                #[trigger] self.procs[p]->0.children[k],
            )
        &&& forall|p: int| #[trigger]
            self.has_process(p) ==> self.procs[p]->0.children.no_duplicates()
        &&& self.current is Some ==> self.runnable(self.current->0)
        &&& forall|i: int| 0 <= i < self.ready.len() ==> self.runnable(#[trigger] self.ready[i])
        &&& forall|i: int|
            0 <= i < self.sleepers.len() ==> self.runnable((#[trigger] self.sleepers[i]).task)
    }

    /// A thread runs.
    pub open spec fn running(self) -> bool {
        self.current is Some
    }

    /// The process of the thread that runs.
    pub open spec fn cur_proc(self) -> ProcessView {
        self.procs[self.current->0.pid as int]->0
    }

    /// The first thread of a new process `pid`, made after `template`.
    pub open spec fn first_thread(template: TaskControlBlock, pid: usize) -> TaskControlBlock {
        TaskControlBlock { pid, tid: 0, task_status: TaskStatus::Ready, awaits: None, ..template }
    }

    /// The processes after `child` was entered in the list of children of
    /// `parent`, if a parent is given.
    pub open spec fn listed(self, parent: Option<usize>, child: usize) -> Seq<Option<ProcessView>> {
        match parent {
            Some(pp) => self.procs.update(
                pp as int,
                Some(
                    ProcessView {
                        children: self.procs[pp as int]->0.children.push(child),
                        ..self.procs[pp as int]->0
                    },
                ),
            ),
            None => self.procs,
        }
    }

    /// The kernel after a process was born: it gets the next id that was
    /// never used, has the given parent and image and one thread, stands at
    /// the end of its parent's children, and its thread, made after
    /// `template`, is at the back of the ready queue.
    pub open spec fn born(
        self,
        parent: Option<usize>,
        image: Seq<u8>,
        template: TaskControlBlock,
    ) -> KernelView {
        let pid = self.procs.len() as usize;
        KernelView {
            procs: self.listed(parent, pid).push(Some(ProcessView::fresh(pid, parent, image))),
            ready: self.ready.push(Self::first_thread(template, pid)),
            ..self
        }
    }

    /// The thread that is added to the process of the running thread: it
    /// starts where the running thread stands in the race.
    pub open spec fn new_thread(self, tid: usize) -> TaskControlBlock {
        TaskControlBlock {
            stride: self.current->0.stride,
            ..TaskControlBlock::fresh(self.current->0.pid, tid)
        }
    }

    /// The kernel with the process `p` in the slot of its id.
    pub open spec fn with_proc(self, p: ProcessView) -> KernelView {
        KernelView { procs: self.procs.update(p.pid as int, Some(p)), ..self }
    }

    /// The kernel after `task`, if there is one, was made ready.
    pub open spec fn woken(self, task: Option<TaskControlBlock>) -> KernelView {
        match task {
            Some(t) => KernelView { ready: self.ready.push(readied(t)), ..self },
            None => self,
        }
    }

    /// The processes after `task` was dispatched: in the tables of its
    /// process the unit that it went to wait for, if it did, is now held.
    pub open spec fn arrival(self, task: TaskControlBlock) -> Seq<Option<ProcessView>> {
        self.procs.update(
            task.pid as int,
            Some(self.procs[task.pid as int]->0.arrived(task)),
        )
    }

    /// The kernel after the scheduler chose the next thread: the ready
    /// thread with the least stride runs and is charged for its turn; if it
    /// had gone to wait for a unit, the unit is now held by it. Where no
    /// thread is ready, none runs.
    pub open spec fn run_next(self) -> KernelView {
        if self.ready.len() == 0 {
            KernelView { current: None, ..self }
        } else {
            KernelView {
                procs: self.arrival(self.ready[pick(self.ready)]),
                current: Some(dispatched(self.ready[pick(self.ready)])),
                ready: self.ready.remove(pick(self.ready)),
                ..self
            }
        }
    }

    /// The kernel after the clock was read at `now_ms`: every sleeper whose
    /// time has come is ready, in the order in which they went to sleep.
    pub open spec fn timed(self, now_ms: usize) -> KernelView {
        KernelView {
            ready: self.ready + self.sleepers.filter(due_at(now_ms)).map_values(roused()),
            sleepers: self.sleepers.filter(asleep_at(now_ms)),
            ..self
        }
    }

    /// The kernel after the running thread gave the processor up while
    /// staying ready: it goes to the back of the ready queue, then the
    /// scheduler chooses.
    pub open spec fn yielded(self) -> KernelView {
        KernelView {
            ready: self.ready.push(readied(self.current->0)),
            current: None,
            ..self
        }.run_next()
    }

    /// The kernel after the running thread stopped running without being
    /// ready: the scheduler chooses among the others.
    pub open spec fn blocked(self) -> KernelView {
        KernelView { current: None, ..self }.run_next()
    }
}

/// When the scheduler chooses a thread that went to wait for a unit, the
/// thread runs with the unit its own: in the tables of its process the unit
/// has moved from what the thread asks for to what it holds, and the thread
/// waits for nothing any more.
pub proof fn lemma_run_next_hands_the_unit(k: KernelView)
    requires
        k.ready.len() > 0,
        k.ready[pick(k.ready)].awaits is Some,
        ({
            let t = k.ready[pick(k.ready)];
            let w = t.awaits->0;
            let p = k.procs[t.pid as int]->0;
            &&& 0 <= t.pid < k.procs.len()
            &&& p.can_apply(t.tid as int, w.kind, TableOp::Settle, w.id as int)
            &&& p.demand(t.tid as int, w.kind).need[w.id as int] > 0
        }),
    ensures
        ({
            let t = k.ready[pick(k.ready)];
            let w = t.awaits->0;
            let d = k.procs[t.pid as int]->0.demand(t.tid as int, w.kind);
            let after = k.run_next().procs[t.pid as int]->0.demand(t.tid as int, w.kind);
            &&& k.run_next().current == Some(dispatched(t))
            &&& k.run_next().current->0.awaits is None
            &&& after.need == d.need.update(w.id as int, (d.need[w.id as int] - 1) as nat)
            &&& after.held == d.held.update(w.id as int, d.held[w.id as int] + 1)
        }),
{
}

/// Replacing a process by a well-formed one with the same family that keeps
/// its threads keeps the kernel well formed.
pub proof fn lemma_with_proc_wf(k: KernelView, p: ProcessView)
    requires
        k.wf(),
        k.has_process(p.pid as int),
        p.wf(),
        p.follows(k.procs[p.pid as int]->0),
    ensures
        k.with_proc(p).wf(),
{
    let q = k.with_proc(p);
    let old_p = k.procs[p.pid as int]->0;
    assert(k.has_process(p.pid as int));
    assert(old_p.pid == p.pid);
    assert forall|t: TaskControlBlock| k.runnable(t) implies q.runnable(t) by {
        if t.pid == p.pid {
            assert(old_p.has_thread(t.tid as int));
            assert(p.has_thread(t.tid as int));
        }
    }
    assert forall|x: int| #[trigger] q.has_process(x) implies q.procs[x]->0.pid == x
        && q.procs[x]->0.wf() && q.procs[x]->0.children.no_duplicates() by {
        assert(k.has_process(x));
    }
    assert forall|x: int, j: int|
        q.has_process(x) && 0 <= j < q.procs[x]->0.children.len() implies q.is_child(
        x,
        #[trigger] q.procs[x]->0.children[j],
    ) by {
        assert(k.has_process(x));
        assert(k.is_child(x, k.procs[x]->0.children[j]));
    }
    assert forall|i: int| 0 <= i < q.ready.len() implies q.runnable(#[trigger] q.ready[i]) by {
        assert(k.runnable(k.ready[i]));
    }
    assert forall|i: int| 0 <= i < q.sleepers.len() implies q.runnable(
        (#[trigger] q.sleepers[i]).task,
    ) by {
        assert(k.runnable(k.sleepers[i].task));
    }
}

impl View for Kernel {
    type V = KernelView;

    open spec fn view(&self) -> KernelView {
        KernelView {
            procs: slot_views(self.procs@),
            ready: self.manager@,
            current: self.current,
            sleepers: self.sleepers@,
        }
    }
}

impl Kernel {
    /// The invariant of the kernel.
    pub open spec fn wf(&self) -> bool {
        self@.wf()
    }

    /// A kernel without processes.
    pub fn new() -> (kernel: Self)
        ensures
            kernel.wf(),
            kernel@ == (KernelView {
                procs: Seq::empty(),
                ready: Seq::empty(),
                current: None,
                sleepers: Seq::empty(),
            }),
    {
        let kernel = Kernel {
            procs: Vec::new(),
            manager: TaskManager::new(),
            current: None,
            sleepers: Vec::new(),
        };
        assert(kernel@.procs =~= Seq::empty());
        assert(kernel@.sleepers =~= Seq::empty());
        kernel
    }

    /// The thread that runs, if one does.
    pub fn current_task(&self) -> (task: Option<TaskControlBlock>)
        ensures
            task == self@.current,
    {
        self.current
    }

    /// The process of the running thread, if a thread runs.
    pub fn current_process(&self) -> (process: Option<&ProcessControlBlock>)
        requires
            self.wf(),
        ensures
            process is Some == self@.running(),
            process is Some ==> process->0@ == self@.cur_proc(),
    {
        match self.current {
            Some(cur) => {
                assert(self@.runnable(cur));
                self.procs[cur.pid].as_ref()
            },
            None => None,
        }
    }

    /// Lets the scheduler choose the next thread to run.
    pub fn run_next(&mut self)
        requires
            old(self).wf(),
        ensures
            final(self).wf(),
            final(self)@ == old(self)@.run_next(),
    {
        let ghost before = self@;
        proof {
            if before.ready.len() > 0 {
                lemma_pick_in_range(before.ready);
                assert(before.runnable(before.ready[pick(before.ready)]));
            }
        }
        match self.manager.fetch() {
            Some(task) => {
                match &mut self.procs[task.pid] {
                    Some(p) => p.arrive(task),
                    None => {},
                }
                let mut next = task;
                next.task_status = TaskStatus::Running;
                next.awaits = None;
                next.charge();
                self.current = Some(next);
                proof {
                    let arrived = before.procs[task.pid as int]->0.arrived(task);
                    assert(self@.procs =~= before.arrival(task));
                    assert(self@ =~= before.run_next());
                    lemma_with_proc_wf(before, arrived);
                    assert forall|t: TaskControlBlock| before.runnable(t) implies before.with_proc(
                        arrived,
                    ).runnable(t) by {}
                    assert forall|i: int| 0 <= i < self@.ready.len() implies before.with_proc(
                        arrived,
                    ).runnable(#[trigger] self@.ready[i]) by {
                        let j = if i < pick(before.ready) {
                            i
                        } else {
                            i + 1
                        };
                        assert(self@.ready[i] == before.ready[j]);
                        assert(before.runnable(before.ready[j]));
                    }
                    lemma_frame_wf(before.with_proc(arrived), self@);
                }
            },
            None => {
                self.current = None;
                proof {
                    assert(self@ =~= before.run_next());
                    lemma_frame_wf(before, self@);
                }
            },
        }
    }

    /// Makes `task` ready: it goes to the back of the ready queue.
    pub fn wakeup_task(&mut self, task: TaskControlBlock)
        requires
            old(self).wf(),
            old(self)@.runnable(task),
        ensures
            final(self).wf(),
            final(self)@ == old(self)@.woken(Some(task)),
    {
        let ghost before = self@;
        let mut task = task;
        task.task_status = TaskStatus::Ready;
        self.manager.add(task);
        proof {
            assert(self@ =~= before.woken(Some(task)));
            lemma_frame_wf(before, self@);
        }
    }

    /// Makes the thread that was handed back by a primitive ready, if there
    /// is one.
    pub fn wakeup(&mut self, task: Option<TaskControlBlock>)
        requires
            old(self).wf(),
            task is Some ==> old(self)@.runnable(task->0),
        ensures
            final(self).wf(),
            final(self)@ == old(self)@.woken(task),
    {
        match task {
            Some(t) => self.wakeup_task(t),
            None => {},
        }
    }

    /// Brings a process to life: it gets the next id that was never used,
    /// the given parent and image and one thread made after `template`, which
    /// becomes ready. Returns the id.
    pub fn adopt(
        &mut self,
        parent: Option<usize>,
        image: Vec<u8>,
        template: TaskControlBlock,
    ) -> (pid: usize)
        requires
            old(self).wf(),
            old(self)@.procs.len() < isize::MAX,
            parent is Some ==> old(self)@.has_process(parent->0 as int),
            template.priority >= MIN_PRIORITY,
        ensures
            final(self).wf(),
            final(self)@ == old(self)@.born(parent, image@, template),
            pid == old(self)@.procs.len(),
    {
        let ghost before = self@;
        let pid: usize = self.procs.len();
        let child = ProcessControlBlock::new(pid, parent, image);
        proof {
            lemma_born_wf(before, parent, image@, template);
        }
        match parent {
            Some(pp) => {
                match &mut self.procs[pp] {
                    Some(p) => {
                        p.children.push(pid);
                    },
                    None => {},
                }
            },
            None => {},
        }
        assert(self@.procs =~= before.listed(parent, pid));
        self.procs.push(Some(child));
        let mut task = template;
        task.pid = pid;
        task.tid = 0;
        task.task_status = TaskStatus::Ready;
        task.awaits = None;
        self.manager.add(task);
        assert(self@.procs =~= before.born(parent, image@, template).procs);
        assert(self@ =~= before.born(parent, image@, template));
        pid
    }

    /// Starts the first process from `image`. It has no parent.
    pub fn add_initproc(&mut self, image: Vec<u8>) -> (pid: usize)
        requires
            old(self).wf(),
            old(self)@.procs.len() < isize::MAX,
        ensures
            final(self).wf(),
            final(self)@ == old(self)@.born(None, image@, TaskControlBlock::fresh(0, 0)),
            pid == old(self)@.procs.len(),
    {
        self.adopt(None, image, TaskControlBlock::new(0, 0))
    }

    /// Adds a thread to the process of the running thread and makes it
    /// ready. It takes the first empty thread slot of the process, or a new
    /// one; the slot is returned.
    pub fn thread_create(&mut self) -> (tid: usize)
        requires
            old(self).wf(),
            old(self)@.running(),
        ensures
            final(self).wf(),
            tid == first_free(old(self)@.cur_proc().tasks),
            final(self)@ == old(self)@.with_proc(old(self)@.cur_proc().create_thread()).woken(
                Some(old(self)@.new_thread(tid)),
            ),
    {
        let ghost before = self@;
        match self.current {
            Some(cur) => {
                assert(before.runnable(cur));
                let tid: usize = match &mut self.procs[cur.pid] {
                    Some(p) => p.thread_create(),
                    None => 0,
                };
                proof {
                    let grown = before.cur_proc().create_thread();
                    assert(self@.procs =~= before.with_proc(grown).procs);
                    assert(self@ =~= before.with_proc(grown));
                    lemma_with_proc_wf(before, grown);
                }
                let mut task = TaskControlBlock::new(cur.pid, tid);
                task.stride = cur.stride;
                self.wakeup_task(task);
                tid
            },
            None => 0,
        }
    }

    /// Wakes every thread whose sleep has ended at `now_ms`: it leaves the
    /// sleepers and goes to the back of the ready queue. The threads that
    /// stay asleep keep their order, and so do those that wake.
    pub fn check_timer(&mut self, now_ms: usize)
        requires
            old(self).wf(),
        ensures
            final(self).wf(),
            final(self)@ == old(self)@.timed(now_ms),
    {
        let ghost before = self@;
        let mut kept: Vec<Sleeper> = Vec::new();
        let n: usize = self.sleepers.len();
        let mut i: usize = 0;
        proof {
            reveal(Seq::filter);
            assert(self.sleepers@.take(0) == Seq::<Sleeper>::empty());
            assert(self.manager@ =~= before.ready + before.sleepers.take(0).filter(
                due_at(now_ms),
            ).map_values(roused()));
        }
        while i < n
            invariant
                i <= n,
                n == self.sleepers@.len(),
                before.wf(),
                self.sleepers@ == before.sleepers,
                self@.procs == before.procs,
                self@.current == before.current,
                kept@ == before.sleepers.take(i as int).filter(asleep_at(now_ms)),
                self.manager@ == before.ready + before.sleepers.take(i as int).filter(
                    due_at(now_ms),
                ).map_values(roused()),
                forall|j: int| 0 <= j < kept@.len() ==> before.runnable((#[trigger] kept@[j]).task),
                forall|j: int|
                    0 <= j < self.manager@.len() ==> before.runnable(#[trigger] self.manager@[j]),
            decreases n - i,
        {
            let ghost ready_before = self.manager@;
            proof {
                let q = before.sleepers;
                reveal(Seq::filter);
                assert(q.take(i + 1).drop_last() == q.take(i as int));
                assert(q.take(i + 1).last() == q[i as int]);
                assert(due_at(now_ms)(q[i as int]) == (q[i as int].expire_ms <= now_ms));
                assert(asleep_at(now_ms)(q[i as int]) == (q[i as int].expire_ms > now_ms));
                assert(before.runnable(q[i as int].task));
            }
            let s = self.sleepers[i];
            if s.expire_ms <= now_ms {
                let mut task = s.task;
                task.task_status = TaskStatus::Ready;
                self.manager.add(task);
                proof {
                    let q = before.sleepers;
                    let woke = q.take(i as int).filter(due_at(now_ms));
                    assert(q.take(i + 1).filter(due_at(now_ms)) == woke.push(s));
                    assert(woke.push(s).map_values(roused()) =~= woke.map_values(roused()).push(
                        task,
                    ));
                    assert(self.manager@ =~= before.ready + woke.push(s).map_values(roused()));
                    assert forall|j: int| 0 <= j < self.manager@.len() implies before.runnable(
                        #[trigger] self.manager@[j],
                    ) by {
                        if j < ready_before.len() {
                            assert(self.manager@[j] == ready_before[j]);
                        }
                    }
                }
            } else {
                kept.push(s);
            }
            i = i + 1;
        }
        proof {
            assert(before.sleepers.take(n as int) == before.sleepers);
        }
        self.sleepers = kept;
        proof {
            assert(self@ =~= before.timed(now_ms));
            lemma_frame_wf(before, self@);
        }
    }

    /// Forgets every sleeping thread of process `pid`; the others keep their
    /// order.
    pub fn drop_sleepers(&mut self, pid: usize)
        ensures
            final(self)@ == (KernelView {
                sleepers: old(self)@.sleepers.filter(sleeper_not_of(pid)),
                ..old(self)@
            }),
    {
        let mut kept: Vec<Sleeper> = Vec::new();
        let n: usize = self.sleepers.len();
        let mut i: usize = 0;
        proof {
            reveal(Seq::filter);
            assert(self.sleepers@.take(0) == Seq::<Sleeper>::empty());
        }
        while i < n
            invariant
                i <= n,
                n == self.sleepers@.len(),
                self@ == old(self)@,
                kept@ == self.sleepers@.take(i as int).filter(sleeper_not_of(pid)),
            decreases n - i,
        {
            proof {
                let q = self.sleepers@;
                reveal(Seq::filter);
                assert(q.take(i + 1).drop_last() == q.take(i as int));
                assert(q.take(i + 1).last() == q[i as int]);
                assert(sleeper_not_of(pid)(q[i as int]) == (q[i as int].task.pid != pid));
            }
            let s = self.sleepers[i];
            if s.task.pid != pid {
                kept.push(s);
            }
            i = i + 1;
        }
        proof {
            assert(self.sleepers@.take(n as int) == self.sleepers@);
        }
        self.sleepers = kept;
    }

    /// The running thread gives the processor up and stays ready.
    pub fn suspend_current_and_run_next(&mut self)
        requires
            old(self).wf(),
            old(self)@.running(),
        ensures
            final(self).wf(),
            final(self)@ == old(self)@.yielded(),
    {
        let ghost before = self@;
        match self.current {
            Some(task) => {
                let mut task = task;
                task.task_status = TaskStatus::Ready;
                self.manager.add(task);
                self.current = None;
            },
            None => {},
        }
        proof {
            lemma_frame_wf(before, self@);
        }
        self.run_next();
    }

    /// The running thread stops running; it is kept wherever it was put to
    /// wait. The scheduler chooses among the ready threads.
    pub fn block_current_and_run_next(&mut self)
        requires
            old(self).wf(),
        ensures
            final(self).wf(),
            final(self)@ == old(self)@.blocked(),
    {
        let ghost before = self@;
        self.current = None;
        proof {
            lemma_frame_wf(before, self@);
        }
        self.run_next();
    }
}

/// The birth of a process keeps the kernel well formed.
pub proof fn lemma_born_wf(
    k: KernelView,
    parent: Option<usize>,
    image: Seq<u8>,
    template: TaskControlBlock,
)
    requires
        k.wf(),
        k.procs.len() < isize::MAX,
        parent is Some ==> k.has_process(parent->0 as int),
        template.priority >= MIN_PRIORITY,
        ProcessView::fresh(k.procs.len() as usize, parent, image).wf(),
    ensures
        k.born(parent, image, template).wf(),
{
    let q = k.born(parent, image, template);
    let c = k.procs.len() as usize;
    let child = ProcessView::fresh(c, parent, image);
    assert(q.procs[c as int] == Some(child));
    assert forall|x: int| #[trigger] k.has_process(x) implies q.has_process(x)
        && q.procs[x]->0.tasks == k.procs[x]->0.tasks && q.procs[x]->0.pid == x
        && q.procs[x]->0.parent == k.procs[x]->0.parent by {}
    assert forall|t: TaskControlBlock| k.runnable(t) implies q.runnable(t) by {
        assert(k.has_process(t.pid as int));
    }
    assert forall|x: int| #[trigger] q.has_process(x) implies q.procs[x]->0.pid == x
        && q.procs[x]->0.wf() && q.procs[x]->0.children.no_duplicates() by {
        if x != c {
            assert(k.has_process(x));
            let old_p = k.procs[x]->0;
            let new_p = q.procs[x]->0;
            if parent == Some(x as usize) {
                lemma_same_content_wf(old_p, new_p);
                assert(new_p.children == old_p.children.push(c));
                assert forall|i: int, j: int|
                    0 <= i < new_p.children.len() && 0 <= j < new_p.children.len() && i
                        != j implies new_p.children[i] != new_p.children[j] by {
                    if i < old_p.children.len() {
                        assert(k.is_child(x, old_p.children[i]));
                    }
                    if j < old_p.children.len() {
                        assert(k.is_child(x, old_p.children[j]));
                    }
                }
                assert(new_p.wf());
            }
        }
    }
    assert forall|x: int, j: int|
        q.has_process(x) && 0 <= j < q.procs[x]->0.children.len() implies q.is_child(
        x,
        #[trigger] q.procs[x]->0.children[j],
    ) by {
        if x != c {
            assert(k.has_process(x));
            let old_p = k.procs[x]->0;
            if j < old_p.children.len() {
                assert(k.is_child(x, old_p.children[j]));
                assert(k.has_process(old_p.children[j] as int));
            }
        }
    }
    assert(child.member(KernelView::first_thread(template, c)));
    assert(q.runnable(KernelView::first_thread(template, c)));
    assert forall|i: int| 0 <= i < q.ready.len() implies q.runnable(#[trigger] q.ready[i]) by {
        if i < k.ready.len() {
            assert(k.runnable(k.ready[i]));
        }
    }
    assert forall|i: int| 0 <= i < q.sleepers.len() implies q.runnable(
        (#[trigger] q.sleepers[i]).task,
    ) by {
        assert(k.runnable(k.sleepers[i].task));
    }
    if k.current is Some {
        assert(k.runnable(k.current->0));
    }
}

/// A kernel with the same processes, in which only threads that could be
/// scheduled before run, are ready or sleep, is well formed too.
pub proof fn lemma_frame_wf(k: KernelView, q: KernelView)
    requires
        k.wf(),
        q.procs == k.procs,
        q.current is Some ==> k.runnable(q.current->0),
        forall|i: int| 0 <= i < q.ready.len() ==> k.runnable(#[trigger] q.ready[i]),
        forall|i: int| 0 <= i < q.sleepers.len() ==> k.runnable((#[trigger] q.sleepers[i]).task),
    ensures
        q.wf(),
{
    assert forall|p: int| #[trigger] q.has_process(p) implies q.procs[p]->0.pid == p
        && q.procs[p]->0.wf() && q.procs[p]->0.children.no_duplicates() by {
        assert(k.has_process(p));
    }
    assert forall|p: int, j: int|
        q.has_process(p) && 0 <= j < q.procs[p]->0.children.len() implies q.is_child(
        p,
        #[trigger] q.procs[p]->0.children[j],
    ) by {
        assert(k.has_process(p));
        assert(k.is_child(p, k.procs[p]->0.children[j]));
    }
    assert forall|i: int| 0 <= i < q.ready.len() implies q.runnable(#[trigger] q.ready[i]) by {
        assert(k.runnable(q.ready[i]));
    }
    assert forall|i: int| 0 <= i < q.sleepers.len() implies q.runnable(
        (#[trigger] q.sleepers[i]).task,
    ) by {
        assert(k.runnable(q.sleepers[i].task));
    }
}

} // verus!
