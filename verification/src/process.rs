//! The process record: identity and family, the thread slots with their
//! resource tables, and the registries of blocking primitives.

use vstd::prelude::*;
use crate::deadlock::{
    absent, admits, available, can_finish, is_safe, lemma_safe_unfold, remaining, rows_cover,
    rows_of, safe_with_available, safe_with_capacity,
};
use crate::demand::{
    applied, lemma_applied_wf, Demand, ResourceKind, TableOp, ThreadRecord, ThreadView,
};
use crate::slots::{find_free, first_free, lemma_first_free, slot_views, stored};
use crate::stride::MIN_PRIORITY;
use crate::sync::{
    awaiting, front, parked, rest, Acquire, Condvar, Mutex, MutexView, Semaphore, SemaphoreView,
};
use crate::task::{Awaited, TaskControlBlock};

verus! {

/// The address space of a process, as far as this core looks into it: the
/// image that it was built from.
pub struct MemorySet {
    /// The bytes of the program image.
    pub image: Vec<u8>,
}

/// A process.
pub struct ProcessControlBlock {
    /// The process id; it never changes.
    pub pid: usize,
    /// The address space.
    pub memory_set: MemorySet,
    /// Id of the parent, if there is one. The parent may be gone.
    pub parent: Option<usize>,
    /// Ids of the children that were not reaped yet, oldest first.
    pub children: Vec<usize>,
    /// Whether the process has exited.
    pub is_zombie: bool,
    /// The exit code; it means something only once the process has exited.
    pub exit_code: i32,
    /// The thread slots.
    pub tasks: Vec<Option<ThreadRecord>>,
    /// The mutexes, by id.
    pub mutex_list: Vec<Option<Mutex>>,
    /// The semaphores, by id.
    pub semaphore_list: Vec<Option<Semaphore>>,
    /// For each semaphore id, the count that the semaphore was made with.
    pub semaphore_max: Vec<usize>,
    /// The condition variables, by id.
    pub condvar_list: Vec<Option<Condvar>>,
    /// Whether requests are checked for deadlock before they may block.
    pub deadlock_detect_enable: bool,
}

/// What a process is.
pub struct ProcessView {
    /// The process id.
    pub pid: usize,
    /// The bytes of the program image.
    pub image: Seq<u8>,
    /// Id of the parent, if there is one.
    pub parent: Option<usize>,
    /// Ids of the children that were not reaped yet, oldest first.
    pub children: Seq<usize>,
    /// Whether the process has exited.
    pub zombie: bool,
    /// The exit code.
    pub exit_code: i32,
    /// What the thread in each slot asks for and holds.
    pub tasks: Seq<Option<ThreadView>>,
    /// The mutexes, by id.
    pub mutexes: Seq<Option<MutexView>>,
    /// The semaphores, by id.
    pub semaphores: Seq<Option<SemaphoreView>>,
    /// For each semaphore id, the count that the semaphore was made with.
    pub capacity: Seq<usize>,
    /// The wait queue of each condition variable, by id.
    pub condvars: Seq<Option<Seq<TaskControlBlock>>>,
    /// Whether requests are checked for deadlock before they may block.
    pub detect: bool,
}

/// Every thread gets room for one more resource of `kind`.
pub open spec fn grow_all(tasks: Seq<Option<ThreadView>>, kind: ResourceKind) -> Seq<
    Option<ThreadView>,
> {
    Seq::new(
        tasks.len(),
        |t: int|
            match tasks[t] {
                Some(thread) => Some(thread.with_demand(kind, thread.demand(kind).grown())),
                None => None,
            },
    )
}

impl ProcessView {
    /// Slot `tid` holds a thread.
    pub open spec fn has_thread(self, tid: int) -> bool {
        0 <= tid < self.tasks.len() && self.tasks[tid] is Some
    }

    /// `task` is a thread of this process that the scheduler can run.
    pub open spec fn member(self, task: TaskControlBlock) -> bool {
        &&& task.pid == self.pid
        &&& self.has_thread(task.tid as int)
        &&& task.priority >= MIN_PRIORITY
    }

    /// Every thread of `queue` is a thread of this process.
    pub open spec fn members(self, queue: Seq<TaskControlBlock>) -> bool {
        forall|k: int| 0 <= k < queue.len() ==> self.member(#[trigger] queue[k])
    }

    /// `id` names a mutex.
    pub open spec fn has_mutex(self, id: int) -> bool {
        0 <= id < self.mutexes.len() && self.mutexes[id] is Some
    }

    /// `id` names a semaphore.
    pub open spec fn has_semaphore(self, id: int) -> bool {
        0 <= id < self.semaphores.len() && self.semaphores[id] is Some
    }

    /// `id` names a condition variable.
    pub open spec fn has_condvar(self, id: int) -> bool {
        0 <= id < self.condvars.len() && self.condvars[id] is Some
    }

    /// The tables of the thread in slot `t` are well formed and cover the
    /// registries.
    pub open spec fn thread_ok(self, t: int) -> bool {
        &&& self.tasks[t]->0.wf()
        &&& self.tasks[t]->0.mutex.need.len() == self.mutexes.len()
        &&& self.tasks[t]->0.semaphore.need.len() == self.semaphores.len()
    }

    /// The tables of every thread are well formed and cover the registries.
    pub open spec fn threads_wf(self) -> bool {
        forall|t: int| #[trigger] self.has_thread(t) ==> self.thread_ok(t)
    }

    /// Every mutex is well formed, and only threads of this process wait
    /// for it.
    pub open spec fn mutexes_wf(self) -> bool {
        forall|i: int| #[trigger]
            self.has_mutex(i) ==> self.mutexes[i]->0.wf() && self.members(
                self.mutexes[i]->0.waiters,
            )
    }

    /// Every semaphore is well formed, and only threads of this process
    /// wait for its units.
    pub open spec fn semaphores_wf(self) -> bool {
        forall|i: int| #[trigger]
            self.has_semaphore(i) ==> self.semaphores[i]->0.wf() && self.members(
                self.semaphores[i]->0.waiters,
            )
    }

    /// Only threads of this process wait on its condition variables.
    pub open spec fn condvars_wf(self) -> bool {
        forall|i: int| #[trigger] self.has_condvar(i) ==> self.members(self.condvars[i]->0)
    }

    /// Every primitive is well formed, and only threads of this process wait
    /// on it.
    pub open spec fn primitives_wf(self) -> bool {
        self.mutexes_wf() && self.semaphores_wf() && self.condvars_wf()
    }

    /// The invariant of a process: the tables of every thread cover the
    /// registries, every primitive is well formed and only threads of this
    /// process wait on it, every semaphore has its count on record, and a
    /// process that has exited has no threads.
    pub open spec fn wf(self) -> bool {
        &&& self.threads_wf()
        &&& self.primitives_wf()
        &&& self.capacity.len() == self.semaphores.len()
        &&& self.zombie ==> self.tasks.len() == 0
    }

    /// The process has the family and the fate that it had `before`.
    pub open spec fn keeps_family(self, before: ProcessView) -> bool {
        &&& self.parent == before.parent
        &&& self.children == before.children
        &&& self.zombie == before.zombie
        &&& self.exit_code == before.exit_code
    }

    /// The process has the id that it had `before`, and every thread that
    /// was there is still there.
    pub open spec fn keeps_threads(self, before: ProcessView) -> bool {
        &&& self.pid == before.pid
        &&& forall|t: int| before.has_thread(t) ==> #[trigger] self.has_thread(t)
    }

    /// The process is the one that it was `before`, with its family and
    /// with every thread that it had.
    pub open spec fn follows(self, before: ProcessView) -> bool {
        self.keeps_family(before) && self.keeps_threads(before)
    }

    /// A new process with one thread and nothing else.
    pub open spec fn fresh(pid: usize, parent: Option<usize>, image: Seq<u8>) -> ProcessView {
        ProcessView {
            pid,
            image,
            parent,
            children: Seq::empty(),
            zombie: false,
            exit_code: 0,
            tasks: seq![Some(ThreadView { mutex: Demand::idle(0), semaphore: Demand::idle(0) })],
            mutexes: Seq::empty(),
            semaphores: Seq::empty(),
            capacity: Seq::empty(),
            condvars: Seq::empty(),
            detect: false,
        }
    }

    /// What thread `tid` asks for and holds of the resources of `kind`.
    pub open spec fn demand(self, tid: int, kind: ResourceKind) -> Demand {
        self.tasks[tid]->0.demand(kind)
    }

    /// The process with the demand of thread `tid` on `kind` replaced.
    pub open spec fn with_demand(self, tid: int, kind: ResourceKind, d: Demand) -> ProcessView {
        ProcessView {
            tasks: self.tasks.update(tid, Some(self.tasks[tid]->0.with_demand(kind, d))),
            ..self
        }
    }

    /// The process after a mutex was made: it stands in the first empty
    /// slot; where there was none, the registry and every thread's tables
    /// grow by one entry.
    pub open spec fn create_mutex(self, blocking: bool) -> ProcessView {
        if first_free(self.mutexes) < self.mutexes.len() {
            ProcessView { mutexes: stored(self.mutexes, MutexView::fresh(blocking)), ..self }
        } else {
            ProcessView {
                mutexes: stored(self.mutexes, MutexView::fresh(blocking)),
                tasks: grow_all(self.tasks, ResourceKind::Mutex),
                ..self
            }
        }
    }

    /// The process after a semaphore with `res_count` units was made: it
    /// stands in the first empty slot, with its count recorded beside it;
    /// where there was none, the registry, the recorded counts and every
    /// thread's tables grow by one entry.
    pub open spec fn create_semaphore(self, res_count: usize) -> ProcessView {
        if first_free(self.semaphores) < self.semaphores.len() {
            ProcessView {
                semaphores: stored(self.semaphores, SemaphoreView::fresh(res_count)),
                capacity: self.capacity.update(first_free(self.semaphores), res_count),
                ..self
            }
        } else {
            ProcessView {
                semaphores: stored(self.semaphores, SemaphoreView::fresh(res_count)),
                capacity: self.capacity.push(res_count),
                tasks: grow_all(self.tasks, ResourceKind::Semaphore),
                ..self
            }
        }
    }

    /// The process after a condition variable was made.
    pub open spec fn create_condvar(self) -> ProcessView {
        ProcessView { condvars: stored(self.condvars, Seq::empty()), ..self }
    }

    /// Number of resources of `kind` that the process has slots for.
    pub open spec fn resources(self, kind: ResourceKind) -> nat {
        match kind {
            ResourceKind::Mutex => self.mutexes.len(),
            ResourceKind::Semaphore => self.semaphores.len(),
        }
    }

    /// `op` can be done to the entry of thread `tid` for resource `id` of
    /// `kind`: the entry is there, a request fits into the tables, and a
    /// request that is taken back was made.
    pub open spec fn can_apply(self, tid: int, kind: ResourceKind, op: TableOp, id: int) -> bool {
        &&& self.has_thread(tid)
        &&& 0 <= id < self.resources(kind)
        &&& op == TableOp::Request ==> self.demand(tid, kind).need[id] + self.demand(
            tid,
            kind,
        ).held[id] < usize::MAX
        &&& op == TableOp::Cancel ==> self.demand(tid, kind).need[id] > 0
    }

    /// The process after `op` on the entry of thread `tid` for resource `id`
    /// of `kind`.
    pub open spec fn adjusted(
        self,
        tid: int,
        kind: ResourceKind,
        op: TableOp,
        id: int,
    ) -> ProcessView {
        self.with_demand(tid, kind, applied(op, self.demand(tid, kind), id))
    }

    /// The process after `task` was dispatched: the unit that it went to
    /// wait for, if it did, was handed to it before it was woken, so now it is
    /// held and no longer asked for. Nothing changes for a thread that waited
    /// for no unit, or whose unit is not in the tables.
    pub open spec fn arrived(self, task: TaskControlBlock) -> ProcessView {
        match task.awaits {
            Some(w) => if self.can_apply(task.tid as int, w.kind, TableOp::Settle, w.id as int) {
                self.adjusted(task.tid as int, w.kind, TableOp::Settle, w.id as int)
            } else {
                self
            },
            None => self,
        }
    }

    /// For each mutex id, how many units are free: one for a mutex that is
    /// not held, none for one that is held or for an empty slot.
    pub open spec fn mutex_work(self) -> Seq<usize> {
        Seq::new(
            self.mutexes.len(),
            |r: int|
                if self.mutexes[r] is Some && !self.mutexes[r]->0.locked {
                    1usize
                } else {
                    0usize
                },
        )
    }

    /// Whether every thread can still finish, as far as the resources of
    /// `kind` go: some order exists in which each thread gets all it asks
    /// for. For mutexes the search starts from the mutexes that are free, for
    /// semaphores from the recorded counts less what the threads hold.
    pub open spec fn safe(self, kind: ResourceKind) -> bool {
        let rows = rows_of(self.tasks, kind);
        match kind {
            ResourceKind::Mutex => is_safe(rows, absent(rows), available(self.mutex_work())),
            ResourceKind::Semaphore => is_safe(rows, absent(rows), remaining(self.capacity, rows)),
        }
    }

    /// Whether a request of thread `tid` for one unit of resource `id` of
    /// `kind` is let through: always where detection is off, else where the
    /// state with the request recorded is safe.
    pub open spec fn admitted(self, tid: int, kind: ResourceKind, id: int) -> bool {
        !self.detect || self.adjusted(tid, kind, TableOp::Request, id).safe(kind)
    }

    /// The process with mutex `id` replaced.
    pub open spec fn with_mutex(self, id: int, m: MutexView) -> ProcessView {
        ProcessView { mutexes: self.mutexes.update(id, Some(m)), ..self }
    }

    /// The process with semaphore `id` replaced.
    pub open spec fn with_semaphore(self, id: int, s: SemaphoreView) -> ProcessView {
        ProcessView { semaphores: self.semaphores.update(id, Some(s)), ..self }
    }

    /// The process with the wait queue of condition variable `id` replaced.
    pub open spec fn with_condvar(self, id: int, queue: Seq<TaskControlBlock>) -> ProcessView {
        ProcessView { condvars: self.condvars.update(id, Some(queue)), ..self }
    }

    /// How a request of `task` for mutex `id` ends: `None` where it is
    /// refused because it could lead to deadlock, else what the mutex says.
    pub open spec fn lock_verdict(self, task: TaskControlBlock, id: int) -> Option<Acquire> {
        if self.admitted(task.tid as int, ResourceKind::Mutex, id) {
            Some(self.mutexes[id]->0.lock_step())
        } else {
            None
        }
    }

    /// The process after `task` asked for mutex `id`. A refused request
    /// leaves nothing behind. Else the request is recorded and the mutex is
    /// tried; where it was free, the unit moves from asked-for to held. A
    /// thread that is put on the wait queue is marked as waiting for the unit.
    pub open spec fn lock_mutex(self, task: TaskControlBlock, id: int) -> ProcessView {
        let tid = task.tid as int;
        if self.admitted(tid, ResourceKind::Mutex, id) {
            let m = self.mutexes[id]->0;
            let tried = self.adjusted(tid, ResourceKind::Mutex, TableOp::Request, id).with_mutex(
                id,
                m.lock(awaiting(task, ResourceKind::Mutex, id as usize)),
            );
            if m.locked {
                tried
            } else {
                tried.adjusted(tid, ResourceKind::Mutex, TableOp::Settle, id)
            }
        } else {
            self
        }
    }

    /// The process after `task`, whose request for mutex `id` is on record,
    /// tried the mutex again: where it is free now, `task` holds it.
    pub open spec fn retry_mutex(self, task: TaskControlBlock, id: int) -> ProcessView {
        let m = self.mutexes[id]->0;
        if m.locked {
            self
        } else {
            self.with_mutex(id, m.lock(task)).adjusted(
                task.tid as int,
                ResourceKind::Mutex,
                TableOp::Settle,
                id,
            )
        }
    }

    /// The process after thread `tid` gave mutex `id` up: the mutex is
    /// handed to the thread that waited longest or is free, and the unit
    /// leaves what `tid` holds. No other entry of any table changes.
    pub open spec fn unlock_mutex(self, tid: int, id: int) -> ProcessView {
        let m = self.mutexes[id]->0;
        self.with_mutex(id, m.unlock()).adjusted(tid, ResourceKind::Mutex, TableOp::Release, id)
    }

    /// How a request of `task` for a unit of semaphore `id` ends: `None`
    /// where it is refused because it could lead to deadlock, else whether
    /// the unit was there.
    pub open spec fn down_verdict(self, task: TaskControlBlock, id: int) -> Option<bool> {
        if self.admitted(task.tid as int, ResourceKind::Semaphore, id) {
            Some(self.semaphores[id]->0.count > 0)
        } else {
            None
        }
    }

    /// The process after `task` asked for a unit of semaphore `id`. A
    /// refused request leaves nothing behind. Else the request is recorded
    /// and the count goes down; where a unit was there, it moves from
    /// asked-for to held, else `task` waits, marked as waiting for the unit.
    pub open spec fn down_semaphore(self, task: TaskControlBlock, id: int) -> ProcessView {
        let tid = task.tid as int;
        if self.admitted(tid, ResourceKind::Semaphore, id) {
            let s = self.semaphores[id]->0;
            let tried = self.adjusted(
                tid,
                ResourceKind::Semaphore,
                TableOp::Request,
                id,
            ).with_semaphore(id, s.down(awaiting(task, ResourceKind::Semaphore, id as usize)));
            if s.count > 0 {
                tried.adjusted(tid, ResourceKind::Semaphore, TableOp::Settle, id)
            } else {
                tried
            }
        } else {
            self
        }
    }

    /// The process after thread `tid` gave a unit of semaphore `id` back:
    /// the count goes up, the thread that waited longest, if any, leaves the
    /// wait queue, and the unit leaves what `tid` holds. No other entry of
    /// any table changes.
    pub open spec fn up_semaphore(self, tid: int, id: int) -> ProcessView {
        let s = self.semaphores[id]->0;
        self.with_semaphore(id, s.up()).adjusted(
            tid,
            ResourceKind::Semaphore,
            TableOp::Release,
            id,
        )
    }

    /// The process after `task` gave mutex `mutex` up and went to wait on
    /// condition variable `condvar`: the mutex is handed to the thread that
    /// waited longest for it or is free, and the unit leaves what `task`
    /// holds. No other entry of any table changes.
    pub open spec fn wait_condvar(
        self,
        task: TaskControlBlock,
        condvar: int,
        mutex: int,
    ) -> ProcessView {
        let m = self.mutexes[mutex]->0;
        let waiting = self.with_condvar(condvar, self.condvars[condvar]->0.push(parked(task)));
        let handed = waiting.with_mutex(mutex, m.unlock());
        handed.adjusted(task.tid as int, ResourceKind::Mutex, TableOp::Release, mutex)
    }

    /// The process after it exited with `code`: a zombie without threads or
    /// primitives, which keeps its family.
    pub open spec fn exited(self, code: i32) -> ProcessView {
        ProcessView {
            zombie: true,
            exit_code: code,
            tasks: Seq::empty(),
            mutexes: Seq::empty(),
            semaphores: Seq::empty(),
            capacity: Seq::empty(),
            condvars: Seq::empty(),
            ..self
        }
    }

    /// The tables of a thread that is new to this process.
    pub open spec fn new_thread(self) -> ThreadView {
        ThreadView {
            mutex: Demand::idle(self.mutexes.len()),
            semaphore: Demand::idle(self.semaphores.len()),
        }
    }

    /// The process after a thread was added, in the first empty slot or in a
    /// new one.
    pub open spec fn create_thread(self) -> ProcessView {
        ProcessView { tasks: stored(self.tasks, self.new_thread()), ..self }
    }
}

impl View for ProcessControlBlock {
    type V = ProcessView;

    open spec fn view(&self) -> ProcessView {
        ProcessView {
            pid: self.pid,
            image: self.memory_set.image@,
            parent: self.parent,
            children: self.children@,
            zombie: self.is_zombie,
            exit_code: self.exit_code,
            tasks: slot_views(self.tasks@),
            mutexes: slot_views(self.mutex_list@),
            semaphores: slot_views(self.semaphore_list@),
            capacity: self.semaphore_max@,
            condvars: slot_views(self.condvar_list@),
            detect: self.deadlock_detect_enable,
        }
    }
}

impl ProcessControlBlock {
    /// The invariant of the process.
    pub open spec fn wf(&self) -> bool {
        self@.wf()
    }

    /// A new process `pid` with the given parent and image, and one thread.
    pub fn new(pid: usize, parent: Option<usize>, image: Vec<u8>) -> (process: Self)
        ensures
            process.wf(),
            process@ == ProcessView::fresh(pid, parent, image@),
    {
        let mut tasks: Vec<Option<ThreadRecord>> = Vec::new();
        tasks.push(Some(ThreadRecord::new(0, 0)));
        let process = ProcessControlBlock {
            pid,
            memory_set: MemorySet { image },
            parent,
            children: Vec::new(),
            is_zombie: false,
            exit_code: 0,
            tasks,
            mutex_list: Vec::new(),
            semaphore_list: Vec::new(),
            semaphore_max: Vec::new(),
            condvar_list: Vec::new(),
            deadlock_detect_enable: false,
        };
        proof {
            let fresh = ProcessView::fresh(pid, parent, image@);
            assert(process@.tasks =~= fresh.tasks);
            assert(process@.mutexes =~= fresh.mutexes);
            assert(process@.semaphores =~= fresh.semaphores);
            assert(process@.condvars =~= fresh.condvars);
            assert(process@.children =~= fresh.children);
            assert(process@.capacity =~= fresh.capacity);
        }
        process
    }

    /// The process id.
    pub fn getpid(&self) -> (pid: usize)
        ensures
            pid == self@.pid,
    {
        self.pid
    }

    /// Whether slot `tid` holds a thread.
    pub fn thread_exists(&self, tid: usize) -> (r: bool)
        ensures
            r == self@.has_thread(tid as int),
    {
        tid < self.tasks.len() && self.tasks[tid].is_some()
    }

    /// Whether `id` names a mutex.
    pub fn mutex_exists(&self, id: usize) -> (r: bool)
        ensures
            r == self@.has_mutex(id as int),
    {
        id < self.mutex_list.len() && self.mutex_list[id].is_some()
    }

    /// Whether `id` names a semaphore.
    pub fn semaphore_exists(&self, id: usize) -> (r: bool)
        ensures
            r == self@.has_semaphore(id as int),
    {
        id < self.semaphore_list.len() && self.semaphore_list[id].is_some()
    }

    /// Whether `id` names a condition variable.
    pub fn condvar_exists(&self, id: usize) -> (r: bool)
        ensures
            r == self@.has_condvar(id as int),
    {
        id < self.condvar_list.len() && self.condvar_list[id].is_some()
    }

    /// Gives every thread room for one more resource of `kind`.
    fn grow_tables(&mut self, kind: ResourceKind)
        requires
            forall|t: int| #[trigger] old(self)@.has_thread(t) ==> old(self)@.tasks[t]->0.wf(),
        ensures
            final(self)@ == (ProcessView { tasks: grow_all(old(self)@.tasks, kind), ..old(self)@ }),
    {
        let n: usize = self.tasks.len();
        let ghost before = self@;
        let mut t: usize = 0;
        while t < n
            invariant
                t <= n,
                n == self.tasks@.len(),
                n == before.tasks.len(),
                self@ == (ProcessView { tasks: self@.tasks, ..before }),
                forall|k: int|
                    0 <= k < t ==> #[trigger] self@.tasks[k] == grow_all(before.tasks, kind)[k],
                forall|k: int| t <= k < n ==> #[trigger] self@.tasks[k] == before.tasks[k],
                forall|k: int| #[trigger] before.has_thread(k) ==> before.tasks[k]->0.wf(),
            decreases n - t,
        {
            let ghost mid = self@;
            assert(before.tasks[t as int] == mid.tasks[t as int]);
            assert(before.has_thread(t as int) ==> before.tasks[t as int]->0.wf());
            match &mut self.tasks[t] {
                Some(record) => {
                    match kind {
                        ResourceKind::Mutex => record.mutex.grow(),
                        ResourceKind::Semaphore => record.semaphore.grow(),
                    }
                },
                None => {},
            }
            proof {
                assert forall|k: int| 0 <= k < n && k != t implies #[trigger] self@.tasks[k]
                    == mid.tasks[k] by {}
            }
            t = t + 1;
        }
        assert(self@.tasks =~= grow_all(before.tasks, kind));
    }

    /// Does `op` to the entry of thread `tid` for resource `id` of `kind`.
    pub fn adjust(&mut self, tid: usize, kind: ResourceKind, op: TableOp, id: usize)
        requires
            old(self).wf(),
            old(self)@.can_apply(tid as int, kind, op, id as int),
        ensures
            final(self).wf(),
            final(self)@ == old(self)@.adjusted(tid as int, kind, op, id as int),
            final(self)@.follows(old(self)@),
    {
        let ghost before = self@;
        proof {
            lemma_adjusted_wf(before, tid as int, kind, op, id as int);
            lemma_wf_thread(before, tid as int);
        }
        match &mut self.tasks[tid] {
            Some(record) => {
                match kind {
                    ResourceKind::Mutex => record.mutex.apply(op, id),
                    ResourceKind::Semaphore => record.semaphore.apply(op, id),
                }
            },
            None => {},
        }
        assert(self@.tasks =~= before.adjusted(tid as int, kind, op, id as int).tasks);
        assert(self@ =~= before.adjusted(tid as int, kind, op, id as int));
    }

    /// Whether one more request of thread `tid` for resource `id` of `kind`
    /// fits into the tables.
    pub fn has_room(&self, tid: usize, kind: ResourceKind, id: usize) -> (r: bool)
        requires
            self.wf(),
            self@.has_thread(tid as int),
            id < self@.resources(kind),
        ensures
            r == self@.can_apply(tid as int, kind, TableOp::Request, id as int),
    {
        proof {
            lemma_wf_thread(self@, tid as int);
        }
        match &self.tasks[tid] {
            Some(record) => record.table(kind).has_room(id),
            None => false,
        }
    }

    /// For each mutex id, how many units are free.
    fn mutex_avail(&self) -> (avail: Vec<usize>)
        ensures
            avail@ == self@.mutex_work(),
    {
        let n: usize = self.mutex_list.len();
        let mut avail: Vec<usize> = Vec::new();
        let mut r: usize = 0;
        while r < n
            invariant
                r <= n,
                n == self.mutex_list@.len(),
                avail@.len() == r,
                forall|j: int| 0 <= j < r ==> #[trigger] avail@[j] == self@.mutex_work()[j],
            decreases n - r,
        {
            let free: usize = match &self.mutex_list[r] {
                Some(m) => if m.is_locked() {
                    0
                } else {
                    1
                },
                None => 0,
            };
            avail.push(free);
            r = r + 1;
        }
        assert(avail@ =~= self@.mutex_work());
        avail
    }

    /// Runs the deadlock detector on the resources of `kind`.
    pub fn is_safe(&self, kind: ResourceKind) -> (safe: bool)
        requires
            self.wf(),
        ensures
            safe == self@.safe(kind),
    {
        proof {
            assert forall|t: int|
                0 <= t < self.tasks@.len() && (#[trigger] self.tasks@[t]) is Some
                    implies self.tasks@[t]->0.wf() by {
                assert(self@.has_thread(t));
            }
            lemma_rows_cover(self@, kind);
        }
        match kind {
            ResourceKind::Mutex => {
                let avail = self.mutex_avail();
                safe_with_available(&self.tasks, kind, &avail)
            },
            ResourceKind::Semaphore => safe_with_capacity(&self.tasks, kind, &self.semaphore_max),
        }
    }

    /// Lets `task` ask for mutex `id`. With detection on, a request after
    /// which not every thread could finish is refused: `None` is returned and
    /// nothing has changed. Else the mutex is tried and its answer returned;
    /// a thread that got the mutex holds it, a thread that did not has its
    /// request on record.
    pub fn lock_mutex(&mut self, task: TaskControlBlock, id: usize) -> (step: Option<Acquire>)
        requires
            old(self).wf(),
            old(self)@.member(task),
            old(self)@.has_mutex(id as int),
            old(self)@.can_apply(task.tid as int, ResourceKind::Mutex, TableOp::Request, id as int),
        ensures
            final(self).wf(),
            final(self)@ == old(self)@.lock_mutex(task, id as int),
            step == old(self)@.lock_verdict(task, id as int),
            final(self)@.follows(old(self)@),
    {
        let ghost before = self@;
        let tid: usize = task.tid;
        let mut waiting = task;
        waiting.awaits = Some(Awaited { kind: ResourceKind::Mutex, id });
        assert(waiting == awaiting(task, ResourceKind::Mutex, id));
        self.adjust(tid, ResourceKind::Mutex, TableOp::Request, id);
        let ghost asked = self@;
        let safe: bool = if self.deadlock_detect_enable {
            self.is_safe(ResourceKind::Mutex)
        } else {
            true
        };
        proof {
            lemma_wf_thread(before, tid as int);
        }
        if !safe {
            self.adjust(tid, ResourceKind::Mutex, TableOp::Cancel, id);
            proof {
                let d = before.demand(tid as int, ResourceKind::Mutex);
                assert(d.request(id as int).cancel(id as int).need =~= d.need);
                assert(self@.tasks =~= before.tasks);
                assert(self@ =~= before);
            }
            return None;
        }
        proof {
            let m = asked.mutexes[id as int]->0;
            assert(asked.members(m.waiters));
            assert(asked.member(parked(waiting)));
            assert(asked.members(m.lock(waiting).waiters));
            lemma_with_mutex_wf(asked, id as int, m.lock(waiting));
        }
        let step = match &mut self.mutex_list[id] {
            Some(m) => m.lock(waiting),
            None => Acquire::Busy,
        };
        assert(self@.mutexes =~= asked.with_mutex(
            id as int,
            asked.mutexes[id as int]->0.lock(waiting),
        ).mutexes);
        assert(self@ =~= asked.with_mutex(id as int, asked.mutexes[id as int]->0.lock(waiting)));
        if step == Acquire::Granted {
            self.adjust(tid, ResourceKind::Mutex, TableOp::Settle, id);
        }
        Some(step)
    }

    /// Lets `task`, which found mutex `id` held and goes on trying, try once
    /// more. Where the mutex is free now, `task` takes it and the unit it
    /// asked for is held; `true` is returned. Else nothing changes.
    pub fn retry_mutex(&mut self, task: TaskControlBlock, id: usize) -> (got: bool)
        requires
            old(self).wf(),
            old(self)@.member(task),
            old(self)@.has_mutex(id as int),
        ensures
            final(self).wf(),
            final(self)@ == old(self)@.retry_mutex(task, id as int),
            got == !old(self)@.mutexes[id as int]->0.locked,
            final(self)@.follows(old(self)@),
    {
        let ghost before = self@;
        let held: bool = match &self.mutex_list[id] {
            Some(m) => m.is_locked(),
            None => true,
        };
        if held {
            return false;
        }
        proof {
            let m = before.mutexes[id as int]->0;
            assert(before.members(m.waiters));
            assert(before.members(m.lock(task).waiters));
            lemma_with_mutex_wf(before, id as int, m.lock(task));
        }
        match &mut self.mutex_list[id] {
            Some(m) => {
                m.lock(task);
            },
            None => {},
        }
        assert(self@.mutexes =~= before.with_mutex(
            id as int,
            before.mutexes[id as int]->0.lock(task),
        ).mutexes);
        assert(self@ =~= before.with_mutex(id as int, before.mutexes[id as int]->0.lock(task)));
        self.adjust(task.tid, ResourceKind::Mutex, TableOp::Settle, id);
        true
    }

    /// Turns the deadlock detector on or off.
    pub fn set_detect(&mut self, on: bool)
        requires
            old(self).wf(),
        ensures
            final(self).wf(),
            final(self)@ == (ProcessView { detect: on, ..old(self)@ }),
            final(self)@.follows(old(self)@),
    {
        let ghost before = self@;
        self.deadlock_detect_enable = on;
        proof {
            assert(self@ =~= (ProcessView { detect: on, ..before }));
            lemma_same_content_wf(before, self@);
        }
    }

    /// Replaces the image of the process. Everything else stays.
    pub fn set_image(&mut self, image: Vec<u8>)
        requires
            old(self).wf(),
        ensures
            final(self).wf(),
            final(self)@ == (ProcessView { image: image@, ..old(self)@ }),
            final(self)@.follows(old(self)@),
    {
        let ghost before = self@;
        self.memory_set = MemorySet { image };
        proof {
            assert(self@ =~= (ProcessView { image: image@, ..before }));
            lemma_same_content_wf(before, self@);
        }
    }

    /// Does the bookkeeping for `task` as it is dispatched: the unit that it
    /// went to wait for, if it did, is now held and no longer asked for.
    pub fn arrive(&mut self, task: TaskControlBlock)
        requires
            old(self).wf(),
        ensures
            final(self).wf(),
            final(self)@ == old(self)@.arrived(task),
            final(self)@.follows(old(self)@),
    {
        proof {
            lemma_same_content_wf(self@, self@);
        }
        match task.awaits {
            Some(w) => {
                let covered: bool = match w.kind {
                    ResourceKind::Mutex => w.id < self.mutex_list.len(),
                    ResourceKind::Semaphore => w.id < self.semaphore_list.len(),
                };
                if self.thread_exists(task.tid) && covered {
                    self.adjust(task.tid, w.kind, TableOp::Settle, w.id);
                }
            },
            None => {},
        }
    }

    /// Lets thread `tid` give mutex `id` up. Returns the thread to which the
    /// mutex was handed, if one waited: it is to be woken.
    pub fn unlock_mutex(&mut self, tid: usize, id: usize) -> (woken: Option<TaskControlBlock>)
        requires
            old(self).wf(),
            old(self)@.has_thread(tid as int),
            old(self)@.has_mutex(id as int),
        ensures
            final(self).wf(),
            final(self)@ == old(self)@.unlock_mutex(tid as int, id as int),
            woken == front(old(self)@.mutexes[id as int]->0.waiters),
            woken is Some ==> final(self)@.member(woken->0),
            final(self)@.follows(old(self)@),
    {
        let ghost before = self@;
        proof {
            let m = before.mutexes[id as int]->0;
            assert(before.members(m.waiters));
            assert forall|k: int| 0 <= k < m.unlock().waiters.len() implies before.member(
                #[trigger] m.unlock().waiters[k],
            ) by {
                if m.waiters.len() > 0 {
                    assert(m.unlock().waiters[k] == m.waiters[k + 1]);
                }
            }
            lemma_with_mutex_wf(before, id as int, m.unlock());
            if m.waiters.len() > 0 {
                assert(before.member(m.waiters[0]));
            }
        }
        let woken = match &mut self.mutex_list[id] {
            Some(m) => m.unlock(),
            None => None,
        };
        assert(self@.mutexes =~= before.with_mutex(
            id as int,
            before.mutexes[id as int]->0.unlock(),
        ).mutexes);
        assert(self@ =~= before.with_mutex(id as int, before.mutexes[id as int]->0.unlock()));
        self.adjust(tid, ResourceKind::Mutex, TableOp::Release, id);
        woken
    }

    /// Lets `task` ask for a unit of semaphore `id`. With detection on, a
    /// request after which not every thread could finish is refused: `None`
    /// is returned and nothing has changed. Else the count goes down; a
    /// thread that got a unit holds it and `Some(true)` is returned, a thread
    /// that did not waits with its request on record.
    pub fn down_semaphore(&mut self, task: TaskControlBlock, id: usize) -> (got: Option<bool>)
        requires
            old(self).wf(),
            old(self)@.member(task),
            old(self)@.has_semaphore(id as int),
            old(self)@.semaphores[id as int]->0.count > isize::MIN,
            old(self)@.can_apply(
                task.tid as int,
                ResourceKind::Semaphore,
                TableOp::Request,
                id as int,
            ),
        ensures
            final(self).wf(),
            final(self)@ == old(self)@.down_semaphore(task, id as int),
            got == old(self)@.down_verdict(task, id as int),
            final(self)@.follows(old(self)@),
    {
        let ghost before = self@;
        let tid: usize = task.tid;
        let mut waiting = task;
        waiting.awaits = Some(Awaited { kind: ResourceKind::Semaphore, id });
        assert(waiting == awaiting(task, ResourceKind::Semaphore, id));
        self.adjust(tid, ResourceKind::Semaphore, TableOp::Request, id);
        let ghost asked = self@;
        let safe: bool = if self.deadlock_detect_enable {
            self.is_safe(ResourceKind::Semaphore)
        } else {
            true
        };
        proof {
            lemma_wf_thread(before, tid as int);
        }
        if !safe {
            self.adjust(tid, ResourceKind::Semaphore, TableOp::Cancel, id);
            proof {
                let d = before.demand(tid as int, ResourceKind::Semaphore);
                assert(d.request(id as int).cancel(id as int).need =~= d.need);
                assert(self@.tasks =~= before.tasks);
                assert(self@ =~= before);
            }
            return None;
        }
        proof {
            let s = asked.semaphores[id as int]->0;
            assert(asked.members(s.waiters));
            assert(asked.member(parked(waiting)));
            assert(asked.members(s.down(waiting).waiters));
            lemma_with_semaphore_wf(asked, id as int, s.down(waiting));
        }
        let got = match &mut self.semaphore_list[id] {
            Some(sem) => sem.down(waiting),
            None => false,
        };
        assert(self@.semaphores =~= asked.with_semaphore(
            id as int,
            asked.semaphores[id as int]->0.down(waiting),
        ).semaphores);
        assert(self@ =~= asked.with_semaphore(
            id as int,
            asked.semaphores[id as int]->0.down(waiting),
        ));
        if got {
            self.adjust(tid, ResourceKind::Semaphore, TableOp::Settle, id);
        }
        Some(got)
    }

    /// Lets thread `tid` give a unit of semaphore `id` back. Returns the
    /// thread that got the unit, if one waited: it is to be woken.
    pub fn up_semaphore(&mut self, tid: usize, id: usize) -> (woken: Option<TaskControlBlock>)
        requires
            old(self).wf(),
            old(self)@.has_thread(tid as int),
            old(self)@.has_semaphore(id as int),
            old(self)@.semaphores[id as int]->0.count < isize::MAX,
        ensures
            final(self).wf(),
            final(self)@ == old(self)@.up_semaphore(tid as int, id as int),
            woken == front(old(self)@.semaphores[id as int]->0.waiters),
            woken is Some ==> final(self)@.member(woken->0),
            final(self)@.follows(old(self)@),
    {
        let ghost before = self@;
        proof {
            let sem = before.semaphores[id as int]->0;
            assert(before.members(sem.waiters));
            assert forall|k: int| 0 <= k < sem.up().waiters.len() implies before.member(
                #[trigger] sem.up().waiters[k],
            ) by {
                if sem.waiters.len() > 0 {
                    assert(sem.up().waiters[k] == sem.waiters[k + 1]);
                }
            }
            lemma_with_semaphore_wf(before, id as int, sem.up());
            if sem.waiters.len() > 0 {
                assert(before.member(sem.waiters[0]));
            }
        }
        let woken = match &mut self.semaphore_list[id] {
            Some(sem) => sem.up(),
            None => None,
        };
        assert(self@.semaphores =~= before.with_semaphore(
            id as int,
            before.semaphores[id as int]->0.up(),
        ).semaphores);
        assert(self@ =~= before.with_semaphore(id as int, before.semaphores[id as int]->0.up()));
        self.adjust(tid, ResourceKind::Semaphore, TableOp::Release, id);
        woken
    }

    /// Takes the thread that waited longest on condition variable `id` off
    /// its wait queue and returns it to be woken. Nothing happens where
    /// nobody waits.
    pub fn signal_condvar(&mut self, id: usize) -> (woken: Option<TaskControlBlock>)
        requires
            old(self).wf(),
            old(self)@.has_condvar(id as int),
        ensures
            final(self).wf(),
            final(self)@ == old(self)@.with_condvar(
                id as int,
                rest(old(self)@.condvars[id as int]->0),
            ),
            woken == front(old(self)@.condvars[id as int]->0),
            woken is Some ==> final(self)@.member(woken->0),
            final(self)@.follows(old(self)@),
    {
        let ghost before = self@;
        proof {
            let queue = before.condvars[id as int]->0;
            assert(before.members(queue));
            assert forall|k: int| 0 <= k < rest(queue).len() implies before.member(
                #[trigger] rest(queue)[k],
            ) by {
                assert(rest(queue)[k] == queue[k + 1]);
            }
            lemma_with_condvar_wf(before, id as int, rest(queue));
            if queue.len() > 0 {
                assert(before.member(queue[0]));
            }
        }
        let woken = match &mut self.condvar_list[id] {
            Some(condvar) => condvar.signal(),
            None => None,
        };
        assert(self@.condvars =~= before.with_condvar(
            id as int,
            rest(before.condvars[id as int]->0),
        ).condvars);
        assert(self@ =~= before.with_condvar(
            id as int,
            rest(before.condvars[id as int]->0),
        ));
        woken
    }

    /// Lets `task` give mutex `mutex` up and wait on condition variable
    /// `condvar`, in one step. Returns the thread to which the mutex was
    /// handed, if one waited: it is to be woken.
    pub fn wait_condvar(&mut self, task: TaskControlBlock, condvar: usize, mutex: usize) -> (woken:
        Option<TaskControlBlock>)
        requires
            old(self).wf(),
            old(self)@.member(task),
            old(self)@.has_condvar(condvar as int),
            old(self)@.has_mutex(mutex as int),
        ensures
            final(self).wf(),
            final(self)@ == old(self)@.wait_condvar(task, condvar as int, mutex as int),
            woken == front(old(self)@.mutexes[mutex as int]->0.waiters),
            woken is Some ==> final(self)@.member(woken->0),
            final(self)@.follows(old(self)@),
    {
        let ghost before = self@;
        let ghost queue = before.condvars[condvar as int]->0.push(parked(task));
        let ghost m = before.mutexes[mutex as int]->0;
        let ghost mid = before.with_condvar(condvar as int, queue);
        proof {
            assert(before.members(before.condvars[condvar as int]->0));
            assert(before.member(parked(task)));
            assert(before.members(queue));
            lemma_with_condvar_wf(before, condvar as int, queue);
            assert(before.members(m.waiters));
            assert forall|k: int| 0 <= k < m.unlock().waiters.len() implies mid.member(
                #[trigger] m.unlock().waiters[k],
            ) by {
                if m.waiters.len() > 0 {
                    assert(m.unlock().waiters[k] == m.waiters[k + 1]);
                }
                assert(before.member(m.unlock().waiters[k]));
            }
            lemma_with_mutex_wf(mid, mutex as int, m.unlock());
            if m.waiters.len() > 0 {
                assert(before.member(m.waiters[0]));
            }
        }
        let woken = match &mut self.condvar_list[condvar] {
            Some(c) => match &mut self.mutex_list[mutex] {
                Some(held) => c.wait(held, task),
                None => None,
            },
            None => None,
        };
        assert(self@.condvars =~= mid.condvars);
        assert(self@.mutexes =~= mid.with_mutex(mutex as int, m.unlock()).mutexes);
        assert(self@ =~= mid.with_mutex(mutex as int, m.unlock()));
        self.adjust(task.tid, ResourceKind::Mutex, TableOp::Release, mutex);
        woken
    }

    /// Makes a semaphore with `res_count` free units and returns its id: the
    /// first empty slot of the registry, or a new slot at its end.
    pub fn semaphore_create(&mut self, res_count: usize) -> (id: usize)
        requires
            old(self).wf(),
            res_count <= isize::MAX,
        ensures
            final(self).wf(),
            final(self)@ == old(self)@.create_semaphore(res_count),
            id == first_free(old(self)@.semaphores),
            final(self)@.follows(old(self)@),
    {
        proof {
            lemma_first_free(self@.semaphores);
            lemma_create_semaphore_wf(self@, res_count);
            lemma_same_free(self.semaphore_list@);
        }
        let ghost before = self@;
        match find_free(&self.semaphore_list) {
            Some(id) => {
                self.semaphore_list.set(id, Some(Semaphore::new(res_count)));
                self.semaphore_max.set(id, res_count);
                assert(self@.semaphores =~= stored(
                    before.semaphores,
                    SemaphoreView::fresh(res_count),
                ));
                assert(self@ =~= before.create_semaphore(res_count));
                id
            },
            None => {
                self.semaphore_list.push(Some(Semaphore::new(res_count)));
                self.semaphore_max.push(res_count);
                assert(self@.semaphores =~= stored(
                    before.semaphores,
                    SemaphoreView::fresh(res_count),
                ));
                proof {
                    assert forall|t: int| #[trigger]
                        self@.has_thread(t) implies self@.tasks[t]->0.wf() by {
                        assert(before.has_thread(t));
                    }
                }
                self.grow_tables(ResourceKind::Semaphore);
                assert(self@ =~= before.create_semaphore(res_count));
                self.semaphore_list.len() - 1
            },
        }
    }

    /// Makes a condition variable and returns its id: the first empty slot
    /// of the registry, or a new slot at its end.
    pub fn condvar_create(&mut self) -> (id: usize)
        requires
            old(self).wf(),
        ensures
            final(self).wf(),
            final(self)@ == old(self)@.create_condvar(),
            id == first_free(old(self)@.condvars),
            final(self)@.follows(old(self)@),
    {
        proof {
            lemma_first_free(self@.condvars);
            lemma_create_condvar_wf(self@);
            lemma_same_free(self.condvar_list@);
        }
        let ghost before = self@;
        match find_free(&self.condvar_list) {
            Some(id) => {
                self.condvar_list.set(id, Some(Condvar::new()));
                assert(self@.condvars =~= stored(before.condvars, Seq::empty()));
                assert(self@ =~= before.create_condvar());
                id
            },
            None => {
                self.condvar_list.push(Some(Condvar::new()));
                assert(self@.condvars =~= stored(before.condvars, Seq::empty()));
                assert(self@ =~= before.create_condvar());
                self.condvar_list.len() - 1
            },
        }
    }

    /// Adds a thread and returns its slot: the first empty one, or a new
    /// slot at the end. The thread asks for nothing and holds nothing.
    pub fn thread_create(&mut self) -> (tid: usize)
        requires
            old(self).wf(),
            !old(self)@.zombie,
        ensures
            final(self).wf(),
            final(self)@ == old(self)@.create_thread(),
            tid == first_free(old(self)@.tasks),
            final(self)@.has_thread(tid as int),
            final(self)@.follows(old(self)@),
    {
        proof {
            lemma_first_free(self@.tasks);
            lemma_create_thread_wf(self@);
            lemma_same_free(self.tasks@);
        }
        let ghost before = self@;
        let record = ThreadRecord::new(self.mutex_list.len(), self.semaphore_list.len());
        match find_free(&self.tasks) {
            Some(tid) => {
                self.tasks.set(tid, Some(record));
                assert(self@.tasks =~= stored(before.tasks, before.new_thread()));
                assert(self@ =~= before.create_thread());
                tid
            },
            None => {
                self.tasks.push(Some(record));
                assert(self@.tasks =~= stored(before.tasks, before.new_thread()));
                assert(self@ =~= before.create_thread());
                self.tasks.len() - 1
            },
        }
    }

    /// Ends the process with `code`: it becomes a zombie, and its threads
    /// and primitives are gone.
    pub fn exit(&mut self, code: i32)
        ensures
            final(self).wf(),
            final(self)@ == old(self)@.exited(code),
    {
        let ghost before = self@;
        self.is_zombie = true;
        self.exit_code = code;
        self.tasks = Vec::new();
        self.mutex_list = Vec::new();
        self.semaphore_list = Vec::new();
        self.semaphore_max = Vec::new();
        self.condvar_list = Vec::new();
        assert(self@.tasks =~= before.exited(code).tasks);
        assert(self@.mutexes =~= before.exited(code).mutexes);
        assert(self@.semaphores =~= before.exited(code).semaphores);
        assert(self@.condvars =~= before.exited(code).condvars);
        assert(self@.capacity =~= before.exited(code).capacity);
        assert(self@ =~= before.exited(code));
    }

    /// Makes a mutex and returns its id: the first empty slot of the
    /// registry, or a new slot at its end.
    pub fn mutex_create(&mut self, blocking: bool) -> (id: usize)
        requires
            old(self).wf(),
        ensures
            final(self).wf(),
            final(self)@ == old(self)@.create_mutex(blocking),
            id == first_free(old(self)@.mutexes),
            final(self)@.follows(old(self)@),
    {
        proof {
            lemma_first_free(self@.mutexes);
            lemma_create_mutex_wf(self@, blocking);
        }
        let ghost before = self@;
        match find_free(&self.mutex_list) {
            Some(id) => {
                assert(first_free(self@.mutexes) == first_free(self.mutex_list@)) by {
                    lemma_same_free(self.mutex_list@);
                }
                self.mutex_list.set(id, Some(Mutex::new(blocking)));
                assert(self@.mutexes =~= stored(before.mutexes, MutexView::fresh(blocking)));
                assert(self@ =~= before.create_mutex(blocking));
                id
            },
            None => {
                assert(first_free(self@.mutexes) == first_free(self.mutex_list@)) by {
                    lemma_same_free(self.mutex_list@);
                }
                self.mutex_list.push(Some(Mutex::new(blocking)));
                assert(self@.mutexes =~= stored(before.mutexes, MutexView::fresh(blocking)));
                proof {
                    assert forall|t: int| #[trigger]
                        self@.has_thread(t) implies self@.tasks[t]->0.wf() by {
                        assert(before.has_thread(t));
                    }
                }
                self.grow_tables(ResourceKind::Mutex);
                assert(self@ =~= before.create_mutex(blocking));
                self.mutex_list.len() - 1
            },
        }
    }
}

/// Threads of a process are threads of any process that kept its threads.
pub proof fn lemma_members_kept(p: ProcessView, q: ProcessView, queue: Seq<TaskControlBlock>)
    requires
        q.keeps_threads(p),
        p.members(queue),
    ensures
        q.members(queue),
{
    assert forall|k: int| 0 <= k < queue.len() implies q.member(#[trigger] queue[k]) by {
        assert(p.member(queue[k]));
        assert(p.has_thread(queue[k].tid as int));
    }
}

/// The tables that the detector reads cover the registry of their kind.
pub proof fn lemma_rows_cover(p: ProcessView, kind: ResourceKind)
    requires
        p.threads_wf(),
    ensures
        rows_cover(rows_of(p.tasks, kind), p.resources(kind)),
{
    let rows = rows_of(p.tasks, kind);
    assert forall|t: int|
        0 <= t < rows.len() && (#[trigger] rows[t]) is Some implies rows[t]->0.need.len()
            == p.resources(kind) && rows[t]->0.held.len() == p.resources(kind) by {
        assert(p.has_thread(t));
    }
}

/// What well-formedness says of the tables of a thread.
pub proof fn lemma_wf_thread(p: ProcessView, t: int)
    requires
        p.threads_wf(),
        p.has_thread(t),
    ensures
        p.tasks[t]->0.wf(),
        p.tasks[t]->0.mutex.need.len() == p.mutexes.len(),
        p.tasks[t]->0.mutex.held.len() == p.mutexes.len(),
        p.tasks[t]->0.semaphore.need.len() == p.semaphores.len(),
        p.tasks[t]->0.semaphore.held.len() == p.semaphores.len(),
{
    assert(p.thread_ok(t));
}

/// Threads that were well formed stay so where the tables and the sizes of
/// the registries stay.
pub proof fn lemma_threads_kept(p: ProcessView, q: ProcessView)
    requires
        p.threads_wf(),
        q.tasks == p.tasks,
        q.mutexes.len() == p.mutexes.len(),
        q.semaphores.len() == p.semaphores.len(),
    ensures
        q.threads_wf(),
        q.pid == p.pid ==> q.keeps_threads(p),
{
    assert forall|t: int| #[trigger] q.has_thread(t) implies q.thread_ok(t) by {
        assert(p.has_thread(t));
    }
    assert forall|t: int| p.has_thread(t) implies #[trigger] q.has_thread(t) by {}
}

/// Mutexes that were well formed stay so where they stay and every thread
/// stays.
pub proof fn lemma_mutexes_kept(p: ProcessView, q: ProcessView)
    requires
        p.mutexes_wf(),
        q.keeps_threads(p),
        q.mutexes == p.mutexes,
    ensures
        q.mutexes_wf(),
{
    assert forall|i: int| #[trigger] q.has_mutex(i) implies q.mutexes[i]->0.wf() && q.members(
        q.mutexes[i]->0.waiters,
    ) by {
        assert(p.has_mutex(i));
        lemma_members_kept(p, q, p.mutexes[i]->0.waiters);
    }
}

/// Semaphores that were well formed stay so where they stay and every
/// thread stays.
pub proof fn lemma_semaphores_kept(p: ProcessView, q: ProcessView)
    requires
        p.semaphores_wf(),
        q.keeps_threads(p),
        q.semaphores == p.semaphores,
    ensures
        q.semaphores_wf(),
{
    assert forall|i: int| #[trigger] q.has_semaphore(i) implies q.semaphores[i]->0.wf()
        && q.members(q.semaphores[i]->0.waiters) by {
        assert(p.has_semaphore(i));
        lemma_members_kept(p, q, p.semaphores[i]->0.waiters);
    }
}

/// Condition variables that were well formed stay so where they stay and
/// every thread stays.
pub proof fn lemma_condvars_kept(p: ProcessView, q: ProcessView)
    requires
        p.condvars_wf(),
        q.keeps_threads(p),
        q.condvars == p.condvars,
    ensures
        q.condvars_wf(),
{
    assert forall|i: int| #[trigger] q.has_condvar(i) implies q.members(q.condvars[i]->0) by {
        assert(p.has_condvar(i));
        lemma_members_kept(p, q, p.condvars[i]->0);
    }
}

/// Primitives that were well formed stay so where the primitives stay and
/// every thread stays.
pub proof fn lemma_primitives_kept(p: ProcessView, q: ProcessView)
    requires
        p.primitives_wf(),
        q.keeps_threads(p),
        q.mutexes == p.mutexes,
        q.semaphores == p.semaphores,
        q.condvars == p.condvars,
    ensures
        q.primitives_wf(),
{
    lemma_mutexes_kept(p, q);
    lemma_semaphores_kept(p, q);
    lemma_condvars_kept(p, q);
}

/// A process stays well formed where only its family, its image or its
/// settings change.
pub proof fn lemma_same_content_wf(p: ProcessView, q: ProcessView)
    requires
        p.wf(),
        q.pid == p.pid,
        q.zombie == p.zombie,
        q.tasks == p.tasks,
        q.mutexes == p.mutexes,
        q.semaphores == p.semaphores,
        q.capacity == p.capacity,
        q.condvars == p.condvars,
    ensures
        q.wf(),
        q.keeps_threads(p),
{
    lemma_threads_kept(p, q);
    lemma_primitives_kept(p, q);
}

/// An operation on a thread's tables keeps the process well formed.
pub proof fn lemma_adjusted_wf(p: ProcessView, tid: int, kind: ResourceKind, op: TableOp, id: int)
    requires
        p.wf(),
        p.can_apply(tid, kind, op, id),
    ensures
        p.adjusted(tid, kind, op, id).wf(),
        p.adjusted(tid, kind, op, id).follows(p),
{
    let q = p.adjusted(tid, kind, op, id);
    lemma_wf_thread(p, tid);
    lemma_applied_wf(op, p.demand(tid, kind), id);
    assert forall|t: int| p.has_thread(t) implies #[trigger] q.has_thread(t) by {}
    assert forall|t: int| #[trigger] q.has_thread(t) implies q.thread_ok(t) by {
        assert(p.has_thread(t));
    }
    lemma_primitives_kept(p, q);
}

/// Replacing a mutex by a well-formed one on which only threads of the
/// process wait keeps the process well formed.
pub proof fn lemma_with_mutex_wf(p: ProcessView, id: int, m: MutexView)
    requires
        p.wf(),
        p.has_mutex(id),
        m.wf(),
        p.members(m.waiters),
    ensures
        p.with_mutex(id, m).wf(),
        p.with_mutex(id, m).follows(p),
{
    let q = p.with_mutex(id, m);
    lemma_threads_kept(p, q);
    lemma_members_kept(p, q, m.waiters);
    assert forall|i: int| #[trigger] q.has_mutex(i) implies q.mutexes[i]->0.wf() && q.members(
        q.mutexes[i]->0.waiters,
    ) by {
        if i != id {
            assert(p.has_mutex(i));
            lemma_members_kept(p, q, p.mutexes[i]->0.waiters);
        }
    }
    lemma_semaphores_kept(p, q);
    lemma_condvars_kept(p, q);
}

/// Replacing a semaphore by a well-formed one on which only threads of the
/// process wait keeps the process well formed.
pub proof fn lemma_with_semaphore_wf(p: ProcessView, id: int, s: SemaphoreView)
    requires
        p.wf(),
        p.has_semaphore(id),
        s.wf(),
        p.members(s.waiters),
    ensures
        p.with_semaphore(id, s).wf(),
        p.with_semaphore(id, s).follows(p),
{
    let q = p.with_semaphore(id, s);
    lemma_threads_kept(p, q);
    lemma_members_kept(p, q, s.waiters);
    assert forall|i: int| #[trigger] q.has_semaphore(i) implies q.semaphores[i]->0.wf()
        && q.members(q.semaphores[i]->0.waiters) by {
        if i != id {
            assert(p.has_semaphore(i));
            lemma_members_kept(p, q, p.semaphores[i]->0.waiters);
        }
    }
    lemma_mutexes_kept(p, q);
    lemma_condvars_kept(p, q);
}

/// Replacing the wait queue of a condition variable by one of threads of
/// the process keeps the process well formed.
pub proof fn lemma_with_condvar_wf(p: ProcessView, id: int, queue: Seq<TaskControlBlock>)
    requires
        p.wf(),
        p.has_condvar(id),
        p.members(queue),
    ensures
        p.with_condvar(id, queue).wf(),
        p.with_condvar(id, queue).follows(p),
{
    let q = p.with_condvar(id, queue);
    lemma_threads_kept(p, q);
    lemma_members_kept(p, q, queue);
    assert forall|i: int| #[trigger] q.has_condvar(i) implies q.members(q.condvars[i]->0) by {
        if i != id {
            assert(p.has_condvar(i));
            lemma_members_kept(p, q, p.condvars[i]->0);
        }
    }
    lemma_mutexes_kept(p, q);
    lemma_semaphores_kept(p, q);
}

/// Threads whose tables grew with the registry of `kind` are well formed.
proof fn lemma_grown_threads(p: ProcessView, q: ProcessView, kind: ResourceKind)
    requires
        p.threads_wf(),
        q.pid == p.pid,
        q.tasks == grow_all(p.tasks, kind),
        q.resources(kind) == p.resources(kind) + 1,
        kind == ResourceKind::Mutex ==> q.semaphores.len() == p.semaphores.len(),
        kind == ResourceKind::Semaphore ==> q.mutexes.len() == p.mutexes.len(),
    ensures
        q.threads_wf(),
        q.keeps_threads(p),
{
    assert forall|t: int| #[trigger] q.has_thread(t) implies q.thread_ok(t) by {
        assert(p.has_thread(t));
        lemma_wf_thread(p, t);
        let d = p.tasks[t]->0.demand(kind).grown();
        assert forall|r: int| 0 <= r < d.need.len() implies #[trigger] d.need[r] + d.held[r]
            <= usize::MAX by {
            if r < p.tasks[t]->0.demand(kind).need.len() {
                assert(p.tasks[t]->0.demand(kind).need[r] + p.tasks[t]->0.demand(kind).held[r]
                    <= usize::MAX);
            }
        }
    }
    assert forall|t: int| p.has_thread(t) implies #[trigger] q.has_thread(t) by {}
}

/// Making a mutex keeps the process well formed.
pub proof fn lemma_create_mutex_wf(p: ProcessView, blocking: bool)
    requires
        p.wf(),
    ensures
        p.create_mutex(blocking).wf(),
        p.create_mutex(blocking).follows(p),
{
    let q = p.create_mutex(blocking);
    let f = first_free(p.mutexes);
    lemma_first_free(p.mutexes);
    if f < p.mutexes.len() {
        lemma_threads_kept(p, q);
    } else {
        lemma_grown_threads(p, q, ResourceKind::Mutex);
    }
    assert forall|i: int| #[trigger] q.has_mutex(i) implies q.mutexes[i]->0.wf() && q.members(
        q.mutexes[i]->0.waiters,
    ) by {
        if i != f {
            assert(p.has_mutex(i));
            lemma_members_kept(p, q, p.mutexes[i]->0.waiters);
        }
    }
    lemma_semaphores_kept(p, q);
    lemma_condvars_kept(p, q);
}

/// Making a semaphore keeps the process well formed.
pub proof fn lemma_create_semaphore_wf(p: ProcessView, res_count: usize)
    requires
        p.wf(),
        res_count <= isize::MAX,
    ensures
        p.create_semaphore(res_count).wf(),
        p.create_semaphore(res_count).follows(p),
{
    let q = p.create_semaphore(res_count);
    let f = first_free(p.semaphores);
    lemma_first_free(p.semaphores);
    if f < p.semaphores.len() {
        lemma_threads_kept(p, q);
    } else {
        lemma_grown_threads(p, q, ResourceKind::Semaphore);
    }
    assert forall|i: int| #[trigger] q.has_semaphore(i) implies q.semaphores[i]->0.wf()
        && q.members(q.semaphores[i]->0.waiters) by {
        if i != f {
            assert(p.has_semaphore(i));
            lemma_members_kept(p, q, p.semaphores[i]->0.waiters);
        }
    }
    lemma_mutexes_kept(p, q);
    lemma_condvars_kept(p, q);
}

/// Making a condition variable keeps the process well formed.
pub proof fn lemma_create_condvar_wf(p: ProcessView)
    requires
        p.wf(),
    ensures
        p.create_condvar().wf(),
        p.create_condvar().follows(p),
{
    let q = p.create_condvar();
    let f = first_free(p.condvars);
    lemma_first_free(p.condvars);
    lemma_threads_kept(p, q);
    assert forall|i: int| #[trigger] q.has_condvar(i) implies q.members(q.condvars[i]->0) by {
        if i != f {
            assert(p.has_condvar(i));
            lemma_members_kept(p, q, p.condvars[i]->0);
        }
    }
    lemma_mutexes_kept(p, q);
    lemma_semaphores_kept(p, q);
}

/// Adding a thread keeps a running process well formed and keeps the
/// threads it had.
pub proof fn lemma_create_thread_wf(p: ProcessView)
    requires
        p.wf(),
        !p.zombie,
    ensures
        p.create_thread().wf(),
        p.create_thread().follows(p),
        p.create_thread().has_thread(first_free(p.tasks)),
{
    let q = p.create_thread();
    let f = first_free(p.tasks);
    lemma_first_free(p.tasks);
    assert forall|t: int| p.has_thread(t) implies #[trigger] q.has_thread(t) by {
        assert(t != f);
    }
    assert forall|t: int| #[trigger] q.has_thread(t) implies q.thread_ok(t) by {
        if t != f {
            assert(p.has_thread(t));
        }
    }
    lemma_primitives_kept(p, q);
}

/// A request is let through whenever an order exists in which every thread
/// can finish once the request is on record.
pub proof fn lemma_order_admits(
    p: ProcessView,
    tid: int,
    kind: ResourceKind,
    id: int,
    order: Seq<int>,
)
    requires
        ({
            let asked = p.adjusted(tid, kind, TableOp::Request, id);
            let rows = rows_of(asked.tasks, kind);
            admits(
                rows,
                absent(rows),
                match kind {
                    ResourceKind::Mutex => available(asked.mutex_work()),
                    ResourceKind::Semaphore => remaining(asked.capacity, rows),
                },
                order,
            )
        }),
    ensures
        p.admitted(tid, kind, id),
{
}

impl ProcessView {
    /// Between `self` and `after`, the tables differ in one entry alone:
    /// thread `tid` holds one unit less of resource `id` of `kind`, or none
    /// as before. What any thread asks for is as it was.
    pub open spec fn released_only(
        self,
        after: ProcessView,
        tid: int,
        kind: ResourceKind,
        id: int,
    ) -> bool {
        &&& after.tasks == self.tasks.update(
            tid,
            Some(self.tasks[tid]->0.with_demand(kind, self.demand(tid, kind).release(id))),
        )
        &&& forall|t: int, k: ResourceKind|
            0 <= t < self.tasks.len() && self.tasks[t] is Some ==> (#[trigger] after.demand(
                t,
                k,
            )).need == self.demand(t, k).need
    }
}

/// Giving a mutex up changes one entry of the tables alone: what the thread
/// that gives it up holds of it. The thread to which the mutex is handed has
/// its request on record as before.
pub proof fn lemma_unlock_changes_only_caller(p: ProcessView, tid: int, id: int)
    requires
        p.has_thread(tid),
    ensures
        p.released_only(p.unlock_mutex(tid, id), tid, ResourceKind::Mutex, id),
{
    let q = p.unlock_mutex(tid, id);
    assert forall|t: int, k: ResourceKind|
        0 <= t < p.tasks.len() && p.tasks[t] is Some implies (#[trigger] q.demand(t, k)).need
        == p.demand(t, k).need by {}
}

/// Giving a unit of a semaphore back changes one entry of the tables alone:
/// what the thread that gives it back holds of that semaphore.
pub proof fn lemma_up_changes_only_caller(p: ProcessView, tid: int, id: int)
    requires
        p.has_thread(tid),
    ensures
        p.released_only(p.up_semaphore(tid, id), tid, ResourceKind::Semaphore, id),
{
    let q = p.up_semaphore(tid, id);
    assert forall|t: int, k: ResourceKind|
        0 <= t < p.tasks.len() && p.tasks[t] is Some implies (#[trigger] q.demand(t, k)).need
        == p.demand(t, k).need by {}
}

/// Going to wait on a condition variable changes one entry of the tables
/// alone: what the waiting thread holds of the mutex that it gives up.
pub proof fn lemma_wait_changes_only_caller(
    p: ProcessView,
    task: TaskControlBlock,
    condvar: int,
    mutex: int,
)
    requires
        p.has_thread(task.tid as int),
    ensures
        p.released_only(
            p.wait_condvar(task, condvar, mutex),
            task.tid as int,
            ResourceKind::Mutex,
            mutex,
        ),
{
    let q = p.wait_condvar(task, condvar, mutex);
    assert forall|t: int, k: ResourceKind|
        0 <= t < p.tasks.len() && p.tasks[t] is Some implies (#[trigger] q.demand(t, k)).need
        == p.demand(t, k).need by {}
}

/// A request for a held mutex on which threads sleep, if it is let through,
/// puts the caller at the back of the wait queue with the request on record
/// and marked on the thread; nothing is held yet.
pub proof fn lemma_held_mutex_is_awaited(p: ProcessView, task: TaskControlBlock, id: int)
    requires
        p.wf(),
        p.member(task),
        p.has_mutex(id),
        p.admitted(task.tid as int, ResourceKind::Mutex, id),
        p.mutexes[id]->0.locked,
        p.mutexes[id]->0.blocking,
    ensures
        p.lock_verdict(task, id) == Some(Acquire::Queued),
        p.lock_mutex(task, id).mutexes[id]->0.waiters == p.mutexes[id]->0.waiters.push(
            parked(awaiting(task, ResourceKind::Mutex, id as usize)),
        ),
        p.lock_mutex(task, id).demand(task.tid as int, ResourceKind::Mutex) == p.demand(
            task.tid as int,
            ResourceKind::Mutex,
        ).request(id),
{
}

/// When a thread that went to wait for a unit is dispatched again, the unit
/// moves from what it asks for to what it holds, and no other entry of any
/// table changes.
pub proof fn lemma_dispatch_hands_the_unit(
    p: ProcessView,
    task: TaskControlBlock,
    kind: ResourceKind,
    id: usize,
)
    requires
        p.can_apply(task.tid as int, kind, TableOp::Settle, id as int),
        p.demand(task.tid as int, kind).need[id as int] > 0,
    ensures
        ({
            let q = p.arrived(awaiting(task, kind, id));
            let d = p.demand(task.tid as int, kind);
            &&& q.demand(task.tid as int, kind).need == d.need.update(
                id as int,
                (d.need[id as int] - 1) as nat,
            )
            &&& q.demand(task.tid as int, kind).held == d.held.update(
                id as int,
                d.held[id as int] + 1,
            )
            &&& q.tasks == p.tasks.update(
                task.tid as int,
                Some(p.tasks[task.tid as int]->0.with_demand(kind, d.settle(id as int))),
            )
        }),
{
}

/// With detection on, a request that closes a circle of two waiting threads
/// is refused: where thread `b` waits for the held mutex `x`, no third thread
/// exists, and thread `a` asks for the held mutex `y`, neither could ever
/// finish.
pub proof fn lemma_crossed_request_refused(p: ProcessView, a: int, b: int, x: int, y: int)
    requires
        p.wf(),
        p.detect,
        a != b,
        p.has_thread(a),
        p.has_thread(b),
        forall|t: int| p.has_thread(t) ==> t == a || t == b,
        p.has_mutex(x),
        p.has_mutex(y),
        p.mutexes[x]->0.locked,
        p.mutexes[y]->0.locked,
        p.demand(b, ResourceKind::Mutex).need[x] > 0,
    ensures
        !p.admitted(a, ResourceKind::Mutex, y),
{
    let asked = p.adjusted(a, ResourceKind::Mutex, TableOp::Request, y);
    let rows = rows_of(asked.tasks, ResourceKind::Mutex);
    let finish = absent(rows);
    let work = available(asked.mutex_work());
    lemma_wf_thread(p, a);
    lemma_wf_thread(p, b);
    assert(!finish[a]);
    assert(rows[a]->0.need[y] > work[y]);
    assert(rows[b]->0.need[x] > work[x]);
    assert forall|t: int| !can_finish(rows, finish, work, t) by {
        if 0 <= t < rows.len() && !finish[t] {
            assert(p.has_thread(t));
        }
    }
    lemma_safe_unfold(rows, finish, work);
}

/// A request for a free mutex that is let through is granted, and the unit
/// is then held and no longer asked for; everything else in the tables of
/// the thread is as before.
pub proof fn lemma_free_mutex_is_granted(p: ProcessView, task: TaskControlBlock, id: int)
    requires
        p.wf(),
        p.member(task),
        p.has_mutex(id),
        p.admitted(task.tid as int, ResourceKind::Mutex, id),
        !p.mutexes[id]->0.locked,
    ensures
        p.lock_verdict(task, id) == Some(Acquire::Granted),
        p.lock_mutex(task, id).mutexes[id]->0.locked,
        p.lock_mutex(task, id).demand(task.tid as int, ResourceKind::Mutex).need == p.demand(
            task.tid as int,
            ResourceKind::Mutex,
        ).need,
        p.lock_mutex(task, id).demand(task.tid as int, ResourceKind::Mutex).held == p.demand(
            task.tid as int,
            ResourceKind::Mutex,
        ).held.update(id, p.demand(task.tid as int, ResourceKind::Mutex).held[id] + 1),
{
    lemma_wf_thread(p, task.tid as int);
    let d = p.demand(task.tid as int, ResourceKind::Mutex);
    assert(d.request(id).settle(id).need =~= d.need);
}

/// A request for a unit of a semaphore that has one and that is let through
/// is granted, and the unit is then held and no longer asked for; everything
/// else in the tables of the thread is as before.
pub proof fn lemma_free_unit_is_granted(p: ProcessView, task: TaskControlBlock, id: int)
    requires
        p.wf(),
        p.member(task),
        p.has_semaphore(id),
        p.admitted(task.tid as int, ResourceKind::Semaphore, id),
        p.semaphores[id]->0.count > 0,
    ensures
        p.down_verdict(task, id) == Some(true),
        p.down_semaphore(task, id).semaphores[id]->0.count == p.semaphores[id]->0.count - 1,
        p.down_semaphore(task, id).demand(task.tid as int, ResourceKind::Semaphore).need
            == p.demand(task.tid as int, ResourceKind::Semaphore).need,
        p.down_semaphore(task, id).demand(task.tid as int, ResourceKind::Semaphore).held
            == p.demand(task.tid as int, ResourceKind::Semaphore).held.update(
            id,
            p.demand(task.tid as int, ResourceKind::Semaphore).held[id] + 1,
        ),
{
    lemma_wf_thread(p, task.tid as int);
    let d = p.demand(task.tid as int, ResourceKind::Semaphore);
    assert(d.request(id).settle(id).need =~= d.need);
}

/// A request that is refused leaves the process exactly as it was.
pub proof fn lemma_refused_changes_nothing(p: ProcessView, task: TaskControlBlock, id: int)
    ensures
        !p.admitted(task.tid as int, ResourceKind::Mutex, id) ==> p.lock_mutex(task, id) == p
            && p.lock_verdict(task, id) is None,
        !p.admitted(task.tid as int, ResourceKind::Semaphore, id) ==> p.down_semaphore(task, id)
            == p && p.down_verdict(task, id) is None,
{
}

/// Whether a slot is empty does not depend on how its content is seen.
pub proof fn lemma_same_free<T: View>(slots: Seq<Option<T>>)
    ensures
        first_free(slot_views(slots)) == first_free(slots),
    decreases slots.len(),
{
    if slots.len() > 0 {
        assert(slot_views(slots)[0] is None <==> slots[0] is None);
        if slots[0] is Some {
            lemma_same_free(slots.drop_first());
            assert(slot_views(slots).drop_first() =~= slot_views(slots.drop_first()));
        }
    }
}

} // verus!
