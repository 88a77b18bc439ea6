//! System calls on mutexes, semaphores and condition variables, and sleep.

use vstd::prelude::*;
use crate::demand::{ResourceKind, TableOp};
use crate::kernel::{lemma_frame_wf, lemma_with_proc_wf, Kernel, KernelView, Sleeper};
use crate::deadlock::{absent, admits, available, remaining, rows_of};
use crate::process::{
    lemma_free_mutex_is_granted, lemma_free_unit_is_granted, lemma_order_admits,
    lemma_unlock_changes_only_caller, lemma_up_changes_only_caller, ProcessView,
};
use crate::slots::{first_free, lemma_first_free};
use crate::sync::{front, parked, rest, Acquire};
use crate::task::TaskStatus;

verus! {

/// What a call returns when its request was refused because it could lead
/// to deadlock.
pub const DEADLOCK: isize = -0xDEAD;

/// The result of a request that the detector judged: the sentinel where it
/// was refused, zero where it was let through.
pub open spec fn request_code<T>(verdict: Option<T>) -> isize {
    match verdict {
        Some(_) => 0,
        None => DEADLOCK,
    }
}

impl KernelView {
    /// The kernel after the running thread asked for mutex `id`. A thread
    /// that has to wait on the mutex stops running.
    pub open spec fn mutex_lock(self, id: int) -> KernelView {
        let cur = self.current->0;
        let p = self.cur_proc();
        let k = self.with_proc(p.lock_mutex(cur, id));
        if p.lock_verdict(cur, id) == Some(Acquire::Queued) {
            k.blocked()
        } else {
            k
        }
    }

    /// The kernel after the running thread gave mutex `id` up: a thread to
    /// which the mutex was handed is ready.
    pub open spec fn mutex_unlock(self, id: int) -> KernelView {
        let p = self.cur_proc();
        self.with_proc(p.unlock_mutex(self.current->0.tid as int, id)).woken(
            front(p.mutexes[id]->0.waiters),
        )
    }

    /// The kernel after the running thread asked for a unit of semaphore
    /// `id`. A thread that has to wait for the unit stops running.
    pub open spec fn semaphore_down(self, id: int) -> KernelView {
        let cur = self.current->0;
        let p = self.cur_proc();
        let k = self.with_proc(p.down_semaphore(cur, id));
        if p.down_verdict(cur, id) == Some(false) {
            k.blocked()
        } else {
            k
        }
    }

    /// The kernel after the running thread gave a unit of semaphore `id`
    /// back: a thread that got the unit is ready.
    pub open spec fn semaphore_up(self, id: int) -> KernelView {
        let p = self.cur_proc();
        self.with_proc(p.up_semaphore(self.current->0.tid as int, id)).woken(
            front(p.semaphores[id]->0.waiters),
        )
    }

    /// The kernel after condition variable `id` was signalled: the thread
    /// that waited longest on it, if any, is ready.
    pub open spec fn condvar_signal(self, id: int) -> KernelView {
        let p = self.cur_proc();
        self.with_proc(p.with_condvar(id, rest(p.condvars[id]->0))).woken(front(p.condvars[id]->0))
    }

    /// The kernel after the running thread gave mutex `mutex` up and went to
    /// wait on condition variable `condvar`: a thread to which the mutex was
    /// handed is ready, and the scheduler has chosen the next thread.
    pub open spec fn condvar_wait(self, condvar: int, mutex: int) -> KernelView {
        let p = self.cur_proc();
        self.with_proc(p.wait_condvar(self.current->0, condvar, mutex)).woken(
            front(p.mutexes[mutex]->0.waiters),
        ).blocked()
    }

    /// The kernel after the running thread went to sleep until `expire_ms`.
    pub open spec fn slept(self, expire_ms: usize) -> KernelView {
        KernelView {
            sleepers: self.sleepers.push(Sleeper { expire_ms, task: parked(self.current->0) }),
            ..self
        }.blocked()
    }
}

/// Giving a mutex up leaves what every thread asks for as it was, and
/// leaves the tables of every thread but the caller untouched: a thread to
/// which the mutex is handed gets it on record only once it runs again.
pub proof fn lemma_unlock_keeps_requests(k: KernelView, id: int, t: int, kind: ResourceKind)
    requires
        k.wf(),
        k.running(),
        k.cur_proc().has_thread(t),
    ensures
        k.mutex_unlock(id).cur_proc().demand(t, kind).need == k.cur_proc().demand(t, kind).need,
        t != k.current->0.tid ==> k.mutex_unlock(id).cur_proc().tasks[t] == k.cur_proc().tasks[t],
        k.mutex_unlock(id).current == k.current,
{
    assert(k.runnable(k.current->0));
    lemma_unlock_changes_only_caller(k.cur_proc(), k.current->0.tid as int, id);
}

/// Giving a unit of a semaphore back leaves what every thread asks for as it
/// was, and leaves the tables of every thread but the caller untouched.
pub proof fn lemma_up_keeps_requests(k: KernelView, id: int, t: int, kind: ResourceKind)
    requires
        k.wf(),
        k.running(),
        k.cur_proc().has_thread(t),
    ensures
        k.semaphore_up(id).cur_proc().demand(t, kind).need == k.cur_proc().demand(t, kind).need,
        t != k.current->0.tid ==> k.semaphore_up(id).cur_proc().tasks[t] == k.cur_proc().tasks[t],
        k.semaphore_up(id).current == k.current,
{
    assert(k.runnable(k.current->0));
    lemma_up_changes_only_caller(k.cur_proc(), k.current->0.tid as int, id);
}

/// With detection on, a request for a mutex is granted whenever an order
/// exists in which every thread can finish once the request is on record: the
/// call gives 0 and never the sentinel. Where the mutex is free, the caller
/// goes on running and holds it: what it asks for is as before, what it holds
/// of the mutex is one more, and no other thread's tables change.
pub proof fn lemma_safe_lock_is_granted(k: KernelView, id: int, order: Seq<int>)
    requires
        k.wf(),
        k.running(),
        k.cur_proc().has_mutex(id),
        k.cur_proc().can_apply(
            k.current->0.tid as int,
            ResourceKind::Mutex,
            TableOp::Request,
            id,
        ),
        ({
            let asked = k.cur_proc().adjusted(
                k.current->0.tid as int,
                ResourceKind::Mutex,
                TableOp::Request,
                id,
            );
            let rows = rows_of(asked.tasks, ResourceKind::Mutex);
            admits(rows, absent(rows), available(asked.mutex_work()), order)
        }),
    ensures
        request_code(k.cur_proc().lock_verdict(k.current->0, id)) == 0,
        !k.cur_proc().mutexes[id]->0.locked ==> {
            let tid = k.current->0.tid as int;
            let before = k.cur_proc().demand(tid, ResourceKind::Mutex);
            let after = k.mutex_lock(id).cur_proc().demand(tid, ResourceKind::Mutex);
            &&& k.mutex_lock(id).current == k.current
            &&& k.mutex_lock(id).cur_proc().mutexes[id]->0.locked
            &&& after.need == before.need
            &&& after.held == before.held.update(id, before.held[id] + 1)
            &&& forall|t: int|
                0 <= t < k.cur_proc().tasks.len() && t != tid ==> k.mutex_lock(
                    id,
                ).cur_proc().tasks[t] == k.cur_proc().tasks[t]
        },
{
    let cur = k.current->0;
    let p = k.cur_proc();
    assert(k.runnable(cur));
    lemma_order_admits(p, cur.tid as int, ResourceKind::Mutex, id, order);
    if !p.mutexes[id]->0.locked {
        lemma_free_mutex_is_granted(p, cur, id);
    }
}

/// With detection on, a request for a unit of a semaphore is granted whenever
/// an order exists in which every thread can finish once the request is on
/// record: the call gives 0 and never the sentinel, and the count is one less.
/// Where a unit was free, the caller goes on running and holds it: what it
/// asks for is as before, and what it holds of the semaphore is one more.
pub proof fn lemma_safe_down_is_granted(k: KernelView, id: int, order: Seq<int>)
    requires
        k.wf(),
        k.running(),
        k.cur_proc().has_semaphore(id),
        k.cur_proc().can_apply(
            k.current->0.tid as int,
            ResourceKind::Semaphore,
            TableOp::Request,
            id,
        ),
        ({
            let asked = k.cur_proc().adjusted(
                k.current->0.tid as int,
                ResourceKind::Semaphore,
                TableOp::Request,
                id,
            );
            let rows = rows_of(asked.tasks, ResourceKind::Semaphore);
            admits(rows, absent(rows), remaining(asked.capacity, rows), order)
        }),
    ensures
        request_code(k.cur_proc().down_verdict(k.current->0, id)) == 0,
        k.cur_proc().down_semaphore(k.current->0, id).semaphores[id]->0.count
            == k.cur_proc().semaphores[id]->0.count - 1,
        k.cur_proc().semaphores[id]->0.count > 0 ==> {
            let tid = k.current->0.tid as int;
            let before = k.cur_proc().demand(tid, ResourceKind::Semaphore);
            let after = k.semaphore_down(id).cur_proc().demand(tid, ResourceKind::Semaphore);
            &&& k.semaphore_down(id).current == k.current
            &&& after.need == before.need
            &&& after.held == before.held.update(id, before.held[id] + 1)
        },
{
    let cur = k.current->0;
    let p = k.cur_proc();
    assert(k.runnable(cur));
    lemma_order_admits(p, cur.tid as int, ResourceKind::Semaphore, id, order);
    if p.semaphores[id]->0.count > 0 {
        lemma_free_unit_is_granted(p, cur, id);
    }
}

/// Puts the running thread to sleep for `ms` milliseconds from `now_ms` on
/// and lets the scheduler choose the next thread. Returns 0.
pub fn sys_sleep(kernel: &mut Kernel, now_ms: usize, ms: usize) -> (r: isize)
    requires
        old(kernel).wf(),
        old(kernel)@.running(),
        now_ms + ms <= usize::MAX,
    ensures
        final(kernel).wf(),
        r == 0,
        final(kernel)@ == old(kernel)@.slept((now_ms + ms) as usize),
{
    let ghost before = kernel@;
    let expire_ms: usize = now_ms + ms;
    match kernel.current {
        Some(cur) => {
            let mut task = cur;
            task.task_status = TaskStatus::Blocked;
            kernel.sleepers.push(Sleeper { expire_ms, task });
            proof {
                assert(before.runnable(cur));
                assert forall|i: int| 0 <= i < kernel@.sleepers.len() implies before.runnable(
                    (#[trigger] kernel@.sleepers[i]).task,
                ) by {
                    if i < before.sleepers.len() {
                        assert(before.runnable(before.sleepers[i].task));
                    }
                }
                assert forall|i: int| 0 <= i < kernel@.ready.len() implies before.runnable(
                    #[trigger] kernel@.ready[i],
                ) by {
                    assert(before.runnable(before.ready[i]));
                }
                lemma_frame_wf(before, kernel@);
            }
        },
        None => {},
    }
    kernel.block_current_and_run_next();
    0
}

/// Makes a mutex in the process of the running thread, one on which threads
/// sleep if `blocking` is set, else one that is taken by busy waiting.
/// Returns its id: the first empty slot of the registry, or a new slot.
pub fn sys_mutex_create(kernel: &mut Kernel, blocking: bool) -> (r: isize)
    requires
        old(kernel).wf(),
        old(kernel)@.running(),
        old(kernel)@.cur_proc().mutexes.len() <= isize::MAX,
    ensures
        final(kernel).wf(),
        r == first_free(old(kernel)@.cur_proc().mutexes),
        final(kernel)@ == old(kernel)@.with_proc(old(kernel)@.cur_proc().create_mutex(blocking)),
{
    let ghost before = kernel@;
    match kernel.current {
        Some(cur) => {
            assert(before.runnable(cur));
            let id: usize = match &mut kernel.procs[cur.pid] {
                Some(p) => p.mutex_create(blocking),
                None => 0,
            };
            proof {
                let changed = before.cur_proc().create_mutex(blocking);
                lemma_first_free(before.cur_proc().mutexes);
                assert(kernel@.procs =~= before.with_proc(changed).procs);
                assert(kernel@ =~= before.with_proc(changed));
                lemma_with_proc_wf(before, changed);
            }
            id as isize
        },
        None => 0,
    }
}

/// Lets the running thread ask for mutex `mutex_id` and tells how the
/// request ended.
///
/// With detection on, the request is first recorded and judged: if not every
/// thread of the process could finish any more, the record is taken back,
/// nothing else is touched, and `None` is returned. Else the mutex is tried
/// and its answer returned. A thread that was granted the mutex holds it. A
/// thread that found it held keeps its request on record: on a mutex on which
/// threads sleep it joins the wait queue and stops running, and the unit is
/// its own once it runs again; on a busy-waiting mutex it goes on running
/// and has to try again.
pub fn mutex_lock(kernel: &mut Kernel, mutex_id: usize) -> (step: Option<Acquire>)
    requires
        old(kernel).wf(),
        old(kernel)@.running(),
        old(kernel)@.cur_proc().has_mutex(mutex_id as int),
        old(kernel)@.cur_proc().can_apply(
            old(kernel)@.current->0.tid as int,
            ResourceKind::Mutex,
            TableOp::Request,
            mutex_id as int,
        ),
    ensures
        final(kernel).wf(),
        step == old(kernel)@.cur_proc().lock_verdict(old(kernel)@.current->0, mutex_id as int),
        final(kernel)@ == old(kernel)@.mutex_lock(mutex_id as int),
{
    let ghost before = kernel@;
    match kernel.current {
        Some(cur) => {
            assert(before.runnable(cur));
            let step = match &mut kernel.procs[cur.pid] {
                Some(p) => p.lock_mutex(cur, mutex_id),
                None => None,
            };
            proof {
                let changed = before.cur_proc().lock_mutex(cur, mutex_id as int);
                assert(kernel@.procs =~= before.with_proc(changed).procs);
                assert(kernel@ =~= before.with_proc(changed));
                lemma_with_proc_wf(before, changed);
            }
            match step {
                Some(Acquire::Queued) => {
                    kernel.block_current_and_run_next();
                },
                _ => {},
            }
            step
        },
        None => None,
    }
}

/// Lets the running thread ask for mutex `mutex_id`: `mutex_lock`, with the
/// outcome turned into the call's result. A request that was refused because
/// it could lead to deadlock gives the sentinel; every other outcome gives 0,
/// which a thread that has to wait sees once it has the mutex.
pub fn sys_mutex_lock(kernel: &mut Kernel, mutex_id: usize) -> (r: isize)
    requires
        old(kernel).wf(),
        old(kernel)@.running(),
        old(kernel)@.cur_proc().has_mutex(mutex_id as int),
        old(kernel)@.cur_proc().can_apply(
            old(kernel)@.current->0.tid as int,
            ResourceKind::Mutex,
            TableOp::Request,
            mutex_id as int,
        ),
    ensures
        final(kernel).wf(),
        r == request_code(
            old(kernel)@.cur_proc().lock_verdict(old(kernel)@.current->0, mutex_id as int),
        ),
        final(kernel)@ == old(kernel)@.mutex_lock(mutex_id as int),
{
    match mutex_lock(kernel, mutex_id) {
        Some(_) => 0,
        None => DEADLOCK,
    }
}

/// Lets the running thread, whose request for the busy-waiting mutex
/// `mutex_id` is on record, try the mutex again. Returns whether it has the
/// mutex now.
pub fn sys_mutex_retry(kernel: &mut Kernel, mutex_id: usize) -> (got: bool)
    requires
        old(kernel).wf(),
        old(kernel)@.running(),
        old(kernel)@.cur_proc().has_mutex(mutex_id as int),
    ensures
        final(kernel).wf(),
        got == !old(kernel)@.cur_proc().mutexes[mutex_id as int]->0.locked,
        final(kernel)@ == old(kernel)@.with_proc(
            old(kernel)@.cur_proc().retry_mutex(old(kernel)@.current->0, mutex_id as int),
        ),
{
    let ghost before = kernel@;
    match kernel.current {
        Some(cur) => {
            assert(before.runnable(cur));
            let got = match &mut kernel.procs[cur.pid] {
                Some(p) => p.retry_mutex(cur, mutex_id),
                None => false,
            };
            proof {
                let changed = before.cur_proc().retry_mutex(cur, mutex_id as int);
                assert(kernel@.procs =~= before.with_proc(changed).procs);
                assert(kernel@ =~= before.with_proc(changed));
                lemma_with_proc_wf(before, changed);
            }
            got
        },
        None => false,
    }
}

/// Lets the running thread give mutex `mutex_id` up. Where threads wait for
/// it, the one that waited longest gets the mutex and becomes ready; else the
/// mutex is free. One unit leaves what the running thread holds, and no other
/// entry of any table changes: the thread that got the mutex has its request
/// on record until it runs again. Returns 0.
pub fn sys_mutex_unlock(kernel: &mut Kernel, mutex_id: usize) -> (r: isize)
    requires
        old(kernel).wf(),
        old(kernel)@.running(),
        old(kernel)@.cur_proc().has_mutex(mutex_id as int),
    ensures
        final(kernel).wf(),
        r == 0,
        final(kernel)@ == old(kernel)@.mutex_unlock(mutex_id as int),
{
    let ghost before = kernel@;
    match kernel.current {
        Some(cur) => {
            assert(before.runnable(cur));
            let woken = match &mut kernel.procs[cur.pid] {
                Some(p) => p.unlock_mutex(cur.tid, mutex_id),
                None => None,
            };
            proof {
                let changed = before.cur_proc().unlock_mutex(cur.tid as int, mutex_id as int);
                assert(kernel@.procs =~= before.with_proc(changed).procs);
                assert(kernel@ =~= before.with_proc(changed));
                lemma_with_proc_wf(before, changed);
            }
            kernel.wakeup(woken);
            0
        },
        None => 0,
    }
}

/// Makes a semaphore with `res_count` free units in the process of the
/// running thread, and records the count beside it. Returns its id: the
/// first empty slot of the registry, or a new slot.
pub fn sys_semaphore_create(kernel: &mut Kernel, res_count: usize) -> (r: isize)
    requires
        old(kernel).wf(),
        old(kernel)@.running(),
        old(kernel)@.cur_proc().semaphores.len() <= isize::MAX,
        res_count <= isize::MAX,
    ensures
        final(kernel).wf(),
        r == first_free(old(kernel)@.cur_proc().semaphores),
        final(kernel)@ == old(kernel)@.with_proc(
            old(kernel)@.cur_proc().create_semaphore(res_count),
        ),
{
    let ghost before = kernel@;
    match kernel.current {
        Some(cur) => {
            assert(before.runnable(cur));
            let id: usize = match &mut kernel.procs[cur.pid] {
                Some(p) => p.semaphore_create(res_count),
                None => 0,
            };
            proof {
                let changed = before.cur_proc().create_semaphore(res_count);
                lemma_first_free(before.cur_proc().semaphores);
                assert(kernel@.procs =~= before.with_proc(changed).procs);
                assert(kernel@ =~= before.with_proc(changed));
                lemma_with_proc_wf(before, changed);
            }
            id as isize
        },
        None => 0,
    }
}

/// Lets the running thread give a unit of semaphore `sem_id` back. The count
/// goes up; where threads wait, the one that waited longest gets the unit and
/// becomes ready. One unit leaves what the running thread holds, and no other
/// entry of any table changes: the thread that got the unit has its request
/// on record until it runs again. Returns 0.
pub fn sys_semaphore_up(kernel: &mut Kernel, sem_id: usize) -> (r: isize)
    requires
        old(kernel).wf(),
        old(kernel)@.running(),
        old(kernel)@.cur_proc().has_semaphore(sem_id as int),
        old(kernel)@.cur_proc().semaphores[sem_id as int]->0.count < isize::MAX,
    ensures
        final(kernel).wf(),
        r == 0,
        final(kernel)@ == old(kernel)@.semaphore_up(sem_id as int),
{
    let ghost before = kernel@;
    match kernel.current {
        Some(cur) => {
            assert(before.runnable(cur));
            let woken = match &mut kernel.procs[cur.pid] {
                Some(p) => p.up_semaphore(cur.tid, sem_id),
                None => None,
            };
            proof {
                let changed = before.cur_proc().up_semaphore(cur.tid as int, sem_id as int);
                assert(kernel@.procs =~= before.with_proc(changed).procs);
                assert(kernel@ =~= before.with_proc(changed));
                lemma_with_proc_wf(before, changed);
            }
            kernel.wakeup(woken);
            0
        },
        None => 0,
    }
}

/// Lets the running thread ask for a unit of semaphore `sem_id` and tells
/// how the request ended.
///
/// With detection on, the request is first recorded and judged: if not every
/// thread of the process could finish any more, the record is taken back,
/// nothing else is touched, and `None` is returned. Else the count goes down.
/// A thread that got a unit holds it, and `Some(true)` is returned. A thread
/// for which none was left keeps its request on record, joins the wait queue
/// and stops running, and `Some(false)` is returned; the unit is its own once
/// it runs again.
pub fn semaphore_down(kernel: &mut Kernel, sem_id: usize) -> (got: Option<bool>)
    requires
        old(kernel).wf(),
        old(kernel)@.running(),
        old(kernel)@.cur_proc().has_semaphore(sem_id as int),
        old(kernel)@.cur_proc().semaphores[sem_id as int]->0.count > isize::MIN,
        old(kernel)@.cur_proc().can_apply(
            old(kernel)@.current->0.tid as int,
            ResourceKind::Semaphore,
            TableOp::Request,
            sem_id as int,
        ),
    ensures
        final(kernel).wf(),
        got == old(kernel)@.cur_proc().down_verdict(old(kernel)@.current->0, sem_id as int),
        final(kernel)@ == old(kernel)@.semaphore_down(sem_id as int),
{
    let ghost before = kernel@;
    match kernel.current {
        Some(cur) => {
            assert(before.runnable(cur));
            let got = match &mut kernel.procs[cur.pid] {
                Some(p) => p.down_semaphore(cur, sem_id),
                None => None,
            };
            proof {
                let changed = before.cur_proc().down_semaphore(cur, sem_id as int);
                assert(kernel@.procs =~= before.with_proc(changed).procs);
                assert(kernel@ =~= before.with_proc(changed));
                lemma_with_proc_wf(before, changed);
            }
            match got {
                Some(false) => {
                    kernel.block_current_and_run_next();
                },
                _ => {},
            }
            got
        },
        None => None,
    }
}

/// Lets the running thread ask for a unit of semaphore `sem_id`:
/// `semaphore_down`, with the outcome turned into the call's result. A
/// request that was refused because it could lead to deadlock gives the
/// sentinel; every other outcome gives 0, which a thread that has to wait
/// sees once it has the unit.
pub fn sys_semaphore_down(kernel: &mut Kernel, sem_id: usize) -> (r: isize)
    requires
        old(kernel).wf(),
        old(kernel)@.running(),
        old(kernel)@.cur_proc().has_semaphore(sem_id as int),
        old(kernel)@.cur_proc().semaphores[sem_id as int]->0.count > isize::MIN,
        old(kernel)@.cur_proc().can_apply(
            old(kernel)@.current->0.tid as int,
            ResourceKind::Semaphore,
            TableOp::Request,
            sem_id as int,
        ),
    ensures
        final(kernel).wf(),
        r == request_code(
            old(kernel)@.cur_proc().down_verdict(old(kernel)@.current->0, sem_id as int),
        ),
        final(kernel)@ == old(kernel)@.semaphore_down(sem_id as int),
{
    match semaphore_down(kernel, sem_id) {
        Some(_) => 0,
        None => DEADLOCK,
    }
}

/// Makes a condition variable in the process of the running thread. Returns
/// its id: the first empty slot of the registry, or a new slot.
pub fn sys_condvar_create(kernel: &mut Kernel) -> (r: isize)
    requires
        old(kernel).wf(),
        old(kernel)@.running(),
        old(kernel)@.cur_proc().condvars.len() <= isize::MAX,
    ensures
        final(kernel).wf(),
        r == first_free(old(kernel)@.cur_proc().condvars),
        final(kernel)@ == old(kernel)@.with_proc(old(kernel)@.cur_proc().create_condvar()),
{
    let ghost before = kernel@;
    match kernel.current {
        Some(cur) => {
            assert(before.runnable(cur));
            let id: usize = match &mut kernel.procs[cur.pid] {
                Some(p) => p.condvar_create(),
                None => 0,
            };
            proof {
                let changed = before.cur_proc().create_condvar();
                lemma_first_free(before.cur_proc().condvars);
                assert(kernel@.procs =~= before.with_proc(changed).procs);
                assert(kernel@ =~= before.with_proc(changed));
                lemma_with_proc_wf(before, changed);
            }
            id as isize
        },
        None => 0,
    }
}

/// Signals condition variable `condvar_id`: the thread that waited longest
/// on it becomes ready; nothing happens where nobody waits. Returns 0.
pub fn sys_condvar_signal(kernel: &mut Kernel, condvar_id: usize) -> (r: isize)
    requires
        old(kernel).wf(),
        old(kernel)@.running(),
        old(kernel)@.cur_proc().has_condvar(condvar_id as int),
    ensures
        final(kernel).wf(),
        r == 0,
        final(kernel)@ == old(kernel)@.condvar_signal(condvar_id as int),
{
    let ghost before = kernel@;
    match kernel.current {
        Some(cur) => {
            assert(before.runnable(cur));
            let woken = match &mut kernel.procs[cur.pid] {
                Some(p) => p.signal_condvar(condvar_id),
                None => None,
            };
            proof {
                let p = before.cur_proc();
                let queue = rest(p.condvars[condvar_id as int]->0);
                let changed = p.with_condvar(condvar_id as int, queue);
                assert(kernel@.procs =~= before.with_proc(changed).procs);
                assert(kernel@ =~= before.with_proc(changed));
                lemma_with_proc_wf(before, changed);
            }
            kernel.wakeup(woken);
            0
        },
        None => 0,
    }
}

/// Lets the running thread give mutex `mutex_id` up and wait on condition
/// variable `condvar_id`, in one step. A thread to which the mutex was handed
/// becomes ready; the running thread stops running, and the unit leaves what
/// it holds. No other entry of any table changes. The mutex is not taken
/// again for the running thread when it is woken. Returns 0.
pub fn sys_condvar_wait(kernel: &mut Kernel, condvar_id: usize, mutex_id: usize) -> (r: isize)
    requires
        old(kernel).wf(),
        old(kernel)@.running(),
        old(kernel)@.cur_proc().has_condvar(condvar_id as int),
        old(kernel)@.cur_proc().has_mutex(mutex_id as int),
    ensures
        final(kernel).wf(),
        r == 0,
        final(kernel)@ == old(kernel)@.condvar_wait(condvar_id as int, mutex_id as int),
{
    let ghost before = kernel@;
    match kernel.current {
        Some(cur) => {
            assert(before.runnable(cur));
            let woken = match &mut kernel.procs[cur.pid] {
                Some(p) => p.wait_condvar(cur, condvar_id, mutex_id),
                None => None,
            };
            proof {
                let changed = before.cur_proc().wait_condvar(
                    cur,
                    condvar_id as int,
                    mutex_id as int,
                );
                assert(kernel@.procs =~= before.with_proc(changed).procs);
                assert(kernel@ =~= before.with_proc(changed));
                lemma_with_proc_wf(before, changed);
            }
            kernel.wakeup(woken);
            kernel.block_current_and_run_next();
            0
        },
        None => 0,
    }
}

/// Turns the deadlock detector of the running thread's process on, for any
/// `enabled` but zero, or off. Returns 0.
pub fn sys_enable_deadlock_detect(kernel: &mut Kernel, enabled: usize) -> (r: isize)
    requires
        old(kernel).wf(),
        old(kernel)@.running(),
    ensures
        final(kernel).wf(),
        r == 0,
        final(kernel)@ == old(kernel)@.with_proc(
            ProcessView { detect: enabled != 0, ..old(kernel)@.cur_proc() },
        ),
{
    let ghost before = kernel@;
    match kernel.current {
        Some(cur) => {
            assert(before.runnable(cur));
            match &mut kernel.procs[cur.pid] {
                Some(p) => p.set_detect(enabled != 0),
                None => {},
            }
            proof {
                let changed = ProcessView { detect: enabled != 0, ..before.cur_proc() };
                assert(kernel@.procs =~= before.with_proc(changed).procs);
                assert(kernel@ =~= before.with_proc(changed));
                lemma_with_proc_wf(before, changed);
            }
            0
        },
        None => 0,
    }
}

} // verus!
