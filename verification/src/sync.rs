//! The blocking primitives: mutexes, counting semaphores and condition
//! variables. Each keeps the threads that wait on it in the order in which
//! they came, and says which thread to wake instead of waking it.

use vstd::prelude::*;
use crate::demand::ResourceKind;
use crate::task::{Awaited, TaskControlBlock, TaskStatus};

verus! {

/// `task` as it asks for a unit of resource `id` of `kind` and is ready to
/// wait for it.
pub open spec fn awaiting(
    task: TaskControlBlock,
    kind: ResourceKind,
    id: usize,
) -> TaskControlBlock {
    TaskControlBlock { awaits: Some(Awaited { kind, id }), ..task }
}

/// `task` as it is kept while it waits.
pub open spec fn parked(task: TaskControlBlock) -> TaskControlBlock {
    TaskControlBlock { task_status: TaskStatus::Blocked, ..task }
}

/// The thread at the front of `queue`, if there is one.
pub open spec fn front(queue: Seq<TaskControlBlock>) -> Option<TaskControlBlock> {
    if queue.len() > 0 {
        Some(queue[0])
    } else {
        None
    }
}

/// `queue` without the thread at its front.
pub open spec fn rest(queue: Seq<TaskControlBlock>) -> Seq<TaskControlBlock> {
    if queue.len() > 0 {
        queue.drop_first()
    } else {
        queue
    }
}

/// How an attempt to take a mutex ended.
#[derive(Clone, Copy, Debug, PartialEq, Eq, Structural)]
pub enum Acquire {
    /// The caller has the mutex.
    Granted,
    /// The mutex is held; the caller was put on its wait queue.
    Queued,
    /// The mutex is held; the caller goes on trying.
    Busy,
}

/// A mutex that is taken by trying again and again: a flag and nothing else.
pub struct MutexSpin {
    /// Whether the mutex is held.
    pub locked: bool,
}

/// A mutex on which threads sleep until it is handed to them.
pub struct MutexBlocking {
    /// Whether the mutex is held.
    pub locked: bool,
    /// The threads that wait for it, longest wait first.
    pub wait_queue: Vec<TaskControlBlock>,
}

/// A mutex of either kind.
pub enum Mutex {
    /// Taken by busy waiting.
    Spin(MutexSpin),
    /// Taken by sleeping on a wait queue.
    Blocking(MutexBlocking),
}

/// A counting semaphore.
pub struct Semaphore {
    /// Units that are free; where negative, the number of waiting threads.
    pub count: isize,
    /// The threads that wait for a unit, longest wait first.
    pub wait_queue: Vec<TaskControlBlock>,
}

/// A condition variable.
pub struct Condvar {
    /// The threads that wait for a signal, longest wait first.
    pub wait_queue: Vec<TaskControlBlock>,
}

impl MutexSpin {
    /// A free mutex.
    pub fn new() -> (mutex: Self)
        ensures
            !mutex.locked,
    {
        MutexSpin { locked: false }
    }

    /// One attempt to take the mutex: it succeeds exactly if the mutex was
    /// free, and the mutex is held afterwards either way.
    pub fn lock(&mut self) -> (got: bool)
        ensures
            got == !old(self).locked,
            final(self).locked,
    {
        let got = !self.locked;
        self.locked = true;
        got
    }

    /// Frees the mutex.
    pub fn unlock(&mut self)
        ensures
            !final(self).locked,
    {
        self.locked = false;
    }
}

impl MutexBlocking {
    /// Threads wait only while the mutex is held.
    pub open spec fn wf(&self) -> bool {
        self.wait_queue@.len() > 0 ==> self.locked
    }

    /// A free mutex on which nobody waits.
    pub fn new() -> (mutex: Self)
        ensures
            mutex.wf(),
            !mutex.locked,
            mutex.wait_queue@ == Seq::<TaskControlBlock>::empty(),
    {
        MutexBlocking { locked: false, wait_queue: Vec::new() }
    }

    /// Takes the mutex for `task` if it is free; else puts `task` at the
    /// back of the wait queue.
    pub fn lock(&mut self, task: TaskControlBlock) -> (got: bool)
        requires
            old(self).wf(),
        ensures
            final(self).wf(),
            got == !old(self).locked,
            final(self).locked,
            got ==> final(self).wait_queue@ == old(self).wait_queue@,
            !got ==> final(self).wait_queue@ == old(self).wait_queue@.push(parked(task)),
    {
        if self.locked {
            let mut task = task;
            task.task_status = TaskStatus::Blocked;
            self.wait_queue.push(task);
            false
        } else {
            self.locked = true;
            true
        }
    }

    /// Gives the mutex up. Where threads wait, the one that waited longest
    /// gets the mutex and is returned to be woken; else the mutex is free.
    pub fn unlock(&mut self) -> (woken: Option<TaskControlBlock>)
        requires
            old(self).wf(),
        ensures
            final(self).wf(),
            woken == front(old(self).wait_queue@),
            final(self).wait_queue@ == rest(old(self).wait_queue@),
            final(self).locked == (old(self).wait_queue@.len() > 0),
    {
        if self.wait_queue.len() > 0 {
            let first = self.wait_queue.remove(0);
            assert(self.wait_queue@ =~= old(self).wait_queue@.drop_first());
            Some(first)
        } else {
            self.locked = false;
            None
        }
    }
}

/// What a mutex is: its kind, whether it is held, and who waits for it.
pub struct MutexView {
    /// Whether threads sleep on it.
    pub blocking: bool,
    /// Whether it is held.
    pub locked: bool,
    /// The threads that wait for it, longest wait first.
    pub waiters: Seq<TaskControlBlock>,
}

/// What a semaphore is: its count and who waits for a unit.
pub struct SemaphoreView {
    /// Units that are free; where negative, the number of waiting threads.
    pub count: int,
    /// The threads that wait for a unit, longest wait first.
    pub waiters: Seq<TaskControlBlock>,
}

impl MutexView {
    /// Threads wait only for a held mutex on which threads sleep.
    pub open spec fn wf(self) -> bool {
        &&& self.waiters.len() > 0 ==> self.locked
        &&& !self.blocking ==> self.waiters.len() == 0
    }

    /// A free mutex of the kind asked for.
    pub open spec fn fresh(blocking: bool) -> MutexView {
        MutexView { blocking, locked: false, waiters: Seq::empty() }
    }

    /// How an attempt to take the mutex ends.
    pub open spec fn lock_step(self) -> Acquire {
        if !self.locked {
            Acquire::Granted
        } else if self.blocking {
            Acquire::Queued
        } else {
            Acquire::Busy
        }
    }

    /// The mutex after `task` tried to take it.
    pub open spec fn lock(self, task: TaskControlBlock) -> MutexView {
        if self.locked && self.blocking {
            MutexView { waiters: self.waiters.push(parked(task)), ..self }
        } else {
            MutexView { locked: true, ..self }
        }
    }

    /// The mutex after it was given up: handed to the thread that waited
    /// longest, or free.
    pub open spec fn unlock(self) -> MutexView {
        if self.waiters.len() > 0 {
            MutexView { waiters: self.waiters.drop_first(), ..self }
        } else {
            MutexView { locked: false, ..self }
        }
    }
}

impl SemaphoreView {
    /// A negative count is the number of waiting threads; nobody waits while
    /// units are free.
    pub open spec fn wf(self) -> bool {
        &&& isize::MIN <= self.count <= isize::MAX
        &&& self.count < 0 ==> self.waiters.len() == -self.count
        &&& self.count >= 0 ==> self.waiters.len() == 0
    }

    /// A semaphore with `res_count` free units.
    pub open spec fn fresh(res_count: usize) -> SemaphoreView {
        SemaphoreView { count: res_count as int, waiters: Seq::empty() }
    }

    /// The semaphore after `task` asked for a unit.
    pub open spec fn down(self, task: TaskControlBlock) -> SemaphoreView {
        SemaphoreView {
            count: self.count - 1,
            waiters: if self.count > 0 {
                self.waiters
            } else {
                self.waiters.push(parked(task))
            },
        }
    }

    /// The semaphore after a unit was given back.
    pub open spec fn up(self) -> SemaphoreView {
        SemaphoreView { count: self.count + 1, waiters: rest(self.waiters) }
    }
}

impl View for Mutex {
    type V = MutexView;

    open spec fn view(&self) -> MutexView {
        match self {
            Mutex::Spin(m) => MutexView {
                blocking: false,
                locked: m.locked,
                waiters: Seq::empty(),
            },
            Mutex::Blocking(m) => MutexView {
                blocking: true,
                locked: m.locked,
                waiters: m.wait_queue@,
            },
        }
    }
}

impl Mutex {
    /// The invariant of the mutex.
    pub open spec fn wf(&self) -> bool {
        self@.wf()
    }

    /// A free mutex of the kind asked for.
    pub fn new(blocking: bool) -> (mutex: Self)
        ensures
            mutex.wf(),
            mutex@ == MutexView::fresh(blocking),
    {
        if blocking {
            Mutex::Blocking(MutexBlocking::new())
        } else {
            Mutex::Spin(MutexSpin::new())
        }
    }

    /// Whether the mutex is held.
    pub fn is_locked(&self) -> (r: bool)
        ensures
            r == self@.locked,
    {
        match self {
            Mutex::Spin(m) => m.locked,
            Mutex::Blocking(m) => m.locked,
        }
    }

    /// Tries to take the mutex for `task`. A free mutex is granted. A held
    /// mutex stays held: one on which threads sleep takes `task` at the back
    /// of its wait queue, the other leaves it to the caller to try again.
    pub fn lock(&mut self, task: TaskControlBlock) -> (step: Acquire)
        requires
            old(self).wf(),
        ensures
            final(self).wf(),
            final(self)@ == old(self)@.lock(task),
            step == old(self)@.lock_step(),
    {
        match self {
            Mutex::Spin(m) => {
                if m.lock() {
                    Acquire::Granted
                } else {
                    Acquire::Busy
                }
            },
            Mutex::Blocking(m) => {
                if m.lock(task) {
                    Acquire::Granted
                } else {
                    Acquire::Queued
                }
            },
        }
    }

    /// Gives the mutex up. Where threads wait for it, the one that waited
    /// longest now has it and is returned to be woken; else the mutex is free.
    pub fn unlock(&mut self) -> (woken: Option<TaskControlBlock>)
        requires
            old(self).wf(),
        ensures
            final(self).wf(),
            final(self)@ == old(self)@.unlock(),
            woken == front(old(self)@.waiters),
    {
        match self {
            Mutex::Spin(m) => {
                m.unlock();
                None
            },
            Mutex::Blocking(m) => m.unlock(),
        }
    }
}

impl View for Semaphore {
    type V = SemaphoreView;

    open spec fn view(&self) -> SemaphoreView {
        SemaphoreView { count: self.count as int, waiters: self.wait_queue@ }
    }
}

impl Semaphore {
    /// The invariant of the semaphore.
    pub open spec fn wf(&self) -> bool {
        self@.wf()
    }

    /// A semaphore with `res_count` free units.
    pub fn new(res_count: usize) -> (sem: Self)
        requires
            res_count <= isize::MAX,
        ensures
            sem.wf(),
            sem@ == SemaphoreView::fresh(res_count),
    {
        Semaphore { count: res_count as isize, wait_queue: Vec::new() }
    }

    /// Takes one unit for `task`. Where none is free, `task` is put at the
    /// back of the wait queue and `false` is returned.
    pub fn down(&mut self, task: TaskControlBlock) -> (got: bool)
        requires
            old(self).wf(),
            old(self)@.count > isize::MIN,
        ensures
            final(self).wf(),
            final(self)@ == old(self)@.down(task),
            got == (old(self)@.count > 0),
    {
        self.count = self.count - 1;
        if self.count < 0 {
            let mut task = task;
            task.task_status = TaskStatus::Blocked;
            self.wait_queue.push(task);
            false
        } else {
            true
        }
    }

    /// Gives one unit back. Where threads wait, the one that waited longest
    /// gets the unit and is returned to be woken.
    pub fn up(&mut self) -> (woken: Option<TaskControlBlock>)
        requires
            old(self).wf(),
            old(self)@.count < isize::MAX,
        ensures
            final(self).wf(),
            final(self)@ == old(self)@.up(),
            woken == front(old(self)@.waiters),
    {
        self.count = self.count + 1;
        if self.count <= 0 {
            let first = self.wait_queue.remove(0);
            assert(self.wait_queue@ =~= old(self).wait_queue@.drop_first());
            Some(first)
        } else {
            None
        }
    }
}

impl View for Condvar {
    type V = Seq<TaskControlBlock>;

    /// The threads that wait for a signal, longest wait first.
    open spec fn view(&self) -> Seq<TaskControlBlock> {
        self.wait_queue@
    }
}

impl Condvar {
    /// A condition variable on which nobody waits.
    pub fn new() -> (condvar: Self)
        ensures
            condvar@ == Seq::<TaskControlBlock>::empty(),
    {
        Condvar { wait_queue: Vec::new() }
    }

    /// Wakes the thread that waited longest, if any waits.
    pub fn signal(&mut self) -> (woken: Option<TaskControlBlock>)
        ensures
            final(self)@ == rest(old(self)@),
            woken == front(old(self)@),
    {
        if self.wait_queue.len() > 0 {
            let first = self.wait_queue.remove(0);
            assert(self.wait_queue@ =~= old(self).wait_queue@.drop_first());
            Some(first)
        } else {
            None
        }
    }

    /// Gives `mutex` up and puts `task` at the back of the wait queue, in
    /// one step. Returns the thread to which the mutex was handed, if any.
    /// The mutex is not taken again for `task` when it is woken.
    pub fn wait(&mut self, mutex: &mut Mutex, task: TaskControlBlock) -> (woken: Option<
        TaskControlBlock,
    >)
        requires
            old(mutex).wf(),
        ensures
            final(self)@ == old(self)@.push(parked(task)),
            final(mutex).wf(),
            final(mutex)@ == old(mutex)@.unlock(),
            woken == front(old(mutex)@.waiters),
    {
        let woken = mutex.unlock();
        let mut task = task;
        task.task_status = TaskStatus::Blocked;
        self.wait_queue.push(task);
        woken
    }
}

} // verus!
