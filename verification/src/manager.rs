//! The scheduler: a queue of ready threads, from which the one with the
//! least stride is taken.

use vstd::prelude::*;
use crate::stride::{stride_before, stride_is_before, distance, HALF_STRIDE};
use crate::task::TaskControlBlock;

verus! {

/// The queue of threads that are ready to run.
pub struct TaskManager {
    ready_queue: Vec<TaskControlBlock>,
}

impl View for TaskManager {
    type V = Seq<TaskControlBlock>;

    /// The ready threads, in the order in which they were added.
    closed spec fn view(&self) -> Seq<TaskControlBlock> {
        self.ready_queue@
    }
}

/// Position of the thread that one scan of `q` from the front chooses: a
/// later thread replaces the choice only if its stride is strictly behind.
pub open spec fn pick(q: Seq<TaskControlBlock>) -> int
    decreases q.len(),
{
    if q.len() <= 1 {
        0
    } else {
        let best = pick(q.drop_last());
        if stride_before(q.last().stride, q[best].stride) {
            q.len() - 1
        } else {
            best
        }
    }
}

/// The threads that do not belong to process `pid`.
pub open spec fn not_of(pid: usize) -> spec_fn(TaskControlBlock) -> bool {
    |t: TaskControlBlock| t.pid != pid
}

/// Every stride of `q` lies at most half the ring ahead of `base`.
pub open spec fn within_window(q: Seq<TaskControlBlock>, base: u64) -> bool {
    forall|i: int| 0 <= i < q.len() ==> distance(base, #[trigger] q[i].stride) <= HALF_STRIDE
}

/// The choice is a position of the queue.
pub proof fn lemma_pick_in_range(q: Seq<TaskControlBlock>)
    requires
        q.len() > 0,
    ensures
        0 <= pick(q) < q.len(),
    decreases q.len(),
{
    if q.len() > 1 {
        lemma_pick_in_range(q.drop_last());
    }
}

/// Where the strides of the queue span at most half the ring, no thread is
/// behind the chosen one, and the chosen one is strictly behind every thread
/// that stands before it in the queue.
pub proof fn lemma_pick_is_least(q: Seq<TaskControlBlock>, base: u64)
    requires
        q.len() > 0,
        within_window(q, base),
    ensures
        0 <= pick(q) < q.len(),
        forall|j: int|
            0 <= j < q.len() ==> !stride_before(#[trigger] q[j].stride, q[pick(q)].stride),
        forall|j: int|
            0 <= j < pick(q) ==> stride_before(q[pick(q)].stride, #[trigger] q[j].stride),
    decreases q.len(),
{
    if q.len() > 1 {
        let front = q.drop_last();
        assert forall|i: int| 0 <= i < front.len() implies distance(
            base,
            #[trigger] front[i].stride,
        ) <= HALF_STRIDE by {
            assert(front[i] == q[i]);
        }
        lemma_pick_is_least(front, base);
        let best = pick(front);
        assert(front[best] == q[best]);
        assert forall|j: int| 0 <= j < q.len() implies !stride_before(
            #[trigger] q[j].stride,
            q[pick(q)].stride,
        ) by {
            if j < front.len() {
                assert(front[j] == q[j]);
            }
        }
        assert forall|j: int| 0 <= j < pick(q) implies stride_before(
            q[pick(q)].stride,
            #[trigger] q[j].stride,
        ) by {
            assert(front[j] == q[j]);
        }
    }
}

impl TaskManager {
    /// An empty queue.
    pub fn new() -> (manager: Self)
        ensures
            manager@ == Seq::<TaskControlBlock>::empty(),
    {
        TaskManager { ready_queue: Vec::new() }
    }

    /// Number of ready threads.
    pub fn len(&self) -> (n: usize)
        ensures
            n == self@.len(),
    {
        self.ready_queue.len()
    }

    /// Appends `task` to the queue.
    pub fn add(&mut self, task: TaskControlBlock)
        ensures
            final(self)@ == old(self)@.push(task),
    {
        self.ready_queue.push(task);
    }

    /// Takes the thread with the least stride out of the queue; of several
    /// with the least stride, the one nearest the front. An empty queue gives
    /// `None` and stays as it is.
    pub fn fetch(&mut self) -> (task: Option<TaskControlBlock>)
        ensures
            old(self)@.len() == 0 ==> task.is_none() && final(self)@ == old(self)@,
            old(self)@.len() > 0 ==> task == Some(old(self)@[pick(old(self)@)]) && final(self)@
                == old(self)@.remove(pick(old(self)@)),
    {
        let n: usize = self.ready_queue.len();
        if n == 0 {
            return None;
        }
        let mut idx: usize = 0;
        let mut i: usize = 1;
        while i < n
            invariant
                1 <= i <= n,
                n == self.ready_queue@.len(),
                self.ready_queue@ == old(self).ready_queue@,
                idx == pick(self.ready_queue@.take(i as int)),
                idx < i,
            decreases n - i,
        {
            proof {
                let q = self.ready_queue@;
                assert(q.take(i + 1).drop_last() == q.take(i as int));
                assert(q.take(i + 1).last() == q[i as int]);
                assert(q.take(i + 1)[idx as int] == q[idx as int]);
            }
            if stride_is_before(self.ready_queue[i].stride, self.ready_queue[idx].stride) {
                idx = i;
            }
            i = i + 1;
        }
        proof {
            assert(self.ready_queue@.take(n as int) == self.ready_queue@);
        }
        Some(self.ready_queue.remove(idx))
    }

    /// Removes every thread of process `pid` from the queue; the others keep
    /// their order.
    pub fn remove_process(&mut self, pid: usize)
        ensures
            final(self)@ == old(self)@.filter(not_of(pid)),
    {
        let mut kept: Vec<TaskControlBlock> = Vec::new();
        let n: usize = self.ready_queue.len();
        let mut i: usize = 0;
        proof {
            reveal(Seq::filter);
            assert(self.ready_queue@.take(0) == Seq::<TaskControlBlock>::empty());
        }
        while i < n
            invariant
                i <= n,
                n == self.ready_queue@.len(),
                self.ready_queue@ == old(self).ready_queue@,
                kept@ == self.ready_queue@.take(i as int).filter(not_of(pid)),
            decreases n - i,
        {
            proof {
                let q = self.ready_queue@;
                reveal(Seq::filter);
                assert(q.take(i + 1).drop_last() == q.take(i as int));
                assert(q.take(i + 1).last() == q[i as int]);
                assert(not_of(pid)(q[i as int]) == (q[i as int].pid != pid));
            }
            let t = self.ready_queue[i];
            if t.pid != pid {
                kept.push(t);
            }
            i = i + 1;
        }
        proof {
            assert(self.ready_queue@.take(n as int) == self.ready_queue@);
        }
        self.ready_queue = kept;
    }
}

/// Adds a thread to the ready queue.
pub fn add_task(manager: &mut TaskManager, task: TaskControlBlock)
    ensures
        final(manager)@ == old(manager)@.push(task),
{
    manager.add(task);
}

/// Takes the next thread to run out of the ready queue.
pub fn fetch_task(manager: &mut TaskManager) -> (task: Option<TaskControlBlock>)
    ensures
        old(manager)@.len() == 0 ==> task.is_none() && final(manager)@ == old(manager)@,
        old(manager)@.len() > 0 ==> task == Some(old(manager)@[pick(old(manager)@)])
            && final(manager)@ == old(manager)@.remove(pick(old(manager)@)),
{
    manager.fetch()
}

} // verus!
