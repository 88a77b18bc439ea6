//! The resource tables of a thread: for each resource of one kind, how many
//! units the thread has asked for and not yet got, and how many it holds.

use vstd::prelude::*;

verus! {

/// What a thread asks of and holds from the resources of one kind.
pub struct Demand {
    /// Units asked for and not yet granted, by resource id.
    pub need: Seq<nat>,
    /// Units granted and not yet given back, by resource id.
    pub held: Seq<nat>,
}

/// What a thread asks of and holds from the mutexes and the semaphores of
/// its process.
pub struct ThreadView {
    /// Demand on the mutexes.
    pub mutex: Demand,
    /// Demand on the semaphores.
    pub semaphore: Demand,
}

/// The tables of one thread for one kind of resource.
pub struct ResourceTable {
    need: Vec<usize>,
    held: Vec<usize>,
}

/// The tables of one thread: one pair for mutexes, one for semaphores.
pub struct ThreadRecord {
    /// Demand on the mutexes of the process.
    pub mutex: ResourceTable,
    /// Demand on the semaphores of the process.
    pub semaphore: ResourceTable,
}

/// The two kinds of resource whose use is tracked.
#[derive(Clone, Copy, Debug, PartialEq, Eq, Structural)]
pub enum ResourceKind {
    /// A mutex: one unit.
    Mutex,
    /// A counting semaphore.
    Semaphore,
}

/// The four things that can happen to an entry of a thread's tables.
#[derive(Clone, Copy, Debug, PartialEq, Eq, Structural)]
pub enum TableOp {
    /// One more unit is asked for.
    Request,
    /// A request is taken back.
    Cancel,
    /// A unit that was asked for is now held.
    Settle,
    /// A unit is given back.
    Release,
}

/// The demand `d` after `op` on resource `id`.
pub open spec fn applied(op: TableOp, d: Demand, id: int) -> Demand {
    match op {
        TableOp::Request => d.request(id),
        TableOp::Cancel => d.cancel(id),
        TableOp::Settle => d.settle(id),
        TableOp::Release => d.release(id),
    }
}

impl Demand {
    /// Both tables cover the same resources, and no entry pair is so large
    /// that moving a unit from one table to the other could overflow.
    pub open spec fn wf(self) -> bool {
        &&& self.need.len() == self.held.len()
        &&& forall|r: int|
            0 <= r < self.need.len() ==> #[trigger] self.need[r] + self.held[r] <= usize::MAX
    }

    /// Nothing asked for and nothing held, for `n` resources.
    pub open spec fn idle(n: nat) -> Demand {
        Demand { need: Seq::new(n, |r: int| 0nat), held: Seq::new(n, |r: int| 0nat) }
    }

    /// Room for one more resource.
    pub open spec fn grown(self) -> Demand {
        Demand { need: self.need.push(0), held: self.held.push(0) }
    }

    /// One more unit of resource `id` is asked for.
    pub open spec fn request(self, id: int) -> Demand {
        Demand { need: self.need.update(id, self.need[id] + 1), held: self.held }
    }

    /// One request for resource `id` is taken back.
    pub open spec fn cancel(self, id: int) -> Demand {
        Demand { need: self.need.update(id, (self.need[id] - 1) as nat), held: self.held }
    }

    /// A unit of resource `id` that was asked for is now held. Nothing
    /// changes where none was asked for.
    pub open spec fn settle(self, id: int) -> Demand {
        if self.need[id] > 0 {
            Demand {
                need: self.need.update(id, (self.need[id] - 1) as nat),
                held: self.held.update(id, self.held[id] + 1),
            }
        } else {
            self
        }
    }

    /// One unit of resource `id` is given back. A thread that holds none
    /// still holds none.
    pub open spec fn release(self, id: int) -> Demand {
        Demand {
            need: self.need,
            held: self.held.update(
                id,
                if self.held[id] > 0 {
                    (self.held[id] - 1) as nat
                } else {
                    0
                },
            ),
        }
    }
}

/// An operation on an entry that is there keeps a demand well formed and
/// as long as it was.
pub proof fn lemma_applied_wf(op: TableOp, d: Demand, id: int)
    requires
        d.wf(),
        0 <= id < d.need.len(),
        op == TableOp::Request ==> d.need[id] + d.held[id] < usize::MAX,
        op == TableOp::Cancel ==> d.need[id] > 0,
    ensures
        applied(op, d, id).wf(),
        applied(op, d, id).need.len() == d.need.len(),
        applied(op, d, id).held.len() == d.held.len(),
{
    let e = applied(op, d, id);
    assert forall|r: int| 0 <= r < e.need.len() implies #[trigger] e.need[r] + e.held[r]
        <= usize::MAX by {
        assert(d.need[r] + d.held[r] <= usize::MAX);
    }
}

impl ThreadView {
    /// Both demands are well formed.
    pub open spec fn wf(self) -> bool {
        self.mutex.wf() && self.semaphore.wf()
    }

    /// The demand on the resources of `kind`.
    pub open spec fn demand(self, kind: ResourceKind) -> Demand {
        match kind {
            ResourceKind::Mutex => self.mutex,
            ResourceKind::Semaphore => self.semaphore,
        }
    }

    /// The thread with its demand on the resources of `kind` replaced.
    pub open spec fn with_demand(self, kind: ResourceKind, d: Demand) -> ThreadView {
        match kind {
            ResourceKind::Mutex => ThreadView { mutex: d, ..self },
            ResourceKind::Semaphore => ThreadView { semaphore: d, ..self },
        }
    }
}

impl View for ResourceTable {
    type V = Demand;

    closed spec fn view(&self) -> Demand {
        Demand {
            need: Seq::new(self.need@.len(), |r: int| self.need@[r] as nat),
            held: Seq::new(self.held@.len(), |r: int| self.held@[r] as nat),
        }
    }
}

impl ResourceTable {
    /// The demand that the tables record is well formed.
    pub open spec fn wf(&self) -> bool {
        self@.wf()
    }

    /// Tables for `n` resources, with nothing asked for and nothing held.
    pub fn new(n: usize) -> (table: Self)
        ensures
            table.wf(),
            table@ == Demand::idle(n as nat),
    {
        let mut need: Vec<usize> = Vec::new();
        let mut held: Vec<usize> = Vec::new();
        let mut i: usize = 0;
        while i < n
            invariant
                i <= n,
                need@.len() == i,
                held@.len() == i,
                forall|r: int| 0 <= r < i ==> need@[r] == 0 && held@[r] == 0,
            decreases n - i,
        {
            need.push(0);
            held.push(0);
            i = i + 1;
        }
        let table = ResourceTable { need, held };
        assert(table@.need =~= Demand::idle(n as nat).need);
        assert(table@.held =~= Demand::idle(n as nat).held);
        table
    }

    /// Number of resources that the tables cover.
    pub fn len(&self) -> (n: usize)
        requires
            self.wf(),
        ensures
            n == self@.need.len(),
            n == self@.held.len(),
    {
        self.need.len()
    }

    /// Units of resource `id` asked for and not yet granted.
    pub fn needed(&self, id: usize) -> (n: usize)
        requires
            id < self@.need.len(),
        ensures
            n == self@.need[id as int],
    {
        self.need[id]
    }

    /// Units of resource `id` that the thread holds.
    pub fn holding(&self, id: usize) -> (n: usize)
        requires
            id < self@.held.len(),
        ensures
            n == self@.held[id as int],
    {
        self.held[id]
    }

    /// Makes room for one more resource, with nothing asked and nothing held.
    pub fn grow(&mut self)
        requires
            old(self).wf(),
        ensures
            final(self).wf(),
            final(self)@ == old(self)@.grown(),
    {
        self.need.push(0);
        self.held.push(0);
        assert(self@.need =~= old(self)@.need.push(0));
        assert(self@.held =~= old(self)@.held.push(0));
        assert forall|r: int| 0 <= r < self@.need.len() implies #[trigger] self@.need[r]
            + self@.held[r] <= usize::MAX by {
            if r < old(self)@.need.len() {
                assert(old(self)@.need[r] + old(self)@.held[r] <= usize::MAX);
            }
        }
    }

    /// Whether one more unit of resource `id` can be recorded.
    pub fn has_room(&self, id: usize) -> (r: bool)
        requires
            self.wf(),
            id < self@.need.len(),
        ensures
            r == (self@.need[id as int] + self@.held[id as int] < usize::MAX),
    {
        self.need[id] < usize::MAX - self.held[id]
    }

    /// Records that the thread asks for one more unit of resource `id`.
    pub fn request(&mut self, id: usize)
        requires
            old(self).wf(),
            id < old(self)@.need.len(),
            old(self)@.need[id as int] + old(self)@.held[id as int] < usize::MAX,
        ensures
            final(self).wf(),
            final(self)@ == old(self)@.request(id as int),
    {
        let n: usize = self.need[id];
        self.need.set(id, n + 1);
        assert(self@.need =~= old(self)@.request(id as int).need);
        assert(self@.held =~= old(self)@.held);
        assert forall|r: int| 0 <= r < self@.need.len() implies #[trigger] self@.need[r]
            + self@.held[r] <= usize::MAX by {
            assert(old(self)@.need[r] + old(self)@.held[r] <= usize::MAX);
        }
    }

    /// Takes back a request for one unit of resource `id`.
    pub fn cancel(&mut self, id: usize)
        requires
            old(self).wf(),
            id < old(self)@.need.len(),
            old(self)@.need[id as int] > 0,
        ensures
            final(self).wf(),
            final(self)@ == old(self)@.cancel(id as int),
    {
        let n: usize = self.need[id];
        self.need.set(id, n - 1);
        assert(self@.need =~= old(self)@.cancel(id as int).need);
        assert(self@.held =~= old(self)@.held);
        assert forall|r: int| 0 <= r < self@.need.len() implies #[trigger] self@.need[r]
            + self@.held[r] <= usize::MAX by {
            assert(old(self)@.need[r] + old(self)@.held[r] <= usize::MAX);
        }
    }

    /// Moves one unit of resource `id` from asked-for to held, where one was
    /// asked for.
    pub fn settle(&mut self, id: usize)
        requires
            old(self).wf(),
            id < old(self)@.need.len(),
        ensures
            final(self).wf(),
            final(self)@ == old(self)@.settle(id as int),
    {
        let n: usize = self.need[id];
        let h: usize = self.held[id];
        assert(old(self)@.need[id as int] + old(self)@.held[id as int] <= usize::MAX);
        if n > 0 {
            self.need.set(id, n - 1);
            self.held.set(id, h + 1);
        }
        assert(self@.need =~= old(self)@.settle(id as int).need);
        assert(self@.held =~= old(self)@.settle(id as int).held);
        assert forall|r: int| 0 <= r < self@.need.len() implies #[trigger] self@.need[r]
            + self@.held[r] <= usize::MAX by {
            assert(old(self)@.need[r] + old(self)@.held[r] <= usize::MAX);
        }
    }

    /// Does `op` to the entry of resource `id`.
    pub fn apply(&mut self, op: TableOp, id: usize)
        requires
            old(self).wf(),
            id < old(self)@.need.len(),
            op == TableOp::Request ==> old(self)@.need[id as int] + old(self)@.held[id as int]
                < usize::MAX,
            op == TableOp::Cancel ==> old(self)@.need[id as int] > 0,
        ensures
            final(self).wf(),
            final(self)@ == applied(op, old(self)@, id as int),
            final(self)@.need.len() == old(self)@.need.len(),
    {
        match op {
            TableOp::Request => self.request(id),
            TableOp::Cancel => self.cancel(id),
            TableOp::Settle => self.settle(id),
            TableOp::Release => self.release(id),
        }
    }

    /// Gives back one unit of resource `id`. A thread that holds none still
    /// holds none.
    pub fn release(&mut self, id: usize)
        requires
            old(self).wf(),
            id < old(self)@.held.len(),
        ensures
            final(self).wf(),
            final(self)@ == old(self)@.release(id as int),
    {
        let h: usize = self.held[id];
        if h > 0 {
            self.held.set(id, h - 1);
        }
        assert(self@.need =~= old(self)@.need);
        assert(self@.held =~= old(self)@.release(id as int).held);
        assert forall|r: int| 0 <= r < self@.need.len() implies #[trigger] self@.need[r]
            + self@.held[r] <= usize::MAX by {
            assert(old(self)@.need[r] + old(self)@.held[r] <= usize::MAX);
        }
    }
}

impl View for ThreadRecord {
    type V = ThreadView;

    open spec fn view(&self) -> ThreadView {
        ThreadView { mutex: self.mutex@, semaphore: self.semaphore@ }
    }
}

impl ThreadRecord {
    /// Both pairs of tables are well formed.
    pub open spec fn wf(&self) -> bool {
        self@.wf()
    }

    /// The record of a thread in a process with `mutexes` mutexes and
    /// `semaphores` semaphores: it asks for nothing and holds nothing.
    pub fn new(mutexes: usize, semaphores: usize) -> (record: Self)
        ensures
            record.wf(),
            record@.mutex == Demand::idle(mutexes as nat),
            record@.semaphore == Demand::idle(semaphores as nat),
    {
        ThreadRecord {
            mutex: ResourceTable::new(mutexes),
            semaphore: ResourceTable::new(semaphores),
        }
    }

    /// The tables for the resources of `kind`.
    pub fn table(&self, kind: ResourceKind) -> (table: &ResourceTable)
        ensures
            table@ == self@.demand(kind),
    {
        match kind {
            ResourceKind::Mutex => &self.mutex,
            ResourceKind::Semaphore => &self.semaphore,
        }
    }
}

} // verus!
