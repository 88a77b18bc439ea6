//! System calls on processes: their life cycle, identity and priority, and
//! the small calls that report time and thread information.

use vstd::prelude::*;
use crate::fairness::{charged, round};
use crate::kernel::{
    dispatched, lemma_frame_wf, lemma_with_proc_wf, readied, sleeper_not_of, Kernel, KernelView,
};
use crate::manager::{lemma_pick_in_range, not_of, pick};
use crate::process::{lemma_same_content_wf, ProcessView};
use crate::task::{TaskContext, TaskControlBlock, TaskStatus};

pub use crate::task::TaskInfo;

verus! {

/// Size of a page of memory, in bytes.
pub const PAGE_SIZE: usize = 0x1000;

/// A point in time.
#[derive(Debug)]
pub struct TimeVal {
    /// Seconds.
    pub sec: usize,
    /// Microseconds within the second.
    pub usec: usize,
}

/// A request to map memory that passed the checks on its arguments.
#[derive(Debug)]
pub struct MapRequest {
    /// The address at which the area starts; a multiple of the page size.
    pub start: usize,
    /// The length of the area in bytes.
    pub len: usize,
    /// The permissions: a nonempty set of the three lowest bits.
    pub prot: usize,
}

/// `pid` asks for the child `child`: it names it, or is -1 and asks for any.
pub open spec fn wanted(pid: isize, child: usize) -> bool {
    pid == -1 || pid == child
}

/// The arguments of a request to map memory are in order: the start is a
/// multiple of the page size, and the permissions are a nonempty set of the
/// three lowest bits.
pub open spec fn map_args_ok(start: usize, prot: usize) -> bool {
    start % PAGE_SIZE == 0 && 1 <= prot <= 7
}

impl KernelView {
    /// The thread after which the child of a fork is made: the running
    /// thread, with 0 in the register that carries the call's result.
    pub open spec fn fork_template(self) -> TaskControlBlock {
        TaskControlBlock {
            task_cx: TaskContext { ret: 0, ..self.current->0.task_cx },
            ..self.current->0
        }
    }

    /// The kernel after the running thread forked: the child has a copy of
    /// the parent's image and nothing else of it.
    pub open spec fn forked(self) -> KernelView {
        self.born(Some(self.current->0.pid), self.cur_proc().image, self.fork_template())
    }

    /// The thread after which the first thread of a spawned process is made:
    /// a fresh one that starts where the running thread stands in the race.
    pub open spec fn spawn_template(self) -> TaskControlBlock {
        TaskControlBlock { stride: self.current->0.stride, ..TaskControlBlock::fresh(0, 0) }
    }

    /// The kernel after the running thread spawned a process from `image`.
    pub open spec fn spawned(self, image: Seq<u8>) -> KernelView {
        self.born(Some(self.current->0.pid), image, self.spawn_template())
    }

    /// The kernel after the process of the running thread exited with
    /// `code`: the process is a zombie, none of its threads is ready or
    /// sleeps any more, and the scheduler has chosen the next thread.
    pub open spec fn exited(self, code: i32) -> KernelView {
        let pid = self.current->0.pid;
        KernelView {
            procs: self.procs.update(pid as int, Some(self.cur_proc().exited(code))),
            ready: self.ready.filter(not_of(pid)),
            sleepers: self.sleepers.filter(sleeper_not_of(pid)),
            current: None,
        }.run_next()
    }

    /// Some child of the running thread's process is asked for by `pid`.
    pub open spec fn has_wanted(self, pid: isize) -> bool {
        exists|k: int|
            0 <= k < self.cur_proc().children.len() && wanted(
                pid,
                #[trigger] self.cur_proc().children[k],
            )
    }

    /// The child at position `k` is asked for by `pid` and has exited.
    pub open spec fn reapable(self, pid: isize, k: int) -> bool {
        &&& 0 <= k < self.cur_proc().children.len()
        &&& wanted(pid, self.cur_proc().children[k])
        &&& self.procs[self.cur_proc().children[k] as int]->0.zombie
    }

    /// Position of the first child from `from` on that `pid` asks for and
    /// that has exited, or the number of children where there is none.
    pub open spec fn first_reapable(self, pid: isize, from: int) -> int
        decreases self.cur_proc().children.len() - from,
    {
        if from < 0 || from >= self.cur_proc().children.len() {
            self.cur_proc().children.len() as int
        } else if self.reapable(pid, from) {
            from
        } else {
            self.first_reapable(pid, from + 1)
        }
    }

    /// Position of the child that a call with `pid` reaps: the first child
    /// that `pid` asks for and that has exited, if there is one.
    pub open spec fn child_to_reap(self, pid: isize) -> Option<int> {
        let k = self.first_reapable(pid, 0);
        if self.has_wanted(pid) && 0 <= k < self.cur_proc().children.len() {
            Some(k)
        } else {
            None
        }
    }

    /// What a call with `pid` returns: the id of the child that it reaps;
    /// else -2 where `pid` asks for children and none of them has exited,
    /// and -1 where it asks for none.
    pub open spec fn waitpid_result(self, pid: isize) -> int {
        match self.child_to_reap(pid) {
            Some(k) => self.cur_proc().children[k] as int,
            None => if self.has_wanted(pid) {
                -2
            } else {
                -1
            },
        }
    }

    /// The exit code that a call with `pid` stores: that of the child that
    /// it reaps, else what was there `before`.
    pub open spec fn reaped_code(self, pid: isize, before: i32) -> i32 {
        match self.child_to_reap(pid) {
            Some(k) => self.procs[self.cur_proc().children[k] as int]->0.exit_code,
            None => before,
        }
    }

    /// The kernel after a call with `pid`: the child that it reaps is gone,
    /// else nothing has changed.
    pub open spec fn waited(self, pid: isize) -> KernelView {
        match self.child_to_reap(pid) {
            Some(k) => self.reaped(k),
            None => self,
        }
    }

    /// The kernel after the child at position `k` was reaped: it has left
    /// the list of children, and its record is gone.
    pub open spec fn reaped(self, k: int) -> KernelView {
        let p = self.cur_proc();
        KernelView {
            procs: self.procs.update(
                p.pid as int,
                Some(ProcessView { children: p.children.remove(k), ..p }),
            ).update(p.children[k] as int, None),
            ..self
        }
    }
}

/// `first_reapable` is the least position from `from` on of a child that can
/// be reaped.
pub proof fn lemma_first_reapable(k: KernelView, pid: isize, from: int)
    requires
        0 <= from <= k.cur_proc().children.len(),
    ensures
        from <= k.first_reapable(pid, from) <= k.cur_proc().children.len(),
        k.first_reapable(pid, from) < k.cur_proc().children.len() ==> k.reapable(
            pid,
            k.first_reapable(pid, from),
        ),
        forall|j: int| from <= j < k.first_reapable(pid, from) ==> !k.reapable(pid, j),
    decreases k.cur_proc().children.len() - from,
{
    if from < k.cur_proc().children.len() && !k.reapable(pid, from) {
        lemma_first_reapable(k, pid, from + 1);
    }
}

/// A process that has exited is referred to by no thread: none of its id
/// runs, is ready or sleeps. So when its parent takes it off its list of
/// children, nothing else holds on to it.
pub proof fn lemma_zombie_unreferenced(k: KernelView, pid: int)
    requires
        k.wf(),
        k.has_process(pid),
        k.procs[pid]->0.zombie,
    ensures
        k.current is Some ==> k.current->0.pid != pid,
        forall|i: int| 0 <= i < k.ready.len() ==> (#[trigger] k.ready[i]).pid != pid,
        forall|i: int| 0 <= i < k.sleepers.len() ==> (#[trigger] k.sleepers[i]).task.pid != pid,
{
    assert(k.procs[pid]->0.tasks.len() == 0);
    if k.current is Some {
        assert(k.runnable(k.current->0));
    }
    assert forall|i: int| 0 <= i < k.ready.len() implies (#[trigger] k.ready[i]).pid != pid by {
        assert(k.runnable(k.ready[i]));
    }
    assert forall|i: int| 0 <= i < k.sleepers.len() implies (#[trigger] k.sleepers[i]).task.pid
        != pid by {
        assert(k.runnable(k.sleepers[i].task));
    }
}

/// A call to yield is one round of the scheduler on the threads that can
/// run: the ready queue with the running thread at its back. The thread that
/// runs afterwards is the one that the round chose and charged.
pub proof fn lemma_yield_is_round(k: KernelView)
    requires
        k.running(),
        k.current->0.awaits is None,
        forall|i: int|
            0 <= i < k.ready.len() ==> (#[trigger] k.ready[i]).task_status == TaskStatus::Ready
                && k.ready[i].awaits is None,
    ensures
        k.yielded().running(),
        k.yielded().ready.push(readied(k.yielded().current->0))
            == round(k.ready.push(readied(k.current->0))),
{
    let q = k.ready.push(readied(k.current->0));
    lemma_pick_in_range(q);
    let p = pick(q);
    assert(q[p].task_status == TaskStatus::Ready && q[p].awaits is None);
    assert(readied(dispatched(q[p])) == charged(q[p]));
}

/// After a fork the child's thread is ready with 0 in the register that
/// carries the call's result, while the child's id, which the parent gets as
/// the result, is the next id that was never used: the two differ whenever
/// the child is not the first process.
pub proof fn lemma_fork_asymmetry(k: KernelView)
    requires
        k.wf(),
        k.running(),
    ensures
        k.forked().ready.last().pid == k.procs.len(),
        k.forked().ready.last().pid != k.current->0.pid,
        k.forked().ready.last().task_cx.ret == 0,
        k.forked().current == k.current,
        k.forked().procs.last() == Some(
            ProcessView::fresh(
                k.procs.len() as usize,
                Some(k.current->0.pid),
                k.cur_proc().image,
            ),
        ),
{
    assert(k.runnable(k.current->0));
}

/// Once the only child of a process has been reaped, no child is left that
/// any `pid` could ask for.
pub proof fn lemma_only_child_reaped(k: KernelView, pid: isize)
    requires
        k.wf(),
        k.running(),
        k.cur_proc().children.len() == 1,
        k.procs[k.cur_proc().children[0] as int]->0.zombie,
    ensures
        !k.reaped(0).has_wanted(pid),
{
    lemma_reaped_wf(k, 0);
    assert(k.runnable(k.current->0));
    assert(k.reaped(0).cur_proc().children.len() == 0);
}

/// Reaping a child that has exited keeps the kernel well formed.
pub proof fn lemma_reaped_wf(k: KernelView, idx: int)
    requires
        k.wf(),
        k.running(),
        0 <= idx < k.cur_proc().children.len(),
        k.procs[k.cur_proc().children[idx] as int]->0.zombie,
    ensures
        k.reaped(idx).wf(),
        k.cur_proc().children[idx] != k.current->0.pid,
{
    let q = k.reaped(idx);
    let cur = k.current->0;
    let p = k.cur_proc();
    let child = p.children[idx];
    assert(k.runnable(cur));
    assert(k.has_process(cur.pid as int));
    assert(k.is_child(cur.pid as int, child));
    assert(k.has_process(child as int));
    assert(k.procs[child as int]->0.tasks.len() == 0);
    assert(child != cur.pid);
    let changed = ProcessView { children: p.children.remove(idx), ..p };
    lemma_same_content_wf(p, changed);
    assert(changed.wf());
    assert forall|t: TaskControlBlock| k.runnable(t) implies q.runnable(t) by {
        assert(t.pid != child);
    }
    assert forall|x: int| #[trigger] q.has_process(x) implies q.procs[x]->0.pid == x
        && q.procs[x]->0.wf() && q.procs[x]->0.children.no_duplicates() by {
        assert(k.has_process(x));
        if x == cur.pid {
            assert forall|i: int, j: int|
                0 <= i < changed.children.len() && 0 <= j < changed.children.len() && i != j
                    implies changed.children[i] != changed.children[j] by {
                let i0 = if i < idx {
                    i
                } else {
                    i + 1
                };
                let j0 = if j < idx {
                    j
                } else {
                    j + 1
                };
                assert(changed.children[i] == p.children[i0]);
                assert(changed.children[j] == p.children[j0]);
            }
        }
    }
    assert forall|x: int, j: int|
        q.has_process(x) && 0 <= j < q.procs[x]->0.children.len() implies q.is_child(
        x,
        #[trigger] q.procs[x]->0.children[j],
    ) by {
        assert(k.has_process(x));
        if x == cur.pid {
            let j0 = if j < idx {
                j
            } else {
                j + 1
            };
            assert(changed.children[j] == p.children[j0]);
            assert(k.is_child(x, p.children[j0]));
            assert(p.children[j0] != child);
        } else {
            let c = k.procs[x]->0.children[j];
            assert(k.is_child(x, c));
            assert(c != child);
        }
    }
    assert forall|i: int| 0 <= i < q.ready.len() implies q.runnable(#[trigger] q.ready[i]) by {
        assert(k.runnable(k.ready[i]));
    }
    assert forall|i: int| 0 <= i < q.sleepers.len() implies q.runnable(
        (#[trigger] q.sleepers[i]).task,
    ) by {
        assert(k.runnable(k.sleepers[i].task));
    }
}

/// After a process has exited and its threads have left the ready queue and
/// the sleepers, the kernel is well formed.
pub proof fn lemma_exit_wf(k: KernelView, code: i32)
    requires
        k.wf(),
        k.running(),
        k.cur_proc().exited(code).wf(),
    ensures
        (KernelView {
            procs: k.procs.update(k.current->0.pid as int, Some(k.cur_proc().exited(code))),
            ready: k.ready.filter(not_of(k.current->0.pid)),
            sleepers: k.sleepers.filter(sleeper_not_of(k.current->0.pid)),
            current: None,
        }).wf(),
{
    let pid = k.current->0.pid;
    let q = KernelView {
        procs: k.procs.update(pid as int, Some(k.cur_proc().exited(code))),
        ready: k.ready.filter(not_of(pid)),
        sleepers: k.sleepers.filter(sleeper_not_of(pid)),
        current: None,
    };
    assert(k.runnable(k.current->0));
    assert forall|t: TaskControlBlock| k.runnable(t) && t.pid != pid implies q.runnable(t) by {}
    assert forall|x: int| #[trigger] q.has_process(x) implies q.procs[x]->0.pid == x
        && q.procs[x]->0.wf() && q.procs[x]->0.children.no_duplicates() by {
        assert(k.has_process(x));
    }
    assert forall|x: int, j: int|
        q.has_process(x) && 0 <= j < q.procs[x]->0.children.len() implies q.is_child(
        x,
        #[trigger] q.procs[x]->0.children[j],
    ) by {
        assert(k.has_process(x));
        assert(k.is_child(x, k.procs[x]->0.children[j]));
    }
    assert forall|i: int| 0 <= i < q.ready.len() implies q.runnable(#[trigger] q.ready[i]) by {
        k.ready.lemma_filter_pred(not_of(pid), i);
        k.ready.lemma_filter_contains_rev(not_of(pid), q.ready[i]);
        let j = choose|j: int| 0 <= j < k.ready.len() && k.ready[j] == q.ready[i];
        assert(k.runnable(k.ready[j]));
    }
    assert forall|i: int| 0 <= i < q.sleepers.len() implies q.runnable(
        (#[trigger] q.sleepers[i]).task,
    ) by {
        k.sleepers.lemma_filter_pred(sleeper_not_of(pid), i);
        k.sleepers.lemma_filter_contains_rev(sleeper_not_of(pid), q.sleepers[i]);
        let j = choose|j: int| 0 <= j < k.sleepers.len() && k.sleepers[j] == q.sleepers[i];
        assert(k.runnable(k.sleepers[j].task));
    }
}

/// A copy of `bytes`.
fn copy_bytes(bytes: &Vec<u8>) -> (copy: Vec<u8>)
    ensures
        copy@ == bytes@,
{
    let n: usize = bytes.len();
    let mut copy: Vec<u8> = Vec::new();
    let mut i: usize = 0;
    while i < n
        invariant
            i <= n,
            n == bytes@.len(),
            copy@ == bytes@.take(i as int),
        decreases n - i,
    {
        copy.push(bytes[i]);
        assert(bytes@.take(i + 1) =~= bytes@.take(i as int).push(bytes@[i as int]));
        i = i + 1;
    }
    assert(bytes@.take(n as int) =~= bytes@);
    copy
}

/// Ends the process of the running thread with `exit_code`: it becomes a
/// zombie that keeps its code until its parent reaps it, its threads are
/// gone from the ready queue and the sleepers, and the scheduler chooses the
/// next thread. The caller does not run again.
pub fn sys_exit(kernel: &mut Kernel, exit_code: i32)
    requires
        old(kernel).wf(),
        old(kernel)@.running(),
    ensures
        final(kernel).wf(),
        final(kernel)@ == old(kernel)@.exited(exit_code),
{
    let ghost before = kernel@;
    match kernel.current {
        Some(cur) => {
            assert(before.runnable(cur));
            match &mut kernel.procs[cur.pid] {
                Some(p) => p.exit(exit_code),
                None => {},
            }
            kernel.manager.remove_process(cur.pid);
            kernel.drop_sleepers(cur.pid);
            kernel.current = None;
            proof {
                lemma_exit_wf(before, exit_code);
                assert(kernel@.procs =~= before.procs.update(
                    cur.pid as int,
                    Some(before.cur_proc().exited(exit_code)),
                ));
            }
            kernel.run_next();
        },
        None => {},
    }
}

/// The running thread gives the processor up and stays ready; the scheduler
/// chooses the next thread. Returns 0.
pub fn sys_yield(kernel: &mut Kernel) -> (r: isize)
    requires
        old(kernel).wf(),
        old(kernel)@.running(),
    ensures
        final(kernel).wf(),
        r == 0,
        final(kernel)@ == old(kernel)@.yielded(),
{
    kernel.suspend_current_and_run_next();
    0
}

/// Returns the id of the running thread's process.
pub fn sys_getpid(kernel: &Kernel) -> (r: isize)
    requires
        kernel.wf(),
        kernel@.running(),
    ensures
        r == kernel@.current->0.pid,
{
    match kernel.current {
        Some(cur) => {
            assert(kernel@.runnable(cur));
            cur.pid as isize
        },
        None => 0,
    }
}

/// Forks the process of the running thread. The child gets the next id that
/// was never used, a copy of the parent's image, no primitives, and one
/// thread, which is a copy of the caller that will see 0 as the result of
/// this call; it stands at the end of the parent's children, and its thread
/// at the back of the ready queue. Returns the child's id.
pub fn sys_fork(kernel: &mut Kernel) -> (r: isize)
    requires
        old(kernel).wf(),
        old(kernel)@.running(),
        old(kernel)@.procs.len() < isize::MAX,
    ensures
        final(kernel).wf(),
        r == old(kernel)@.procs.len(),
        final(kernel)@ == old(kernel)@.forked(),
{
    let ghost before = kernel@;
    match kernel.current {
        Some(cur) => {
            assert(before.runnable(cur));
            let image = match &kernel.procs[cur.pid] {
                Some(p) => copy_bytes(&p.memory_set.image),
                None => Vec::new(),
            };
            let mut template = cur;
            template.task_cx.ret = 0;
            let pid = kernel.adopt(Some(cur.pid), image, template);
            pid as isize
        },
        None => 0,
    }
}

/// Replaces the image of the running thread's process by `image`, the
/// program that was loaded for the call. Where none could be loaded, nothing
/// changes and -1 is returned; else the process keeps its id and its family
/// and 0 is returned.
pub fn sys_exec(kernel: &mut Kernel, image: Option<Vec<u8>>) -> (r: isize)
    requires
        old(kernel).wf(),
        old(kernel)@.running(),
    ensures
        final(kernel).wf(),
        image is None ==> r == -1 && final(kernel)@ == old(kernel)@,
        image is Some ==> r == 0 && final(kernel)@ == old(kernel)@.with_proc(
            ProcessView { image: image->0@, ..old(kernel)@.cur_proc() },
        ),
{
    let ghost before = kernel@;
    match image {
        Some(data) => {
            match kernel.current {
                Some(cur) => {
                    assert(before.runnable(cur));
                    match &mut kernel.procs[cur.pid] {
                        Some(p) => p.set_image(data),
                        None => {},
                    }
                    proof {
                        let changed = ProcessView { image: data@, ..before.cur_proc() };
                        assert(kernel@.procs =~= before.with_proc(changed).procs);
                        assert(kernel@ =~= before.with_proc(changed));
                        lemma_with_proc_wf(before, changed);
                    }
                },
                None => {},
            }
            0
        },
        None => -1,
    }
}

/// Looks for a child that has exited and reaps it; it does not wait.
///
/// Where `pid` asks for no child of the running thread's process, -1 is
/// returned. Where it asks for children and none of them has exited, -2 is
/// returned. In both cases nothing changes. Else the first such child in the
/// list of children is reaped: it leaves the list, its record is gone, its
/// exit code is stored in `exit_code`, and its id is returned.
pub fn sys_waitpid(kernel: &mut Kernel, pid: isize, exit_code: &mut i32) -> (r: isize)
    requires
        old(kernel).wf(),
        old(kernel)@.running(),
    ensures
        final(kernel).wf(),
        r == old(kernel)@.waitpid_result(pid),
        final(kernel)@ == old(kernel)@.waited(pid),
        *final(exit_code) == old(kernel)@.reaped_code(pid, *old(exit_code)),
        final(kernel)@.current == old(kernel)@.current,
{
    let ghost before = kernel@;
    proof {
        lemma_first_reapable(before, pid, 0);
    }
    match kernel.current {
        Some(cur) => {
            assert(before.runnable(cur));
            assert(before.has_process(cur.pid as int));
            let mut any: bool = false;
            let mut idx: usize = 0;
            let mut found: bool = false;
            let n: usize = match &kernel.procs[cur.pid] {
                Some(p) => p.children.len(),
                None => 0,
            };
            let mut k: usize = 0;
            while k < n
                invariant
                    k <= n,
                    kernel@ == before,
                    before.wf(),
                    before.current == Some(cur),
                    before.has_process(cur.pid as int),
                    n == before.cur_proc().children.len(),
                    any <==> exists|j: int|
                        0 <= j < k && wanted(pid, #[trigger] before.cur_proc().children[j]),
                    !found ==> forall|j: int| 0 <= j < k ==> !before.reapable(pid, j),
                    found ==> idx < k && before.reapable(pid, idx as int) && forall|j: int|
                        0 <= j < idx ==> !before.reapable(pid, j),
                decreases n - k,
            {
                let child: usize = match &kernel.procs[cur.pid] {
                    Some(p) => p.children[k],
                    None => 0,
                };
                assert(child == before.cur_proc().children[k as int]);
                assert(before.is_child(cur.pid as int, before.cur_proc().children[k as int]));
                if pid == -1 || (pid >= 0 && pid as usize == child) {
                    assert(wanted(pid, before.cur_proc().children[k as int]));
                    any = true;
                    let zombie: bool = match &kernel.procs[child] {
                        Some(c) => c.is_zombie,
                        None => false,
                    };
                    if zombie && !found {
                        found = true;
                        idx = k;
                    }
                }
                k = k + 1;
            }
            proof {
                if found {
                    lemma_first_reapable_is(before, pid, 0, idx as int);
                } else {
                    lemma_first_reapable_is(before, pid, 0, n as int);
                }
            }
            if !any {
                return -1;
            }
            assert(before.has_wanted(pid));
            if !found {
                return -2;
            }
            let child: usize = match &kernel.procs[cur.pid] {
                Some(p) => p.children[idx],
                None => 0,
            };
            assert(before.is_child(cur.pid as int, before.cur_proc().children[idx as int]));
            let code: i32 = match &kernel.procs[child] {
                Some(c) => c.exit_code,
                None => 0,
            };
            proof {
                lemma_reaped_wf(before, idx as int);
            }
            match &mut kernel.procs[cur.pid] {
                Some(p) => {
                    p.children.remove(idx);
                },
                None => {},
            }
            kernel.procs.set(child, None);
            proof {
                assert(kernel@.procs =~= before.reaped(idx as int).procs);
                assert(kernel@ =~= before.reaped(idx as int));
            }
            *exit_code = code;
            child as isize
        },
        None => -1,
    }
}

/// A position before which no child can be reaped, and which is the number
/// of children or holds a child that can be, is the first such position.
pub proof fn lemma_first_reapable_is(k: KernelView, pid: isize, from: int, idx: int)
    requires
        0 <= from <= idx <= k.cur_proc().children.len(),
        forall|j: int| from <= j < idx ==> !k.reapable(pid, j),
        idx < k.cur_proc().children.len() ==> k.reapable(pid, idx),
    ensures
        k.first_reapable(pid, from) == idx,
    decreases idx - from,
{
    if from < idx {
        lemma_first_reapable_is(k, pid, from + 1, idx);
    }
}

/// Fills in `ts` from `time_us`, the microseconds that have passed: whole
/// seconds and the microseconds left over. Returns 0.
pub fn sys_get_time(time_us: usize, ts: &mut TimeVal, _tz: usize) -> (r: isize)
    ensures
        r == 0,
        final(ts).sec == time_us / 1000000,
        final(ts).usec == time_us % 1000000,
{
    ts.sec = time_us / 1000000;
    ts.usec = time_us % 1000000;
    0
}

/// Copies what the running thread can learn about itself to `ti`. Returns 0.
pub fn sys_task_info(kernel: &Kernel, ti: &mut TaskInfo) -> (r: isize)
    requires
        kernel@.running(),
    ensures
        r == 0,
        *final(ti) == kernel@.current->0.task_info,
{
    match kernel.current {
        Some(cur) => {
            *ti = cur.task_info;
        },
        None => {},
    }
    0
}

/// Checks the arguments of a request to map `len` bytes at `start` with the
/// permissions `prot`. A start that is no multiple of the page size, no
/// permission at all, or a bit beyond the three lowest is refused with -1.
/// Else the request is handed back to be carried out.
pub fn sys_mmap(start: usize, len: usize, prot: usize) -> (r: Result<MapRequest, isize>)
    ensures
        map_args_ok(start, prot) ==> r == Ok::<MapRequest, isize>(MapRequest { start, len, prot }),
        !map_args_ok(start, prot) ==> r == Err::<MapRequest, isize>(-1isize),
{
    if start % PAGE_SIZE != 0 || prot == 0 || prot > 7 {
        return Err(-1);
    }
    Ok(MapRequest { start, len, prot })
}

/// Turns the answer to a request to move the end of the data segment into
/// the call's result: the old end, or -1 where the request was refused.
pub fn sys_sbrk(old_brk: Option<usize>) -> (r: isize)
    requires
        old_brk is Some ==> old_brk->0 <= isize::MAX,
    ensures
        old_brk is Some ==> r == old_brk->0,
        old_brk is None ==> r == -1,
{
    match old_brk {
        Some(brk) => brk as isize,
        None => -1,
    }
}

/// Makes a new process from `image`, the program that was loaded for the
/// call. Where none could be loaded, nothing changes and -1 is returned.
/// Else the process gets the next id that was never used and one fresh
/// thread, which starts where the caller stands in the race; it stands at the
/// end of the caller's children, and its thread at the back of the ready
/// queue. Returns the id.
pub fn sys_spawn(kernel: &mut Kernel, image: Option<Vec<u8>>) -> (r: isize)
    requires
        old(kernel).wf(),
        old(kernel)@.running(),
        image is Some ==> old(kernel)@.procs.len() < isize::MAX,
    ensures
        final(kernel).wf(),
        image is None ==> r == -1 && final(kernel)@ == old(kernel)@,
        image is Some ==> r == old(kernel)@.procs.len(),
        image is Some ==> final(kernel)@ == old(kernel)@.spawned(image->0@),
{
    let ghost before = kernel@;
    match image {
        Some(data) => {
            match kernel.current {
                Some(cur) => {
                    assert(before.runnable(cur));
                    let mut template = TaskControlBlock::new(0, 0);
                    template.stride = cur.stride;
                    let pid = kernel.adopt(Some(cur.pid), data, template);
                    pid as isize
                },
                None => -1,
            }
        },
        None => -1,
    }
}

/// Sets the priority of the running thread to `prio` and returns it. A
/// priority of 1 or less is refused: -1 is returned and nothing changes.
pub fn sys_set_priority(kernel: &mut Kernel, prio: isize) -> (r: isize)
    requires
        old(kernel).wf(),
        old(kernel)@.running(),
    ensures
        final(kernel).wf(),
        prio <= 1 ==> r == -1 && final(kernel)@ == old(kernel)@,
        prio > 1 ==> r == prio && final(kernel)@ == (KernelView {
            current: Some(
                TaskControlBlock { priority: prio as usize, ..old(kernel)@.current->0 },
            ),
            ..old(kernel)@
        }),
{
    if prio <= 1 {
        return -1;
    }
    let ghost before = kernel@;
    match kernel.current {
        Some(cur) => {
            assert(before.runnable(cur));
            let mut task = cur;
            task.set_priority(prio as usize);
            kernel.current = Some(task);
            proof {
                assert(before.runnable(task));
                assert forall|i: int| 0 <= i < kernel@.ready.len() implies before.runnable(
                    #[trigger] kernel@.ready[i],
                ) by {
                    assert(before.runnable(before.ready[i]));
                }
                assert forall|i: int| 0 <= i < kernel@.sleepers.len() implies before.runnable(
                    (#[trigger] kernel@.sleepers[i]).task,
                ) by {
                    assert(before.runnable(before.sleepers[i].task));
                }
                lemma_frame_wf(before, kernel@);
            }
        },
        None => {},
    }
    prio
}

} // verus!
