//! The thread record and the small types it is made of.

use vstd::prelude::*;
use crate::demand::ResourceKind;
use crate::stride::{stride_advance, advanced, pass_of, DEFAULT_PRIORITY, MIN_PRIORITY};

verus! {

/// Number of distinct system calls that a thread's record counts.
pub const MAX_SYSCALL_NUM: usize = 500;

/// Where a thread stands in its life.
#[derive(Clone, Copy, Debug, PartialEq, Eq, Structural)]
pub enum TaskStatus {
    /// Waiting in the ready queue for the processor.
    Ready,
    /// Holding the processor.
    Running,
    /// Parked on a primitive or a timer until something wakes it.
    Blocked,
    /// Finished; it never runs again.
    Zombie,
}

/// The registers saved for a thread while it does not run. The kernel core
/// writes only `ret`, the register in which a call's result is handed back.
#[derive(Clone, Copy, Debug, PartialEq, Eq, Structural)]
pub struct TaskContext {
    /// Address at which the thread resumes.
    pub ra: usize,
    /// Its stack pointer.
    pub sp: usize,
    /// The register that carries a system call's result.
    pub ret: usize,
}

impl TaskContext {
    /// A context with every register cleared.
    pub fn zero_init() -> (cx: Self)
        ensures
            cx == (TaskContext { ra: 0, sp: 0, ret: 0 }),
    {
        TaskContext { ra: 0, sp: 0, ret: 0 }
    }
}

/// What a thread can learn about itself.
#[derive(Clone, Copy)]
pub struct TaskInfo {
    /// Task status in its life cycle.
    pub status: TaskStatus,
    /// How often each system call was made.
    pub syscall_times: [u32; 500],
    /// Total running time of the task.
    pub time: usize,
}

impl TaskInfo {
    /// The record says that the thread runs, has made no call and has used
    /// no time.
    pub open spec fn is_blank(self) -> bool {
        &&& self.status == TaskStatus::Running
        &&& self.time == 0
        &&& forall|i: int| 0 <= i < MAX_SYSCALL_NUM ==> self.syscall_times[i] == 0
    }

    /// The one record that is blank.
    pub open spec fn blank() -> TaskInfo {
        choose|info: TaskInfo| info.is_blank()
    }

    /// The record of a thread that has not made a call yet.
    pub fn new() -> (info: Self)
        ensures
            info.is_blank(),
            info == TaskInfo::blank(),
    {
        let info = TaskInfo { status: TaskStatus::Running, syscall_times: [0u32; 500], time: 0 };
        proof {
            assert(info.is_blank());
            let other = TaskInfo::blank();
            assert(other.is_blank());
            assert(info.syscall_times =~= other.syscall_times);
        }
        info
    }
}

/// One unit of a resource that a thread has asked for and waits to be
/// handed.
#[derive(Clone, Copy, Debug, PartialEq, Eq, Structural)]
pub struct Awaited {
    /// The kind of the resource.
    pub kind: ResourceKind,
    /// Its id in the registry of its kind.
    pub id: usize,
}

/// The control block of a thread, the unit that the scheduler moves around.
/// It names the process it belongs to by id and does not own it.
#[derive(Clone, Copy)]
pub struct TaskControlBlock {
    /// Id of the process that owns the thread.
    pub pid: usize,
    /// Slot of the thread in its process.
    pub tid: usize,
    /// The task status in its lifecycle.
    pub task_status: TaskStatus,
    /// The saved context.
    pub task_cx: TaskContext,
    /// What the thread can learn about itself.
    pub task_info: TaskInfo,
    /// The time at which the thread first ran.
    pub start_time: usize,
    /// The stride counter; it moves forward each time the thread runs.
    pub stride: u64,
    /// The priority, at least `MIN_PRIORITY`.
    pub priority: usize,
    /// The unit for which the thread went to wait, if it did. The thread
    /// runs again only once the unit was handed to it; it is then its own.
    pub awaits: Option<Awaited>,
}

impl TaskControlBlock {
    /// The priority is inside the range for which a pass is defined.
    pub open spec fn wf(&self) -> bool {
        self.priority >= MIN_PRIORITY
    }

    /// A ready thread of process `pid` in slot `tid` that never ran, with
    /// the default priority and a stride of zero.
    pub open spec fn fresh(pid: usize, tid: usize) -> TaskControlBlock {
        TaskControlBlock {
            pid,
            tid,
            task_status: TaskStatus::Ready,
            task_cx: TaskContext { ra: 0, sp: 0, ret: 0 },
            task_info: TaskInfo::blank(),
            start_time: 0,
            stride: 0,
            priority: DEFAULT_PRIORITY,
            awaits: None,
        }
    }

    /// A ready thread of process `pid` in slot `tid`, with the default
    /// priority and a stride of zero.
    pub fn new(pid: usize, tid: usize) -> (task: Self)
        ensures
            task.wf(),
            task == TaskControlBlock::fresh(pid, tid),
    {
        TaskControlBlock {
            pid,
            tid,
            task_status: TaskStatus::Ready,
            task_cx: TaskContext::zero_init(),
            task_info: TaskInfo::new(),
            start_time: 0,
            stride: 0,
            priority: DEFAULT_PRIORITY,
            awaits: None,
        }
    }

    /// Sets the priority. Nothing else changes.
    pub fn set_priority(&mut self, priority: usize)
        requires
            priority >= MIN_PRIORITY,
        ensures
            *final(self) == (TaskControlBlock { priority, ..*old(self) }),
    {
        self.priority = priority;
    }

    /// Charges the thread for one turn on the processor: the stride moves
    /// forward by the pass of the priority.
    pub fn charge(&mut self)
        requires
            old(self).wf(),
        ensures
            *final(self) == (TaskControlBlock {
                stride: advanced(old(self).stride, pass_of(old(self).priority)),
                ..*old(self)
            }),
    {
        self.stride = stride_advance(self.stride, self.priority);
    }
}

} // verus!
