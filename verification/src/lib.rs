//! Task-management core of a small multitasking kernel: thread and process
//! control blocks, a stride scheduler, blocking primitives with an optional
//! deadlock detector, and the process lifecycle.
//!
//! The core is a state machine. [`kernel::Kernel`] holds everything: the
//! table of processes, the ready queue, the thread that runs and the threads
//! that sleep. A system call in [`syscall`] takes the kernel state and the
//! caller's arguments, moves the state one step, and returns what the calling
//! thread will see as the call's result. A call on which the caller has to
//! wait returns at once as well: the caller is then parked where it waits,
//! another thread runs, and the result is what the caller sees once it is
//! woken. A unit that a thread waited for is booked as held when the
//! scheduler lets the thread run again, not when it is handed over. What
//! happens outside the state, such as switching register contexts, loading a
//! program or reading the clock, is left to the code that drives the core;
//! values such as the time or a program image are handed in as arguments.
//!
//! Every type has a mathematical view, and every operation says in its
//! contract what the view is afterwards. The invariants of the state are
//! [`kernel::KernelView::wf`] and [`process::ProcessView::wf`]; every step
//! keeps them.
//!
//! The modules, leaves first:
//! - [`stride`]: stride arithmetic on a ring that wraps around;
//! - [`task`]: the thread control block;
//! - [`manager`]: the ready queue and the choice of the next thread;
//! - [`fairness`]: why that choice shares the processor by priority;
//! - [`slots`]: registries whose ids stay valid;
//! - [`demand`]: what a thread asks for and holds;
//! - [`deadlock`]: the detector;
//! - [`sync`]: mutexes, semaphores and condition variables;
//! - [`process`]: the process control block;
//! - [`kernel`]: the kernel state and the steps of the scheduler;
//! - [`syscall`]: the system calls.

pub mod stride;
pub mod task;
pub mod manager;
pub mod fairness;
pub mod slots;
pub mod demand;
pub mod deadlock;
pub mod sync;
pub mod process;
pub mod kernel;
pub mod syscall;
