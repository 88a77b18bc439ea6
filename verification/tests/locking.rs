use task_core::demand::ResourceKind;
use task_core::kernel::Kernel;
use task_core::process::ProcessControlBlock;
use task_core::sync::Mutex;
use task_core::syscall::process::{sys_fork, sys_yield};
use task_core::sync::Acquire;
use task_core::syscall::sync::{
    mutex_lock, semaphore_down, sys_condvar_create, sys_condvar_signal, sys_condvar_wait,
    sys_enable_deadlock_detect, sys_mutex_create, sys_mutex_lock, sys_mutex_retry,
    sys_mutex_unlock, sys_semaphore_create, sys_semaphore_down, sys_semaphore_up, DEADLOCK,
};
use task_core::task::Awaited;
use task_core::task::TaskStatus;

/// A kernel with one process that has `threads` threads; thread 0 runs.
fn booted(threads: usize) -> Kernel {
    let mut kernel = Kernel::new();
    kernel.add_initproc(vec![]);
    kernel.run_next();
    for tid in 1..threads {
        assert_eq!(kernel.thread_create(), tid);
    }
    kernel
}

fn process(kernel: &Kernel) -> &ProcessControlBlock {
    kernel.procs[0].as_ref().unwrap()
}

fn running(kernel: &Kernel) -> Option<usize> {
    kernel.current_task().map(|t| t.tid)
}

/// Lets the ready threads take their turns until thread `tid` runs.
fn switch_to(kernel: &mut Kernel, tid: usize) {
    let mut tries = 0;
    while running(kernel) != Some(tid) {
        if kernel.current_task().is_some() {
            assert_eq!(sys_yield(kernel), 0);
        } else {
            kernel.run_next();
        }
        tries += 1;
        assert!(tries < 100, "thread {} never runs", tid);
    }
}

fn mutex_need(kernel: &Kernel, tid: usize, id: usize) -> usize {
    process(kernel).tasks[tid].as_ref().unwrap().mutex.needed(id)
}

fn mutex_held(kernel: &Kernel, tid: usize, id: usize) -> usize {
    process(kernel).tasks[tid].as_ref().unwrap().mutex.holding(id)
}

fn sem_need(kernel: &Kernel, tid: usize, id: usize) -> usize {
    process(kernel).tasks[tid].as_ref().unwrap().semaphore.needed(id)
}

fn sem_held(kernel: &Kernel, tid: usize, id: usize) -> usize {
    process(kernel).tasks[tid].as_ref().unwrap().semaphore.holding(id)
}

fn mutex_tables(kernel: &Kernel) -> Vec<(usize, usize)> {
    let p = process(kernel);
    let mut all = Vec::new();
    for tid in 0..p.tasks.len() {
        for id in 0..p.mutex_list.len() {
            all.push((mutex_need(kernel, tid, id), mutex_held(kernel, tid, id)));
        }
    }
    all
}

fn mutex_locked(kernel: &Kernel, id: usize) -> bool {
    process(kernel).mutex_list[id].as_ref().unwrap().is_locked()
}

fn mutex_waiters(kernel: &Kernel, id: usize) -> Vec<usize> {
    match process(kernel).mutex_list[id].as_ref().unwrap() {
        Mutex::Spin(_) => vec![],
        Mutex::Blocking(m) => m.wait_queue.iter().map(|t| t.tid).collect(),
    }
}

#[test]
fn deadlock_sentinel_value() {
    assert_eq!(DEADLOCK, -0xDEAD);
    assert_eq!(DEADLOCK, -57005);
}

#[test]
fn mutex_ids_count_up_and_reuse_the_first_empty_slot() {
    let mut kernel = booted(2);
    assert_eq!(sys_mutex_create(&mut kernel, true), 0);
    assert_eq!(sys_mutex_create(&mut kernel, false), 1);
    assert_eq!(sys_mutex_create(&mut kernel, true), 2);
    assert!(matches!(process(&kernel).mutex_list[0], Some(Mutex::Blocking(_))));
    assert!(matches!(process(&kernel).mutex_list[1], Some(Mutex::Spin(_))));
    // Every thread's tables cover the three mutexes.
    for tid in 0..2 {
        let record = process(&kernel).tasks[tid].as_ref().unwrap();
        assert_eq!(record.table(ResourceKind::Mutex).len(), 3);
        assert_eq!(record.table(ResourceKind::Semaphore).len(), 0);
    }
    kernel.procs[0].as_mut().unwrap().mutex_list[1] = None;
    assert_eq!(sys_mutex_create(&mut kernel, true), 1);
    assert!(matches!(process(&kernel).mutex_list[1], Some(Mutex::Blocking(_))));
    assert_eq!(process(&kernel).mutex_list.len(), 3);
    assert_eq!(process(&kernel).tasks[0].as_ref().unwrap().mutex.len(), 3);
    assert_eq!(sys_mutex_create(&mut kernel, true), 3);
}

#[test]
fn semaphore_ids_and_recorded_counts() {
    let mut kernel = booted(1);
    assert_eq!(sys_semaphore_create(&mut kernel, 3), 0);
    assert_eq!(sys_semaphore_create(&mut kernel, 0), 1);
    assert_eq!(process(&kernel).semaphore_max, vec![3, 0]);
    assert_eq!(process(&kernel).semaphore_list[0].as_ref().unwrap().count, 3);
    assert_eq!(process(&kernel).tasks[0].as_ref().unwrap().semaphore.len(), 2);
    kernel.procs[0].as_mut().unwrap().semaphore_list[0] = None;
    assert_eq!(sys_semaphore_create(&mut kernel, 9), 0);
    assert_eq!(process(&kernel).semaphore_max, vec![9, 0]);
    assert_eq!(process(&kernel).semaphore_list[0].as_ref().unwrap().count, 9);
    assert_eq!(sys_semaphore_create(&mut kernel, 1), 2);
    assert_eq!(process(&kernel).semaphore_max, vec![9, 0, 1]);
}

#[test]
fn condvar_ids() {
    let mut kernel = booted(1);
    assert_eq!(sys_condvar_create(&mut kernel), 0);
    assert_eq!(sys_condvar_create(&mut kernel), 1);
    kernel.procs[0].as_mut().unwrap().condvar_list[0] = None;
    assert_eq!(sys_condvar_create(&mut kernel), 0);
    assert_eq!(sys_condvar_create(&mut kernel), 2);
}

#[test]
fn registries_belong_to_the_process() {
    let mut kernel = booted(1);
    assert_eq!(sys_mutex_create(&mut kernel, true), 0);
    assert_eq!(sys_fork(&mut kernel), 1);
    assert_eq!(sys_yield(&mut kernel), 0);
    assert_eq!(kernel.current_task().unwrap().pid, 1);
    // The child starts with empty registries.
    assert!(kernel.procs[1].as_ref().unwrap().mutex_list.is_empty());
    assert_eq!(sys_mutex_create(&mut kernel, false), 0);
    assert_eq!(kernel.procs[0].as_ref().unwrap().mutex_list.len(), 1);
    assert_eq!(kernel.procs[1].as_ref().unwrap().mutex_list.len(), 1);
}

#[test]
fn enable_deadlock_detect_sets_the_flag() {
    let mut kernel = booted(1);
    assert!(!process(&kernel).deadlock_detect_enable);
    assert_eq!(sys_enable_deadlock_detect(&mut kernel, 1), 0);
    assert!(process(&kernel).deadlock_detect_enable);
    assert_eq!(sys_enable_deadlock_detect(&mut kernel, 0), 0);
    assert!(!process(&kernel).deadlock_detect_enable);
    assert_eq!(sys_enable_deadlock_detect(&mut kernel, 17), 0);
    assert!(process(&kernel).deadlock_detect_enable);
}

#[test]
fn free_mutex_is_granted_and_held() {
    let mut kernel = booted(1);
    assert_eq!(sys_mutex_create(&mut kernel, true), 0);
    assert_eq!(sys_mutex_lock(&mut kernel, 0), 0);
    assert!(mutex_locked(&kernel, 0));
    assert_eq!((mutex_need(&kernel, 0, 0), mutex_held(&kernel, 0, 0)), (0, 1));
    assert_eq!(running(&kernel), Some(0));
    assert_eq!(sys_mutex_unlock(&mut kernel, 0), 0);
    assert!(!mutex_locked(&kernel, 0));
    assert_eq!((mutex_need(&kernel, 0, 0), mutex_held(&kernel, 0, 0)), (0, 0));
    // Giving up what is not held counts nothing below zero.
    assert_eq!(sys_mutex_unlock(&mut kernel, 0), 0);
    assert_eq!((mutex_need(&kernel, 0, 0), mutex_held(&kernel, 0, 0)), (0, 0));
}

#[test]
fn held_blocking_mutex_parks_the_caller_and_unlock_hands_it_over() {
    let mut kernel = booted(3);
    assert_eq!(sys_mutex_create(&mut kernel, true), 0);
    assert_eq!(sys_mutex_lock(&mut kernel, 0), 0);
    switch_to(&mut kernel, 1);
    assert_eq!(sys_mutex_lock(&mut kernel, 0), 0);
    // Thread 1 is parked with its request on record; another thread runs.
    assert_ne!(running(&kernel), Some(1));
    assert_eq!(mutex_waiters(&kernel, 0), vec![1]);
    assert_eq!((mutex_need(&kernel, 1, 0), mutex_held(&kernel, 1, 0)), (1, 0));
    switch_to(&mut kernel, 2);
    assert_eq!(sys_mutex_lock(&mut kernel, 0), 0);
    assert_eq!(mutex_waiters(&kernel, 0), vec![1, 2]);
    assert_eq!(running(&kernel), Some(0));
    assert_eq!(kernel.manager.len(), 0);
    // Thread 0 gives the mutex up: it goes to thread 1, which becomes ready.
    // Only what thread 0 holds has changed in the tables.
    assert_eq!(sys_mutex_unlock(&mut kernel, 0), 0);
    assert!(mutex_locked(&kernel, 0));
    assert_eq!(mutex_waiters(&kernel, 0), vec![2]);
    assert_eq!((mutex_need(&kernel, 0, 0), mutex_held(&kernel, 0, 0)), (0, 0));
    assert_eq!((mutex_need(&kernel, 1, 0), mutex_held(&kernel, 1, 0)), (1, 0));
    assert_eq!((mutex_need(&kernel, 2, 0), mutex_held(&kernel, 2, 0)), (1, 0));
    assert_eq!(kernel.manager.len(), 1);
    // When thread 1 runs again, the unit is its own.
    switch_to(&mut kernel, 1);
    assert!(kernel.current_task().unwrap().task_status == TaskStatus::Running);
    assert!(kernel.current_task().unwrap().awaits.is_none());
    assert_eq!((mutex_need(&kernel, 1, 0), mutex_held(&kernel, 1, 0)), (0, 1));
    assert_eq!(sys_mutex_unlock(&mut kernel, 0), 0);
    assert_eq!((mutex_need(&kernel, 1, 0), mutex_held(&kernel, 1, 0)), (0, 0));
    assert_eq!((mutex_need(&kernel, 2, 0), mutex_held(&kernel, 2, 0)), (1, 0));
    assert!(mutex_waiters(&kernel, 0).is_empty());
    switch_to(&mut kernel, 2);
    assert_eq!((mutex_need(&kernel, 2, 0), mutex_held(&kernel, 2, 0)), (0, 1));
    assert_eq!(sys_mutex_unlock(&mut kernel, 0), 0);
    assert!(!mutex_locked(&kernel, 0));
    assert_eq!(mutex_tables(&kernel), vec![(0, 0), (0, 0), (0, 0)]);
}

#[test]
fn held_spin_mutex_keeps_the_caller_running_and_trying() {
    let mut kernel = booted(2);
    assert_eq!(sys_mutex_create(&mut kernel, false), 0);
    assert_eq!(sys_mutex_lock(&mut kernel, 0), 0);
    assert_eq!((mutex_need(&kernel, 0, 0), mutex_held(&kernel, 0, 0)), (0, 1));
    switch_to(&mut kernel, 1);
    assert_eq!(sys_mutex_lock(&mut kernel, 0), 0);
    // Thread 1 did not get the mutex and was not taken off the processor.
    assert_eq!(running(&kernel), Some(1));
    assert_eq!((mutex_need(&kernel, 1, 0), mutex_held(&kernel, 1, 0)), (1, 0));
    assert!(!sys_mutex_retry(&mut kernel, 0));
    assert_eq!((mutex_need(&kernel, 1, 0), mutex_held(&kernel, 1, 0)), (1, 0));
    switch_to(&mut kernel, 0);
    assert_eq!(sys_mutex_unlock(&mut kernel, 0), 0);
    assert!(!mutex_locked(&kernel, 0));
    switch_to(&mut kernel, 1);
    assert!(sys_mutex_retry(&mut kernel, 0));
    assert!(mutex_locked(&kernel, 0));
    assert_eq!((mutex_need(&kernel, 1, 0), mutex_held(&kernel, 1, 0)), (0, 1));
}

#[test]
fn crossed_mutex_requests_are_refused_with_the_sentinel() {
    let mut kernel = booted(2);
    assert_eq!(sys_enable_deadlock_detect(&mut kernel, 1), 0);
    assert_eq!(sys_mutex_create(&mut kernel, true), 0);
    assert_eq!(sys_mutex_create(&mut kernel, true), 1);
    // Thread 0 takes mutex 0, thread 1 takes mutex 1.
    assert_eq!(sys_mutex_lock(&mut kernel, 0), 0);
    switch_to(&mut kernel, 1);
    assert_eq!(sys_mutex_lock(&mut kernel, 1), 0);
    // Thread 1 asks for mutex 0: thread 0 can still finish, so it may wait.
    assert_eq!(sys_mutex_lock(&mut kernel, 0), 0);
    assert_eq!(running(&kernel), Some(0));
    assert_eq!(mutex_waiters(&kernel, 0), vec![1]);
    // Thread 0 asks for mutex 1: that would close the cycle.
    let tables = mutex_tables(&kernel);
    assert_eq!(tables, vec![(0, 1), (0, 0), (1, 0), (0, 1)]);
    let stride = kernel.current_task().unwrap().stride;
    assert_eq!(sys_mutex_lock(&mut kernel, 1), DEADLOCK);
    assert_eq!(sys_mutex_lock(&mut kernel, 1), -0xDEAD);
    // Nothing was granted and nothing is left of the request.
    assert_eq!(mutex_tables(&kernel), tables);
    assert_eq!(running(&kernel), Some(0));
    assert_eq!(kernel.current_task().unwrap().stride, stride);
    assert!(mutex_locked(&kernel, 0));
    assert!(mutex_locked(&kernel, 1));
    assert_eq!(mutex_waiters(&kernel, 0), vec![1]);
    assert!(mutex_waiters(&kernel, 1).is_empty());
    assert_eq!(kernel.manager.len(), 0);
    // Thread 0 backs off: mutex 0 is handed to thread 1. Until thread 1 has
    // run, its request stays on record.
    assert_eq!(sys_mutex_unlock(&mut kernel, 0), 0);
    assert_eq!(mutex_tables(&kernel), vec![(0, 0), (0, 0), (1, 0), (0, 1)]);
    switch_to(&mut kernel, 1);
    assert_eq!(mutex_tables(&kernel), vec![(0, 0), (0, 0), (0, 1), (0, 1)]);
    // Now thread 0 may wait for mutex 1: thread 1 can finish first.
    switch_to(&mut kernel, 0);
    assert_eq!(sys_mutex_lock(&mut kernel, 1), 0);
    assert_eq!(running(&kernel), Some(1));
}

#[test]
fn without_detection_the_crossed_request_blocks() {
    let mut kernel = booted(2);
    assert_eq!(sys_mutex_create(&mut kernel, true), 0);
    assert_eq!(sys_mutex_create(&mut kernel, true), 1);
    assert_eq!(sys_mutex_lock(&mut kernel, 0), 0);
    switch_to(&mut kernel, 1);
    assert_eq!(sys_mutex_lock(&mut kernel, 1), 0);
    assert_eq!(sys_mutex_lock(&mut kernel, 0), 0);
    assert_eq!(running(&kernel), Some(0));
    assert_eq!(sys_mutex_lock(&mut kernel, 1), 0);
    // Both threads wait for each other and nothing runs.
    assert_eq!(running(&kernel), None);
    assert_eq!(mutex_tables(&kernel), vec![(0, 1), (1, 0), (1, 0), (0, 1)]);
}

#[test]
fn request_with_a_finishing_order_is_granted() {
    let mut kernel = booted(2);
    assert_eq!(sys_enable_deadlock_detect(&mut kernel, 1), 0);
    assert_eq!(sys_mutex_create(&mut kernel, true), 0);
    assert_eq!(sys_mutex_create(&mut kernel, true), 1);
    // Thread 0 takes both mutexes in turn; thread 1 asks for nothing.
    assert_eq!(sys_mutex_lock(&mut kernel, 0), 0);
    assert_eq!((mutex_need(&kernel, 0, 0), mutex_held(&kernel, 0, 0)), (0, 1));
    assert_eq!(sys_mutex_lock(&mut kernel, 1), 0);
    assert_eq!((mutex_need(&kernel, 0, 1), mutex_held(&kernel, 0, 1)), (0, 1));
    assert_eq!(running(&kernel), Some(0));
    // Thread 1 asks for a held mutex: thread 0 can finish first, so it waits.
    switch_to(&mut kernel, 1);
    assert_eq!(sys_mutex_lock(&mut kernel, 1), 0);
    assert_eq!((mutex_need(&kernel, 1, 1), mutex_held(&kernel, 1, 1)), (1, 0));
    assert_eq!(running(&kernel), Some(0));
    // The mutex is handed over; when thread 1 runs again, the unit has
    // moved from asked-for to held.
    assert_eq!(sys_mutex_unlock(&mut kernel, 1), 0);
    assert_eq!((mutex_need(&kernel, 1, 1), mutex_held(&kernel, 1, 1)), (1, 0));
    assert_eq!((mutex_need(&kernel, 0, 1), mutex_held(&kernel, 0, 1)), (0, 0));
    switch_to(&mut kernel, 1);
    assert_eq!((mutex_need(&kernel, 1, 1), mutex_held(&kernel, 1, 1)), (0, 1));
    assert!(mutex_locked(&kernel, 1));
}

#[test]
fn semaphore_down_and_up_keep_the_books() {
    let mut kernel = booted(2);
    assert_eq!(sys_semaphore_create(&mut kernel, 2), 0);
    assert_eq!(sys_semaphore_down(&mut kernel, 0), 0);
    assert_eq!(sys_semaphore_down(&mut kernel, 0), 0);
    assert_eq!((sem_need(&kernel, 0, 0), sem_held(&kernel, 0, 0)), (0, 2));
    assert_eq!(process(&kernel).semaphore_list[0].as_ref().unwrap().count, 0);
    assert_eq!(running(&kernel), Some(0));
    assert_eq!(sys_semaphore_up(&mut kernel, 0), 0);
    assert_eq!((sem_need(&kernel, 0, 0), sem_held(&kernel, 0, 0)), (0, 1));
    assert_eq!(process(&kernel).semaphore_list[0].as_ref().unwrap().count, 1);
    assert_eq!(process(&kernel).semaphore_max, vec![2]);
}

#[test]
fn semaphore_without_units_parks_and_wakes_in_order() {
    let mut kernel = booted(4);
    assert_eq!(sys_semaphore_create(&mut kernel, 0), 0);
    for tid in 1..4 {
        switch_to(&mut kernel, tid);
        assert_eq!(sys_semaphore_down(&mut kernel, 0), 0);
        assert_ne!(running(&kernel), Some(tid));
        assert_eq!((sem_need(&kernel, tid, 0), sem_held(&kernel, tid, 0)), (1, 0));
    }
    assert_eq!(running(&kernel), Some(0));
    assert_eq!(kernel.manager.len(), 0);
    let sem = process(&kernel).semaphore_list[0].as_ref().unwrap();
    assert_eq!(sem.count, -3);
    assert_eq!(sem.wait_queue.iter().map(|t| t.tid).collect::<Vec<_>>(), vec![1, 2, 3]);
    // Each unit that comes wakes exactly the thread that waited longest.
    for tid in 1..4 {
        assert_eq!(sys_semaphore_up(&mut kernel, 0), 0);
        assert_eq!(kernel.manager.len(), tid);
        let left: Vec<usize> = process(&kernel).semaphore_list[0]
            .as_ref()
            .unwrap()
            .wait_queue
            .iter()
            .map(|t| t.tid)
            .collect();
        assert_eq!(left, (tid + 1..4).collect::<Vec<usize>>());
        // The woken thread has not run yet: its request is still on record.
        assert_eq!((sem_need(&kernel, tid, 0), sem_held(&kernel, tid, 0)), (1, 0));
        // The thread that signals holds nothing and stays at nothing.
        assert_eq!((sem_need(&kernel, 0, 0), sem_held(&kernel, 0, 0)), (0, 0));
    }
    assert_eq!(process(&kernel).semaphore_list[0].as_ref().unwrap().count, 0);
    assert_eq!(sys_semaphore_up(&mut kernel, 0), 0);
    assert_eq!(kernel.manager.len(), 3);
    assert_eq!(process(&kernel).semaphore_list[0].as_ref().unwrap().count, 1);
    // Once they run, each holds its unit.
    for tid in 1..4 {
        switch_to(&mut kernel, tid);
        assert_eq!((sem_need(&kernel, tid, 0), sem_held(&kernel, tid, 0)), (0, 1));
    }
}

#[test]
fn crossed_semaphore_requests_are_refused_with_the_sentinel() {
    let mut kernel = booted(2);
    assert_eq!(sys_enable_deadlock_detect(&mut kernel, 1), 0);
    assert_eq!(sys_semaphore_create(&mut kernel, 1), 0);
    assert_eq!(sys_semaphore_create(&mut kernel, 1), 1);
    assert_eq!(sys_semaphore_down(&mut kernel, 0), 0);
    switch_to(&mut kernel, 1);
    assert_eq!(sys_semaphore_down(&mut kernel, 1), 0);
    assert_eq!(sys_semaphore_down(&mut kernel, 0), 0);
    assert_eq!(running(&kernel), Some(0));
    let count = process(&kernel).semaphore_list[1].as_ref().unwrap().count;
    assert_eq!(sys_semaphore_down(&mut kernel, 1), DEADLOCK);
    assert_eq!(running(&kernel), Some(0));
    assert_eq!(process(&kernel).semaphore_list[1].as_ref().unwrap().count, count);
    assert!(process(&kernel).semaphore_list[1].as_ref().unwrap().wait_queue.is_empty());
    assert_eq!((sem_need(&kernel, 0, 0), sem_held(&kernel, 0, 0)), (0, 1));
    assert_eq!((sem_need(&kernel, 0, 1), sem_held(&kernel, 0, 1)), (0, 0));
    assert_eq!((sem_need(&kernel, 1, 0), sem_held(&kernel, 1, 0)), (1, 0));
    assert_eq!((sem_need(&kernel, 1, 1), sem_held(&kernel, 1, 1)), (0, 1));
}

#[test]
fn semaphore_request_with_a_finishing_order_is_granted() {
    let mut kernel = booted(2);
    assert_eq!(sys_enable_deadlock_detect(&mut kernel, 1), 0);
    assert_eq!(sys_semaphore_create(&mut kernel, 2), 0);
    assert_eq!(sys_semaphore_down(&mut kernel, 0), 0);
    switch_to(&mut kernel, 1);
    assert_eq!(sys_semaphore_down(&mut kernel, 0), 0);
    assert_eq!(running(&kernel), Some(1));
    assert_eq!((sem_need(&kernel, 1, 0), sem_held(&kernel, 1, 0)), (0, 1));
    // No unit is left, but thread 0 asks for nothing and can give its unit
    // back: thread 1 may wait.
    assert_eq!(sys_semaphore_down(&mut kernel, 0), 0);
    assert_eq!(running(&kernel), Some(0));
    assert_eq!((sem_need(&kernel, 1, 0), sem_held(&kernel, 1, 0)), (1, 1));
    assert_eq!(sys_semaphore_up(&mut kernel, 0), 0);
    assert_eq!((sem_need(&kernel, 1, 0), sem_held(&kernel, 1, 0)), (1, 1));
    assert_eq!((sem_need(&kernel, 0, 0), sem_held(&kernel, 0, 0)), (0, 0));
    switch_to(&mut kernel, 1);
    assert_eq!((sem_need(&kernel, 1, 0), sem_held(&kernel, 1, 0)), (0, 2));
    assert_eq!(process(&kernel).semaphore_list[0].as_ref().unwrap().count, 0);
}

#[test]
fn a_lone_thread_asking_for_what_nobody_can_give_is_refused() {
    let mut kernel = booted(1);
    assert_eq!(sys_enable_deadlock_detect(&mut kernel, 1), 0);
    assert_eq!(sys_semaphore_create(&mut kernel, 0), 0);
    assert_eq!(sys_semaphore_down(&mut kernel, 0), DEADLOCK);
    assert_eq!(running(&kernel), Some(0));
    assert_eq!(process(&kernel).semaphore_list[0].as_ref().unwrap().count, 0);
    assert_eq!((sem_need(&kernel, 0, 0), sem_held(&kernel, 0, 0)), (0, 0));
    assert_eq!(sys_mutex_create(&mut kernel, true), 0);
    assert_eq!(sys_mutex_lock(&mut kernel, 0), 0);
    assert_eq!(sys_mutex_lock(&mut kernel, 0), DEADLOCK);
    assert_eq!((mutex_need(&kernel, 0, 0), mutex_held(&kernel, 0, 0)), (0, 1));
}

#[test]
fn condvar_wait_releases_the_mutex_and_signal_wakes_the_waiter() {
    let mut kernel = booted(2);
    assert_eq!(sys_mutex_create(&mut kernel, true), 0);
    assert_eq!(sys_condvar_create(&mut kernel), 0);
    // Nobody waits: the signal is lost.
    assert_eq!(sys_condvar_signal(&mut kernel, 0), 0);
    assert_eq!(kernel.manager.len(), 1);
    assert_eq!(sys_mutex_lock(&mut kernel, 0), 0);
    assert_eq!(sys_condvar_wait(&mut kernel, 0, 0), 0);
    // Thread 0 waits, the mutex is free, thread 1 runs.
    assert_eq!(running(&kernel), Some(1));
    assert!(!mutex_locked(&kernel, 0));
    let condvar = process(&kernel).condvar_list[0].as_ref().unwrap();
    let waiting: Vec<usize> = condvar.wait_queue.iter().map(|t| t.tid).collect();
    assert_eq!(waiting, vec![0]);
    // Thread 0 no longer holds the mutex.
    assert_eq!((mutex_need(&kernel, 0, 0), mutex_held(&kernel, 0, 0)), (0, 0));
    assert_eq!(kernel.manager.len(), 0);
    assert_eq!(sys_mutex_lock(&mut kernel, 0), 0);
    assert_eq!(sys_condvar_signal(&mut kernel, 0), 0);
    assert_eq!(kernel.manager.len(), 1);
    assert!(process(&kernel).condvar_list[0].as_ref().unwrap().wait_queue.is_empty());
    // The mutex is not taken again for the woken thread.
    assert_eq!(mutex_waiters(&kernel, 0), Vec::<usize>::new());
    assert_eq!(sys_mutex_unlock(&mut kernel, 0), 0);
    switch_to(&mut kernel, 0);
    assert!(!mutex_locked(&kernel, 0));
    assert_eq!((mutex_need(&kernel, 0, 0), mutex_held(&kernel, 0, 0)), (0, 0));
    // Taking it again is left to the woken thread; it then holds one unit.
    assert_eq!(sys_mutex_lock(&mut kernel, 0), 0);
    assert!(mutex_locked(&kernel, 0));
    assert_eq!((mutex_need(&kernel, 0, 0), mutex_held(&kernel, 0, 0)), (0, 1));
}

#[test]
fn condvar_signal_wakes_in_order_of_waiting() {
    let mut kernel = booted(4);
    assert_eq!(sys_mutex_create(&mut kernel, true), 0);
    assert_eq!(sys_condvar_create(&mut kernel), 0);
    for tid in [2usize, 1, 3] {
        switch_to(&mut kernel, tid);
        assert_eq!(sys_mutex_lock(&mut kernel, 0), 0);
        assert_eq!(running(&kernel), Some(tid));
        assert_eq!(sys_condvar_wait(&mut kernel, 0, 0), 0);
    }
    assert_eq!(running(&kernel), Some(0));
    assert_eq!(kernel.manager.len(), 0);
    for tid in [2usize, 1, 3] {
        assert_eq!(sys_condvar_signal(&mut kernel, 0), 0);
        assert_eq!(kernel.manager.len(), 1);
        let woken = kernel.manager.fetch().unwrap();
        assert_eq!(woken.tid, tid);
        assert!(woken.task_status == TaskStatus::Ready);
    }
    assert_eq!(sys_condvar_signal(&mut kernel, 0), 0);
    assert_eq!(kernel.manager.len(), 0);
}

#[test]
fn condvar_wait_hands_the_mutex_to_a_waiter() {
    let mut kernel = booted(2);
    assert_eq!(sys_mutex_create(&mut kernel, true), 0);
    assert_eq!(sys_condvar_create(&mut kernel), 0);
    assert_eq!(sys_mutex_lock(&mut kernel, 0), 0);
    switch_to(&mut kernel, 1);
    assert_eq!(sys_mutex_lock(&mut kernel, 0), 0);
    assert_eq!(running(&kernel), Some(0));
    assert_eq!(mutex_waiters(&kernel, 0), vec![1]);
    assert_eq!(sys_condvar_wait(&mut kernel, 0, 0), 0);
    // Thread 1 got the mutex, runs, and holds it on record; thread 0 holds
    // it no more.
    assert_eq!(running(&kernel), Some(1));
    assert!(mutex_locked(&kernel, 0));
    assert!(mutex_waiters(&kernel, 0).is_empty());
    assert_eq!((mutex_need(&kernel, 1, 0), mutex_held(&kernel, 1, 0)), (0, 1));
    assert_eq!((mutex_need(&kernel, 0, 0), mutex_held(&kernel, 0, 0)), (0, 0));
}

#[test]
fn mutex_lock_tells_how_the_request_ended() {
    let mut kernel = booted(3);
    assert_eq!(sys_enable_deadlock_detect(&mut kernel, 1), 0);
    assert_eq!(sys_mutex_create(&mut kernel, true), 0);
    assert_eq!(sys_mutex_create(&mut kernel, false), 1);
    // Free mutexes of either kind are granted.
    assert!(mutex_lock(&mut kernel, 0) == Some(Acquire::Granted));
    assert!(mutex_lock(&mut kernel, 1) == Some(Acquire::Granted));
    assert_eq!(mutex_tables(&kernel)[0..2], [(0, 1), (0, 1)]);
    // A held mutex on which threads sleep queues the caller.
    switch_to(&mut kernel, 1);
    assert!(mutex_lock(&mut kernel, 0) == Some(Acquire::Queued));
    assert_ne!(running(&kernel), Some(1));
    assert_eq!(mutex_waiters(&kernel, 0), vec![1]);
    // A held busy-waiting mutex leaves the caller running, without it.
    switch_to(&mut kernel, 2);
    assert!(mutex_lock(&mut kernel, 1) == Some(Acquire::Busy));
    assert_eq!(running(&kernel), Some(2));
    assert_eq!((mutex_need(&kernel, 2, 1), mutex_held(&kernel, 2, 1)), (1, 0));
    // A request that could never be met is refused.
    switch_to(&mut kernel, 0);
    assert!(mutex_lock(&mut kernel, 0).is_none());
    assert_eq!((mutex_need(&kernel, 0, 0), mutex_held(&kernel, 0, 0)), (0, 1));
}

#[test]
fn a_queued_thread_is_marked_with_what_it_waits_for() {
    let mut kernel = booted(2);
    assert_eq!(sys_mutex_create(&mut kernel, true), 0);
    assert_eq!(sys_semaphore_create(&mut kernel, 0), 0);
    assert_eq!(sys_mutex_lock(&mut kernel, 0), 0);
    assert!(kernel.current_task().unwrap().awaits.is_none());
    switch_to(&mut kernel, 1);
    assert_eq!(sys_mutex_lock(&mut kernel, 0), 0);
    match process(&kernel).mutex_list[0].as_ref().unwrap() {
        Mutex::Blocking(m) => {
            let w = m.wait_queue[0];
            assert_eq!(w.tid, 1);
            assert!(w.awaits == Some(Awaited { kind: ResourceKind::Mutex, id: 0 }));
        }
        Mutex::Spin(_) => panic!("the mutex was made for sleeping"),
    }
    assert_eq!(sys_semaphore_down(&mut kernel, 0), 0);
    let sem = process(&kernel).semaphore_list[0].as_ref().unwrap();
    assert_eq!(sem.wait_queue[0].tid, 0);
    assert!(sem.wait_queue[0].awaits == Some(Awaited { kind: ResourceKind::Semaphore, id: 0 }));
    assert_eq!(running(&kernel), None);
}

#[test]
fn a_handed_over_mutex_counts_as_asked_for_until_its_thread_runs() {
    let mut kernel = booted(2);
    assert_eq!(sys_enable_deadlock_detect(&mut kernel, 1), 0);
    assert_eq!(sys_mutex_create(&mut kernel, true), 0);
    assert_eq!(sys_mutex_create(&mut kernel, true), 1);
    assert_eq!(sys_mutex_lock(&mut kernel, 0), 0);
    switch_to(&mut kernel, 1);
    assert_eq!(sys_mutex_lock(&mut kernel, 0), 0);
    assert_eq!(running(&kernel), Some(0));
    // Thread 0 hands mutex 0 to thread 1 and, before thread 1 has run, asks
    // for the free mutex 1. On the tables as they stand, thread 1 still asks
    // for a mutex that is not free, so it could not finish: refused.
    assert_eq!(sys_mutex_unlock(&mut kernel, 0), 0);
    assert_eq!(mutex_tables(&kernel), vec![(0, 0), (0, 0), (1, 0), (0, 0)]);
    assert_eq!(sys_mutex_lock(&mut kernel, 1), DEADLOCK);
    assert_eq!(mutex_tables(&kernel), vec![(0, 0), (0, 0), (1, 0), (0, 0)]);
    assert!(!mutex_locked(&kernel, 1));
    // Once thread 1 has run, it holds mutex 0 and the same request passes.
    switch_to(&mut kernel, 1);
    assert_eq!(mutex_tables(&kernel), vec![(0, 0), (0, 0), (0, 1), (0, 0)]);
    switch_to(&mut kernel, 0);
    assert_eq!(sys_mutex_lock(&mut kernel, 1), 0);
    assert!(mutex_locked(&kernel, 1));
    assert_eq!(mutex_tables(&kernel), vec![(0, 0), (0, 1), (0, 1), (0, 0)]);
}

#[test]
fn release_changes_only_what_the_caller_holds() {
    let mut kernel = booted(3);
    assert_eq!(sys_semaphore_create(&mut kernel, 1), 0);
    assert_eq!(sys_mutex_create(&mut kernel, true), 0);
    assert_eq!(sys_semaphore_down(&mut kernel, 0), 0);
    assert_eq!(sys_mutex_lock(&mut kernel, 0), 0);
    switch_to(&mut kernel, 1);
    assert_eq!(sys_semaphore_down(&mut kernel, 0), 0);
    switch_to(&mut kernel, 2);
    assert_eq!(sys_mutex_lock(&mut kernel, 0), 0);
    assert_eq!(running(&kernel), Some(0));
    let sems = |k: &Kernel| -> Vec<(usize, usize)> {
        (0..3).map(|t| (sem_need(k, t, 0), sem_held(k, t, 0))).collect()
    };
    assert_eq!(sems(&kernel), vec![(0, 1), (1, 0), (0, 0)]);
    assert_eq!(mutex_tables(&kernel), vec![(0, 1), (0, 0), (1, 0)]);
    assert_eq!(sys_semaphore_up(&mut kernel, 0), 0);
    assert_eq!(sems(&kernel), vec![(0, 0), (1, 0), (0, 0)]);
    assert_eq!(sys_mutex_unlock(&mut kernel, 0), 0);
    assert_eq!(mutex_tables(&kernel), vec![(0, 0), (0, 0), (1, 0)]);
}

#[test]
fn semaphore_down_tells_how_the_request_ended() {
    let mut kernel = booted(2);
    assert_eq!(sys_enable_deadlock_detect(&mut kernel, 1), 0);
    assert_eq!(sys_semaphore_create(&mut kernel, 1), 0);
    assert_eq!(semaphore_down(&mut kernel, 0), Some(true));
    assert_eq!((sem_need(&kernel, 0, 0), sem_held(&kernel, 0, 0)), (0, 1));
    // Thread 1 has to wait: thread 0 can give the unit back.
    switch_to(&mut kernel, 1);
    assert_eq!(semaphore_down(&mut kernel, 0), Some(false));
    assert_eq!(running(&kernel), Some(0));
    // Thread 0 asking again could never be served: refused.
    assert_eq!(semaphore_down(&mut kernel, 0), None);
    assert_eq!((sem_need(&kernel, 0, 0), sem_held(&kernel, 0, 0)), (0, 1));
    assert_eq!(process(&kernel).semaphore_list[0].as_ref().unwrap().count, -1);
}
