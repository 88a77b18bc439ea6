use task_core::slots::find_free;
use task_core::sync::{Acquire, Condvar, Mutex, MutexBlocking, MutexSpin, Semaphore};
use task_core::task::{TaskControlBlock, TaskStatus};

fn thread(tid: usize) -> TaskControlBlock {
    let mut t = TaskControlBlock::new(0, tid);
    t.task_status = TaskStatus::Running;
    t
}

#[test]
fn spin_mutex_is_taken_once() {
    let mut m = MutexSpin::new();
    assert!(!m.locked);
    assert!(m.lock());
    assert!(m.locked);
    assert!(!m.lock());
    assert!(m.locked);
    m.unlock();
    assert!(!m.locked);
    assert!(m.lock());
}

#[test]
fn blocking_mutex_queues_and_hands_over_in_order() {
    let mut m = MutexBlocking::new();
    assert!(m.lock(thread(0)));
    assert!(m.locked);
    assert!(!m.lock(thread(1)));
    assert!(!m.lock(thread(2)));
    assert_eq!(m.wait_queue.len(), 2);
    assert!(m.wait_queue[0].task_status == TaskStatus::Blocked);
    let first = m.unlock().unwrap();
    assert_eq!(first.tid, 1);
    assert!(m.locked);
    let second = m.unlock().unwrap();
    assert_eq!(second.tid, 2);
    assert!(m.locked);
    assert!(m.unlock().is_none());
    assert!(!m.locked);
}

#[test]
fn mutex_of_either_kind() {
    let mut spin = Mutex::new(false);
    assert!(matches!(spin, Mutex::Spin(_)));
    assert!(!spin.is_locked());
    assert!(spin.lock(thread(0)) == Acquire::Granted);
    assert!(spin.is_locked());
    assert!(spin.lock(thread(1)) == Acquire::Busy);
    assert!(spin.unlock().is_none());
    assert!(!spin.is_locked());

    let mut blocking = Mutex::new(true);
    assert!(matches!(blocking, Mutex::Blocking(_)));
    assert!(blocking.lock(thread(0)) == Acquire::Granted);
    assert!(blocking.lock(thread(1)) == Acquire::Queued);
    assert!(blocking.is_locked());
    assert_eq!(blocking.unlock().unwrap().tid, 1);
    assert!(blocking.is_locked());
    assert!(blocking.unlock().is_none());
    assert!(!blocking.is_locked());
    // Giving up a free mutex leaves it free.
    assert!(blocking.unlock().is_none());
    assert!(!blocking.is_locked());
}

#[test]
fn semaphore_counts_down_and_wakes_in_order() {
    let mut s = Semaphore::new(2);
    assert_eq!(s.count, 2);
    assert!(s.down(thread(0)));
    assert!(s.down(thread(1)));
    assert_eq!(s.count, 0);
    assert!(!s.down(thread(2)));
    assert!(!s.down(thread(3)));
    assert_eq!(s.count, -2);
    assert_eq!(s.wait_queue.len(), 2);
    assert!(s.wait_queue[1].task_status == TaskStatus::Blocked);
    assert_eq!(s.up().unwrap().tid, 2);
    assert_eq!(s.count, -1);
    assert_eq!(s.up().unwrap().tid, 3);
    assert_eq!(s.count, 0);
    assert!(s.up().is_none());
    assert_eq!(s.count, 1);
}

#[test]
fn semaphore_without_units_blocks_at_once() {
    let mut s = Semaphore::new(0);
    assert!(!s.down(thread(5)));
    assert_eq!(s.count, -1);
    assert_eq!(s.up().unwrap().tid, 5);
    assert_eq!(s.count, 0);
}

#[test]
fn condvar_wait_releases_the_mutex_and_signal_wakes_in_order() {
    let mut mutex = Mutex::new(true);
    let mut cv = Condvar::new();
    assert!(cv.signal().is_none());
    assert!(mutex.lock(thread(0)) == Acquire::Granted);
    assert!(mutex.lock(thread(9)) == Acquire::Queued);
    // Thread 0 waits: the mutex goes to thread 9, which waited for it.
    let handed = cv.wait(&mut mutex, thread(0));
    assert_eq!(handed.unwrap().tid, 9);
    assert!(mutex.is_locked());
    assert_eq!(cv.wait_queue.len(), 1);
    assert!(cv.wait_queue[0].task_status == TaskStatus::Blocked);
    // Thread 9 waits too: nobody is left to take the mutex.
    assert!(cv.wait(&mut mutex, thread(9)).is_none());
    assert!(!mutex.is_locked());
    assert_eq!(cv.signal().unwrap().tid, 0);
    assert_eq!(cv.signal().unwrap().tid, 9);
    assert!(cv.signal().is_none());
    // The mutex was not taken again for anyone.
    assert!(!mutex.is_locked());
}

#[test]
fn find_free_gives_the_first_empty_slot() {
    let slots: Vec<Option<u8>> = vec![];
    assert_eq!(find_free(&slots), None);
    let slots = vec![Some(1u8), Some(2)];
    assert_eq!(find_free(&slots), None);
    let slots = vec![Some(1u8), None, Some(3), None];
    assert_eq!(find_free(&slots), Some(1));
    let slots: Vec<Option<u8>> = vec![None, None];
    assert_eq!(find_free(&slots), Some(0));
}
