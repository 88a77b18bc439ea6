use task_core::deadlock::{safe_with_available, safe_with_capacity};
use task_core::demand::{ResourceKind, ResourceTable, TableOp, ThreadRecord};

fn table(need: &[usize], held: &[usize]) -> ResourceTable {
    assert_eq!(need.len(), held.len());
    let mut t = ResourceTable::new(need.len());
    for id in 0..need.len() {
        for _ in 0..held[id] {
            t.request(id);
            t.settle(id);
        }
        for _ in 0..need[id] {
            t.request(id);
        }
    }
    t
}

fn sem_thread(need: &[usize], held: &[usize]) -> Option<ThreadRecord> {
    Some(ThreadRecord { mutex: ResourceTable::new(0), semaphore: table(need, held) })
}

fn mutex_thread(need: &[usize], held: &[usize]) -> Option<ThreadRecord> {
    Some(ThreadRecord { mutex: table(need, held), semaphore: ResourceTable::new(0) })
}

#[test]
fn table_starts_idle() {
    let t = ResourceTable::new(3);
    assert_eq!(t.len(), 3);
    for id in 0..3 {
        assert_eq!(t.needed(id), 0);
        assert_eq!(t.holding(id), 0);
        assert!(t.has_room(id));
    }
    let empty = ResourceTable::new(0);
    assert_eq!(empty.len(), 0);
}

#[test]
fn table_request_cancel_settle_release() {
    let mut t = ResourceTable::new(2);
    t.request(1);
    assert_eq!((t.needed(1), t.holding(1)), (1, 0));
    assert_eq!((t.needed(0), t.holding(0)), (0, 0));
    t.request(1);
    assert_eq!((t.needed(1), t.holding(1)), (2, 0));
    t.cancel(1);
    assert_eq!((t.needed(1), t.holding(1)), (1, 0));
    t.settle(1);
    assert_eq!((t.needed(1), t.holding(1)), (0, 1));
    // Nothing is asked for: settling moves nothing.
    t.settle(1);
    assert_eq!((t.needed(1), t.holding(1)), (0, 1));
    t.release(1);
    assert_eq!((t.needed(1), t.holding(1)), (0, 0));
    // Nothing is held: releasing leaves zero.
    t.release(1);
    assert_eq!((t.needed(1), t.holding(1)), (0, 0));
    assert_eq!((t.needed(0), t.holding(0)), (0, 0));
}

#[test]
fn table_apply_does_the_named_operation() {
    let mut t = ResourceTable::new(1);
    t.apply(TableOp::Request, 0);
    t.apply(TableOp::Request, 0);
    assert_eq!((t.needed(0), t.holding(0)), (2, 0));
    t.apply(TableOp::Settle, 0);
    assert_eq!((t.needed(0), t.holding(0)), (1, 1));
    t.apply(TableOp::Cancel, 0);
    assert_eq!((t.needed(0), t.holding(0)), (0, 1));
    t.apply(TableOp::Release, 0);
    assert_eq!((t.needed(0), t.holding(0)), (0, 0));
}

#[test]
fn table_grow_adds_an_idle_entry() {
    let mut t = table(&[1], &[2]);
    t.grow();
    assert_eq!(t.len(), 2);
    assert_eq!((t.needed(0), t.holding(0)), (1, 2));
    assert_eq!((t.needed(1), t.holding(1)), (0, 0));
}

#[test]
fn thread_record_starts_idle_and_hands_out_its_tables() {
    let mut r = ThreadRecord::new(2, 3);
    assert_eq!(r.table(ResourceKind::Mutex).len(), 2);
    assert_eq!(r.table(ResourceKind::Semaphore).len(), 3);
    r.semaphore.request(2);
    assert_eq!(r.table(ResourceKind::Semaphore).needed(2), 1);
    assert_eq!(r.table(ResourceKind::Mutex).needed(1), 0);
    r.mutex.request(0);
    assert_eq!(r.table(ResourceKind::Mutex).needed(0), 1);
    assert_eq!(r.table(ResourceKind::Semaphore).needed(0), 0);
}

#[test]
fn no_threads_is_safe() {
    let tasks: Vec<Option<ThreadRecord>> = vec![];
    assert!(safe_with_available(&tasks, ResourceKind::Mutex, &vec![0, 0]));
    assert!(safe_with_capacity(&tasks, ResourceKind::Semaphore, &vec![1]));
    let tasks: Vec<Option<ThreadRecord>> = vec![None, None];
    assert!(safe_with_available(&tasks, ResourceKind::Mutex, &vec![]));
    assert!(safe_with_capacity(&tasks, ResourceKind::Semaphore, &vec![]));
}

#[test]
fn crossed_requests_are_unsafe() {
    // Thread 0 holds mutex 0 and asks for 1; thread 1 holds 1 and asks for 0.
    let tasks = vec![mutex_thread(&[0, 1], &[1, 0]), mutex_thread(&[1, 0], &[0, 1])];
    assert!(!safe_with_available(&tasks, ResourceKind::Mutex, &vec![0, 0]));
}

#[test]
fn one_sided_request_is_safe() {
    // Thread 1 asks for nothing, so it can finish and free mutex 1.
    let tasks = vec![mutex_thread(&[0, 1], &[1, 0]), mutex_thread(&[0, 0], &[0, 1])];
    assert!(safe_with_available(&tasks, ResourceKind::Mutex, &vec![0, 0]));
    // The order of the slots does not matter.
    let tasks = vec![mutex_thread(&[0, 0], &[0, 1]), mutex_thread(&[0, 1], &[1, 0])];
    assert!(safe_with_available(&tasks, ResourceKind::Mutex, &vec![0, 0]));
}

#[test]
fn empty_slots_count_as_finished() {
    let tasks = vec![None, mutex_thread(&[1], &[0]), None];
    assert!(safe_with_available(&tasks, ResourceKind::Mutex, &vec![1]));
    assert!(!safe_with_available(&tasks, ResourceKind::Mutex, &vec![0]));
}

#[test]
fn a_request_for_every_resource_must_fit() {
    // The thread asks for both mutexes and only one is free.
    let tasks = vec![mutex_thread(&[1, 1], &[0, 0])];
    assert!(!safe_with_available(&tasks, ResourceKind::Mutex, &vec![1, 0]));
    assert!(!safe_with_available(&tasks, ResourceKind::Mutex, &vec![0, 1]));
    assert!(safe_with_available(&tasks, ResourceKind::Mutex, &vec![1, 1]));
}

#[test]
fn the_detector_reads_the_tables_of_the_kind_asked_for() {
    let record = ThreadRecord { mutex: table(&[1], &[0]), semaphore: table(&[0], &[0]) };
    let tasks = vec![Some(record)];
    assert!(!safe_with_available(&tasks, ResourceKind::Mutex, &vec![0]));
    assert!(safe_with_available(&tasks, ResourceKind::Semaphore, &vec![0]));
}

#[test]
fn capacity_minus_held_is_where_the_search_starts() {
    // Capacity (10, 5, 7); the threads hold (7, 2, 5) together, so (3, 3, 2)
    // is free. The order 1, 3, 4, 0, 2 lets everyone finish.
    let tasks = vec![
        sem_thread(&[7, 4, 3], &[0, 1, 0]),
        sem_thread(&[1, 2, 2], &[2, 0, 0]),
        sem_thread(&[6, 0, 0], &[3, 0, 2]),
        sem_thread(&[0, 1, 1], &[2, 1, 1]),
        sem_thread(&[4, 3, 1], &[0, 0, 2]),
    ];
    assert!(safe_with_capacity(&tasks, ResourceKind::Semaphore, &vec![10, 5, 7]));
    // With one unit less of the second resource thread 0 can never finish:
    // it asks for four, and three is all that ever comes free.
    let tasks = vec![
        sem_thread(&[7, 4, 3], &[0, 1, 0]),
        sem_thread(&[1, 2, 2], &[2, 0, 0]),
        sem_thread(&[6, 0, 0], &[3, 0, 2]),
        sem_thread(&[0, 1, 1], &[2, 1, 1]),
        sem_thread(&[4, 3, 1], &[0, 0, 2]),
    ];
    assert!(!safe_with_capacity(&tasks, ResourceKind::Semaphore, &vec![10, 4, 7]));
}

#[test]
fn semaphore_cycle_is_unsafe() {
    // Each of two threads holds the one unit of a semaphore and asks for the
    // unit of the other.
    let tasks = vec![sem_thread(&[0, 1], &[1, 0]), sem_thread(&[1, 0], &[0, 1])];
    assert!(!safe_with_capacity(&tasks, ResourceKind::Semaphore, &vec![1, 1]));
    // With two units each there is room for both.
    let tasks = vec![sem_thread(&[0, 1], &[1, 0]), sem_thread(&[1, 0], &[0, 1])];
    assert!(safe_with_capacity(&tasks, ResourceKind::Semaphore, &vec![2, 2]));
}

#[test]
fn more_held_than_capacity_leaves_less_than_nothing() {
    // Two units are held of a semaphore that was made with one: what is left
    // is below zero, and even a thread that asks for nothing cannot start.
    let tasks = vec![sem_thread(&[0], &[2])];
    assert!(!safe_with_capacity(&tasks, ResourceKind::Semaphore, &vec![1]));
    let tasks = vec![sem_thread(&[0], &[1])];
    assert!(safe_with_capacity(&tasks, ResourceKind::Semaphore, &vec![1]));
}

#[test]
fn a_thread_may_wait_for_several_that_finish_first() {
    // Thread 0 needs three units; they come back one by one from the others.
    let tasks = vec![
        sem_thread(&[3], &[0]),
        sem_thread(&[0], &[1]),
        sem_thread(&[1], &[1]),
        sem_thread(&[2], &[1]),
    ];
    assert!(safe_with_capacity(&tasks, ResourceKind::Semaphore, &vec![3]));
    let tasks = vec![
        sem_thread(&[4], &[0]),
        sem_thread(&[0], &[1]),
        sem_thread(&[1], &[1]),
        sem_thread(&[2], &[1]),
    ];
    assert!(!safe_with_capacity(&tasks, ResourceKind::Semaphore, &vec![3]));
}
