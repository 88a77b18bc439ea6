use task_core::manager::{add_task, fetch_task, TaskManager};
use task_core::stride::{
    stride_advance, stride_is_before, stride_pass, BIG_STRIDE, DEFAULT_PRIORITY, HALF_STRIDE,
    MIN_PRIORITY,
};
use task_core::task::{TaskContext, TaskControlBlock, TaskInfo, TaskStatus};

fn task_with(tid: usize, stride: u64, priority: usize) -> TaskControlBlock {
    let mut task = TaskControlBlock::new(0, tid);
    task.stride = stride;
    task.set_priority(priority);
    task
}

#[test]
fn fetch_on_empty_queue_returns_none_every_time() {
    let mut manager = TaskManager::new();
    for _ in 0..5 {
        assert!(manager.fetch().is_none());
        assert_eq!(manager.len(), 0);
    }
    manager.add(task_with(3, 0, 16));
    assert_eq!(manager.fetch().unwrap().tid, 3);
    assert!(manager.fetch().is_none());
    assert!(manager.fetch().is_none());
}

#[test]
fn fetch_takes_the_least_stride() {
    let mut manager = TaskManager::new();
    manager.add(task_with(0, 300, 16));
    manager.add(task_with(1, 100, 16));
    manager.add(task_with(2, 200, 16));
    assert_eq!(manager.len(), 3);
    assert_eq!(manager.fetch().unwrap().tid, 1);
    assert_eq!(manager.fetch().unwrap().tid, 2);
    assert_eq!(manager.fetch().unwrap().tid, 0);
    assert!(manager.fetch().is_none());
}

#[test]
fn fetch_breaks_ties_by_position() {
    let mut manager = TaskManager::new();
    manager.add(task_with(7, 50, 16));
    manager.add(task_with(8, 50, 16));
    manager.add(task_with(9, 50, 16));
    assert_eq!(manager.fetch().unwrap().tid, 7);
    assert_eq!(manager.fetch().unwrap().tid, 8);
    assert_eq!(manager.fetch().unwrap().tid, 9);
}

#[test]
fn fetch_removes_only_the_chosen_thread() {
    let mut manager = TaskManager::new();
    manager.add(task_with(0, 9, 16));
    manager.add(task_with(1, 3, 16));
    manager.add(task_with(2, 6, 16));
    let taken = manager.fetch().unwrap();
    assert_eq!(taken.tid, 1);
    assert_eq!(taken.stride, 3);
    assert_eq!(manager.len(), 2);
    manager.add(task_with(3, 7, 16));
    assert_eq!(manager.fetch().unwrap().tid, 2);
    assert_eq!(manager.fetch().unwrap().tid, 3);
    assert_eq!(manager.fetch().unwrap().tid, 0);
}

#[test]
fn fetch_orders_strides_across_the_wraparound() {
    let mut manager = TaskManager::new();
    manager.add(task_with(0, 5, 16));
    manager.add(task_with(1, u64::MAX - 10, 16));
    // The counter near the maximum is behind the one that has wrapped.
    assert_eq!(manager.fetch().unwrap().tid, 1);
    assert_eq!(manager.fetch().unwrap().tid, 0);

    let mut manager = TaskManager::new();
    manager.add(task_with(0, u64::MAX - 10, 16));
    manager.add(task_with(1, 5, 16));
    assert_eq!(manager.fetch().unwrap().tid, 0);
    assert_eq!(manager.fetch().unwrap().tid, 1);
}

#[test]
fn stride_comparison_is_wraparound_aware() {
    assert!(stride_is_before(1, 2));
    assert!(!stride_is_before(2, 1));
    assert!(!stride_is_before(7, 7));
    assert!(stride_is_before(u64::MAX, 0));
    assert!(!stride_is_before(0, u64::MAX));
    assert!(stride_is_before(u64::MAX - 3, 4));
    assert!(stride_is_before(0, HALF_STRIDE));
    assert!(!stride_is_before(0, HALF_STRIDE + 1));
}

#[test]
fn pass_is_the_stride_unit_divided_by_the_priority() {
    assert_eq!(BIG_STRIDE, u64::MAX);
    assert_eq!(MIN_PRIORITY, 2);
    assert_eq!(DEFAULT_PRIORITY, 16);
    assert_eq!(stride_pass(2), 0x7FFF_FFFF_FFFF_FFFF);
    assert_eq!(stride_pass(2), HALF_STRIDE);
    assert_eq!(stride_pass(16), 0x0FFF_FFFF_FFFF_FFFF);
    assert_eq!(stride_pass(3), 0x5555_5555_5555_5555);
    assert_eq!(stride_pass(usize::MAX), u64::MAX / (usize::MAX as u64));
}

#[test]
fn advance_wraps_around() {
    assert_eq!(stride_advance(0, 2), 0x7FFF_FFFF_FFFF_FFFF);
    assert_eq!(stride_advance(10, 16), 10 + 0x0FFF_FFFF_FFFF_FFFF);
    assert_eq!(stride_advance(u64::MAX, 2), 0x7FFF_FFFF_FFFF_FFFE);
    assert_eq!(stride_advance(u64::MAX - 1, 16), 0x0FFF_FFFF_FFFF_FFFD);
}

#[test]
fn charge_moves_the_stride_by_the_pass() {
    let mut task = task_with(0, 100, 4);
    task.charge();
    assert_eq!(task.stride, 100 + u64::MAX / 4);
    assert_eq!(task.priority, 4);
    assert_eq!(task.tid, 0);
}

#[test]
fn new_task_is_ready_with_default_priority() {
    let task = TaskControlBlock::new(4, 2);
    assert_eq!(task.pid, 4);
    assert_eq!(task.tid, 2);
    assert!(task.task_status == TaskStatus::Ready);
    assert!(task.task_cx == TaskContext { ra: 0, sp: 0, ret: 0 });
    assert_eq!(task.stride, 0);
    assert_eq!(task.priority, DEFAULT_PRIORITY);
    assert_eq!(task.start_time, 0);
    assert!(task.task_info.status == TaskStatus::Running);
    assert_eq!(task.task_info.time, 0);
    assert!(task.task_info.syscall_times.iter().all(|n| *n == 0));
}

#[test]
fn task_info_starts_blank() {
    let info = TaskInfo::new();
    assert!(info.status == TaskStatus::Running);
    assert_eq!(info.time, 0);
    assert_eq!(info.syscall_times.len(), 500);
    assert!(info.syscall_times.iter().all(|n| *n == 0));
}

#[test]
fn context_starts_cleared() {
    let cx = TaskContext::zero_init();
    assert_eq!(cx.ra, 0);
    assert_eq!(cx.sp, 0);
    assert_eq!(cx.ret, 0);
}

#[test]
fn free_functions_add_and_fetch() {
    let mut manager = TaskManager::new();
    assert!(fetch_task(&mut manager).is_none());
    add_task(&mut manager, task_with(0, 20, 16));
    add_task(&mut manager, task_with(1, 10, 16));
    assert_eq!(fetch_task(&mut manager).unwrap().tid, 1);
    assert_eq!(fetch_task(&mut manager).unwrap().tid, 0);
    assert!(fetch_task(&mut manager).is_none());
}

#[test]
fn remove_process_keeps_the_others_in_order() {
    let mut manager = TaskManager::new();
    let mut a = TaskControlBlock::new(1, 0);
    a.stride = 1;
    let mut b = TaskControlBlock::new(2, 0);
    b.stride = 1;
    let mut c = TaskControlBlock::new(1, 1);
    c.stride = 1;
    let mut d = TaskControlBlock::new(3, 0);
    d.stride = 1;
    manager.add(a);
    manager.add(b);
    manager.add(c);
    manager.add(d);
    manager.remove_process(1);
    assert_eq!(manager.len(), 2);
    assert_eq!(manager.fetch().unwrap().pid, 2);
    assert_eq!(manager.fetch().unwrap().pid, 3);
}

fn run_rounds(priorities: &[usize], rounds: usize) -> Vec<usize> {
    let mut manager = TaskManager::new();
    for (tid, p) in priorities.iter().enumerate() {
        manager.add(task_with(tid, 0, *p));
    }
    let mut turns = vec![0usize; priorities.len()];
    for _ in 0..rounds {
        let mut task = manager.fetch().unwrap();
        turns[task.tid] += 1;
        task.charge();
        manager.add(task);
    }
    turns
}

#[test]
fn turns_are_shared_in_proportion_to_priority() {
    let priorities = [16usize, 32, 48];
    let rounds = 6000;
    let turns = run_rounds(&priorities, rounds);
    assert_eq!(turns.iter().sum::<usize>(), rounds);
    let sum: usize = priorities.iter().sum();
    for (i, p) in priorities.iter().enumerate() {
        let expected = rounds * p / sum;
        let got = turns[i];
        assert!(got + 3 >= expected && got <= expected + 3, "thread {}: {} turns", i, got);
    }
}

#[test]
fn turns_stay_fair_across_the_wraparound() {
    // With priority 2 the pass is half the ring, so the counters wrap at
    // once and keep wrapping.
    let priorities = [2usize, 4, 6];
    let rounds = 1200;
    let turns = run_rounds(&priorities, rounds);
    assert_eq!(turns.iter().sum::<usize>(), rounds);
    for (i, p) in priorities.iter().enumerate() {
        let expected = rounds * p / 12;
        let got = turns[i];
        assert!(got + 3 >= expected && got <= expected + 3, "thread {}: {} turns", i, got);
    }
}

#[test]
fn gained_stride_never_differs_by_more_than_half_the_ring() {
    let priorities = [2usize, 3, 5, 7, 100];
    let mut manager = TaskManager::new();
    for (tid, p) in priorities.iter().enumerate() {
        manager.add(task_with(tid, 0, *p));
    }
    let mut turns = vec![0u128; priorities.len()];
    for _ in 0..2000 {
        let mut task = manager.fetch().unwrap();
        turns[task.tid] += 1;
        task.charge();
        manager.add(task);
        for i in 0..priorities.len() {
            for j in 0..priorities.len() {
                let gi = turns[i] * stride_pass(priorities[i]) as u128;
                let gj = turns[j] * stride_pass(priorities[j]) as u128;
                assert!(gi <= gj + HALF_STRIDE as u128);
            }
        }
    }
}

#[test]
fn every_thread_gets_a_turn_within_the_quota() {
    // A thread of priority p can have HALF / pass(p) turns while another has
    // none; once more rounds have passed than these add up to, all have run.
    let priorities = [2usize, 3, 16, 100, 1000];
    let quota: usize =
        priorities.iter().map(|p| (HALF_STRIDE / stride_pass(*p)) as usize).sum();
    let turns = run_rounds(&priorities, quota + 1);
    assert!(turns.iter().all(|t| *t >= 1), "{:?}", turns);
}

#[test]
fn shares_follow_priorities_within_the_stated_bounds() {
    let priorities = [16usize, 32, 48, 7];
    let s: i128 = priorities.iter().map(|p| *p as i128).sum();
    let big = BIG_STRIDE as i128;
    let half = HALF_STRIDE as i128;
    for rounds in [1usize, 10, 103, 5000] {
        let turns = run_rounds(&priorities, rounds);
        let m = rounds as i128;
        for (i, p) in priorities.iter().enumerate() {
            let t = turns[i] as i128;
            let p = *p as i128;
            assert!((t * (big - s + 1) - half * p) * s <= p * big * m);
            assert!(p * (big - s + 1) * m <= (t * big + half * p) * s);
        }
    }
    // After many rounds the share is the part of the priorities, within one
    // turn in two for each unit of priority.
    let rounds = 10300;
    let turns = run_rounds(&priorities, rounds);
    for (i, p) in priorities.iter().enumerate() {
        let exact = (rounds * p) as f64 / s as f64;
        assert!((turns[i] as f64 - exact).abs() <= *p as f64 / 2.0 + 1.0);
    }
}
