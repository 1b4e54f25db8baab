use worker_pool::pool::{ThreadPool, WorkerState};

#[test]
fn new_spawns_requested_workers() {
    let pool = ThreadPool::<u64>::new(3);
    assert_eq!(pool.worker_count(), 3);
    assert_eq!(pool.running_workers(), 3);
    assert_eq!(pool.queue_len(), 0);
    assert!(!pool.is_stopping());
    assert!(pool.worker_is_running(0));
    assert!(pool.worker_is_running(1));
    assert!(pool.worker_is_running(2));
}

#[test]
fn single_worker_runs_in_submission_order() {
    let mut pool = ThreadPool::<&str>::new(1);
    pool.execute("A");
    pool.execute("B");
    let log = pool.dispose();
    assert_eq!(log, vec!["A", "B"]);
}

#[test]
fn hundred_items_all_executed_none_skipped() {
    let mut pool = ThreadPool::<u64>::new(4);
    for i in 0..100u64 {
        pool.execute(i);
    }
    let executed = pool.dispose();
    assert_eq!(executed.len(), 100);
    for (i, item) in executed.iter().enumerate() {
        assert_eq!(*item, i as u64);
    }
    assert_eq!(pool.running_workers(), 0);
    assert_eq!(pool.queue_len(), 0);
    assert!(pool.is_stopping());
}

#[test]
fn dispose_with_more_pending_items_than_workers() {
    let mut pool = ThreadPool::<u64>::new(2);
    for i in 0..10u64 {
        pool.execute(i);
    }
    let executed = pool.dispose();
    assert_eq!(executed, (0..10u64).collect::<Vec<u64>>());
    assert_eq!(pool.running_workers(), 0);
    assert_eq!(pool.queue_len(), 0);
}

#[test]
fn dispose_idle_pool_terminates_immediately() {
    let mut pool = ThreadPool::<u64>::new(3);
    let executed = pool.dispose();
    assert!(executed.is_empty());
    assert_eq!(pool.running_workers(), 0);
    assert_eq!(pool.queue_len(), 0);
    assert!(pool.is_stopping());
}

#[test]
fn failed_worker_costs_one_slot_not_the_pool() {
    let mut pool = ThreadPool::<u64>::new(4);
    pool.execute(10);
    pool.execute(20);
    pool.execute(30);
    pool.worker_failed(0);
    assert!(!pool.worker_is_running(0));
    assert!(pool.worker_is_running(1));
    let executed = pool.dispose();
    assert_eq!(executed, vec![10, 20, 30]);
    assert_eq!(pool.running_workers(), 0);
    // one stop signal was meant for the dead worker and is never consumed
    assert_eq!(pool.queue_len(), 1);
}

#[test]
fn all_workers_failed_discards_pending_work() {
    let mut pool = ThreadPool::<u64>::new(1);
    pool.execute(1);
    pool.execute(2);
    pool.worker_failed(0);
    let executed = pool.dispose();
    assert!(executed.is_empty());
    // the two never-dequeued items and the one stop signal stay queued
    assert_eq!(pool.queue_len(), 3);
    assert_eq!(pool.running_workers(), 0);
}

#[test]
fn worker_receives_work_then_stop() {
    let mut pool = ThreadPool::<u64>::new(2);
    pool.execute(5);
    assert_eq!(pool.step(0), Some(5));
    assert!(pool.worker_is_running(0));
    pool.broadcast_stop();
    assert!(pool.is_stopping());
    assert_eq!(pool.queue_len(), 2);
    assert_eq!(pool.step(0), None);
    assert!(!pool.worker_is_running(0));
    assert!(pool.worker_is_running(1));
    let rest = pool.drain();
    assert!(rest.is_empty());
    assert_eq!(pool.running_workers(), 0);
}

#[test]
fn busy_worker_does_not_block_others_dequeues() {
    // worker 0 dequeues an item and is "busy executing" it; worker 1 keeps
    // dequeuing meanwhile
    let mut pool = ThreadPool::<u64>::new(2);
    pool.execute(1);
    pool.execute(2);
    pool.execute(3);
    assert_eq!(pool.step(0), Some(1));
    assert_eq!(pool.step(1), Some(2));
    assert_eq!(pool.step(1), Some(3));
    let executed = pool.dispose();
    assert!(executed.is_empty());
    assert_eq!(pool.running_workers(), 0);
}

#[test]
fn worker_states_compare() {
    assert_eq!(WorkerState::Running, WorkerState::Running);
    assert_ne!(WorkerState::Running, WorkerState::Terminated);
}
