use wordfreq::pool::TaskOutcome;
use wordfreq::pool::WorkerPool;

#[test]
fn new_pool_is_all_free() {
    let pool = WorkerPool::new(4);
    assert_eq!(pool.free_count(), 4);
    assert_eq!(pool.busy_count(), 0);
}

#[test]
fn acquire_moves_a_worker_to_busy() {
    let mut pool = WorkerPool::new(3);
    let w = pool.acquire();
    assert_eq!(w, Some(2));
    assert_eq!(pool.free_count(), 2);
    assert_eq!(pool.busy_count(), 1);
}

#[test]
fn acquire_on_an_empty_pool_yields_none() {
    let mut pool = WorkerPool::new(1);
    assert_eq!(pool.acquire(), Some(0));
    assert_eq!(pool.acquire(), None);
    assert_eq!(pool.free_count(), 0);
    assert_eq!(pool.busy_count(), 1);
}

#[test]
fn release_returns_the_worker_after_success() {
    let mut pool = WorkerPool::new(2);
    let w = pool.acquire().unwrap();
    pool.release(w, TaskOutcome::Success);
    assert_eq!(pool.free_count(), 2);
    assert_eq!(pool.busy_count(), 0);
}

#[test]
fn release_returns_the_worker_after_failure() {
    let mut pool = WorkerPool::new(2);
    let w = pool.acquire().unwrap();
    pool.release(w, TaskOutcome::Failure);
    assert_eq!(pool.free_count(), 2);
    assert_eq!(pool.busy_count(), 0);
    assert_eq!(pool.free_count() + pool.busy_count(), 2);
}

#[test]
fn free_and_busy_always_partition_the_pool() {
    let mut pool = WorkerPool::new(3);
    assert_eq!(pool.free_count() + pool.busy_count(), 3);
    let a = pool.acquire().unwrap();
    assert_eq!(pool.free_count() + pool.busy_count(), 3);
    let b = pool.acquire().unwrap();
    assert_eq!(pool.free_count() + pool.busy_count(), 3);
    assert_ne!(a, b);
    pool.release(a, TaskOutcome::Failure);
    assert_eq!(pool.free_count() + pool.busy_count(), 3);
    pool.release(b, TaskOutcome::Success);
    assert_eq!(pool.free_count() + pool.busy_count(), 3);
    assert_eq!(pool.free_count(), 3);
}

#[test]
fn assign_round_pairs_free_workers_with_backlog_tail() {
    let mut pool = WorkerPool::new(2);
    let mut backlog = vec![
        String::from("f1"),
        String::from("f2"),
        String::from("f3"),
    ];
    let assigned = pool.assign_round(&mut backlog);
    assert_eq!(assigned.len(), 2);
    assert_eq!(assigned[0].0, 1);
    assert_eq!(assigned[0].1, "f3");
    assert_eq!(assigned[1].0, 0);
    assert_eq!(assigned[1].1, "f2");
    assert_eq!(backlog, vec![String::from("f1")]);
    assert_eq!(pool.free_count(), 0);
    assert_eq!(pool.busy_count(), 2);
}

#[test]
fn assign_round_stops_when_the_backlog_runs_out() {
    let mut pool = WorkerPool::new(4);
    let mut backlog = vec![String::from("only")];
    let assigned = pool.assign_round(&mut backlog);
    assert_eq!(assigned.len(), 1);
    assert_eq!(assigned[0].0, 3);
    assert_eq!(assigned[0].1, "only");
    assert!(backlog.is_empty());
    assert_eq!(pool.free_count(), 3);
    assert_eq!(pool.busy_count(), 1);
}
