use thread_pool::{PoolState, Received, WorkerState};

fn take(p: &mut PoolState<u32>, id: usize) -> Option<u32> {
    match p.next_job(id) {
        Received::Job(j) => Some(j),
        _ => None,
    }
}

#[test]
fn new_pool_has_every_worker_waiting() {
    for n in 1..6usize {
        let p: PoolState<u32> = PoolState::new(n);
        assert_eq!(p.size(), n);
        assert_eq!(p.live_workers(), n);
        assert_eq!(p.pending_len(), 0);
        assert!(!p.is_released());
        for id in 0..n {
            assert_eq!(p.worker_state(id), WorkerState::Waiting);
        }
    }
}

#[test]
fn workers_run_concurrently_up_to_pool_size() {
    let mut p: PoolState<u32> = PoolState::new(3);
    for j in 0..4u32 {
        assert!(p.submit(j).is_ok());
    }
    assert_eq!(take(&mut p, 0), Some(0));
    assert_eq!(take(&mut p, 1), Some(1));
    assert_eq!(take(&mut p, 2), Some(2));
    for id in 0..3 {
        assert_eq!(p.worker_state(id), WorkerState::Executing);
    }
    assert_eq!(p.pending_len(), 1);
}

#[test]
fn every_job_is_taken_once_in_submission_order() {
    let mut p: PoolState<u32> = PoolState::new(2);
    let mut seen: Vec<u32> = Vec::new();
    for j in 10..20u32 {
        assert!(p.submit(j).is_ok());
    }
    let mut id: usize = 0;
    while let Some(j) = take(&mut p, id) {
        seen.push(j);
        p.job_finished(id, false);
        id = 1 - id;
    }
    assert_eq!(seen, (10..20u32).collect::<Vec<u32>>());
    assert_eq!(p.pending_len(), 0);
}

#[test]
fn release_drains_pending_jobs_before_closing() {
    let mut p: PoolState<u32> = PoolState::new(1);
    assert!(p.submit(1).is_ok());
    assert!(p.submit(2).is_ok());
    p.release();
    assert!(p.is_released());
    assert_eq!(take(&mut p, 0), Some(1));
    p.job_finished(0, false);
    assert_eq!(take(&mut p, 0), Some(2));
    p.job_finished(0, false);
    assert!(matches!(p.next_job(0), Received::Closed));
    assert_eq!(p.worker_state(0), WorkerState::Stopped);
}

#[test]
fn idle_worker_waits_while_pool_is_open() {
    let mut p: PoolState<u32> = PoolState::new(2);
    assert!(matches!(p.next_job(1), Received::Empty));
    assert_eq!(p.worker_state(1), WorkerState::Waiting);
    assert_eq!(p.live_workers(), 2);
}

#[test]
fn submit_after_release_and_drain_is_disconnected() {
    let mut p: PoolState<u32> = PoolState::new(2);
    assert!(p.submit(5).is_ok());
    p.release();
    assert_eq!(take(&mut p, 0), Some(5));
    assert!(matches!(p.next_job(1), Received::Closed));
    p.job_finished(0, false);
    assert!(matches!(p.next_job(0), Received::Closed));
    assert_eq!(p.live_workers(), 0);
    match p.submit(6) {
        Err(d) => assert_eq!(d.0, 6),
        Ok(()) => panic!("a drained pool accepted a job"),
    }
    assert_eq!(p.pending_len(), 0);
}

#[test]
fn interleaved_producers_lose_and_duplicate_nothing() {
    let mut p: PoolState<u32> = PoolState::new(3);
    let mut taken: Vec<(usize, u32)> = Vec::new();
    // two producers, one submitting even numbers and one odd, interleaved
    // with three workers taking and finishing jobs
    for round in 0..5u32 {
        assert!(p.submit(2 * round).is_ok());
        assert!(p.submit(2 * round + 1).is_ok());
        let id = (round as usize) % 3;
        if let Some(j) = take(&mut p, id) {
            taken.push((id, j));
            p.job_finished(id, false);
        }
    }
    for id in 0..3 {
        while let Some(j) = take(&mut p, id) {
            taken.push((id, j));
            p.job_finished(id, false);
        }
    }
    let jobs: Vec<u32> = taken.iter().map(|t| t.1).collect();
    assert_eq!(jobs, (0..10u32).collect::<Vec<u32>>());
}

#[test]
fn scenario_two_workers_four_jobs() {
    let mut p: PoolState<u32> = PoolState::new(2);
    for j in 0..4u32 {
        assert!(p.submit(j).is_ok());
    }
    let mut records: Vec<(usize, u32)> = Vec::new();
    // worker 0 takes a job; worker 1 takes the next while 0 still runs
    let a = take(&mut p, 0).unwrap();
    records.push((0, a));
    let b = take(&mut p, 1).unwrap();
    records.push((1, b));
    p.job_finished(1, false);
    let c = take(&mut p, 1).unwrap();
    records.push((1, c));
    p.job_finished(0, false);
    let d = take(&mut p, 0).unwrap();
    records.push((0, d));
    p.job_finished(0, false);
    p.job_finished(1, false);
    assert_eq!(records.len(), 4);
    assert!(records.iter().any(|r| r.0 == 0));
    assert!(records.iter().any(|r| r.0 == 1));
    assert_eq!(records, vec![(0, 0), (1, 1), (1, 2), (0, 3)]);
    assert_eq!(p.pending_len(), 0);
}

#[test]
fn scenario_single_worker_serializes_jobs() {
    let mut p: PoolState<u32> = PoolState::new(1);
    assert!(p.submit(1).is_ok());
    assert_eq!(take(&mut p, 0), Some(1));
    // the second job is submitted while the only worker runs the first
    assert!(p.submit(2).is_ok());
    assert_eq!(p.worker_state(0), WorkerState::Executing);
    assert_eq!(p.pending_len(), 1);
    p.job_finished(0, false);
    assert_eq!(take(&mut p, 0), Some(2));
    assert_eq!(p.pending_len(), 0);
}

#[test]
fn scenario_faulted_job_leaves_other_workers_serving() {
    let mut p: PoolState<u32> = PoolState::new(3);
    assert!(p.submit(100).is_ok());
    assert_eq!(take(&mut p, 0), Some(100));
    p.job_finished(0, true);
    assert_eq!(p.worker_state(0), WorkerState::Waiting);
    assert_eq!(p.live_workers(), 3);
    for j in 0..4u32 {
        assert!(p.submit(j).is_ok());
    }
    let mut ran: Vec<u32> = Vec::new();
    for id in [1usize, 2, 1, 2] {
        let j = take(&mut p, id).unwrap();
        ran.push(j);
        p.job_finished(id, false);
    }
    assert_eq!(ran, vec![0, 1, 2, 3]);
    assert_eq!(p.live_workers(), 3);
}

#[test]
fn faulted_worker_keeps_serving_the_queue() {
    let mut p: PoolState<u32> = PoolState::new(2);
    assert!(p.submit(1).is_ok());
    assert!(p.submit(2).is_ok());
    assert!(p.submit(3).is_ok());
    assert_eq!(take(&mut p, 0), Some(1));
    assert_eq!(take(&mut p, 1), Some(2));
    p.job_finished(0, true);
    // the faulted worker takes the next job while the other still runs
    assert_eq!(take(&mut p, 0), Some(3));
    assert_eq!(p.worker_state(0), WorkerState::Executing);
    assert_eq!(p.worker_state(1), WorkerState::Executing);
    p.job_finished(0, false);
    p.job_finished(1, true);
    assert_eq!(p.live_workers(), 2);
    assert!(p.submit(4).is_ok());
}
