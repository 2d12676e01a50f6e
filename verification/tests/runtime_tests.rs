use coop_runtime::futures::{Computation, CounterFuture};
use coop_runtime::runtime::{default_counts, dispatch, FutureType, Runtime, WorkerAction};

#[test]
fn dispatch_prefers_the_workers_own_lane() {
    assert_eq!(dispatch(FutureType::High, true, true), WorkerAction::RunHigh);
    assert_eq!(dispatch(FutureType::High, true, false), WorkerAction::RunHigh);
    assert_eq!(dispatch(FutureType::High, false, true), WorkerAction::RunLow);
    assert_eq!(dispatch(FutureType::High, false, false), WorkerAction::Idle);
    assert_eq!(dispatch(FutureType::Low, true, true), WorkerAction::RunLow);
    assert_eq!(dispatch(FutureType::Low, false, true), WorkerAction::RunLow);
    assert_eq!(dispatch(FutureType::Low, true, false), WorkerAction::RunHigh);
    assert_eq!(dispatch(FutureType::Low, false, false), WorkerAction::Idle);
}

#[test]
fn builders_set_the_worker_counts() {
    let rt = Runtime::new(4, 2).with_high_num(3).with_low_num(1);
    assert_eq!(rt.worker_counts(), (3, 1));
}

#[test]
fn high_and_low_three_step_computations_both_resolve() {
    // Two 3-step computations, one per lane, 2 High workers and 1 Low
    // worker: both resolve to 3.
    let mut rt = Runtime::new(2, 1);
    let mut high = rt.submit(Computation::Counter(CounterFuture::new(0, 3)), FutureType::High);
    let mut low = rt.submit(Computation::Counter(CounterFuture::new(0, 3)), FutureType::Low);
    rt.run();
    assert_eq!(high.retrieve(), Some(3));
    assert_eq!(low.retrieve(), Some(3));
    assert_eq!(rt.completions().len(), 2);
}

#[test]
fn high_lane_completes_before_low_under_equal_load() {
    // Equal-cost saturating load, more High workers than Low: every
    // High-submitted task completes before any same-cohort Low task.
    let mut rt = Runtime::new(2, 1);
    let mut high_ids = Vec::new();
    let mut low_ids = Vec::new();
    let mut handles = Vec::new();
    for _ in 0..4 {
        let h = rt.submit(Computation::Counter(CounterFuture::new(0, 3)), FutureType::High);
        high_ids.push(rt.submitted_count() - 1);
        handles.push(h);
    }
    for _ in 0..4 {
        let h = rt.submit(Computation::Counter(CounterFuture::new(0, 3)), FutureType::Low);
        low_ids.push(rt.submitted_count() - 1);
        handles.push(h);
    }
    rt.run();
    let order: Vec<u64> = rt.completions().iter().map(|p| p.0).collect();
    assert_eq!(order.len(), 8);
    let latest_high = order
        .iter()
        .enumerate()
        .filter(|(_, id)| high_ids.contains(id))
        .map(|(i, _)| i)
        .max()
        .unwrap();
    let earliest_low = order
        .iter()
        .enumerate()
        .filter(|(_, id)| low_ids.contains(id))
        .map(|(i, _)| i)
        .min()
        .unwrap();
    assert!(latest_high < earliest_low);
    for h in handles.iter_mut() {
        assert_eq!(h.retrieve(), Some(3));
    }
}

#[test]
fn a_high_worker_falls_back_to_low_work() {
    // Only Low work exists; High workers must still run it.
    let mut rt = Runtime::new(3, 1);
    let mut handles = Vec::new();
    for v in 0..6u64 {
        handles.push(rt.submit(Computation::Fixed { value: v }, FutureType::Low));
    }
    rt.run();
    assert_eq!(rt.completions().len(), 6);
    for (v, h) in handles.iter_mut().enumerate() {
        assert_eq!(h.retrieve(), Some(v as u64));
    }
}

#[test]
fn externally_resumed_waiter_runs_through_its_lane() {
    let mut rt = Runtime::new(1, 1);
    let mut handle = rt.submit(Computation::Waiter { rounds: 1, value: 17 }, FutureType::Low);
    let resume = rt.resumption_handle(0, FutureType::Low);
    assert!(resume.fire());
    rt.run();
    assert_eq!(handle.retrieve(), Some(17));
    assert_eq!(rt.completions().as_slice(), &[(0, 17)]);
    assert_eq!(rt.high_suspended_count(), 0);
    assert_eq!(rt.low_suspended_count(), 0);
}

#[test]
fn worker_step_serves_one_task() {
    let mut rt = Runtime::new(1, 1);
    let mut handle = rt.submit(Computation::Fixed { value: 11 }, FutureType::High);
    assert!(rt.worker_step(FutureType::Low));
    assert_eq!(handle.retrieve(), Some(11));
    assert!(!rt.worker_step(FutureType::Low));
}

#[test]
fn mixed_waiters_and_counters_across_lanes() {
    let mut rt = Runtime::new(2, 1);
    let mut a = rt.submit(Computation::Waiter { rounds: 1, value: 1 }, FutureType::High);
    let mut b = rt.submit(Computation::Counter(CounterFuture::new(0, 2)), FutureType::Low);
    let mut c = rt.submit(Computation::Fixed { value: 3 }, FutureType::Low);
    let resume = rt.resumption_handle(0, FutureType::High);
    assert!(resume.fire());
    rt.run();
    assert_eq!(a.retrieve(), Some(1));
    assert_eq!(b.retrieve(), Some(2));
    assert_eq!(c.retrieve(), Some(3));
    assert_eq!(rt.completions().len(), 3);
    assert_eq!(rt.high_suspended_count(), 0);
    assert_eq!(rt.low_suspended_count(), 0);
}

#[test]
fn lane_requeue_moves_a_waiting_task_once() {
    let mut rt = Runtime::new(1, 1);
    let _handle = rt.submit(Computation::Waiter { rounds: 2, value: 9 }, FutureType::Low);
    assert!(rt.worker_step(FutureType::Low));
    assert_eq!(rt.low_suspended_count(), 1);
    assert_eq!(rt.low_ready_count(), 0);
    rt.requeue(FutureType::Low, 0);
    assert_eq!(rt.low_ready_count(), 1);
    assert_eq!(rt.low_suspended_count(), 0);
    // A second absorption of the same identity changes nothing.
    rt.requeue(FutureType::Low, 0);
    assert_eq!(rt.low_ready_count(), 1);
    assert_eq!(rt.low_suspended_count(), 0);
}

#[test]
fn lane_requeue_ignores_the_wrong_lane_and_unknown_identities() {
    let mut rt = Runtime::new(1, 1);
    let _handle = rt.submit(Computation::Waiter { rounds: 1, value: 4 }, FutureType::High);
    assert!(rt.worker_step(FutureType::High));
    assert_eq!(rt.high_suspended_count(), 1);
    // The identity waits in the High lane: a Low-lane absorption of it, or
    // an absorption of an identity never issued, changes nothing.
    rt.requeue(FutureType::Low, 0);
    rt.requeue(FutureType::High, 99);
    assert_eq!(rt.high_suspended_count(), 1);
    assert_eq!(rt.high_ready_count(), 0);
    assert_eq!(rt.low_ready_count(), 0);
}

#[test]
fn default_counts_leave_two_cores_free_and_one_low_worker() {
    assert_eq!(default_counts(8), (6, 1));
    assert_eq!(default_counts(3), (1, 1));
    assert_eq!(default_counts(1), (1, 1));
}
