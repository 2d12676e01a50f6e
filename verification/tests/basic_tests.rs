use coop_runtime::basic::Executor;
use coop_runtime::futures::{Computation, CounterFuture};

#[test]
fn poll_on_empty_queue_is_a_no_op() {
    let mut ex = Executor::new();
    ex.poll();
    assert_eq!(ex.queued_count(), 0);
}

#[test]
fn counter_is_stepped_exactly_its_step_count() {
    // Single queue, one polled task at a time: a computation needing
    // exactly 3 steps is still in the queue after 2 polls and gone after
    // the 3rd, having completed with its count — stepped exactly 3 times.
    let mut ex = Executor::default();
    let mut handle = ex.spawn(Computation::Counter(CounterFuture::new(0, 3)));
    ex.poll();
    ex.poll();
    assert_eq!(ex.queued_count(), 1);
    ex.poll();
    assert_eq!(ex.queued_count(), 0);
    assert_eq!(handle.retrieve(), Some(3));
}

#[test]
fn two_counters_round_robin() {
    let mut ex = Executor::new();
    let mut first = ex.spawn(Computation::Counter(CounterFuture::new(0, 2)));
    let mut second = ex.spawn(Computation::Counter(CounterFuture::new(0, 2)));
    for _ in 0..4 {
        ex.poll();
    }
    assert_eq!(ex.queued_count(), 0);
    assert_eq!(first.retrieve(), Some(2));
    assert_eq!(second.retrieve(), Some(2));
}

#[test]
fn immediate_computation_finishes_in_one_poll() {
    let mut ex = Executor::new();
    let mut handle = ex.spawn(Computation::Fixed { value: 10 });
    ex.poll();
    assert_eq!(ex.queued_count(), 0);
    assert_eq!(handle.retrieve(), Some(10));
}

#[test]
fn a_counter_already_past_its_target_completes_in_one_step() {
    let mut ex = Executor::new();
    let mut handle = ex.spawn(Computation::Counter(CounterFuture::new(5, 3)));
    ex.poll();
    assert_eq!(ex.queued_count(), 0);
    assert_eq!(handle.retrieve(), Some(6));
}
