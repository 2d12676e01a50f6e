use coop_runtime::executor::Executor;
use coop_runtime::futures::{Computation, CounterFuture};

#[test]
fn fresh_executor_is_quiescent() {
    let mut ex = Executor::new();
    assert_eq!(ex.queued_count(), 0);
    assert_eq!(ex.suspended_count(), 0);
    ex.run();
    assert!(ex.completions().is_empty());
}

#[test]
fn counting_computation_completes_at_four() {
    // A counting computation that suspends while the count is short of 4
    // and completes with 4: after run, the handle yields 4, and the count
    // itself shows the step function ran exactly 4 times.
    let mut ex = Executor::new();
    let mut handle = ex.spawn(Computation::Counter(CounterFuture::new(0, 4)));
    ex.run();
    assert_eq!(ex.queued_count(), 0);
    assert_eq!(ex.suspended_count(), 0);
    assert_eq!(ex.completions().as_slice(), &[(0, 4)]);
    assert_eq!(handle.retrieve(), Some(4));
}

#[test]
fn run_completes_every_submission() {
    let mut ex = Executor::new();
    let mut handles = Vec::new();
    for k in 1..6u32 {
        handles.push(ex.spawn(Computation::Counter(CounterFuture::new(0, k))));
    }
    handles.push(ex.spawn(Computation::Fixed { value: 99 }));
    ex.run();
    assert_eq!(ex.queued_count(), 0);
    assert_eq!(ex.suspended_count(), 0);
    assert_eq!(ex.completions().len(), 6);
    let expected: Vec<u64> = vec![1, 2, 3, 4, 5, 99];
    for (i, h) in handles.iter_mut().enumerate() {
        assert_eq!(h.retrieve(), Some(expected[i]));
    }
    for (id, value) in ex.completions().iter() {
        assert_eq!(expected[*id as usize], *value);
    }
}

#[test]
fn double_fire_causes_single_requeue() {
    // The waiter suspends once and completes on its second step. Firing
    // its handle twice for that one suspended period must re-queue it at
    // most once: it is stepped exactly twice, completes exactly once.
    let mut ex = Executor::new();
    let mut handle = ex.spawn(Computation::Waiter { rounds: 1, value: 7 });
    ex.poll();
    assert_eq!(ex.suspended_count(), 1);
    let resume = ex.resumption_handle(0);
    assert!(resume.fire());
    assert!(resume.fire());
    ex.run();
    assert_eq!(ex.completions().as_slice(), &[(0, 7)]);
    assert_eq!(handle.retrieve(), Some(7));
    // The second, stale notification and any later fire are harmless.
    assert!(resume.fire());
    ex.run();
    assert_eq!(ex.completions().as_slice(), &[(0, 7)]);
}

#[test]
fn requeue_moves_a_waiting_task_once() {
    let mut ex = Executor::new();
    let _handle = ex.spawn(Computation::Waiter { rounds: 2, value: 9 });
    ex.poll();
    assert_eq!(ex.queued_count(), 0);
    assert_eq!(ex.suspended_count(), 1);
    ex.requeue(0);
    assert_eq!(ex.queued_count(), 1);
    assert_eq!(ex.suspended_count(), 0);
    // A second absorption of the same identity changes nothing.
    ex.requeue(0);
    assert_eq!(ex.queued_count(), 1);
    assert_eq!(ex.suspended_count(), 0);
}

#[test]
fn requeue_of_unknown_identity_is_a_no_op() {
    let mut ex = Executor::new();
    let _handle = ex.spawn(Computation::Fixed { value: 1 });
    ex.requeue(99);
    assert_eq!(ex.queued_count(), 1);
    assert_eq!(ex.suspended_count(), 0);
}

#[test]
fn externally_resumed_waiter_completes() {
    let mut ex = Executor::new();
    let mut handle = ex.spawn(Computation::Waiter { rounds: 1, value: 21 });
    let resume = ex.resumption_handle(0);
    // The resumption arrives before the scheduler first parks the task;
    // the notification waits in the channel until the task suspends.
    assert!(resume.fire());
    ex.run();
    assert_eq!(handle.retrieve(), Some(21));
}

#[test]
fn retrieve_returns_the_same_value_every_time() {
    let mut ex = Executor::new();
    let mut handle = ex.spawn(Computation::Fixed { value: 42 });
    ex.run();
    let first = handle.retrieve();
    let second = handle.retrieve();
    assert_eq!(first, Some(42));
    assert_eq!(second, first);
}

#[test]
fn identities_count_up_from_zero() {
    let mut ex = Executor::new();
    assert_eq!(ex.spawned_count(), 0);
    let _a = ex.spawn(Computation::Fixed { value: 1 });
    let _b = ex.spawn(Computation::Fixed { value: 2 });
    assert_eq!(ex.spawned_count(), 2);
    ex.run();
    assert_eq!(ex.completions().as_slice(), &[(0, 1), (1, 2)]);
}

#[test]
fn duplicate_handles_resume_the_same_task() {
    let mut ex = Executor::new();
    let mut handle = ex.spawn(Computation::Waiter { rounds: 1, value: 3 });
    let resume = ex.resumption_handle(0);
    let copy = resume.duplicate();
    assert_eq!(copy.task_id(), 0);
    assert!(copy.fire());
    ex.run();
    assert_eq!(handle.retrieve(), Some(3));
}

#[test]
fn the_scheduler_can_be_run_again_after_new_submissions() {
    let mut ex = Executor::new();
    let mut first = ex.spawn(Computation::Counter(CounterFuture::new(0, 2)));
    ex.run();
    assert_eq!(ex.completions().len(), 1);
    let mut second = ex.spawn(Computation::Fixed { value: 8 });
    ex.run();
    // The earlier completion record stays; the new one is appended.
    assert_eq!(ex.completions().as_slice(), &[(0, 2), (1, 8)]);
    assert_eq!(first.retrieve(), Some(2));
    assert_eq!(second.retrieve(), Some(8));
}
