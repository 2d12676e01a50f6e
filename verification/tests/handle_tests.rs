use coop_runtime::executor::Executor;
use coop_runtime::futures::Computation;
use coop_runtime::handle::StepPoll;

#[test]
fn retrieval_thread_backed_handle_steps_exactly_twice() {
    // Stepped before its value exists, the handle suspends and hands out
    // the retrieval job exactly once; once the value has arrived and come
    // back, one more step completes it, and every later step just repeats
    // the cached answer.
    let mut ex = Executor::new();
    let mut handle = ex.spawn(Computation::Fixed { value: 10 });

    let (poll, job) = handle.step();
    assert_eq!(poll, StepPoll::Pending);
    let job = job.expect("the first miss hands out the retrieval job");

    // The computation completes and delivers its value.
    ex.run();

    // What the dedicated retrieval thread would do: block for the value,
    // send it back, then fire the caller's resumption.
    let value = job.receiver.recv().unwrap();
    assert_eq!(value, 10);
    job.value_back.send(value).unwrap();
    let resume = ex.resumption_handle(0);
    assert!(resume.fire());

    let (poll, job2) = handle.step();
    assert_eq!(poll, StepPoll::Ready(10));
    assert!(job2.is_none());

    // Never stepped into another retrieval thread again.
    let (poll, job3) = handle.step();
    assert_eq!(poll, StepPoll::Ready(10));
    assert!(job3.is_none());
}

#[test]
fn step_before_arrival_then_pending_while_thread_runs() {
    let mut ex = Executor::new();
    let mut handle = ex.spawn(Computation::Fixed { value: 5 });
    let (_, job) = handle.step();
    let job = job.unwrap();
    // The value has not come back yet: the handle stays pending and does
    // not start a second retrieval.
    let (poll, job2) = handle.step();
    assert_eq!(poll, StepPoll::Pending);
    assert!(job2.is_none());
    ex.run();
    let value = job.receiver.recv().unwrap();
    job.value_back.send(value).unwrap();
    let (poll, _) = handle.step();
    assert_eq!(poll, StepPoll::Ready(5));
}

#[test]
fn ready_value_is_taken_without_a_thread() {
    let mut ex = Executor::new();
    let mut handle = ex.spawn(Computation::Fixed { value: 8 });
    ex.run();
    let (poll, job) = handle.step();
    assert_eq!(poll, StepPoll::Ready(8));
    assert!(job.is_none());
}

#[test]
fn delivery_failure_is_reported() {
    let mut ex = Executor::new();
    let mut handle = ex.spawn(Computation::Fixed { value: 4 });
    // The executor is dropped with the task undone: the value can never
    // arrive.
    drop(ex);
    let (poll, job) = handle.step();
    assert_eq!(poll, StepPoll::Failed);
    assert!(job.is_none());
    assert_eq!(handle.retrieve(), None);
}

#[test]
fn cached_value_survives_both_retrieval_paths() {
    let mut ex = Executor::new();
    let mut handle = ex.spawn(Computation::Fixed { value: 6 });
    ex.run();
    assert_eq!(handle.retrieve(), Some(6));
    let (poll, _) = handle.step();
    assert_eq!(poll, StepPoll::Ready(6));
    assert_eq!(handle.retrieve(), Some(6));
}
