//! The bare polling executor: a single FIFO queue and nothing else. Each
//! poll steps the front task once; a task that is not finished goes back to
//! the end of the queue, so the executor busy-polls instead of waiting for
//! notifications. It is the simplest — and deliberately least efficient —
//! of the schedulers here.
use vstd::prelude::*;

use crate::channel::{new_channel, send_value};
use crate::futures::{spec_step_outcome, spec_step_state, wf_computation, Computation, StepOutcome};
use crate::handle::JoinHandle;
use std::collections::VecDeque;

verus! {

broadcast use vstd::std_specs::vecdeque::group_vec_dequeue_axioms;

/// A record of one submitted computation and the sending half of its
/// one-shot result channel.
pub struct Task {
    pub computation: Computation,
    pub result_tx: std::sync::mpsc::Sender<u64>,
}

/// The polling executor: every task it owns sits in this one queue.
pub struct Executor {
    pub polling: VecDeque<Task>,
}

impl Executor {
    /// The queue of tasks, front first.
    pub open spec fn queued(self) -> Seq<Task> {
        self.polling@
    }

    /// Every queued computation can be stepped.
    pub open spec fn wf(self) -> bool {
        forall|i: int|
            0 <= i < self.queued().len() ==> wf_computation((#[trigger] self.queued()[i]).comp())
    }

    /// An empty executor.
    pub fn new() -> (r: Executor)
        ensures
            r.wf(),
            r.queued().len() == 0,
    {
        Executor { polling: VecDeque::new() }
    }

    /// Submit a computation: it goes to the back of the queue, and the
    /// returned join handle will retrieve its final value.
    pub fn spawn(&mut self, computation: Computation) -> (r: JoinHandle)
        requires
            old(self).wf(),
            wf_computation(computation),
        ensures
            final(self).wf(),
            final(self).queued().len() == old(self).queued().len() + 1,
            final(self).queued().subrange(0, old(self).queued().len() as int) == old(
                self,
            ).queued(),
            final(self).queued().last().comp() == computation,
            r.state() is Fresh,
    {
        let (result_tx, result_rx) = new_channel();
        self.polling.push_back(Task { computation, result_tx });
        proof {
            assert(self.queued().subrange(0, old(self).queued().len() as int) =~= old(
                self,
            ).queued());
        }
        JoinHandle::attach(result_rx)
    }

    /// One round of polling: step the task at the front of the queue once.
    /// If it completes, its value is delivered to its result channel and
    /// the task is discarded; if it suspends, it goes to the back of the
    /// queue to be polled again. An empty queue is left alone.
    pub fn poll(&mut self)
        requires
            old(self).wf(),
        ensures
            final(self).wf(),
            old(self).queued().len() == 0 ==> final(self).queued() == old(self).queued(),
            old(self).queued().len() > 0 ==> final(self).queued() == (
            match spec_step_outcome(old(self).queued()[0].comp()) {
                StepOutcome::Completed(_) => old(self).queued().drop_first(),
                StepOutcome::Suspended { .. } => old(self).queued().drop_first().push(
                    (Task {
                        computation: spec_step_state(old(self).queued()[0].comp()),
                        ..old(self).queued()[0]
                    }),
                ),
            }),
    {
        let popped = self.polling.pop_front();
        let mut task = match popped {
            Some(task) => task,
            None => {
                return ;
            },
        };
        let outcome = task.computation.step();
        match outcome {
            StepOutcome::Completed(value) => {
                let _ = send_value(&task.result_tx, value);
            },
            StepOutcome::Suspended { .. } => {
                self.polling.push_back(task);
            },
        }
    }

    /// How many tasks the executor still owns.
    pub fn queued_count(&self) -> (r: usize)
        ensures
            r == self.queued().len(),
    {
        self.polling.len()
    }
}

impl Task {
    /// The task's computation as it stands now.
    pub open spec fn comp(self) -> Computation {
        self.computation
    }
}

impl Default for Executor {
    /// An empty executor.
    fn default() -> (r: Executor)
        ensures
            r.wf(),
            r.queued().len() == 0,
    {
        Executor::new()
    }
}

} // verus!
