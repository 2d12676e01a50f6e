//! Join handles: one-shot retrieval of a computation's final value.
//!
//! A handle offers two strategies. `retrieve` blocks directly on the result
//! channel. `step` makes the handle itself a suspendable computation: it
//! checks non-blockingly whether the value has arrived and, the first time
//! it has not, hands out a retrieval job — a dedicated blocking thread the
//! embedder runs off the stepping path. Once the value is in, the handle
//! caches it and every later retrieval returns that same cached value.
use vstd::prelude::*;

use crate::channel::{new_channel, recv_value, try_recv_value, TryRecvOutcome};

verus! {

/// The abstract state of a join handle.
pub enum HandleState {
    /// The handle still holds the result channel's receiving end.
    Fresh,
    /// The receiving end has moved to a retrieval thread; the handle waits
    /// for that thread to send the value back.
    Awaiting,
    /// The value arrived and is cached; it is what every later retrieval
    /// returns.
    Cached(u64),
}

/// What one step of a join handle reports.
#[derive(PartialEq, Eq, Structural, Clone, Copy, Debug)]
pub enum StepPoll {
    /// The value is available: this is it.
    Ready(u64),
    /// The value has not arrived yet: step again after a resumption.
    Pending,
    /// The value can never arrive: the computation's side of the result
    /// channel is gone without having delivered.
    Failed,
}

/// The blocking part of the cooperative retrieval strategy. The embedder
/// runs it on a dedicated thread: wait on `receiver` for the value, send it
/// into `value_back`, then fire the resumption handle of whoever stepped
/// the join handle.
pub struct RetrievalJob {
    pub receiver: std::sync::mpsc::Receiver<u64>,
    pub value_back: std::sync::mpsc::Sender<u64>,
}

/// A caller-facing handle for exactly-once retrieval of one computation's
/// final value.
pub struct JoinHandle {
    receiver: Option<std::sync::mpsc::Receiver<u64>>,
    back: Option<std::sync::mpsc::Receiver<u64>>,
    cache: Option<u64>,
}

impl JoinHandle {
    /// Which phase of retrieval the handle is in.
    pub closed spec fn state(self) -> HandleState {
        if self.cache is Some {
            HandleState::Cached(self.cache->0)
        } else if self.receiver.is_some() {
            HandleState::Fresh
        } else {
            HandleState::Awaiting
        }
    }

    /// A handle that will retrieve its value from `receiver`.
    pub fn attach(receiver: std::sync::mpsc::Receiver<u64>) -> (r: JoinHandle)
        ensures
            r.state() is Fresh,
    {
        JoinHandle { receiver: Some(receiver), back: None, cache: None }
    }

    /// Block until the value is delivered and return it; return the cached
    /// value at once if one retrieval already succeeded. Every successful
    /// retrieval of this handle returns one and the same value. `None`
    /// means the value can never arrive (the delivering side is gone).
    pub fn retrieve(&mut self) -> (r: Option<u64>)
        ensures
            old(self).state() matches HandleState::Cached(v) ==> r == Some(v)
                && *final(self) == *old(self),
            r matches Some(v) ==> final(self).state() == HandleState::Cached(v),
            r is None ==> final(self).state() == old(self).state(),
    {
        if let Some(v) = self.cache {
            return Some(v);
        }
        let got: Option<u64> = match &self.receiver {
            Some(rx) => recv_value(rx),
            None => match &self.back {
                Some(brx) => recv_value(brx),
                None => None,
            },
        };
        if let Some(v) = got {
            self.cache = Some(v);
            Some(v)
        } else {
            None
        }
    }

    /// One cooperative step of the retrieval. Non-blocking. A `Pending`
    /// answer with a job means the value had not arrived and the handle has
    /// given its receiver to that job: run the job on a thread and step
    /// again once it fires the resumption. A job is handed out at most
    /// once, on the first step that finds the value missing; after that the
    /// handle never starts another retrieval thread. Once `Ready(v)` has
    /// been answered, every later step answers the same `Ready(v)`.
    pub fn step(&mut self) -> (r: (StepPoll, Option<RetrievalJob>))
        ensures
            old(self).state() matches HandleState::Cached(v) ==> r.0 == StepPoll::Ready(v)
                && r.1 is None && *final(self) == *old(self),
            old(self).state() is Fresh ==> match r.0 {
                StepPoll::Ready(v) => final(self).state() == HandleState::Cached(v)
                    && r.1 is None,
                StepPoll::Pending => final(self).state() is Awaiting && r.1 is Some,
                StepPoll::Failed => final(self).state() is Fresh && r.1 is None,
            },
            old(self).state() is Awaiting ==> match r.0 {
                StepPoll::Ready(v) => final(self).state() == HandleState::Cached(v)
                    && r.1 is None,
                StepPoll::Pending => *final(self) == *old(self) && r.1 is None,
                StepPoll::Failed => final(self).state() is Awaiting && r.1 is None,
            },
            r.1 is Some ==> old(self).state() is Fresh && r.0 == StepPoll::Pending,
            r.0 matches StepPoll::Ready(v) ==> final(self).state() == HandleState::Cached(v),
    {
        if let Some(v) = self.cache {
            return (StepPoll::Ready(v), None);
        }
        if self.receiver.is_some() {
            let outcome = match &self.receiver {
                Some(rx) => try_recv_value(rx),
                None => TryRecvOutcome::Closed,
            };
            match outcome {
                TryRecvOutcome::Got(v) => {
                    self.cache = Some(v);
                    (StepPoll::Ready(v), None)
                },
                TryRecvOutcome::Empty => {
                    let (back_tx, back_rx) = new_channel();
                    let receiver = self.receiver.take().unwrap();
                    self.back = Some(back_rx);
                    (StepPoll::Pending, Some(RetrievalJob { receiver, value_back: back_tx }))
                },
                TryRecvOutcome::Closed => (StepPoll::Failed, None),
            }
        } else {
            let outcome = match &self.back {
                Some(brx) => try_recv_value(brx),
                None => TryRecvOutcome::Closed,
            };
            match outcome {
                TryRecvOutcome::Got(v) => {
                    self.cache = Some(v);
                    (StepPoll::Ready(v), None)
                },
                TryRecvOutcome::Empty => (StepPoll::Pending, None),
                TryRecvOutcome::Closed => (StepPoll::Failed, None),
            }
        }
    }
}

} // verus!
