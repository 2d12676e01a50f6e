//! The notification and result-delivery conduits, built on `std::sync::mpsc`.
//!
//! The schedulers move identities of resumed tasks and completed values
//! through multi-producer single-consumer channels. What a receive returns
//! depends on what other threads have sent, so the wrappers here promise
//! nothing about the values that arrive: every caller in this crate handles
//! every possible outcome.
use vstd::prelude::*;

verus! {

#[verifier::external_type_specification]
#[verifier::external_body]
#[verifier::reject_recursive_types(T)]
pub struct ExSender<T>(std::sync::mpsc::Sender<T>);

#[verifier::external_type_specification]
#[verifier::external_body]
#[verifier::reject_recursive_types(T)]
pub struct ExReceiver<T>(std::sync::mpsc::Receiver<T>);

/// What a non-blocking receive found.
#[derive(PartialEq, Eq, Structural, Clone, Copy, Debug)]
pub enum TryRecvOutcome {
    /// A value had arrived.
    Got(u64),
    /// Nothing has arrived yet, but senders are still alive.
    Empty,
    /// Nothing has arrived and every sender is gone: nothing ever will.
    Closed,
}

/// Relies on `std::sync::mpsc::channel`: a connected sender/receiver pair.
#[verifier::external_body]
pub(crate) fn new_channel() -> (std::sync::mpsc::Sender<u64>, std::sync::mpsc::Receiver<u64>) {
    std::sync::mpsc::channel()
}

/// Relies on `std::sync::mpsc::Sender::send`: never blocks; `true` exactly
/// when the receiving end was still alive to take the value.
#[verifier::external_body]
pub(crate) fn send_value(tx: &std::sync::mpsc::Sender<u64>, v: u64) -> bool {
    tx.send(v).is_ok()
}

/// Relies on `std::sync::mpsc::Receiver::recv`: blocks until a value
/// arrives. `recv` reports failure only once every sender is dropped, and
/// `alive` keeps one sender of this very channel alive for the whole call,
/// so a value is the only possible return.
#[verifier::external_body]
pub(crate) fn recv_with(
    rx: &std::sync::mpsc::Receiver<u64>,
    alive: &std::sync::mpsc::Sender<u64>,
) -> u64 {
    let _ = alive;
    loop {
        if let Ok(v) = rx.recv() {
            return v;
        }
    }
}

/// Relies on `std::sync::mpsc::Receiver::recv`: blocks until a value
/// arrives (`Some`) or every sender is gone (`None`).
#[verifier::external_body]
pub(crate) fn recv_value(rx: &std::sync::mpsc::Receiver<u64>) -> Option<u64> {
    rx.recv().ok()
}

/// Relies on `std::sync::mpsc::Receiver::try_recv`: never blocks; reports a
/// value, an empty channel, or a channel no sender can reach any more.
#[verifier::external_body]
pub(crate) fn try_recv_value(rx: &std::sync::mpsc::Receiver<u64>) -> TryRecvOutcome {
    match rx.try_recv() {
        Ok(v) => TryRecvOutcome::Got(v),
        Err(std::sync::mpsc::TryRecvError::Empty) => TryRecvOutcome::Empty,
        Err(std::sync::mpsc::TryRecvError::Disconnected) => TryRecvOutcome::Closed,
    }
}

/// Relies on `std::sync::mpsc::Sender::clone`: another sender for the same
/// channel.
#[verifier::external_body]
pub(crate) fn clone_sender(tx: &std::sync::mpsc::Sender<u64>) -> std::sync::mpsc::Sender<u64> {
    tx.clone()
}

/// A resumption handle: fired to tell a scheduler that the suspended task
/// with this identity should be re-queued. It may be fired from any thread,
/// any number of times, including after the task has completed; the
/// scheduler re-queues a given suspended period at most once and ignores
/// identities that are not waiting.
pub struct ResumptionHandle {
    pub(crate) task_id: u64,
    pub(crate) tx: std::sync::mpsc::Sender<u64>,
}

impl ResumptionHandle {
    /// A handle that resumes task `task_id` through the notification
    /// sender `tx`.
    pub(crate) fn bind(task_id: u64, tx: std::sync::mpsc::Sender<u64>) -> (r: ResumptionHandle)
        ensures
            r.id() == task_id,
    {
        ResumptionHandle { task_id, tx }
    }

    /// The identity of the task this handle resumes.
    pub closed spec fn id(self) -> u64 {
        self.task_id
    }

    /// The identity of the task this handle resumes.
    pub fn task_id(&self) -> (r: u64)
        ensures
            r == self.id(),
    {
        self.task_id
    }

    /// Fire the handle: the bound identity goes into the scheduler's
    /// notification channel, without blocking. `false` means the
    /// scheduler has shut down; a resumption after shutdown or
    /// completion is a harmless no-op.
    pub fn fire(&self) -> bool {
        send_value(&self.tx, self.task_id)
    }

    /// Another handle for the same task: handles may be shared freely.
    pub fn duplicate(&self) -> (r: ResumptionHandle)
        ensures
            r.id() == self.id(),
    {
        ResumptionHandle { task_id: self.task_id, tx: clone_sender(&self.tx) }
    }
}

} // verus!
