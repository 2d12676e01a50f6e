//! The notification executor: drains a FIFO ready queue, steps each task
//! once, parks suspended tasks in a waiting table keyed by identity, and
//! blocks on a notification channel until a resumption identifies the next
//! task to re-queue. It returns at quiescence: no task ready, none waiting.
use vstd::prelude::*;

use crate::channel::{clone_sender, new_channel, recv_with, send_value, ResumptionHandle};
use crate::futures::{
    final_value, lemma_completes_with_final_value, lemma_step_preserves_value,
    lemma_steps_needed_decreases, spec_step_outcome, spec_step_state, steps_needed, wf_computation,
    Computation, StepOutcome,
};
use crate::handle::JoinHandle;
use std::collections::HashMap;
use std::collections::VecDeque;

verus! {

broadcast use vstd::std_specs::hash::group_hash_axioms, vstd::std_specs::vecdeque::group_vec_dequeue_axioms;

/// A record of one submitted computation: its identity, its resumable state
/// machine, and the sending half of its one-shot result channel.
pub struct Task {
    pub task_id: u64,
    pub computation: Computation,
    pub result_tx: std::sync::mpsc::Sender<u64>,
}

impl Task {
    /// The task's identity: unique, assigned at submission, never reused.
    pub open spec fn id(self) -> u64 {
        self.task_id
    }

    /// The task's computation as it stands now.
    pub open spec fn comp(self) -> Computation {
        self.computation
    }
}

/// True when `id` is the identity of some task in the queue.
pub open spec fn queue_has(q: Seq<Task>, id: u64) -> bool {
    exists|i: int| 0 <= i < q.len() && q[i].id() == id
}

/// True when some task in the queue has identity `id` and is heading for
/// the value `v`.
pub open spec fn queue_has_value(q: Seq<Task>, id: u64, v: u64) -> bool {
    exists|i: int| 0 <= i < q.len() && q[i].id() == id && final_value(q[i].comp()) == v
}

/// True when the completion log records identity `id`.
pub open spec fn done_has(d: Seq<(u64, u64)>, id: u64) -> bool {
    exists|i: int| 0 <= i < d.len() && d[i].0 == id
}

/// True when the completion log records identity `id` with value `v`.
pub open spec fn done_has_value(d: Seq<(u64, u64)>, id: u64, v: u64) -> bool {
    exists|i: int| 0 <= i < d.len() && d[i] == (id, v)
}

/// The task with identity `id` is somewhere in the scheduler — ready,
/// waiting, or completed — and is heading for (or completed with) `v`.
pub open spec fn resolved_in(
    q: Seq<Task>,
    w: Map<u64, Task>,
    d: Seq<(u64, u64)>,
    id: u64,
    v: u64,
) -> bool {
    queue_has_value(q, id, v) || (w.contains_key(id) && final_value(w[id].comp()) == v)
        || done_has_value(d, id, v)
}

/// What one full drain of the ready queue leaves behind: each task is
/// stepped once, in FIFO order; a completed task appends its identity and
/// value to the log, a suspended one moves to the waiting table under its
/// identity.
pub open spec fn drain_model(q: Seq<Task>, w: Map<u64, Task>, d: Seq<(u64, u64)>) -> (
    Map<u64, Task>,
    Seq<(u64, u64)>,
)
    decreases q.len(),
{
    if q.len() == 0 {
        (w, d)
    } else {
        let t = q[0];
        let stepped = (Task { computation: spec_step_state(t.comp()), ..t });
        match spec_step_outcome(t.comp()) {
            StepOutcome::Completed(v) => drain_model(q.drop_first(), w, d.push((t.id(), v))),
            StepOutcome::Suspended { .. } => drain_model(
                q.drop_first(),
                w.insert(t.id(), stepped),
                d,
            ),
        }
    }
}

/// Re-queueing of a notified identity: a waiting task moves to the back of
/// the ready queue; an identity that is not waiting — already re-queued,
/// already completed, or never issued — changes nothing.
pub open spec fn requeue_model(q: Seq<Task>, w: Map<u64, Task>, id: u64) -> (
    Seq<Task>,
    Map<u64, Task>,
) {
    if w.contains_key(id) {
        (q.push(w[id]), w.remove(id))
    } else {
        (q, w)
    }
}

/// A single-lane scheduler: FIFO ready queue, waiting table, notification
/// channel, completion log, and the counter that issues identities.
pub struct Executor {
    polling: VecDeque<Task>,
    waiting: HashMap<u64, Task>,
    sender: std::sync::mpsc::Sender<u64>,
    receiver: std::sync::mpsc::Receiver<u64>,
    counter: u64,
    completions: Vec<(u64, u64)>,
}

impl Executor {
    /// The ready queue, front first.
    pub closed spec fn queued(self) -> Seq<Task> {
        self.polling@
    }

    /// The waiting table: suspended tasks by identity.
    pub closed spec fn suspended(self) -> Map<u64, Task> {
        self.waiting@
    }

    /// The completion log: identities and values, in completion order.
    pub closed spec fn done(self) -> Seq<(u64, u64)> {
        self.completions@
    }

    /// The identity the next submission will get.
    pub closed spec fn next_id(self) -> u64 {
        self.counter
    }

    /// The scheduler's invariant: identities are unique and never reused —
    /// every task is in exactly one place — all issued identities lie below
    /// the counter, waiting tasks sit under their own identity, and every
    /// queued or waiting computation can be stepped.
    pub open spec fn wf(self) -> bool {
        let q = self.queued();
        let w = self.suspended();
        let d = self.done();
        &&& forall|i: int, j: int|
            0 <= i < j < q.len() ==> (#[trigger] q[i]).id() != (#[trigger] q[j]).id()
        &&& forall|i: int|
            0 <= i < q.len() ==> (#[trigger] q[i]).id() < self.next_id() && wf_computation(
                q[i].comp(),
            ) && !self.suspended().contains_key(q[i].id()) && !done_has(d, q[i].id())
        &&& forall|id: u64|
            #[trigger] w.contains_key(id) ==> w[id].id() == id && id < self.next_id()
                && wf_computation(w[id].comp()) && !done_has(d, id)
        &&& forall|i: int, j: int| 0 <= i < j < d.len() ==> (#[trigger] d[i]).0 != (#[trigger] d[j]).0
        &&& forall|i: int| 0 <= i < d.len() ==> (#[trigger] d[i]).0 < self.next_id()
    }

    /// A fresh scheduler: nothing ready, nothing waiting, nothing done,
    /// identities to be issued from zero.
    pub fn new() -> (r: Executor)
        ensures
            r.wf(),
            r.queued() =~= Seq::<Task>::empty(),
            r.suspended() =~= Map::<u64, Task>::empty(),
            r.done() =~= Seq::<(u64, u64)>::empty(),
            r.next_id() == 0,
    {
        let (sender, receiver) = new_channel();
        Executor {
            polling: VecDeque::new(),
            waiting: HashMap::new(),
            sender,
            receiver,
            counter: 0,
            completions: Vec::new(),
        }
    }

    /// Submit a computation: it gets the next identity, goes to the back of
    /// the ready queue, and the returned join handle will retrieve its
    /// final value.
    pub fn spawn(&mut self, computation: Computation) -> (r: JoinHandle)
        requires
            old(self).wf(),
            wf_computation(computation),
            old(self).next_id() < u64::MAX,
        ensures
            final(self).wf(),
            final(self).queued().len() == old(self).queued().len() + 1,
            final(self).queued().subrange(0, old(self).queued().len() as int) == old(
                self,
            ).queued(),
            final(self).queued().last().id() == old(self).next_id(),
            final(self).queued().last().comp() == computation,
            final(self).suspended() == old(self).suspended(),
            final(self).done() == old(self).done(),
            final(self).next_id() == old(self).next_id() + 1,
            r.state() is Fresh,
    {
        let (result_tx, result_rx) = new_channel();
        let task = Task { task_id: self.counter, computation, result_tx };
        self.polling.push_back(task);
        self.counter = self.counter + 1;
        proof {
            assert(self.done() == old(self).done());
            assert(self.suspended() == old(self).suspended());
        }
        JoinHandle::attach(result_rx)
    }

    /// How many identities have been issued; the identities issued so far
    /// are exactly those below this count, in submission order from zero.
    pub fn spawned_count(&self) -> (r: u64)
        ensures
            r == self.next_id(),
    {
        self.counter
    }

    /// A resumption handle bound to this scheduler's notification channel.
    /// Firing it asks the scheduler to re-queue the task with this
    /// identity; an identity that is not suspended is ignored, so a stale
    /// fire is harmless.
    pub fn resumption_handle(&self, task_id: u64) -> (r: ResumptionHandle)
        ensures
            r.id() == task_id,
    {
        ResumptionHandle::bind(task_id, clone_sender(&self.sender))
    }

    /// The completion log: `(identity, value)` pairs in the order the tasks
    /// completed.
    pub fn completions(&self) -> (r: &Vec<(u64, u64)>)
        ensures
            r@ == self.done(),
    {
        &self.completions
    }

    /// How many tasks are ready to be stepped.
    pub fn queued_count(&self) -> (r: usize)
        ensures
            r == self.queued().len(),
    {
        self.polling.len()
    }

    /// How many tasks are suspended.
    pub fn suspended_count(&self) -> (r: usize)
        ensures
            r == self.suspended().len(),
    {
        self.waiting.len()
    }

    /// Drain the ready queue: step every ready task once, in FIFO order.
    /// A task that completes has its value appended to the completion log
    /// and delivered to its result channel; a suspended one is parked in
    /// the waiting table. A task that woke itself during its step has its
    /// identity already in the notification channel when this returns.
    pub fn poll(&mut self)
        requires
            old(self).wf(),
        ensures
            final(self).wf(),
            final(self).queued().len() == 0,
            (final(self).suspended(), final(self).done()) == drain_model(
                old(self).queued(),
                old(self).suspended(),
                old(self).done(),
            ),
            final(self).next_id() == old(self).next_id(),
            final(self).done().len() >= old(self).done().len(),
            final(self).done().subrange(0, old(self).done().len() as int) == old(self).done(),
    {
        let ghost q0 = self.queued();
        let ghost w0 = self.suspended();
        let ghost d0 = self.done();
        while self.polling.len() != 0
            invariant
                self.wf(),
                drain_model(q0, w0, d0) == drain_model(
                    self.queued(),
                    self.suspended(),
                    self.done(),
                ),
                self.next_id() == old(self).next_id(),
                self.done().len() >= d0.len(),
                self.done().subrange(0, d0.len() as int) == d0,
            decreases self.queued().len(),
        {
            let popped = self.polling.pop_front();
            let mut task = popped.unwrap();
            let ghost t0 = task;
            let outcome = task.computation.step();
            match outcome {
                StepOutcome::Completed(value) => {
                    proof {
                        assert(self.done().push((t0.id(), value)).subrange(0, d0.len() as int)
                            =~= self.done().subrange(0, d0.len() as int));
                    }
                    self.completions.push((task.task_id, value));
                    let _ = send_value(&task.result_tx, value);
                },
                StepOutcome::Suspended { wake } => {
                    if wake {
                        let _ = send_value(&self.sender, task.task_id);
                    }
                    self.waiting.insert(task.task_id, task);
                },
            }
        }
    }

    /// Absorb one notification: if the identity names a waiting task, move
    /// that task to the back of the ready queue; otherwise — the identity
    /// was already re-queued, already completed, or never issued — do
    /// nothing. Firing a handle twice for one suspended period therefore
    /// re-queues the task at most once.
    pub fn requeue(&mut self, task_id: u64)
        requires
            old(self).wf(),
        ensures
            final(self).wf(),
            (final(self).queued(), final(self).suspended()) == requeue_model(
                old(self).queued(),
                old(self).suspended(),
                task_id,
            ),
            final(self).done() == old(self).done(),
            final(self).next_id() == old(self).next_id(),
    {
        let found = self.waiting.remove(&task_id);
        match found {
            Some(task) => {
                let ghost t = task;
                self.polling.push_back(task);
                proof {
                    assert(self.done() == old(self).done());
                    assert(t == old(self).suspended()[task_id]);
                    assert(self.queued() == old(self).queued().push(t));
                    assert(self.suspended() == old(self).suspended().remove(task_id));
                }
            },
            None => {
                proof {
                    assert(self.done() == old(self).done());
                    assert(self.queued() == old(self).queued());
                    assert(self.suspended() == old(self).suspended().remove(task_id));
                    assert(self.suspended() =~= old(self).suspended());
                }
            },
        }
    }

    /// Run to quiescence: drain the ready queue, then block on the
    /// notification channel and step each re-queued task until no task is
    /// ready and none is waiting. Every task that was ready or waiting at
    /// the call is then completed, with its value, in the completion log.
    /// A stale notification — an identity that is not waiting — changes
    /// nothing; the scheduler tolerates a long run of consecutive stale
    /// notifications and gives up (leaving the remaining tasks suspended)
    /// only if that run never ends. Liveness rests on the callers: the
    /// handle of every suspended task must eventually fire.
    pub fn run(&mut self)
        requires
            old(self).wf(),
        ensures
            final(self).wf(),
            final(self).queued().len() == 0,
            final(self).next_id() == old(self).next_id(),
            final(self).done().len() >= old(self).done().len(),
            final(self).done().subrange(0, old(self).done().len() as int) == old(self).done(),
            forall|i: int|
                0 <= i < old(self).queued().len() ==> done_has_value(
                    final(self).done(),
                    (#[trigger] old(self).queued()[i]).id(),
                    final_value(old(self).queued()[i].comp()),
                ) || (final(self).suspended().contains_key(old(self).queued()[i].id())
                    && final_value(final(self).suspended()[old(self).queued()[i].id()].comp())
                    == final_value(old(self).queued()[i].comp())),
            forall|id: u64|
                #[trigger] old(self).suspended().contains_key(id) ==> done_has_value(
                    final(self).done(),
                    id,
                    final_value(old(self).suspended()[id].comp()),
                ) || (final(self).suspended().contains_key(id) && final_value(
                    final(self).suspended()[id].comp(),
                ) == final_value(old(self).suspended()[id].comp())),
            final(self).suspended().len() == 0 ==> forall|i: int|
                0 <= i < old(self).queued().len() ==> done_has_value(
                    final(self).done(),
                    (#[trigger] old(self).queued()[i]).id(),
                    final_value(old(self).queued()[i].comp()),
                ),
            final(self).suspended().len() == 0 ==> forall|id: u64|
                #[trigger] old(self).suspended().contains_key(id) ==> done_has_value(
                    final(self).done(),
                    id,
                    final_value(old(self).suspended()[id].comp()),
                ),
    {
        let ghost q0 = self.queued();
        let ghost w0 = self.suspended();
        let ghost d0 = self.done();
        self.poll();
        proof {
            assert forall|i: int| 0 <= i < q0.len() implies done_has_value(
                self.done(),
                (#[trigger] q0[i]).id(),
                final_value(q0[i].comp()),
            ) || (self.suspended().contains_key(q0[i].id()) && final_value(
                self.suspended()[q0[i].id()].comp(),
            ) == final_value(q0[i].comp())) by {
                let id = q0[i].id();
                let v = final_value(q0[i].comp());
                assert(queue_has_value(q0, id, v));
                lemma_drain_resolves(q0, w0, d0, id, v);
            }
            assert forall|id: u64| #[trigger] w0.contains_key(id) implies done_has_value(
                self.done(),
                id,
                final_value(w0[id].comp()),
            ) || (self.suspended().contains_key(id) && final_value(self.suspended()[id].comp())
                == final_value(w0[id].comp())) by {
                let v = final_value(w0[id].comp());
                lemma_drain_resolves(q0, w0, d0, id, v);
            }
        }
        let mut stale_budget: u64 = u64::MAX;
        let ghost n = old(self).next_id();
        loop
            invariant
                self.wf(),
                self.queued().len() == 0,
                self.next_id() == old(self).next_id(),
                n == old(self).next_id(),
                self.done().len() >= d0.len(),
                self.done().subrange(0, d0.len() as int) == d0,
                forall|i: int|
                    0 <= i < q0.len() ==> done_has_value(
                        self.done(),
                        (#[trigger] q0[i]).id(),
                        final_value(q0[i].comp()),
                    ) || (self.suspended().contains_key(q0[i].id()) && final_value(
                        self.suspended()[q0[i].id()].comp(),
                    ) == final_value(q0[i].comp())),
                forall|id: u64|
                    #[trigger] w0.contains_key(id) ==> done_has_value(
                        self.done(),
                        id,
                        final_value(w0[id].comp()),
                    ) || (self.suspended().contains_key(id) && final_value(
                        self.suspended()[id].comp(),
                    ) == final_value(w0[id].comp())),
            ensures
                self.wf(),
                self.queued().len() == 0,
                self.next_id() == old(self).next_id(),
                self.done().len() >= d0.len(),
                self.done().subrange(0, d0.len() as int) == d0,
                forall|i: int|
                    0 <= i < q0.len() ==> done_has_value(
                        self.done(),
                        (#[trigger] q0[i]).id(),
                        final_value(q0[i].comp()),
                    ) || (self.suspended().contains_key(q0[i].id()) && final_value(
                        self.suspended()[q0[i].id()].comp(),
                    ) == final_value(q0[i].comp())),
                forall|id: u64|
                    #[trigger] w0.contains_key(id) ==> done_has_value(
                        self.done(),
                        id,
                        final_value(w0[id].comp()),
                    ) || (self.suspended().contains_key(id) && final_value(
                        self.suspended()[id].comp(),
                    ) == final_value(w0[id].comp())),
            decreases waiting_steps(self.suspended(), n), stale_budget,
        {
            if self.waiting.is_empty() {
                break ;
            }
            let task_id = recv_with(&self.receiver, &self.sender);
            let hit = self.waiting.contains_key(&task_id);
            if hit {
                stale_budget = u64::MAX;
            } else {
                if stale_budget == 0 {
                    break ;
                }
                stale_budget = stale_budget - 1;
            }
            let ghost w1 = self.suspended();
            let ghost d1 = self.done();
            self.requeue(task_id);
            let ghost q2 = self.queued();
            let ghost w2 = self.suspended();
            self.poll();
            proof {
                if hit {
                    let t = w1[task_id];
                    assert(q2.len() == 1 && q2[0] == t);
                    assert(q2.drop_first() =~= Seq::<Task>::empty());
                    lemma_waiting_steps_remove(w1, task_id, n);
                    lemma_steps_needed_decreases(t.comp());
                    assert(t.id() == task_id);
                    match spec_step_outcome(t.comp()) {
                        StepOutcome::Completed(v) => {
                            assert(drain_model(q2, w2, d1) == drain_model(
                                q2.drop_first(),
                                w2,
                                d1.push((task_id, v)),
                            ));
                            assert(drain_model(q2.drop_first(), w2, d1.push((task_id, v))) == (
                                w2,
                                d1.push((task_id, v)),
                            ));
                        },
                        StepOutcome::Suspended { .. } => {
                            let stepped = (Task {
                                computation: spec_step_state(t.comp()),
                                ..t
                            });
                            assert(drain_model(q2, w2, d1) == drain_model(
                                q2.drop_first(),
                                w2.insert(task_id, stepped),
                                d1,
                            ));
                            assert(drain_model(q2.drop_first(), w2.insert(task_id, stepped), d1)
                                == (w2.insert(task_id, stepped), d1));
                            lemma_waiting_steps_insert(w2, task_id, stepped, n);
                        },
                    }
                } else {
                    assert(q2.len() == 0);
                    assert(drain_model(q2, w2, d1) == (w2, d1));
                    assert(waiting_steps(self.suspended(), n) == waiting_steps(w1, n));
                }
                assert(self.done().subrange(0, d0.len() as int) =~= d1.subrange(
                    0,
                    d0.len() as int,
                ));
                assert forall|i: int| 0 <= i < q0.len() implies done_has_value(
                    self.done(),
                    (#[trigger] q0[i]).id(),
                    final_value(q0[i].comp()),
                ) || (self.suspended().contains_key(q0[i].id()) && final_value(
                    self.suspended()[q0[i].id()].comp(),
                ) == final_value(q0[i].comp())) by {
                    let id = q0[i].id();
                    let v = final_value(q0[i].comp());
                    if w1.contains_key(id) && final_value(w1[id].comp()) == v && hit && id
                        == task_id {
                        assert(queue_has_value(q2, id, v));
                    }
                    assert(resolved_in(q2, w2, d1, id, v));
                    lemma_drain_resolves(q2, w2, d1, id, v);
                }
                assert forall|id: u64| #[trigger] w0.contains_key(id) implies done_has_value(
                    self.done(),
                    id,
                    final_value(w0[id].comp()),
                ) || (self.suspended().contains_key(id) && final_value(
                    self.suspended()[id].comp(),
                ) == final_value(w0[id].comp())) by {
                    let v = final_value(w0[id].comp());
                    if w1.contains_key(id) && final_value(w1[id].comp()) == v && hit && id
                        == task_id {
                        assert(queue_has_value(q2, id, v));
                    }
                    assert(resolved_in(q2, w2, d1, id, v));
                    lemma_drain_resolves(q2, w2, d1, id, v);
                }
            }
        }
        proof {
            if self.suspended().len() == 0 {
                assert forall|id2: u64| !(#[trigger] self.suspended().contains_key(id2)) by {
                    if self.suspended().contains_key(id2) {
                        assert(self.suspended().dom().contains(id2));
                        self.suspended().dom().lemma_len0_is_empty();
                    }
                }
            }
        }
    }
}

/// The steps still needed, in total, by the waiting tasks whose identities
/// lie below `n`.
pub open spec fn waiting_steps(w: Map<u64, Task>, n: u64) -> nat
    decreases n,
{
    if n == 0 {
        0
    } else {
        let k = (n - 1) as u64;
        waiting_steps(w, k) + if w.contains_key(k) {
            steps_needed(w[k].comp())
        } else {
            0
        }
    }
}

/// Two tables that agree on every identity below `n` have the same total.
pub(crate) proof fn lemma_waiting_steps_same(a: Map<u64, Task>, b: Map<u64, Task>, n: u64)
    requires
        forall|k: u64|
            k < n ==> ((#[trigger] a.contains_key(k)) <==> b.contains_key(k)) && (a.contains_key(
                k,
            ) ==> a[k] == b[k]),
    ensures
        waiting_steps(a, n) == waiting_steps(b, n),
    decreases n,
{
    if n > 0 {
        lemma_waiting_steps_same(a, b, (n - 1) as u64);
    }
}

/// Removing a waiting task takes exactly its outstanding steps out of the
/// total.
pub(crate) proof fn lemma_waiting_steps_remove(w: Map<u64, Task>, k: u64, n: u64)
    requires
        w.contains_key(k),
        k < n,
    ensures
        waiting_steps(w.remove(k), n) + steps_needed(w[k].comp()) == waiting_steps(w, n),
    decreases n,
{
    let m = (n - 1) as u64;
    if k == m {
        lemma_waiting_steps_same(w.remove(k), w, m);
    } else {
        lemma_waiting_steps_remove(w, k, m);
    }
}

/// Parking a task adds exactly its outstanding steps to the total.
pub(crate) proof fn lemma_waiting_steps_insert(w: Map<u64, Task>, k: u64, t: Task, n: u64)
    requires
        !w.contains_key(k),
        k < n,
    ensures
        waiting_steps(w.insert(k, t), n) == waiting_steps(w, n) + steps_needed(t.comp()),
    decreases n,
{
    let m = (n - 1) as u64;
    if k == m {
        lemma_waiting_steps_same(w.insert(k, t), w, m);
    } else {
        lemma_waiting_steps_insert(w, k, t, m);
    }
}

/// A value is delivered for an identity at most once: the completion log
/// of a well-formed scheduler never records one identity twice.
pub proof fn lemma_exactly_once_delivery(ex: Executor, i: int, j: int)
    requires
        ex.wf(),
        0 <= i < j < ex.done().len(),
    ensures
        ex.done()[i].0 != ex.done()[j].0,
{
}

/// Appending a task to a queue adds exactly that task's identity and
/// heading value, and keeps everything already there.
pub proof fn lemma_queue_push(q: Seq<Task>, t: Task, id: u64, v: u64)
    ensures
        queue_has(q.push(t), id) <==> (queue_has(q, id) || t.id() == id),
        queue_has_value(q.push(t), id, v) <==> (queue_has_value(q, id, v) || (t.id() == id
            && final_value(t.comp()) == v)),
{
    let q2 = q.push(t);
    assert(q2[q.len() as int] == t);
    if queue_has(q2, id) {
        let i = choose|i: int| 0 <= i < q2.len() && q2[i].id() == id;
        if i < q.len() {
            assert(q2[i] == q[i]);
        }
    }
    if queue_has(q, id) {
        let i = choose|i: int| 0 <= i < q.len() && q[i].id() == id;
        assert(q2[i] == q[i]);
    }
    if queue_has_value(q2, id, v) {
        let i = choose|i: int|
            0 <= i < q2.len() && q2[i].id() == id && final_value(q2[i].comp()) == v;
        if i < q.len() {
            assert(q2[i] == q[i]);
        }
    }
    if queue_has_value(q, id, v) {
        let i = choose|i: int|
            0 <= i < q.len() && q[i].id() == id && final_value(q[i].comp()) == v;
        assert(q2[i] == q[i]);
    }
}

/// Dropping the front of a queue keeps every identity but possibly the
/// front one, and loses nothing else.
pub proof fn lemma_queue_drop_first(q: Seq<Task>, id: u64, v: u64)
    requires
        q.len() > 0,
    ensures
        queue_has(q.drop_first(), id) ==> queue_has(q, id),
        queue_has_value(q.drop_first(), id, v) ==> queue_has_value(q, id, v),
        queue_has(q, id) && q[0].id() != id ==> queue_has(q.drop_first(), id),
        queue_has_value(q, id, v) && q[0].id() != id ==> queue_has_value(q.drop_first(), id, v),
{
    let rest = q.drop_first();
    if queue_has(rest, id) {
        let i = choose|i: int| 0 <= i < rest.len() && rest[i].id() == id;
        assert(rest[i] == q[i + 1]);
    }
    if queue_has_value(rest, id, v) {
        let i = choose|i: int|
            0 <= i < rest.len() && rest[i].id() == id && final_value(rest[i].comp()) == v;
        assert(rest[i] == q[i + 1]);
    }
    if queue_has(q, id) && q[0].id() != id {
        let i = choose|i: int| 0 <= i < q.len() && q[i].id() == id;
        assert(rest[i - 1] == q[i]);
    }
    if queue_has_value(q, id, v) && q[0].id() != id {
        let i = choose|i: int|
            0 <= i < q.len() && q[i].id() == id && final_value(q[i].comp()) == v;
        assert(rest[i - 1] == q[i]);
    }
}

/// Firing a resumption handle twice for one suspended period re-queues the
/// task at most once: absorbing the same identity a second time changes
/// nothing, because the first absorption took it out of the waiting table.
pub proof fn lemma_requeue_at_most_once(q: Seq<Task>, w: Map<u64, Task>, id: u64)
    ensures
        ({
            let (q1, w1) = requeue_model(q, w, id);
            requeue_model(q1, w1, id) == (q1, w1)
        }),
{
}

/// Draining the queue loses no task: whatever identity and value a task in
/// the ready queue, the waiting table, or the completion log was heading
/// for, it is still heading for — or has completed with — after the drain.
proof fn lemma_drain_resolves(q: Seq<Task>, w: Map<u64, Task>, d: Seq<(u64, u64)>, id: u64, v: u64)
    requires
        resolved_in(q, w, d, id, v),
        forall|i: int, j: int|
            0 <= i < j < q.len() ==> (#[trigger] q[i]).id() != (#[trigger] q[j]).id(),
        forall|i: int|
            0 <= i < q.len() ==> !w.contains_key((#[trigger] q[i]).id()) && wf_computation(
                q[i].comp(),
            ),
    ensures
        ({
            let (w2, d2) = drain_model(q, w, d);
            resolved_in(Seq::<Task>::empty(), w2, d2, id, v)
        }),
    decreases q.len(),
{
    if q.len() == 0 {
    } else {
        let t = q[0];
        let stepped = (Task { computation: spec_step_state(t.comp()), ..t });
        let rest = q.drop_first();
        assert forall|i: int, j: int| 0 <= i < j < rest.len() implies (#[trigger] rest[i]).id()
            != (#[trigger] rest[j]).id() by {
            assert(rest[i] == q[i + 1]);
            assert(rest[j] == q[j + 1]);
        }
        match spec_step_outcome(t.comp()) {
            StepOutcome::Completed(cv) => {
                let d2 = d.push((t.id(), cv));
                assert forall|i: int| 0 <= i < rest.len() implies !w.contains_key(
                    (#[trigger] rest[i]).id(),
                ) && wf_computation(rest[i].comp()) by {
                    assert(rest[i] == q[i + 1]);
                }
                if queue_has_value(q, id, v) {
                    let i = choose|i: int| 0 <= i < q.len() && q[i].id() == id && final_value(
                        q[i].comp(),
                    ) == v;
                    if i == 0 {
                        lemma_completes_with_final_value(t.comp());
                        assert(d2[d.len() as int] == (id, v));
                        assert(done_has_value(d2, id, v));
                    } else {
                        assert(rest[i - 1] == q[i]);
                        assert(queue_has_value(rest, id, v));
                    }
                } else if done_has_value(d, id, v) {
                    let j = choose|j: int| 0 <= j < d.len() && d[j] == (id, v);
                    assert(d2[j] == (id, v));
                    assert(done_has_value(d2, id, v));
                }
                lemma_drain_resolves(rest, w, d2, id, v);
            },
            StepOutcome::Suspended { .. } => {
                let w2 = w.insert(t.id(), stepped);
                assert forall|i: int| 0 <= i < rest.len() implies !w2.contains_key(
                    (#[trigger] rest[i]).id(),
                ) && wf_computation(rest[i].comp()) by {
                    assert(rest[i] == q[i + 1]);
                    assert(q[i + 1].id() != q[0].id());
                }
                if queue_has_value(q, id, v) {
                    let i = choose|i: int| 0 <= i < q.len() && q[i].id() == id && final_value(
                        q[i].comp(),
                    ) == v;
                    if i == 0 {
                        lemma_step_preserves_value(t.comp());
                        assert(w2.contains_key(id) && final_value(w2[id].comp()) == v);
                    } else {
                        assert(rest[i - 1] == q[i]);
                        assert(queue_has_value(rest, id, v));
                    }
                } else if w.contains_key(id) && final_value(w[id].comp()) == v {
                    assert(t.id() != id);
                    assert(w2.contains_key(id) && w2[id] == w[id]);
                }
                lemma_drain_resolves(rest, w2, d, id, v);
            },
        }
    }
}

} // verus!
