//! The two-lane priority dispatch layer. Two independent lanes, High and
//! Low, each pair a ready queue with a waiting table and a notification
//! channel; each lane is served by a configured number of workers. A High
//! worker gives High work first refusal and falls back to Low when High is
//! empty; Low workers mirror this, so neither lane starves while the other
//! has work. The ready queues are `flume` unbounded channels, as a real
//! worker pool would share them across threads.
use vstd::prelude::*;

use crate::channel::{clone_sender, new_channel, send_value, try_recv_value, ResumptionHandle,
    TryRecvOutcome};
use crate::executor::{
    done_has_value, lemma_queue_drop_first, lemma_queue_push, queue_has, queue_has_value,
    requeue_model, Task,
};
use crate::futures::{
    final_value, lemma_completes_with_final_value, lemma_step_preserves_value,
    lemma_steps_needed_decreases, spec_step_outcome, spec_step_state, steps_needed, wf_computation,
    Computation, CounterFuture, StepOutcome,
};
use crate::handle::JoinHandle;
use std::collections::HashMap;

verus! {

broadcast use vstd::std_specs::hash::group_hash_axioms;

/// The priority a computation is submitted with: which lane it joins.
#[derive(PartialEq, Eq, Structural, Clone, Copy, Debug)]
pub enum FutureType {
    High,
    Low,
}

/// What a worker decides to do for one step.
#[derive(PartialEq, Eq, Structural, Clone, Copy, Debug)]
pub enum WorkerAction {
    /// Take the next task from the High lane.
    RunHigh,
    /// Take the next task from the Low lane.
    RunLow,
    /// Both lanes are empty: wait out a bounded interval and look again.
    Idle,
}

/// The dispatch discipline: a worker serves its own lane first and falls
/// back to the other lane only when its own is empty; it idles only when
/// both are empty.
pub open spec fn spec_dispatch(lane: FutureType, high_ready: bool, low_ready: bool) -> WorkerAction {
    match lane {
        FutureType::High => if high_ready {
            WorkerAction::RunHigh
        } else if low_ready {
            WorkerAction::RunLow
        } else {
            WorkerAction::Idle
        },
        FutureType::Low => if low_ready {
            WorkerAction::RunLow
        } else if high_ready {
            WorkerAction::RunHigh
        } else {
            WorkerAction::Idle
        },
    }
}

/// Decide one worker step from the lane the worker belongs to and which
/// lanes have work ready.
pub fn dispatch(lane: FutureType, high_ready: bool, low_ready: bool) -> (r: WorkerAction)
    ensures
        r == spec_dispatch(lane, high_ready, low_ready),
{
    match lane {
        FutureType::High => if high_ready {
            WorkerAction::RunHigh
        } else if low_ready {
            WorkerAction::RunLow
        } else {
            WorkerAction::Idle
        },
        FutureType::Low => if low_ready {
            WorkerAction::RunLow
        } else if high_ready {
            WorkerAction::RunHigh
        } else {
            WorkerAction::Idle
        },
    }
}

/// The dispatch discipline in words: a worker never takes fallback work
/// while its own lane has work ready, and it never idles while any lane
/// has work — High gets preferential service, Low is never starved.
pub proof fn lemma_dispatch_discipline(lane: FutureType, high_ready: bool, low_ready: bool)
    ensures
        spec_dispatch(FutureType::High, high_ready, low_ready) == WorkerAction::RunLow
            ==> !high_ready,
        spec_dispatch(FutureType::Low, high_ready, low_ready) == WorkerAction::RunHigh
            ==> !low_ready,
        spec_dispatch(lane, high_ready, low_ready) == WorkerAction::Idle <==> !high_ready
            && !low_ready,
        high_ready ==> spec_dispatch(FutureType::High, high_ready, low_ready)
            == WorkerAction::RunHigh,
{
}

/// A lane's ready queue: a `flume` unbounded channel owning both of its
/// ends. Workers of a threaded pool would clone the receiving end; here the
/// queue is driven from one scheduler, so both ends stay together.
#[verifier::external_body]
pub struct LaneQueue {
    sender: flume::Sender<Task>,
    receiver: flume::Receiver<Task>,
}

/// What the lane queue holds, front first.
pub uninterp spec fn lane_contents(q: LaneQueue) -> Seq<Task>;

/// Relies on `flume::unbounded`: a fresh, empty channel.
#[verifier::external_body]
fn lane_new() -> (q: LaneQueue)
    ensures
        lane_contents(q) == Seq::<Task>::empty(),
{
    let (sender, receiver) = flume::unbounded();
    LaneQueue { sender, receiver }
}

/// Relies on `flume::Sender::send` on an unbounded channel: it never
/// blocks, appends the value at the back, and cannot fail here because the
/// queue owns its receiving end.
#[verifier::external_body]
fn lane_push(q: &mut LaneQueue, t: Task)
    ensures
        lane_contents(*final(q)) == lane_contents(*old(q)).push(t),
{
    let _ = q.sender.send(t);
}

/// Relies on `flume::Receiver::try_recv`: it never blocks and takes the
/// oldest value, if any — the channel is a FIFO queue.
#[verifier::external_body]
fn lane_pop(q: &mut LaneQueue) -> (r: Option<Task>)
    ensures
        lane_contents(*old(q)).len() == 0 ==> r is None && lane_contents(*final(q))
            == lane_contents(*old(q)),
        lane_contents(*old(q)).len() > 0 ==> r == Some(lane_contents(*old(q))[0])
            && lane_contents(*final(q)) == lane_contents(*old(q)).drop_first(),
{
    q.receiver.try_recv().ok()
}

/// Relies on `flume::Receiver::len`: how many values the channel holds.
#[verifier::external_body]
fn lane_len(q: &LaneQueue) -> (r: usize)
    ensures
        r == lane_contents(*q).len(),
{
    q.receiver.len()
}

/// The abstract state of one lane: its ready queue and its waiting table.
#[verifier::ext_equal]
pub ghost struct LaneModel {
    pub q: Seq<Task>,
    pub w: Map<u64, Task>,
}

/// The abstract state of the whole runtime: both lanes, the completion
/// log, and the identity counter.
#[verifier::ext_equal]
pub ghost struct RuntimeModel {
    pub high: LaneModel,
    pub low: LaneModel,
    pub done: Seq<(u64, u64)>,
    pub next: u64,
}

/// A lane's own invariant: queued identities are distinct, all identities
/// lie below the counter, waiting tasks sit under their own identity, no
/// task is both ready and waiting, and every computation can be stepped.
pub open spec fn lane_wf(l: LaneModel, next: u64) -> bool {
    &&& forall|i: int, j: int|
        0 <= i < j < l.q.len() ==> (#[trigger] l.q[i]).id() != (#[trigger] l.q[j]).id()
    &&& forall|i: int|
        0 <= i < l.q.len() ==> (#[trigger] l.q[i]).id() < next && wf_computation(l.q[i].comp())
            && !l.w.contains_key(l.q[i].id())
    &&& forall|id: u64|
        #[trigger] l.w.contains_key(id) ==> l.w[id].id() == id && id < next && wf_computation(
            l.w[id].comp(),
        )
}

/// True when the lane owns the task with this identity, ready or waiting.
pub open spec fn in_lane(l: LaneModel, id: u64) -> bool {
    queue_has(l.q, id) || l.w.contains_key(id)
}

/// The runtime's invariant: both lanes are well formed, no identity is in
/// both lanes, completed identities are distinct, below the counter, and
/// owned by neither lane — every task is in exactly one place.
pub open spec fn rt_wf(s: RuntimeModel) -> bool {
    &&& lane_wf(s.high, s.next)
    &&& lane_wf(s.low, s.next)
    &&& forall|id: u64| #[trigger] in_lane(s.high, id) ==> !in_lane(s.low, id)
    &&& forall|i: int, j: int|
        0 <= i < j < s.done.len() ==> (#[trigger] s.done[i]).0 != (#[trigger] s.done[j]).0
    &&& forall|i: int|
        0 <= i < s.done.len() ==> (#[trigger] s.done[i]).0 < s.next && !in_lane(
            s.high,
            s.done[i].0,
        ) && !in_lane(s.low, s.done[i].0)
}

/// The task with identity `id` is somewhere in the runtime — ready,
/// waiting, or completed — heading for (or completed with) the value `v`.
pub open spec fn rt_resolved(s: RuntimeModel, id: u64, v: u64) -> bool {
    ||| queue_has_value(s.high.q, id, v)
    ||| queue_has_value(s.low.q, id, v)
    ||| (s.high.w.contains_key(id) && final_value(s.high.w[id].comp()) == v)
    ||| (s.low.w.contains_key(id) && final_value(s.low.w[id].comp()) == v)
    ||| done_has_value(s.done, id, v)
}

/// Which lane a worker of `lane` serves in the given state, by the
/// dispatch discipline; `None` when both lanes are empty.
pub open spec fn spec_source(s: RuntimeModel, lane: FutureType) -> Option<FutureType> {
    match spec_dispatch(lane, s.high.q.len() > 0, s.low.q.len() > 0) {
        WorkerAction::RunHigh => Some(FutureType::High),
        WorkerAction::RunLow => Some(FutureType::Low),
        WorkerAction::Idle => None,
    }
}

/// One lane after its front task was stepped: a completed task leaves the
/// lane, a suspended one is parked in the lane's waiting table.
pub open spec fn lane_after_step(l: LaneModel) -> LaneModel {
    let t = l.q[0];
    let stepped = (Task { computation: spec_step_state(t.comp()), ..t });
    match spec_step_outcome(t.comp()) {
        StepOutcome::Completed(_) => LaneModel { q: l.q.drop_first(), w: l.w },
        StepOutcome::Suspended { .. } => LaneModel {
            q: l.q.drop_first(),
            w: l.w.insert(t.id(), stepped),
        },
    }
}

/// What one worker step does to the runtime: serve the lane the dispatch
/// discipline picks — step its front task once, log and deliver its value
/// if it completed, park it in that lane's waiting table if it suspended —
/// or nothing, when both lanes are empty.
pub open spec fn spec_worker_step(s: RuntimeModel, lane: FutureType) -> RuntimeModel {
    match spec_source(s, lane) {
        Option::None => s,
        Option::Some(src) => spec_serve(s, src),
    }
}

/// What absorbing one notified identity does to the runtime: in the named
/// lane, a waiting task with that identity moves to the back of the ready
/// queue; an identity not waiting there changes nothing (see
/// `requeue_model`).
pub open spec fn requeue_rt(s: RuntimeModel, order: FutureType, id: u64) -> RuntimeModel {
    if order is High {
        let (q, w) = requeue_model(s.high.q, s.high.w, id);
        RuntimeModel { high: LaneModel { q, w }, ..s }
    } else {
        let (q, w) = requeue_model(s.low.q, s.low.w, id);
        RuntimeModel { low: LaneModel { q, w }, ..s }
    }
}

/// The steps still needed, in total, by every task the queue holds.
pub open spec fn queue_steps(q: Seq<Task>) -> nat
    decreases q.len(),
{
    if q.len() == 0 {
        0
    } else {
        steps_needed(q[0].comp()) + queue_steps(q.drop_first())
    }
}

/// The steps still needed, in total, by every task the runtime owns.
pub open spec fn rt_steps(s: RuntimeModel) -> nat {
    queue_steps(s.high.q) + queue_steps(s.low.q) + crate::executor::waiting_steps(
        s.high.w,
        s.next,
    ) + crate::executor::waiting_steps(s.low.w, s.next)
}

/// A value is delivered for an identity at most once: the completion log
/// of a well-formed runtime never records one identity twice.
pub proof fn lemma_exactly_once_delivery(s: RuntimeModel, i: int, j: int)
    requires
        rt_wf(s),
        0 <= i < j < s.done.len(),
    ensures
        s.done[i].0 != s.done[j].0,
{
}

/// The default worker split for a machine offering this much parallelism:
/// every core but two serves the High lane — never fewer than one — and
/// one serves the Low lane.
pub fn default_counts(parallelism: usize) -> (r: (usize, usize))
    ensures
        r.0 == if parallelism > 2 {
            (parallelism - 2) as int
        } else {
            1int
        },
        r.1 == 1,
        r.0 >= 1,
{
    if parallelism > 2 {
        (parallelism - 2, 1)
    } else {
        (1, 1)
    }
}

/// The two-tier runtime: both lanes with their worker counts, the
/// notification channels, the completion log, and the identity counter.
pub struct Runtime {
    high_num: usize,
    low_num: usize,
    high_queue: LaneQueue,
    low_queue: LaneQueue,
    high_waiting: HashMap<u64, Task>,
    low_waiting: HashMap<u64, Task>,
    high_tx: std::sync::mpsc::Sender<u64>,
    high_rx: std::sync::mpsc::Receiver<u64>,
    low_tx: std::sync::mpsc::Sender<u64>,
    low_rx: std::sync::mpsc::Receiver<u64>,
    counter: u64,
    completions: Vec<(u64, u64)>,
}

impl Runtime {
    /// The runtime's abstract state.
    pub closed spec fn view(self) -> RuntimeModel {
        RuntimeModel {
            high: LaneModel { q: lane_contents(self.high_queue), w: self.high_waiting@ },
            low: LaneModel { q: lane_contents(self.low_queue), w: self.low_waiting@ },
            done: self.completions@,
            next: self.counter,
        }
    }

    /// How many workers serve the High lane.
    pub closed spec fn high_workers(self) -> usize {
        self.high_num
    }

    /// How many workers serve the Low lane.
    pub closed spec fn low_workers(self) -> usize {
        self.low_num
    }

    /// A fresh runtime with the given worker counts. Worker counts must be
    /// positive: a lane with no worker would strand its tasks.
    pub fn new(high_num: usize, low_num: usize) -> (r: Runtime)
        requires
            high_num >= 1,
            low_num >= 1,
        ensures
            rt_wf(r.view()),
            r.view().high.q.len() == 0,
            r.view().low.q.len() == 0,
            r.view().high.w =~= Map::<u64, Task>::empty(),
            r.view().low.w =~= Map::<u64, Task>::empty(),
            r.view().done.len() == 0,
            r.view().next == 0,
            r.high_workers() == high_num,
            r.low_workers() == low_num,
    {
        let (high_tx, high_rx) = new_channel();
        let (low_tx, low_rx) = new_channel();
        Runtime {
            high_num,
            low_num,
            high_queue: lane_new(),
            low_queue: lane_new(),
            high_waiting: HashMap::new(),
            low_waiting: HashMap::new(),
            high_tx,
            high_rx,
            low_tx,
            low_rx,
            counter: 0,
            completions: Vec::new(),
        }
    }

    /// This runtime with the High worker count replaced.
    pub fn with_high_num(self, num: usize) -> (r: Runtime)
        requires
            num >= 1,
        ensures
            r.high_workers() == num,
            r.low_workers() == self.low_workers(),
            r.view() == self.view(),
    {
        Runtime { high_num: num, ..self }
    }

    /// This runtime with the Low worker count replaced.
    pub fn with_low_num(self, num: usize) -> (r: Runtime)
        requires
            num >= 1,
        ensures
            r.low_workers() == num,
            r.high_workers() == self.high_workers(),
            r.view() == self.view(),
    {
        Runtime { low_num: num, ..self }
    }

    /// The configured worker counts, High then Low.
    pub fn worker_counts(&self) -> (r: (usize, usize))
        ensures
            r.0 == self.high_workers(),
            r.1 == self.low_workers(),
    {
        (self.high_num, self.low_num)
    }

    /// The completion log: `(identity, value)` pairs in completion order.
    pub fn completions(&self) -> (r: &Vec<(u64, u64)>)
        ensures
            r@ == self.view().done,
    {
        &self.completions
    }

    /// How many identities have been issued.
    pub fn submitted_count(&self) -> (r: u64)
        ensures
            r == self.view().next,
    {
        self.counter
    }

    /// How many High-lane tasks are ready to be stepped.
    pub fn high_ready_count(&self) -> (r: usize)
        ensures
            r == self.view().high.q.len(),
    {
        lane_len(&self.high_queue)
    }

    /// How many Low-lane tasks are ready to be stepped.
    pub fn low_ready_count(&self) -> (r: usize)
        ensures
            r == self.view().low.q.len(),
    {
        lane_len(&self.low_queue)
    }

    /// How many High-lane tasks are waiting.
    pub fn high_suspended_count(&self) -> (r: usize)
        ensures
            r == self.view().high.w.len(),
    {
        self.high_waiting.len()
    }

    /// How many Low-lane tasks are waiting.
    pub fn low_suspended_count(&self) -> (r: usize)
        ensures
            r == self.view().low.w.len(),
    {
        self.low_waiting.len()
    }

    /// A resumption handle for the task with this identity, bound to its
    /// lane's notification channel.
    pub fn resumption_handle(&self, task_id: u64, order: FutureType) -> (r: ResumptionHandle)
        ensures
            r.id() == task_id,
    {
        match order {
            FutureType::High => ResumptionHandle::bind(task_id, clone_sender(&self.high_tx)),
            FutureType::Low => ResumptionHandle::bind(task_id, clone_sender(&self.low_tx)),
        }
    }

    /// Submit a computation to the chosen lane: it gets the next identity
    /// and joins the back of that lane's ready queue; the returned join
    /// handle will retrieve its final value.
    pub fn submit(&mut self, computation: Computation, order: FutureType) -> (r: JoinHandle)
        requires
            rt_wf(old(self).view()),
            wf_computation(computation),
            old(self).view().next < u64::MAX,
        ensures
            rt_wf(final(self).view()),
            final(self).view().next == old(self).view().next + 1,
            final(self).view().done == old(self).view().done,
            order is High ==> final(self).view().high.q.len() == old(self).view().high.q.len() + 1
                && final(self).view().high.q.last().id() == old(self).view().next && final(self).view().high.q.last().comp() == computation && final(self).view().high.q.subrange(
                0,
                old(self).view().high.q.len() as int,
            ) == old(self).view().high.q && final(self).view().low =~= old(self).view().low,
            order is Low ==> final(self).view().low.q.len() == old(self).view().low.q.len() + 1
                && final(self).view().low.q.last().id() == old(self).view().next && final(self).view().low.q.last().comp() == computation && final(self).view().low.q.subrange(
                0,
                old(self).view().low.q.len() as int,
            ) == old(self).view().low.q && final(self).view().high =~= old(self).view().high,
            final(self).high_workers() == old(self).high_workers(),
            final(self).low_workers() == old(self).low_workers(),
            r.state() is Fresh,
    {
        let (result_tx, result_rx) = new_channel();
        let task = Task { task_id: self.counter, computation, result_tx };
        match order {
            FutureType::High => lane_push(&mut self.high_queue, task),
            FutureType::Low => lane_push(&mut self.low_queue, task),
        }
        self.counter = self.counter + 1;
        proof {
            let s0 = old(self).view();
            let s1 = self.view();
            let t = (Task {
                task_id: s0.next,
                computation,
                result_tx: if order is High {
                    s1.high.q.last().result_tx
                } else {
                    s1.low.q.last().result_tx
                },
            });
            assert(s1.done == s0.done);
            if order is High {
                assert(s1.high.q == s0.high.q.push(t));
                assert(s1.high.q.subrange(0, s0.high.q.len() as int) =~= s0.high.q);
                assert(s1.low =~= s0.low);
            } else {
                assert(s1.low.q == s0.low.q.push(t));
                assert(s1.low.q.subrange(0, s0.low.q.len() as int) =~= s0.low.q);
                assert(s1.high =~= s0.high);
            }
            assert forall|id: u64| #[trigger] in_lane(s1.high, id) implies !in_lane(
                s1.low,
                id,
            ) by {
                lemma_queue_push(s0.high.q, t, id, 0);
                lemma_queue_push(s0.low.q, t, id, 0);
                if in_lane(s0.high, id) {
                    if queue_has(s1.low.q, id) {
                        assert(in_lane(s0.low, id) || id == s0.next);
                        if id == s0.next {
                            assert(queue_has(s0.high.q, id) || s0.high.w.contains_key(id));
                        }
                    }
                }
            }
            assert forall|i: int| 0 <= i < s1.done.len() implies (#[trigger] s1.done[i]).0
                < s1.next && !in_lane(s1.high, s1.done[i].0) && !in_lane(
                s1.low,
                s1.done[i].0,
            ) by {
                lemma_queue_push(s0.high.q, t, s1.done[i].0, 0);
                lemma_queue_push(s0.low.q, t, s1.done[i].0, 0);
            }
        }
        JoinHandle::attach(result_rx)
    }

    /// Serve one task from the given lane: pop its front task, step it
    /// once, and route the result — the completion log and result channel
    /// on completion, the lane's waiting table (and, for a self-wake, its
    /// notification channel) on suspension.
    fn serve(&mut self, src: FutureType) -> (r: bool)
        requires
            rt_wf(old(self).view()),
            src is High ==> old(self).view().high.q.len() > 0,
            src is Low ==> old(self).view().low.q.len() > 0,
        ensures
            rt_wf(final(self).view()),
            final(self).view() == spec_serve(old(self).view(), src),
            final(self).view().next == old(self).view().next,
            final(self).high_workers() == old(self).high_workers(),
            final(self).low_workers() == old(self).low_workers(),
            old(self).view().done.is_prefix_of(final(self).view().done),
            rt_steps(final(self).view()) + 1 == rt_steps(old(self).view()),
            forall|id: u64, v: u64|
                #[trigger] rt_resolved(old(self).view(), id, v) ==> rt_resolved(
                    final(self).view(),
                    id,
                    v,
                ),
            r,
    {
        let ghost s0 = self.view();
        let ghost l0 = if src is High {
            s0.high
        } else {
            s0.low
        };
        let popped = match src {
            FutureType::High => lane_pop(&mut self.high_queue),
            FutureType::Low => lane_pop(&mut self.low_queue),
        };
        let mut task = popped.unwrap();
        let ghost t0 = task;
        let outcome = task.computation.step();
        match outcome {
            StepOutcome::Completed(value) => {
                self.completions.push((task.task_id, value));
                let _ = send_value(&task.result_tx, value);
            },
            StepOutcome::Suspended { wake } => {
                match src {
                    FutureType::High => {
                        if wake {
                            let _ = send_value(&self.high_tx, task.task_id);
                        }
                        self.high_waiting.insert(task.task_id, task);
                    },
                    FutureType::Low => {
                        if wake {
                            let _ = send_value(&self.low_tx, task.task_id);
                        }
                        self.low_waiting.insert(task.task_id, task);
                    },
                }
            },
        }
        proof {
            lemma_serve_shape(s0, src, self.view(), t0);
        }
        true
    }

    /// One worker step for a worker of the given lane: serve the lane the
    /// dispatch discipline picks, or do nothing when both lanes are empty.
    /// Returns whether a task was served.
    pub fn worker_step(&mut self, lane: FutureType) -> (progressed: bool)
        requires
            rt_wf(old(self).view()),
        ensures
            rt_wf(final(self).view()),
            final(self).view() == spec_worker_step(old(self).view(), lane),
            progressed == (spec_source(old(self).view(), lane) is Some),
            final(self).view().next == old(self).view().next,
            final(self).high_workers() == old(self).high_workers(),
            final(self).low_workers() == old(self).low_workers(),
            old(self).view().done.is_prefix_of(final(self).view().done),
            rt_steps(final(self).view()) <= rt_steps(old(self).view()),
            progressed ==> rt_steps(final(self).view()) + 1 == rt_steps(old(self).view()),
            !progressed ==> *final(self) == *old(self),
            forall|id: u64, v: u64|
                #[trigger] rt_resolved(old(self).view(), id, v) ==> rt_resolved(
                    final(self).view(),
                    id,
                    v,
                ),
    {
        let high_ready = lane_len(&self.high_queue) > 0;
        let low_ready = lane_len(&self.low_queue) > 0;
        match dispatch(lane, high_ready, low_ready) {
            WorkerAction::Idle => {
                proof {
                    assert(self.view().done.subrange(0, self.view().done.len() as int)
                        =~= self.view().done);
                }
                false
            },
            WorkerAction::RunHigh => self.serve(FutureType::High),
            WorkerAction::RunLow => self.serve(FutureType::Low),
        }
    }

    /// Absorb one notified identity for the given lane: if it names a task
    /// waiting in that lane, move that task to the back of the lane's
    /// ready queue; otherwise — the identity was already re-queued,
    /// already completed, never issued, or waiting in the other lane — do
    /// nothing. Firing a handle twice for one suspended period therefore
    /// re-queues the task at most once.
    pub fn requeue(&mut self, order: FutureType, task_id: u64)
        requires
            rt_wf(old(self).view()),
        ensures
            rt_wf(final(self).view()),
            final(self).view() == requeue_rt(old(self).view(), order, task_id),
            final(self).view().done == old(self).view().done,
            final(self).view().next == old(self).view().next,
            final(self).high_workers() == old(self).high_workers(),
            final(self).low_workers() == old(self).low_workers(),
            rt_steps(final(self).view()) == rt_steps(old(self).view()),
            forall|id: u64, v: u64|
                #[trigger] rt_resolved(old(self).view(), id, v) ==> rt_resolved(
                    final(self).view(),
                    id,
                    v,
                ),
    {
        let found = match order {
            FutureType::High => self.high_waiting.remove(&task_id),
            FutureType::Low => self.low_waiting.remove(&task_id),
        };
        match found {
            Some(task) => {
                let ghost t = task;
                match order {
                    FutureType::High => lane_push(&mut self.high_queue, task),
                    FutureType::Low => lane_push(&mut self.low_queue, task),
                }
                proof {
                    lemma_absorb_shape(old(self).view(), order, self.view(), task_id, t);
                    assert(self.view() =~= requeue_rt(old(self).view(), order, task_id));
                }
            },
            None => {
                proof {
                    assert(self.view() =~= old(self).view());
                    assert(self.view() =~= requeue_rt(old(self).view(), order, task_id));
                }
            },
        }
    }

    /// Absorb up to `budget` notifications from the given lane's channel,
    /// without blocking: each one that names a task waiting in that lane
    /// moves it to the back of the lane's ready queue; stale identities
    /// change nothing. Stops early when the channel runs dry.
    pub fn absorb(&mut self, order: FutureType, budget: usize)
        requires
            rt_wf(old(self).view()),
        ensures
            rt_wf(final(self).view()),
            final(self).view().done == old(self).view().done,
            final(self).view().next == old(self).view().next,
            final(self).high_workers() == old(self).high_workers(),
            final(self).low_workers() == old(self).low_workers(),
            rt_steps(final(self).view()) == rt_steps(old(self).view()),
            forall|id: u64, v: u64|
                #[trigger] rt_resolved(old(self).view(), id, v) ==> rt_resolved(
                    final(self).view(),
                    id,
                    v,
                ),
    {
        let mut i: usize = 0;
        while i < budget
            invariant
                i <= budget,
                rt_wf(self.view()),
                self.view().done == old(self).view().done,
                self.view().next == old(self).view().next,
                self.high_workers() == old(self).high_workers(),
                self.low_workers() == old(self).low_workers(),
                rt_steps(self.view()) == rt_steps(old(self).view()),
                forall|id: u64, v: u64|
                    #[trigger] rt_resolved(old(self).view(), id, v) ==> rt_resolved(
                        self.view(),
                        id,
                        v,
                    ),
            ensures
                rt_wf(self.view()),
                self.view().done == old(self).view().done,
                self.view().next == old(self).view().next,
                self.high_workers() == old(self).high_workers(),
                self.low_workers() == old(self).low_workers(),
                rt_steps(self.view()) == rt_steps(old(self).view()),
                forall|id: u64, v: u64|
                    #[trigger] rt_resolved(old(self).view(), id, v) ==> rt_resolved(
                        self.view(),
                        id,
                        v,
                    ),
            decreases budget - i,
        {
            let got = match order {
                FutureType::High => try_recv_value(&self.high_rx),
                FutureType::Low => try_recv_value(&self.low_rx),
            };
            match got {
                TryRecvOutcome::Got(task_id) => {
                    let ghost s_b = self.view();
                    self.requeue(order, task_id);
                    proof {
                        assert forall|id: u64, v: u64|
                            #[trigger] rt_resolved(old(self).view(), id, v) implies rt_resolved(
                            self.view(),
                            id,
                            v,
                        ) by {
                            assert(rt_resolved(s_b, id, v));
                        }
                    }
                },
                TryRecvOutcome::Empty => {
                    break ;
                },
                TryRecvOutcome::Closed => {
                    break ;
                },
            }
            i = i + 1;
        }
    }

    /// Run to quiescence: rounds of worker steps — every High worker takes
    /// one dispatch step, then every Low worker — with the lanes' pending
    /// notifications absorbed before each round. Returns when no task is
    /// ready and none is waiting; every task the runtime owned is then
    /// completed, with its value, in the completion log. A round that finds
    /// both lanes empty stands in for the workers' bounded idle wait; the
    /// runtime gives up (leaving the remaining tasks suspended) only after
    /// a practically endless run of such idle rounds. Liveness rests on the
    /// callers: the handle of every suspended task must eventually fire.
    pub fn run(&mut self)
        requires
            rt_wf(old(self).view()),
            old(self).high_workers() >= 1,
            old(self).low_workers() >= 1,
        ensures
            rt_wf(final(self).view()),
            final(self).view().high.q.len() == 0,
            final(self).view().low.q.len() == 0,
            final(self).view().next == old(self).view().next,
            final(self).high_workers() == old(self).high_workers(),
            final(self).low_workers() == old(self).low_workers(),
            final(self).view().done.len() >= old(self).view().done.len(),
            final(self).view().done.subrange(0, old(self).view().done.len() as int) == old(
                self,
            ).view().done,
            forall|id: u64, v: u64|
                #[trigger] rt_resolved(old(self).view(), id, v) ==> done_has_value(
                    final(self).view().done,
                    id,
                    v,
                ) || (final(self).view().high.w.contains_key(id) && final_value(
                    final(self).view().high.w[id].comp(),
                ) == v) || (final(self).view().low.w.contains_key(id) && final_value(
                    final(self).view().low.w[id].comp(),
                ) == v),
            forall|i: int|
                0 <= i < old(self).view().high.q.len() ==> rt_resolved(
                    final(self).view(),
                    (#[trigger] old(self).view().high.q[i]).id(),
                    final_value(old(self).view().high.q[i].comp()),
                ),
            forall|i: int|
                0 <= i < old(self).view().low.q.len() ==> rt_resolved(
                    final(self).view(),
                    (#[trigger] old(self).view().low.q[i]).id(),
                    final_value(old(self).view().low.q[i].comp()),
                ),
            forall|id: u64|
                #[trigger] old(self).view().high.w.contains_key(id) ==> rt_resolved(
                    final(self).view(),
                    id,
                    final_value(old(self).view().high.w[id].comp()),
                ),
            forall|id: u64|
                #[trigger] old(self).view().low.w.contains_key(id) ==> rt_resolved(
                    final(self).view(),
                    id,
                    final_value(old(self).view().low.w[id].comp()),
                ),
            final(self).view().high.w.len() == 0 && final(self).view().low.w.len() == 0
                ==> forall|id: u64, v: u64|
                #[trigger] rt_resolved(old(self).view(), id, v) ==> done_has_value(
                    final(self).view().done,
                    id,
                    v,
                ),
    {
        let ghost s0 = self.view();
        let mut stale_budget: u64 = u64::MAX;
        loop
            invariant
                rt_wf(self.view()),
                self.view().next == s0.next,
                self.high_workers() == old(self).high_workers(),
                self.low_workers() == old(self).low_workers(),
                self.high_workers() >= 1,
                self.low_workers() >= 1,
                s0 == old(self).view(),
                self.view().done.len() >= s0.done.len(),
                self.view().done.subrange(0, s0.done.len() as int) == s0.done,
                forall|id: u64, v: u64|
                    #[trigger] rt_resolved(s0, id, v) ==> rt_resolved(self.view(), id, v),
            ensures
                rt_wf(self.view()),
                self.view().next == s0.next,
                self.high_workers() == old(self).high_workers(),
                self.low_workers() == old(self).low_workers(),
                self.view().high.q.len() == 0,
                self.view().low.q.len() == 0,
                self.view().done.len() >= s0.done.len(),
                self.view().done.subrange(0, s0.done.len() as int) == s0.done,
                forall|id: u64, v: u64|
                    #[trigger] rt_resolved(s0, id, v) ==> rt_resolved(self.view(), id, v),
            decreases rt_steps(self.view()), stale_budget,
        {
            let ghost s_top = self.view();
            let high_cap = self.high_waiting.len();
            self.absorb(FutureType::High, high_cap);
            proof {
                assert forall|id: u64, v: u64| #[trigger] rt_resolved(s0, id, v)
                    implies rt_resolved(self.view(), id, v) by {
                    assert(rt_resolved(s_top, id, v));
                }
            }
            let low_cap = self.low_waiting.len();
            let ghost s_mid = self.view();
            self.absorb(FutureType::Low, low_cap);
            proof {
                assert forall|id: u64, v: u64| #[trigger] rt_resolved(s0, id, v)
                    implies rt_resolved(self.view(), id, v) by {
                    assert(rt_resolved(s_top, id, v));
                    assert(rt_resolved(s_mid, id, v));
                }
                assert(rt_steps(self.view()) == rt_steps(s_top));
            }
            let mut progressed = false;
            let mut i: usize = 0;
            while i < self.high_num
                invariant
                    i <= self.high_workers(),
                    rt_wf(self.view()),
                    self.view().next == s0.next,
                    self.high_workers() == old(self).high_workers(),
                    self.low_workers() == old(self).low_workers(),
                    self.view().done.len() >= s0.done.len(),
                    self.view().done.subrange(0, s0.done.len() as int) == s0.done,
                    forall|id: u64, v: u64|
                        #[trigger] rt_resolved(s0, id, v) ==> rt_resolved(self.view(), id, v),
                    rt_steps(self.view()) <= rt_steps(s_top),
                    progressed ==> rt_steps(self.view()) < rt_steps(s_top),
                    !progressed ==> rt_steps(self.view()) == rt_steps(s_top),
                    i > 0 && !progressed ==> self.view().high.q.len() == 0
                        && self.view().low.q.len() == 0,
                decreases self.high_workers() - i,
            {
                let ghost prev = self.view();
                let p = self.worker_step(FutureType::High);
                proof {
                    assert(self.view().done.subrange(0, s0.done.len() as int) =~= prev.done.subrange(
                        0,
                        s0.done.len() as int,
                    ));
                    assert forall|id: u64, v: u64| #[trigger] rt_resolved(s0, id, v)
                        implies rt_resolved(self.view(), id, v) by {
                        assert(rt_resolved(prev, id, v));
                    }
                }
                progressed = progressed || p;
                i = i + 1;
            }
            let mut j: usize = 0;
            while j < self.low_num
                invariant
                    j <= self.low_workers(),
                    rt_wf(self.view()),
                    self.view().next == s0.next,
                    self.high_workers() == old(self).high_workers(),
                    self.low_workers() == old(self).low_workers(),
                    self.view().done.len() >= s0.done.len(),
                    self.view().done.subrange(0, s0.done.len() as int) == s0.done,
                    forall|id: u64, v: u64|
                        #[trigger] rt_resolved(s0, id, v) ==> rt_resolved(self.view(), id, v),
                    rt_steps(self.view()) <= rt_steps(s_top),
                    progressed ==> rt_steps(self.view()) < rt_steps(s_top),
                    !progressed ==> rt_steps(self.view()) == rt_steps(s_top),
                    !progressed ==> self.view().high.q.len() == 0 && self.view().low.q.len()
                        == 0,
                decreases self.low_workers() - j,
            {
                let ghost prev = self.view();
                let p = self.worker_step(FutureType::Low);
                proof {
                    assert(self.view().done.subrange(0, s0.done.len() as int) =~= prev.done.subrange(
                        0,
                        s0.done.len() as int,
                    ));
                    assert forall|id: u64, v: u64| #[trigger] rt_resolved(s0, id, v)
                        implies rt_resolved(self.view(), id, v) by {
                        assert(rt_resolved(prev, id, v));
                    }
                }
                progressed = progressed || p;
                j = j + 1;
            }
            let high_ready = lane_len(&self.high_queue);
            let low_ready = lane_len(&self.low_queue);
            if high_ready == 0 && low_ready == 0 && self.high_waiting.is_empty()
                && self.low_waiting.is_empty() {
                break ;
            }
            if progressed {
                stale_budget = u64::MAX;
            } else {
                if stale_budget == 0 {
                    break ;
                }
                stale_budget = stale_budget - 1;
            }
        }
        proof {
            assert forall|i: int| 0 <= i < s0.high.q.len() implies rt_resolved(
                self.view(),
                (#[trigger] s0.high.q[i]).id(),
                final_value(s0.high.q[i].comp()),
            ) by {
                let id = s0.high.q[i].id();
                let v = final_value(s0.high.q[i].comp());
                assert(0 <= i < s0.high.q.len() && s0.high.q[i].id() == id && final_value(
                    s0.high.q[i].comp(),
                ) == v);
                assert(queue_has_value(s0.high.q, id, v));
                assert(rt_resolved(s0, id, v));
            }
            assert forall|i: int| 0 <= i < s0.low.q.len() implies rt_resolved(
                self.view(),
                (#[trigger] s0.low.q[i]).id(),
                final_value(s0.low.q[i].comp()),
            ) by {
                let id = s0.low.q[i].id();
                let v = final_value(s0.low.q[i].comp());
                assert(0 <= i < s0.low.q.len() && s0.low.q[i].id() == id && final_value(
                    s0.low.q[i].comp(),
                ) == v);
                assert(queue_has_value(s0.low.q, id, v));
                assert(rt_resolved(s0, id, v));
            }
            assert forall|id: u64| #[trigger] s0.high.w.contains_key(id) implies rt_resolved(
                self.view(),
                id,
                final_value(s0.high.w[id].comp()),
            ) by {
                assert(rt_resolved(s0, id, final_value(s0.high.w[id].comp())));
            }
            assert forall|id: u64| #[trigger] s0.low.w.contains_key(id) implies rt_resolved(
                self.view(),
                id,
                final_value(s0.low.w[id].comp()),
            ) by {
                assert(rt_resolved(s0, id, final_value(s0.low.w[id].comp())));
            }
            if self.view().high.w.len() == 0 && self.view().low.w.len() == 0 {
                assert forall|id2: u64|
                    !(#[trigger] self.view().high.w.contains_key(id2)) && !self.view().low.w.contains_key(
                    id2,
                ) by {
                    if self.view().high.w.contains_key(id2) {
                        assert(self.view().high.w.dom().contains(id2));
                        self.view().high.w.dom().lemma_len0_is_empty();
                    }
                    if self.view().low.w.contains_key(id2) {
                        assert(self.view().low.w.dom().contains(id2));
                        self.view().low.w.dom().lemma_len0_is_empty();
                    }
                }
            }
        }
    }
}

/// The bookkeeping behind one absorbed notification that found its task:
/// moving the task from the waiting table to the back of its lane's ready
/// queue preserves the invariant, the outstanding work, and every task's
/// identity and heading value.
proof fn lemma_absorb_shape(s0: RuntimeModel, order: FutureType, s1: RuntimeModel, id0: u64, t: Task)
    requires
        rt_wf(s0),
        ({
            let l0 = if order is High {
                s0.high
            } else {
                s0.low
            };
            let l1 = if order is High {
                s1.high
            } else {
                s1.low
            };
            let other0 = if order is High {
                s0.low
            } else {
                s0.high
            };
            let other1 = if order is High {
                s1.low
            } else {
                s1.high
            };
            &&& l0.w.contains_key(id0)
            &&& t == l0.w[id0]
            &&& l1.q == l0.q.push(t)
            &&& l1.w == l0.w.remove(id0)
            &&& other1 == other0
            &&& s1.done == s0.done
            &&& s1.next == s0.next
        }),
    ensures
        rt_wf(s1),
        rt_steps(s1) == rt_steps(s0),
        forall|id: u64, v: u64|
            #[trigger] rt_resolved(s0, id, v) ==> rt_resolved(s1, id, v),
{
    let l0 = if order is High {
        s0.high
    } else {
        s0.low
    };
    let l1 = if order is High {
        s1.high
    } else {
        s1.low
    };
    assert(t.id() == id0);
    crate::executor::lemma_waiting_steps_remove(l0.w, id0, s0.next);
    lemma_queue_steps_push(l0.q, t);
    assert forall|i: int, j: int| 0 <= i < j < l1.q.len() implies (#[trigger] l1.q[i]).id()
        != (#[trigger] l1.q[j]).id() by {
        lemma_queue_push(l0.q, t, l0.q[i].id(), 0);
        if j < l0.q.len() {
            assert(l1.q[i] == l0.q[i]);
            assert(l1.q[j] == l0.q[j]);
        } else {
            assert(l1.q[j] == t);
            assert(l1.q[i] == l0.q[i]);
        }
    }
    assert forall|i: int| 0 <= i < l1.q.len() implies (#[trigger] l1.q[i]).id() < s1.next
        && wf_computation(l1.q[i].comp()) && !l1.w.contains_key(l1.q[i].id()) by {
        if i < l0.q.len() {
            assert(l1.q[i] == l0.q[i]);
        } else {
            assert(l1.q[i] == t);
        }
    }
    assert(in_lane(l0, id0));
    assert forall|id: u64| #[trigger] in_lane(l1, id) implies in_lane(l0, id) by {
        if queue_has(l1.q, id) {
            lemma_queue_push(l0.q, t, id, 0);
        }
    }
    assert forall|id: u64| #[trigger] in_lane(s1.high, id) implies !in_lane(s1.low, id) by {
        if order is High {
            assert(in_lane(s0.high, id));
        } else {
            if in_lane(s1.low, id) {
                assert(in_lane(s0.low, id));
            }
        }
    }
    assert forall|i: int| 0 <= i < s1.done.len() implies (#[trigger] s1.done[i]).0 < s1.next
        && !in_lane(s1.high, s1.done[i].0) && !in_lane(s1.low, s1.done[i].0) by {
        if in_lane(l1, s1.done[i].0) {
            assert(in_lane(l0, s0.done[i].0));
        }
    }
    assert forall|id: u64, v: u64| #[trigger] rt_resolved(s0, id, v) implies rt_resolved(
        s1,
        id,
        v,
    ) by {
        lemma_queue_push(l0.q, t, id, v);
        if l0.w.contains_key(id) && final_value(l0.w[id].comp()) == v {
            if id == id0 {
                assert(queue_has_value(l1.q, id, v));
            } else {
                assert(l1.w.contains_key(id) && l1.w[id] == l0.w[id]);
            }
        }
    }
}

/// Appending a task to a queue adds exactly its outstanding steps to the
/// queue's total.
proof fn lemma_queue_steps_push(q: Seq<Task>, t: Task)
    ensures
        queue_steps(q.push(t)) == queue_steps(q) + steps_needed(t.comp()),
    decreases q.len(),
{
    let q2 = q.push(t);
    if q.len() == 0 {
        assert(q2[0] == t);
        assert(q2.drop_first() =~= Seq::<Task>::empty());
        assert(queue_steps(q2.drop_first()) == 0);
        assert(queue_steps(q2) == steps_needed(t.comp()) + queue_steps(q2.drop_first()));
    } else {
        assert(q2[0] == q[0]);
        assert(q2.drop_first() =~= q.drop_first().push(t));
        lemma_queue_steps_push(q.drop_first(), t);
        assert(queue_steps(q2) == steps_needed(q[0].comp()) + queue_steps(q2.drop_first()));
        assert(queue_steps(q) == steps_needed(q[0].comp()) + queue_steps(q.drop_first()));
    }
}

/// The bookkeeping behind one served task: given the concrete states
/// before and after, establish the transition equation, the preserved
/// invariant, the one-step drop in outstanding work, and that no task's
/// identity or heading value is lost.
proof fn lemma_serve_shape(s0: RuntimeModel, src: FutureType, s1: RuntimeModel, t0: Task)
    requires
        rt_wf(s0),
        src is High ==> s0.high.q.len() > 0 && t0 == s0.high.q[0],
        src is Low ==> s0.low.q.len() > 0 && t0 == s0.low.q[0],
        ({
            let l0 = if src is High {
                s0.high
            } else {
                s0.low
            };
            let l1 = if src is High {
                s1.high
            } else {
                s1.low
            };
            let other0 = if src is High {
                s0.low
            } else {
                s0.high
            };
            let other1 = if src is High {
                s1.low
            } else {
                s1.high
            };
            &&& other1 == other0
            &&& s1.next == s0.next
            &&& l1.q == l0.q.drop_first()
            &&& match spec_step_outcome(t0.comp()) {
                StepOutcome::Completed(v) => l1.w == l0.w && s1.done == s0.done.push(
                    (t0.id(), v),
                ),
                StepOutcome::Suspended { .. } => l1.w == l0.w.insert(
                    t0.id(),
                    (Task { computation: spec_step_state(t0.comp()), ..t0 }),
                ) && s1.done == s0.done,
            }
        }),
    ensures
        rt_wf(s1),
        s1 == spec_serve(s0, src),
        s0.done.is_prefix_of(s1.done),
        rt_steps(s1) + 1 == rt_steps(s0),
        forall|id: u64, v: u64|
            #[trigger] rt_resolved(s0, id, v) ==> rt_resolved(s1, id, v),
{
    let l0 = if src is High {
        s0.high
    } else {
        s0.low
    };
    let l1 = if src is High {
        s1.high
    } else {
        s1.low
    };
    let rest = l0.q.drop_first();
    let stepped = (Task { computation: spec_step_state(t0.comp()), ..t0 });
    lemma_steps_needed_decreases(t0.comp());
    assert(l1 =~= lane_after_step(l0));
    assert(s1 =~= spec_serve(s0, src));
    // the one-step drop in outstanding work
    assert(queue_steps(l0.q) == steps_needed(t0.comp()) + queue_steps(rest));
    match spec_step_outcome(t0.comp()) {
        StepOutcome::Completed(_) => {
            assert(steps_needed(t0.comp()) == 1);
        },
        StepOutcome::Suspended { .. } => {
            assert(!l0.w.contains_key(t0.id()));
            crate::executor::lemma_waiting_steps_insert(l0.w, t0.id(), stepped, s0.next);
        },
    }
    // the preserved invariant
    assert forall|i: int, j: int| 0 <= i < j < rest.len() implies (#[trigger] rest[i]).id()
        != (#[trigger] rest[j]).id() by {
        assert(rest[i] == l0.q[i + 1]);
        assert(rest[j] == l0.q[j + 1]);
    }
    assert forall|i: int| 0 <= i < rest.len() implies (#[trigger] rest[i]).id() < s0.next
        && wf_computation(rest[i].comp()) && !l1.w.contains_key(rest[i].id()) by {
        assert(rest[i] == l0.q[i + 1]);
        assert(l0.q[i + 1].id() != l0.q[0].id());
    }
    assert(queue_has(l0.q, t0.id()));
    assert(in_lane(l0, t0.id()));
    assert forall|id: u64| #[trigger] in_lane(l1, id) implies in_lane(l0, id) by {
        if queue_has(l1.q, id) {
            lemma_queue_drop_first(l0.q, id, 0);
        }
    }
    assert forall|id: u64| #[trigger] in_lane(s1.high, id) implies !in_lane(s1.low, id) by {
        if src is High {
            assert(in_lane(s0.high, id));
        } else {
            if in_lane(s1.low, id) {
                assert(in_lane(s0.low, id));
            }
        }
    }
    match spec_step_outcome(t0.comp()) {
        StepOutcome::Completed(cv) => {
            assert forall|i: int, j: int| 0 <= i < j < s1.done.len() implies (
            #[trigger] s1.done[i]).0 != (#[trigger] s1.done[j]).0 by {
                if j < s0.done.len() {
                } else {
                    assert(s1.done[j] == (t0.id(), cv));
                    assert(s1.done[i] == s0.done[i]);
                }
            }
            assert forall|i: int| 0 <= i < s1.done.len() implies (#[trigger] s1.done[i]).0
                < s1.next && !in_lane(s1.high, s1.done[i].0) && !in_lane(
                s1.low,
                s1.done[i].0,
            ) by {
                if i < s0.done.len() {
                    assert(s1.done[i] == s0.done[i]);
                } else {
                    assert(s1.done[i] == (t0.id(), cv));
                    if queue_has(rest, t0.id()) {
                        let k = choose|k: int| 0 <= k < rest.len() && rest[k].id() == t0.id();
                        assert(rest[k] == l0.q[k + 1]);
                    }
                }
            }
        },
        StepOutcome::Suspended { .. } => {
            assert forall|i: int| 0 <= i < s1.done.len() implies (#[trigger] s1.done[i]).0
                < s1.next && !in_lane(s1.high, s1.done[i].0) && !in_lane(
                s1.low,
                s1.done[i].0,
            ) by {
                assert(s1.done[i] == s0.done[i]);
                assert(!in_lane(s0.high, s0.done[i].0));
                assert(!in_lane(s0.low, s0.done[i].0));
                if queue_has(l1.q, s0.done[i].0) {
                    lemma_queue_drop_first(l0.q, s0.done[i].0, 0);
                }
            }
        },
    }
    // nothing is lost
    assert(s0.done.is_prefix_of(s1.done)) by {
        match spec_step_outcome(t0.comp()) {
            StepOutcome::Completed(cv) => {
                assert(s1.done.subrange(0, s0.done.len() as int) =~= s0.done);
            },
            StepOutcome::Suspended { .. } => {
                assert(s1.done.subrange(0, s0.done.len() as int) =~= s0.done);
            },
        }
    }
    assert forall|id: u64, v: u64| #[trigger] rt_resolved(s0, id, v) implies rt_resolved(
        s1,
        id,
        v,
    ) by {
        if queue_has_value(l0.q, id, v) {
            if id == t0.id() {
                let i = choose|i: int|
                    0 <= i < l0.q.len() && l0.q[i].id() == id && final_value(l0.q[i].comp()) == v;
                assert(i == 0);
                assert(v == final_value(t0.comp()));
                match spec_step_outcome(t0.comp()) {
                    StepOutcome::Completed(cv) => {
                        lemma_completes_with_final_value(t0.comp());
                        assert(s1.done[s0.done.len() as int] == (id, v));
                        assert(done_has_value(s1.done, id, v));
                    },
                    StepOutcome::Suspended { .. } => {
                        lemma_step_preserves_value(t0.comp());
                        assert(l1.w.contains_key(id) && final_value(l1.w[id].comp()) == v);
                    },
                }
            } else {
                lemma_queue_drop_first(l0.q, id, v);
                assert(queue_has_value(l1.q, id, v));
            }
        } else if l0.w.contains_key(id) && final_value(l0.w[id].comp()) == v {
            assert(l1.w.contains_key(id) && final_value(l1.w[id].comp()) == v);
        } else if done_has_value(s0.done, id, v) {
            let i = choose|i: int| 0 <= i < s0.done.len() && s0.done[i] == (id, v);
            assert(s1.done[i] == (id, v));
            assert(done_has_value(s1.done, id, v));
        }
    }
}

/// What serving the chosen lane does to the runtime: step the front task
/// once; log and deliver its value on completion; park it in the lane's
/// waiting table on suspension.
pub open spec fn spec_serve(s: RuntimeModel, src: FutureType) -> RuntimeModel {
    let l = if src is High {
        s.high
    } else {
        s.low
    };
    let t = l.q[0];
    let done2 = match spec_step_outcome(t.comp()) {
        StepOutcome::Completed(v) => s.done.push((t.id(), v)),
        StepOutcome::Suspended { .. } => s.done,
    };
    if src is High {
        RuntimeModel { high: lane_after_step(l), done: done2, ..s }
    } else {
        RuntimeModel { low: lane_after_step(l), done: done2, ..s }
    }
}

/// One scheduling round over two submissions with identities 0 (High) and
/// 1 (Low): each lane's pending self-wake is absorbed, then the two High
/// workers and the one Low worker each take a dispatch step.
pub open spec fn scenario_round(s: RuntimeModel) -> RuntimeModel {
    let absorbed = requeue_rt(requeue_rt(s, FutureType::High, 0), FutureType::Low, 1);
    spec_worker_step(
        spec_worker_step(spec_worker_step(absorbed, FutureType::High), FutureType::High),
        FutureType::Low,
    )
}

/// Two 3-step counting computations, one submitted to each lane, driven by
/// rounds of two High worker steps and one Low worker step, each suspended
/// computation re-queued when its self-wake is absorbed: after three
/// rounds both lanes are quiescent and both computations have completed
/// with 3 — the High submission logged first.
pub proof fn lemma_two_lane_scenario(t0: Task, t1: Task)
    requires
        t0.id() == 0,
        t1.id() == 1,
        t0.comp() == Computation::Counter(CounterFuture { count: 0, max: 3 }),
        t1.comp() == Computation::Counter(CounterFuture { count: 0, max: 3 }),
    ensures
        ({
            let s0 = RuntimeModel {
                high: LaneModel { q: seq![t0], w: Map::empty() },
                low: LaneModel { q: seq![t1], w: Map::empty() },
                done: Seq::empty(),
                next: 2,
            };
            let s3 = scenario_round(scenario_round(scenario_round(s0)));
            &&& s3.done == seq![(0u64, 3u64), (1u64, 3u64)]
            &&& s3.high.q.len() == 0
            &&& s3.low.q.len() == 0
            &&& s3.high.w =~= Map::<u64, Task>::empty()
            &&& s3.low.w =~= Map::<u64, Task>::empty()
        }),
{
    let s0 = RuntimeModel {
        high: LaneModel { q: seq![t0], w: Map::empty() },
        low: LaneModel { q: seq![t1], w: Map::empty() },
        done: Seq::empty(),
        next: 2,
    };
    let t0a = (Task { computation: Computation::Counter(CounterFuture { count: 1, max: 3 }), ..t0 });
    let t1a = (Task { computation: Computation::Counter(CounterFuture { count: 1, max: 3 }), ..t1 });
    let t0b = (Task { computation: Computation::Counter(CounterFuture { count: 2, max: 3 }), ..t0 });
    let t1b = (Task { computation: Computation::Counter(CounterFuture { count: 2, max: 3 }), ..t1 });
    let s1 = RuntimeModel {
        high: LaneModel { q: Seq::empty(), w: Map::empty().insert(0u64, t0a) },
        low: LaneModel { q: Seq::empty(), w: Map::empty().insert(1u64, t1a) },
        done: Seq::empty(),
        next: 2,
    };
    assert(seq![t0].drop_first() =~= Seq::<Task>::empty());
    assert(seq![t1].drop_first() =~= Seq::<Task>::empty());
    assert(requeue_rt(requeue_rt(s0, FutureType::High, 0), FutureType::Low, 1) =~~= s0);
    assert(scenario_round(s0) =~~= s1);
    let s1r = RuntimeModel {
        high: LaneModel { q: seq![t0a], w: Map::<u64, Task>::empty().insert(0u64, t0a).remove(
            0u64,
        ) },
        low: LaneModel { q: seq![t1a], w: Map::<u64, Task>::empty().insert(1u64, t1a).remove(
            1u64,
        ) },
        done: Seq::empty(),
        next: 2,
    };
    assert(requeue_rt(requeue_rt(s1, FutureType::High, 0), FutureType::Low, 1) =~~= s1r);
    let s2 = RuntimeModel {
        high: LaneModel { q: Seq::empty(), w: s1r.high.w.insert(0u64, t0b) },
        low: LaneModel { q: Seq::empty(), w: s1r.low.w.insert(1u64, t1b) },
        done: Seq::empty(),
        next: 2,
    };
    assert(seq![t0a].drop_first() =~= Seq::<Task>::empty());
    assert(seq![t1a].drop_first() =~= Seq::<Task>::empty());
    assert(scenario_round(s1) =~~= s2);
    let s2r = RuntimeModel {
        high: LaneModel { q: seq![t0b], w: s2.high.w.remove(0u64) },
        low: LaneModel { q: seq![t1b], w: s2.low.w.remove(1u64) },
        done: Seq::empty(),
        next: 2,
    };
    assert(requeue_rt(requeue_rt(s2, FutureType::High, 0), FutureType::Low, 1) =~~= s2r);
    assert(seq![t0b].drop_first() =~= Seq::<Task>::empty());
    assert(seq![t1b].drop_first() =~= Seq::<Task>::empty());
    let s3 = scenario_round(s2);
    assert(s3.done =~= Seq::<(u64, u64)>::empty().push((0u64, 3u64)).push((1u64, 3u64)));
    assert(s3.done =~= seq![(0u64, 3u64), (1u64, 3u64)]);
    assert(s3.high.q.len() == 0);
    assert(s3.low.q.len() == 0);
    assert(s3.high.w =~= Map::<u64, Task>::empty());
    assert(s3.low.w =~= Map::<u64, Task>::empty());
    assert(scenario_round(scenario_round(scenario_round(s0))) =~~= s3);
}

} // verus!
