//! Suspendable computations: the units of work the schedulers drive.
//!
//! A computation is an explicit resumable state machine. One step either
//! completes it with a value or leaves it suspended; a suspended step says
//! whether the computation has already requested to be woken again (a
//! self-wake), or instead waits for an external resumption.
use vstd::prelude::*;

verus! {

/// What one step of a computation produced.
#[derive(PartialEq, Eq, Structural, Clone, Copy, Debug)]
pub enum StepOutcome {
    /// The computation finished and yielded this value.
    Completed(u64),
    /// The computation is not finished. `wake` says whether it asked to be
    /// stepped again right away (it fired its own resumption); when `wake`
    /// is false it waits for an external resumption.
    Suspended { wake: bool },
}

/// A counting computation: every step increments the counter; it completes,
/// yielding the counter, once the counter has reached `max`. While it is
/// short of `max` it suspends and immediately requests another step.
#[derive(PartialEq, Eq, Structural, Clone, Copy, Debug)]
pub struct CounterFuture {
    pub count: u32,
    pub max: u32,
}

impl CounterFuture {
    pub fn new(count: u32, max: u32) -> (r: CounterFuture)
        ensures
            r.count == count,
            r.max == max,
    {
        CounterFuture { count, max }
    }
}

/// A resumable unit of work the schedulers can step.
#[derive(PartialEq, Eq, Structural, Clone, Copy, Debug)]
pub enum Computation {
    /// A self-waking counter (see [`CounterFuture`]).
    Counter(CounterFuture),
    /// Suspends `rounds` times waiting for external resumptions, then
    /// completes with `value`. It never wakes itself: each suspended period
    /// ends only when its resumption handle is fired from outside.
    Waiter { rounds: u32, value: u64 },
    /// Completes immediately with `value`.
    Fixed { value: u64 },
}

/// Computations the schedulers accept: stepping one never overflows.
pub open spec fn wf_computation(c: Computation) -> bool {
    match c {
        Computation::Counter(f) => f.count < u32::MAX,
        Computation::Waiter { .. } => true,
        Computation::Fixed { .. } => true,
    }
}

/// The state a computation is left in by one step.
pub open spec fn spec_step_state(c: Computation) -> Computation {
    match c {
        Computation::Counter(f) => Computation::Counter(
            CounterFuture { count: (f.count + 1) as u32, max: f.max },
        ),
        Computation::Waiter { rounds, value } => if rounds == 0 {
            c
        } else {
            Computation::Waiter { rounds: (rounds - 1) as u32, value }
        },
        Computation::Fixed { .. } => c,
    }
}

/// The outcome one step of a computation reports.
pub open spec fn spec_step_outcome(c: Computation) -> StepOutcome {
    match c {
        Computation::Counter(f) => if f.count + 1 < f.max {
            StepOutcome::Suspended { wake: true }
        } else {
            StepOutcome::Completed((f.count + 1) as u64)
        },
        Computation::Waiter { rounds, value } => if rounds == 0 {
            StepOutcome::Completed(value)
        } else {
            StepOutcome::Suspended { wake: false }
        },
        Computation::Fixed { value } => StepOutcome::Completed(value),
    }
}

/// The value a computation will eventually complete with, if it is stepped
/// until completion. Stepping preserves it (see `lemma_step_preserves_value`).
pub open spec fn final_value(c: Computation) -> u64 {
    match c {
        Computation::Counter(f) => if f.count < f.max {
            f.max as u64
        } else {
            (f.count + 1) as u64
        },
        Computation::Waiter { value, .. } => value,
        Computation::Fixed { value } => value,
    }
}

/// How many steps the computation still needs before it completes, counting
/// the completing step itself.
pub open spec fn steps_needed(c: Computation) -> nat {
    match c {
        Computation::Counter(f) => if f.count < f.max {
            (f.max - f.count) as nat
        } else {
            1
        },
        Computation::Waiter { rounds, .. } => (rounds + 1) as nat,
        Computation::Fixed { .. } => 1,
    }
}

impl Computation {
    /// Perform one step: advance the state machine and report the outcome.
    pub fn step(&mut self) -> (r: StepOutcome)
        requires
            wf_computation(*old(self)),
        ensures
            *final(self) == spec_step_state(*old(self)),
            r == spec_step_outcome(*old(self)),
            !(r is Completed) ==> wf_computation(*final(self)),
    {
        match self {
            Computation::Counter(f) => {
                f.count = f.count + 1;
                if f.count < f.max {
                    StepOutcome::Suspended { wake: true }
                } else {
                    StepOutcome::Completed(f.count as u64)
                }
            },
            Computation::Waiter { rounds, value } => {
                if *rounds == 0 {
                    StepOutcome::Completed(*value)
                } else {
                    *rounds = *rounds - 1;
                    StepOutcome::Suspended { wake: false }
                }
            },
            Computation::Fixed { value } => StepOutcome::Completed(*value),
        }
    }
}

/// A step never changes the value a computation is heading for: the value a
/// suspended computation will complete with is fixed at submission.
pub broadcast proof fn lemma_step_preserves_value(c: Computation)
    requires
        wf_computation(c),
        !(spec_step_outcome(c) is Completed),
    ensures
        #[trigger] final_value(spec_step_state(c)) == final_value(c),
{
}

/// A completing step yields exactly the computation's final value.
pub proof fn lemma_completes_with_final_value(c: Computation)
    requires
        wf_computation(c),
        spec_step_outcome(c) is Completed,
    ensures
        spec_step_outcome(c) == StepOutcome::Completed(final_value(c)),
{
}

/// A computation needing exactly `k` steps completes on the `k`-th step and
/// on no earlier one: each non-final step leaves a computation needing
/// exactly one step fewer, and a step completes exactly when one step is
/// needed.
pub proof fn lemma_steps_needed_decreases(c: Computation)
    requires
        wf_computation(c),
    ensures
        spec_step_outcome(c) is Completed <==> steps_needed(c) == 1,
        !(spec_step_outcome(c) is Completed) ==> steps_needed(spec_step_state(c))
            == steps_needed(c) - 1,
{
}

/// The state a computation is in after `k` steps.
pub open spec fn iterate_step(c: Computation, k: nat) -> Computation
    decreases k,
{
    if k == 0 {
        c
    } else {
        iterate_step(spec_step_state(c), (k - 1) as nat)
    }
}

/// A computation needing exactly `k` steps is stepped exactly `k` times
/// when it is driven to completion one step at a time: every step before
/// the `k`-th leaves it suspended and steppable, and the `k`-th step — and
/// no earlier one — completes it, with the value it was heading for from
/// the start.
pub proof fn lemma_exact_step_count(c: Computation, k: nat)
    requires
        wf_computation(c),
        steps_needed(c) == k,
    ensures
        forall|j: nat|
            j < k - 1 ==> {
                let cj = #[trigger] iterate_step(c, j);
                &&& !(spec_step_outcome(cj) is Completed)
                &&& wf_computation(cj)
                &&& steps_needed(cj) == k - j
            },
        spec_step_outcome(iterate_step(c, (k - 1) as nat)) == StepOutcome::Completed(
            final_value(c),
        ),
    decreases k,
{
    lemma_steps_needed_decreases(c);
    if k <= 1 {
        lemma_completes_with_final_value(c);
    } else {
        let c1 = spec_step_state(c);
        lemma_step_preserves_value(c);
        lemma_exact_step_count(c1, (k - 1) as nat);
        assert(iterate_step(c, (k - 1) as nat) == iterate_step(c1, (k - 2) as nat));
        assert forall|j: nat| j < k - 1 implies {
            let cj = #[trigger] iterate_step(c, j);
            &&& !(spec_step_outcome(cj) is Completed)
            &&& wf_computation(cj)
            &&& steps_needed(cj) == k - j
        } by {
            if j == 0 {
                assert(iterate_step(c, 0) == c);
            } else {
                assert(iterate_step(c, j) == iterate_step(c1, (j - 1) as nat));
            }
        }
    }
}

} // verus!
