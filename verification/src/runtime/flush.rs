//! The order in which a runtime runs what is queued: actions first, then reactions after the
//! notifications they depend on, then discarded reactions and deferred unbinds; whatever one
//! phase ran may have queued more work, so the round starts over until a whole round finds
//! nothing to run.

use vstd::prelude::*;

verus! {

/// What a flushing runtime does next.
#[derive(Clone, Copy, PartialEq, Eq, Structural, Debug)]
pub enum FlushStep {
    /// Run the queued actions, fetching again those scheduled while they run, until none is
    /// queued.
    Actions,
    /// Apply deferred unbinds and queued notifications, then run the queued reactions.
    Reactions,
    /// Run the discarded reactions and deferred unbinds.
    Discards,
    /// Nothing is left to run.
    Done,
}

/// The step after `step`, given whether `step` ran anything.
pub open spec fn next_flush_step(step: FlushStep, handled: bool) -> FlushStep {
    match step {
        FlushStep::Done => FlushStep::Done,
        FlushStep::Actions => if handled { FlushStep::Actions } else { FlushStep::Reactions },
        FlushStep::Reactions => if handled { FlushStep::Actions } else { FlushStep::Discards },
        FlushStep::Discards => if handled { FlushStep::Actions } else { FlushStep::Done },
    }
}

/// `steps` is a flush that starts with the actions and takes, after each step, the step that
/// follows from whether it ran anything (`handled`).
pub open spec fn is_flush(steps: Seq<FlushStep>, handled: Seq<bool>) -> bool {
    &&& steps.len() == handled.len() + 1
    &&& steps[0] == FlushStep::Actions
    &&& forall|i: int| 0 <= i < handled.len() ==> #[trigger] steps[i + 1] == next_flush_step(steps[i], handled[i])
}

impl FlushStep {
    /// The first step of a flush.
    pub fn start() -> (r: Self)
        ensures
            r == FlushStep::Actions,
    {
        FlushStep::Actions
    }

    /// The step after this one, given whether this one ran anything: any work ran starts the
    /// round over with the actions; a step that found nothing hands over to the next phase, and
    /// after the discards the flush is done.
    pub fn next(self, handled: bool) -> (r: Self)
        ensures
            r == next_flush_step(self, handled),
    {
        match self {
            FlushStep::Done => FlushStep::Done,
            FlushStep::Actions => if handled { FlushStep::Actions } else { FlushStep::Reactions },
            FlushStep::Reactions => if handled { FlushStep::Actions } else { FlushStep::Discards },
            FlushStep::Discards => if handled { FlushStep::Actions } else { FlushStep::Done },
        }
    }

    /// Whether the flush is over.
    pub fn is_done(self) -> (r: bool)
        ensures
            r == (self == FlushStep::Done),
    {
        match self {
            FlushStep::Done => true,
            _ => false,
        }
    }
}

/// A flush ends only after a whole round in which the actions, the reactions and the discards
/// each found nothing to run, in that order.
pub proof fn lemma_flush_ends_after_an_idle_round(steps: Seq<FlushStep>, handled: Seq<bool>, n: int)
    requires
        is_flush(steps, handled),
        0 <= n < steps.len(),
        steps[n] == FlushStep::Done,
        forall|j: int| 0 <= j < n ==> #[trigger] steps[j] != FlushStep::Done,
    ensures
        n >= 3,
        steps[n - 3] == FlushStep::Actions && !handled[n - 3],
        steps[n - 2] == FlushStep::Reactions && !handled[n - 2],
        steps[n - 1] == FlushStep::Discards && !handled[n - 1],
{
    let (a, b, c) = (n - 3, n - 2, n - 1);
    assert(steps[c + 1] == next_flush_step(steps[c], handled[c]));
    if n >= 2 {
        assert(steps[b + 1] == next_flush_step(steps[b], handled[b]));
    }
    if n >= 3 {
        assert(steps[a + 1] == next_flush_step(steps[a], handled[a]));
    }
}

/// Once nothing runs any more, a flush is done within one round: after the actions, the
/// reactions and the discards each found nothing.
pub proof fn lemma_flush_ends_when_idle(steps: Seq<FlushStep>, handled: Seq<bool>, i: int)
    requires
        is_flush(steps, handled),
        0 <= i,
        i + 3 < steps.len(),
        steps[i] == FlushStep::Actions,
        !handled[i],
        !handled[i + 1],
        !handled[i + 2],
    ensures
        steps[i + 3] == FlushStep::Done,
{
    let (b, c) = (i + 1, i + 2);
    assert(steps[i + 1] == next_flush_step(steps[i], handled[i]));
    assert(steps[b + 1] == next_flush_step(steps[b], handled[b]));
    assert(steps[c + 1] == next_flush_step(steps[c], handled[c]));
}

} // verus!
