//! Decision logic of the poll-render loop.
//!
//! The loop itself lives outside the library: it loads the persisted
//! state, renders, and sleeps. What it decides — render now, sleep one
//! more short slice, or say farewell — is computed here, so that
//! cancellation is provably observed within one slice, never a whole
//! poll interval.

use vstd::prelude::*;

use crate::Mood;

verus! {

/// What the poll-render loop does next.
#[derive(Debug, PartialEq, Eq, Structural, Clone, Copy)]
pub enum PollAction {
    /// Load the persisted state and render it.
    Render,
    /// Sleep one short slice, then decide again.
    SleepSlice,
    /// Play the farewell frames and stop.
    Farewell,
}

/// How many whole slices one poll interval holds: one slice per 200
/// milliseconds, and at least one.
pub open spec fn spec_slices(poll_interval_ms: u64) -> u64 {
    if poll_interval_ms / 200 > 1 {
        (poll_interval_ms / 200) as u64
    } else {
        1u64
    }
}

/// The loop's decision state: how many sleep slices remain before the
/// next render.
#[derive(Debug, PartialEq, Eq, Structural, Clone, Copy)]
pub struct PollLoop {
    pub interval_slices: u64,
    pub slices_left: u64,
}

/// One decision of the loop: the state after the step, and the action
/// the step asks for.
pub open spec fn spec_step(l: PollLoop, cancelled: bool) -> (PollLoop, PollAction) {
    if cancelled {
        (l, PollAction::Farewell)
    } else if l.slices_left == 0 {
        (PollLoop { interval_slices: l.interval_slices, slices_left: l.interval_slices },
        PollAction::Render)
    } else {
        (PollLoop {
            interval_slices: l.interval_slices,
            slices_left: (l.slices_left - 1) as u64,
        }, PollAction::SleepSlice)
    }
}

impl PollLoop {
    /// A loop state is well formed when it never owes more sleep slices
    /// than one interval holds.
    pub open spec fn wf(self) -> bool {
        &&& self.interval_slices >= 1
        &&& self.slices_left <= self.interval_slices
    }

    /// A fresh loop for the given poll interval; the first step renders.
    pub fn new(poll_interval_ms: u64) -> (l: PollLoop)
        ensures
            l.interval_slices == spec_slices(poll_interval_ms),
            l.slices_left == 0,
            l.wf(),
    {
        let s = poll_interval_ms / 200;
        let slices: u64 = if s < 1 {
            1
        } else {
            s
        };
        PollLoop { interval_slices: slices, slices_left: 0 }
    }

    /// Take one decision: on cancellation, the farewell, whatever the
    /// state; otherwise render when no slices are owed, else sleep one
    /// slice.
    pub fn step(&mut self, cancelled: bool) -> (a: PollAction)
        ensures
            (*final(self), a) == spec_step(*old(self), cancelled),
            old(self).wf() ==> final(self).wf(),
            final(self).interval_slices == old(self).interval_slices,
    {
        if cancelled {
            PollAction::Farewell
        } else if self.slices_left == 0 {
            self.slices_left = self.interval_slices;
            PollAction::Render
        } else {
            self.slices_left = self.slices_left - 1;
            PollAction::SleepSlice
        }
    }
}

/// The mood shown for a loaded record: the record's own mood, or the
/// neutral default when nothing is persisted.
pub open spec fn spec_display_mood(loaded: Option<Mood>) -> Mood {
    match loaded {
        Some(m) => m,
        None => Mood::Neutral,
    }
}

/// What the loop displays each round: a failed or absent load is no
/// error, it degrades to the neutral default.
pub fn display_mood(loaded: Option<Mood>) -> (m: Mood)
    ensures
        m == spec_display_mood(loaded),
{
    match loaded {
        Some(m) => m,
        None => Mood::Neutral,
    }
}

/// Cancellation is observed within one slice: whatever the loop's state,
/// the first decision taken after the flag is set is the farewell —
/// never another render or another sleep.
pub proof fn lemma_cancellation_prompt(l: PollLoop)
    ensures
        spec_step(l, true).1 == PollAction::Farewell,
        spec_step(l, true).0 == l,
{
}

} // verus!
