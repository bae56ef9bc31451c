//! Core engine for a terminal virtual pet: a pure, total transition
//! function from (state, event) to state, together with the persisted
//! record codec and the poll-render loop's decision logic.

use vstd::prelude::*;

pub mod renderer;
pub mod storage;

verus! {

/// The pet's emotional state; it drives rendering only.
#[derive(Debug, PartialEq, Eq, Structural, Clone, Copy)]
pub enum Mood {
    Happy,
    Neutral,
    Sad,
    Sleeping,
    Scared,
}

/// A developer-workflow signal; each one triggers exactly one transition.
#[derive(Debug, PartialEq, Eq, Structural, Clone, Copy)]
pub enum Event {
    Commit,
    TestPass,
    TestFail,
    MergeConflict,
    Inactivity,
    NpmInstall,
    ForcePushMain,
    FridayDeploy,
    BugFix,
}

/// The pet's attributes. `energy` stays within `0 ..= 100`, `xp` never
/// decreases, and `level` is always derived from `xp`.
#[derive(Debug, PartialEq, Eq, Structural, Clone, Copy)]
pub struct PetState {
    pub mood: Mood,
    pub energy: i32,
    pub xp: u32,
    pub level: u32,
}

/// The level that a given amount of experience yields.
pub open spec fn spec_level(xp: u32) -> u32 {
    ((xp / 100) + 1) as u32
}

/// Experience gain: saturating addition, with the level recomputed.
pub open spec fn spec_add_xp(s: PetState, delta: u32) -> PetState {
    let xp = s.xp.saturating_add(delta);
    PetState { mood: s.mood, energy: s.energy, xp, level: spec_level(xp) }
}

/// The transition table: what one event does to a state.
pub open spec fn spec_apply_event(s: PetState, e: Event) -> PetState {
    match e {
        Event::Commit => {
            let s1 = spec_add_xp(s, 10);
            let energy = if s1.energy + 1 > 100 { 100 as i32 } else { (s1.energy + 1) as i32 };
            PetState { mood: Mood::Happy, energy, ..s1 }
        },
        Event::TestPass => PetState { mood: Mood::Happy, ..spec_add_xp(s, 15) },
        Event::TestFail => PetState { mood: Mood::Sad, ..spec_add_xp(s, 2) },
        Event::MergeConflict => PetState { mood: Mood::Scared, ..s },
        Event::Inactivity => {
            let energy = if s.energy - 5 < 0 { 0 as i32 } else { (s.energy - 5) as i32 };
            let mood = if energy <= 20 { Mood::Sad } else { Mood::Neutral };
            PetState { mood, energy, ..s }
        },
        Event::NpmInstall => PetState { mood: Mood::Neutral, ..spec_add_xp(s, 1) },
        Event::ForcePushMain => PetState { mood: Mood::Scared, ..s },
        Event::FridayDeploy => PetState { mood: Mood::Scared, ..spec_add_xp(s, 20) },
        Event::BugFix => PetState { mood: Mood::Happy, ..spec_add_xp(s, 12) },
    }
}

impl PetState {
    /// A state is well formed when its energy is within bounds and its
    /// level is the one derived from its experience.
    pub open spec fn wf(self) -> bool {
        &&& 0 <= self.energy <= 100
        &&& self.level == spec_level(self.xp)
    }

    /// The fresh state used when no persisted record exists.
    pub fn new() -> (s: Self)
        ensures
            s == (PetState { mood: Mood::Neutral, energy: 50, xp: 0, level: 1 }),
            s.wf(),
    {
        Self { mood: Mood::Neutral, energy: 50, xp: 0, level: 1 }
    }

    /// Add experience with saturating arithmetic and recompute the level.
    pub fn add_xp(&mut self, delta: u32)
        ensures
            *final(self) == spec_add_xp(*old(self), delta),
            final(self).xp >= old(self).xp,
    {
        self.xp = self.xp.saturating_add(delta);
        let new_level = self.xp / 100 + 1;
        if new_level != self.level {
            self.level = new_level;
        }
    }

    /// Apply one event. Total over all states and all events: it never
    /// fails, experience never decreases, and a well-formed state stays
    /// well formed.
    pub fn apply_event(&mut self, event: Event)
        ensures
            *final(self) == spec_apply_event(*old(self), event),
            old(self).wf() ==> final(self).wf(),
            final(self).xp >= old(self).xp,
    {
        match event {
            Event::Commit => {
                self.add_xp(10);
                self.mood = Mood::Happy;
                self.energy = if self.energy >= 100 { 100 } else { self.energy + 1 };
            },
            Event::TestPass => {
                self.add_xp(15);
                self.mood = Mood::Happy;
            },
            Event::TestFail => {
                self.add_xp(2);
                self.mood = Mood::Sad;
            },
            Event::MergeConflict => {
                self.mood = Mood::Scared;
            },
            Event::Inactivity => {
                self.energy = if self.energy < 5 { 0 } else { self.energy - 5 };
                self.mood = if self.energy <= 20 { Mood::Sad } else { Mood::Neutral };
            },
            Event::NpmInstall => {
                self.add_xp(1);
                self.mood = Mood::Neutral;
            },
            Event::ForcePushMain => {
                self.mood = Mood::Scared;
            },
            Event::FridayDeploy => {
                self.add_xp(20);
                self.mood = Mood::Scared;
            },
            Event::BugFix => {
                self.add_xp(12);
                self.mood = Mood::Happy;
            },
        }
    }
}

/// Experience never decreases: for every event and every well-formed
/// state, the transition's result carries at least as much experience.
pub proof fn lemma_xp_never_decreases(s: PetState, e: Event)
    requires
        s.wf(),
    ensures
        spec_apply_event(s, e).xp >= s.xp,
{
}

/// The level is always the one derived from the experience: it holds of
/// the result of every transition from a well-formed state.
pub proof fn lemma_level_derived(s: PetState, e: Event)
    requires
        s.wf(),
    ensures
        spec_apply_event(s, e).level == spec_level(spec_apply_event(s, e).xp),
{
}

/// Energy stays within bounds: it holds of the result of every
/// transition from a well-formed state.
pub proof fn lemma_energy_bounded(s: PetState, e: Event)
    requires
        s.wf(),
    ensures
        0 <= spec_apply_event(s, e).energy <= 100,
{
}

/// The event named by a command-line argument, if it is one of the nine
/// known kebab-case names.
pub open spec fn spec_parse_event(s: Seq<char>) -> Option<Event> {
    if s == "commit"@ {
        Some(Event::Commit)
    } else if s == "test-pass"@ {
        Some(Event::TestPass)
    } else if s == "test-fail"@ {
        Some(Event::TestFail)
    } else if s == "merge-conflict"@ {
        Some(Event::MergeConflict)
    } else if s == "inactivity"@ {
        Some(Event::Inactivity)
    } else if s == "npm-install"@ {
        Some(Event::NpmInstall)
    } else if s == "force-push-main"@ {
        Some(Event::ForcePushMain)
    } else if s == "friday-deploy"@ {
        Some(Event::FridayDeploy)
    } else if s == "bug-fix"@ {
        Some(Event::BugFix)
    } else {
        None
    }
}

/// Relies on str's `PartialEq`: two string slices are equal exactly when
/// their character sequences are equal.
#[verifier::external_body]
fn str_eq(a: &str, b: &str) -> (r: bool)
    ensures
        r == (a@ == b@),
{
    a == b
}

/// Turn an event name into its event: exactly the nine known names are
/// accepted, every other name is rejected.
pub fn parse_event(name: &str) -> (r: Option<Event>)
    ensures
        r == spec_parse_event(name@),
{
    if str_eq(name, "commit") {
        Some(Event::Commit)
    } else if str_eq(name, "test-pass") {
        Some(Event::TestPass)
    } else if str_eq(name, "test-fail") {
        Some(Event::TestFail)
    } else if str_eq(name, "merge-conflict") {
        Some(Event::MergeConflict)
    } else if str_eq(name, "inactivity") {
        Some(Event::Inactivity)
    } else if str_eq(name, "npm-install") {
        Some(Event::NpmInstall)
    } else if str_eq(name, "force-push-main") {
        Some(Event::ForcePushMain)
    } else if str_eq(name, "friday-deploy") {
        Some(Event::FridayDeploy)
    } else if str_eq(name, "bug-fix") {
        Some(Event::BugFix)
    } else {
        None
    }
}

} // verus!
