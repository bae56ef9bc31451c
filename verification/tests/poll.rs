use terminal_pet::renderer::{display_mood, PollAction, PollLoop};
use terminal_pet::Mood;

#[test]
fn slice_count_comes_from_the_interval() {
    assert_eq!(PollLoop::new(5000).interval_slices, 25);
    assert_eq!(PollLoop::new(200).interval_slices, 1);
    assert_eq!(PollLoop::new(0).interval_slices, 1);
    assert_eq!(PollLoop::new(199).interval_slices, 1);
    assert_eq!(PollLoop::new(1000).interval_slices, 5);
}

#[test]
fn loop_renders_then_sleeps_then_renders_again() {
    let mut l = PollLoop::new(1000);
    assert_eq!(l.step(false), PollAction::Render);
    for _ in 0..5 {
        assert_eq!(l.step(false), PollAction::SleepSlice);
    }
    assert_eq!(l.step(false), PollAction::Render);
}

#[test]
fn cancellation_is_observed_within_one_slice() {
    // mid-interval: the next step is the farewell, not the rest of the sleep
    let mut l = PollLoop::new(60000);
    assert_eq!(l.step(false), PollAction::Render);
    assert_eq!(l.step(false), PollAction::SleepSlice);
    assert_eq!(l.step(true), PollAction::Farewell);

    // and at a render boundary too
    let mut l = PollLoop::new(60000);
    assert_eq!(l.step(true), PollAction::Farewell);
}

#[test]
fn absent_state_displays_the_neutral_default() {
    assert_eq!(display_mood(None), Mood::Neutral);
    assert_eq!(display_mood(Some(Mood::Scared)), Mood::Scared);
    assert_eq!(display_mood(Some(Mood::Happy)), Mood::Happy);
}
