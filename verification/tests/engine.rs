use terminal_pet::{Event, Mood, PetState};

#[test]
fn commit_increases_xp_and_sets_happy() {
    let mut pet = PetState::new();
    pet.apply_event(Event::Commit);
    assert_eq!(pet.xp, 10);
    assert_eq!(pet.mood, Mood::Happy);
}

#[test]
fn test_pass_adds_15_xp() {
    let mut pet = PetState::new();
    pet.apply_event(Event::TestPass);
    assert_eq!(pet.xp, 15);
    assert_eq!(pet.mood, Mood::Happy);
}

#[test]
fn test_fail_adds_small_xp_and_sad() {
    let mut pet = PetState::new();
    pet.apply_event(Event::TestFail);
    assert_eq!(pet.xp, 2);
    assert_eq!(pet.mood, Mood::Sad);
}

#[test]
fn level_up_based_on_xp() {
    let mut pet = PetState::new();
    pet.add_xp(250);
    // 250 / 100 = 2 -> level = 3
    assert_eq!(pet.level, 3);
}

#[test]
fn inactivity_decreases_energy_and_makes_sad() {
    let mut pet = PetState::new();
    pet.energy = 25;
    pet.apply_event(Event::Inactivity);
    assert!(pet.energy < 25);
    assert_eq!(pet.mood, Mood::Sad);
}

#[test]
fn fresh_state_has_documented_fields() {
    let pet = PetState::new();
    assert_eq!(pet.mood, Mood::Neutral);
    assert_eq!(pet.energy, 50);
    assert_eq!(pet.xp, 0);
    assert_eq!(pet.level, 1);
}

#[test]
fn fresh_commit_scenario() {
    let mut pet = PetState::new();
    pet.apply_event(Event::Commit);
    assert_eq!(pet.xp, 10);
    assert_eq!(pet.mood, Mood::Happy);
    assert_eq!(pet.energy, 51);
    assert_eq!(pet.level, 1);
}

#[test]
fn inactivity_boundary_at_twenty() {
    let mut pet = PetState::new();
    pet.energy = 25;
    pet.apply_event(Event::Inactivity);
    assert_eq!(pet.energy, 20);
    assert_eq!(pet.mood, Mood::Sad);

    let mut pet = PetState::new();
    pet.energy = 26;
    pet.apply_event(Event::Inactivity);
    assert_eq!(pet.energy, 21);
    assert_eq!(pet.mood, Mood::Neutral);
}

#[test]
fn inactivity_from_fresh_state() {
    let mut pet = PetState::new();
    pet.apply_event(Event::Inactivity);
    assert_eq!(pet.energy, 45);
    assert_eq!(pet.mood, Mood::Neutral);
}

#[test]
fn energy_clamps_at_both_bounds() {
    let mut pet = PetState::new();
    pet.energy = 100;
    pet.apply_event(Event::Commit);
    assert_eq!(pet.energy, 100);

    let mut pet = PetState::new();
    pet.energy = 0;
    pet.apply_event(Event::Inactivity);
    assert_eq!(pet.energy, 0);
    assert_eq!(pet.mood, Mood::Sad);

    let mut pet = PetState::new();
    pet.energy = 3;
    pet.apply_event(Event::Inactivity);
    assert_eq!(pet.energy, 0);
}

#[test]
fn xp_saturates_instead_of_wrapping() {
    let mut pet = PetState::new();
    pet.add_xp(u32::MAX);
    pet.add_xp(500);
    assert_eq!(pet.xp, u32::MAX);
    assert_eq!(pet.level, u32::MAX / 100 + 1);
}

#[test]
fn xp_never_decreases_across_all_events() {
    let events = [
        Event::Commit,
        Event::TestPass,
        Event::TestFail,
        Event::MergeConflict,
        Event::Inactivity,
        Event::NpmInstall,
        Event::ForcePushMain,
        Event::FridayDeploy,
        Event::BugFix,
    ];
    let mut pet = PetState::new();
    for e in events {
        let before = pet.xp;
        pet.apply_event(e);
        assert!(pet.xp >= before);
        assert_eq!(pet.level, pet.xp / 100 + 1);
        assert!(0 <= pet.energy && pet.energy <= 100);
    }
}

#[test]
fn transition_table_moods_and_deltas() {
    let cases = [
        (Event::Commit, 10u32, Mood::Happy),
        (Event::TestPass, 15, Mood::Happy),
        (Event::TestFail, 2, Mood::Sad),
        (Event::MergeConflict, 0, Mood::Scared),
        (Event::NpmInstall, 1, Mood::Neutral),
        (Event::ForcePushMain, 0, Mood::Scared),
        (Event::FridayDeploy, 20, Mood::Scared),
        (Event::BugFix, 12, Mood::Happy),
    ];
    for (e, delta, mood) in cases {
        let mut pet = PetState::new();
        pet.apply_event(e);
        assert_eq!(pet.xp, delta);
        assert_eq!(pet.mood, mood);
    }
}

#[test]
fn event_names_parse_to_their_events() {
    let cases = [
        ("commit", Event::Commit),
        ("test-pass", Event::TestPass),
        ("test-fail", Event::TestFail),
        ("merge-conflict", Event::MergeConflict),
        ("inactivity", Event::Inactivity),
        ("npm-install", Event::NpmInstall),
        ("force-push-main", Event::ForcePushMain),
        ("friday-deploy", Event::FridayDeploy),
        ("bug-fix", Event::BugFix),
    ];
    for (name, event) in cases {
        assert_eq!(terminal_pet::parse_event(name), Some(event));
    }
}

#[test]
fn unknown_event_names_are_rejected() {
    assert_eq!(terminal_pet::parse_event("deploy"), None);
    assert_eq!(terminal_pet::parse_event("Commit"), None);
    assert_eq!(terminal_pet::parse_event("commit "), None);
    assert_eq!(terminal_pet::parse_event(""), None);
}
