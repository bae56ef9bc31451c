use terminal_pet::storage::{
    default_path, default_path_from, from_json, storage_dir, storage_dir_from, to_json,
    PersistedPet,
};
use terminal_pet::{Mood, PetState};

#[test]
fn encoding_matches_documented_shape() {
    let p = PersistedPet { mood: Mood::Happy, energy: 51, xp: 10, level: 1 };
    let bytes = to_json(&p);
    assert_eq!(bytes, b"{\"mood\":\"Happy\",\"energy\":51,\"xp\":10,\"level\":1}".to_vec());
}

#[test]
fn encoding_of_negative_energy() {
    let p = PersistedPet { mood: Mood::Sad, energy: -7, xp: 0, level: 1 };
    let bytes = to_json(&p);
    assert_eq!(bytes, b"{\"mood\":\"Sad\",\"energy\":-7,\"xp\":0,\"level\":1}".to_vec());
}

#[test]
fn round_trip_of_every_mood_and_extreme_values() {
    let cases = [
        PersistedPet { mood: Mood::Happy, energy: 0, xp: 0, level: 1 },
        PersistedPet { mood: Mood::Neutral, energy: 50, xp: 0, level: 1 },
        PersistedPet { mood: Mood::Sad, energy: 100, xp: 250, level: 3 },
        PersistedPet { mood: Mood::Sleeping, energy: 1, xp: u32::MAX, level: u32::MAX / 100 + 1 },
        PersistedPet { mood: Mood::Scared, energy: i32::MIN, xp: 99, level: 1 },
        PersistedPet { mood: Mood::Scared, energy: i32::MAX, xp: 100, level: 2 },
        PersistedPet { mood: Mood::Neutral, energy: -1, xp: 0, level: 0 },
    ];
    for p in cases {
        let bytes = to_json(&p);
        assert_eq!(from_json(&bytes), Some(p));
    }
}

#[test]
fn round_trip_after_transitions() {
    let mut pet = PetState::new();
    pet.apply_event(terminal_pet::Event::Commit);
    pet.apply_event(terminal_pet::Event::FridayDeploy);
    let rec = PersistedPet::of_state(&pet);
    let bytes = to_json(&rec);
    let back = from_json(&bytes).expect("an encoding decodes");
    assert_eq!(back, rec);
    let state = back.to_state();
    assert_eq!(state.mood, pet.mood);
    assert_eq!(state.energy, pet.energy);
    assert_eq!(state.xp, pet.xp);
    assert_eq!(state.level, pet.level);
}

#[test]
fn malformed_records_are_rejected() {
    let bad: [&[u8]; 10] = [
        b"",
        b"{}",
        b"{\"mood\":\"Happy\",\"energy\":51,\"xp\":10,\"level\":1",
        b"{\"mood\":\"Grumpy\",\"energy\":51,\"xp\":10,\"level\":1}",
        b"{\"mood\":\"Happy\",\"energy\":051,\"xp\":10,\"level\":1}",
        b"{\"mood\":\"Happy\",\"energy\":-0,\"xp\":10,\"level\":1}",
        b"{\"mood\":\"Happy\",\"energy\":51,\"xp\":-1,\"level\":1}",
        b"{\"mood\":\"Happy\",\"energy\":51,\"xp\":10,\"level\":1} ",
        b"{\"mood\":\"Happy\",\"energy\":99999999999,\"xp\":10,\"level\":1}",
        b"{\"mood\":\"Happy\",\"energy\":51,\"xp\":4294967296,\"level\":1}",
    ];
    for b in bad {
        assert_eq!(from_json(&b.to_vec()), None);
    }
}

#[test]
fn decoder_is_not_the_identity_on_its_input() {
    // a record whose encoding differs from the bytes of its fields
    let p = PersistedPet { mood: Mood::Sleeping, energy: -42, xp: 4294967295, level: 42949673 };
    let bytes = to_json(&p);
    assert_eq!(
        bytes,
        b"{\"mood\":\"Sleeping\",\"energy\":-42,\"xp\":4294967295,\"level\":42949673}".to_vec()
    );
    assert_eq!(from_json(&bytes), Some(p));
}

#[test]
fn storage_paths_have_documented_suffixes() {
    let dir = storage_dir();
    assert!(dir.ends_with("/.terminal-pet"));
    let path = default_path();
    assert!(path.ends_with("/.terminal-pet/pet.json"));
    assert!(path.starts_with(&dir));
}

#[test]
fn storage_paths_follow_the_home_value() {
    assert_eq!(storage_dir_from(Some("/home/someone".to_string())), "/home/someone/.terminal-pet");
    assert_eq!(storage_dir_from(None), "./.terminal-pet");
    assert_eq!(
        default_path_from(Some("/home/someone".to_string())),
        "/home/someone/.terminal-pet/pet.json"
    );
    assert_eq!(default_path_from(None), "./.terminal-pet/pet.json");
}
