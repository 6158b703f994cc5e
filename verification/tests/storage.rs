use auto_follow::media::{existing_media, is_recording, Entry};
use auto_follow::state::{FollowState, Replay};
use auto_follow::store::{initial_state, SaveStep, Stored};

fn file(name: &str) -> Entry {
    Entry {
        is_file: true,
        name: Some(name.to_string()),
    }
}

#[test]
fn completed_recordings_are_told_from_partial_ones() {
    let title = "UFC 321 - Prelims";
    let mut entries = vec![file("UFC 321 - Prelims.mp4.part")];
    assert!(!existing_media(&Some(entries), title));
    entries = vec![
        file("UFC 321 - Prelims.mp4.part"),
        file("42. UFC 321 - Prelims.mkv"),
    ];
    assert!(existing_media(&Some(entries), title));
    assert!(!existing_media(&None, title));
    assert!(!existing_media(&Some(Vec::new()), title));
}

#[test]
fn recordings_are_known_by_name_and_format() {
    let title = "A. B";
    for extension in ["mp4", "mkv", "mov", "avi", "webm"] {
        assert!(is_recording(&file(&format!("A. B.{extension}")), title));
        assert!(is_recording(&file(&format!("7. A. B.{extension}")), title));
        // Digits may be missing before the dot.
        assert!(is_recording(&file(&format!(". A. B.{extension}")), title));
    }
    assert!(!is_recording(&file("A. B"), title));
    assert!(!is_recording(&file("A. B.MP4"), title));
    assert!(!is_recording(&file("x7. A. B.mp4"), title));
    assert!(!is_recording(&file("7.A. B.mp4"), title));
    assert!(!is_recording(&file("A. B.ts"), title));
    assert!(!is_recording(&file(".mp4"), ""));
    let folder = Entry {
        is_file: false,
        name: Some("A. B.mp4".to_string()),
    };
    assert!(!is_recording(&folder, title));
    let nameless = Entry {
        is_file: true,
        name: None,
    };
    assert!(!is_recording(&nameless, title));
}

#[test]
fn the_followers_pause_on_a_state_that_cannot_be_used() {
    assert!(initial_state(Stored::Invalid).is_none());
    assert!(initial_state(Stored::Unreadable).is_none());
    let fresh = initial_state(Stored::Missing).unwrap();
    assert!(!fresh.contender_initialized);
    assert!(!fresh.fight_night_initialized);
    assert!(fresh.fight_night_baseline.is_empty());
    assert_eq!(fresh.ufc_initialized_number, 0);
    assert!(fresh.handled_ids.is_empty());
    let mut state = FollowState::default();
    state.mark_handled(1024887, "UFC 321: Prelims".to_string());
    let kept = initial_state(Stored::State(state)).unwrap();
    assert!(kept.handled_ids.contains(&1024887));
    assert!(kept.is_handled(0, "UFC 321: Prelims"));
}

#[test]
fn recordings_are_handled_by_number_or_title() {
    let mut state = FollowState::default();
    let replays = vec![
        Replay {
            id: 1,
            title: "a".to_string(),
            published: String::new(),
        },
        Replay {
            id: 2,
            title: "b".to_string(),
            published: String::new(),
        },
    ];
    state.mark_handled_from(&replays, 1);
    assert!(!state.is_handled(1, "a"));
    assert!(state.is_handled(2, "other"));
    assert!(state.is_handled(9, "b"));
    state.mark_handled_from(&replays, 3);
    assert!(!state.is_handled(1, "a"));
    state.mark_handled_from(&replays, 0);
    assert!(state.is_handled(1, "z"));
    assert_eq!(
        state.handled_titles.list(),
        vec!["b".to_string(), "a".to_string()]
    );
}

#[test]
fn a_state_is_replaced_by_renaming() {
    assert_eq!(SaveStep::WriteTemporary.next(true), SaveStep::Rename);
    assert_eq!(SaveStep::WriteTemporary.next(false), SaveStep::Failed);
    assert_eq!(SaveStep::Rename.next(true), SaveStep::Saved);
    assert_eq!(SaveStep::Rename.next(false), SaveStep::LookForTarget);
    assert_eq!(SaveStep::LookForTarget.next(true), SaveStep::RemoveTarget);
    assert_eq!(SaveStep::LookForTarget.next(false), SaveStep::Failed);
    assert_eq!(SaveStep::RemoveTarget.next(true), SaveStep::RenameAgain);
    assert_eq!(SaveStep::RemoveTarget.next(false), SaveStep::Failed);
    assert_eq!(SaveStep::RenameAgain.next(true), SaveStep::Saved);
    assert_eq!(SaveStep::RenameAgain.next(false), SaveStep::Failed);
    assert_eq!(SaveStep::Saved.next(false), SaveStep::Saved);
    assert_eq!(SaveStep::Failed.next(true), SaveStep::Failed);
}
