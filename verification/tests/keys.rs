use auto_follow::keys::{latest_year, select_fight_night_keys, EventDates};

#[test]
fn fight_night_key_selection_respects_baseline_and_limit() {
    let keys = vec![
        ("old".to_string(), "2023-06-10T00:00:00Z".to_string()),
        ("new".to_string(), "2026-08-11T16:20:04Z".to_string()),
        ("mid".to_string(), "2025-07-26T22:00:00Z".to_string()),
        ("playlist".to_string(), String::new()),
    ];
    // No baseline: undated (playlist) keys first, then dated newest first.
    assert_eq!(
        select_fight_night_keys(keys.clone(), "", 2),
        vec!["playlist".to_string(), "new".to_string()]
    );
    assert_eq!(
        select_fight_night_keys(keys.clone(), "", 4),
        vec![
            "playlist".to_string(),
            "new".to_string(),
            "mid".to_string(),
            "old".to_string()
        ]
    );
    // A baseline stops older dated keys but keeps undated (playlist) keys.
    assert_eq!(
        select_fight_night_keys(keys.clone(), "2026-01-01T00:00:00Z", 10),
        vec!["playlist".to_string(), "new".to_string()]
    );
    // Undated keys still respect the cap.
    assert_eq!(
        select_fight_night_keys(keys, "2027-01-01T00:00:00Z", 1),
        vec!["playlist".to_string()]
    );
}

#[test]
fn latest_year_picks_highest_dated_year() {
    let mut keys = EventDates::new();
    keys.note("a", "2025-07-26T22:00:00Z");
    keys.note("b", "2026-08-11T16:20:04Z");
    keys.note("c", "");
    assert_eq!(latest_year(&keys), Some(2026));
    assert_eq!(latest_year(&EventDates::new()), None);
}

#[test]
fn keys_of_one_date_keep_their_order() {
    let keys = vec![
        ("a".to_string(), "2026-01-01".to_string()),
        ("b".to_string(), "2026-01-02".to_string()),
        ("c".to_string(), "2026-01-01".to_string()),
        ("d".to_string(), "2026-01-02".to_string()),
    ];
    assert_eq!(
        select_fight_night_keys(keys.clone(), "", 10),
        vec!["b".to_string(), "d".to_string(), "a".to_string(), "c".to_string()]
    );
    // A key of the baseline's own date is not older than the baseline.
    assert_eq!(
        select_fight_night_keys(keys.clone(), "2026-01-02", 10),
        vec!["b".to_string(), "d".to_string()]
    );
    assert!(select_fight_night_keys(keys, "", 0).is_empty());
}

#[test]
fn a_key_keeps_its_latest_date() {
    let mut keys = EventDates::new();
    keys.note("a", "2025-01-01");
    keys.note("a", "2026-01-01");
    keys.note("a", "2024-01-01");
    keys.note("b", "");
    keys.note("b", "");
    assert_eq!(
        keys.pairs(),
        vec![
            ("a".to_string(), "2026-01-01".to_string()),
            ("b".to_string(), String::new())
        ]
    );
}

#[test]
fn a_date_without_a_year_hides_no_year() {
    let mut keys = EventDates::new();
    keys.note("a", "2026-08-11T16:20:04Z");
    keys.note("b", "not-a-date");
    keys.note("c", "2025-01-01");
    assert_eq!(latest_year(&keys), Some(2026));
    let mut wide = EventDates::new();
    wide.note("a", "20é6-01-01");
    wide.note("b", "1999");
    assert_eq!(latest_year(&wide), Some(1999));
}

#[test]
fn years_have_four_digits() {
    for date in ["", "202", "+202x", "+-02", "20é6-01-01", "soon", "-026-01-01"] {
        let mut keys = EventDates::new();
        keys.note("a", date);
        assert_eq!(latest_year(&keys), None);
    }
    let mut zero = EventDates::new();
    zero.note("a", "0000-01-01");
    assert_eq!(latest_year(&zero), Some(0));
    let mut largest = EventDates::new();
    largest.note("a", "9999");
    largest.note("b", "9998-12-31");
    assert_eq!(latest_year(&largest), Some(9999));
}
