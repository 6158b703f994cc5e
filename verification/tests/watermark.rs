use auto_follow::baseline::{numbered_replay_allowed, ufc_take_baseline};
use auto_follow::calendar::{civil_from_days, has_iso_date};
use auto_follow::clock::now_utc_iso;
use auto_follow::published::has_calendar_date;

#[test]
fn numbered_ufc_watermark_skips_old_and_queues_new() {
    let baseline = "2026-09-24T21:00:00Z";
    // Selecting 320 and later discovering 322-331: their publications
    // predate the watermark and must be skipped, not downloaded.
    assert!(!numbered_replay_allowed(
        false,
        baseline,
        "2026-01-05T00:00:00Z"
    ));
    assert!(!numbered_replay_allowed(
        false,
        baseline,
        "2024-11-30T12:00:00.000Z"
    ));
    // A genuinely new publication after the watermark is eligible.
    assert!(numbered_replay_allowed(
        false,
        baseline,
        "2026-09-25T02:11:00.000Z"
    ));
    assert!(numbered_replay_allowed(
        false,
        baseline,
        "2026-09-24T21:00:01Z"
    ));
    // Missing or malformed dates are treated conservatively as pre-existing.
    assert!(!numbered_replay_allowed(false, baseline, ""));
    assert!(!numbered_replay_allowed(false, baseline, "not-a-date"));
    assert!(!numbered_replay_allowed(
        false,
        baseline,
        "2026-9-1T00:00:00Z"
    ));
    // Include-available ON preserves backfill of existing recordings.
    assert!(numbered_replay_allowed(
        true,
        baseline,
        "2020-01-01T00:00:00Z"
    ));
    assert!(numbered_replay_allowed(true, "", "2020-01-01T00:00:00Z"));
    // No watermark yet: the first check is baselined separately, so allow.
    assert!(numbered_replay_allowed(false, "", "2020-01-01T00:00:00Z"));
}

#[test]
fn ufc_watermark_taken_for_new_selection_and_legacy_only() {
    // New selection, Include-available off -> record the watermark.
    assert!(ufc_take_baseline(false, true, false));
    // Legacy state (same number, no watermark) -> record so old numbers are skipped.
    assert!(ufc_take_baseline(false, false, true));
    // Already baselined and number unchanged -> keep the existing watermark.
    assert!(!ufc_take_baseline(false, false, false));
    // Include-available on -> never take a watermark (preserve backfill).
    assert!(!ufc_take_baseline(true, true, true));
    assert!(!ufc_take_baseline(true, false, true));
}

#[test]
fn now_utc_iso_is_well_formed() {
    let now = now_utc_iso();
    assert_eq!(now.len(), 20);
    assert!(has_iso_date(&now));
    assert!(now.ends_with('Z'));
    // Epoch-day conversion sanity checks.
    assert_eq!(civil_from_days(0), (1970, 1, 1));
    assert_eq!(civil_from_days(10_957), (2000, 1, 1));
}

#[test]
fn publications_are_compared_by_their_times() {
    let baseline = "2026-09-24T21:00:00Z";
    let later = [
        "2026-09-24T21:00:00.500Z",
        "2026-09-24T21:00:00.000001Z",
        "2026-09-24T21:00:01",
        "2026-09-24T21:01Z",
        "2026-09-24T22Z",
        "2026-09-25",
        "2026-09-25Tsoon",
        "2027-01-01T00:00:00Z",
    ];
    for published in later {
        assert!(numbered_replay_allowed(false, baseline, published));
    }
    let not_later = [
        "2026-09-24T21:00:00Z",
        "2026-09-24T21:00:00.000Z",
        "2026-09-24T21:00:00.x5Z",
        "2026-09-24T21:00Z",
        "2026-09-24T21Z",
        "2026-09-24T20:99:99Z",
        "2026-09-24T20:59:59.999Z",
        "2026-09-24",
        "2026-09-24Z",
        // A time that no clock shows tells nothing but the day.
        "2026-09-24T99:99:99Z",
    ];
    for published in not_later {
        assert!(!numbered_replay_allowed(false, baseline, published));
    }
    let half = "2026-09-24T21:00:00.5Z";
    assert!(numbered_replay_allowed(false, half, "2026-09-24T21:00:00.51Z"));
    assert!(!numbered_replay_allowed(false, half, "2026-09-24T21:00:00.500Z"));
    assert!(!numbered_replay_allowed(false, half, "2026-09-24T21:00:00.49Z"));
    // A leap second comes after the second before it and before the next day.
    let (last, leap, next) = (
        "2016-12-31T23:59:59Z",
        "2016-12-31T23:59:60Z",
        "2017-01-01T00:00:00Z",
    );
    assert!(numbered_replay_allowed(false, last, leap));
    assert!(numbered_replay_allowed(false, leap, next));
    assert!(!numbered_replay_allowed(false, leap, last));
    assert!(!numbered_replay_allowed(false, leap, leap));
    assert!(!numbered_replay_allowed(false, next, leap));
    // A watermark that is no date is compared as a text.
    assert!(numbered_replay_allowed(false, "!", "2026-09-24"));
    assert!(!numbered_replay_allowed(false, "never", "2026-09-24"));
}

#[test]
fn dates_that_the_calendar_lacks_are_pre_existing() {
    let baseline = "2026-01-01T00:00:00Z";
    let malformed = [
        "2026-13-45T00:00:00Z",
        "2026-00-10T00:00:00Z",
        "2026-10-00T00:00:00Z",
        "2026-02-29T00:00:00Z",
        "2026-04-31T00:00:00Z",
        "2100-02-29T00:00:00Z",
    ];
    for published in malformed {
        assert!(!numbered_replay_allowed(false, baseline, published));
        assert!(numbered_replay_allowed(true, baseline, published));
        assert!(numbered_replay_allowed(false, "", published));
        assert!(!has_calendar_date(published));
    }
    for published in ["2028-02-29", "2400-02-29T00:00:00Z", "2026-12-31", "2026-01-31T00:00:01Z"] {
        assert!(has_calendar_date(published));
        assert!(numbered_replay_allowed(false, baseline, published));
    }
}
