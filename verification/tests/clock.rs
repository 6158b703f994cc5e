use auto_follow::calendar::{civil_from_days, has_iso_date, iso_utc};
use auto_follow::clock::utc_iso_of;
use std::time::{Duration, UNIX_EPOCH};

#[test]
fn moments_are_written_in_utc() {
    assert_eq!(iso_utc(0), "1970-01-01T00:00:00Z");
    assert_eq!(iso_utc(86_399), "1970-01-01T23:59:59Z");
    assert_eq!(iso_utc(951_782_400), "2000-02-29T00:00:00Z");
    assert_eq!(iso_utc(1_790_283_600), "2026-09-24T21:00:00Z");
    assert_eq!(iso_utc(-1), "1969-12-31T23:59:59Z");
    assert_eq!(iso_utc(253_402_300_799), "9999-12-31T23:59:59Z");
    assert_eq!(iso_utc(253_402_300_800), "10000-01-01T00:00:00Z");
    assert_eq!(iso_utc(-62_167_219_200), "0000-01-01T00:00:00Z");
    assert_eq!(iso_utc(-62_167_219_201), "-001-12-31T23:59:59Z");
}

#[test]
fn days_are_dates() {
    assert_eq!(civil_from_days(-1), (1969, 12, 31));
    assert_eq!(civil_from_days(59), (1970, 3, 1));
    assert_eq!(civil_from_days(11_016), (2000, 2, 29));
    assert_eq!(civil_from_days(11_017), (2000, 3, 1));
    assert_eq!(civil_from_days(47_541), (2100, 3, 1));
    assert_eq!(civil_from_days(-719_468), (0, 3, 1));
    assert_eq!(civil_from_days(-719_528), (0, 1, 1));
}

#[test]
fn readings_of_the_clock_are_written_in_utc() {
    assert_eq!(utc_iso_of(&UNIX_EPOCH), "1970-01-01T00:00:00Z");
    let later = UNIX_EPOCH + Duration::from_millis(1_790_283_600_999);
    assert_eq!(utc_iso_of(&later), "2026-09-24T21:00:00Z");
    // A clock that stands before the epoch gives the epoch.
    let earlier = UNIX_EPOCH - Duration::from_secs(5);
    assert_eq!(utc_iso_of(&earlier), "1970-01-01T00:00:00Z");
}

#[test]
fn later_moments_are_later_texts() {
    let moments = [0, 1, 59, 60, 86_399, 86_400, 951_782_400, 1_790_283_600];
    for pair in moments.windows(2) {
        assert!(iso_utc(pair[0]) < iso_utc(pair[1]));
    }
}

#[test]
fn dates_are_known_by_their_shape() {
    assert!(has_iso_date("2026-09-24"));
    assert!(has_iso_date("2026-09-24T21:00:00Z"));
    assert!(has_iso_date("2026-99-99 and more"));
    assert!(!has_iso_date("2026-09-2"));
    assert!(!has_iso_date("2026-9-24T"));
    assert!(!has_iso_date("2026/09/24"));
    assert!(!has_iso_date(""));
    assert!(!has_iso_date("２０２６-09-24"));
}
