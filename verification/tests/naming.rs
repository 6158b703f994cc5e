use auto_follow::titles::{
    classify_bjj, classify_contender, classify_fight_night, classify_ufc, event_suffix,
    fight_night_event_key_any, fight_night_key,
};

#[test]
fn sponsors_change_nothing() {
    for sponsor in ["", "Crypto.com ", "A & B's 7 "] {
        assert_eq!(
            event_suffix(&format!("{sponsor}UFC 331: A vs B"), "UFC 331: "),
            Some("A vs B")
        );
        assert!(classify_ufc(&format!("{sponsor}UFC 331: A vs B"), 5400, 331));
        assert!(!classify_ufc(&format!("{sponsor}UFC 331: A vs B"), 5399, 331));
        assert!(classify_bjj(&format!("{sponsor}UFC BJJ 3: A vs B"), 3600, 3));
        assert_eq!(
            fight_night_key(&format!("{sponsor}UFC Fight Night: A vs B")),
            Some("A vs B")
        );
    }
}

#[test]
fn prefixes_that_are_no_sponsor_are_rejected() {
    let prefixes = [
        "Portuguese ",
        "In English ",
        "DEUTSCH ",
        "Spanish ",
        "FRENCH ",
        "german ",
        "Italian ",
        "Russian ",
        "Japanese ",
        "Korean ",
        "Chinese ",
        "Arabic ",
        "In Turkish ",
        "Polish ",
        "(RUS) ",
        "Español ",
        "A - B ",
        "Smith VS Jones ",
        "Crypto.com",
        "Crypto.com: ",
        "A sponsor with a name that is too long ",
    ];
    for prefix in prefixes {
        assert_eq!(
            event_suffix(&format!("{prefix}UFC 331: A vs B"), "UFC 331: "),
            None
        );
        assert_eq!(fight_night_key(&format!("{prefix}UFC Fight Night: A vs B")), None);
        assert!(!classify_ufc(&format!("{prefix}UFC 331: A vs B"), 20_000, 331));
    }
    // A language name inside another word names no language; one beside other words does.
    for sponsor in ["Purdue ", "Visit Thailand ", "Germany ", "Czechia ", "Polished ", "Hindia "] {
        assert_eq!(
            event_suffix(&format!("{sponsor}UFC 331: Van vs Pantoja 2"), "UFC 331: "),
            Some("Van vs Pantoja 2")
        );
        assert!(classify_ufc(&format!("{sponsor}UFC 331: A vs B"), 5400, 331));
        assert!(classify_bjj(&format!("{sponsor}UFC BJJ 3: A vs B"), 3600, 3));
        assert!(classify_fight_night(&format!("{sponsor}UFC Fight Night: A vs B"), 5400));
    }
    for prefix in ["urdu ", "Live.Thai ", "Thai&more ", "Dubbed in German 2 "] {
        assert!(!classify_ufc(&format!("{prefix}UFC 331: A vs B"), 5400, 331));
    }
    // These six count inside other words too.
    assert!(!classify_ufc("Englishtown UFC 331: A vs B", 5400, 331));
    // 32 characters are allowed, 33 are not.
    let longest = format!("{} ", "a".repeat(31));
    assert!(classify_ufc(&format!("{longest}UFC 331: Prelims"), 3600, 331));
    let longer = format!("{} ", "a".repeat(32));
    assert!(!classify_ufc(&format!("{longer}UFC 331: Prelims"), 3600, 331));
}

#[test]
fn lengths_tell_cards_from_clips() {
    assert!(classify_ufc("UFC 331: Prelims", 3600, 331));
    assert!(!classify_ufc("UFC 331: Prelims", 3599, 331));
    assert!(!classify_ufc("UFC 331: Early Prelims", 9000, 331));
    assert!(!classify_ufc("UFC 331: A vs B Promo", 9000, 331));
    assert!(!classify_bjj("UFC BJJ 3: A vs B", 3599, 3));
    assert!(!classify_bjj("UFC BJJ 3: A vs B - Recap", 9000, 3));
    assert!(classify_fight_night("UFC Fight Night: A vs B Prelims", 3600));
    assert!(!classify_fight_night("UFC Fight Night: A vs B Prelims", 3599));
    assert!(classify_fight_night("UFC Fight Night: A vs B", 5400));
    assert!(!classify_fight_night("UFC Fight Night: A vs B", 5399));
}

#[test]
fn contender_titles_name_a_season_and_a_week() {
    let prefix = "Dana White's Contender Series: Season ";
    assert!(classify_contender(&format!("{prefix}1, Week 10"), 3600));
    assert!(!classify_contender(&format!("{prefix}1, Week 10"), 3599));
    assert!(!classify_contender(&format!("{prefix}, Week 10"), 3600));
    assert!(!classify_contender(&format!("{prefix}1, Week "), 3600));
    assert!(!classify_contender(&format!("{prefix}1, Week 2, Week 3"), 3600));
    assert!(!classify_contender(&format!("{prefix}1 Week 2"), 3600));
    assert!(!classify_contender(&format!("The {prefix}1, Week 2"), 3600));
    assert!(!classify_contender(&format!("{prefix}١, Week 2"), 3600));
}

#[test]
fn a_title_is_of_one_event() {
    let title = "UFC 331: A vs B";
    for number in 0..=999 {
        assert_eq!(classify_ufc(title, 9000, number), number == 331);
        assert!(!classify_bjj(title, 9000, number));
    }
    assert!(!classify_contender(title, 9000));
    assert!(!classify_fight_night(title, 9000));
    let night = "UFC Fight Night: A vs B";
    let episode = "Dana White's Contender Series: Season 1, Week 2";
    assert!(classify_fight_night(night, 9000) && !classify_contender(night, 9000));
    assert!(classify_contender(episode, 9000) && !classify_fight_night(episode, 9000));
    assert!(!classify_bjj(night, 9000, 1) && !classify_bjj(episode, 9000, 1));
    assert!(!classify_ufc("UFC BJJ 9: A vs B", 9000, 9));
    assert!(classify_ufc("UFC 331: UFC 332: A vs B", 9000, 331));
    assert!(!classify_ufc("UFC 331: UFC 332: A vs B", 9000, 332));
}

#[test]
fn cards_and_prelims_share_their_event() {
    for ending in ["", " Prelims", " Early Prelims", " Fight Pass Prelims"] {
        assert_eq!(
            fight_night_key(&format!("UFC Fight Night: A vs B{ending}")),
            Some("A vs B")
        );
        assert_eq!(
            fight_night_event_key_any(&format!("X vs Y UFC Fight Night: A vs B{ending}")),
            Some("A vs B")
        );
    }
    // Only the longest ending is taken off.
    assert_eq!(
        fight_night_key("UFC Fight Night: A vs B Prelims Prelims"),
        Some("A vs B Prelims")
    );
    assert_eq!(fight_night_key("X vs Y UFC Fight Night: A vs B"), None);
}

#[test]
fn extras_are_no_events() {
    let extras = [
        "Promo",
        "Press Conference",
        "Highlights",
        "Recap",
        "Countdown",
        "Interview",
        "Weigh-In",
        "Preview",
        "Full Fight",
        "(RUS)",
        "- Part",
    ];
    for extra in extras {
        let title = format!("UFC Fight Night: A vs B {extra}");
        assert_eq!(fight_night_key(&title), None);
        assert_eq!(fight_night_event_key_any(&title), None);
        assert!(!classify_fight_night(&title, 20_000));
    }
    assert_eq!(fight_night_key("UFC Fight Night: A x B"), None);
}
