use auto_follow::titles::{
    classify_bjj, classify_contender, classify_fight_night, classify_ufc,
    fight_night_event_key_any, fight_night_key,
};

#[test]
fn selects_complete_replays_only() {
    assert!(classify_ufc("UFC 321: Aspinall vs Gane", 10811, 321));
    assert!(classify_ufc("UFC 321: Prelims", 13733, 321));
    assert!(!classify_ufc(
        "UFC 321: Post-Fight Press Conference",
        4197,
        321
    ));
    assert!(classify_bjj("UFC BJJ 9: Fowler vs Johnson", 7200, 9));
    assert!(!classify_bjj("UFC BJJ 9: Fowler vs Johnson", 600, 9));
    assert!(classify_contender(
        "Dana White's Contender Series: Season 10, Week 7",
        10223
    ));
    assert!(!classify_contender(
        "Dana White's Contender Series: Season 10, Week 7 Highlights",
        9000
    ));
}

#[test]
fn accepts_sponsored_numbered_ufc_full_replays() {
    assert!(classify_ufc(
        "Crypto.com UFC 331: Van vs Pantoja 2",
        11335,
        331
    ));
    assert!(classify_ufc("Crypto.com UFC 331: Prelims", 7346, 331));
    assert!(classify_ufc(
        "Crypto.com UFC 331: Fight Pass Prelims",
        5389,
        331
    ));
    assert!(classify_ufc("UFC 331: Van vs Pantoja 2", 11335, 331));
    assert!(classify_ufc(
        "UFC 330: Makhachev vs Machado Garry",
        12543,
        330
    ));
}

#[test]
fn rejects_sponsored_extras_and_foreign_language() {
    assert!(!classify_ufc(
        "Crypto.com UFC 331: Post-Fight Press Conference",
        6590,
        331
    ));
    assert!(!classify_ufc("Crypto.com UFC 331: Fight Motion", 479, 331));
    assert!(!classify_ufc(
        "Crypto.com UFC 331: Embedded: Vlog Series - Episode 6 (RUS)",
        521,
        331
    ));
    assert!(!classify_ufc(
        "(ESPAÑOL) UFC 331: Van vs Pantoja 2",
        10923,
        331
    ));
    assert!(!classify_ufc(
        "(FRANÇAIS) UFC 331: Van vs Pantoja 2",
        11077,
        331
    ));
    assert!(!classify_ufc(
        "(PORTUGUESE) UFC 331: Van x Pantoja 2",
        23833,
        331
    ));
    assert!(!classify_ufc(
        "UFC 331: ヴァン VS パントーヤ 2 (日本語実況解説)",
        11312,
        331
    ));
    assert!(!classify_ufc(
        "UFC 331: Ван vs Пантоха 2 (русские комментаторы)",
        23541,
        331
    ));
    assert!(!classify_ufc(
        "Tom Aspinall vs Ciryl Gane UFC 331",
        944,
        331
    ));
    assert!(!classify_ufc("UFC 332: Prelims", 14000, 331));
}

#[test]
fn accepts_sponsored_bjj_full_events_only() {
    assert!(classify_bjj(
        "Crypto.com UFC BJJ 11: Smith vs Jones",
        7200,
        11
    ));
    assert!(classify_bjj("UFC BJJ 10: Tackett vs Gracie", 10126, 10));
    assert!(!classify_bjj(
        "Crypto.com UFC BJJ 11: Smith vs Jones",
        600,
        11
    ));
    assert!(!classify_bjj(
        "(ESPAÑOL) UFC BJJ 11: Smith vs Jones",
        7200,
        11
    ));
    assert!(!classify_bjj("Fowler vs Johnson UFC BJJ 11", 7200, 11));
    assert!(!classify_bjj(
        "Crypto.com UFC BJJ 11: Post-Fight Press Conference",
        4000,
        11
    ));
}

#[test]
fn selects_full_fight_night_segments_only() {
    assert!(classify_fight_night(
        "UFC Fight Night: Bautista vs Oliveira",
        9800
    ));
    assert!(classify_fight_night(
        "UFC Fight Night: Du Plessis vs Usman Prelims",
        7200
    ));
    assert!(classify_fight_night(
        "UFC Fight Night: Du Plessis vs Usman Early Prelims",
        5400
    ));
    assert!(classify_fight_night(
        "Crypto.com UFC Fight Night: Royval vs Kape Fight Pass Prelims",
        5400
    ));
    assert_eq!(
        fight_night_key("UFC Fight Night: Du Plessis vs Usman Prelims"),
        Some("Du Plessis vs Usman")
    );
    assert_eq!(
        fight_night_key("UFC Fight Night: Du Plessis vs Usman"),
        Some("Du Plessis vs Usman")
    );
    assert!(!classify_fight_night(
        "UFC Fight Night: Bautista vs Oliveira Highlights",
        9000
    ));
    assert!(!classify_fight_night(
        "UFC Fight Night: Bautista vs Oliveira Post-Fight Press Conference",
        7200
    ));
    assert!(!classify_fight_night(
        "(ESPAÑOL) UFC Fight Night: Bautista vs Oliveira",
        9000
    ));
    assert!(!classify_fight_night(
        "UFC Fight Night: Bautista vs Oliveira (RUS)",
        9000
    ));
    assert!(!classify_fight_night(
        "Alex Morono vs Daniil Donchenko UFC Fight Night: Bautista vs Oliveira",
        9000
    ));
    assert!(!classify_fight_night(
        "UFC Fight Night: Bautista vs Oliveira",
        1200
    ));
}

#[test]
fn fight_night_event_key_from_any_title() {
    assert_eq!(
        fight_night_event_key_any("A vs B UFC Fight Night: C vs D"),
        Some("C vs D")
    );
    assert_eq!(
        fight_night_event_key_any("UFC Fight Night: C vs D Prelims"),
        Some("C vs D")
    );
    assert_eq!(
        fight_night_event_key_any("Crypto.com UFC Fight Night: C vs D Early Prelims"),
        Some("C vs D")
    );
    assert_eq!(
        fight_night_event_key_any("UFC Fight Night: C vs D Highlights"),
        None
    );
    assert_eq!(fight_night_event_key_any("Unrelated title"), None);
}
