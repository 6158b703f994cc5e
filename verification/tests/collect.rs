use auto_follow::collect::{broad_scan_truncated, Ask, Collector};
use auto_follow::search::{Hit, SearchError, SearchPage, SearchStep};

fn hit(id: u64, name: &str, published: &str) -> Hit {
    Hit {
        name: Some(name.to_string()),
        duration: Some(7200),
        id: Some(id),
        published: Some(published.to_string()),
    }
}

fn page(pages: u64, hits: Vec<Hit>) -> SearchPage {
    SearchPage {
        pages,
        total: 0,
        hits: Some(hits),
    }
}

fn vods(collector: &Collector) -> (String, u64) {
    match collector.ask() {
        Some(Ask::Vods { query, page }) => (query, page),
        _ => panic!("recordings should be asked for"),
    }
}

fn playlists(collector: &Collector) -> (String, u32) {
    match collector.ask() {
        Some(Ask::Playlists { query, year }) => (query, year),
        _ => panic!("playlists should be asked for"),
    }
}

#[test]
fn fight_nights_are_collected_by_event() {
    let mut collector = Collector::begin("2026-01-01");
    assert_eq!(vods(&collector), ("\"UFC Fight Night:\"".to_string(), 0));
    let first = vec![
        hit(1, "X vs Y UFC Fight Night: A vs B", "2026-03-01"),
        hit(2, "UFC Fight Night: Old vs Older", "2025-03-01"),
        hit(3, "Unrelated", "2027-01-01"),
    ];
    assert_eq!(collector.take_page(&page(2, first)), SearchStep::NextPage);
    assert_eq!(vods(&collector), ("\"UFC Fight Night:\"".to_string(), 1));
    let second = vec![hit(4, "UFC Fight Night: C vs D Prelims", "2026-04-01")];
    assert_eq!(collector.take_page(&page(2, second)), SearchStep::NextPage);
    assert_eq!(
        playlists(&collector),
        ("\"UFC Fight Night:\"".to_string(), 2026)
    );
    // Playlists give keys without dates, whatever dates they carry.
    let newest = vec![hit(5, "UFC Fight Night: E vs F", "2020-01-01")];
    assert_eq!(collector.take_page(&page(0, newest)), SearchStep::NextPage);
    assert_eq!(
        playlists(&collector),
        ("\"UFC Fight Night:\"".to_string(), 2025)
    );
    assert_eq!(collector.take_page(&page(0, vec![])), SearchStep::NextPage);
    // Undated keys come first, then those not older than the baseline, newest first.
    assert_eq!(
        vods(&collector),
        ("\"UFC Fight Night: E vs F\"".to_string(), 0)
    );
    let deep = vec![
        hit(10, "UFC Fight Night: E vs F", "2026-05-01"),
        hit(11, "UFC Fight Night: E vs F Highlights", "2026-05-01"),
        hit(12, "UFC Fight Night: E vs F Prelims", "2026-05-01"),
    ];
    assert_eq!(collector.take_page(&page(9, deep)), SearchStep::NextPage);
    assert_eq!(
        vods(&collector),
        ("\"UFC Fight Night: C vs D\"".to_string(), 0)
    );
    let deep = vec![
        hit(12, "UFC Fight Night: E vs F Prelims", "2026-05-01"),
        hit(13, "UFC Fight Night: C vs D", "2026-04-01"),
    ];
    assert_eq!(collector.take_page(&page(9, deep)), SearchStep::NextPage);
    assert_eq!(
        vods(&collector),
        ("\"UFC Fight Night: A vs B\"".to_string(), 0)
    );
    assert_eq!(collector.take_page(&page(9, vec![])), SearchStep::Complete);
    assert!(collector.ask().is_none());
    let found: Vec<u64> = collector.found.iter().map(|replay| replay.id).collect();
    assert_eq!(found, vec![10, 12, 13]);
}

#[test]
fn without_a_year_no_playlists_are_asked_for() {
    let mut collector = Collector::begin("");
    let undated = vec![hit(1, "UFC Fight Night: A vs B", "")];
    assert_eq!(collector.take_page(&page(1, undated)), SearchStep::NextPage);
    assert_eq!(
        vods(&collector),
        ("\"UFC Fight Night: A vs B\"".to_string(), 0)
    );
    let mut empty = Collector::begin("");
    assert_eq!(empty.take_page(&page(1, vec![])), SearchStep::Complete);
    assert!(empty.found.is_empty());
}

#[test]
fn the_year_before_year_zero_is_year_zero() {
    let mut collector = Collector::begin("");
    let ancient = vec![hit(1, "UFC Fight Night: A vs B", "0000-01-01")];
    assert_eq!(collector.take_page(&page(1, ancient)), SearchStep::NextPage);
    assert_eq!(playlists(&collector).1, 0);
    assert_eq!(collector.take_page(&page(1, vec![])), SearchStep::NextPage);
    assert_eq!(playlists(&collector).1, 0);
}

#[test]
fn a_collection_is_bounded() {
    let mut collector = Collector::begin("");
    let mut asked = 0;
    let mut number = 0;
    loop {
        if collector.ask().is_none() {
            break;
        }
        asked += 1;
        let mut hits = Vec::new();
        for _ in 0..20 {
            number += 1;
            hits.push(hit(
                number,
                &format!("UFC Fight Night: A{number} vs B"),
                "2026-01-01",
            ));
        }
        collector.take_page(&page(1000, hits));
    }
    assert_eq!(asked, 10 + 2 + 64);
    assert_eq!(collector.selected.len(), 64);
}

#[test]
fn a_collection_fails_without_hits() {
    let mut collector = Collector::begin("");
    let none = SearchPage {
        pages: 11,
        total: 0,
        hits: None,
    };
    assert_eq!(
        collector.take_page(&none),
        SearchStep::Failed(SearchError::InvalidResults)
    );
}

#[test]
fn a_truncated_scan_is_noticed_on_its_first_page() {
    let mut result = page(11, vec![]);
    assert!(broad_scan_truncated(0, &result));
    assert!(!broad_scan_truncated(1, &result));
    result.pages = 10;
    assert!(!broad_scan_truncated(0, &result));
    result.total = 1000;
    assert!(!broad_scan_truncated(0, &result));
    result.total = 1001;
    assert!(broad_scan_truncated(0, &result));
}
