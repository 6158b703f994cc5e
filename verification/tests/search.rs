use auto_follow::json::{read_hit, read_page};
use auto_follow::search::{
    candidate, newest_and_highest_first, newest_first, query, Hit, Search, SearchError, SearchPage,
    SearchStep, Series,
};
use auto_follow::state::Replay;

fn hit(id: u64, name: &str, published: &str) -> Hit {
    Hit {
        name: Some(name.to_string()),
        duration: Some(7200),
        id: Some(id),
        published: Some(published.to_string()),
    }
}

fn replay(id: u64, published: &str) -> Replay {
    Replay {
        id,
        title: format!("Replay {id}"),
        published: published.to_string(),
    }
}

fn ids(replays: &[Replay]) -> Vec<u64> {
    replays.iter().map(|replay| replay.id).collect()
}

#[test]
fn results_are_read_from_json() {
    let value = serde_json::from_str(
        r#"{
            "nbPages": 3,
            "nbHits": 250,
            "hits": [
                {"id": 7, "name": "UFC 321: Prelims", "duration": 4000, "publishedDate": "2026-01-01"},
                {"id": -7, "name": 5, "duration": 1.5},
                null
            ]
        }"#,
    )
    .unwrap();
    let page = read_page(&value);
    assert_eq!(page.pages, 3);
    assert_eq!(page.total, 250);
    let hits = page.hits.unwrap();
    assert_eq!(hits.len(), 3);
    assert_eq!(hits[0].id, Some(7));
    assert_eq!(hits[0].name.as_deref(), Some("UFC 321: Prelims"));
    assert_eq!(hits[0].duration, Some(4000));
    assert_eq!(hits[0].published.as_deref(), Some("2026-01-01"));
    assert_eq!(hits[1].id, None);
    assert_eq!(hits[1].name, None);
    assert_eq!(hits[1].duration, None);
    assert_eq!(hits[1].published, None);
    assert_eq!(hits[2].name, None);
}

#[test]
fn results_without_fields_are_read_as_empty() {
    let value = serde_json::from_str(r#"{"hits": {"0": 1}, "nbPages": "3"}"#).unwrap();
    let page = read_page(&value);
    assert_eq!(page.pages, 0);
    assert_eq!(page.total, 0);
    assert!(page.hits.is_none());
    let list = serde_json::from_str("[1, 2]").unwrap();
    assert!(read_page(&list).hits.is_none());
    let fractional = serde_json::from_str(r#"{"id": 5.0}"#).unwrap();
    assert_eq!(read_hit(&fractional).id, None);
    let largest = serde_json::from_str(r#"{"id": 18446744073709551615}"#).unwrap();
    assert_eq!(read_hit(&largest).id, Some(u64::MAX));
}

#[test]
fn candidates_need_a_title_a_length_and_a_number() {
    let found = candidate(&hit(9, "UFC 321: A vs B", "2026-01-01"), Series::Ufc(321)).unwrap();
    assert_eq!(found.id, 9);
    assert_eq!(found.title, "UFC 321: A vs B");
    assert_eq!(found.published, "2026-01-01");
    assert!(candidate(&hit(9, "UFC 321: A vs B", ""), Series::Ufc(322)).is_none());
    let mut nameless = hit(9, "UFC 321: A vs B", "");
    nameless.name = None;
    assert!(candidate(&nameless, Series::Ufc(321)).is_none());
    let mut endless = hit(9, "UFC 321: A vs B", "");
    endless.duration = None;
    assert!(candidate(&endless, Series::Ufc(321)).is_none());
    let mut numberless = hit(9, "UFC 321: A vs B", "");
    numberless.id = None;
    assert!(candidate(&numberless, Series::Ufc(321)).is_none());
    let mut undated = hit(9, "UFC 321: A vs B", "");
    undated.published = None;
    assert_eq!(candidate(&undated, Series::Ufc(321)).unwrap().published, "");
}

#[test]
fn queries_are_phrases() {
    assert_eq!(query(Series::Ufc(331)), "\"UFC 331\"");
    assert_eq!(query(Series::Bjj(7)), "\"UFC BJJ 7\"");
    assert_eq!(query(Series::Contender), "\"Dana White's Contender Series\"");
    assert_eq!(query(Series::FightNight), "\"UFC Fight Night:\"");
}

#[test]
fn a_search_goes_through_all_pages() {
    let mut search = Search::begin(Series::Bjj(9));
    let first = SearchPage {
        pages: 2,
        total: 3,
        hits: Some(vec![
            hit(1, "UFC BJJ 9: A vs B", "x"),
            hit(2, "UFC BJJ 8: A vs B", "x"),
        ]),
    };
    assert_eq!(search.take_page(&first), SearchStep::NextPage);
    assert_eq!(search.page, 1);
    let second = SearchPage {
        pages: 2,
        total: 3,
        hits: Some(vec![hit(3, "UFC BJJ 9: C vs D", "y")]),
    };
    assert_eq!(search.take_page(&second), SearchStep::Complete);
    assert_eq!(ids(&search.found), vec![1, 3]);
}

#[test]
fn a_search_stops_after_ten_pages() {
    let mut search = Search::begin(Series::Contender);
    let page = SearchPage {
        pages: 10,
        total: 0,
        hits: Some(Vec::new()),
    };
    for _ in 0..9 {
        assert_eq!(search.take_page(&page), SearchStep::NextPage);
    }
    assert_eq!(search.page, 9);
    assert_eq!(search.take_page(&page), SearchStep::Complete);
}

#[test]
fn a_search_fails_on_too_many_pages_and_on_missing_hits() {
    let mut search = Search::begin(Series::Contender);
    let many = SearchPage {
        pages: 11,
        total: 0,
        hits: None,
    };
    assert_eq!(
        search.take_page(&many),
        SearchStep::Failed(SearchError::TooManyPages)
    );
    let none = SearchPage {
        pages: 10,
        total: 0,
        hits: None,
    };
    assert_eq!(
        search.take_page(&none),
        SearchStep::Failed(SearchError::InvalidResults)
    );
    assert_eq!(
        SearchError::TooManyPages.message(),
        "Replay search exceeded the safe page limit"
    );
    assert_eq!(SearchError::InvalidResults.message(), "Invalid replay results");
}

#[test]
fn replays_are_sorted_newest_first() {
    let replays = vec![replay(1, "b"), replay(2, "a"), replay(3, "b"), replay(4, "c")];
    assert_eq!(ids(&newest_first(replays.clone())), vec![4, 1, 3, 2]);
    assert_eq!(ids(&newest_and_highest_first(replays)), vec![4, 3, 1, 2]);
    assert!(newest_first(Vec::new()).is_empty());
}
