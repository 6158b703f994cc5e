use auto_follow::collect::Ask;
use auto_follow::config::{Config, Settings};
use auto_follow::course::{Action, Event, PollError};
use auto_follow::downloads::any_downloading;
use auto_follow::follower::{Follower, Pulse};
use auto_follow::poll::Poll;
use auto_follow::search::{Hit, SearchError, SearchPage};
use auto_follow::state::{FollowState, Replay};

fn config() -> Config {
    Config {
        auto_follow_replays: true,
        signed_in: true,
        auto_follow_ufc_number: 0,
        auto_follow_bjj_number: 0,
        auto_follow_contender_series: false,
        auto_follow_fight_nights: false,
        auto_follow_existing: false,
    }
}

fn hit(id: u64, name: &str, published: &str) -> Hit {
    Hit {
        name: Some(name.to_string()),
        duration: Some(7200),
        id: Some(id),
        published: Some(published.to_string()),
    }
}

/// What the world holds and how it answers.
struct World {
    config: Config,
    recordings: Vec<(u64, String, String)>,
    access: bool,
    on_disk: bool,
    downloading: bool,
    log: Vec<String>,
    downloads: Vec<u64>,
    now: String,
}

impl World {
    fn new(config: Config, recordings: &[(u64, &str, &str)]) -> World {
        World {
            config,
            recordings: recordings
                .iter()
                .map(|(id, name, date)| (*id, name.to_string(), date.to_string()))
                .collect(),
            access: true,
            on_disk: false,
            downloading: false,
            log: Vec::new(),
            downloads: Vec::new(),
            now: "2026-09-24T21:00:00Z".to_string(),
        }
    }

    /// Runs a check to its end; the error, if it fails.
    fn check(&mut self, state: &mut FollowState) -> Option<PollError> {
        let settings = self.config.settings().unwrap();
        let mut poll = Poll::begin(settings);
        for _ in 0..1000 {
            let event = match poll.action() {
                Action::Finish => return None,
                Action::Fail(error) => return Some(error),
                Action::CountDownloads => Event::Downloads(false),
                Action::ReadClock => {
                    self.log.push("clock".to_string());
                    Event::Clock(self.now.clone())
                }
                Action::Save => {
                    self.log.push("save".to_string());
                    Event::Saved
                }
                Action::Search(Ask::Vods { query, page }) => {
                    self.log.push(format!("search {query} {page}"));
                    let phrase = query.trim_matches('"');
                    let hits = self
                        .recordings
                        .iter()
                        .filter(|(_, name, _)| name.contains(phrase))
                        .map(|(id, name, date)| hit(*id, name, date))
                        .collect();
                    Event::Page(SearchPage {
                        pages: 1,
                        total: 0,
                        hits: Some(hits),
                    })
                }
                Action::Search(Ask::Playlists { query, year }) => {
                    self.log.push(format!("playlists {query} {year}"));
                    Event::Page(SearchPage {
                        pages: 1,
                        total: 0,
                        hits: Some(Vec::new()),
                    })
                }
                Action::ReadConfig => Event::Config(self.config),
                Action::FetchManifest { id } => {
                    self.log.push(format!("manifest {id}"));
                    Event::Manifest {
                        access: self.access,
                        title: format!("Title {id}"),
                    }
                }
                Action::CheckMedia { title } => {
                    self.log.push(format!("media {title}"));
                    Event::Media(self.on_disk)
                }
                Action::ReadActivity => Event::Activity {
                    config: self.config,
                    downloading: self.downloading,
                },
                Action::StartDownload { replay } => {
                    self.log.push(format!("download {}", replay.id));
                    self.downloads.push(replay.id);
                    Event::Queued
                }
            };
            poll.advance(state, event);
        }
        panic!("the check does not end");
    }

    fn logged(&mut self) -> Vec<String> {
        std::mem::take(&mut self.log)
    }
}

#[test]
fn settings_need_followers_that_are_on_and_a_subscriber() {
    let mut off = config();
    off.auto_follow_replays = false;
    assert_eq!(off.settings(), None);
    let mut out = config();
    out.signed_in = false;
    assert_eq!(out.settings(), None);
    let mut on = config();
    on.auto_follow_ufc_number = 320;
    on.auto_follow_bjj_number = 7;
    on.auto_follow_contender_series = true;
    on.auto_follow_existing = true;
    assert_eq!(
        on.settings(),
        Some(Settings {
            ufc: 320,
            bjj: 7,
            contender: true,
            fight_nights: false,
            include_existing: true,
        })
    );
}

#[test]
fn a_running_download_ends_the_check() {
    let mut state = FollowState::default();
    let mut on = config();
    on.auto_follow_ufc_number = 320;
    let mut poll = Poll::begin(on.settings().unwrap());
    assert!(matches!(poll.action(), Action::CountDownloads));
    poll.advance(&mut state, Event::Downloads(true));
    assert!(matches!(poll.action(), Action::Finish));
    poll.advance(&mut state, Event::Downloads(false));
    assert!(matches!(poll.action(), Action::Finish));
}

#[test]
fn with_nothing_to_follow_a_check_does_nothing() {
    let mut state = FollowState::default();
    let mut world = World::new(config(), &[(1, "UFC 320: A vs B", "2026-01-01")]);
    assert_eq!(world.check(&mut state), None);
    assert!(world.logged().is_empty());
}

#[test]
fn the_first_numbered_check_only_takes_stock() {
    let mut state = FollowState::default();
    let mut on = config();
    on.auto_follow_ufc_number = 320;
    let mut world = World::new(
        on,
        &[
            (1, "UFC 320: A vs B", "2026-01-01T00:00:00Z"),
            (2, "UFC 321: C vs D", "2026-02-01T00:00:00Z"),
        ],
    );
    assert_eq!(world.check(&mut state), None);
    assert_eq!(
        world.logged(),
        vec![
            "clock",
            "save",
            "search \"UFC 320\" 0",
            "search \"UFC 321\" 0",
            "save"
        ]
    );
    assert!(state.is_handled(1, ""));
    assert!(state.is_handled(0, "UFC 321: C vs D"));
    assert_eq!(state.ufc_initialized_number, 320);
    assert_eq!(state.highest_ufc_number, 321);
    assert_eq!(state.ufc_baseline_ts, "2026-09-24T21:00:00Z");

    // Later numbers that were published before the watermark are passed over; newer ones are
    // downloaded, one at a time.
    world.recordings.push((
        3,
        "UFC 322: E vs F".to_string(),
        "2026-03-01T00:00:00Z".to_string(),
    ));
    world.recordings.push((
        4,
        "UFC 322: Prelims".to_string(),
        "2026-09-25T00:00:00Z".to_string(),
    ));
    world.recordings.push((
        5,
        "UFC 322: Fight Pass Prelims".to_string(),
        "2026-09-25T00:00:00Z".to_string(),
    ));
    assert_eq!(world.check(&mut state), None);
    assert_eq!(
        world.logged(),
        vec![
            "search \"UFC 320\" 0",
            "search \"UFC 321\" 0",
            "search \"UFC 322\" 0",
            "save",
            "save",
            "save",
            "manifest 4",
            "media Title 4",
            "download 4"
        ]
    );
    assert_eq!(state.highest_ufc_number, 322);
    assert!(!state.is_handled(4, "UFC 322: Prelims"));
    // The download completes; the next check goes on with the next recording.
    state.mark_handled(4, "UFC 322: Prelims".to_string());
    assert_eq!(world.check(&mut state), None);
    assert_eq!(world.downloads, vec![4, 5]);
}

#[test]
fn existing_numbered_recordings_are_downloaded_where_they_are_wanted() {
    let mut state = FollowState::default();
    let mut on = config();
    on.auto_follow_bjj_number = 7;
    on.auto_follow_ufc_number = 320;
    on.auto_follow_existing = true;
    let mut world = World::new(
        on,
        &[
            (1, "UFC 319: A vs B", "2020-01-01T00:00:00Z"),
            (2, "UFC 320: A vs B", ""),
        ],
    );
    assert_eq!(world.check(&mut state), None);
    assert_eq!(world.downloads, vec![2]);
    assert!(state.ufc_baseline_ts.is_empty());
    // The BJJ section was not reached.
    assert_eq!(state.bjj_initialized_number, 0);
}

#[test]
fn the_searched_numbers_follow_the_highest_one() {
    let mut on = config();
    on.auto_follow_bjj_number = 7;
    let mut state = FollowState::default();
    state.bjj_initialized_number = 7;
    state.highest_bjj_number = 12;
    let mut world = World::new(on, &[]);
    assert_eq!(world.check(&mut state), None);
    assert_eq!(
        world.logged(),
        vec![
            "search \"UFC BJJ 10\" 0",
            "search \"UFC BJJ 11\" 0",
            "search \"UFC BJJ 12\" 0",
            "search \"UFC BJJ 13\" 0",
            "save",
            "save",
            "save",
            "save"
        ]
    );
    assert_eq!(state.highest_bjj_number, 12);
    // A new selection starts over.
    world.config.auto_follow_bjj_number = 3;
    assert_eq!(world.check(&mut state), None);
    assert_eq!(
        world.logged(),
        vec!["search \"UFC BJJ 3\" 0", "search \"UFC BJJ 4\" 0", "save"]
    );
    assert_eq!(state.highest_bjj_number, 2);
    assert_eq!(state.bjj_initialized_number, 3);
    // The largest number has no number after it.
    world.config.auto_follow_bjj_number = u16::MAX;
    assert_eq!(world.check(&mut state), None);
    assert_eq!(world.logged(), vec!["search \"UFC BJJ 65535\" 0", "save"]);
}

#[test]
fn the_newest_contender_episode_is_kept_where_existing_ones_are_wanted() {
    let recordings = [
        (1, "Dana White's Contender Series: Season 9, Week 1", "2025-08-01"),
        (2, "Dana White's Contender Series: Season 10, Week 2", "2026-08-08"),
        (3, "Dana White's Contender Series: Season 10, Week 1", "2026-08-01"),
    ];
    let mut on = config();
    on.auto_follow_contender_series = true;
    let mut state = FollowState::default();
    let mut world = World::new(on, &recordings);
    assert_eq!(world.check(&mut state), None);
    assert!(world.downloads.is_empty());
    assert!(state.contender_initialized);
    assert!(state.is_handled(2, ""));

    on.auto_follow_existing = true;
    let mut state = FollowState::default();
    let mut world = World::new(on, &recordings);
    assert_eq!(world.check(&mut state), None);
    assert_eq!(world.downloads, vec![2]);
    assert!(!state.is_handled(2, ""));
    assert!(state.is_handled(1, ""));
    assert!(state.is_handled(3, ""));
    // With no episode at all the first check is done all the same.
    let mut state = FollowState::default();
    let mut world = World::new(on, &[]);
    assert_eq!(world.check(&mut state), None);
    assert!(state.contender_initialized);
}

#[test]
fn the_segments_of_the_latest_fight_night_are_kept_where_existing_ones_are_wanted() {
    let recordings = [
        (1, "UFC Fight Night: A vs B", "2026-08-02"),
        (2, "UFC Fight Night: A vs B Prelims", "2026-08-01"),
        (3, "UFC Fight Night: C vs D", "2026-07-01"),
    ];
    let mut on = config();
    on.auto_follow_fight_nights = true;
    on.auto_follow_existing = true;
    let mut state = FollowState::default();
    let mut world = World::new(on, &recordings);
    assert_eq!(world.check(&mut state), None);
    assert_eq!(world.downloads, vec![1]);
    assert_eq!(state.fight_night_baseline, "2026-08-02");
    assert_eq!(state.fight_night_latest_event, "A vs B");
    assert!(state.is_handled(3, ""));
    assert!(!state.is_handled(2, ""));
    // The prelims are older than the baseline, but of the latest event.
    state.mark_handled(1, "UFC Fight Night: A vs B".to_string());
    assert_eq!(world.check(&mut state), None);
    assert_eq!(world.downloads, vec![1, 2]);
    // Other events that are older stay out, even where they are not handled.
    state.mark_handled(2, "UFC Fight Night: A vs B Prelims".to_string());
    world.recordings.push((
        4,
        "UFC Fight Night: A vs B Early Prelims".to_string(),
        "2026-08-03".to_string(),
    ));
    world.recordings.push((
        5,
        "UFC Fight Night: G vs H".to_string(),
        "2026-07-20".to_string(),
    ));
    assert_eq!(world.check(&mut state), None);
    state.mark_handled(4, String::new());
    assert_eq!(world.check(&mut state), None);
    assert_eq!(world.downloads, vec![1, 2, 4]);
}

#[test]
fn the_first_fight_night_check_only_takes_stock() {
    let mut on = config();
    on.auto_follow_fight_nights = true;
    let mut state = FollowState::default();
    let mut world = World::new(on, &[]);
    // Nothing found: nothing begins.
    assert_eq!(world.check(&mut state), None);
    assert!(!state.fight_night_initialized);
    let mut world = World::new(
        on,
        &[
            (1, "UFC Fight Night: A vs B", "2026-08-02"),
            (2, "UFC Fight Night: A vs B Prelims", "2026-08-02"),
        ],
    );
    assert_eq!(world.check(&mut state), None);
    assert!(world.downloads.is_empty());
    assert!(state.fight_night_initialized);
    assert_eq!(state.fight_night_baseline, "2026-08-02");
    assert_eq!(state.fight_night_latest_event, "");
    assert!(state.is_handled(1, "") && state.is_handled(2, ""));
    world.recordings.push((
        3,
        "UFC Fight Night: C vs D".to_string(),
        "2026-08-09".to_string(),
    ));
    assert_eq!(world.check(&mut state), None);
    assert_eq!(world.downloads, vec![3]);
}

fn contender_world() -> (World, FollowState) {
    let mut on = config();
    on.auto_follow_contender_series = true;
    let mut state = FollowState::default();
    state.contender_initialized = true;
    let world = World::new(
        on,
        &[
            (1, "Dana White's Contender Series: Season 10, Week 1", "2026-08-01"),
            (2, "Dana White's Contender Series: Season 10, Week 2", "2026-08-08"),
        ],
    );
    (world, state)
}

#[test]
fn without_access_nothing_is_downloaded() {
    let (mut world, mut state) = contender_world();
    world.access = false;
    assert_eq!(world.check(&mut state), None);
    assert_eq!(
        world.logged(),
        vec![
            "search \"Dana White's Contender Series\" 0",
            "manifest 2",
            "manifest 1"
        ]
    );
    assert!(!state.is_handled(2, ""));
}

#[test]
fn recordings_on_disk_are_remembered() {
    let (mut world, mut state) = contender_world();
    world.on_disk = true;
    assert_eq!(world.check(&mut state), None);
    assert_eq!(
        world.logged(),
        vec![
            "search \"Dana White's Contender Series\" 0",
            "manifest 2",
            "media Title 2",
            "save",
            "manifest 1",
            "media Title 1",
            "save"
        ]
    );
    assert!(state.is_handled(2, "") && state.is_handled(1, ""));
    assert!(world.downloads.is_empty());
}

#[test]
fn handled_recordings_are_not_fetched() {
    let (mut world, mut state) = contender_world();
    state.mark_handled(2, String::new());
    state.mark_handled(
        7,
        "Dana White's Contender Series: Season 10, Week 1".to_string(),
    );
    assert_eq!(world.check(&mut state), None);
    assert_eq!(
        world.logged(),
        vec!["search \"Dana White's Contender Series\" 0"]
    );
}

#[test]
fn a_download_that_began_meanwhile_keeps_others_back() {
    let (mut world, mut state) = contender_world();
    world.downloading = true;
    assert_eq!(world.check(&mut state), None);
    assert!(world.downloads.is_empty());
    let (mut world, mut state) = contender_world();
    assert_eq!(world.check(&mut state), None);
    assert_eq!(world.downloads, vec![2]);
}

/// Brings a check to the moment where it reads the configuration.
fn at_gate(on: Config, state: &mut FollowState, name: &str) -> Poll {
    let mut poll = Poll::begin(on.settings().unwrap());
    poll.advance(state, Event::Downloads(false));
    poll.advance(
        state,
        Event::Page(SearchPage {
            pages: 0,
            total: 0,
            hits: Some(vec![hit(1, name, "2026-01-01")]),
        }),
    );
    assert!(matches!(poll.action(), Action::ReadConfig));
    poll
}

#[test]
fn a_section_that_is_no_longer_followed_ends_the_check() {
    let name = "Dana White's Contender Series: Season 10, Week 1";
    let (world, mut state) = contender_world();
    let mut poll = at_gate(world.config, &mut state, name);
    let mut off = world.config;
    off.auto_follow_contender_series = false;
    poll.advance(&mut state, Event::Config(off));
    assert!(matches!(poll.action(), Action::Finish));
    let mut poll = at_gate(world.config, &mut state, name);
    let mut off = world.config;
    off.auto_follow_replays = false;
    poll.advance(&mut state, Event::Config(off));
    assert!(matches!(poll.action(), Action::Finish));
    // Signing out stops a download only.
    let mut poll = at_gate(world.config, &mut state, name);
    let mut out = world.config;
    out.signed_in = false;
    poll.advance(&mut state, Event::Config(out));
    assert!(matches!(poll.action(), Action::FetchManifest { id: 1 }));
    poll.advance(
        &mut state,
        Event::Manifest {
            access: true,
            title: "T".to_string(),
        },
    );
    poll.advance(&mut state, Event::Media(false));
    assert!(matches!(poll.action(), Action::ReadActivity));
    poll.advance(
        &mut state,
        Event::Activity {
            config: out,
            downloading: false,
        },
    );
    assert!(matches!(poll.action(), Action::Finish));
}

#[test]
fn the_download_is_that_of_the_replay() {
    let name = "Dana White's Contender Series: Season 10, Week 1";
    let (world, mut state) = contender_world();
    let mut poll = at_gate(world.config, &mut state, name);
    poll.advance(&mut state, Event::Config(world.config));
    poll.advance(
        &mut state,
        Event::Manifest {
            access: true,
            title: "T".to_string(),
        },
    );
    match poll.action() {
        Action::CheckMedia { title } => assert_eq!(title, "T"),
        _ => panic!("the recording should be looked for"),
    }
    poll.advance(&mut state, Event::Media(false));
    poll.advance(
        &mut state,
        Event::Activity {
            config: world.config,
            downloading: false,
        },
    );
    match poll.action() {
        Action::StartDownload {
            replay:
                Replay {
                    id,
                    title,
                    published,
                },
        } => {
            assert_eq!(id, 1);
            assert_eq!(title, name);
            assert_eq!(published, "2026-01-01");
        }
        _ => panic!("the download should be started"),
    }
    poll.advance(&mut state, Event::Queued);
    assert!(matches!(poll.action(), Action::Finish));
}

#[test]
fn failed_searches_fail_the_check() {
    let (world, mut state) = contender_world();
    let mut poll = Poll::begin(world.config.settings().unwrap());
    poll.advance(&mut state, Event::Downloads(false));
    poll.advance(
        &mut state,
        Event::Page(SearchPage {
            pages: 11,
            total: 0,
            hits: None,
        }),
    );
    assert!(matches!(
        poll.action(),
        Action::Fail(PollError::Search(SearchError::TooManyPages))
    ));
    let mut on = config();
    on.auto_follow_fight_nights = true;
    let mut poll = Poll::begin(on.settings().unwrap());
    poll.advance(&mut state, Event::Downloads(false));
    let truncated = SearchPage {
        pages: 11,
        total: 0,
        hits: None,
    };
    assert!(poll.leaves_pages_unread(&truncated));
    poll.advance(&mut state, Event::Page(truncated));
    assert!(matches!(
        poll.action(),
        Action::Fail(PollError::Search(SearchError::InvalidResults))
    ));
}

#[test]
fn events_out_of_turn_fail_the_check() {
    let (world, mut state) = contender_world();
    let mut poll = Poll::begin(world.config.settings().unwrap());
    poll.advance(&mut state, Event::Saved);
    assert!(matches!(
        poll.action(),
        Action::Fail(PollError::OutOfTurn)
    ));
    poll.advance(&mut state, Event::Downloads(false));
    assert!(matches!(
        poll.action(),
        Action::Fail(PollError::OutOfTurn)
    ));
}

#[test]
fn ticks_are_served_whatever_came_of_earlier_checks() {
    let mut off = config();
    off.auto_follow_replays = false;
    let mut out = config();
    out.signed_in = false;
    let mut on = config();
    on.auto_follow_bjj_number = 7;
    let mut follower = Follower::begin();
    for failed in [true, false, true] {
        follower.advance(Pulse::Tick(off));
        assert_eq!(follower.check(), None);
        follower.advance(Pulse::Tick(out));
        assert_eq!(follower.check(), None);
        follower.advance(Pulse::Tick(on));
        assert_eq!(follower.check(), on.settings());
        // A check goes on with the settings that it began with.
        follower.advance(Pulse::Tick(off));
        assert_eq!(follower.check(), on.settings());
        follower.advance(Pulse::Ended { failed });
        assert_eq!(follower.check(), None);
    }
}

#[test]
fn a_download_is_running_where_a_status_says_so() {
    let statuses = |texts: &[&str]| texts.iter().map(|text| text.to_string()).collect();
    assert!(!any_downloading(&statuses(&[])));
    assert!(!any_downloading(&statuses(&["completed", "Downloading", "failed"])));
    assert!(any_downloading(&statuses(&["completed", "downloading"])));
}
