//! The course of a check: what it may be told, what it may want, and how it goes on.

use crate::baseline::may_queue_numbered;
use crate::collect::{
    ask_of, begun_collection, collect_step, law_collection_begins_valid, law_collection_stays_valid,
    valid_collection, Ask, AskView, CollectorView,
};
use crate::config::{Config, Settings};
use crate::ordering::in_order;
use crate::search::{
    begun_search, newer, newer_or_higher, query_of, search_step, MAX_PAGES, PageView, SearchError,
    SearchPage, SearchStep, SearchView, Series,
};
use crate::state::{FollowView, Replay, ReplayView};
use crate::text::before;
use crate::titles::fight_night_key_of;
use vstd::prelude::*;

verus! {

/// The parts of a check, in their order.
#[derive(Clone, Copy, PartialEq, Eq, Structural, Debug)]
pub enum Section {
    /// The numbered UFC events.
    Ufc,
    /// The UFC BJJ events.
    Bjj,
    /// The Contender Series.
    Contender,
    /// The Fight Nights.
    FightNight,
}

/// Why a check failed.
#[derive(Clone, Copy, PartialEq, Eq, Structural, Debug)]
pub enum PollError {
    /// A search failed.
    Search(SearchError),
    /// An event came that the check did not wait for.
    OutOfTurn,
}

/// What a check waits for.
#[derive(Clone, Copy, PartialEq, Eq, Structural, Debug)]
pub enum Step {
    /// Whether a download is running.
    Start,
    /// The time, for the watermark.
    Clock,
    /// That the watermark is saved.
    WatermarkSaved,
    /// A page of a search.
    Searching,
    /// An answer for the collection of Fight Nights.
    Collecting,
    /// That the outcome of a first check is saved.
    FirstSaved,
    /// That the number of a batch is saved.
    BatchSaved,
    /// The configuration, before a replay is taken up.
    Gate,
    /// The replay's manifest.
    Manifest,
    /// Whether the recording is on disk.
    Media,
    /// That the replay's recording on disk is remembered.
    MediaSaved,
    /// The configuration and the running downloads, before a download is started.
    Activity,
    /// That the download is queued.
    Download,
    /// Nothing: the check is done.
    Done,
    /// Nothing: the check has failed.
    Failed(PollError),
}

/// The contents of a `Batch`.
pub struct BatchView {
    /// The number.
    pub number: u16,
    /// The replays.
    pub items: Seq<ReplayView>,
}

/// The contents of a `Poll`.
#[verifier::ext_equal]
pub struct PollView {
    /// What the check goes by.
    pub settings: Settings,
    /// What it waits for.
    pub step: Step,
    /// The part that it is in.
    pub section: Section,
    /// Whether this is the first check of the numbered series' selection.
    pub first: bool,
    /// The last number that is searched for.
    pub last: u16,
    /// The search that is under way.
    pub search: SearchView,
    /// The collection of Fight Nights that is under way.
    pub collector: CollectorView,
    /// The replays that were found, by number.
    pub batches: Seq<BatchView>,
    /// The batch that is taken up.
    pub at: int,
    /// The replay of the batch that is taken up.
    pub item: int,
    /// The title of the replay's manifest.
    pub title: Seq<char>,
}

/// What the world tells a check.
#[derive(Debug)]
pub enum Event {
    /// Whether a download is running.
    Downloads(bool),
    /// The time.
    Clock(String),
    /// The state was saved.
    Saved,
    /// An answer of the search service.
    Page(SearchPage),
    /// The configuration.
    Config(Config),
    /// A replay's manifest: whether the subscriber may watch it, and its title.
    Manifest { access: bool, title: String },
    /// Whether a recording is on disk.
    Media(bool),
    /// The configuration and whether a download is running.
    Activity { config: Config, downloading: bool },
    /// The download was queued.
    Queued,
}

/// The contents of an `Event`.
pub enum EventView {
    /// Whether a download is running.
    Downloads(bool),
    /// The time.
    Clock(Seq<char>),
    /// The state was saved.
    Saved,
    /// An answer of the search service.
    Page(PageView),
    /// The configuration.
    Config(Config),
    /// A replay's manifest.
    Manifest { access: bool, title: Seq<char> },
    /// Whether a recording is on disk.
    Media(bool),
    /// The configuration and whether a download is running.
    Activity { config: Config, downloading: bool },
    /// The download was queued.
    Queued,
}

impl View for Event {
    type V = EventView;

    open spec fn view(&self) -> EventView {
        match *self {
            Event::Downloads(running) => EventView::Downloads(running),
            Event::Clock(now) => EventView::Clock(now@),
            Event::Saved => EventView::Saved,
            Event::Page(page) => EventView::Page(page@),
            Event::Config(config) => EventView::Config(config),
            Event::Manifest { access, title } => EventView::Manifest { access, title: title@ },
            Event::Media(present) => EventView::Media(present),
            Event::Activity { config, downloading } => EventView::Activity { config, downloading },
            Event::Queued => EventView::Queued,
        }
    }
}

/// What a check wants done.
#[derive(Debug)]
pub enum Action {
    /// Say whether a download is running.
    CountDownloads,
    /// Say what time it is.
    ReadClock,
    /// Save the state.
    Save,
    /// Ask the search service.
    Search(Ask),
    /// Read the configuration.
    ReadConfig,
    /// Fetch the manifest of a recording.
    FetchManifest { id: u64 },
    /// Say whether a recording of this title is on disk.
    CheckMedia { title: String },
    /// Read the configuration and say whether a download is running.
    ReadActivity,
    /// Start the download of a recording.
    StartDownload { replay: Replay },
    /// Nothing: the check is done.
    Finish,
    /// Nothing: the check has failed.
    Fail(PollError),
}

/// The contents of an `Action`.
pub enum ActionView {
    /// Say whether a download is running.
    CountDownloads,
    /// Say what time it is.
    ReadClock,
    /// Save the state.
    Save,
    /// Ask the search service.
    Search(AskView),
    /// Read the configuration.
    ReadConfig,
    /// Fetch the manifest of a recording.
    FetchManifest { id: u64 },
    /// Say whether a recording of this title is on disk.
    CheckMedia { title: Seq<char> },
    /// Read the configuration and say whether a download is running.
    ReadActivity,
    /// Start the download of a recording.
    StartDownload { replay: ReplayView },
    /// Nothing: the check is done.
    Finish,
    /// Nothing: the check has failed.
    Fail(PollError),
}

impl View for Action {
    type V = ActionView;

    open spec fn view(&self) -> ActionView {
        match *self {
            Action::CountDownloads => ActionView::CountDownloads,
            Action::ReadClock => ActionView::ReadClock,
            Action::Save => ActionView::Save,
            Action::Search(ask) => ActionView::Search(ask@),
            Action::ReadConfig => ActionView::ReadConfig,
            Action::FetchManifest { id } => ActionView::FetchManifest { id },
            Action::CheckMedia { title } => ActionView::CheckMedia { title: title@ },
            Action::ReadActivity => ActionView::ReadActivity,
            Action::StartDownload { replay } => ActionView::StartDownload { replay: replay@ },
            Action::Finish => ActionView::Finish,
            Action::Fail(error) => ActionView::Fail(error),
        }
    }
}

/// The sections whose events have numbers.
pub open spec fn is_numbered(section: Section) -> bool {
    section == Section::Ufc || section == Section::Bjj
}

/// The number from which on a section's events are followed; 0 for a section without numbers.
pub open spec fn selection(settings: Settings, section: Section) -> u16 {
    match section {
        Section::Ufc => settings.ufc,
        Section::Bjj => settings.bjj,
        _ => 0,
    }
}

/// The series of a section's events of a number.
pub open spec fn series_of(section: Section, number: u16) -> Series {
    match section {
        Section::Ufc => Series::Ufc(number),
        Section::Bjj => Series::Bjj(number),
        Section::Contender => Series::Contender,
        Section::FightNight => Series::FightNight,
    }
}

/// The number of a series' events; 0 for a series without numbers.
pub open spec fn series_number(series: Series) -> u16 {
    match series {
        Series::Ufc(number) => number,
        Series::Bjj(number) => number,
        _ => 0,
    }
}

/// The number whose first check a section has had.
pub open spec fn initialized_number(state: FollowView, section: Section) -> u16 {
    match section {
        Section::Ufc => state.ufc_initialized_number,
        Section::Bjj => state.bjj_initialized_number,
        _ => 0,
    }
}

/// The highest number that a section has seen.
pub open spec fn highest_number(state: FollowView, section: Section) -> u16 {
    match section {
        Section::Ufc => state.highest_ufc_number,
        Section::Bjj => state.highest_bjj_number,
        _ => 0,
    }
}

/// The state where a section has had the first check of a number.
pub open spec fn with_initialized(state: FollowView, section: Section, number: u16) -> FollowView {
    match section {
        Section::Ufc => FollowView { ufc_initialized_number: number, ..state },
        Section::Bjj => FollowView { bjj_initialized_number: number, ..state },
        _ => state,
    }
}

/// The state where a number is the highest that a section has seen.
pub open spec fn with_highest(state: FollowView, section: Section, number: u16) -> FollowView {
    match section {
        Section::Ufc => FollowView { highest_ufc_number: number, ..state },
        Section::Bjj => FollowView { highest_bjj_number: number, ..state },
        _ => state,
    }
}

/// The state once a batch was found: a higher number with replays is remembered.
pub open spec fn raised(state: FollowView, section: Section, batch: BatchView) -> FollowView {
    if batch.number > highest_number(state, section) && batch.items.len() > 0 {
        with_highest(state, section, batch.number)
    } else {
        state
    }
}

/// The state once all replays of the batches are handled and their numbers remembered.
pub open spec fn baselined(
    state: FollowView,
    section: Section,
    batches: Seq<BatchView>,
) -> FollowView
    decreases batches.len(),
{
    if batches.len() == 0 {
        state
    } else {
        let so_far = baselined(state, section, batches.drop_last());
        raised(so_far.mark_all(batches.last().items), section, batches.last())
    }
}

/// The first number that is searched for: two before the highest one, but none before the
/// selected one.
pub open spec fn first_searched(highest: u16, selected: u16) -> u16 {
    if highest - 2 > selected {
        (highest - 2) as u16
    } else {
        selected
    }
}

/// The last number that is searched for: the one after the highest.
pub open spec fn last_searched(highest: u16) -> u16 {
    if highest < u16::MAX {
        (highest + 1) as u16
    } else {
        highest
    }
}

/// The check is done.
pub open spec fn finished(p: PollView) -> PollView {
    PollView { step: Step::Done, ..p }
}

/// The check goes on to the Fight Nights.
pub open spec fn enter_fight_nights(p: PollView, s: FollowView) -> (PollView, FollowView) {
    if p.settings.fight_nights {
        (
            PollView {
                step: Step::Collecting,
                section: Section::FightNight,
                collector: begun_collection(s.fight_night_baseline),
                ..p
            },
            s,
        )
    } else {
        (finished(p), s)
    }
}

/// The check goes on to the Contender Series.
pub open spec fn enter_contender(p: PollView, s: FollowView) -> (PollView, FollowView) {
    if p.settings.contender {
        (
            PollView {
                step: Step::Searching,
                section: Section::Contender,
                last: 0,
                search: begun_search(Series::Contender),
                batches: Seq::empty(),
                ..p
            },
            s,
        )
    } else {
        enter_fight_nights(p, s)
    }
}

/// The check searches for the numbers around the highest one of its section.
pub open spec fn search_numbers(p: PollView, s: FollowView) -> (PollView, FollowView) {
    let selected = selection(p.settings, p.section);
    let seen = highest_number(s, p.section);
    let highest = if seen > selected {
        seen
    } else {
        selected
    };
    (
        PollView {
            step: Step::Searching,
            last: last_searched(highest),
            search: begun_search(series_of(p.section, first_searched(highest, selected))),
            batches: Seq::empty(),
            ..p
        },
        s,
    )
}

/// The state where a new selection starts below its number.
pub open spec fn selection_begun(s: FollowView, section: Section, selected: u16) -> FollowView {
    if initialized_number(s, section) != selected {
        with_highest(s, section, (selected - 1) as u16)
    } else {
        s
    }
}

/// The check goes on to the BJJ events.
pub open spec fn enter_bjj(p: PollView, s: FollowView) -> (PollView, FollowView) {
    if p.settings.bjj > 0 {
        search_numbers(
            PollView {
                section: Section::Bjj,
                first: s.bjj_initialized_number != p.settings.bjj,
                ..p
            },
            selection_begun(s, Section::Bjj, p.settings.bjj),
        )
    } else {
        enter_contender(p, s)
    }
}

/// The check goes on to the numbered UFC events. Before it searches it takes the watermark, where
/// one is due, so that existing recordings of later numbers are skipped when later checks
/// discover them.
pub open spec fn enter_ufc(p: PollView, s: FollowView) -> (PollView, FollowView) {
    if p.settings.ufc > 0 {
        let first = s.ufc_initialized_number != p.settings.ufc;
        let p = PollView { section: Section::Ufc, first, ..p };
        let s = selection_begun(s, Section::Ufc, p.settings.ufc);
        if !p.settings.include_existing && (first || s.ufc_baseline_ts.len() == 0) {
            (PollView { step: Step::Clock, ..p }, s)
        } else {
            search_numbers(p, s)
        }
    } else {
        enter_bjj(p, s)
    }
}

/// The check goes on to the next section.
pub open spec fn next_section(p: PollView, s: FollowView) -> (PollView, FollowView) {
    match p.section {
        Section::Ufc => enter_bjj(p, s),
        Section::Bjj => enter_contender(p, s),
        Section::Contender => enter_fight_nights(p, s),
        Section::FightNight => (finished(p), s),
    }
}

/// The check takes up the batch `p.at`, if there is one.
pub open spec fn take_batch(p: PollView, s: FollowView) -> (PollView, FollowView) {
    if p.at < p.batches.len() {
        (
            PollView { step: Step::BatchSaved, ..p },
            raised(
                with_initialized(s, p.section, selection(p.settings, p.section)),
                p.section,
                p.batches[p.at],
            ),
        )
    } else {
        next_section(p, s)
    }
}

/// A Fight Night replay is passed over: it is older than the first check, and of another event
/// than the one whose older segments are wanted.
pub open spec fn is_outdated(replay: ReplayView, s: FollowView) -> bool {
    &&& s.fight_night_baseline.len() > 0
    &&& before(replay.published, s.fight_night_baseline)
    &&& fight_night_key_of(replay.title) != Some(s.fight_night_latest_event)
}

/// The first replay from `from` on that is not passed over.
pub open spec fn next_wanted(
    section: Section,
    items: Seq<ReplayView>,
    from: int,
    s: FollowView,
) -> int
    decreases items.len() - from,
{
    if from < items.len() && section == Section::FightNight && is_outdated(items[from], s) {
        next_wanted(section, items, from + 1, s)
    } else {
        from
    }
}

/// The check goes on with the replays of the batch `p.at`, from `p.item` on.
pub open spec fn offer(p: PollView, s: FollowView) -> (PollView, FollowView) {
    let items = p.batches[p.at].items;
    let item = next_wanted(p.section, items, p.item, s);
    if item < items.len() {
        (PollView { step: Step::Gate, item, ..p }, s)
    } else if is_numbered(p.section) {
        take_batch(PollView { at: p.at + 1, item, ..p }, s)
    } else {
        next_section(PollView { item, ..p }, s)
    }
}

/// The check goes on with the replay after the one that is taken up.
pub open spec fn pass_on(p: PollView, s: FollowView) -> (PollView, FollowView) {
    offer(PollView { item: p.item + 1, ..p }, s)
}

/// The replay that is taken up.
pub open spec fn current(p: PollView) -> ReplayView {
    p.batches[p.at].items[p.item]
}

/// The check once all numbers were searched for. At the first check of a selection, unless
/// existing recordings are wanted, what was found is handled and nothing is offered.
pub open spec fn numbers_found(p: PollView, s: FollowView) -> (PollView, FollowView) {
    if p.first && !p.settings.include_existing {
        (
            PollView { step: Step::FirstSaved, ..p },
            with_initialized(
                baselined(s, p.section, p.batches),
                p.section,
                selection(p.settings, p.section),
            ),
        )
    } else {
        take_batch(PollView { at: 0, ..p }, s)
    }
}

/// The check once the Contender Series was searched for. At the first check what was found is
/// handled, but for the newest recording where existing ones are wanted.
pub open spec fn contender_found(
    p: PollView,
    s: FollowView,
    found: Seq<ReplayView>,
) -> (PollView, FollowView) {
    let items = in_order(found, newer());
    let p = PollView { batches: seq![BatchView { number: 0, items }], at: 0, item: 0, ..p };
    if s.contender_initialized {
        offer(p, s)
    } else {
        let keep: int = if p.settings.include_existing {
            1
        } else {
            0
        };
        let s = if keep <= items.len() {
            s.mark_all(items.skip(keep))
        } else {
            s
        };
        (PollView { step: Step::FirstSaved, ..p }, FollowView { contender_initialized: true, ..s })
    }
}

/// The replays whose event is not `latest`; all of them where there is none.
pub open spec fn of_other_events(items: Seq<ReplayView>, latest: Option<Seq<char>>) -> Seq<
    ReplayView,
> {
    items.filter(|item: ReplayView| latest is None || fight_night_key_of(item.title) != latest)
}

/// The state after the first check of the Fight Nights, with what was found, newest first. The
/// newest one's date is the baseline. What was found is handled, but for the latest event where
/// existing recordings are wanted.
pub open spec fn fight_nights_begun(
    s: FollowView,
    items: Seq<ReplayView>,
    include_existing: bool,
) -> FollowView {
    let latest = if include_existing {
        fight_night_key_of(items[0].title)
    } else {
        None
    };
    FollowView {
        fight_night_initialized: true,
        fight_night_baseline: items[0].published,
        fight_night_latest_event: match latest {
            Some(key) => key,
            None => Seq::empty(),
        },
        ..s.mark_all(of_other_events(items, latest))
    }
}

/// The check once the Fight Nights were collected.
pub open spec fn fight_nights_found(
    p: PollView,
    s: FollowView,
    found: Seq<ReplayView>,
) -> (PollView, FollowView) {
    let items = in_order(found, newer_or_higher());
    if items.len() == 0 {
        (finished(p), s)
    } else {
        let p = PollView { batches: seq![BatchView { number: 0, items }], at: 0, item: 0, ..p };
        if s.fight_night_initialized {
            offer(p, s)
        } else {
            (
                PollView { step: Step::FirstSaved, ..p },
                fight_nights_begun(s, items, p.settings.include_existing),
            )
        }
    }
}

/// The check fails.
pub open spec fn failed(p: PollView, error: PollError) -> PollView {
    PollView { step: Step::Failed(error), ..p }
}

/// The check after a page of a search.
pub open spec fn after_page(p: PollView, s: FollowView, page: PageView) -> (PollView, FollowView) {
    let (search, step) = search_step(p.search, page);
    match step {
        SearchStep::Failed(error) => (
            failed(PollView { search, ..p }, PollError::Search(error)),
            s,
        ),
        SearchStep::NextPage => (PollView { search, ..p }, s),
        SearchStep::Complete => {
            let found = search.found;
            let number = series_number(search.series);
            let p = PollView { search: SearchView { found: Seq::empty(), ..search }, ..p };
            if p.section == Section::Contender {
                contender_found(p, s, found)
            } else {
                let p = PollView {
                    batches: p.batches.push(BatchView { number, items: found }),
                    ..p
                };
                if number < p.last {
                    (
                        PollView {
                            search: begun_search(series_of(p.section, (number + 1) as u16)),
                            ..p
                        },
                        s,
                    )
                } else {
                    numbers_found(p, s)
                }
            }
        },
    }
}

/// The check after an answer for the collection of Fight Nights.
pub open spec fn after_collected(
    p: PollView,
    s: FollowView,
    page: PageView,
) -> (PollView, FollowView) {
    let (collector, step) = collect_step(p.collector, page);
    match step {
        SearchStep::Failed(error) => (
            failed(PollView { collector, ..p }, PollError::Search(error)),
            s,
        ),
        SearchStep::NextPage => (PollView { collector, ..p }, s),
        SearchStep::Complete => {
            let found = collector.found;
            fight_nights_found(
                PollView { collector: CollectorView { found: Seq::empty(), ..collector }, ..p },
                s,
                found,
            )
        },
    }
}

/// The configuration still asks for what the check's section follows.
pub open spec fn still_followed(p: PollView, config: Config) -> bool {
    config.auto_follow_replays && match p.section {
        Section::Ufc => config.auto_follow_ufc_number == p.settings.ufc,
        Section::Bjj => config.auto_follow_bjj_number == p.settings.bjj,
        Section::Contender => config.auto_follow_contender_series,
        Section::FightNight => config.auto_follow_fight_nights,
    }
}

/// The check after the configuration was read: where the section is no longer followed it is
/// done; a replay that is handled, or that the watermark keeps back, is passed on.
pub open spec fn after_gate(p: PollView, s: FollowView, config: Config) -> (PollView, FollowView) {
    let replay = current(p);
    if !still_followed(p, config) {
        (finished(p), s)
    } else if p.section == Section::Ufc && !may_queue_numbered(
        p.settings.include_existing,
        s.ufc_baseline_ts,
        replay.published,
    ) {
        pass_on(p, s)
    } else if s.handled(replay) {
        pass_on(p, s)
    } else {
        (PollView { step: Step::Manifest, ..p }, s)
    }
}

/// The check, and the state, after an event.
pub open spec fn poll_step(p: PollView, s: FollowView, event: EventView) -> (
    PollView,
    FollowView,
) {
    match (p.step, event) {
        (Step::Done, _) => (p, s),
        (Step::Failed(_), _) => (p, s),
        (Step::Start, EventView::Downloads(running)) => if running {
            (finished(p), s)
        } else {
            enter_ufc(p, s)
        },
        (Step::Clock, EventView::Clock(now)) => (
            PollView { step: Step::WatermarkSaved, ..p },
            FollowView { ufc_baseline_ts: now, ..s },
        ),
        (Step::WatermarkSaved, EventView::Saved) => search_numbers(p, s),
        (Step::Searching, EventView::Page(page)) => after_page(p, s, page),
        (Step::Collecting, EventView::Page(page)) => after_collected(p, s, page),
        (Step::FirstSaved, EventView::Saved) => if is_numbered(p.section) {
            next_section(p, s)
        } else {
            offer(p, s)
        },
        (Step::BatchSaved, EventView::Saved) => offer(PollView { item: 0, ..p }, s),
        (Step::Gate, EventView::Config(config)) => after_gate(p, s, config),
        (Step::Manifest, EventView::Manifest { access, title }) => if access {
            (PollView { step: Step::Media, title, ..p }, s)
        } else {
            pass_on(p, s)
        },
        (Step::Media, EventView::Media(present)) => if present {
            (
                PollView { step: Step::MediaSaved, ..p },
                s.mark(current(p).id, current(p).title),
            )
        } else {
            (PollView { step: Step::Activity, ..p }, s)
        },
        (Step::MediaSaved, EventView::Saved) => pass_on(p, s),
        (Step::Activity, EventView::Activity { config, downloading }) => if
            config.auto_follow_replays && config.signed_in && !downloading {
            (PollView { step: Step::Download, ..p }, s)
        } else {
            pass_on(p, s)
        },
        (Step::Download, EventView::Queued) => (finished(p), s),
        _ => (failed(p, PollError::OutOfTurn), s),
    }
}

/// A check that begins.
pub open spec fn begun_poll(settings: Settings) -> PollView {
    PollView {
        settings,
        step: Step::Start,
        section: Section::Ufc,
        first: false,
        last: 0,
        search: begun_search(Series::Contender),
        collector: begun_collection(Seq::empty()),
        batches: Seq::empty(),
        at: 0,
        item: 0,
        title: Seq::empty(),
    }
}

/// The steps in which a replay is taken up.
pub open spec fn holds_replay(step: Step) -> bool {
    match step {
        Step::Gate | Step::Manifest | Step::Media | Step::MediaSaved | Step::Activity
        | Step::Download => true,
        _ => false,
    }
}

/// The check is in a state that it can reach: what it has taken up is there, a search is within its
/// pages, and a collection that is under way has something to ask for.
pub open spec fn valid_poll(p: PollView) -> bool {
    &&& 0 <= p.at
    &&& 0 <= p.item
    &&& holds_replay(p.step) ==> p.at < p.batches.len() && p.item < p.batches[p.at].items.len()
    &&& p.step == Step::BatchSaved ==> p.at < p.batches.len() && is_numbered(p.section)
    &&& p.step == Step::Clock || p.step == Step::WatermarkSaved ==> p.section == Section::Ufc
    &&& p.step == Step::Searching ==> p.section != Section::FightNight && p.search.page < MAX_PAGES
    &&& p.step == Step::FirstSaved && !is_numbered(p.section) ==> p.at < p.batches.len() && p.item
        == 0
    &&& p.step == Step::Collecting ==> p.section == Section::FightNight && valid_collection(
        p.collector,
    ) && ask_of(p.collector) is Some
}

/// What a check wants done.
pub open spec fn action_of(p: PollView) -> ActionView {
    match p.step {
        Step::Start => ActionView::CountDownloads,
        Step::Clock => ActionView::ReadClock,
        Step::WatermarkSaved | Step::FirstSaved | Step::BatchSaved | Step::MediaSaved =>
            ActionView::Save,
        Step::Searching => ActionView::Search(
            AskView::Vods { query: query_of(p.search.series), page: p.search.page },
        ),
        Step::Collecting => ActionView::Search(ask_of(p.collector)->0),
        Step::Gate => ActionView::ReadConfig,
        Step::Manifest => ActionView::FetchManifest { id: current(p).id },
        Step::Media => ActionView::CheckMedia { title: p.title },
        Step::Activity => ActionView::ReadActivity,
        Step::Download => ActionView::StartDownload { replay: current(p) },
        Step::Done => ActionView::Finish,
        Step::Failed(error) => ActionView::Fail(error),
    }
}

/// The first replay that is not passed over comes at or behind the one from which on it is sought.
pub proof fn lemma_next_wanted(section: Section, items: Seq<ReplayView>, from: int, s: FollowView)
    ensures
        from <= next_wanted(section, items, from, s),
        from <= items.len() ==> next_wanted(section, items, from, s) <= items.len(),
    decreases items.len() - from,
{
    if from < items.len() && section == Section::FightNight && is_outdated(items[from], s) {
        lemma_next_wanted(section, items, from + 1, s);
    }
}

/// A check that goes on with a batch stays valid.
proof fn lemma_offer_valid(p: PollView, s: FollowView)
    requires
        0 <= p.at < p.batches.len(),
        0 <= p.item,
    ensures
        valid_poll(offer(p, s).0),
{
    law_collection_begins_valid(s.fight_night_baseline);
    lemma_next_wanted(p.section, p.batches[p.at].items, p.item, s);
}

/// Whatever happens, what a check has taken up is there, a search stays within its pages, and a
/// collection that is under way has something to ask for.
pub proof fn law_check_stays_valid(p: PollView, s: FollowView, event: EventView)
    requires
        valid_poll(p),
    ensures
        valid_poll(poll_step(p, s, event).0),
{
    law_collection_begins_valid(s.fight_night_baseline);
    match (p.step, event) {
        (Step::Searching, EventView::Page(page)) => {
            let (search, step) = search_step(p.search, page);
            if step == SearchStep::Complete && p.section == Section::Contender {
                let items = in_order(search.found, newer());
                lemma_offer_valid(
                    PollView {
                        search: SearchView { found: Seq::empty(), ..search },
                        batches: seq![BatchView { number: 0, items }],
                        at: 0,
                        item: 0,
                        ..p
                    },
                    s,
                );
            }
        },
        (Step::Collecting, EventView::Page(page)) => {
            let (collector, step) = collect_step(p.collector, page);
            law_collection_stays_valid(p.collector, page);
            if step == SearchStep::Complete {
                let items = in_order(collector.found, newer_or_higher());
                lemma_offer_valid(
                    PollView {
                        collector: CollectorView { found: Seq::empty(), ..collector },
                        batches: seq![BatchView { number: 0, items }],
                        at: 0,
                        item: 0,
                        ..p
                    },
                    s,
                );
            }
        },
        (Step::FirstSaved, _) => {
            if !is_numbered(p.section) {
                lemma_offer_valid(p, s);
            }
        },
        (Step::BatchSaved, _) => {
            lemma_offer_valid(PollView { item: 0, ..p }, s);
        },
        _ => {
            if holds_replay(p.step) {
                lemma_offer_valid(PollView { item: p.item + 1, ..p }, s);
            }
        },
    }
}

} // verus!
