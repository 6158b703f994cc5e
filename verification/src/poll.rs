//! One check of the followers: from answers of the world to requests.

use crate::baseline::{numbered_replay_allowed, ufc_take_baseline};
use crate::collect::{broad_scan_truncated, scan_truncated, Ask, CollectPhase, Collector};
use crate::config::{Config, Settings};
use crate::course::{
    action_of, after_collected, after_gate, after_page, baselined, begun_poll, contender_found,
    current, enter_bjj, enter_contender, enter_fight_nights, enter_ufc, fight_nights_begun,
    fight_nights_found, highest_number, holds_replay, is_numbered, is_outdated,
    law_check_stays_valid, next_section, next_wanted, numbers_found, offer, pass_on, poll_step,
    raised, search_numbers, selection, series_number, series_of, still_followed, take_batch,
    valid_poll, with_highest, with_initialized, Action, BatchView, Event, PollError, PollView,
    Section, Step,
};
use crate::keys::lemma_filter_push;
use crate::search::{
    newest_and_highest_first, newest_first, query, Search, SearchPage, SearchStep, Series,
};
use crate::state::{lemma_mark_none, lemma_mark_push, replay_views, FollowState, Replay, ReplayView};
use crate::text::{same_text, text_before};
use crate::titles::{fight_night_key, fight_night_key_of};
use vstd::prelude::*;
use vstd::string::*;

verus! {

/// The replays that were found for a number; 0 for a series without numbers.
#[derive(Debug)]
pub struct Batch {
    /// The number.
    pub number: u16,
    /// The replays.
    pub items: Vec<Replay>,
}

impl View for Batch {
    type V = BatchView;

    open spec fn view(&self) -> BatchView {
        BatchView { number: self.number, items: replay_views(self.items@) }
    }
}

/// The contents of a list of batches.
pub open spec fn batch_views(batches: Seq<Batch>) -> Seq<BatchView> {
    batches.map_values(|batch: Batch| batch@)
}

/// One check of the followers.
#[derive(Debug)]
pub struct Poll {
    settings: Settings,
    step: Step,
    section: Section,
    first: bool,
    last: u16,
    search: Search,
    collector: Collector,
    batches: Vec<Batch>,
    at: usize,
    item: usize,
    title: String,
}

impl View for Poll {
    type V = PollView;

    closed spec fn view(&self) -> PollView {
        PollView {
            settings: self.settings,
            step: self.step,
            section: self.section,
            first: self.first,
            last: self.last,
            search: self.search@,
            collector: self.collector@,
            batches: batch_views(self.batches@),
            at: self.at as int,
            item: self.item as int,
            title: self.title@,
        }
    }
}


/// Whether the events of a section have numbers.
fn has_numbers(section: Section) -> (r: bool)
    ensures
        r == is_numbered(section),
{
    match section {
        Section::Ufc | Section::Bjj => true,
        _ => false,
    }
}

/// The series of a section's events of a number.
fn series(section: Section, number: u16) -> (r: Series)
    ensures
        r == series_of(section, number),
{
    match section {
        Section::Ufc => Series::Ufc(number),
        Section::Bjj => Series::Bjj(number),
        Section::Contender => Series::Contender,
        Section::FightNight => Series::FightNight,
    }
}

/// The number of a series' events; 0 for a series without numbers.
fn number_searched(series: Series) -> (r: u16)
    ensures
        r == series_number(series),
{
    match series {
        Series::Ufc(number) => number,
        Series::Bjj(number) => number,
        _ => 0,
    }
}

/// The highest number that a section has seen.
fn highest(state: &FollowState, section: Section) -> (r: u16)
    ensures
        r == highest_number(state@, section),
{
    match section {
        Section::Ufc => state.highest_ufc_number,
        Section::Bjj => state.highest_bjj_number,
        _ => 0,
    }
}

/// Remembers the highest number that a section has seen.
fn set_highest(state: &mut FollowState, section: Section, number: u16)
    ensures
        final(state)@ == with_highest(old(state)@, section, number),
{
    match section {
        Section::Ufc => {
            state.highest_ufc_number = number;
        },
        Section::Bjj => {
            state.highest_bjj_number = number;
        },
        _ => {},
    }
}

/// Remembers the number whose first check a section has had.
fn set_initialized(state: &mut FollowState, section: Section, number: u16)
    ensures
        final(state)@ == with_initialized(old(state)@, section, number),
{
    match section {
        Section::Ufc => {
            state.ufc_initialized_number = number;
        },
        Section::Bjj => {
            state.bjj_initialized_number = number;
        },
        _ => {},
    }
}

/// Remembers the number of a batch, where it is higher and has replays.
fn raise(state: &mut FollowState, section: Section, batch: &Batch)
    ensures
        final(state)@ == raised(old(state)@, section, batch@),
{
    if batch.number > highest(state, section) && batch.items.len() > 0 {
        set_highest(state, section, batch.number);
    }
}

/// Remembers that all replays of the batches need no download, and the batches' numbers.
fn baseline_batches(state: &mut FollowState, section: Section, batches: &Vec<Batch>)
    ensures
        final(state)@ == baselined(old(state)@, section, batch_views(batches@)),
{
    let ghost start = state@;
    let ghost views = batch_views(batches@);
    let mut i: usize = 0;
    assert(views.take(0) =~= Seq::<BatchView>::empty());
    while i < batches.len()
        invariant
            i <= batches.len(),
            views == batch_views(batches@),
            state@ == baselined(start, section, views.take(i as int)),
        decreases batches.len() - i,
    {
        let batch = &batches[i];
        state.mark_handled_from(&batch.items, 0);
        proof {
            let upto = views.take(i + 1);
            assert(upto.drop_last() =~= views.take(i as int));
            assert(upto.last() == batch@);
            assert(batch@.items.skip(0) =~= batch@.items);
        }
        raise(state, section, batch);
        i = i + 1;
    }
    assert(views.take(i as int) =~= views);
}

/// Whether a Fight Night replay is passed over.
fn outdated(replay: &Replay, state: &FollowState) -> (r: bool)
    ensures
        r == is_outdated(replay@, state@),
{
    if state.fight_night_baseline.as_str().is_empty() || !text_before(
        replay.published.as_str(),
        state.fight_night_baseline.as_str(),
    ) {
        return false;
    }
    match fight_night_key(replay.title.as_str()) {
        Some(key) => !same_text(key, state.fight_night_latest_event.as_str()),
        None => true,
    }
}

/// Remembers what the first check of the Fight Nights found, newest first.
fn begin_fight_nights(state: &mut FollowState, items: &Vec<Replay>, include_existing: bool)
    requires
        items.len() > 0,
    ensures
        final(state)@ == fight_nights_begun(
            old(state)@,
            replay_views(items@),
            include_existing,
        ),
{
    let ghost start = state@;
    let ghost views = replay_views(items@);
    assert(views[0] == items@[0]@);
    let latest: Option<&str> = if include_existing {
        fight_night_key(items[0].title.as_str())
    } else {
        None
    };
    let ghost wanted = match latest {
        Some(key) => Some(key@),
        None => None,
    };
    let ghost keep = |item: ReplayView|
        wanted is None || fight_night_key_of(item.title) != wanted;
    let mut i: usize = 0;
    proof {
        assert(views.take(0) =~= Seq::<ReplayView>::empty());
        assert(views.take(0).filter(keep) =~= Seq::<ReplayView>::empty()) by {
            reveal(Seq::filter);
        }
        lemma_mark_none(start);
    }
    while i < items.len()
        invariant
            i <= items.len(),
            views == replay_views(items@),
            wanted == (match latest {
                Some(key) => Some(key@),
                None => None,
            }),
            keep == (|item: ReplayView|
                wanted is None || fight_night_key_of(item.title) != wanted),
            state@ == start.mark_all(views.take(i as int).filter(keep)),
        decreases items.len() - i,
    {
        let item = &items[i];
        let is_latest = match (latest, fight_night_key(item.title.as_str())) {
            (Some(latest), Some(key)) => same_text(latest, key),
            _ => false,
        };
        proof {
            assert(views.take(i + 1) =~= views.take(i as int).push(item@));
            lemma_filter_push(views.take(i as int), item@, keep);
            lemma_mark_push(start, views.take(i as int).filter(keep), item@);
        }
        if !is_latest {
            state.mark_handled(item.id, item.title.clone());
        }
        i = i + 1;
    }
    assert(views.take(i as int) =~= views);
    state.fight_night_baseline = items[0].published.clone();
    state.fight_night_latest_event =
    match latest {
        Some(key) => String::from_str(key),
        None => String::new(),
    };
    state.fight_night_initialized = true;
}

impl Poll {
    /// The check is in a state that it can reach.
    pub open spec fn valid(&self) -> bool {
        valid_poll(self@)
    }

    /// Begins a check.
    pub fn begin(settings: Settings) -> (r: Poll)
        ensures
            r@ == begun_poll(settings),
            r.valid(),
    {
        proof {
            reveal_strlit("");
            assert(""@ =~= Seq::<char>::empty());
        }
        let r = Poll {
            settings,
            step: Step::Start,
            section: Section::Ufc,
            first: false,
            last: 0,
            search: Search::begin(Series::Contender),
            collector: Collector::begin(""),
            batches: Vec::new(),
            at: 0,
            item: 0,
            title: String::new(),
        };
        assert(r@ =~= begun_poll(settings));
        r
    }

    /// Goes on to the Fight Nights.
    fn enter_fight_nights(&mut self, state: &FollowState)
        ensures
            (final(self)@, state@) == enter_fight_nights(old(self)@, state@),
    {
        if self.settings.fight_nights {
            self.step = Step::Collecting;
            self.section = Section::FightNight;
            self.collector = Collector::begin(state.fight_night_baseline.as_str());
        } else {
            self.step = Step::Done;
        }
    }

    /// Goes on to the Contender Series.
    fn enter_contender(&mut self, state: &FollowState)
        ensures
            (final(self)@, state@) == enter_contender(old(self)@, state@),
    {
        if self.settings.contender {
            self.step = Step::Searching;
            self.section = Section::Contender;
            self.last = 0;
            self.search = Search::begin(Series::Contender);
            self.batches = Vec::new();
            assert(self@.batches =~= Seq::<BatchView>::empty());
        } else {
            self.enter_fight_nights(state);
        }
    }

    /// The number from which on the section's events are followed.
    fn selected(&self) -> (r: u16)
        ensures
            r == selection(self@.settings, self@.section),
    {
        match self.section {
            Section::Ufc => self.settings.ufc,
            Section::Bjj => self.settings.bjj,
            _ => 0,
        }
    }

    /// Searches for the numbers around the highest one of the section.
    fn search_numbers(&mut self, state: &FollowState)
        ensures
            (final(self)@, state@) == search_numbers(old(self)@, state@),
    {
        let selected: u16 = self.selected();
        let seen: u16 = highest(state, self.section);
        let top: u16 = if seen > selected {
            seen
        } else {
            selected
        };
        let below: u16 = top.saturating_sub(2);
        let from: u16 = if below > selected {
            below
        } else {
            selected
        };
        self.step = Step::Searching;
        self.last = top.saturating_add(1);
        self.search = Search::begin(series(self.section, from));
        self.batches = Vec::new();
        assert(self@.batches =~= Seq::<BatchView>::empty());
    }

    /// Goes on to the BJJ events.
    fn enter_bjj(&mut self, state: &mut FollowState)
        ensures
            (final(self)@, final(state)@) == enter_bjj(old(self)@, old(state)@),
    {
        if self.settings.bjj > 0 {
            self.section = Section::Bjj;
            self.first = state.bjj_initialized_number != self.settings.bjj;
            if self.first {
                set_highest(state, Section::Bjj, self.settings.bjj - 1);
            }
            self.search_numbers(state);
        } else {
            self.enter_contender(state);
        }
    }

    /// Goes on to the numbered UFC events.
    fn enter_ufc(&mut self, state: &mut FollowState)
        ensures
            (final(self)@, final(state)@) == enter_ufc(old(self)@, old(state)@),
    {
        if self.settings.ufc > 0 {
            self.section = Section::Ufc;
            self.first = state.ufc_initialized_number != self.settings.ufc;
            if self.first {
                set_highest(state, Section::Ufc, self.settings.ufc - 1);
            }
            if ufc_take_baseline(
                self.settings.include_existing,
                self.first,
                state.ufc_baseline_ts.as_str().is_empty(),
            ) {
                self.step = Step::Clock;
            } else {
                self.search_numbers(state);
            }
        } else {
            self.enter_bjj(state);
        }
    }

    /// Goes on to the next section.
    fn next_section(&mut self, state: &mut FollowState)
        ensures
            (final(self)@, final(state)@) == next_section(old(self)@, old(state)@),
    {
        match self.section {
            Section::Ufc => self.enter_bjj(state),
            Section::Bjj => self.enter_contender(state),
            Section::Contender => self.enter_fight_nights(state),
            Section::FightNight => {
                self.step = Step::Done;
            },
        }
    }

    /// Takes up the next batch, if there is one.
    fn take_batch(&mut self, state: &mut FollowState)
        ensures
            (final(self)@, final(state)@) == take_batch(old(self)@, old(state)@),
    {
        if self.at < self.batches.len() {
            self.step = Step::BatchSaved;
            set_initialized(state, self.section, self.selected());
            raise(state, self.section, &self.batches[self.at]);
        } else {
            self.next_section(state);
        }
    }

    /// Goes on with the replays of the batch.
    fn offer(&mut self, state: &mut FollowState)
        requires
            old(self)@.at < old(self)@.batches.len(),
            old(self)@.item <= old(self)@.batches[old(self)@.at].items.len(),
        ensures
            (final(self)@, final(state)@) == offer(old(self)@, old(state)@),
    {
        let ghost p = self@;
        let ghost s = state@;
        let ghost items = p.batches[p.at].items;
        let ghost from = p.item;
        assert(items == replay_views(self.batches@[self.at as int].items@));
        while self.item < self.batches[self.at].items.len() && self.section == Section::FightNight
            && outdated(&self.batches[self.at].items[self.item], state)
            invariant
                self.at < self.batches.len(),
                self.item <= self.batches@[self.at as int].items.len(),
                items == replay_views(self.batches@[self.at as int].items@),
                self@ == (PollView { item: self.item as int, ..p }),
                state@ == s,
                next_wanted(p.section, items, self.item as int, s) == next_wanted(
                    p.section,
                    items,
                    from,
                    s,
                ),
            decreases self.batches@[self.at as int].items.len() - self.item,
        {
            self.item = self.item + 1;
        }
        if self.item < self.batches[self.at].items.len() {
            self.step = Step::Gate;
        } else if has_numbers(self.section) {
            self.at = self.at + 1;
            self.take_batch(state);
        } else {
            self.next_section(state);
        }
    }

    /// Goes on with the next replay.
    fn pass_on(&mut self, state: &mut FollowState)
        requires
            old(self)@.at < old(self)@.batches.len(),
            old(self)@.item < old(self)@.batches[old(self)@.at].items.len(),
        ensures
            (final(self)@, final(state)@) == pass_on(old(self)@, old(state)@),
    {
        assert(self.item < self.batches@[self.at as int].items.len());
        self.item = self.item + 1;
        self.offer(state);
    }

    /// Goes on once all numbers were searched for.
    fn numbers_found(&mut self, state: &mut FollowState)
        ensures
            (final(self)@, final(state)@) == numbers_found(old(self)@, old(state)@),
    {
        if self.first && !self.settings.include_existing {
            self.step = Step::FirstSaved;
            baseline_batches(state, self.section, &self.batches);
            set_initialized(state, self.section, self.selected());
        } else {
            self.at = 0;
            self.take_batch(state);
        }
    }

    /// Holds a list of replays as the only batch.
    fn hold(&mut self, items: Vec<Replay>)
        ensures
            final(self)@ == (PollView {
                batches: seq![BatchView { number: 0, items: replay_views(items@) }],
                at: 0,
                item: 0,
                ..old(self)@
            }),
    {
        let mut batches: Vec<Batch> = Vec::new();
        batches.push(Batch { number: 0, items });
        self.batches = batches;
        self.at = 0;
        self.item = 0;
        assert(self@.batches =~= seq![BatchView { number: 0, items: replay_views(items@) }]);
    }

    /// Goes on once the Contender Series was searched for.
    fn contender_found(&mut self, state: &mut FollowState, found: Vec<Replay>)
        ensures
            (final(self)@, final(state)@) == contender_found(
                old(self)@,
                old(state)@,
                replay_views(found@),
            ),
    {
        let items = newest_first(found);
        if state.contender_initialized {
            self.hold(items);
            self.offer(state);
        } else {
            let keep: usize = if self.settings.include_existing {
                1
            } else {
                0
            };
            state.mark_handled_from(&items, keep);
            state.contender_initialized = true;
            self.hold(items);
            self.step = Step::FirstSaved;
        }
    }

    /// Goes on once the Fight Nights were collected.
    fn fight_nights_found(&mut self, state: &mut FollowState, found: Vec<Replay>)
        ensures
            (final(self)@, final(state)@) == fight_nights_found(
                old(self)@,
                old(state)@,
                replay_views(found@),
            ),
    {
        let items = newest_and_highest_first(found);
        if items.len() == 0 {
            self.step = Step::Done;
        } else if state.fight_night_initialized {
            self.hold(items);
            self.offer(state);
        } else {
            begin_fight_nights(state, &items, self.settings.include_existing);
            self.hold(items);
            self.step = Step::FirstSaved;
        }
    }

    /// Takes in a page of a search.
    fn after_page(&mut self, state: &mut FollowState, page: &SearchPage)
        ensures
            (final(self)@, final(state)@) == after_page(old(self)@, old(state)@, page@),
    {
        match self.search.take_page(page) {
            SearchStep::Failed(error) => {
                self.step = Step::Failed(PollError::Search(error));
            },
            SearchStep::NextPage => {},
            SearchStep::Complete => {
                let number: u16 = number_searched(self.search.series);
                let mut found: Vec<Replay> = Vec::new();
                std::mem::swap(&mut found, &mut self.search.found);
                assert(self@.search.found =~= Seq::<ReplayView>::empty());
                if self.section == Section::Contender {
                    self.contender_found(state, found);
                } else {
                    let ghost so_far = batch_views(self.batches@);
                    self.batches.push(Batch { number, items: found });
                    assert(batch_views(self.batches@) =~= so_far.push(
                        BatchView { number, items: replay_views(found@) },
                    ));
                    if number < self.last {
                        self.search = Search::begin(series(self.section, number + 1));
                    } else {
                        self.numbers_found(state);
                    }
                }
            },
        }
    }

    /// Takes in an answer for the collection of Fight Nights.
    fn after_collected(&mut self, state: &mut FollowState, page: &SearchPage)
        ensures
            (final(self)@, final(state)@) == after_collected(old(self)@, old(state)@, page@),
    {
        match self.collector.take_page(page) {
            SearchStep::Failed(error) => {
                self.step = Step::Failed(PollError::Search(error));
            },
            SearchStep::NextPage => {},
            SearchStep::Complete => {
                let mut found: Vec<Replay> = Vec::new();
                std::mem::swap(&mut found, &mut self.collector.found);
                assert(self@.collector.found =~= Seq::<ReplayView>::empty());
                self.fight_nights_found(state, found);
            },
        }
    }

    /// Whether the configuration still asks for what the section follows.
    fn still_followed(&self, config: &Config) -> (r: bool)
        ensures
            r == still_followed(self@, *config),
    {
        config.auto_follow_replays && match self.section {
            Section::Ufc => config.auto_follow_ufc_number == self.settings.ufc,
            Section::Bjj => config.auto_follow_bjj_number == self.settings.bjj,
            Section::Contender => config.auto_follow_contender_series,
            Section::FightNight => config.auto_follow_fight_nights,
        }
    }

    /// The replay that is taken up.
    fn current(&self) -> (r: &Replay)
        requires
            holds_replay(self@.step),
            self.valid(),
        ensures
            r@ == current(self@),
    {
        assert(self@.batches[self@.at] == self.batches@[self.at as int]@);
        &self.batches[self.at].items[self.item]
    }

    /// Goes on once the configuration was read.
    fn after_gate(&mut self, state: &mut FollowState, config: &Config)
        requires
            old(self).valid(),
            old(self)@.step == Step::Gate,
        ensures
            (final(self)@, final(state)@) == after_gate(old(self)@, old(state)@, *config),
    {
        if !self.still_followed(config) {
            self.step = Step::Done;
            return ;
        }
        let replay = self.current();
        let held_back = self.section == Section::Ufc && !numbered_replay_allowed(
            self.settings.include_existing,
            state.ufc_baseline_ts.as_str(),
            replay.published.as_str(),
        );
        if held_back || state.is_handled(replay.id, replay.title.as_str()) {
            self.pass_on(state);
        } else {
            self.step = Step::Manifest;
        }
    }

    /// What the check wants done.
    pub fn action(&self) -> (r: Action)
        requires
            self.valid(),
        ensures
            r@ == action_of(self@),
    {
        match self.step {
            Step::Start => Action::CountDownloads,
            Step::Clock => Action::ReadClock,
            Step::WatermarkSaved | Step::FirstSaved | Step::BatchSaved | Step::MediaSaved =>
                Action::Save,
            Step::Searching => Action::Search(
                Ask::Vods { query: query(self.search.series), page: self.search.page },
            ),
            Step::Collecting => match self.collector.ask() {
                Some(ask) => Action::Search(ask),
                None => Action::Finish,
            },
            Step::Gate => Action::ReadConfig,
            Step::Manifest => Action::FetchManifest { id: self.current().id },
            Step::Media => Action::CheckMedia { title: self.title.clone() },
            Step::Activity => Action::ReadActivity,
            Step::Download => Action::StartDownload { replay: self.current().clone() },
            Step::Done => Action::Finish,
            Step::Failed(error) => Action::Fail(error),
        }
    }

    /// Whether an answer to what the check wants shows that the broad scan for Fight Nights leaves
    /// pages unread.
    pub fn leaves_pages_unread(&self, page: &SearchPage) -> (r: bool)
        ensures
            r == (self@.step == Step::Collecting && scan_truncated(self@.collector, page@)),
    {
        match (self.step, self.collector.phase) {
            (Step::Collecting, CollectPhase::Broad { page: at }) => broad_scan_truncated(at, page),
            _ => false,
        }
    }

    /// Goes on after an event. An event that the check does not wait for fails it; a check that
    /// is done, or has failed, stays as it is.
    pub fn advance(&mut self, state: &mut FollowState, event: Event)
        requires
            old(self).valid(),
        ensures
            (final(self)@, final(state)@) == poll_step(old(self)@, old(state)@, event@),
            final(self).valid(),
    {
        proof {
            law_check_stays_valid(self@, state@, event@);
        }
        match (self.step, event) {
            (Step::Done, _) => {},
            (Step::Failed(_), _) => {},
            (Step::Start, Event::Downloads(running)) => {
                if running {
                    self.step = Step::Done;
                } else {
                    self.enter_ufc(state);
                }
            },
            (Step::Clock, Event::Clock(now)) => {
                state.ufc_baseline_ts = now;
                self.step = Step::WatermarkSaved;
            },
            (Step::WatermarkSaved, Event::Saved) => self.search_numbers(state),
            (Step::Searching, Event::Page(page)) => self.after_page(state, &page),
            (Step::Collecting, Event::Page(page)) => self.after_collected(state, &page),
            (Step::FirstSaved, Event::Saved) => {
                if has_numbers(self.section) {
                    self.next_section(state);
                } else {
                    self.offer(state);
                }
            },
            (Step::BatchSaved, Event::Saved) => {
                self.item = 0;
                self.offer(state);
            },
            (Step::Gate, Event::Config(config)) => self.after_gate(state, &config),
            (Step::Manifest, Event::Manifest { access, title }) => {
                if access {
                    self.title = title;
                    self.step = Step::Media;
                } else {
                    self.pass_on(state);
                }
            },
            (Step::Media, Event::Media(present)) => {
                if present {
                    let replay = self.current();
                    state.mark_handled(replay.id, replay.title.clone());
                    self.step = Step::MediaSaved;
                } else {
                    self.step = Step::Activity;
                }
            },
            (Step::MediaSaved, Event::Saved) => self.pass_on(state),
            (Step::Activity, Event::Activity { config, downloading }) => {
                if !config.auto_follow_replays || !config.signed_in || downloading {
                    self.pass_on(state);
                } else {
                    self.step = Step::Download;
                }
            },
            (Step::Download, Event::Queued) => {
                self.step = Step::Done;
            },
            _ => {
                self.step = Step::Failed(PollError::OutOfTurn);
            },
        }
    }
}

} // verus!
