//! What a check goes through: every section that the settings ask for, and in each of them every
//! number.

use crate::collect::{begun_collection, collect_step, law_collection_asks, AskView, CollectorView};
use crate::config::{Config, Settings};
use crate::course::{
    action_of, after_collected, after_page, enter_bjj, enter_contender, highest_number,
    holds_replay, is_numbered, next_section, next_wanted, offer, poll_step, search_numbers,
    selection, selection_begun, series_number, series_of, still_followed, take_batch, valid_poll,
    ActionView, BatchView, EventView, PollView, Section, Step,
};
use crate::ending::law_check_ends;
use crate::guarantees::{is_over, law_run_valid, lemma_baselined, run, state_at, Moment};
use crate::offers::{law_run_sound, sound_poll};
use crate::ordering::in_order;
use crate::search::{
    law_queries, newer, newer_or_higher, search_step, PageView, SearchStep, SearchView,
};
use crate::span::law_run_searches_all;
use crate::state::FollowView;
use crate::text::decimal;
use crate::watermark::lemma_start_is_left;
use vstd::prelude::*;

verus! {

/// The configuration no longer asks for a section with the settings that a check began with.
pub open spec fn withdrawn(settings: Settings, section: Section, config: Config) -> bool {
    ||| !config.auto_follow_replays
    ||| section == Section::Ufc && config.auto_follow_ufc_number != settings.ufc
    ||| section == Section::Bjj && config.auto_follow_bjj_number != settings.bjj
    ||| section == Section::Contender && !config.auto_follow_contender_series
    ||| section == Section::FightNight && !config.auto_follow_fight_nights
}

/// An event that ends a check before it has gone through everything: a download was running when
/// it began, the configuration no longer asks for the section, or a download was started.
pub open spec fn cuts(p: PollView, event: EventView) -> bool {
    ||| action_of(p) == ActionView::CountDownloads && event == EventView::Downloads(true)
    ||| action_of(p) == ActionView::ReadConfig && (event matches EventView::Config(config)
        && withdrawn(p.settings, p.section, config))
    ||| action_of(p) is StartDownload
}

/// The check at a moment of a run.
pub open spec fn check_at(
    settings: Settings,
    s: FollowView,
    moments: Seq<Moment>,
    k: int,
) -> PollView {
    run(settings, s, moments.take(k)).0
}

/// The run was cut short at one of its moments.
pub open spec fn cut_short(settings: Settings, s: FollowView, moments: Seq<Moment>) -> bool {
    exists|k: int|
        0 <= k < moments.len() && cuts(
            #[trigger] check_at(settings, s, moments, k),
            moments[k].event,
        )
}

/// The run asked the search service for something at one of its moments.
pub open spec fn has_asked(
    settings: Settings,
    s: FollowView,
    moments: Seq<Moment>,
    ask: AskView,
) -> bool {
    exists|k: int|
        0 <= k <= moments.len() && action_of(#[trigger] check_at(settings, s, moments, k))
            == ActionView::Search(ask)
}

/// What a run has asked for.
pub open spec fn asks_of(settings: Settings, s: FollowView, moments: Seq<Moment>) -> Set<AskView> {
    Set::new(|ask: AskView| has_asked(settings, s, moments, ask))
}

/// The first page of a search for a phrase.
pub open spec fn first_page(query: Seq<char>) -> AskView {
    AskView::Vods { query, page: 0 }
}

/// The number around which a section's numbers are searched for: the highest one seen, where the
/// selection is not new and that is above the selected one; else the selected one.
pub open spec fn around(selected: u16, initialized: u16, highest: u16) -> u16 {
    if initialized == selected && highest > selected {
        highest
    } else {
        selected
    }
}

/// The number is one that is searched for: not before the selected one, from two before to one
/// behind the one around which they lie.
pub open spec fn is_searched(number: u16, selected: u16, around: u16) -> bool {
    selected <= number && around - 2 <= number <= around + 1
}

/// A section was gone through: where the settings ask for it, all its numbers, or its phrase, were
/// searched for.
pub open spec fn gone_through(
    settings: Settings,
    s: FollowView,
    asks: Set<AskView>,
    section: Section,
) -> bool {
    match section {
        Section::Ufc => settings.ufc > 0 ==> forall|number: u16|
            is_searched(
                number,
                settings.ufc,
                around(settings.ufc, s.ufc_initialized_number, s.highest_ufc_number),
            ) ==> asks.contains(
                first_page("\"UFC "@ + #[trigger] decimal(number as nat) + "\""@),
            ),
        Section::Bjj => settings.bjj > 0 ==> forall|number: u16|
            is_searched(
                number,
                settings.bjj,
                around(settings.bjj, s.bjj_initialized_number, s.highest_bjj_number),
            ) ==> asks.contains(
                first_page("\"UFC BJJ "@ + #[trigger] decimal(number as nat) + "\""@),
            ),
        Section::Contender => settings.contender ==> asks.contains(
            first_page("\"Dana White's Contender Series\""@),
        ),
        Section::FightNight => settings.fight_nights ==> asks.contains(
            first_page("\"UFC Fight Night:\""@),
        ),
    }
}

/// The place of a section in a check.
pub open spec fn rank(section: Section) -> int {
    match section {
        Section::Ufc => 0,
        Section::Bjj => 1,
        Section::Contender => 2,
        Section::FightNight => 3,
    }
}

/// All sections before a place were gone through.
spec fn gone_before(settings: Settings, s: FollowView, asks: Set<AskView>, place: int) -> bool {
    &&& place > 0 ==> gone_through(settings, s, asks, Section::Ufc)
    &&& place > 1 ==> gone_through(settings, s, asks, Section::Bjj)
    &&& place > 2 ==> gone_through(settings, s, asks, Section::Contender)
    &&& place > 3 ==> gone_through(settings, s, asks, Section::FightNight)
}

/// The number around which the numbers of a numbered section lie, by the state that the check began
/// in.
spec fn center(settings: Settings, s: FollowView, section: Section) -> u16 {
    match section {
        Section::Ufc => around(settings.ufc, s.ufc_initialized_number, s.highest_ufc_number),
        _ => around(settings.bjj, s.bjj_initialized_number, s.highest_bjj_number),
    }
}

/// What a numbered section's number is searched for with.
spec fn number_ask(section: Section, number: u16) -> AskView {
    match section {
        Section::Ufc => first_page("\"UFC "@ + decimal(number as nat) + "\""@),
        _ => first_page("\"UFC BJJ "@ + decimal(number as nat) + "\""@),
    }
}

/// How far a check that began in the state `s` has come, by what it has asked for.
spec fn on_course(p: PollView, t: FollowView, s: FollowView, asks: Set<AskView>) -> bool {
    if p.step == Step::Done {
        gone_before(p.settings, s, asks, 4)
    } else {
        &&& p.step == Step::Start ==> p.section == Section::Ufc && t.ufc_initialized_number
            == s.ufc_initialized_number && t.highest_ufc_number == s.highest_ufc_number
        &&& gone_before(p.settings, s, asks, rank(p.section))
        &&& p.section == Section::Ufc ==> t.bjj_initialized_number == s.bjj_initialized_number
            && t.highest_bjj_number == s.highest_bjj_number
        &&& p.step == Step::Clock || p.step == Step::WatermarkSaved ==> (if t.highest_ufc_number
            > p.settings.ufc {
            t.highest_ufc_number
        } else {
            p.settings.ufc
        }) == center(p.settings, s, Section::Ufc)
        &&& p.step == Step::Searching && is_numbered(p.section) ==> {
            let number = series_number(p.search.series);
            let mid = center(p.settings, s, p.section);
            let selected = selection(p.settings, p.section);
            &&& p.search.series == series_of(p.section, number)
            &&& selected > 0
            &&& is_searched(number, selected, mid)
            &&& p.last == mid + 1 || p.last == u16::MAX == mid
            &&& forall|m: u16|
                is_searched(m, selected, mid) && m <= number ==> asks.contains(
                    #[trigger] number_ask(p.section, m),
                )
        }
        &&& p.step == Step::Searching && p.section == Section::Contender ==> gone_through(
            p.settings,
            s,
            asks,
            Section::Contender,
        )
        &&& p.step == Step::Collecting ==> gone_through(p.settings, s, asks, Section::FightNight)
        &&& p.step == Step::FirstSaved || p.step == Step::BatchSaved || holds_replay(p.step)
            ==> gone_through(p.settings, s, asks, p.section)
    }
}

/// What was gone through with fewer requests was gone through with more.
proof fn lemma_more_asks(
    settings: Settings,
    s: FollowView,
    asks: Set<AskView>,
    more: Set<AskView>,
    section: Section,
)
    requires
        asks.subset_of(more),
        gone_through(settings, s, asks, section),
    ensures
        gone_through(settings, s, more, section),
{
}

/// Where all numbers up to the last one were searched for, a numbered section was gone through.
proof fn lemma_numbers_done(
    settings: Settings,
    s: FollowView,
    asks: Set<AskView>,
    section: Section,
)
    requires
        is_numbered(section),
        forall|m: u16|
            is_searched(m, selection(settings, section), center(settings, s, section))
                ==> asks.contains(#[trigger] number_ask(section, m)),
    ensures
        gone_through(settings, s, asks, section),
{
    if section == Section::Ufc {
        assert forall|number: u16|
            is_searched(
                number,
                settings.ufc,
                center(settings, s, Section::Ufc),
            ) implies asks.contains(
            first_page("\"UFC "@ + #[trigger] decimal(number as nat) + "\""@),
        ) by {
            assert(asks.contains(number_ask(section, number)));
        }
    } else {
        assert forall|number: u16|
            is_searched(
                number,
                settings.bjj,
                center(settings, s, Section::Bjj),
            ) implies asks.contains(
            first_page("\"UFC BJJ "@ + #[trigger] decimal(number as nat) + "\""@),
        ) by {
            assert(asks.contains(number_ask(section, number)));
        }
    }
}

/// The requests of a check hold what it asks for now.
pub open spec fn holds_ask(asks: Set<AskView>, p: PollView) -> bool {
    action_of(p) matches ActionView::Search(ask) ==> asks.contains(ask)
}

/// A check that begins to search for numbers is on course.
proof fn lemma_search_on_course(p: PollView, t: FollowView, s: FollowView, asks: Set<AskView>)
    requires
        is_numbered(p.section),
        selection(p.settings, p.section) > 0,
        gone_before(p.settings, s, asks, rank(p.section)),
        p.section == Section::Ufc ==> t.bjj_initialized_number == s.bjj_initialized_number
            && t.highest_bjj_number == s.highest_bjj_number,
        ({
            let seen = highest_number(t, p.section);
            let selected = selection(p.settings, p.section);
            (if seen > selected {
                seen
            } else {
                selected
            }) == center(p.settings, s, p.section)
        }),
        holds_ask(asks, search_numbers(p, t).0),
    ensures
        on_course(search_numbers(p, t).0, search_numbers(p, t).1, s, asks),
{
    let q = search_numbers(p, t).0;
    let number = series_number(q.search.series);
    let mid = center(p.settings, s, p.section);
    let selected = selection(p.settings, p.section);
    law_queries(number);
    assert(action_of(q) == ActionView::Search(number_ask(p.section, number)));
    assert forall|m: u16| is_searched(m, selected, mid) && m <= number implies asks.contains(
        #[trigger] number_ask(p.section, m),
    ) by {
        assert(m == number);
    }
}

/// A check that goes on to the Contender Series, or behind it, is on course.
proof fn lemma_contender_on_course(p: PollView, t: FollowView, s: FollowView, asks: Set<AskView>)
    requires
        gone_before(p.settings, s, asks, 2),
        holds_ask(asks, enter_contender(p, t).0),
    ensures
        on_course(enter_contender(p, t).0, enter_contender(p, t).1, s, asks),
{
    law_queries(0);
    law_collection_asks(begun_collection(t.fight_night_baseline));
}

/// A check that goes on to the BJJ events, or behind them, is on course.
proof fn lemma_bjj_on_course(p: PollView, t: FollowView, s: FollowView, asks: Set<AskView>)
    requires
        gone_before(p.settings, s, asks, 1),
        t.bjj_initialized_number == s.bjj_initialized_number,
        t.highest_bjj_number == s.highest_bjj_number,
        holds_ask(asks, enter_bjj(p, t).0),
    ensures
        on_course(enter_bjj(p, t).0, enter_bjj(p, t).1, s, asks),
{
    if p.settings.bjj > 0 {
        lemma_search_on_course(
            PollView {
                section: Section::Bjj,
                first: t.bjj_initialized_number != p.settings.bjj,
                ..p
            },
            selection_begun(t, Section::Bjj, p.settings.bjj),
            s,
            asks,
        );
    } else {
        lemma_contender_on_course(p, t, s, asks);
    }
}

/// A check that goes on to the next section is on course.
proof fn lemma_next_section_on_course(p: PollView, t: FollowView, s: FollowView, asks: Set<AskView>)
    requires
        gone_before(p.settings, s, asks, rank(p.section)),
        gone_through(p.settings, s, asks, p.section),
        p.section == Section::Ufc ==> t.bjj_initialized_number == s.bjj_initialized_number
            && t.highest_bjj_number == s.highest_bjj_number,
        holds_ask(asks, next_section(p, t).0),
    ensures
        on_course(next_section(p, t).0, next_section(p, t).1, s, asks),
{
    match p.section {
        Section::Ufc => lemma_bjj_on_course(p, t, s, asks),
        Section::Bjj => lemma_contender_on_course(p, t, s, asks),
        Section::Contender => {
            law_collection_asks(begun_collection(t.fight_night_baseline));
        },
        Section::FightNight => {},
    }
}

/// A check that takes up a batch, or goes on behind the last, is on course.
proof fn lemma_batch_on_course(p: PollView, t: FollowView, s: FollowView, asks: Set<AskView>)
    requires
        gone_before(p.settings, s, asks, rank(p.section)),
        gone_through(p.settings, s, asks, p.section),
        p.section == Section::Ufc ==> t.bjj_initialized_number == s.bjj_initialized_number
            && t.highest_bjj_number == s.highest_bjj_number,
        holds_ask(asks, take_batch(p, t).0),
    ensures
        on_course(take_batch(p, t).0, take_batch(p, t).1, s, asks),
{
    if p.at >= p.batches.len() {
        lemma_next_section_on_course(p, t, s, asks);
    }
}

/// A check that goes on with a batch is on course.
proof fn lemma_offer_on_course(p: PollView, t: FollowView, s: FollowView, asks: Set<AskView>)
    requires
        gone_before(p.settings, s, asks, rank(p.section)),
        gone_through(p.settings, s, asks, p.section),
        p.section == Section::Ufc ==> t.bjj_initialized_number == s.bjj_initialized_number
            && t.highest_bjj_number == s.highest_bjj_number,
        holds_ask(asks, offer(p, t).0),
    ensures
        on_course(offer(p, t).0, offer(p, t).1, s, asks),
{
    let items = p.batches[p.at].items;
    let item = next_wanted(p.section, items, p.item, t);
    if item >= items.len() {
        if is_numbered(p.section) {
            lemma_batch_on_course(PollView { at: p.at + 1, item, ..p }, t, s, asks);
        } else {
            lemma_next_section_on_course(PollView { item, ..p }, t, s, asks);
        }
    }
}

/// A check that searches stays on course with a page.
#[verifier::spinoff_prover]
proof fn lemma_page_on_course(
    p: PollView,
    t: FollowView,
    s: FollowView,
    asks: Set<AskView>,
    page: PageView,
)
    requires
        valid_poll(p),
        p.step == Step::Searching,
        on_course(p, t, s, asks),
        holds_ask(asks, after_page(p, t, page).0),
        !(after_page(p, t, page).0.step is Failed),
    ensures
        on_course(after_page(p, t, page).0, after_page(p, t, page).1, s, asks),
{
    let (search, step) = search_step(p.search, page);
    let number = series_number(search.series);
    let after = PollView { search: SearchView { found: Seq::empty(), ..search }, ..p };
    if step == SearchStep::Complete {
        if p.section == Section::Contender {
            let items = in_order(search.found, newer());
            let held = PollView {
                batches: seq![BatchView { number: 0, items }],
                at: 0,
                item: 0,
                ..after
            };
            if t.contender_initialized {
                lemma_offer_on_course(held, t, s, asks);
            }
        } else {
            let batches = p.batches.push(BatchView { number, items: search.found });
            let found = PollView { batches, ..after };
            let mid = center(p.settings, s, p.section);
            let selected = selection(p.settings, p.section);
            if number < p.last {
                let next = (number + 1) as u16;
                let q = after_page(p, t, page).0;
                law_queries(next);
                assert(action_of(q) == ActionView::Search(number_ask(p.section, next)));
                assert forall|m: u16|
                    is_searched(m, selected, mid) && m <= next implies asks.contains(
                    #[trigger] number_ask(p.section, m),
                ) by {
                    if m <= number {
                        assert(asks.contains(number_ask(p.section, m)));
                    }
                }
            } else {
                assert forall|m: u16| is_searched(m, selected, mid) implies asks.contains(
                    #[trigger] number_ask(p.section, m),
                ) by {
                    assert(m <= number);
                }
                lemma_numbers_done(p.settings, s, asks, p.section);
                lemma_baselined(t, p.section, batches);
                if !(p.first && !p.settings.include_existing) {
                    lemma_batch_on_course(PollView { at: 0, ..found }, t, s, asks);
                }
            }
        }
    }
}

/// A check that collects Fight Nights stays on course with an answer.
#[verifier::spinoff_prover]
proof fn lemma_collected_on_course(
    p: PollView,
    t: FollowView,
    s: FollowView,
    asks: Set<AskView>,
    page: PageView,
)
    requires
        valid_poll(p),
        p.step == Step::Collecting,
        on_course(p, t, s, asks),
        holds_ask(asks, after_collected(p, t, page).0),
        !(after_collected(p, t, page).0.step is Failed),
    ensures
        on_course(after_collected(p, t, page).0, after_collected(p, t, page).1, s, asks),
{
    let (collector, step) = collect_step(p.collector, page);
    if step == SearchStep::Complete {
        let items = in_order(collector.found, newer_or_higher());
        let held = PollView {
            collector: CollectorView { found: Seq::empty(), ..collector },
            batches: seq![BatchView { number: 0, items }],
            at: 0,
            item: 0,
            ..p
        };
        if items.len() > 0 && t.fight_night_initialized {
            lemma_offer_on_course(held, t, s, asks);
        }
    }
}

/// A check is on course with more requests, too.
proof fn lemma_on_course_with_more(
    p: PollView,
    t: FollowView,
    s: FollowView,
    asks: Set<AskView>,
    more: Set<AskView>,
)
    requires
        on_course(p, t, s, asks),
        asks.subset_of(more),
    ensures
        on_course(p, t, s, more),
{
    assert forall|section: Section| #[trigger]
        gone_through(p.settings, s, asks, section) implies gone_through(
        p.settings,
        s,
        more,
        section,
    ) by {
        lemma_more_asks(p.settings, s, asks, more, section);
    }
    assert(gone_through(p.settings, s, asks, Section::Ufc) ==> gone_through(
        p.settings,
        s,
        more,
        Section::Ufc,
    ));
}

/// Whatever happens, a check that is not cut short and does not fail stays on course.
#[verifier::spinoff_prover]
proof fn lemma_event_on_course(
    p: PollView,
    t: FollowView,
    s: FollowView,
    asks: Set<AskView>,
    event: EventView,
)
    requires
        valid_poll(p),
        sound_poll(p),
        on_course(p, t, s, asks),
        holds_ask(asks, poll_step(p, t, event).0),
        !(poll_step(p, t, event).0.step is Failed),
        !cuts(p, event),
    ensures
        on_course(poll_step(p, t, event).0, poll_step(p, t, event).1, s, asks),
{
    match (p.step, event) {
        (Step::Start, EventView::Downloads(running)) => {
            if p.settings.ufc > 0 {
                let first = t.ufc_initialized_number != p.settings.ufc;
                let q = PollView { section: Section::Ufc, first, ..p };
                let u = selection_begun(t, Section::Ufc, p.settings.ufc);
                if !(!p.settings.include_existing && (first || t.ufc_baseline_ts.len() == 0)) {
                    lemma_search_on_course(q, u, s, asks);
                }
            } else {
                lemma_bjj_on_course(p, t, s, asks);
            }
        },
        (Step::WatermarkSaved, EventView::Saved) => {
            lemma_search_on_course(p, t, s, asks);
        },
        (Step::Searching, EventView::Page(page)) => {
            lemma_page_on_course(p, t, s, asks, page);
        },
        (Step::Collecting, EventView::Page(page)) => {
            lemma_collected_on_course(p, t, s, asks, page);
        },
        (Step::FirstSaved, EventView::Saved) => {
            if is_numbered(p.section) {
                lemma_next_section_on_course(p, t, s, asks);
            } else {
                lemma_offer_on_course(p, t, s, asks);
            }
        },
        (Step::BatchSaved, EventView::Saved) => {
            lemma_offer_on_course(PollView { item: 0, ..p }, t, s, asks);
        },
        (Step::Gate, EventView::Config(config)) => {
            if still_followed(p, config) && poll_step(p, t, event).0.step != Step::Manifest {
                lemma_offer_on_course(PollView { item: p.item + 1, ..p }, t, s, asks);
            }
        },
        (Step::Manifest, EventView::Manifest { access, title }) => {
            if !access {
                lemma_offer_on_course(PollView { item: p.item + 1, ..p }, t, s, asks);
            }
        },
        (Step::MediaSaved, EventView::Saved) => {
            lemma_offer_on_course(PollView { item: p.item + 1, ..p }, t, s, asks);
        },
        (Step::Activity, EventView::Activity { config, downloading }) => {
            if !(config.auto_follow_replays && config.signed_in && !downloading) {
                lemma_offer_on_course(PollView { item: p.item + 1, ..p }, t, s, asks);
            }
        },
        _ => {},
    }
}

/// What a run has asked for, it has asked for after one more moment, too; and then also for what it
/// wants there.
pub proof fn lemma_asks_grow(settings: Settings, s: FollowView, moments: Seq<Moment>)
    requires
        moments.len() > 0,
    ensures
        asks_of(settings, s, moments.drop_last()).subset_of(asks_of(settings, s, moments)),
        holds_ask(asks_of(settings, s, moments), run(settings, s, moments).0),
        cut_short(settings, s, moments.drop_last()) ==> cut_short(settings, s, moments),
        cuts(run(settings, s, moments.drop_last()).0, moments.last().event) ==> cut_short(
            settings,
            s,
            moments,
        ),
{
    let front = moments.drop_last();
    let n = moments.len() as int;
    assert forall|k: int| 0 <= k < n implies #[trigger] check_at(settings, s, moments, k)
        == check_at(settings, s, front, k) by {
        assert(moments.take(k) =~= front.take(k));
    }
    assert forall|ask: AskView| #[trigger]
        asks_of(settings, s, front).contains(ask) implies asks_of(settings, s, moments).contains(
        ask,
    ) by {
        let k = choose|k: int|
            0 <= k <= front.len() && action_of(#[trigger] check_at(settings, s, front, k))
                == ActionView::Search(ask);
        assert(check_at(settings, s, moments, k) == check_at(settings, s, front, k));
    }
    assert(moments.take(n) =~= moments);
    assert(check_at(settings, s, moments, n) == run(settings, s, moments).0);
    if let ActionView::Search(ask) = action_of(run(settings, s, moments).0) {
        assert(has_asked(settings, s, moments, ask));
    }
    if cut_short(settings, s, front) {
        let k = choose|k: int|
            0 <= k < front.len() && cuts(
                #[trigger] check_at(settings, s, front, k),
                front[k].event,
            );
        assert(check_at(settings, s, moments, k) == check_at(settings, s, front, k));
        assert(front[k] == moments[k]);
    }
    assert(front.take(n - 1) =~= front);
    assert(check_at(settings, s, moments, n - 1) == run(settings, s, front).0);
}

/// Every run that is not cut short and has not failed is on course.
proof fn lemma_run_on_course(settings: Settings, s: FollowView, moments: Seq<Moment>)
    requires
        !cut_short(settings, s, moments),
        !(run(settings, s, moments).0.step is Failed),
    ensures
        on_course(
            run(settings, s, moments).0,
            run(settings, s, moments).1,
            s,
            asks_of(settings, s, moments),
        ),
    decreases moments.len(),
{
    if moments.len() > 0 {
        let front = moments.drop_last();
        let (p, so_far) = run(settings, s, front);
        let t = state_at(so_far, moments.last());
        let asks = asks_of(settings, s, moments);
        lemma_asks_grow(settings, s, moments);
        lemma_run_on_course(settings, s, front);
        law_run_valid(settings, s, front);
        law_run_sound(settings, s, front);
        lemma_on_course_with_more(p, so_far, s, asks_of(settings, s, front), asks);
        assert(on_course(p, t, s, asks));
        lemma_event_on_course(p, t, s, asks, moments.last().event);
    }
}

/// A check goes through everything: where it ends and was not cut short, by a download that was
/// running or that it started or by a setting that was withdrawn, it has searched for every number
/// of the UFC events and of the BJJ events that lies around the highest one seen, for the
/// Contender Series and for the Fight Nights, each where the settings ask for it, and whichever
/// others they ask for.
pub proof fn law_check_goes_through_everything(
    settings: Settings,
    s: FollowView,
    moments: Seq<Moment>,
    section: Section,
)
    requires
        action_of(run(settings, s, moments).0) == ActionView::Finish,
        !cut_short(settings, s, moments),
    ensures
        gone_through(settings, s, asks_of(settings, s, moments), section),
{
    lemma_run_on_course(settings, s, moments);
    law_run_valid(settings, s, moments);
}

/// The sections come in their order: UFC events, BJJ events, Contender Series, Fight Nights.
pub proof fn law_sections_come_in_their_order(
    settings: Settings,
    s: FollowView,
    moments: Seq<Moment>,
)
    requires
        moments.len() > 0,
    ensures
        ({
            let p = run(settings, s, moments.drop_last()).0;
            let q = run(settings, s, moments).0;
            is_over(q.step) || q.section == p.section || match q.section {
                Section::Ufc => false,
                Section::Bjj => p.section == Section::Ufc,
                Section::Contender => p.section == Section::Ufc || p.section == Section::Bjj,
                Section::FightNight => true,
            }
        }),
{
    let front = moments.drop_last();
    let (p, so_far) = run(settings, s, front);
    let t = state_at(so_far, moments.last());
    law_run_valid(settings, s, front);
    law_run_searches_all(settings, s, front);
    if !is_over(p.step) {
        law_check_ends(p, t, moments.last().event);
        lemma_start_section(settings, s, front);
    }
}

/// A check stands before the UFC events when it begins.
pub proof fn lemma_start_section(settings: Settings, s: FollowView, moments: Seq<Moment>)
    ensures
        run(settings, s, moments).0.step == Step::Start ==> run(settings, s, moments).0.section
            == Section::Ufc,
    decreases moments.len(),
{
    if moments.len() > 0 {
        let front = moments.drop_last();
        let (p, so_far) = run(settings, s, front);
        lemma_start_is_left(p, state_at(so_far, moments.last()), moments.last().event);
        lemma_start_section(settings, s, front);
    }
}

} // verus!
