//! First checks and the watermark: what keeps old recordings from being downloaded.

use crate::collect::{collect_step, CollectorView};
use crate::config::Settings;
use crate::course::{
    after_collected, after_page, contender_found, fight_nights_found, holds_replay, is_numbered,
    is_outdated, next_section, next_wanted, numbers_found, of_other_events, offer, poll_step,
    series_number, valid_poll, BatchView, EventView, PollView, Section, Step,
};
use crate::guarantees::{
    is_over, law_run_valid, lemma_baselined, lemma_mark_all_handles, run, state_at, Moment,
};
use crate::offers::law_run_sound;
use crate::ordering::{in_order, law_sort_orders};
use crate::search::{
    lemma_newer_ranks, newer, newer_or_higher, search_step, PageView, SearchStep, SearchView,
};
use crate::state::{FollowView, ReplayView};
use crate::text::{before, lemma_before_irreflexive};
use crate::titles::fight_night_key_of;
use vstd::prelude::*;

verus! {

/// Of the first check of a numbered selection, where existing recordings are not wanted: all that
/// was found is handled, and the selection has had its first check.
pub proof fn law_first_numbers_are_handled(p: PollView, s: FollowView, b: int, i: int)
    requires
        is_numbered(p.section),
        p.first,
        !p.settings.include_existing,
        0 <= b < p.batches.len(),
        0 <= i < p.batches[b].items.len(),
    ensures
        numbers_found(p, s).1.handled(p.batches[b].items[i]),
        p.section == Section::Ufc ==> numbers_found(p, s).1.ufc_initialized_number
            == p.settings.ufc,
        p.section == Section::Bjj ==> numbers_found(p, s).1.bjj_initialized_number
            == p.settings.bjj,
{
    lemma_baselined(s, p.section, p.batches);
}

/// Of the first check of the Contender Series: the recordings stand newest first, and all of them
/// are handled, but for the newest one where existing recordings are wanted.
pub proof fn law_first_contender_check(
    p: PollView,
    s: FollowView,
    found: Seq<ReplayView>,
    i: int,
)
    requires
        !s.contender_initialized,
        0 <= i < in_order(found, newer()).len(),
    ensures
        ({
            let items = in_order(found, newer());
            let (q, t) = contender_found(p, s, found);
            &&& q.step == Step::FirstSaved
            &&& q.batches == seq![BatchView { number: 0, items }]
            &&& t.contender_initialized
            &&& i > 0 || !p.settings.include_existing ==> t.handled(items[i])
            &&& !before(items[0].published, items[i].published)
        }),
{
    let items = in_order(found, newer());
    let keep: int = if p.settings.include_existing {
        1
    } else {
        0
    };
    if i >= keep {
        lemma_mark_all_handles(s, items.skip(keep), i - keep);
    }
    lemma_newer_ranks();
    law_sort_orders(found, newer());
    lemma_before_irreflexive(items[0].published);
}

/// Of the first check of the Fight Nights: the baseline is the newest date. Where existing
/// recordings are not wanted all that was found is handled; where they are, all but the segments
/// of the newest recording's event, and those stay wanted however old they are.
pub proof fn law_first_fight_night_check(
    p: PollView,
    s: FollowView,
    found: Seq<ReplayView>,
    i: int,
)
    requires
        !s.fight_night_initialized,
        0 <= i < in_order(found, newer_or_higher()).len(),
    ensures
        ({
            let items = in_order(found, newer_or_higher());
            let (q, t) = fight_nights_found(p, s, found);
            let latest = fight_night_key_of(items[0].title);
            let same_event = latest is Some && fight_night_key_of(items[i].title) == latest;
            &&& q.step == Step::FirstSaved
            &&& q.batches == seq![BatchView { number: 0, items }]
            &&& t.fight_night_initialized
            &&& t.fight_night_baseline == items[0].published
            &&& p.settings.include_existing && latest is Some ==> t.fight_night_latest_event
                == latest->0
            &&& !p.settings.include_existing || latest is None
                ==> t.fight_night_latest_event.len() == 0
            &&& !before(items[0].published, items[i].published)
            &&& !p.settings.include_existing ==> t.handled(items[i])
            &&& !same_event ==> t.handled(items[i])
            &&& p.settings.include_existing && same_event ==> !is_outdated(items[i], t)
        }),
{
    let items = in_order(found, newer_or_higher());
    let latest = if p.settings.include_existing {
        fight_night_key_of(items[0].title)
    } else {
        None
    };
    let keep = |item: ReplayView| latest is None || fight_night_key_of(item.title) != latest;
    let others = of_other_events(items, latest);
    if keep(items[i]) {
        items.lemma_filter_contains(keep, i);
        let k = choose|k: int| 0 <= k < others.len() && others[k] == items[i];
        lemma_mark_all_handles(s, others, k);
    }
    lemma_newer_ranks();
    law_sort_orders(found, newer_or_higher());
    lemma_before_irreflexive(items[0].published);
}

/// What the state says of the sections that come after `section` is what it said in `origin`.
pub open spec fn later_untouched(s: FollowView, origin: FollowView, section: Section) -> bool {
    &&& section == Section::Ufc ==> s.bjj_initialized_number == origin.bjj_initialized_number
    &&& is_numbered(section) ==> s.contender_initialized == origin.contender_initialized
    &&& section != Section::FightNight ==> s.fight_night_initialized
        == origin.fight_night_initialized
}

/// The section had its first check before a check that began in the state `origin`.
pub open spec fn checked_before(settings: Settings, origin: FollowView, section: Section) -> bool {
    match section {
        Section::Ufc => origin.ufc_initialized_number == settings.ufc,
        Section::Bjj => origin.bjj_initialized_number == settings.bjj,
        Section::Contender => origin.contender_initialized,
        Section::FightNight => origin.fight_night_initialized,
    }
}

/// All replays of the batches are handled.
pub open spec fn all_handled(batches: Seq<BatchView>, s: FollowView) -> bool {
    forall|b: int, i: int|
        #![trigger batches[b].items[i]]
        0 <= b < batches.len() && 0 <= i < batches[b].items.len() ==> s.handled(batches[b].items[i])
}

/// What a check that began in the state `origin` knows of first checks: it tells the first check
/// of a section from a later one, and where existing recordings are not wanted, what the first
/// check of a section without numbers found is handled.
pub open spec fn knows_first_checks(p: PollView, s: FollowView, origin: FollowView) -> bool {
    is_over(p.step) || {
        &&& later_untouched(s, origin, p.section)
        &&& p.step == Step::Start ==> p.section == Section::Ufc && s.ufc_initialized_number
            == origin.ufc_initialized_number
        &&& p.step != Step::Start && is_numbered(p.section) ==> p.first == !checked_before(
            p.settings,
            origin,
            p.section,
        )
        &&& p.section == Section::Contender && p.step == Step::Searching ==> s.contender_initialized
            == origin.contender_initialized
        &&& p.section == Section::FightNight && p.step == Step::Collecting ==>
            s.fight_night_initialized == origin.fight_night_initialized
        &&& {
            &&& !p.settings.include_existing
            &&& !is_numbered(p.section)
            &&& !checked_before(p.settings, origin, p.section)
            &&& p.step == Step::FirstSaved || holds_replay(p.step)
        } ==> all_handled(p.batches, s) && (p.step == Step::FirstSaved || p.step == Step::Gate)
    }
}

/// More handled recordings change nothing in what a check knows of first checks.
proof fn lemma_marks_keep_knowledge(
    p: PollView,
    s: FollowView,
    origin: FollowView,
    replays: Seq<ReplayView>,
)
    requires
        knows_first_checks(p, s, origin),
    ensures
        knows_first_checks(p, s.mark_all(replays), origin),
{
    let t = s.mark_all(replays);
    assert forall|b: int, i: int|
        #![trigger p.batches[b].items[i]]
        0 <= b < p.batches.len() && 0 <= i < p.batches[b].items.len() && all_handled(
            p.batches,
            s,
        ) implies t.handled(p.batches[b].items[i]) by {
        assert(s.handled(p.batches[b].items[i]));
    }
}

/// A check that goes on to the next section knows of first checks.
proof fn lemma_next_section_knows(p: PollView, s: FollowView, origin: FollowView)
    requires
        later_untouched(s, origin, p.section),
    ensures
        knows_first_checks(next_section(p, s).0, next_section(p, s).1, origin),
{
}

/// A check that goes on with a batch knows of first checks.
proof fn lemma_offer_knows(p: PollView, s: FollowView, origin: FollowView)
    requires
        later_untouched(s, origin, p.section),
        is_numbered(p.section) ==> p.first == !checked_before(p.settings, origin, p.section),
        !p.settings.include_existing && !is_numbered(p.section) && !checked_before(
            p.settings,
            origin,
            p.section,
        ) ==> all_handled(p.batches, s),
    ensures
        knows_first_checks(offer(p, s).0, offer(p, s).1, origin),
{
    let items = p.batches[p.at].items;
    let item = next_wanted(p.section, items, p.item, s);
    lemma_next_section_knows(PollView { at: p.at + 1, item, ..p }, s, origin);
    lemma_next_section_knows(PollView { item, ..p }, s, origin);
}

/// A check that searches knows of first checks after a page.
proof fn lemma_page_knows(p: PollView, s: FollowView, origin: FollowView, page: PageView)
    requires
        valid_poll(p),
        p.step == Step::Searching,
        knows_first_checks(p, s, origin),
    ensures
        knows_first_checks(after_page(p, s, page).0, after_page(p, s, page).1, origin),
{
    let (search, step) = search_step(p.search, page);
    if step == SearchStep::Complete {
        let number = series_number(search.series);
        let after = PollView { search: SearchView { found: Seq::empty(), ..search }, ..p };
        if p.section == Section::Contender {
            let items = in_order(search.found, newer());
            let held = PollView {
                batches: seq![BatchView { number: 0, items }],
                at: 0,
                item: 0,
                ..after
            };
            if s.contender_initialized {
                lemma_offer_knows(held, s, origin);
            } else {
                let t = contender_found(after, s, search.found).1;
                if !p.settings.include_existing {
                    assert forall|b: int, i: int|
                        #![trigger held.batches[b].items[i]]
                        0 <= b < held.batches.len() && 0 <= i
                            < held.batches[b].items.len() implies t.handled(
                        held.batches[b].items[i],
                    ) by {
                        law_first_contender_check(after, s, search.found, i);
                    }
                }
            }
        } else {
            let after = PollView {
                batches: p.batches.push(BatchView { number, items: search.found }),
                ..after
            };
            lemma_baselined(s, p.section, after.batches);
            lemma_next_section_knows(PollView { at: 0, ..after }, s, origin);
        }
    }
}

/// A check that collects Fight Nights knows of first checks after an answer.
proof fn lemma_collected_knows(p: PollView, s: FollowView, origin: FollowView, page: PageView)
    requires
        valid_poll(p),
        p.step == Step::Collecting,
        knows_first_checks(p, s, origin),
    ensures
        knows_first_checks(after_collected(p, s, page).0, after_collected(p, s, page).1, origin),
{
    let (collector, step) = collect_step(p.collector, page);
    if step == SearchStep::Complete {
        let items = in_order(collector.found, newer_or_higher());
        let after = PollView {
            collector: CollectorView { found: Seq::empty(), ..collector },
            ..p
        };
        let held = PollView {
            batches: seq![BatchView { number: 0, items }],
            at: 0,
            item: 0,
            ..after
        };
        if items.len() > 0 {
            if s.fight_night_initialized {
                lemma_offer_knows(held, s, origin);
            } else {
                let t = fight_nights_found(after, s, collector.found).1;
                if !p.settings.include_existing {
                    assert forall|b: int, i: int|
                        #![trigger held.batches[b].items[i]]
                        0 <= b < held.batches.len() && 0 <= i
                            < held.batches[b].items.len() implies t.handled(
                        held.batches[b].items[i],
                    ) by {
                        law_first_fight_night_check(after, s, collector.found, i);
                    }
                }
            }
        }
    }
}

/// Whatever happens, a check knows of first checks.
proof fn lemma_event_knows(p: PollView, s: FollowView, origin: FollowView, event: EventView)
    requires
        valid_poll(p),
        knows_first_checks(p, s, origin),
    ensures
        knows_first_checks(poll_step(p, s, event).0, poll_step(p, s, event).1, origin),
{
    match (p.step, event) {
        (Step::Searching, EventView::Page(page)) => {
            lemma_page_knows(p, s, origin, page);
        },
        (Step::Collecting, EventView::Page(page)) => {
            lemma_collected_knows(p, s, origin, page);
        },
        (Step::FirstSaved, EventView::Saved) => {
            if is_numbered(p.section) {
                lemma_next_section_knows(p, s, origin);
            } else {
                lemma_offer_knows(p, s, origin);
            }
        },
        (Step::BatchSaved, EventView::Saved) => {
            lemma_offer_knows(PollView { item: 0, ..p }, s, origin);
        },
        _ => {
            if holds_replay(p.step) {
                lemma_offer_knows(PollView { item: p.item + 1, ..p }, s, origin);
                if all_handled(p.batches, s) {
                    assert(s.handled(p.batches[p.at].items[p.item]));
                }
            }
        },
    }
}

/// Every check knows of first checks.
pub proof fn lemma_run_knows(settings: Settings, s: FollowView, moments: Seq<Moment>)
    ensures
        knows_first_checks(run(settings, s, moments).0, run(settings, s, moments).1, s),
    decreases moments.len(),
{
    if moments.len() > 0 {
        let front = moments.drop_last();
        lemma_run_knows(settings, s, front);
        law_run_valid(settings, s, front);
        let (p, so_far) = run(settings, s, front);
        lemma_marks_keep_knowledge(p, so_far, s, moments.last().completed);
        lemma_event_knows(p, state_at(so_far, moments.last()), s, moments.last().event);
    }
}

/// Where existing recordings are not wanted, the first check of a section fetches and downloads
/// nothing: a replay goes past the configuration only in a section that had its first check
/// before.
pub proof fn law_first_check_downloads_nothing(
    settings: Settings,
    s: FollowView,
    moments: Seq<Moment>,
)
    requires
        !settings.include_existing,
        holds_replay(run(settings, s, moments).0.step),
        run(settings, s, moments).0.step != Step::Gate,
    ensures
        checked_before(settings, s, run(settings, s, moments).0.section),
{
    lemma_run_knows(settings, s, moments);
    law_run_valid(settings, s, moments);
    law_run_sound(settings, s, moments);
}

} // verus!
