//! What becomes of what a check finds: everything that is found is taken up, handled, or kept back
//! for a reason.

use crate::collect::{
    collect_step, law_collection_stays_valid, law_unseen_replays, lemma_unseen_seen, replay_ids,
    valid_collection, with_unseen, CollectorView,
};
use crate::config::Settings;
use crate::course::{
    action_of, after_collected, after_page, current, holds_replay, is_numbered, is_outdated,
    lemma_next_wanted, next_section, next_wanted, offer, pass_on, poll_step, series_number,
    take_batch, valid_poll, ActionView, BatchView, EventView, PollView, Section, Step,
};
use crate::coverage::{check_at, cut_short, cuts, lemma_asks_grow, lemma_start_section, rank};
use crate::ending::law_check_ends;
use crate::guarantees::{
    law_handled_stays_handled, law_run_valid, lemma_baselined, lemma_step_before, run, state_at,
    Moment,
};
use crate::ordering::{in_order, law_sort_keeps_items};
use crate::published::{carries_date, published_after};
use crate::search::{
    candidate_of, candidates_of, is_replay, law_candidates, lemma_candidate_among, newer,
    newer_or_higher, search_step, PageView, SearchStep, SearchView, Series,
};
use crate::span::{law_run_searches_all, searches_all};
use crate::state::{FollowView, ReplayView};
use crate::text::before;
use crate::titles::fight_night_key_of;
use crate::watermark::{lemma_event_watermark, lemma_start_is_left, past_gate};
use vstd::prelude::*;

verus! {

/// What has become of a recording: its manifest was fetched, it is handled, or it is kept back: a
/// UFC event by the watermark, a Fight Night by its age, where it is not of the event whose older
/// segments are wanted.
pub open spec fn is_settled(
    settings: Settings,
    t: FollowView,
    fetched: Set<u64>,
    section: Section,
    replay: ReplayView,
) -> bool {
    ||| fetched.contains(replay.id)
    ||| t.handled_ids.contains(replay.id)
    ||| t.handled_titles.contains(replay.title)
    ||| section == Section::Ufc && !settings.include_existing && t.ufc_baseline_ts.len() > 0 && !(
    carries_date(replay.published) && published_after(replay.published, t.ufc_baseline_ts))
    ||| section == Section::FightNight && t.fight_night_baseline.len() > 0 && before(
        replay.published,
        t.fight_night_baseline,
    ) && fight_night_key_of(replay.title) != Some(t.fight_night_latest_event)
}

/// A replay stands in a batch.
spec fn stands_at(p: PollView, replay: ReplayView, b: int, i: int) -> bool {
    0 <= b < p.batches.len() && 0 <= i < p.batches[b].items.len() && p.batches[b].items[i] == replay
}

/// A replay stands in a batch at or behind a place; of a section without numbers in the batch
/// itself.
spec fn stands_behind(p: PollView, replay: ReplayView, at: int, item: int) -> bool {
    exists|b: int, i: int| #[trigger]
        stands_at(p, replay, b, i) && (b == at && i >= item || b > at && is_numbered(p.section))
}

/// The check still holds a replay, to come to it later.
spec fn still_held(p: PollView, replay: ReplayView) -> bool {
    match p.step {
        Step::Searching => p.search.found.contains(replay) || (is_numbered(p.section)
            && stands_behind(p, replay, 0, 0)),
        Step::Collecting => p.collector.found.contains(replay),
        Step::FirstSaved => !is_numbered(p.section) && stands_behind(p, replay, 0, 0),
        Step::BatchSaved => stands_behind(p, replay, p.at, 0),
        _ => holds_replay(p.step) && stands_behind(p, replay, p.at, p.item),
    }
}

/// A recording that a section found is settled, or it is still held while the check is in the
/// section; while the section is searched it is held.
spec fn accounted_for(
    p: PollView,
    t: FollowView,
    fetched: Set<u64>,
    section: Section,
    replay: ReplayView,
) -> bool {
    if p.step == Step::Done || section != p.section {
        is_settled(p.settings, t, fetched, section, replay)
    } else if p.step == Step::Searching || p.step == Step::Collecting {
        still_held(p, replay)
    } else {
        still_held(p, replay) || is_settled(p.settings, t, fetched, section, replay)
    }
}

/// The steps before anything was searched for.
spec fn before_search(step: Step) -> bool {
    step == Step::Start || step == Step::Clock || step == Step::WatermarkSaved
}

/// The manifest of the replay that is past the configuration was fetched, and the place of a check
/// that has just sorted what it found is the first.
spec fn in_place(p: PollView, fetched: Set<u64>) -> bool {
    &&& past_gate(p.step) ==> fetched.contains(current(p).id)
    &&& p.step == Step::FirstSaved && !is_numbered(p.section) ==> p.at == 0 && p.item == 0
    &&& !is_numbered(p.section) && holds_replay(p.step) ==> p.at == 0
}

/// What the wanted replay comes behind is passed over.
proof fn lemma_passed_over(
    section: Section,
    items: Seq<ReplayView>,
    from: int,
    t: FollowView,
    i: int,
)
    requires
        0 <= from <= i < next_wanted(section, items, from, t),
    ensures
        section == Section::FightNight,
        i < items.len(),
        is_outdated(items[i], t),
    decreases items.len() - from,
{
    if i > from {
        lemma_passed_over(section, items, from + 1, t, i);
    }
}

/// Going on to another section or to the end keeps what is settled: it changes nothing that settled
/// recordings rest on.
proof fn lemma_settled_stays(
    settings: Settings,
    t: FollowView,
    u: FollowView,
    fetched: Set<u64>,
    more: Set<u64>,
    section: Section,
    replay: ReplayView,
)
    requires
        is_settled(settings, t, fetched, section, replay),
        t.handled_within(u),
        fetched.subset_of(more),
        section == Section::Ufc ==> u.ufc_baseline_ts == t.ufc_baseline_ts,
        section == Section::FightNight ==> u.fight_night_baseline == t.fight_night_baseline
            && u.fight_night_latest_event == t.fight_night_latest_event,
    ensures
        is_settled(settings, u, more, section, replay),
{
}

/// To go on to the next section changes of the state only the highest number of the BJJ events.
proof fn lemma_next_section_state(p: PollView, t: FollowView)
    ensures
        next_section(p, t).1 == (FollowView {
            highest_bjj_number: next_section(p, t).1.highest_bjj_number,
            ..t
        }),
        next_section(p, t).0.step == Step::Done || next_section(p, t).0.section != p.section,
        next_section(p, t).0.settings == p.settings,
        !before_search(next_section(p, t).0.step),
        in_place(next_section(p, t).0, Set::empty()),
        next_section(p, t).0.step == Step::Done || next_section(p, t).0.step == Step::Searching
            || next_section(p, t).0.step == Step::Collecting,
{
}

/// To take up a batch, or go on behind the last, keeps account of a replay that stands in it or
/// behind.
proof fn lemma_batch_accounts(
    p: PollView,
    t: FollowView,
    fetched: Set<u64>,
    replay: ReplayView,
)
    requires
        is_numbered(p.section),
        stands_behind(p, replay, p.at, 0),
        0 <= p.at,
    ensures
        accounted_for(take_batch(p, t).0, take_batch(p, t).1, fetched, p.section, replay),
{
    let (b, i) = choose|b: int, i: int| #[trigger]
        stands_at(p, replay, b, i) && (b == p.at && i >= 0 || b > p.at && is_numbered(p.section));
    let q = take_batch(p, t).0;
    assert(stands_at(q, replay, b, i));
}

/// To go on with a batch keeps account of a replay that stands in it, or behind, where the check
/// goes on.
proof fn lemma_offer_accounts(p: PollView, t: FollowView, fetched: Set<u64>, replay: ReplayView)
    requires
        0 <= p.at < p.batches.len(),
        0 <= p.item,
        stands_behind(p, replay, p.at, p.item),
    ensures
        accounted_for(offer(p, t).0, offer(p, t).1, fetched, p.section, replay),
{
    let items = p.batches[p.at].items;
    let item = next_wanted(p.section, items, p.item, t);
    let (b, i) = choose|b: int, i: int| #[trigger]
        stands_at(p, replay, b, i) && (b == p.at && i >= p.item || b > p.at && is_numbered(
            p.section,
        ));
    let (q, u) = offer(p, t);
    lemma_next_wanted(p.section, items, p.item, t);
    if b == p.at && i < item {
        lemma_passed_over(p.section, items, p.item, t, i);
        if item >= items.len() {
            lemma_next_section_state(PollView { item, ..p }, t);
        }
        assert(is_settled(p.settings, u, fetched, p.section, replay));
    } else if item < items.len() {
        assert(stands_at(q, replay, b, i));
    } else {
        let next = PollView { at: p.at + 1, item, ..p };
        assert(stands_at(next, replay, b, i));
        lemma_batch_accounts(next, t, fetched, replay);
    }
}

/// To go on with a batch keeps account of what is settled.
proof fn lemma_offer_settled(
    p: PollView,
    t: FollowView,
    fetched: Set<u64>,
    section: Section,
    replay: ReplayView,
)
    requires
        is_settled(p.settings, t, fetched, section, replay),
        holds_replay(p.step) || p.step == Step::BatchSaved || p.step == Step::FirstSaved
            || p.step == Step::Searching || p.step == Step::Collecting,
        rank(section) <= rank(p.section),
    ensures
        accounted_for(offer(p, t).0, offer(p, t).1, fetched, section, replay),
{
    let items = p.batches[p.at].items;
    let item = next_wanted(p.section, items, p.item, t);
    lemma_next_section_state(PollView { at: p.at + 1, item, ..p }, t);
    lemma_next_section_state(PollView { item, ..p }, t);
    let (q, u) = offer(p, t);
    assert(t.handled_within(u));
    lemma_settled_stays(p.settings, t, u, fetched, fetched, section, replay);
    lemma_forward(PollView { at: p.at + 1, item, ..p }, t);
    lemma_forward(PollView { item, ..p }, t);
}

/// The next section comes behind.
proof fn lemma_forward(p: PollView, t: FollowView)
    ensures
        next_section(p, t).0.step == Step::Done || rank(next_section(p, t).0.section) > rank(
            p.section,
        ),
{
}

/// A replay that is held at or behind the place of a check is the one that is taken up or stands
/// behind it.
proof fn lemma_current_or_behind(p: PollView, replay: ReplayView)
    requires
        stands_behind(p, replay, p.at, p.item),
    ensures
        replay == current(p) || stands_behind(
            PollView { item: p.item + 1, ..p },
            replay,
            p.at,
            p.item + 1,
        ),
{
    let (b, i) = choose|b: int, i: int| #[trigger]
        stands_at(p, replay, b, i) && (b == p.at && i >= p.item || b > p.at && is_numbered(
            p.section,
        ));
    if !(b == p.at && i == p.item) {
        assert(stands_at(PollView { item: p.item + 1, ..p }, replay, b, i));
    }
}

/// To pass on the replay that is taken up keeps account of a replay that is held or settled, where
/// the one that is taken up is settled.
proof fn lemma_pass_on_accounts(
    p: PollView,
    t: FollowView,
    fetched: Set<u64>,
    section: Section,
    replay: ReplayView,
)
    requires
        valid_poll(p),
        holds_replay(p.step),
        section == p.section,
        accounted_for(p, t, fetched, section, replay),
        is_settled(p.settings, t, fetched, section, current(p)),
    ensures
        accounted_for(pass_on(p, t).0, pass_on(p, t).1, fetched, section, replay),
{
    let next = PollView { item: p.item + 1, ..p };
    if is_settled(p.settings, t, fetched, section, replay) {
        lemma_offer_settled(next, t, fetched, section, replay);
    } else {
        lemma_current_or_behind(p, replay);
        lemma_offer_accounts(next, t, fetched, replay);
    }
}

/// A step that stays with the replay that is taken up keeps account.
proof fn lemma_stay_accounts(
    p: PollView,
    q: PollView,
    t: FollowView,
    u: FollowView,
    fetched: Set<u64>,
    more: Set<u64>,
    section: Section,
    replay: ReplayView,
)
    requires
        holds_replay(p.step),
        holds_replay(q.step),
        q.batches == p.batches && q.at == p.at && q.item == p.item && q.section == p.section
            && q.settings == p.settings,
        section == p.section,
        accounted_for(p, t, fetched, section, replay),
        t.handled_within(u),
        u.ufc_baseline_ts == t.ufc_baseline_ts,
        u.fight_night_baseline == t.fight_night_baseline,
        u.fight_night_latest_event == t.fight_night_latest_event,
        fetched.subset_of(more),
    ensures
        accounted_for(q, u, more, section, replay),
{
    if is_settled(p.settings, t, fetched, section, replay) {
        lemma_settled_stays(p.settings, t, u, fetched, more, section, replay);
    } else {
        let (b, i) = choose|b: int, i: int| #[trigger]
            stands_at(p, replay, b, i) && (b == p.at && i >= p.item || b > p.at && is_numbered(
                p.section,
            ));
        assert(stands_at(q, replay, b, i));
    }
}

/// A replay of a list stands in the list when it is sorted.
proof fn lemma_sorted_holds(
    items: Seq<ReplayView>,
    ahead: spec_fn(ReplayView, ReplayView) -> bool,
    replay: ReplayView,
)
    requires
        items.contains(replay),
    ensures
        in_order(items, ahead).contains(replay),
{
    broadcast use vstd::seq_lib::group_to_multiset_ensures;

    law_sort_keeps_items(items, ahead);
    assert(items.to_multiset().count(replay) > 0);
}

/// A list that is held as the only batch holds its replays from the first on.
proof fn lemma_held_from_the_first(p: PollView, items: Seq<ReplayView>, replay: ReplayView)
    requires
        p.batches == seq![BatchView { number: 0, items }],
        items.contains(replay),
    ensures
        stands_behind(p, replay, 0, 0),
{
    let i = choose|i: int| 0 <= i < items.len() && items[i] == replay;
    assert(stands_at(p, replay, 0, i));
}

/// A check that searches keeps account of what it holds, and of what a page adds.
#[verifier::spinoff_prover]
proof fn lemma_page_accounts(
    p: PollView,
    t: FollowView,
    fetched: Set<u64>,
    page: PageView,
    replay: ReplayView,
)
    requires
        valid_poll(p),
        p.step == Step::Searching,
        !(after_page(p, t, page).0.step is Failed),
        still_held(p, replay) || (page.hits is Some && candidates_of(
            page.hits->0,
            p.search.series,
        ).contains(replay)),
    ensures
        accounted_for(
            after_page(p, t, page).0,
            after_page(p, t, page).1,
            fetched,
            p.section,
            replay,
        ),
{
    let (search, step) = search_step(p.search, page);
    let more = candidates_of(page.hits->0, p.search.series);
    let found = p.search.found + more;
    let number = series_number(search.series);
    let after = PollView { search: SearchView { found: Seq::empty(), ..search }, ..p };
    let q = after_page(p, t, page).0;
    let in_batches = is_numbered(p.section) && stands_behind(p, replay, 0, 0);
    assert(in_batches || found.contains(replay)) by {
        if p.search.found.contains(replay) {
            let i = choose|i: int| 0 <= i < p.search.found.len() && p.search.found[i] == replay;
            assert(found[i] == replay);
        } else if more.contains(replay) {
            let i = choose|i: int| 0 <= i < more.len() && more[i] == replay;
            assert(found[p.search.found.len() + i] == replay);
        }
    }
    assert(search.found == found);
    if step == SearchStep::NextPage {
        if in_batches {
            let (b, i) = choose|b: int, i: int| #[trigger]
                stands_at(p, replay, b, i) && (b == 0 && i >= 0 || b > 0 && is_numbered(p.section));
            assert(stands_at(q, replay, b, i));
        }
    } else if p.section == Section::Contender {
        let items = in_order(found, newer());
        lemma_sorted_holds(found, newer(), replay);
        let held = PollView {
            batches: seq![BatchView { number: 0, items }],
            at: 0,
            item: 0,
            ..after
        };
        lemma_held_from_the_first(held, items, replay);
        if t.contender_initialized {
            lemma_offer_accounts(held, t, fetched, replay);
        } else {
            lemma_held_from_the_first(q, items, replay);
        }
    } else {
        let batch = BatchView { number, items: found };
        let batches = p.batches.push(batch);
        let all = PollView { batches, ..after };
        assert(all.batches.drop_last() =~= p.batches);
        let (b, i) = lemma_in_batches(p, all, found, replay);
        if number < p.last {
            assert(stands_at(q, replay, b, i));
            assert(stands_behind(q, replay, 0, 0));
        } else if p.first && !p.settings.include_existing {
            lemma_baselined(t, p.section, batches);
            assert(batches[b].items[i] == replay);
            let u = after_page(p, t, page).1;
            assert(u.handled(replay));
        } else {
            let start = PollView { at: 0, ..all };
            assert(stands_at(start, replay, b, i));
            lemma_batch_accounts(start, t, fetched, replay);
        }
    }
}

/// Where a replay stands once a search is complete: in a batch of before or in the new one.
proof fn lemma_in_batches(
    p: PollView,
    all: PollView,
    found: Seq<ReplayView>,
    replay: ReplayView,
) -> (place: (int, int))
    requires
        all.batches.len() == p.batches.len() + 1,
        all.batches.drop_last() == p.batches,
        all.batches.last().items == found,
        stands_behind(p, replay, 0, 0) || found.contains(replay),
    ensures
        stands_at(all, replay, place.0, place.1),
{
    if found.contains(replay) {
        let i = choose|i: int| 0 <= i < found.len() && found[i] == replay;
        let last = p.batches.len() as int;
        assert(all.batches[last].items[i] == replay);
        (last, i)
    } else {
        let (b, i) = choose|b: int, i: int| #[trigger]
            stands_at(p, replay, b, i) && (b == 0 && i >= 0 || b > 0 && is_numbered(p.section));
        assert(all.batches.drop_last()[b] == all.batches[b]);
        (b, i)
    }
}

/// A check that collects Fight Nights keeps account of what it holds, and of what it finds with an
/// answer.
#[verifier::spinoff_prover]
proof fn lemma_collected_accounts(
    p: PollView,
    t: FollowView,
    fetched: Set<u64>,
    page: PageView,
    replay: ReplayView,
)
    requires
        valid_poll(p),
        p.step == Step::Collecting,
        !(after_collected(p, t, page).0.step is Failed),
        collect_step(p.collector, page).0.found.contains(replay),
    ensures
        accounted_for(
            after_collected(p, t, page).0,
            after_collected(p, t, page).1,
            fetched,
            p.section,
            replay,
        ),
{
    let (collector, step) = collect_step(p.collector, page);
    let (q, u) = after_collected(p, t, page);
    if step == SearchStep::Complete {
        let items = in_order(collector.found, newer_or_higher());
        lemma_sorted_holds(collector.found, newer_or_higher(), replay);
        let held = PollView {
            collector: CollectorView { found: Seq::empty(), ..collector },
            batches: seq![BatchView { number: 0, items }],
            at: 0,
            item: 0,
            ..p
        };
        lemma_held_from_the_first(held, items, replay);
        if t.fight_night_initialized {
            lemma_offer_accounts(held, t, fetched, replay);
        } else {
            lemma_held_from_the_first(q, items, replay);
        }
    }
}

/// A collection loses none of what it has found.
proof fn lemma_collector_keeps(c: CollectorView, page: PageView, replay: ReplayView)
    requires
        c.found.contains(replay),
    ensures
        collect_step(c, page).0.found.contains(replay),
{
    if let Some(hits) = page.hits {
        if c.phase is Deep {
            let more = candidates_of(hits, Series::FightNight);
            lemma_unseen_seen(c.found, c.seen, more);
            let found = with_unseen(c.found, c.seen, more).0;
            let i = choose|i: int| 0 <= i < c.found.len() && c.found[i] == replay;
            assert(found.take(c.found.len() as int)[i] == replay);
            assert(found[i] == replay);
        }
    }
}

/// Whatever happens, a check that is not cut short and does not fail keeps account of what it has
/// found.
#[verifier::spinoff_prover]
proof fn lemma_event_accounts(
    p: PollView,
    t: FollowView,
    fetched: Set<u64>,
    more: Set<u64>,
    event: EventView,
    section: Section,
    replay: ReplayView,
)
    requires
        valid_poll(p),
        searches_all(p),
        in_place(p, fetched),
        !before_search(p.step),
        rank(section) <= rank(p.section),
        accounted_for(p, t, fetched, section, replay),
        fetched.subset_of(more),
        !cuts(p, event),
        !(poll_step(p, t, event).0.step is Failed),
    ensures
        accounted_for(
            poll_step(p, t, event).0,
            poll_step(p, t, event).1,
            more,
            section,
            replay,
        ),
{
    let (q, u) = poll_step(p, t, event);
    law_handled_stays_handled(p, t, event);
    lemma_event_watermark(p, t, event);
    if p.step == Step::Done {
        lemma_settled_stays(p.settings, t, u, fetched, more, section, replay);
    } else if section != p.section {
        law_check_ends(p, t, event);
        lemma_settled_stays(p.settings, t, u, fetched, more, section, replay);
        assert(q.settings == p.settings);
    } else {
        match (p.step, event) {
            (Step::Searching, EventView::Page(page)) => {
                lemma_page_accounts(p, t, more, page, replay);
            },
            (Step::Collecting, EventView::Page(page)) => {
                lemma_collector_keeps(p.collector, page, replay);
                lemma_collected_accounts(p, t, more, page, replay);
            },
            _ => {
                lemma_held_accounts(p, t, fetched, more, event, section, replay);
            },
        }
    }
}

/// A check that has found what it searched for keeps account of it.
#[verifier::spinoff_prover]
proof fn lemma_held_accounts(
    p: PollView,
    t: FollowView,
    fetched: Set<u64>,
    more: Set<u64>,
    event: EventView,
    section: Section,
    replay: ReplayView,
)
    requires
        valid_poll(p),
        in_place(p, fetched),
        p.step == Step::FirstSaved || p.step == Step::BatchSaved || holds_replay(p.step) || !(event
            is Page),
        p.step != Step::Done,
        !before_search(p.step),
        section == p.section,
        accounted_for(p, t, fetched, section, replay),
        fetched.subset_of(more),
        !cuts(p, event),
        !(poll_step(p, t, event).0.step is Failed),
    ensures
        accounted_for(
            poll_step(p, t, event).0,
            poll_step(p, t, event).1,
            more,
            section,
            replay,
        ),
{
    let (q, u) = poll_step(p, t, event);
    if is_settled(p.settings, t, fetched, section, replay) {
        lemma_settled_stays(p.settings, t, t, fetched, more, section, replay);
    }
    assert(accounted_for(p, t, more, section, replay));
    match (p.step, event) {
        (Step::FirstSaved, EventView::Saved) => {
            if is_numbered(p.section) {
                lemma_next_section_state(p, t);
                lemma_settled_stays(p.settings, t, u, more, more, section, replay);
            } else if is_settled(p.settings, t, more, section, replay) {
                lemma_offer_settled(p, t, more, section, replay);
            } else {
                lemma_offer_accounts(p, t, more, replay);
            }
        },
        (Step::BatchSaved, EventView::Saved) => {
            let start = PollView { item: 0, ..p };
            if is_settled(p.settings, t, more, section, replay) {
                lemma_offer_settled(start, t, more, section, replay);
            } else {
                let (b, i) = choose|b: int, i: int| #[trigger]
                    stands_at(p, replay, b, i) && (b == p.at && i >= 0 || b > p.at && is_numbered(
                        p.section,
                    ));
                assert(stands_at(start, replay, b, i));
                lemma_offer_accounts(start, t, more, replay);
            }
        },
        _ => {
            if holds_replay(p.step) {
                law_handled_stays_handled(p, t, event);
                if holds_replay(q.step) && q == (PollView { step: q.step, title: q.title, ..p }) {
                    lemma_stay_accounts(p, q, t, u, more, more, section, replay);
                } else {
                    lemma_pass_on_accounts(p, t, more, section, replay);
                }
            }
        },
    }
}

/// A page shows a complete recording of a series: one of its hits has the recording's name, number
/// and date, and a length of a complete one.
pub open spec fn shows(page: PageView, series: Series, replay: ReplayView) -> bool {
    page.hits is Some && exists|i: int|
        #![trigger page.hits->0[i]]
        {
            let hit = page.hits->0[i];
            &&& 0 <= i < page.hits->0.len()
            &&& hit.name == Some(replay.title)
            &&& hit.id == Some(replay.id)
            &&& hit.duration is Some
            &&& is_replay(series, replay.title, hit.duration->0)
            &&& hit.published is Some ==> replay.published == hit.published->0
            &&& hit.published is None ==> replay.published.len() == 0
        }
}

/// What a page shows are its candidates.
proof fn lemma_shows(page: PageView, series: Series, replay: ReplayView)
    requires
        page.hits is Some,
    ensures
        shows(page, series, replay) <==> candidates_of(page.hits->0, series).contains(replay),
{
    let hits = page.hits->0;
    lemma_candidate_among(hits, series, replay);
    assert forall|i: int|
        #![trigger hits[i]]
        0 <= i < hits.len() implies (candidate_of(hits[i], series) == Some(replay) <==> {
        &&& hits[i].name == Some(replay.title)
        &&& hits[i].id == Some(replay.id)
        &&& hits[i].duration is Some
        &&& is_replay(series, replay.title, hits[i].duration->0)
        &&& hits[i].published is Some ==> replay.published == hits[i].published->0
        &&& hits[i].published is None ==> replay.published.len() == 0
    }) by {
        law_candidates(hits[i], series, replay);
    }
}

/// An event shows a check a complete recording of its section: a page of the search that is under
/// way, or of a search in depth for Fight Nights.
pub open spec fn shown(
    p: PollView,
    event: EventView,
    section: Section,
    replay: ReplayView,
) -> bool {
    &&& p.section == section
    &&& event matches EventView::Page(page) && {
        ||| p.step == Step::Searching && shows(page, p.search.series, replay)
        ||| p.step == Step::Collecting && p.collector.phase is Deep && shows(
            page,
            Series::FightNight,
            replay,
        )
    }
}

/// A run was shown a complete recording of a section at one of its moments.
pub open spec fn was_shown(
    settings: Settings,
    s: FollowView,
    moments: Seq<Moment>,
    section: Section,
    replay: ReplayView,
) -> bool {
    exists|k: int|
        0 <= k < moments.len() && shown(
            #[trigger] check_at(settings, s, moments, k),
            moments[k].event,
            section,
            replay,
        )
}

/// A run wanted the manifest of a recording at one of its moments.
pub open spec fn has_fetched(
    settings: Settings,
    s: FollowView,
    moments: Seq<Moment>,
    id: u64,
) -> bool {
    exists|k: int|
        0 <= k <= moments.len() && action_of(#[trigger] check_at(settings, s, moments, k)) == (
        ActionView::FetchManifest { id })
}

/// The recordings whose manifests a run wanted.
pub open spec fn fetched_by(settings: Settings, s: FollowView, moments: Seq<Moment>) -> Set<u64> {
    Set::new(|id: u64| has_fetched(settings, s, moments, id))
}

/// One recording stands for another that was shown: it is the same; among Fight Nights it may be
/// another with the same number.
pub open spec fn stands_for_shown(section: Section, replay: ReplayView, other: ReplayView) -> bool {
    other.id == replay.id && (section != Section::FightNight ==> other == replay)
}

/// What a run that is not cut short keeps account of.
spec fn keeps_account(settings: Settings, s: FollowView, moments: Seq<Moment>) -> bool {
    let (p, t) = run(settings, s, moments);
    let fetched = fetched_by(settings, s, moments);
    &&& in_place(p, fetched)
    &&& forall|section: Section, replay: ReplayView| #[trigger]
        was_shown(settings, s, moments, section, replay) ==> {
            &&& !before_search(p.step)
            &&& rank(section) <= rank(p.section)
            &&& exists|other: ReplayView|
                stands_for_shown(section, replay, other) && #[trigger] was_shown(
                    settings,
                    s,
                    moments,
                    section,
                    other,
                ) && accounted_for(p, t, fetched, section, other)
        }
    &&& p.step == Step::Collecting ==> forall|i: int|
        0 <= i < p.collector.found.len() ==> was_shown(
            settings,
            s,
            moments,
            Section::FightNight,
            #[trigger] p.collector.found[i],
        )
}

/// The sections never go back.
proof fn lemma_rank_grows(p: PollView, t: FollowView, event: EventView)
    requires
        valid_poll(p),
        p.step == Step::Start ==> p.section == Section::Ufc,
    ensures
        rank(p.section) <= rank(poll_step(p, t, event).0.section),
{
}

/// A check stays in its place.
#[verifier::spinoff_prover]
proof fn lemma_event_in_place(
    p: PollView,
    t: FollowView,
    fetched: Set<u64>,
    more: Set<u64>,
    event: EventView,
)
    requires
        valid_poll(p),
        in_place(p, fetched),
        fetched.subset_of(more),
        action_of(poll_step(p, t, event).0) matches ActionView::FetchManifest { id }
            ==> more.contains(id),
    ensures
        in_place(poll_step(p, t, event).0, more),
{
    let q = poll_step(p, t, event).0;
    lemma_step_before(p, t, event);
    if past_gate(q.step) {
        assert(current(q) == current(p));
    }
}

/// A moment at the end of a run changes nothing of the moments before.
proof fn lemma_check_at(settings: Settings, s: FollowView, moments: Seq<Moment>, k: int)
    requires
        0 <= k < moments.len(),
    ensures
        check_at(settings, s, moments, k) == check_at(settings, s, moments.drop_last(), k),
        k == moments.len() - 1 ==> check_at(settings, s, moments, k) == run(
            settings,
            s,
            moments.drop_last(),
        ).0,
{
    let front = moments.drop_last();
    assert(moments.take(k) =~= front.take(k));
    assert(front.take(front.len() as int) =~= front);
}

/// What was fetched before a moment was fetched after it, too, and what the check then wants to.
proof fn lemma_fetched_grows(settings: Settings, s: FollowView, moments: Seq<Moment>)
    requires
        moments.len() > 0,
    ensures
        fetched_by(settings, s, moments.drop_last()).subset_of(fetched_by(settings, s, moments)),
        action_of(run(settings, s, moments).0) matches ActionView::FetchManifest { id }
            ==> fetched_by(settings, s, moments).contains(id),
{
    let front = moments.drop_last();
    let n = moments.len() as int;
    assert forall|id: u64| #[trigger]
        fetched_by(settings, s, front).contains(id) implies fetched_by(
        settings,
        s,
        moments,
    ).contains(id) by {
        let k = choose|k: int|
            0 <= k <= front.len() && action_of(#[trigger] check_at(settings, s, front, k)) == (
            ActionView::FetchManifest { id });
        lemma_check_at(settings, s, moments, k);
        assert(check_at(settings, s, moments, k) == check_at(settings, s, front, k));
    }
    assert(moments.take(n) =~= moments);
    let last = check_at(settings, s, moments, n);
    assert(last == run(settings, s, moments).0);
    if let ActionView::FetchManifest { id } = action_of(last) {
        assert(has_fetched(settings, s, moments, id));
    }
}

/// What was shown up to a moment was shown before it or is shown by it.
proof fn lemma_shown_before_or_now(
    settings: Settings,
    s: FollowView,
    moments: Seq<Moment>,
    section: Section,
    replay: ReplayView,
)
    requires
        moments.len() > 0,
        was_shown(settings, s, moments, section, replay),
    ensures
        was_shown(settings, s, moments.drop_last(), section, replay) || shown(
            run(settings, s, moments.drop_last()).0,
            moments.last().event,
            section,
            replay,
        ),
{
    let front = moments.drop_last();
    let k = choose|k: int|
        0 <= k < moments.len() && shown(
            #[trigger] check_at(settings, s, moments, k),
            moments[k].event,
            section,
            replay,
        );
    lemma_check_at(settings, s, moments, k);
    if k < front.len() {
        assert(front[k] == moments[k]);
        let p = check_at(settings, s, front, k);
        assert(shown(p, front[k].event, section, replay));
    }
}

/// What was shown before a moment, or is shown by it, was shown.
proof fn lemma_shown_stays(
    settings: Settings,
    s: FollowView,
    moments: Seq<Moment>,
    section: Section,
    replay: ReplayView,
)
    requires
        moments.len() > 0,
        was_shown(settings, s, moments.drop_last(), section, replay) || shown(
            run(settings, s, moments.drop_last()).0,
            moments.last().event,
            section,
            replay,
        ),
    ensures
        was_shown(settings, s, moments, section, replay),
{
    let front = moments.drop_last();
    if was_shown(settings, s, front, section, replay) {
        let k = choose|k: int|
            0 <= k < front.len() && shown(
                #[trigger] check_at(settings, s, front, k),
                front[k].event,
                section,
                replay,
            );
        lemma_check_at(settings, s, moments, k);
        let p = check_at(settings, s, moments, k);
        assert(front[k] == moments[k]);
        assert(shown(p, moments[k].event, section, replay));
    } else {
        let k = moments.len() - 1;
        lemma_check_at(settings, s, moments, k);
        let p = check_at(settings, s, moments, k);
        assert(shown(p, moments[k].event, section, replay));
    }
}

/// What an answer shows to a collection in depth, the collection then holds, or another of the same
/// number.
proof fn lemma_deep_holds(c: CollectorView, page: PageView, replay: ReplayView) -> (other:
    ReplayView)
    requires
        valid_collection(c),
        c.phase is Deep,
        page.hits is Some,
        candidates_of(page.hits->0, Series::FightNight).contains(replay),
    ensures
        other.id == replay.id,
        collect_step(c, page).0.found.contains(other),
{
    let more = candidates_of(page.hits->0, Series::FightNight);
    let after = collect_step(c, page).0;
    law_collection_stays_valid(c, page);
    let i = choose|i: int| 0 <= i < more.len() && more[i] == replay;
    law_unseen_replays(c.found, c.seen, more, i);
    assert(after.seen.contains(replay.id));
    let ids = replay_ids(after.found);
    assert(ids.to_set().contains(replay.id));
    let k = choose|k: int| 0 <= k < ids.len() && ids[k] == replay.id;
    assert(after.found[k].id == replay.id);
    after.found[k]
}

/// What a collection has found after an answer it had found before or the answer has shown.
proof fn lemma_found_was_shown(c: CollectorView, page: PageView, i: int)
    requires
        0 <= i < collect_step(c, page).0.found.len(),
    ensures
        c.found.contains(collect_step(c, page).0.found[i]) || (c.phase is Deep && page.hits is Some
            && candidates_of(page.hits->0, Series::FightNight).contains(
            collect_step(c, page).0.found[i],
        )),
{
    let after = collect_step(c, page).0;
    if c.phase is Deep && page.hits is Some {
        let more = candidates_of(page.hits->0, Series::FightNight);
        lemma_unseen_seen(c.found, c.seen, more);
        if i < c.found.len() {
            assert(after.found.take(c.found.len() as int)[i] == after.found[i]);
            assert(c.found[i] == after.found[i]);
        }
    } else {
        assert(after.found == c.found);
        assert(c.found[i] == after.found[i]);
    }
}

/// No event brings a check back before its searches.
proof fn lemma_not_before_search(p: PollView, t: FollowView, event: EventView)
    requires
        !before_search(p.step),
    ensures
        !before_search(poll_step(p, t, event).0.step),
{
    lemma_event_watermark(p, t, event);
    lemma_start_is_left(p, t, event);
}

/// Downloads that complete take nothing out of account.
proof fn lemma_completions_account(
    p: PollView,
    t: FollowView,
    fetched: Set<u64>,
    completed: Seq<ReplayView>,
    section: Section,
    replay: ReplayView,
)
    requires
        accounted_for(p, t, fetched, section, replay),
    ensures
        accounted_for(p, t.mark_all(completed), fetched, section, replay),
{
    let u = t.mark_all(completed);
    if is_settled(p.settings, t, fetched, section, replay) {
        lemma_settled_stays(p.settings, t, u, fetched, fetched, section, replay);
    }
}

/// A recording that is accounted for at the end of a run stands for one that was shown.
spec fn has_account(
    settings: Settings,
    s: FollowView,
    moments: Seq<Moment>,
    section: Section,
    replay: ReplayView,
) -> bool {
    let (p, t) = run(settings, s, moments);
    exists|other: ReplayView|
        stands_for_shown(section, replay, other) && #[trigger] was_shown(
            settings,
            s,
            moments,
            section,
            other,
        ) && accounted_for(p, t, fetched_by(settings, s, moments), section, other)
}

/// What was shown before a moment is accounted for after it.
proof fn lemma_old_account(
    settings: Settings,
    s: FollowView,
    moments: Seq<Moment>,
    section: Section,
    replay: ReplayView,
)
    requires
        moments.len() > 0,
        has_account(settings, s, moments.drop_last(), section, replay),
        in_place(
            run(settings, s, moments.drop_last()).0,
            fetched_by(settings, s, moments.drop_last()),
        ),
        !before_search(run(settings, s, moments.drop_last()).0.step),
        rank(section) <= rank(run(settings, s, moments.drop_last()).0.section),
        !cut_short(settings, s, moments),
        !(run(settings, s, moments).0.step is Failed),
    ensures
        has_account(settings, s, moments, section, replay),
{
    let front = moments.drop_last();
    let (p, so_far) = run(settings, s, front);
    let fetched = fetched_by(settings, s, front);
    let more = fetched_by(settings, s, moments);
    let event = moments.last().event;
    let t = state_at(so_far, moments.last());
    let other = choose|other: ReplayView|
        stands_for_shown(section, replay, other) && #[trigger] was_shown(
            settings,
            s,
            front,
            section,
            other,
        ) && accounted_for(p, so_far, fetched, section, other);
    law_run_valid(settings, s, front);
    law_run_searches_all(settings, s, front);
    lemma_asks_grow(settings, s, moments);
    lemma_fetched_grows(settings, s, moments);
    lemma_completions_account(p, so_far, fetched, moments.last().completed, section, other);
    lemma_event_accounts(p, t, fetched, more, event, section, other);
    lemma_shown_stays(settings, s, moments, section, other);
}

/// What a moment shows is accounted for after it.
proof fn lemma_new_account(
    settings: Settings,
    s: FollowView,
    moments: Seq<Moment>,
    section: Section,
    replay: ReplayView,
)
    requires
        moments.len() > 0,
        shown(run(settings, s, moments.drop_last()).0, moments.last().event, section, replay),
        keeps_account(settings, s, moments.drop_last()),
        !(run(settings, s, moments).0.step is Failed),
    ensures
        has_account(settings, s, moments, section, replay),
{
    let front = moments.drop_last();
    let (p, so_far) = run(settings, s, front);
    let more = fetched_by(settings, s, moments);
    let t = state_at(so_far, moments.last());
    let page = moments.last().event->Page_0;
    law_run_valid(settings, s, front);
    if p.step == Step::Searching {
        lemma_shows(page, p.search.series, replay);
        lemma_page_accounts(p, t, more, page, replay);
        lemma_shown_stays(settings, s, moments, section, replay);
        assert(stands_for_shown(section, replay, replay));
    } else {
        lemma_shows(page, Series::FightNight, replay);
        let other = lemma_deep_holds(p.collector, page, replay);
        lemma_collected_accounts(p, t, more, page, other);
        let found = collect_step(p.collector, page).0.found;
        let i = choose|i: int| 0 <= i < found.len() && found[i] == other;
        lemma_found_was_shown(p.collector, page, i);
        if p.collector.found.contains(other) {
            let k = choose|k: int|
                0 <= k < p.collector.found.len() && p.collector.found[k] == other;
            assert(was_shown(settings, s, front, Section::FightNight, p.collector.found[k]));
        } else {
            lemma_shows(page, Series::FightNight, other);
            assert(shown(p, moments.last().event, section, other));
        }
        lemma_shown_stays(settings, s, moments, section, other);
        assert(stands_for_shown(section, replay, other));
    }
}

/// What a collection has found at a moment was shown.
proof fn lemma_collected_was_shown(settings: Settings, s: FollowView, moments: Seq<Moment>, i: int)
    requires
        moments.len() > 0,
        keeps_account(settings, s, moments.drop_last()),
        run(settings, s, moments).0.step == Step::Collecting,
        0 <= i < run(settings, s, moments).0.collector.found.len(),
    ensures
        was_shown(
            settings,
            s,
            moments,
            Section::FightNight,
            run(settings, s, moments).0.collector.found[i],
        ),
{
    let front = moments.drop_last();
    let (p, so_far) = run(settings, s, front);
    let q = run(settings, s, moments).0;
    let t = state_at(so_far, moments.last());
    let event = moments.last().event;
    law_run_valid(settings, s, front);
    lemma_collecting_before(p, t, event);
    let page = event->Page_0;
    let replay = q.collector.found[i];
    lemma_found_was_shown(p.collector, page, i);
    if p.collector.found.contains(replay) {
        let k = choose|k: int| 0 <= k < p.collector.found.len() && p.collector.found[k] == replay;
        assert(was_shown(settings, s, front, Section::FightNight, p.collector.found[k]));
    } else {
        lemma_shows(page, Series::FightNight, replay);
        assert(shown(p, event, Section::FightNight, replay));
    }
    lemma_shown_stays(settings, s, moments, Section::FightNight, replay);
}

/// A check that collects and has found something took in an answer before.
proof fn lemma_collecting_before(p: PollView, t: FollowView, event: EventView)
    requires
        valid_poll(p),
        poll_step(p, t, event).0.step == Step::Collecting,
        poll_step(p, t, event).0.collector.found.len() > 0,
    ensures
        p.step == Step::Collecting,
        event is Page,
        poll_step(p, t, event).0.collector == collect_step(p.collector, event->Page_0).0,
        p.section == Section::FightNight,
{
}

/// Every run that is not cut short and has not failed keeps account of what it was shown.
proof fn lemma_run_keeps_account(settings: Settings, s: FollowView, moments: Seq<Moment>)
    requires
        !cut_short(settings, s, moments),
        !(run(settings, s, moments).0.step is Failed),
    ensures
        keeps_account(settings, s, moments),
    decreases moments.len(),
{
    if moments.len() > 0 {
        let front = moments.drop_last();
        let (p, so_far) = run(settings, s, front);
        let t = state_at(so_far, moments.last());
        let event = moments.last().event;
        lemma_asks_grow(settings, s, moments);
        lemma_run_keeps_account(settings, s, front);
        law_run_valid(settings, s, front);
        lemma_start_section(settings, s, front);
        lemma_fetched_grows(settings, s, moments);
        lemma_event_in_place(
            p,
            t,
            fetched_by(settings, s, front),
            fetched_by(settings, s, moments),
            event,
        );
        lemma_rank_grows(p, t, event);
        let q = run(settings, s, moments).0;
        assert forall|section: Section, replay: ReplayView| #[trigger]
            was_shown(settings, s, moments, section, replay) implies !before_search(q.step) && rank(
            section,
        ) <= rank(q.section) && has_account(settings, s, moments, section, replay) by {
            lemma_shown_before_or_now(settings, s, moments, section, replay);
            if was_shown(settings, s, front, section, replay) {
                lemma_not_before_search(p, t, event);
                lemma_old_account(settings, s, moments, section, replay);
            } else {
                lemma_not_before_search(p, t, event);
                lemma_new_account(settings, s, moments, section, replay);
            }
        }
        if q.step == Step::Collecting {
            assert forall|i: int| 0 <= i < q.collector.found.len() implies was_shown(
                settings,
                s,
                moments,
                Section::FightNight,
                #[trigger] q.collector.found[i],
            ) by {
                lemma_collected_was_shown(settings, s, moments, i);
            }
        }
    }
}

/// Everything that a check finds is taken up, handled, or kept back for a reason: where a check
/// ends and was not cut short, by a download that was running or that it started or by a setting
/// that was withdrawn, then of every complete recording that an answer showed it the manifest was
/// fetched, or it is handled, or the watermark or its age keeps it back. Among Fight Nights this
/// holds of one of the recordings with its number.
pub proof fn law_everything_found_is_settled(
    settings: Settings,
    s: FollowView,
    moments: Seq<Moment>,
    section: Section,
    replay: ReplayView,
)
    requires
        action_of(run(settings, s, moments).0) == ActionView::Finish,
        !cut_short(settings, s, moments),
        was_shown(settings, s, moments, section, replay),
    ensures
        exists|other: ReplayView|
            stands_for_shown(section, replay, other) && #[trigger] was_shown(
                settings,
                s,
                moments,
                section,
                other,
            ) && is_settled(
                settings,
                run(settings, s, moments).1,
                fetched_by(settings, s, moments),
                section,
                other,
            ),
{
    law_run_valid(settings, s, moments);
    lemma_run_keeps_account(settings, s, moments);
    assert(has_account(settings, s, moments, section, replay));
}

} // verus!
