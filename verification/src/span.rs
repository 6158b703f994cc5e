//! How far a check reaches: the numbers that it searches for, and the age of what it offers.

use crate::collect::{collect_step, CollectorView};
use crate::config::Settings;
use crate::course::{
    action_of, baselined, current, highest_number, holds_replay, initialized_number, is_numbered,
    is_outdated, next_section, next_wanted, offer, poll_step, search_numbers, selection,
    series_number, series_of, valid_poll, ActionView, BatchView, EventView, PollView, Section, Step,
};
use crate::guarantees::{law_run_valid, run, state_at, Moment};
use crate::ordering::in_order;
use crate::search::{newer, newer_or_higher, search_step, SearchStep, SearchView};
use crate::state::{FollowView, ReplayView};
use vstd::prelude::*;

verus! {

/// The numbers that a check searches for reach from the selected one, or from two before the
/// highest one seen, to the one after the highest: at most four, and none before the selected one.
pub proof fn law_searched_numbers(p: PollView, s: FollowView)
    requires
        is_numbered(p.section),
    ensures
        ({
            let q = search_numbers(p, s).0;
            let selected = selection(p.settings, p.section);
            let seen = highest_number(s, p.section);
            let first = series_number(q.search.series);
            &&& q.search.series == series_of(p.section, first)
            &&& selected <= first <= q.last <= first + 3
            &&& first == selected || first == seen - 2
            &&& seen >= selected && seen < u16::MAX ==> q.last == seen + 1
            &&& seen < selected && selected < u16::MAX ==> q.last == selected + 1
        }),
{
}

/// The numbers of the batches follow each other without a gap, up to `last`.
pub open spec fn consecutive(batches: Seq<BatchView>, last: int) -> bool {
    forall|b: int|
        0 <= b < batches.len() ==> (#[trigger] batches[b]).number == last - (batches.len() - 1 - b)
}

/// A check searches for number after number, and takes up batches only once it has searched for
/// all of them.
pub open spec fn searches_all(p: PollView) -> bool {
    is_numbered(p.section) ==> {
        &&& p.step == Step::Searching ==> {
            let number = series_number(p.search.series);
            &&& p.search.series == series_of(p.section, number)
            &&& number <= p.last
            &&& consecutive(p.batches, number - 1)
        }
        &&& p.step == Step::FirstSaved || p.step == Step::BatchSaved || holds_replay(p.step)
            ==> p.batches.len() > 0 && consecutive(p.batches, p.last as int)
    }
}

/// A check that goes on to the next section searches for all numbers.
proof fn lemma_next_section_searches(p: PollView, s: FollowView)
    ensures
        searches_all(next_section(p, s).0),
{
}

/// A check that goes on with a batch has searched for all numbers.
proof fn lemma_offer_searches(p: PollView, s: FollowView)
    requires
        is_numbered(p.section) ==> p.batches.len() > 0 && consecutive(p.batches, p.last as int),
    ensures
        searches_all(offer(p, s).0),
{
    let items = p.batches[p.at].items;
    let item = next_wanted(p.section, items, p.item, s);
    lemma_next_section_searches(PollView { at: p.at + 1, item, ..p }, s);
    lemma_next_section_searches(PollView { item, ..p }, s);
}

/// Whatever happens, a check searches for number after number, and takes up batches only once it
/// has searched for all of them.
pub proof fn law_check_searches_all(p: PollView, s: FollowView, event: EventView)
    requires
        valid_poll(p),
        searches_all(p),
    ensures
        searches_all(poll_step(p, s, event).0),
{
    match (p.step, event) {
        (Step::Searching, EventView::Page(page)) => {
            let (search, step) = search_step(p.search, page);
            if step == SearchStep::Complete {
                let number = series_number(search.series);
                let after = PollView { search: SearchView { found: Seq::empty(), ..search }, ..p };
                if p.section == Section::Contender {
                    let items = in_order(search.found, newer());
                    lemma_offer_searches(
                        PollView {
                            batches: seq![BatchView { number: 0, items }],
                            at: 0,
                            item: 0,
                            ..after
                        },
                        s,
                    );
                } else {
                    let batches = p.batches.push(BatchView { number, items: search.found });
                    assert(consecutive(batches, number as int));
                    lemma_next_section_searches(PollView { batches, at: 0, ..after }, s);
                }
            }
        },
        (Step::Collecting, EventView::Page(page)) => {
            let collector = collect_step(p.collector, page).0;
            let items = in_order(collector.found, newer_or_higher());
            lemma_offer_searches(
                PollView {
                    collector: CollectorView { found: Seq::empty(), ..collector },
                    batches: seq![BatchView { number: 0, items }],
                    at: 0,
                    item: 0,
                    ..p
                },
                s,
            );
        },
        (Step::FirstSaved, EventView::Saved) => {
            lemma_next_section_searches(p, s);
            lemma_offer_searches(p, s);
        },
        (Step::BatchSaved, EventView::Saved) => {
            lemma_offer_searches(PollView { item: 0, ..p }, s);
        },
        _ => {
            if holds_replay(p.step) {
                lemma_offer_searches(PollView { item: p.item + 1, ..p }, s);
            }
        },
    }
}

/// Every check searches for all numbers before it takes up a batch.
pub proof fn law_run_searches_all(settings: Settings, s: FollowView, moments: Seq<Moment>)
    ensures
        searches_all(run(settings, s, moments).0),
    decreases moments.len(),
{
    if moments.len() > 0 {
        let front = moments.drop_last();
        law_run_searches_all(settings, s, front);
        law_run_valid(settings, s, front);
        let (p, so_far) = run(settings, s, front);
        law_check_searches_all(p, state_at(so_far, moments.last()), moments.last().event);
    }
}

/// To remember what batches hold never lowers the highest number.
proof fn lemma_baselined_rises(s: FollowView, section: Section, batches: Seq<BatchView>)
    ensures
        highest_number(s, Section::Ufc) <= highest_number(
            baselined(s, section, batches),
            Section::Ufc,
        ),
        highest_number(s, Section::Bjj) <= highest_number(
            baselined(s, section, batches),
            Section::Bjj,
        ),
    decreases batches.len(),
{
    if batches.len() > 0 {
        lemma_baselined_rises(s, section, batches.drop_last());
    }
}

/// The highest number seen never falls, unless the selection is new.
pub proof fn law_highest_number_rises(
    p: PollView,
    s: FollowView,
    event: EventView,
    section: Section,
)
    requires
        initialized_number(s, section) == selection(p.settings, section),
    ensures
        highest_number(s, section) <= highest_number(poll_step(p, s, event).1, section),
{
    if let EventView::Page(page) = event {
        let search = search_step(p.search, page).0;
        let batch = BatchView { number: series_number(search.series), items: search.found };
        lemma_baselined_rises(s, p.section, p.batches.push(batch));
    }
}

/// What a check changes in the state it wants saved at once, but for the highest number where it
/// begins a new selection.
pub proof fn law_changes_are_saved(p: PollView, s: FollowView, event: EventView)
    ensures
        ({
            let (q, t) = poll_step(p, s, event);
            action_of(q) == ActionView::Save || t == (FollowView {
                highest_ufc_number: t.highest_ufc_number,
                highest_bjj_number: t.highest_bjj_number,
                ..s
            })
        }),
{
}

/// A Fight Night replay that is taken up is not one to be passed over.
pub open spec fn takes_up_recent(p: PollView, s: FollowView) -> bool {
    p.section == Section::FightNight && holds_replay(p.step) ==> !is_outdated(current(p), s)
}

/// The first replay that is not passed over is none to be passed over.
proof fn lemma_next_wanted_recent(
    items: Seq<ReplayView>,
    from: int,
    s: FollowView,
)
    ensures
        ({
            let item = next_wanted(Section::FightNight, items, from, s);
            item < items.len() ==> !is_outdated(items[item], s)
        }),
    decreases items.len() - from,
{
    if from < items.len() && is_outdated(items[from], s) {
        lemma_next_wanted_recent(items, from + 1, s);
    }
}

/// A check that goes on with a batch takes up recent replays.
proof fn lemma_offer_recent(p: PollView, s: FollowView)
    ensures
        takes_up_recent(offer(p, s).0, offer(p, s).1),
{
    lemma_next_wanted_recent(p.batches[p.at].items, p.item, s);
}

/// Whatever happens, a check takes up recent replays.
proof fn lemma_event_recent(p: PollView, s: FollowView, event: EventView)
    requires
        takes_up_recent(p, s),
    ensures
        takes_up_recent(poll_step(p, s, event).0, poll_step(p, s, event).1),
{
    match (p.step, event) {
        (Step::Searching, EventView::Page(page)) => {
            let search = search_step(p.search, page).0;
            lemma_offer_recent(
                PollView {
                    search: SearchView { found: Seq::empty(), ..search },
                    batches: seq![
                        BatchView { number: 0, items: in_order(search.found, newer()) },
                    ],
                    at: 0,
                    item: 0,
                    ..p
                },
                s,
            );
        },
        (Step::Collecting, EventView::Page(page)) => {
            let collector = collect_step(p.collector, page).0;
            lemma_offer_recent(
                PollView {
                    collector: CollectorView { found: Seq::empty(), ..collector },
                    batches: seq![
                        BatchView {
                            number: 0,
                            items: in_order(collector.found, newer_or_higher()),
                        },
                    ],
                    at: 0,
                    item: 0,
                    ..p
                },
                s,
            );
        },
        (Step::FirstSaved, EventView::Saved) => {
            lemma_offer_recent(p, s);
        },
        (Step::BatchSaved, EventView::Saved) => {
            lemma_offer_recent(PollView { item: 0, ..p }, s);
        },
        _ => {
            lemma_offer_recent(PollView { item: p.item + 1, ..p }, s);
        },
    }
}

/// The Fight Night replay that a check has taken up is not older than the baseline, or it is of
/// the event whose older segments are wanted.
pub proof fn law_takes_up_recent_fight_nights(
    settings: Settings,
    s: FollowView,
    moments: Seq<Moment>,
)
    ensures
        takes_up_recent(run(settings, s, moments).0, run(settings, s, moments).1),
    decreases moments.len(),
{
    if moments.len() > 0 {
        let front = moments.drop_last();
        law_takes_up_recent_fight_nights(settings, s, front);
        let (p, so_far) = run(settings, s, front);
        lemma_event_recent(p, state_at(so_far, moments.last()), moments.last().event);
    }
}

} // verus!
