//! Every check ends.

use crate::collect::{asks_left, collect_step, law_collection_ends, CollectorView};
use crate::course::{
    after_collected, after_page, holds_replay, is_numbered, lemma_next_wanted, next_section,
    next_wanted, offer, poll_step, series_number, valid_poll, BatchView, EventView, PollView,
    Section, Step,
};
use crate::guarantees::is_over;
use crate::ordering::in_order;
use crate::search::{
    newer, newer_or_higher, search_step, MAX_PAGES, PageView, SearchStep, SearchView,
};
use crate::span::searches_all;
use crate::state::FollowView;
use vstd::prelude::*;

verus! {

/// How many sections are left, with the one that the check is in.
pub open spec fn sections_left(p: PollView) -> int {
    if is_over(p.step) {
        0
    } else if p.step == Step::Start {
        5
    } else {
        match p.section {
            Section::Ufc => 4,
            Section::Bjj => 3,
            Section::Contender => 2,
            Section::FightNight => 1,
        }
    }
}

/// How many stages of the section are left, with the one that the check is in.
pub open spec fn stages_left(p: PollView) -> int {
    match p.step {
        Step::Clock => 5,
        Step::WatermarkSaved => 4,
        Step::Searching | Step::Collecting => 3,
        Step::FirstSaved => 2,
        _ => 1,
    }
}

/// How many searches, or how many batches, are left.
pub open spec fn rounds_left(p: PollView) -> int {
    match p.step {
        Step::Searching => if is_numbered(p.section) {
            p.last - series_number(p.search.series)
        } else {
            0
        },
        Step::Collecting => asks_left(p.collector),
        _ => if p.step == Step::BatchSaved || holds_replay(p.step) {
            p.batches.len() - p.at
        } else {
            0
        },
    }
}

/// How many pages, or how many replays of the batch, are left.
pub open spec fn items_left(p: PollView) -> int {
    match p.step {
        Step::Searching => MAX_PAGES - p.search.page,
        Step::BatchSaved => p.batches[p.at].items.len() as int + 1,
        _ => if holds_replay(p.step) {
            p.batches[p.at].items.len() - p.item
        } else {
            0
        },
    }
}

/// How many steps are left for the replay that is taken up.
pub open spec fn steps_left(p: PollView) -> int {
    match p.step {
        Step::Gate => 5,
        Step::Manifest => 4,
        Step::Media => 3,
        Step::MediaSaved | Step::Activity => 2,
        Step::Download => 1,
        _ => 0,
    }
}

/// The check `q` is closer to its end than `p`: fewer sections are left, or as many sections and
/// fewer stages, and so on.
pub open spec fn closer_to_end(p: PollView, q: PollView) -> bool {
    ||| sections_left(q) < sections_left(p)
    ||| sections_left(q) == sections_left(p) && {
        ||| stages_left(q) < stages_left(p)
        ||| stages_left(q) == stages_left(p) && {
            ||| rounds_left(q) < rounds_left(p)
            ||| rounds_left(q) == rounds_left(p) && {
                ||| items_left(q) < items_left(p)
                ||| items_left(q) == items_left(p) && steps_left(q) < steps_left(p)
            }
        }
    }
}

/// The counts of what is left are never negative.
pub proof fn law_counts_are_bounded(p: PollView)
    requires
        valid_poll(p),
        searches_all(p),
        !is_over(p.step),
    ensures
        0 < sections_left(p) <= 5,
        0 < stages_left(p) <= 5,
        0 <= rounds_left(p),
        0 <= items_left(p),
        0 <= steps_left(p) <= 5,
{
}

/// To go on to the next section is to come closer to the end.
proof fn lemma_next_section_closer(p: PollView, s: FollowView)
    requires
        p.step != Step::Start,
        !is_over(p.step),
    ensures
        sections_left(next_section(p, s).0) < sections_left(p),
{
}

/// To go on with a batch, or behind it, is to come closer to the end than with `from`, where that
/// holds the same batches and comes before.
proof fn lemma_offer_closer(from: PollView, p: PollView, s: FollowView)
    requires
        from.step == Step::FirstSaved || from.step == Step::BatchSaved || holds_replay(from.step),
        from.section == p.section,
        from.step != Step::FirstSaved ==> from.batches == p.batches && from.at == p.at,
        holds_replay(from.step) ==> p.item > from.item,
        from.step == Step::BatchSaved ==> p.item >= 0,
        p.step == from.step,
        0 <= p.at < p.batches.len(),
    ensures
        closer_to_end(from, offer(p, s).0),
{
    let items = p.batches[p.at].items;
    let item = next_wanted(p.section, items, p.item, s);
    lemma_next_wanted(p.section, items, p.item, s);
    lemma_next_section_closer(PollView { at: p.at + 1, item, ..p }, s);
    lemma_next_section_closer(PollView { item, ..p }, s);
}

/// A check comes closer to its end with each page of a search.
proof fn lemma_page_closer(p: PollView, s: FollowView, page: PageView)
    requires
        valid_poll(p),
        searches_all(p),
        p.step == Step::Searching,
    ensures
        closer_to_end(p, after_page(p, s, page).0),
{
    let (search, step) = search_step(p.search, page);
    if step == SearchStep::Complete {
        let number = series_number(search.series);
        let after = PollView { search: SearchView { found: Seq::empty(), ..search }, ..p };
        if p.section == Section::Contender {
            let items = in_order(search.found, newer());
            let held = PollView {
                step: Step::FirstSaved,
                batches: seq![BatchView { number: 0, items }],
                at: 0,
                item: 0,
                ..after
            };
            lemma_offer_closer(held, held, s);
            assert(offer(held, s).0 == offer(PollView { step: Step::Searching, ..held }, s).0);
        } else {
            let batches = p.batches.push(BatchView { number, items: search.found });
            lemma_next_section_closer(PollView { batches, at: 0, ..after }, s);
        }
    }
}

/// A check comes closer to its end with each answer for the collection of Fight Nights.
proof fn lemma_collected_closer(p: PollView, s: FollowView, page: PageView)
    requires
        valid_poll(p),
        p.step == Step::Collecting,
    ensures
        closer_to_end(p, after_collected(p, s, page).0),
{
    let (collector, step) = collect_step(p.collector, page);
    if step == SearchStep::NextPage {
        law_collection_ends(p.collector, page);
    }
    if step == SearchStep::Complete {
        let items = in_order(collector.found, newer_or_higher());
        let held = PollView {
            step: Step::FirstSaved,
            collector: CollectorView { found: Seq::empty(), ..collector },
            batches: seq![BatchView { number: 0, items }],
            at: 0,
            item: 0,
            ..p
        };
        lemma_offer_closer(held, held, s);
        let collecting = PollView { step: Step::Collecting, ..held };
        assert(offer(held, s).0.step == offer(collecting, s).0.step);
    }
}

/// Every check ends: with each event it comes closer to its end, and the counts of what is left
/// are bounded from below.
pub proof fn law_check_ends(p: PollView, s: FollowView, event: EventView)
    requires
        valid_poll(p),
        searches_all(p),
        !is_over(p.step),
    ensures
        closer_to_end(p, poll_step(p, s, event).0),
{
    match (p.step, event) {
        (Step::Searching, EventView::Page(page)) => {
            lemma_page_closer(p, s, page);
        },
        (Step::Collecting, EventView::Page(page)) => {
            lemma_collected_closer(p, s, page);
        },
        (Step::FirstSaved, EventView::Saved) => {
            if is_numbered(p.section) {
                lemma_next_section_closer(p, s);
            } else {
                lemma_offer_closer(p, p, s);
            }
        },
        (Step::BatchSaved, EventView::Saved) => {
            lemma_offer_closer(p, PollView { item: 0, ..p }, s);
        },
        _ => {
            if holds_replay(p.step) {
                lemma_offer_closer(p, PollView { item: p.item + 1, ..p }, s);
            }
        },
    }
}

} // verus!
