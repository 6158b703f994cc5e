//! Which replays a check takes up.

use crate::collect::{collect_step, with_unseen, CollectorView};
use crate::config::Settings;
use crate::course::{
    action_of, after_collected, after_page, holds_replay, is_numbered, next_section, next_wanted,
    offer, poll_step, selection, series_number, series_of, valid_poll, ActionView, BatchView,
    EventView, PollView, Section, Step,
};
use crate::guarantees::{is_over, law_run_valid, run, state_at, Moment};
use crate::ordering::{in_order, law_sort_keeps_items};
use crate::search::{
    candidate_of, candidates_of, is_replay, newer, newer_or_higher, search_step, HitView, PageView,
    SearchStep, SearchView, Series,
};
use crate::state::{FollowView, ReplayView};
use vstd::prelude::*;

verus! {

/// The title is that of a complete recording of the series, for a length that a search gave.
pub open spec fn complete(series: Series, title: Seq<char>) -> bool {
    exists|duration: u64| is_replay(series, title, duration)
}

/// All replays of a list are complete recordings of the series.
pub open spec fn all_complete(items: Seq<ReplayView>, series: Series) -> bool {
    forall|i: int| 0 <= i < items.len() ==> complete(series, #[trigger] items[i].title)
}

/// The candidates of hits are complete recordings.
proof fn lemma_candidates_complete(hits: Seq<HitView>, series: Series)
    ensures
        all_complete(candidates_of(hits, series), series),
    decreases hits.len(),
{
    if hits.len() > 0 {
        let f = |hit: HitView| candidate_of(hit, series);
        let front = hits.drop_last();
        lemma_candidates_complete(front, series);
        let found = candidates_of(front, series);
        match candidate_of(hits.last(), series) {
            Some(replay) => {
                assert(is_replay(series, replay.title, hits.last().duration->0));
                assert(hits.filter_map(f) == found + seq![replay]);
                assert forall|i: int| 0 <= i < (found + seq![replay]).len() implies complete(
                    series,
                    #[trigger] (found + seq![replay])[i].title,
                ) by {
                    if i < found.len() {
                        assert((found + seq![replay])[i] == found[i]);
                    }
                }
            },
            None => {
                assert(hits.filter_map(f) == found);
            },
        }
    }
}

/// To add unseen replays to complete ones gives complete ones.
proof fn lemma_unseen_complete(
    found: Seq<ReplayView>,
    seen: Set<u64>,
    more: Seq<ReplayView>,
    series: Series,
)
    requires
        all_complete(found, series),
        all_complete(more, series),
    ensures
        all_complete(with_unseen(found, seen, more).0, series),
    decreases more.len(),
{
    if more.len() > 0 {
        let front = more.drop_last();
        assert forall|i: int| 0 <= i < front.len() implies complete(
            series,
            #[trigger] front[i].title,
        ) by {
            assert(front[i] == more[i]);
        }
        lemma_unseen_complete(found, seen, front, series);
        assert(complete(series, more[more.len() - 1].title));
    }
}

/// A sorted list holds what the list holds.
proof fn lemma_sorted_complete(
    items: Seq<ReplayView>,
    ahead: spec_fn(ReplayView, ReplayView) -> bool,
    series: Series,
)
    requires
        all_complete(items, series),
    ensures
        all_complete(in_order(items, ahead), series),
{
    broadcast use vstd::seq_lib::group_to_multiset_ensures;

    let sorted = in_order(items, ahead);
    law_sort_keeps_items(items, ahead);
    assert forall|i: int| 0 <= i < sorted.len() implies complete(
        series,
        #[trigger] sorted[i].title,
    ) by {
        assert(sorted.contains(sorted[i]));
        assert(sorted.to_multiset().count(sorted[i]) > 0);
        assert(items.contains(sorted[i]));
        let k = choose|k: int| 0 <= k < items.len() && items[k] == sorted[i];
        assert(complete(series, items[k].title));
    }
}

/// The steps in which a check holds batches of its section.
pub open spec fn uses_batches(step: Step) -> bool {
    step == Step::Searching || step == Step::FirstSaved || step == Step::BatchSaved || holds_replay(
        step,
    )
}

/// The batches hold complete recordings of the section, and none of a number before the selected
/// one.
pub open spec fn sound_batches(p: PollView) -> bool {
    forall|b: int|
        0 <= b < p.batches.len() ==> all_complete(
            (#[trigger] p.batches[b]).items,
            series_of(p.section, p.batches[b].number),
        ) && selection(p.settings, p.section) <= p.batches[b].number
}

/// The settings ask for the section.
pub open spec fn asked_for(settings: Settings, section: Section) -> bool {
    match section {
        Section::Ufc => settings.ufc > 0,
        Section::Bjj => settings.bjj > 0,
        Section::Contender => settings.contender,
        Section::FightNight => settings.fight_nights,
    }
}

/// A check that holds only what it may offer: complete recordings of the section that it is in,
/// which the settings ask for,
/// none of a number before the selected one, and at the first check of a selection, unless
/// existing recordings are wanted, none at all.
pub open spec fn sound_poll(p: PollView) -> bool {
    &&& p.step != Step::Start && !is_over(p.step) ==> asked_for(p.settings, p.section)
    &&& uses_batches(p.step) ==> sound_batches(p)
    &&& p.step == Step::Searching ==> {
        &&& p.search.series == series_of(p.section, series_number(p.search.series))
        &&& all_complete(p.search.found, p.search.series)
        &&& selection(p.settings, p.section) <= series_number(p.search.series)
    }
    &&& p.step == Step::Collecting ==> all_complete(p.collector.found, Series::FightNight)
    &&& is_numbered(p.section) && p.first && !p.settings.include_existing ==> p.step
        != Step::BatchSaved && !holds_replay(p.step)
}

/// A check that goes on to the next section is sound.
proof fn lemma_next_section_sound(p: PollView, s: FollowView)
    ensures
        sound_poll(next_section(p, s).0),
{
}

/// A check that goes on with a sound batch is sound.
proof fn lemma_offer_sound(p: PollView, s: FollowView)
    requires
        sound_batches(p),
        asked_for(p.settings, p.section),
        !(is_numbered(p.section) && p.first && !p.settings.include_existing),
    ensures
        sound_poll(offer(p, s).0),
{
    let items = p.batches[p.at].items;
    let item = next_wanted(p.section, items, p.item, s);
    lemma_next_section_sound(PollView { at: p.at + 1, item, ..p }, s);
    lemma_next_section_sound(PollView { item, ..p }, s);
}

/// A check that searches stays sound after a page.
proof fn lemma_page_sound(p: PollView, s: FollowView, page: PageView)
    requires
        valid_poll(p),
        sound_poll(p),
        p.step == Step::Searching,
    ensures
        sound_poll(after_page(p, s, page).0),
{
    let (search, step) = search_step(p.search, page);
    if let Some(hits) = page.hits {
        lemma_candidates_complete(hits, p.search.series);
    }
    assert(all_complete(search.found, search.series));
    if step == SearchStep::Complete {
        let number = series_number(search.series);
        let after = PollView { search: SearchView { found: Seq::empty(), ..search }, ..p };
        if p.section == Section::Contender {
            let items = in_order(search.found, newer());
            lemma_sorted_complete(search.found, newer(), Series::Contender);
            lemma_offer_sound(
                PollView { batches: seq![BatchView { number: 0, items }], at: 0, item: 0, ..after },
                s,
            );
        } else {
            let after = PollView {
                batches: p.batches.push(BatchView { number, items: search.found }),
                ..after
            };
            assert(sound_batches(after));
            lemma_next_section_sound(PollView { at: 0, ..after }, s);
        }
    }
}

/// A check that collects Fight Nights stays sound after an answer.
proof fn lemma_collected_sound(p: PollView, s: FollowView, page: PageView)
    requires
        valid_poll(p),
        sound_poll(p),
        p.step == Step::Collecting,
    ensures
        sound_poll(after_collected(p, s, page).0),
{
    let (collector, step) = collect_step(p.collector, page);
    if let Some(hits) = page.hits {
        lemma_candidates_complete(hits, Series::FightNight);
        lemma_unseen_complete(
            p.collector.found,
            p.collector.seen,
            candidates_of(hits, Series::FightNight),
            Series::FightNight,
        );
    }
    assert(all_complete(collector.found, Series::FightNight));
    if step == SearchStep::Complete {
        let items = in_order(collector.found, newer_or_higher());
        lemma_sorted_complete(collector.found, newer_or_higher(), Series::FightNight);
        lemma_offer_sound(
            PollView {
                collector: CollectorView { found: Seq::empty(), ..collector },
                batches: seq![BatchView { number: 0, items }],
                at: 0,
                item: 0,
                ..p
            },
            s,
        );
    }
}

/// Whatever happens, a check holds only what it may offer.
pub proof fn law_check_stays_sound(p: PollView, s: FollowView, event: EventView)
    requires
        valid_poll(p),
        sound_poll(p),
    ensures
        sound_poll(poll_step(p, s, event).0),
{
    match (p.step, event) {
        (Step::Searching, EventView::Page(page)) => {
            lemma_page_sound(p, s, page);
        },
        (Step::Collecting, EventView::Page(page)) => {
            lemma_collected_sound(p, s, page);
        },
        (Step::FirstSaved, EventView::Saved) => {
            if is_numbered(p.section) {
                lemma_next_section_sound(p, s);
            } else {
                lemma_offer_sound(p, s);
            }
        },
        (Step::BatchSaved, EventView::Saved) => {
            lemma_offer_sound(PollView { item: 0, ..p }, s);
        },
        _ => {
            if holds_replay(p.step) {
                lemma_offer_sound(PollView { item: p.item + 1, ..p }, s);
            }
        },
    }
}

/// Every check holds only what it may offer.
pub proof fn law_run_sound(settings: Settings, s: FollowView, moments: Seq<Moment>)
    ensures
        sound_poll(run(settings, s, moments).0),
    decreases moments.len(),
{
    if moments.len() > 0 {
        let front = moments.drop_last();
        law_run_sound(settings, s, front);
        law_run_valid(settings, s, front);
        let (p, so_far) = run(settings, s, front);
        law_check_stays_sound(p, state_at(so_far, moments.last()), moments.last().event);
    }
}

/// Only complete recordings are downloaded: the replay whose download a check wants started has
/// the title of a complete recording of a series that the settings ask for, of the selected
/// number or a later one where the series has numbers.
pub proof fn law_only_complete_replays(
    settings: Settings,
    s: FollowView,
    moments: Seq<Moment>,
    replay: ReplayView,
)
    requires
        action_of(run(settings, s, moments).0) == (ActionView::StartDownload { replay }),
    ensures
        ({
            let p = run(settings, s, moments).0;
            let number = p.batches[p.at].number;
            &&& asked_for(settings, p.section)
            &&& complete(series_of(p.section, number), replay.title)
            &&& selection(settings, p.section) <= number
        }),
{
    law_run_valid(settings, s, moments);
    law_run_sound(settings, s, moments);
    let p = run(settings, s, moments).0;
    assert(all_complete(p.batches[p.at].items, series_of(p.section, p.batches[p.at].number)));
    assert(complete(
        series_of(p.section, p.batches[p.at].number),
        p.batches[p.at].items[p.item].title,
    ));
}

/// At the first check of a numbered selection, unless existing recordings are wanted, nothing of
/// the section is taken up.
pub proof fn law_first_check_takes_up_nothing(
    settings: Settings,
    s: FollowView,
    moments: Seq<Moment>,
)
    requires
        !settings.include_existing,
        is_numbered(run(settings, s, moments).0.section),
        run(settings, s, moments).0.first,
    ensures
        !holds_replay(run(settings, s, moments).0.step),
{
    law_run_valid(settings, s, moments);
    law_run_sound(settings, s, moments);
}

} // verus!
