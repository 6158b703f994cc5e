//! What a check remembers, and why: nothing is handled, begun or raised without a reason, and what
//! gives a reason is remembered.

use crate::collect::{collect_step, CollectorView};
use crate::config::{Config, Settings};
use crate::course::{
    action_of, after_page, baselined, contender_found, current, fight_nights_found, highest_number,
    holds_replay, is_numbered, of_other_events, offer, poll_step, series_number, valid_poll,
    ActionView, BatchView, EventView, PollView, Section, Step,
};
use crate::coverage::{check_at, withdrawn};
use crate::first_checks::lemma_run_knows;
use crate::guarantees::{law_run_valid, lemma_baselined, run, state_at, Moment};
use crate::offers::law_run_sound;
use crate::ordering::{in_order, law_sort_keeps_items};
use crate::published::{carries_date, published_after};
use crate::search::{
    law_newest_and_highest_first, law_newest_first, newer, newer_or_higher, search_step, PageView,
    SearchView,
};
use crate::span::law_takes_up_recent_fight_nights;
use crate::state::{law_marks, lemma_mark_none, FollowView, ReplayView};
use crate::text::before;
use crate::titles::fight_night_key_of;
use vstd::prelude::*;

verus! {

/// A check ends at once where a download is running when it begins, and nothing is changed.
pub proof fn law_running_download_ends_the_check(settings: Settings, s: FollowView, moment: Moment)
    requires
        moment.event == EventView::Downloads(true),
        moment.completed.len() == 0,
    ensures
        action_of(run(settings, s, seq![moment]).0) == ActionView::Finish,
        run(settings, s, seq![moment]).1 == s,
{
    assert(seq![moment].drop_last() =~= Seq::<Moment>::empty());
    assert(moment.completed =~= Seq::<ReplayView>::empty());
    lemma_mark_none(s);
    reveal_with_fuel(run, 2);
}

/// A check ends, and changes nothing, where the configuration that it reads before it takes up a
/// recording no longer asks for its section; else it does not end there for the configuration's
/// sake: it fetches the recording's manifest, unless the recording is handled or the watermark
/// keeps it back.
pub proof fn law_withdrawn_section_ends_the_check(p: PollView, s: FollowView, config: Config)
    requires
        valid_poll(p),
        action_of(p) == ActionView::ReadConfig,
    ensures
        ({
            let (q, t) = poll_step(p, s, EventView::Config(config));
            &&& withdrawn(p.settings, p.section, config) ==> action_of(q) == ActionView::Finish
                && t == s
            &&& !withdrawn(p.settings, p.section, config) && !s.handled_ids.contains(current(p).id)
                && !s.handled_titles.contains(current(p).title) && (p.section != Section::Ufc
                || p.settings.include_existing || s.ufc_baseline_ts.len() == 0 || (carries_date(
                current(p).published,
            ) && published_after(current(p).published, s.ufc_baseline_ts))) ==> action_of(q) == (
            ActionView::FetchManifest { id: current(p).id }) && t == s
        }),
{
}

/// A recording that is on disk is remembered as handled, by its number and its title, and that is
/// saved; nothing else changes.
pub proof fn law_recording_on_disk_is_remembered(p: PollView, s: FollowView)
    requires
        action_of(p) is CheckMedia,
    ensures
        ({
            let (q, t) = poll_step(p, s, EventView::Media(true));
            &&& action_of(q) == ActionView::Save
            &&& t == (FollowView {
                handled_ids: s.handled_ids.insert(current(p).id),
                handled_titles: s.handled_titles.insert(current(p).title),
                ..s
            })
        }),
{
}

/// A recording is known by its number or its title.
pub open spec fn is_same(replay: ReplayView, other: ReplayView) -> bool {
    replay.id == other.id || replay.title == other.title
}

/// A recording, or one with its number or its title, stands in one of the batches.
pub open spec fn stands_among(batches: Seq<BatchView>, replay: ReplayView) -> bool {
    exists|b: int, i: int|
        0 <= b < batches.len() && 0 <= i < batches[b].items.len() && is_same(
            #[trigger] batches[b].items[i],
            replay,
        )
}

/// What batches were marked for is handled only where it was handled before or stands in one.
proof fn lemma_baselined_only(
    s: FollowView,
    section: Section,
    batches: Seq<BatchView>,
    replay: ReplayView,
)
    requires
        baselined(s, section, batches).handled(replay),
    ensures
        s.handled(replay) || stands_among(batches, replay),
    decreases batches.len(),
{
    if batches.len() > 0 {
        let front = batches.drop_last();
        let last = batches.last();
        let so_far = baselined(s, section, front);
        law_marks(so_far, last.items, replay);
        if so_far.handled(replay) {
            lemma_baselined_only(s, section, front, replay);
            if !s.handled(replay) {
                let (b, i) = choose|b: int, i: int|
                    0 <= b < front.len() && 0 <= i < front[b].items.len() && is_same(
                        #[trigger] front[b].items[i],
                        replay,
                    );
                assert(batches[b].items[i] == front[b].items[i]);
            }
        } else {
            let i = choose|i: int|
                0 <= i < last.items.len() && is_same(#[trigger] last.items[i], replay);
            assert(batches[batches.len() - 1].items[i] == last.items[i]);
        }
    }
}

/// An event by which a recording becomes handled: it was found on disk, or it was found at the
/// first check of a section; at that of a numbered section only where existing recordings are not
/// wanted.
pub open spec fn gives_reason(
    p: PollView,
    s: FollowView,
    event: EventView,
    replay: ReplayView,
) -> bool {
    let found = poll_step(p, s, event).0.batches;
    ||| action_of(p) is CheckMedia && event == EventView::Media(true) && is_same(current(p), replay)
    ||| p.step == Step::Searching && is_numbered(p.section) && p.first
        && !p.settings.include_existing && stands_among(found, replay)
    ||| p.step == Step::Searching && p.section == Section::Contender && !s.contender_initialized
        && stands_among(found, replay)
    ||| p.step == Step::Collecting && !s.fight_night_initialized && stands_among(found, replay)
}

/// What is handled because it was marked with others of a batch stands in the batch.
proof fn lemma_marked_stands_among(
    s: FollowView,
    marked: Seq<ReplayView>,
    items: Seq<ReplayView>,
    replay: ReplayView,
)
    requires
        !s.handled(replay),
        s.mark_all(marked).handled(replay),
        forall|k: int| 0 <= k < marked.len() ==> items.contains(#[trigger] marked[k]),
    ensures
        stands_among(seq![BatchView { number: 0, items }], replay),
{
    law_marks(s, marked, replay);
    let k = choose|k: int| 0 <= k < marked.len() && is_same(#[trigger] marked[k], replay);
    let i = choose|i: int| 0 <= i < items.len() && items[i] == marked[k];
    let batches = seq![BatchView { number: 0, items }];
    assert(is_same(batches[0].items[i], replay));
}

/// No recording becomes handled without a reason.
pub proof fn law_handled_for_a_reason(
    p: PollView,
    s: FollowView,
    event: EventView,
    replay: ReplayView,
)
    requires
        valid_poll(p),
        !s.handled(replay),
        poll_step(p, s, event).1.handled(replay),
    ensures
        gives_reason(p, s, event, replay),
{
    match (p.step, event) {
        (Step::Searching, EventView::Page(page)) => {
            let search = search_step(p.search, page).0;
            if p.section == Section::Contender {
                let items = in_order(search.found, newer());
                let keep: int = if p.settings.include_existing {
                    1
                } else {
                    0
                };
                if keep <= items.len() {
                    let marked = items.skip(keep);
                    assert forall|k: int| 0 <= k < marked.len() implies items.contains(
                        #[trigger] marked[k],
                    ) by {
                        assert(items[k + keep] == marked[k]);
                    }
                    lemma_marked_stands_among(s, marked, items, replay);
                }
            } else {
                let batch = BatchView { number: series_number(search.series), items: search.found };
                lemma_baselined_only(s, p.section, p.batches.push(batch), replay);
            }
        },
        (Step::Collecting, EventView::Page(page)) => {
            let items = in_order(collect_step(p.collector, page).0.found, newer_or_higher());
            let latest = if p.settings.include_existing {
                fight_night_key_of(items[0].title)
            } else {
                None
            };
            let marked = of_other_events(items, latest);
            assert forall|k: int| 0 <= k < marked.len() implies items.contains(
                #[trigger] marked[k],
            ) by {
                lemma_of_other_events(items, latest, k);
            }
            lemma_marked_stands_among(s, marked, items, replay);
        },
        _ => {},
    }
}

/// Of the replays of other events than the latest each is one of all, and of another event.
proof fn lemma_of_other_events(items: Seq<ReplayView>, latest: Option<Seq<char>>, k: int)
    requires
        0 <= k < of_other_events(items, latest).len(),
    ensures
        items.contains(of_other_events(items, latest)[k]),
        latest is Some ==> fight_night_key_of(of_other_events(items, latest)[k].title) != latest,
{
    let other = |item: ReplayView| latest is None || fight_night_key_of(item.title) != latest;
    assert(of_other_events(items, latest) == items.filter(other));
    items.lemma_filter_pred(other, k);
    items.lemma_filter_contains_rev(other, items.filter(other)[k]);
}

/// A recording's download completed at a moment, or the recording was found on disk.
pub open spec fn is_there(
    settings: Settings,
    s: FollowView,
    moments: Seq<Moment>,
    replay: ReplayView,
    k: int,
) -> bool {
    &&& 0 <= k < moments.len()
    &&& {
        ||| exists|i: int|
            0 <= i < moments[k].completed.len() && is_same(
                #[trigger] moments[k].completed[i],
                replay,
            )
        ||| action_of(check_at(settings, s, moments, k)) is CheckMedia && moments[k].event
            == EventView::Media(true) && is_same(current(check_at(settings, s, moments, k)), replay)
    }
}

/// Where every section that the settings ask for had its first check before, the numbered ones at
/// least where existing recordings are not wanted, a check handles no recording but one whose
/// download completed or that was found on disk.
pub proof fn law_later_checks_handle_only_what_is_there(
    settings: Settings,
    s: FollowView,
    moments: Seq<Moment>,
    replay: ReplayView,
)
    requires
        settings.include_existing || settings.ufc == 0 || s.ufc_initialized_number == settings.ufc,
        settings.include_existing || settings.bjj == 0 || s.bjj_initialized_number == settings.bjj,
        !settings.contender || s.contender_initialized,
        !settings.fight_nights || s.fight_night_initialized,
        run(settings, s, moments).1.handled(replay),
    ensures
        s.handled(replay) || exists|k: int| #[trigger] is_there(settings, s, moments, replay, k),
    decreases moments.len(),
{
    if moments.len() > 0 {
        let front = moments.drop_last();
        let n = moments.len() - 1;
        let (p, so_far) = run(settings, s, front);
        let t = state_at(so_far, moments.last());
        assert(moments.take(n) =~= front);
        if so_far.handled(replay) {
            law_later_checks_handle_only_what_is_there(settings, s, front, replay);
            if !s.handled(replay) {
                let k = choose|k: int| #[trigger] is_there(settings, s, front, replay, k);
                assert(moments[k] == front[k]);
                assert(moments.take(k) =~= front.take(k));
                assert(is_there(settings, s, moments, replay, k));
            }
        } else if t.handled(replay) {
            law_marks(so_far, moments.last().completed, replay);
            let completed = moments[n].completed;
            let i = choose|i: int|
                0 <= i < completed.len() && is_same(#[trigger] completed[i], replay);
            assert(is_same(moments[n].completed[i], replay));
            assert(is_there(settings, s, moments, replay, n));
        } else {
            law_run_valid(settings, s, front);
            law_run_sound(settings, s, front);
            lemma_run_knows(settings, s, front);
            law_handled_for_a_reason(p, t, moments.last().event, replay);
            assert(is_there(settings, s, moments, replay, n));
        }
    }
}

/// Where existing recordings are wanted, the newest recording of the Contender Series stays wanted
/// at the first check, unless it was handled before or stands there twice.
pub proof fn law_newest_contender_stays_wanted(p: PollView, s: FollowView, found: Seq<ReplayView>)
    requires
        !s.contender_initialized,
        p.settings.include_existing,
        found.len() > 0,
        !s.handled(in_order(found, newer())[0]),
        forall|i: int|
            0 < i < found.len() ==> !is_same(
                #[trigger] in_order(found, newer())[i],
                in_order(found, newer())[0],
            ),
    ensures
        !contender_found(p, s, found).1.handled(in_order(found, newer())[0]),
{
    let items = in_order(found, newer());
    law_sort_keeps_items(found, newer());
    let t = s.mark_all(items.skip(1));
    law_marks(s, items.skip(1), items[0]);
    if t.handled(items[0]) {
        let k = choose|k: int|
            0 <= k < items.skip(1).len() && is_same(#[trigger] items.skip(1)[k], items[0]);
        assert(items[k + 1] == items.skip(1)[k]);
    }
}

/// Where existing recordings are wanted, the segments of the latest Fight Night stay wanted at the
/// first check, unless they were handled before or recordings of other events have their number or
/// their title.
pub proof fn law_latest_fight_night_stays_wanted(
    p: PollView,
    s: FollowView,
    found: Seq<ReplayView>,
    i: int,
)
    requires
        !s.fight_night_initialized,
        p.settings.include_existing,
        0 <= i < found.len(),
        ({
            let items = in_order(found, newer_or_higher());
            let latest = fight_night_key_of(items[0].title);
            &&& latest is Some
            &&& fight_night_key_of(items[i].title) == latest
            &&& !s.handled(items[i])
            &&& forall|j: int|
                0 <= j < found.len() && fight_night_key_of((#[trigger] items[j]).title) != latest
                    ==> !is_same(items[j], items[i])
        }),
    ensures
        !fight_nights_found(p, s, found).1.handled(in_order(found, newer_or_higher())[i]),
{
    let items = in_order(found, newer_or_higher());
    let latest = fight_night_key_of(items[0].title);
    law_sort_keeps_items(found, newer_or_higher());
    let marked = of_other_events(items, latest);
    law_marks(s, marked, items[i]);
    if s.mark_all(marked).handled(items[i]) {
        let k = choose|k: int| 0 <= k < marked.len() && is_same(#[trigger] marked[k], items[i]);
        lemma_of_other_events(items, latest, k);
        let j = choose|j: int| 0 <= j < items.len() && items[j] == marked[k];
        assert(!is_same(items[j], items[i]));
    }
}

/// A Fight Night that a check takes up is not older than the baseline that the first check left, or
/// it is of the event whose older segments are wanted.
pub proof fn law_old_fight_nights_are_passed_over(
    settings: Settings,
    s: FollowView,
    moments: Seq<Moment>,
)
    requires
        run(settings, s, moments).0.section == Section::FightNight,
        holds_replay(run(settings, s, moments).0.step),
    ensures
        ({
            let (p, t) = run(settings, s, moments);
            t.fight_night_baseline.len() == 0 || !before(
                current(p).published,
                t.fight_night_baseline,
            ) || fight_night_key_of(current(p).title) == Some(t.fight_night_latest_event)
        }),
{
    law_takes_up_recent_fight_nights(settings, s, moments);
}

/// What was found of a section without numbers is offered newest first.
pub proof fn law_newest_is_offered_first(p: PollView, s: FollowView, page: PageView, i: int, j: int)
    requires
        p.step == Step::Searching && p.section == Section::Contender || p.step == Step::Collecting,
        ({
            let q = poll_step(p, s, EventView::Page(page)).0;
            &&& q.section == p.section
            &&& q.step == Step::FirstSaved || holds_replay(q.step)
            &&& 0 <= i < j < q.batches[0].items.len()
        }),
    ensures
        ({
            let items = poll_step(p, s, EventView::Page(page)).0.batches[0].items;
            &&& !before(items[i].published, items[j].published)
            &&& p.step == Step::Collecting && items[i].published == items[j].published
                ==> items[i].id >= items[j].id
        }),
{
    let items = poll_step(p, s, EventView::Page(page)).0.batches[0].items;
    if p.step == Step::Searching {
        let found = search_step(p.search, page).0.found;
        law_newest_first(found, Seq::empty());
        assert(items == in_order(found, newer()));
    } else {
        let found = collect_step(p.collector, page).0.found;
        law_newest_and_highest_first(found);
        assert(items == in_order(found, newer_or_higher()));
    }
}

/// A new selection starts anew: the highest number that was seen is forgotten, and the one before
/// the selected one takes its place; of a selection that is not new it stays.
pub proof fn law_new_selection_starts_anew(p: PollView, s: FollowView, event: EventView)
    requires
        valid_poll(p),
    ensures
        ({
            let (q, t) = poll_step(p, s, event);
            &&& p.step == Step::Start && p.settings.ufc > 0 && event == EventView::Downloads(false)
                ==> t.highest_ufc_number == (if s.ufc_initialized_number == p.settings.ufc {
                s.highest_ufc_number as int
            } else {
                p.settings.ufc - 1
            })
            &&& p.section != Section::Bjj && q.section == Section::Bjj ==> t.highest_bjj_number == (
            if s.bjj_initialized_number == p.settings.bjj {
                s.highest_bjj_number as int
            } else {
                p.settings.bjj - 1
            })
        }),
{
    if let EventView::Page(page) = event {
        let search = search_step(p.search, page).0;
        let batch = BatchView { number: series_number(search.series), items: search.found };
        lemma_baselined(s, p.section, p.batches.push(batch));
    }
}

/// Of batches whose numbers are remembered, the highest number is at least each that has
/// recordings, and it is what it was or one that has.
proof fn lemma_baselined_numbers(s: FollowView, section: Section, batches: Seq<BatchView>)
    requires
        is_numbered(section),
    ensures
        forall|b: int|
            0 <= b < batches.len() && (#[trigger] batches[b]).items.len() > 0 ==> highest_number(
                baselined(s, section, batches),
                section,
            ) >= batches[b].number,
        highest_number(baselined(s, section, batches), section) == highest_number(s, section)
            || has_number(batches, highest_number(baselined(s, section, batches), section)),
    decreases batches.len(),
{
    if batches.len() > 0 {
        let front = batches.drop_last();
        lemma_baselined_numbers(s, section, front);
        let so_far = highest_number(baselined(s, section, front), section);
        let highest = highest_number(baselined(s, section, batches), section);
        assert forall|b: int|
            0 <= b < batches.len() && (
            #[trigger] batches[b]).items.len() > 0 implies highest >= batches[b].number by {
            if b < front.len() {
                assert(front[b] == batches[b]);
            }
        }
        if highest != highest_number(s, section) {
            if highest == so_far && has_number(front, so_far) {
                let b = choose|b: int|
                    0 <= b < front.len() && (#[trigger] front[b]).number == so_far
                        && front[b].items.len() > 0;
                assert(batches[b] == front[b]);
            } else {
                assert(batches[batches.len() - 1] == batches.last());
            }
        }
    }
}

/// One of the batches has a number, and recordings.
pub open spec fn has_number(batches: Seq<BatchView>, number: u16) -> bool {
    exists|b: int|
        0 <= b < batches.len() && (#[trigger] batches[b]).number == number
            && batches[b].items.len() > 0
}

/// The numbers of what was found are remembered: when a check has what it found of a number saved,
/// the highest number is at least that one, if it has recordings; when it has what it found at a
/// first check saved, the highest number is at least each that has recordings. And the selection
/// has then had its first check.
pub proof fn law_found_numbers_are_remembered(p: PollView, s: FollowView, event: EventView, b: int)
    requires
        valid_poll(p),
        p.step != Step::FirstSaved,
        ({
            let q = poll_step(p, s, event).0;
            &&& is_numbered(q.section)
            &&& q.step == Step::BatchSaved && b == q.at || q.step == Step::FirstSaved && 0 <= b
                < q.batches.len()
        }),
    ensures
        ({
            let (q, t) = poll_step(p, s, event);
            &&& q.section == Section::Ufc ==> t.ufc_initialized_number == q.settings.ufc && (
            q.batches[b].items.len() > 0 ==> t.highest_ufc_number >= q.batches[b].number)
            &&& q.section == Section::Bjj ==> t.bjj_initialized_number == q.settings.bjj && (
            q.batches[b].items.len() > 0 ==> t.highest_bjj_number >= q.batches[b].number)
        }),
{
    if p.step == Step::Searching {
        if let EventView::Page(page) = event {
            let search = search_step(p.search, page).0;
            let batch = BatchView { number: series_number(search.series), items: search.found };
            if is_numbered(p.section) {
                lemma_baselined_numbers(s, p.section, p.batches.push(batch));
            }
        }
    }
}

/// No number is remembered as the highest without a reason: it has recordings that were found, or
/// it is the one before a new selection.
pub proof fn law_only_found_numbers_are_remembered(p: PollView, s: FollowView, event: EventView)
    requires
        valid_poll(p),
    ensures
        ({
            let (q, t) = poll_step(p, s, event);
            &&& {
                ||| t.highest_ufc_number == s.highest_ufc_number
                ||| has_number(q.batches, t.highest_ufc_number) && q.section == Section::Ufc
                ||| p.step == Step::Start && s.ufc_initialized_number != p.settings.ufc
                    && t.highest_ufc_number == p.settings.ufc - 1
            }
            &&& {
                ||| t.highest_bjj_number == s.highest_bjj_number
                ||| has_number(q.batches, t.highest_bjj_number) && q.section == Section::Bjj
                ||| q.section == Section::Bjj && s.bjj_initialized_number != p.settings.bjj
                    && t.highest_bjj_number == p.settings.bjj - 1
            }
        }),
{
    if p.step == Step::Searching {
        if let EventView::Page(page) = event {
            let search = search_step(p.search, page).0;
            let batch = BatchView { number: series_number(search.series), items: search.found };
            if is_numbered(p.section) {
                lemma_baselined_numbers(s, p.section, p.batches.push(batch));
                lemma_baselined(s, p.section, p.batches.push(batch));
            }
        }
    }
    let (q, t) = poll_step(p, s, event);
    if q.step == Step::BatchSaved {
        assert(q.batches[q.at].number == q.batches[q.at].number);
    }
}

/// That a selection of a numbered section has had its first check is remembered once all its
/// numbers were searched for, and saved.
#[verifier::spinoff_prover]
pub proof fn law_what_begins_a_selection(p: PollView, s: FollowView, event: EventView)
    requires
        valid_poll(p),
    ensures
        ({
            let (q, t) = poll_step(p, s, event);
            &&& t.ufc_initialized_number != s.ufc_initialized_number ==> p.section == Section::Ufc
                && t.ufc_initialized_number == p.settings.ufc && action_of(q) == ActionView::Save
                && p.step != Step::Start && p.step != Step::Clock && p.step != Step::WatermarkSaved
            &&& t.bjj_initialized_number != s.bjj_initialized_number ==> p.section == Section::Bjj
                && t.bjj_initialized_number == p.settings.bjj && action_of(q) == ActionView::Save
                && p.step != Step::Start
        }),
{
    if let EventView::Page(page) = event {
        let search = search_step(p.search, page).0;
        let batch = BatchView { number: series_number(search.series), items: search.found };
        lemma_baselined(s, p.section, p.batches.push(batch));
    }
}

/// That the Contender Series has had its first check is remembered once what there is was found,
/// and saved; it is never forgotten.
#[verifier::spinoff_prover]
pub proof fn law_what_begins_the_contender_series(p: PollView, s: FollowView, event: EventView)
    requires
        valid_poll(p),
    ensures
        ({
            let (q, t) = poll_step(p, s, event);
            t.contender_initialized != s.contender_initialized ==> p.section == Section::Contender
                && p.step == Step::Searching && t.contender_initialized && action_of(q)
                == ActionView::Save
        }),
{
    if let EventView::Page(page) = event {
        let search = search_step(p.search, page).0;
        let batch = BatchView { number: series_number(search.series), items: search.found };
        lemma_baselined(s, p.section, p.batches.push(batch));
    }
}

/// What is remembered of the Fight Nights.
spec fn of_fight_nights(s: FollowView) -> (bool, Seq<char>, Seq<char>) {
    (s.fight_night_initialized, s.fight_night_baseline, s.fight_night_latest_event)
}

/// To go on with a batch changes nothing that is remembered of the Fight Nights.
proof fn lemma_offer_keeps_fight_nights(p: PollView, s: FollowView)
    ensures
        of_fight_nights(offer(p, s).1) == of_fight_nights(s),
{
}

/// To take in a page of a search changes nothing that is remembered of the Fight Nights.
#[verifier::spinoff_prover]
proof fn lemma_page_keeps_fight_nights(p: PollView, s: FollowView, page: PageView)
    ensures
        of_fight_nights(after_page(p, s, page).1) == of_fight_nights(s),
{
    let search = search_step(p.search, page).0;
    let batch = BatchView { number: series_number(search.series), items: search.found };
    lemma_baselined(s, p.section, p.batches.push(batch));
    lemma_offer_keeps_fight_nights(
        PollView {
            search: SearchView { found: Seq::empty(), ..search },
            batches: seq![BatchView { number: 0, items: in_order(search.found, newer()) }],
            at: 0,
            item: 0,
            ..p
        },
        s,
    );
}

/// That the Fight Nights have had their first check is remembered once what there is was found,
/// and saved; it is never forgotten, and what the first check leaves stays.
#[verifier::spinoff_prover]
pub proof fn law_what_begins_the_fight_nights(p: PollView, s: FollowView, event: EventView)
    requires
        valid_poll(p),
    ensures
        ({
            let (q, t) = poll_step(p, s, event);
            &&& t.fight_night_initialized != s.fight_night_initialized ==> p.step
                == Step::Collecting && t.fight_night_initialized && action_of(q) == ActionView::Save
            &&& s.fight_night_initialized || p.step != Step::Collecting ==> t.fight_night_baseline
                == s.fight_night_baseline && t.fight_night_latest_event
                == s.fight_night_latest_event
        }),
{
    let (q, t) = poll_step(p, s, event);
    match (p.step, event) {
        (Step::Collecting, EventView::Page(page)) => {
            let (collector, step) = collect_step(p.collector, page);
            let items = in_order(collector.found, newer_or_higher());
            lemma_offer_keeps_fight_nights(
                PollView {
                    collector: CollectorView { found: Seq::empty(), ..collector },
                    batches: seq![BatchView { number: 0, items }],
                    at: 0,
                    item: 0,
                    ..p
                },
                s,
            );
        },
        (Step::Searching, EventView::Page(page)) => {
            lemma_page_keeps_fight_nights(p, s, page);
            assert(of_fight_nights(t) == of_fight_nights(s));
        },
        (Step::FirstSaved, EventView::Saved) => {
            lemma_offer_keeps_fight_nights(p, s);
            assert(of_fight_nights(t) == of_fight_nights(s));
        },
        (Step::BatchSaved, EventView::Saved) => {
            lemma_offer_keeps_fight_nights(PollView { item: 0, ..p }, s);
            assert(of_fight_nights(t) == of_fight_nights(s));
        },
        _ => {
            lemma_offer_keeps_fight_nights(PollView { item: p.item + 1, ..p }, s);
            assert(of_fight_nights(t) == of_fight_nights(s));
        },
    }
}

/// The watermark changes only when the clock is read: then it is what the clock tells, and that is
/// saved.
#[verifier::spinoff_prover]
pub proof fn law_watermark_is_what_the_clock_tells(p: PollView, s: FollowView, event: EventView)
    requires
        valid_poll(p),
    ensures
        ({
            let (q, t) = poll_step(p, s, event);
            &&& t.ufc_baseline_ts != s.ufc_baseline_ts ==> p.step == Step::Clock && event is Clock
            &&& p.step == Step::Clock && event is Clock ==> action_of(q) == ActionView::Save && t
                == (FollowView { ufc_baseline_ts: event->Clock_0, ..s })
        }),
{
    if let EventView::Page(page) = event {
        let search = search_step(p.search, page).0;
        let batch = BatchView { number: series_number(search.series), items: search.found };
        lemma_baselined(s, p.section, p.batches.push(batch));
    }
}

/// The first check of the Contender Series counts though nothing was found. One of the Fight Nights
/// that found nothing does not: it changes nothing, and the next check is the first again.
pub proof fn law_first_checks_that_find_nothing(p: PollView, s: FollowView)
    ensures
        !s.contender_initialized ==> contender_found(p, s, Seq::empty()).1 == (FollowView {
            contender_initialized: true,
            ..s
        }),
        fight_nights_found(p, s, Seq::empty()).1 == s,
        action_of(fight_nights_found(p, s, Seq::empty()).0) == ActionView::Finish,
{
    assert(in_order(Seq::<ReplayView>::empty(), newer()).skip(0) =~= Seq::empty());
    lemma_mark_none(s);
}

} // verus!
