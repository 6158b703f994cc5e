//! The watermark of the numbered UFC follower: what it keeps back, and when it moves.

use crate::baseline::may_queue_numbered;
use crate::config::Settings;
use crate::course::{
    action_of, begun_poll, current, holds_replay, poll_step, series_number, valid_poll, ActionView,
    BatchView, EventView, PollView, Section, Step,
};
use crate::guarantees::{
    is_over, law_run_valid, lemma_baselined, lemma_step_before, run, state_at, Moment,
};
use crate::published::{carries_date, published_after};
use crate::search::search_step;
use crate::state::FollowView;
use vstd::prelude::*;

verus! {

/// Whenever the clock was read, it gave a text.
pub open spec fn clock_tells(moments: Seq<Moment>) -> bool {
    forall|i: int|
        0 <= i < moments.len() ==> match (#[trigger] moments[i]).event {
            EventView::Clock(now) => now.len() > 0,
            _ => true,
        }
}

/// A replay has gone past the configuration.
pub open spec fn past_gate(step: Step) -> bool {
    holds_replay(step) && step != Step::Gate
}

/// The watermark is heeded: among the numbered UFC events there is one, unless existing
/// recordings are wanted, and it lets the replay pass that has gone past the configuration.
pub open spec fn heeds_watermark(p: PollView, s: FollowView) -> bool {
    p.section == Section::Ufc && !is_over(p.step) ==> {
        &&& !p.settings.include_existing && p.step != Step::Start && p.step != Step::Clock
            ==> s.ufc_baseline_ts.len() > 0
        &&& past_gate(p.step) ==> may_queue_numbered(
            p.settings.include_existing,
            s.ufc_baseline_ts,
            current(p).published,
        )
    }
}

/// Of the numbered UFC events only a section's own steps follow; the others come after it. An
/// event changes the watermark only where the clock was asked for.
pub proof fn lemma_event_watermark(p: PollView, s: FollowView, event: EventView)
    ensures
        ({
            let (q, t) = poll_step(p, s, event);
            &&& t.ufc_baseline_ts != s.ufc_baseline_ts ==> p.step == Step::Clock && event
                == EventView::Clock(t.ufc_baseline_ts)
            &&& q.section == Section::Ufc && !is_over(q.step) ==> p.section == Section::Ufc
                || p.step == Step::Start
            &&& q.step == Step::Clock ==> p.step == Step::Start && !p.settings.include_existing && (
            s.ufc_initialized_number != p.settings.ufc || s.ufc_baseline_ts.len() == 0)
        }),
{
    if let EventView::Page(page) = event {
        let search = search_step(p.search, page).0;
        let batch = BatchView { number: series_number(search.series), items: search.found };
        lemma_baselined(s, p.section, p.batches.push(batch));
    }
}

/// Whatever happens, the watermark is heeded.
proof fn lemma_event_heeds(p: PollView, s: FollowView, event: EventView)
    requires
        heeds_watermark(p, s),
        valid_poll(p),
        event matches EventView::Clock(now) ==> now.len() > 0,
    ensures
        heeds_watermark(poll_step(p, s, event).0, poll_step(p, s, event).1),
{
    lemma_event_watermark(p, s, event);
    lemma_step_before(p, s, event);
}

/// Every check heeds the watermark.
proof fn lemma_run_heeds(settings: Settings, s: FollowView, moments: Seq<Moment>)
    requires
        clock_tells(moments),
    ensures
        heeds_watermark(run(settings, s, moments).0, run(settings, s, moments).1),
    decreases moments.len(),
{
    if moments.len() > 0 {
        let front = moments.drop_last();
        assert(clock_tells(front)) by {
            assert forall|i: int| 0 <= i < front.len() implies match (
            #[trigger] front[i]).event {
                EventView::Clock(now) => now.len() > 0,
                _ => true,
            } by {
                assert(front[i] == moments[i]);
            }
        }
        lemma_run_heeds(settings, s, front);
        law_run_valid(settings, s, front);
        let (p, so_far) = run(settings, s, front);
        assert(moments[moments.len() - 1] == moments.last());
        lemma_event_heeds(p, state_at(so_far, moments.last()), moments.last().event);
    }
}

/// Where existing recordings are not wanted, no numbered UFC replay is fetched or downloaded
/// unless it carries a date that the calendar has and was published after the watermark.
pub proof fn law_watermark_keeps_old_back(settings: Settings, s: FollowView, moments: Seq<Moment>)
    requires
        clock_tells(moments),
        !settings.include_existing,
        run(settings, s, moments).0.section == Section::Ufc,
        past_gate(run(settings, s, moments).0.step),
    ensures
        ({
            let (p, t) = run(settings, s, moments);
            &&& t.ufc_baseline_ts.len() > 0
            &&& carries_date(current(p).published)
            &&& published_after(current(p).published, t.ufc_baseline_ts)
        }),
{
    lemma_run_heeds(settings, s, moments);
    law_run_valid(settings, s, moments);
}

/// A check keeps a watermark that is there, unless the selection is new; and it never takes one
/// where existing recordings are wanted.
pub proof fn law_watermark_is_kept(settings: Settings, s: FollowView, moments: Seq<Moment>)
    requires
        settings.include_existing || settings.ufc == 0 || (s.ufc_initialized_number == settings.ufc
            && s.ufc_baseline_ts.len() > 0),
    ensures
        run(settings, s, moments).1.ufc_baseline_ts == s.ufc_baseline_ts,
        !(action_of(run(settings, s, moments).0) is ReadClock),
{
    lemma_run_keeps(settings, s, moments);
}

/// What a check that keeps its watermark keeps besides: until its first event, the number whose
/// first check is done.
proof fn lemma_run_keeps(settings: Settings, s: FollowView, moments: Seq<Moment>)
    requires
        settings.include_existing || settings.ufc == 0 || (s.ufc_initialized_number == settings.ufc
            && s.ufc_baseline_ts.len() > 0),
    ensures
        ({
            let (p, t) = run(settings, s, moments);
            &&& t.ufc_baseline_ts == s.ufc_baseline_ts
            &&& p.step != Step::Clock
            &&& p.step == Step::Start ==> t.ufc_initialized_number == s.ufc_initialized_number
        }),
    decreases moments.len(),
{
    if moments.len() > 0 {
        let front = moments.drop_last();
        lemma_run_keeps(settings, s, front);
        law_run_valid(settings, s, front);
        let (p, so_far) = run(settings, s, front);
        lemma_event_watermark(p, state_at(so_far, moments.last()), moments.last().event);
        lemma_start_is_left(p, state_at(so_far, moments.last()), moments.last().event);
    }
}

/// No event leaves a check at its start; and a check without a UFC selection reads no clock.
pub proof fn lemma_start_is_left(p: PollView, s: FollowView, event: EventView)
    ensures
        poll_step(p, s, event).0.step != Step::Start,
        poll_step(p, s, event).0.step == Step::Clock ==> p.settings.ufc > 0,
{
}

/// A check of a new selection, or one without a watermark, reads the clock before it searches,
/// unless existing recordings are wanted.
pub proof fn law_watermark_is_taken(settings: Settings, s: FollowView, now: Seq<char>)
    requires
        settings.ufc > 0,
        !settings.include_existing,
        s.ufc_initialized_number != settings.ufc || s.ufc_baseline_ts.len() == 0,
    ensures
        ({
            let (p, t) = poll_step(begun_poll(settings), s, EventView::Downloads(false));
            let (q, u) = poll_step(p, t, EventView::Clock(now));
            &&& action_of(p) == ActionView::ReadClock
            &&& action_of(q) == ActionView::Save
            &&& u.ufc_baseline_ts == now
            &&& action_of(poll_step(q, u, EventView::Saved).0) is Search
        }),
{
}

} // verus!
