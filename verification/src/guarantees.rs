//! What holds of every check, whatever the world answers.

use crate::baseline::may_queue_numbered;
use crate::config::{Config, Settings};
use crate::course::{
    action_of, baselined, begun_poll, current, highest_number, law_check_stays_valid, poll_step,
    series_number, still_followed, valid_poll, with_highest, ActionView, BatchView, EventView,
    PollView, Section, Step,
};
use crate::search::search_step;
use crate::state::{FollowView, ReplayView};
use vstd::prelude::*;

verus! {

/// A moment of a check: downloads that were started by earlier checks complete, then the check is
/// told an event.
pub struct Moment {
    /// The recordings whose downloads complete.
    pub completed: Seq<ReplayView>,
    /// The event.
    pub event: EventView,
}

/// The state in which the event of a moment comes.
pub open spec fn state_at(s: FollowView, moment: Moment) -> FollowView {
    s.mark_all(moment.completed)
}

/// A check, and the state, after a moment.
pub open spec fn after_moment(p: PollView, s: FollowView, moment: Moment) -> (
    PollView,
    FollowView,
) {
    poll_step(p, state_at(s, moment), moment.event)
}

/// A check with these settings, and the state, after a list of moments.
pub open spec fn run(settings: Settings, s: FollowView, moments: Seq<Moment>) -> (
    PollView,
    FollowView,
)
    decreases moments.len(),
{
    if moments.len() == 0 {
        (begun_poll(settings), s)
    } else {
        let (p, so_far) = run(settings, s, moments.drop_last());
        after_moment(p, so_far, moments.last())
    }
}

/// Every check stays valid, and goes by the settings that it began with.
pub proof fn law_run_valid(settings: Settings, s: FollowView, moments: Seq<Moment>)
    ensures
        valid_poll(run(settings, s, moments).0),
        run(settings, s, moments).0.settings == settings,
    decreases moments.len(),
{
    if moments.len() > 0 {
        law_run_valid(settings, s, moments.drop_last());
        let (p, so_far) = run(settings, s, moments.drop_last());
        let moment = moments.last();
        law_check_stays_valid(p, state_at(so_far, moment), moment.event);
    }
}

/// What the batches' replays were marked for stays handled, and with it what was handled before.
pub proof fn lemma_baselined(s: FollowView, section: Section, batches: Seq<BatchView>)
    ensures
        s.handled_within(baselined(s, section, batches)),
        forall|b: int, i: int|
            #![trigger batches[b].items[i]]
            0 <= b < batches.len() && 0 <= i < batches[b].items.len() ==> baselined(
                s,
                section,
                batches,
            ).handled(batches[b].items[i]),
        ({
            let t = baselined(s, section, batches);
            t == with_highest(
                FollowView {
                    handled_ids: t.handled_ids,
                    handled_titles: t.handled_titles,
                    ..s
                },
                section,
                highest_number(t, section),
            )
        }),
    decreases batches.len(),
{
    if batches.len() > 0 {
        let front = batches.drop_last();
        let last = batches.last();
        lemma_baselined(s, section, front);
        let so_far = baselined(s, section, front);
        assert forall|b: int, i: int|
            #![trigger batches[b].items[i]]
            0 <= b < batches.len() && 0 <= i < batches[b].items.len() implies baselined(
            s,
            section,
            batches,
        ).handled(batches[b].items[i]) by {
            if b < front.len() {
                assert(front[b].items[i] == batches[b].items[i]);
            } else {
                lemma_mark_all_handles(so_far, last.items, i);
            }
        }
    }
}

/// A recording of a marked list is handled.
pub proof fn lemma_mark_all_handles(s: FollowView, replays: Seq<ReplayView>, i: int)
    requires
        0 <= i < replays.len(),
    ensures
        s.mark_all(replays).handled(replays[i]),
{
    let ids = replays.map_values(|r: ReplayView| r.id);
    assert(ids[i] == replays[i].id);
    assert(ids.to_set().contains(replays[i].id));
}

/// What is handled stays handled.
pub proof fn law_handled_stays_handled(p: PollView, s: FollowView, event: EventView)
    ensures
        s.handled_within(poll_step(p, s, event).1),
{
    if let EventView::Page(page) = event {
        let (search, step) = search_step(p.search, page);
        let number = series_number(search.series);
        lemma_baselined(
            s,
            p.section,
            p.batches.push(BatchView { number, items: search.found }),
        );
    }
}

/// How a check comes to the steps of a replay that it has taken up: one after the other, each by
/// the answer that allows it.
pub proof fn lemma_step_before(p: PollView, s: FollowView, event: EventView)
    ensures
        ({
            let q = poll_step(p, s, event).0;
            &&& q.step == Step::Manifest ==> {
                &&& p.step == Step::Gate
                &&& event matches EventView::Config(config) && still_followed(p, config)
                &&& !s.handled(current(p))
                &&& p.section == Section::Ufc ==> may_queue_numbered(
                    p.settings.include_existing,
                    s.ufc_baseline_ts,
                    current(p).published,
                )
                &&& q == PollView { step: Step::Manifest, ..p }
            }
            &&& q.step == Step::Media ==> {
                &&& p.step == Step::Manifest
                &&& event == EventView::Manifest { access: true, title: q.title }
                &&& q == PollView { step: Step::Media, title: q.title, ..p }
            }
            &&& q.step == Step::MediaSaved ==> {
                &&& p.step == Step::Media
                &&& q == PollView { step: Step::MediaSaved, ..p }
            }
            &&& q.step == Step::Activity ==> {
                &&& p.step == Step::Media
                &&& event == EventView::Media(false)
                &&& q == PollView { step: Step::Activity, ..p }
            }
            &&& q.step == Step::Download ==> {
                &&& p.step == Step::Activity
                &&& event matches EventView::Activity { config, downloading }
                    && config.auto_follow_replays && config.signed_in && !downloading
                &&& q == PollView { step: Step::Download, ..p }
            }
        }),
{
}

/// The check before the last moment of a run.
proof fn lemma_run_last(settings: Settings, s: FollowView, moments: Seq<Moment>, n: int)
    requires
        0 < n <= moments.len(),
    ensures
        run(settings, s, moments.take(n)) == after_moment(
            run(settings, s, moments.take(n - 1)).0,
            run(settings, s, moments.take(n - 1)).1,
            moments[n - 1],
        ),
{
    assert(moments.take(n).drop_last() =~= moments.take(n - 1));
}

/// No download is started but of a replay that was cleared in the moments before: the
/// configuration still asked for it and it was not handled, its manifest was fetched and gave
/// access, no recording of the manifest's title was on disk, and then replays were followed, the
/// subscriber was signed in and no download was running.
pub proof fn law_download_is_cleared(
    settings: Settings,
    s: FollowView,
    moments: Seq<Moment>,
    replay: ReplayView,
)
    requires
        action_of(run(settings, s, moments).0) == (ActionView::StartDownload { replay }),
    ensures
        ({
            let n = moments.len() as int;
            let (p4, s4) = run(settings, s, moments.take(n - 4));
            let p3 = run(settings, s, moments.take(n - 3)).0;
            let p2 = run(settings, s, moments.take(n - 2)).0;
            let p1 = run(settings, s, moments.take(n - 1)).0;
            &&& n >= 4
            &&& action_of(p4) == ActionView::ReadConfig
            &&& moments[n - 4].event matches EventView::Config(config) && still_followed(p4, config)
            &&& !state_at(s4, moments[n - 4]).handled(replay)
            &&& action_of(p3) == ActionView::FetchManifest { id: replay.id }
            &&& moments[n - 3].event == EventView::Manifest { access: true, title: p2.title }
            &&& action_of(p2) == ActionView::CheckMedia { title: p2.title }
            &&& moments[n - 2].event == EventView::Media(false)
            &&& action_of(p1) == ActionView::ReadActivity
            &&& moments[n - 1].event matches EventView::Activity { config, downloading }
                && config.auto_follow_replays && config.signed_in && !downloading
        }),
{
    let n = moments.len() as int;
    assert(moments.take(n) =~= moments);
    lemma_back(settings, s, moments, n);
    lemma_back(settings, s, moments, n - 1);
    lemma_back(settings, s, moments, n - 2);
    lemma_back(settings, s, moments, n - 3);
}

/// How a run came to the steps of a replay that it has taken up: it is not at its beginning, and
/// the last moment is the one that allowed the step.
proof fn lemma_back(settings: Settings, s: FollowView, moments: Seq<Moment>, n: int)
    requires
        0 <= n <= moments.len(),
        ({
            let step = run(settings, s, moments.take(n)).0.step;
            step == Step::Manifest || step == Step::Media || step == Step::Activity || step
                == Step::Download
        }),
    ensures
        n > 0,
        run(settings, s, moments.take(n)) == after_moment(
            run(settings, s, moments.take(n - 1)).0,
            run(settings, s, moments.take(n - 1)).1,
            moments[n - 1],
        ),
        ({
            let (p, so_far) = run(settings, s, moments.take(n - 1));
            let q = run(settings, s, moments.take(n)).0;
            let state = state_at(so_far, moments[n - 1]);
            let event = moments[n - 1].event;
            &&& current(p) == current(q)
            &&& q.step == Step::Manifest ==> p.step == Step::Gate && (event matches
                EventView::Config(config) && still_followed(p, config)) && !state.handled(
                current(p),
            )
            &&& q.step == Step::Media ==> p.step == Step::Manifest && event == (
            EventView::Manifest { access: true, title: q.title })
            &&& q.step == Step::Activity ==> p.step == Step::Media && event == EventView::Media(
                false,
            ) && p.title == q.title
            &&& q.step == Step::Download ==> p.step == Step::Activity && (event matches
                EventView::Activity { config, downloading } && config.auto_follow_replays
                && config.signed_in && !downloading)
        }),
{
    if n > 0 {
        lemma_run_last(settings, s, moments, n);
        let (p, so_far) = run(settings, s, moments.take(n - 1));
        lemma_step_before(p, state_at(so_far, moments[n - 1]), moments[n - 1].event);
    } else {
        assert(moments.take(0) =~= Seq::<Moment>::empty());
    }
}

/// The steps after which a check wants nothing more.
pub open spec fn is_over(step: Step) -> bool {
    step == Step::Done || step is Failed
}

/// A check that is over, or that waits for its download to be queued, is over after any event.
proof fn lemma_over(p: PollView, s: FollowView, event: EventView)
    requires
        p.step == Step::Download || is_over(p.step),
    ensures
        is_over(poll_step(p, s, event).0.step),
{
}

/// A check that wants a download started, or that is over, is over after any further moments: one
/// check starts at most one download.
pub proof fn law_one_download_per_check(
    settings: Settings,
    s: FollowView,
    moments: Seq<Moment>,
    i: int,
    j: int,
)
    requires
        0 <= i < j <= moments.len(),
        action_of(run(settings, s, moments.take(i)).0) is StartDownload || is_over(
            run(settings, s, moments.take(i)).0.step,
        ),
    ensures
        is_over(run(settings, s, moments.take(j)).0.step),
        !(action_of(run(settings, s, moments.take(j)).0) is StartDownload),
    decreases j - i,
{
    lemma_run_last(settings, s, moments, j);
    if i < j - 1 {
        law_one_download_per_check(settings, s, moments, i, j - 1);
    }
    let (p, so_far) = run(settings, s, moments.take(j - 1));
    lemma_over(p, state_at(so_far, moments[j - 1]), moments[j - 1].event);
}

/// A replay that is due is downloaded: where the configuration still asks for it, it is not
/// handled and no watermark keeps it back, its manifest gives access, no recording of it is on
/// disk and nothing else stands against it, the check wants its download started.
pub proof fn law_due_replay_is_downloaded(
    p: PollView,
    s: FollowView,
    config: Config,
    title: Seq<char>,
    later: Config,
)
    requires
        p.step == Step::Gate,
        still_followed(p, config),
        p.section == Section::Ufc ==> may_queue_numbered(
            p.settings.include_existing,
            s.ufc_baseline_ts,
            current(p).published,
        ),
        !s.handled(current(p)),
        later.auto_follow_replays,
        later.signed_in,
    ensures
        ({
            let (p1, s1) = poll_step(p, s, EventView::Config(config));
            let (p2, s2) = poll_step(p1, s1, EventView::Manifest { access: true, title });
            let (p3, s3) = poll_step(p2, s2, EventView::Media(false));
            let (p4, s4) = poll_step(
                p3,
                s3,
                EventView::Activity { config: later, downloading: false },
            );
            &&& action_of(p4) == ActionView::StartDownload { replay: current(p) }
            &&& s4 == s
        }),
{
}

/// What is handled when a check begins is handled at every moment of it.
pub proof fn law_run_keeps_handled(settings: Settings, s: FollowView, moments: Seq<Moment>)
    ensures
        s.handled_within(run(settings, s, moments).1),
    decreases moments.len(),
{
    if moments.len() > 0 {
        let front = moments.drop_last();
        law_run_keeps_handled(settings, s, front);
        let (p, so_far) = run(settings, s, front);
        law_handled_stays_handled(p, state_at(so_far, moments.last()), moments.last().event);
    }
}

/// A recording that is handled when a check begins, because its download completed, because it
/// was on disk or because a first check passed it over, is not downloaded, neither by its number
/// nor by its title.
pub proof fn law_handled_is_never_downloaded(
    settings: Settings,
    s: FollowView,
    moments: Seq<Moment>,
    replay: ReplayView,
)
    requires
        s.handled(replay),
    ensures
        action_of(run(settings, s, moments).0) != (ActionView::StartDownload { replay }),
{
    if action_of(run(settings, s, moments).0) == (ActionView::StartDownload { replay }) {
        law_download_is_cleared(settings, s, moments, replay);
        law_run_keeps_handled(settings, s, moments.take(moments.len() - 4));
    }
}

/// Once the download of a recording has completed, no later check downloads it.
pub proof fn law_completed_is_never_downloaded_again(
    settings: Settings,
    s: FollowView,
    replay: ReplayView,
    later: FollowView,
    moments: Seq<Moment>,
    other: ReplayView,
)
    requires
        s.mark(replay.id, replay.title).handled_within(later),
        other.id == replay.id || other.title == replay.title,
    ensures
        action_of(run(settings, later, moments).0) != (ActionView::StartDownload { replay: other }),
{
    assert(s.mark(replay.id, replay.title).handled_ids.contains(replay.id));
    assert(s.mark(replay.id, replay.title).handled_titles.contains(replay.title));
    law_handled_is_never_downloaded(settings, later, moments, other);
}

} // verus!
