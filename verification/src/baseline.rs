//! The publication watermark of the numbered UFC follower.

use crate::calendar::{iso, law_iso_shape};
use crate::published::{
    carries_date, has_calendar_date, is_published_after, law_iso_tells_the_time,
    law_later_times_are_published_after, law_time_order, published_after,
};
use crate::text::lemma_before_irreflexive;
use vstd::prelude::*;

verus! {

/// Whether the selected numbered-UFC event should record a first-check
/// publication watermark: when Include-available is off and this is a new
/// selection or a legacy state with no watermark yet.
pub fn ufc_take_baseline(
    include_existing: bool,
    is_new_selection: bool,
    baseline_empty: bool,
) -> (r: bool)
    ensures
        r == (!include_existing && (is_new_selection || baseline_empty)),
{
    !include_existing && (is_new_selection || baseline_empty)
}

/// A numbered-UFC replay may be queued: Include-available is on, there is no watermark, or the
/// replay carries a date that the calendar has and was published after the watermark.
pub open spec fn may_queue_numbered(
    include_existing: bool,
    baseline: Seq<char>,
    published: Seq<char>,
) -> bool {
    include_existing || baseline.len() == 0 || (carries_date(published) && published_after(
        published,
        baseline,
    ))
}

/// Whether a numbered-UFC replay may be queued. With Include-available off and a
/// watermark set, only publications strictly after the watermark qualify;
/// missing or malformed dates are treated as pre-existing so old content is
/// never backfilled.
pub fn numbered_replay_allowed(include_existing: bool, baseline: &str, published: &str) -> (r: bool)
    ensures
        r == may_queue_numbered(include_existing, baseline@, published@),
{
    if include_existing || baseline.is_empty() {
        return true;
    }
    has_calendar_date(published) && is_published_after(published, baseline)
}

/// Of two moments of the years 1970 to 9999 the one passes the other as a watermark just where it
/// is later.
pub proof fn law_later_moments_pass(watermark: int, moment: int)
    requires
        0 <= watermark < 253_402_300_800,
        0 <= moment < 253_402_300_800,
    ensures
        may_queue_numbered(false, iso(watermark), iso(moment)) <==> watermark < moment,
{
    law_iso_shape(watermark);
    law_iso_tells_the_time(moment);
    law_later_times_are_published_after(watermark, moment);
}

/// Where existing recordings are wanted, or there is no watermark, everything passes; else nothing
/// passes whose date is missing or malformed.
pub proof fn law_what_passes_a_watermark(
    include_existing: bool,
    baseline: Seq<char>,
    published: Seq<char>,
)
    ensures
        include_existing || baseline.len() == 0 ==> may_queue_numbered(
            include_existing,
            baseline,
            published,
        ),
        !include_existing && baseline.len() > 0 && published.len() < 10 ==> !may_queue_numbered(
            include_existing,
            baseline,
            published,
        ),
        !include_existing && baseline.len() > 0 && !carries_date(published) ==> !may_queue_numbered(
            include_existing,
            baseline,
            published,
        ),
        !may_queue_numbered(false, baseline, baseline) || baseline.len() == 0,
{
    law_time_order(baseline, baseline, baseline);
    lemma_before_irreflexive(baseline);
}

} // verus!
