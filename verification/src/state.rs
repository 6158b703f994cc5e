//! What the followers remember between checks.

use crate::text::same_text;
use std::collections::HashSet;
use vstd::prelude::*;
use vstd::std_specs::hash::group_hash_axioms;
use vstd::string::*;

verus! {

broadcast use group_hash_axioms;

/// A recording that a search found.
#[derive(Debug)]
pub struct Replay {
    /// The recording's number.
    pub id: u64,
    /// Its title.
    pub title: String,
    /// When it was published, as the search gave it; empty where it gave nothing.
    pub published: String,
}

/// The contents of a `Replay`.
pub struct ReplayView {
    /// The recording's number.
    pub id: u64,
    /// Its title.
    pub title: Seq<char>,
    /// When it was published.
    pub published: Seq<char>,
}

impl View for Replay {
    type V = ReplayView;

    open spec fn view(&self) -> ReplayView {
        ReplayView { id: self.id, title: self.title@, published: self.published@ }
    }
}

impl Clone for Replay {
    fn clone(&self) -> (r: Self)
        ensures
            r == *self,
    {
        Replay { id: self.id, title: self.title.clone(), published: self.published.clone() }
    }
}

/// The contents of a list of replays.
pub open spec fn replay_views(replays: Seq<Replay>) -> Seq<ReplayView> {
    replays.map_values(|replay: Replay| replay@)
}

/// A set of titles, in the order in which they came; no title occurs twice.
#[derive(Debug)]
pub struct TitleSet {
    titles: Vec<String>,
}

impl View for TitleSet {
    type V = Set<Seq<char>>;

    closed spec fn view(&self) -> Set<Seq<char>> {
        self.titles@.map_values(|title: String| title@).to_set()
    }
}

impl TitleSet {
    /// No title occurs twice.
    #[verifier::type_invariant]
    spec fn distinct(self) -> bool {
        self.titles@.map_values(|title: String| title@).no_duplicates()
    }

    /// The empty set.
    pub fn new() -> (r: TitleSet)
        ensures
            r@ == Set::<Seq<char>>::empty(),
    {
        let r = TitleSet { titles: Vec::new() };
        assert(r@ =~= Set::<Seq<char>>::empty());
        r
    }

    /// Whether a title is in the set.
    pub fn contains(&self, title: &str) -> (r: bool)
        ensures
            r == self@.contains(title@),
    {
        let ghost views = self.titles@.map_values(|title: String| title@);
        let mut i: usize = 0;
        while i < self.titles.len()
            invariant
                views == self.titles@.map_values(|title: String| title@),
                i <= self.titles.len(),
                forall|j: int| 0 <= j < i ==> views[j] != title@,
            decreases self.titles.len() - i,
        {
            if same_text(self.titles[i].as_str(), title) {
                assert(views[i as int] == title@);
                return true;
            }
            i = i + 1;
        }
        false
    }

    /// Adds a title; says whether it is new.
    pub fn insert(&mut self, title: String) -> (r: bool)
        ensures
            final(self)@ == old(self)@.insert(title@),
            r == !old(self)@.contains(title@),
    {
        if self.contains(title.as_str()) {
            assert(self@.insert(title@) =~= self@);
            return false;
        }
        proof {
            use_type_invariant(&*self);
        }
        let ghost before = self.titles@.map_values(|title: String| title@);
        let mut titles: Vec<String> = Vec::new();
        std::mem::swap(&mut titles, &mut self.titles);
        titles.push(title);
        proof {
            let after = titles@.map_values(|title: String| title@);
            assert(after =~= before.push(title@));
            lemma_push_to_set(before, title@);
        }
        self.titles = titles;
        true
    }

    /// The titles, each once, in the order in which they came.
    pub fn list(&self) -> (r: Vec<String>)
        ensures
            r@.map_values(|title: String| title@).no_duplicates(),
            r@.map_values(|title: String| title@).to_set() == self@,
    {
        proof {
            use_type_invariant(self);
        }
        self.titles.clone()
    }
}

/// What the followers remember between checks.
#[derive(Debug)]
pub struct FollowState {
    /// The recordings that need no further download, by number.
    pub handled_ids: HashSet<u64>,
    /// The recordings that need no further download, by title.
    pub handled_titles: TitleSet,
    /// Whether the Contender Series has had its first check.
    pub contender_initialized: bool,
    /// Whether the Fight Nights have had their first check.
    pub fight_night_initialized: bool,
    /// The publication date of the newest Fight Night at the first check.
    pub fight_night_baseline: String,
    /// The event whose older segments are still wanted.
    pub fight_night_latest_event: String,
    /// The UFC number whose first check is done.
    pub ufc_initialized_number: u16,
    /// The highest UFC number seen.
    pub highest_ufc_number: u16,
    /// The watermark of the numbered UFC follower.
    pub ufc_baseline_ts: String,
    /// The UFC BJJ number whose first check is done.
    pub bjj_initialized_number: u16,
    /// The highest UFC BJJ number seen.
    pub highest_bjj_number: u16,
}

/// The contents of a `FollowState`.
#[verifier::ext_equal]
pub struct FollowView {
    /// The handled recordings, by number.
    pub handled_ids: Set<u64>,
    /// The handled recordings, by title.
    pub handled_titles: Set<Seq<char>>,
    /// Whether the Contender Series has had its first check.
    pub contender_initialized: bool,
    /// Whether the Fight Nights have had their first check.
    pub fight_night_initialized: bool,
    /// The publication date of the newest Fight Night at the first check.
    pub fight_night_baseline: Seq<char>,
    /// The event whose older segments are still wanted.
    pub fight_night_latest_event: Seq<char>,
    /// The UFC number whose first check is done.
    pub ufc_initialized_number: u16,
    /// The highest UFC number seen.
    pub highest_ufc_number: u16,
    /// The watermark of the numbered UFC follower.
    pub ufc_baseline_ts: Seq<char>,
    /// The UFC BJJ number whose first check is done.
    pub bjj_initialized_number: u16,
    /// The highest UFC BJJ number seen.
    pub highest_bjj_number: u16,
}

impl View for FollowState {
    type V = FollowView;

    open spec fn view(&self) -> FollowView {
        FollowView {
            handled_ids: self.handled_ids@,
            handled_titles: self.handled_titles@,
            contender_initialized: self.contender_initialized,
            fight_night_initialized: self.fight_night_initialized,
            fight_night_baseline: self.fight_night_baseline@,
            fight_night_latest_event: self.fight_night_latest_event@,
            ufc_initialized_number: self.ufc_initialized_number,
            highest_ufc_number: self.highest_ufc_number,
            ufc_baseline_ts: self.ufc_baseline_ts@,
            bjj_initialized_number: self.bjj_initialized_number,
            highest_bjj_number: self.highest_bjj_number,
        }
    }
}

impl FollowView {
    /// Nothing handled, nothing initialized.
    pub open spec fn fresh() -> FollowView {
        FollowView {
            handled_ids: Set::empty(),
            handled_titles: Set::empty(),
            contender_initialized: false,
            fight_night_initialized: false,
            fight_night_baseline: Seq::empty(),
            fight_night_latest_event: Seq::empty(),
            ufc_initialized_number: 0,
            highest_ufc_number: 0,
            ufc_baseline_ts: Seq::empty(),
            bjj_initialized_number: 0,
            highest_bjj_number: 0,
        }
    }

    /// The recording needs no further download: its number or its title is known.
    pub open spec fn handled(self, replay: ReplayView) -> bool {
        self.handled_ids.contains(replay.id) || self.handled_titles.contains(replay.title)
    }

    /// The state with one more recording handled.
    pub open spec fn mark(self, id: u64, title: Seq<char>) -> FollowView {
        FollowView {
            handled_ids: self.handled_ids.insert(id),
            handled_titles: self.handled_titles.insert(title),
            ..self
        }
    }

    /// The state with all recordings of a list handled.
    pub open spec fn mark_all(self, replays: Seq<ReplayView>) -> FollowView {
        FollowView {
            handled_ids: self.handled_ids.union(replays.map_values(|r: ReplayView| r.id).to_set()),
            handled_titles: self.handled_titles.union(
                replays.map_values(|r: ReplayView| r.title).to_set(),
            ),
            ..self
        }
    }

    /// What is handled in `self` is handled in `later`.
    pub open spec fn handled_within(self, later: FollowView) -> bool {
        self.handled_ids.subset_of(later.handled_ids) && self.handled_titles.subset_of(
            later.handled_titles,
        )
    }
}

impl Default for FollowState {
    /// The state before any check.
    fn default() -> (r: FollowState)
        ensures
            r@ == FollowView::fresh(),
    {
        FollowState {
            handled_ids: HashSet::new(),
            handled_titles: TitleSet::new(),
            contender_initialized: false,
            fight_night_initialized: false,
            fight_night_baseline: String::new(),
            fight_night_latest_event: String::new(),
            ufc_initialized_number: 0,
            highest_ufc_number: 0,
            ufc_baseline_ts: String::new(),
            bjj_initialized_number: 0,
            highest_bjj_number: 0,
        }
    }
}

impl FollowState {
    /// Whether a recording needs no further download.
    pub fn is_handled(&self, id: u64, title: &str) -> (r: bool)
        ensures
            r == (self@.handled_ids.contains(id) || self@.handled_titles.contains(title@)),
    {
        self.handled_ids.contains(&id) || self.handled_titles.contains(title)
    }

    /// Remembers that a recording needs no further download.
    pub fn mark_handled(&mut self, id: u64, title: String)
        ensures
            final(self)@ == old(self)@.mark(id, title@),
    {
        self.handled_ids.insert(id);
        self.handled_titles.insert(title);
    }

    /// Remembers that the recordings of a list, from index `from` on, need no further download.
    pub fn mark_handled_from(&mut self, replays: &Vec<Replay>, from: usize)
        ensures
            from <= replays.len() ==> final(self)@ == old(self)@.mark_all(
                replay_views(replays@).skip(from as int),
            ),
            from > replays.len() ==> final(self)@ == old(self)@,
    {
        if from > replays.len() {
            return ;
        }
        let ghost all = replay_views(replays@).skip(from as int);
        let ghost start = self@;
        let mut i: usize = from;
        proof {
            assert(all.take(0) =~= Seq::<ReplayView>::empty());
            lemma_mark_none(start);
        }
        while i < replays.len()
            invariant
                from <= i <= replays.len(),
                all == replay_views(replays@).skip(from as int),
                self@ == start.mark_all(all.take(i - from)),
            decreases replays.len() - i,
        {
            self.mark_handled(replays[i].id, replays[i].title.clone());
            proof {
                let done = all.take(i - from);
                let next = replays@[i as int]@;
                assert(all[i - from] == next);
                assert(all.take(i + 1 - from) =~= done.push(next));
                lemma_mark_push(start, done, next);
            }
            i = i + 1;
        }
        assert(all.take(i - from) =~= all);
    }
}

/// To mark the recordings of an empty list changes nothing.
pub proof fn lemma_mark_none(state: FollowView)
    ensures
        state.mark_all(Seq::empty()) == state,
{
    assert(state.mark_all(Seq::empty()) =~= state);
}

/// To mark the recordings of a list and then one more is to mark the longer list.
pub proof fn lemma_mark_push(state: FollowView, replays: Seq<ReplayView>, replay: ReplayView)
    ensures
        state.mark_all(replays).mark(replay.id, replay.title) == state.mark_all(
            replays.push(replay),
        ),
{
    let longer = replays.push(replay);
    let ids = replays.map_values(|r: ReplayView| r.id);
    let titles = replays.map_values(|r: ReplayView| r.title);
    assert(longer.map_values(|r: ReplayView| r.id) =~= ids.push(replay.id));
    assert(longer.map_values(|r: ReplayView| r.title) =~= titles.push(replay.title));
    lemma_push_to_set(ids, replay.id);
    lemma_push_to_set(titles, replay.title);
    assert(state.mark_all(replays).mark(replay.id, replay.title) =~= state.mark_all(longer));
}

/// The set of a list with one more item.
pub proof fn lemma_push_to_set<A>(s: Seq<A>, a: A)
    ensures
        s.push(a).to_set() == s.to_set().insert(a),
{
    let longer = s.push(a);
    assert forall|x: A| #[trigger]
        longer.to_set().contains(x) == s.to_set().insert(a).contains(x) by {
        if s.contains(x) {
            let k = choose|k: int| 0 <= k < s.len() && s[k] == x;
            assert(longer[k] == x);
        }
        assert(longer[s.len() as int] == a);
    }
    assert(longer.to_set() =~= s.to_set().insert(a));
}

/// To mark recordings marks their numbers and their titles, and nothing else: a recording is then
/// handled just where it was before or one of them has its number or its title.
pub proof fn law_marks(state: FollowView, replays: Seq<ReplayView>, replay: ReplayView)
    ensures
        ({
            let after = state.mark_all(replays);
            &&& after.handled(replay) <==> {
                ||| state.handled_ids.contains(replay.id)
                ||| state.handled_titles.contains(replay.title)
                ||| exists|i: int| 0 <= i < replays.len() && (#[trigger] replays[i]).id == replay.id
                ||| exists|i: int|
                    0 <= i < replays.len() && (#[trigger] replays[i]).title == replay.title
            }
            &&& after == (FollowView {
                handled_ids: after.handled_ids,
                handled_titles: after.handled_titles,
                ..state
            })
        }),
        ({
            let after = state.mark(replay.id, replay.title);
            &&& after.handled_ids == state.handled_ids.insert(replay.id)
            &&& after.handled_titles == state.handled_titles.insert(replay.title)
            &&& after == (FollowView {
                handled_ids: after.handled_ids,
                handled_titles: after.handled_titles,
                ..state
            })
        }),
{
    let ids = replays.map_values(|r: ReplayView| r.id);
    let titles = replays.map_values(|r: ReplayView| r.title);
    if exists|i: int| 0 <= i < replays.len() && (#[trigger] replays[i]).id == replay.id {
        let i = choose|i: int| 0 <= i < replays.len() && (#[trigger] replays[i]).id == replay.id;
        assert(ids[i] == replay.id);
        assert(ids.to_set().contains(replay.id));
    }
    if exists|i: int| 0 <= i < replays.len() && (#[trigger] replays[i]).title == replay.title {
        let i = choose|i: int|
            0 <= i < replays.len() && (#[trigger] replays[i]).title == replay.title;
        assert(titles[i] == replay.title);
        assert(titles.to_set().contains(replay.title));
    }
    if ids.to_set().contains(replay.id) {
        let i = choose|i: int| 0 <= i < ids.len() && ids[i] == replay.id;
        assert(replays[i].id == replay.id);
    }
    if titles.to_set().contains(replay.title) {
        let i = choose|i: int| 0 <= i < titles.len() && titles[i] == replay.title;
        assert(replays[i].title == replay.title);
    }
}

/// Before any check nothing is handled and nothing has begun.
pub proof fn law_fresh_state(replay: ReplayView)
    ensures
        ({
            let fresh = FollowView::fresh();
            &&& !fresh.handled(replay)
            &&& !fresh.contender_initialized
            &&& !fresh.fight_night_initialized
            &&& fresh.fight_night_baseline.len() == 0
            &&& fresh.fight_night_latest_event.len() == 0
            &&& fresh.ufc_baseline_ts.len() == 0
            &&& fresh.ufc_initialized_number == 0
            &&& fresh.highest_ufc_number == 0
            &&& fresh.bjj_initialized_number == 0
            &&& fresh.highest_bjj_number == 0
        }),
{
}

} // verus!
