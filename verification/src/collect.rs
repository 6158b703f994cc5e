//! Collecting the replays of Fight Nights.

use crate::keys::{
    bare_keys, latest_year, latest_year_of, law_noted, law_noted_date, lemma_year_bound, noted,
    select_fight_night_keys, selected_keys, text_views, DatedKey, EventDates,
};
use crate::search::{
    all_candidates, candidate, candidate_of, candidates_of, hit_views, query, query_of, Hit,
    HitView, MAX_PAGES, PageView, SearchError, SearchPage, SearchStep, Series,
};
use crate::state::{lemma_push_to_set, replay_views, Replay, ReplayView};
use crate::text::{before, lemma_before_irreflexive, lemma_before_total, lemma_before_transitive};
use crate::titles::{fight_night_event_key_any, fight_night_event_key_of};
use std::collections::HashSet;
use vstd::prelude::*;
use vstd::std_specs::hash::group_hash_axioms;
use vstd::string::*;

verus! {

broadcast use group_hash_axioms;

/// Upper bound on Fight Night event keys deep-searched per check.
pub const FIGHT_NIGHT_KEY_LIMIT: usize = 64;

/// A request to the search service.
#[derive(Debug)]
pub enum Ask {
    /// A page of the recordings that hold a phrase.
    Vods { query: String, page: u64 },
    /// The playlists of a year that hold a phrase.
    Playlists { query: String, year: u32 },
}

/// The contents of an `Ask`.
pub enum AskView {
    /// A page of the recordings that hold a phrase.
    Vods { query: Seq<char>, page: u64 },
    /// The playlists of a year that hold a phrase.
    Playlists { query: Seq<char>, year: u32 },
}

impl View for Ask {
    type V = AskView;

    open spec fn view(&self) -> AskView {
        match *self {
            Ask::Vods { query, page } => AskView::Vods { query: query@, page },
            Ask::Playlists { query, year } => AskView::Playlists { query: query@, year },
        }
    }
}

/// How far a collection has come.
#[derive(Clone, Copy, PartialEq, Eq, Structural, Debug)]
pub enum CollectPhase {
    /// It scans the recordings for event keys, page by page.
    Broad { page: u64 },
    /// It scans the playlists of a year for event keys; `second` says that the year before is
    /// meant.
    Playlists { year: u32, second: bool },
    /// It searches for the recordings of the selected key of this index.
    Deep { next: usize },
    /// It is complete.
    Finished,
}

/// A collection of Fight Night replays. The broad phrase search is capped by the search service
/// and ranked by relevance, so recent full replays are not reachable directly. Instead event keys
/// are derived from any matching title (individual bouts end with the event name) and from the
/// playlists of the latest two years, and the newest keys are searched in depth, stopping at the
/// known baseline and a hard cap.
#[derive(Debug)]
pub struct Collector {
    /// Dated keys that are older than this are left out.
    pub baseline: String,
    /// How far the collection has come.
    pub phase: CollectPhase,
    /// The event keys found so far.
    pub keys: EventDates,
    /// The keys that are searched in depth.
    pub selected: Vec<String>,
    /// The replays found so far, each once.
    pub found: Vec<Replay>,
    /// The numbers of the replays found so far.
    pub seen: HashSet<u64>,
}

/// The contents of a `Collector`.
#[verifier::ext_equal]
pub struct CollectorView {
    /// Dated keys that are older than this are left out.
    pub baseline: Seq<char>,
    /// How far the collection has come.
    pub phase: CollectPhase,
    /// The event keys found so far.
    pub keys: Seq<DatedKey>,
    /// The keys that are searched in depth.
    pub selected: Seq<Seq<char>>,
    /// The replays found so far.
    pub found: Seq<ReplayView>,
    /// The numbers of the replays found so far.
    pub seen: Set<u64>,
}

impl View for Collector {
    type V = CollectorView;

    open spec fn view(&self) -> CollectorView {
        CollectorView {
            baseline: self.baseline@,
            phase: self.phase,
            keys: self.keys@,
            selected: text_views(self.selected@),
            found: replay_views(self.found@),
            seen: self.seen@,
        }
    }
}

/// The keys with the key of a hit's title, and with the hit's date where `dated` is set.
pub open spec fn note_hit(keys: Seq<DatedKey>, hit: HitView, dated: bool) -> Seq<DatedKey> {
    match hit.name {
        Some(name) => match fight_night_event_key_of(name) {
            Some(key) => noted(
                keys,
                key,
                match hit.published {
                    Some(published) => if dated {
                        published
                    } else {
                        Seq::empty()
                    },
                    None => Seq::empty(),
                },
            ),
            None => keys,
        },
        None => keys,
    }
}

/// The keys with the keys of all hits, one after the other.
pub open spec fn note_hits(keys: Seq<DatedKey>, hits: Seq<HitView>, dated: bool) -> Seq<DatedKey>
    decreases hits.len(),
{
    if hits.len() == 0 {
        keys
    } else {
        note_hit(note_hits(keys, hits.drop_last(), dated), hits.last(), dated)
    }
}

/// A list of replays with those of `more` whose numbers have not been seen, and the numbers seen
/// then.
pub open spec fn with_unseen(
    found: Seq<ReplayView>,
    seen: Set<u64>,
    more: Seq<ReplayView>,
) -> (Seq<ReplayView>, Set<u64>)
    decreases more.len(),
{
    if more.len() == 0 {
        (found, seen)
    } else {
        let (f, s) = with_unseen(found, seen, more.drop_last());
        let replay = more.last();
        if s.contains(replay.id) {
            (f, s)
        } else {
            (f.push(replay), s.insert(replay.id))
        }
    }
}

/// The phrase that searches for an event's recordings.
pub open spec fn deep_query_of(key: Seq<char>) -> Seq<char> {
    "\"UFC Fight Night: "@ + key + "\""@
}

/// A collection that begins.
pub open spec fn begun_collection(baseline: Seq<char>) -> CollectorView {
    CollectorView {
        baseline,
        phase: CollectPhase::Broad { page: 0 },
        keys: Seq::empty(),
        selected: Seq::empty(),
        found: Seq::empty(),
        seen: Set::empty(),
    }
}

/// The collection once its keys are known: it searches for the selected keys, if there are any.
pub open spec fn deep_begun(c: CollectorView) -> (CollectorView, SearchStep) {
    let selected = selected_keys(c.keys, c.baseline, FIGHT_NIGHT_KEY_LIMIT as nat);
    if selected.len() == 0 {
        (CollectorView { selected, phase: CollectPhase::Finished, ..c }, SearchStep::Complete)
    } else {
        (
            CollectorView { selected, phase: CollectPhase::Deep { next: 0 }, ..c },
            SearchStep::NextPage,
        )
    }
}

/// The collection once the broad scan is done: it goes on to the playlists of the latest year,
/// or, where no date tells a year, to the search in depth.
pub open spec fn broad_done(c: CollectorView) -> (CollectorView, SearchStep) {
    match latest_year_of(c.keys) {
        Some(year) => (
            CollectorView {
                phase: CollectPhase::Playlists { year: year as u32, second: false },
                ..c
            },
            SearchStep::NextPage,
        ),
        None => deep_begun(c),
    }
}

/// The collection after an answer, and what it does next.
pub open spec fn collect_step(c: CollectorView, page: PageView) -> (CollectorView, SearchStep) {
    match page.hits {
        None => (c, SearchStep::Failed(SearchError::InvalidResults)),
        Some(hits) => match c.phase {
            CollectPhase::Broad { page: at } => {
                let c = CollectorView { keys: note_hits(c.keys, hits, true), ..c };
                if at + 1 >= page.pages || at + 1 >= MAX_PAGES {
                    broad_done(c)
                } else {
                    (
                        CollectorView {
                            phase: CollectPhase::Broad { page: (at + 1) as u64 },
                            ..c
                        },
                        SearchStep::NextPage,
                    )
                }
            },
            CollectPhase::Playlists { year, second } => {
                let c = CollectorView { keys: note_hits(c.keys, hits, false), ..c };
                if second {
                    deep_begun(c)
                } else {
                    (
                        CollectorView {
                            phase: CollectPhase::Playlists { year, second: true },
                            ..c
                        },
                        SearchStep::NextPage,
                    )
                }
            },
            CollectPhase::Deep { next } => {
                let (found, seen) = with_unseen(
                    c.found,
                    c.seen,
                    candidates_of(hits, Series::FightNight),
                );
                let c = CollectorView { found, seen, ..c };
                if next + 1 < c.selected.len() {
                    (
                        CollectorView {
                            phase: CollectPhase::Deep { next: (next + 1) as usize },
                            ..c
                        },
                        SearchStep::NextPage,
                    )
                } else {
                    (CollectorView { phase: CollectPhase::Finished, ..c }, SearchStep::Complete)
                }
            },
            CollectPhase::Finished => (c, SearchStep::Complete),
        },
    }
}

/// What a collection asks for, as long as it is not complete.
pub open spec fn ask_of(c: CollectorView) -> Option<AskView> {
    match c.phase {
        CollectPhase::Broad { page } => Some(
            AskView::Vods { query: query_of(Series::FightNight), page },
        ),
        CollectPhase::Playlists { year, second } => Some(
            AskView::Playlists {
                query: query_of(Series::FightNight),
                year: if second && year > 0 {
                    (year - 1) as u32
                } else {
                    year
                },
            },
        ),
        CollectPhase::Deep { next } => if next < c.selected.len() {
            Some(AskView::Vods { query: deep_query_of(c.selected[next as int]), page: 0 })
        } else {
            None
        },
        CollectPhase::Finished => None,
    }
}

/// The broad scan leaves pages unread: its first page tells of more pages or of more hits than are
/// read.
pub open spec fn scan_truncated(c: CollectorView, result: PageView) -> bool {
    c.phase == (CollectPhase::Broad { page: 0 }) && (result.pages > MAX_PAGES || result.total
        > MAX_PAGES * 100)
}

/// Whether the broad scan leaves pages unread, as far as the result for `page` tells.
pub fn broad_scan_truncated(page: u64, result: &SearchPage) -> (r: bool)
    ensures
        r == (page == 0 && (result.pages > MAX_PAGES || result.total > MAX_PAGES * 100)),
{
    page == 0 && (result.pages > MAX_PAGES || result.total > MAX_PAGES * 100)
}

/// Notes the event keys of hits.
fn note_keys(keys: &mut EventDates, hits: &Vec<Hit>, dated: bool)
    ensures
        final(keys)@ == note_hits(old(keys)@, hit_views(hits@), dated),
{
    let ghost start = keys@;
    let ghost views = hit_views(hits@);
    let mut i: usize = 0;
    assert(views.take(0) =~= Seq::<HitView>::empty());
    while i < hits.len()
        invariant
            i <= hits.len(),
            views == hit_views(hits@),
            keys@ == note_hits(start, views.take(i as int), dated),
        decreases hits.len() - i,
    {
        proof {
            let upto = views.take(i + 1);
            assert(upto.drop_last() =~= views.take(i as int));
            assert(upto.last() == hits@[i as int]@);
        }
        match &hits[i].name {
            Some(name) => {
                match fight_night_event_key_any(name.as_str()) {
                    Some(key) => {
                        let published: &str = match &hits[i].published {
                            Some(published) => if dated {
                                published.as_str()
                            } else {
                                ""
                            },
                            None => "",
                        };
                        proof {
                            reveal_strlit("");
                            assert(""@ =~= Seq::<char>::empty());
                        }
                        keys.note(key, published);
                    },
                    None => {},
                }
            },
            None => {},
        }
        i = i + 1;
    }
    assert(views.take(i as int) =~= views);
}

impl Collector {
    /// Begins a collection.
    pub fn begin(baseline: &str) -> (r: Collector)
        ensures
            r@ == begun_collection(baseline@),
    {
        let r = Collector {
            baseline: String::from_str(baseline),
            phase: CollectPhase::Broad { page: 0 },
            keys: EventDates::new(),
            selected: Vec::new(),
            found: Vec::new(),
            seen: HashSet::new(),
        };
        assert(r@ =~= begun_collection(baseline@));
        r
    }

    /// What the collection asks for, as long as it is not complete.
    pub fn ask(&self) -> (r: Option<Ask>)
        ensures
            match r {
                Some(ask) => ask_of(self@) == Some(ask@),
                None => ask_of(self@) is None,
            },
    {
        match self.phase {
            CollectPhase::Broad { page } => Some(
                Ask::Vods { query: query(Series::FightNight), page },
            ),
            CollectPhase::Playlists { year, second } => {
                let asked: u32 = if second {
                    year.saturating_sub(1)
                } else {
                    year
                };
                Some(Ask::Playlists { query: query(Series::FightNight), year: asked })
            },
            CollectPhase::Deep { next } => {
                if next < self.selected.len() {
                    let mut query = String::from_str("\"UFC Fight Night: ");
                    query.append(self.selected[next].as_str());
                    query.append("\"");
                    Some(Ask::Vods { query, page: 0 })
                } else {
                    None
                }
            },
            CollectPhase::Finished => None,
        }
    }

    /// Chooses the keys to search in depth.
    fn begin_deep(&mut self) -> (r: SearchStep)
        ensures
            (final(self)@, r) == deep_begun(old(self)@),
    {
        self.selected =
        select_fight_night_keys(self.keys.pairs(), self.baseline.as_str(), FIGHT_NIGHT_KEY_LIMIT);
        if self.selected.len() == 0 {
            self.phase = CollectPhase::Finished;
            SearchStep::Complete
        } else {
            self.phase = CollectPhase::Deep { next: 0 };
            SearchStep::NextPage
        }
    }

    /// Adds the replays that hits stand for and that have not been seen.
    fn add_unseen(&mut self, hits: &Vec<Hit>)
        ensures
            ({
                let (found, seen) = with_unseen(
                    old(self)@.found,
                    old(self)@.seen,
                    candidates_of(hit_views(hits@), Series::FightNight),
                );
                final(self)@ == CollectorView { found, seen, ..old(self)@ }
            }),
    {
        let ghost start = self@;
        let ghost views = hit_views(hits@);
        let ghost f = |hit: HitView| candidate_of(hit, Series::FightNight);
        let mut i: usize = 0;
        assert(views.take(0) =~= Seq::<HitView>::empty());
        while i < hits.len()
            invariant
                i <= hits.len(),
                views == hit_views(hits@),
                f == (|hit: HitView| candidate_of(hit, Series::FightNight)),
                self@ == (CollectorView { found: self@.found, seen: self@.seen, ..start }),
                (self@.found, self@.seen) == with_unseen(
                    start.found,
                    start.seen,
                    views.take(i as int).filter_map(f),
                ),
            decreases hits.len() - i,
        {
            proof {
                let upto = views.take(i + 1);
                assert(upto.drop_last() =~= views.take(i as int));
                assert(upto.last() == hits@[i as int]@);
            }
            match candidate(&hits[i], Series::FightNight) {
                Some(replay) => {
                    let ghost more = views.take(i as int).filter_map(f);
                    proof {
                        assert((more + seq![replay@]).drop_last() =~= more);
                    }
                    let ghost so_far = replay_views(self.found@);
                    if self.seen.insert(replay.id) {
                        self.found.push(replay);
                        assert(replay_views(self.found@) =~= so_far.push(replay@));
                    } else {
                        assert(self@.seen =~= self@.seen.insert(replay.id));
                    }
                },
                None => {},
            }
            i = i + 1;
        }
        assert(views.take(i as int) =~= views);
    }

    /// Takes in an answer of the search service.
    pub fn take_page(&mut self, page: &SearchPage) -> (r: SearchStep)
        ensures
            (final(self)@, r) == collect_step(old(self)@, page@),
    {
        match &page.hits {
            None => SearchStep::Failed(SearchError::InvalidResults),
            Some(hits) => {
                match self.phase {
                    CollectPhase::Broad { page: at } => {
                        note_keys(&mut self.keys, hits, true);
                        let next: u64 = at.saturating_add(1);
                        if next >= page.pages || next >= MAX_PAGES {
                            match latest_year(&self.keys) {
                                Some(year) => {
                                    self.phase = CollectPhase::Playlists { year, second: false };
                                    SearchStep::NextPage
                                },
                                None => self.begin_deep(),
                            }
                        } else {
                            self.phase = CollectPhase::Broad { page: next };
                            SearchStep::NextPage
                        }
                    },
                    CollectPhase::Playlists { year, second } => {
                        note_keys(&mut self.keys, hits, false);
                        if second {
                            self.begin_deep()
                        } else {
                            self.phase = CollectPhase::Playlists { year, second: true };
                            SearchStep::NextPage
                        }
                    },
                    CollectPhase::Deep { next } => {
                        self.add_unseen(hits);
                        if next < self.selected.len() && next + 1 < self.selected.len() {
                            self.phase = CollectPhase::Deep { next: next + 1 };
                            SearchStep::NextPage
                        } else {
                            self.phase = CollectPhase::Finished;
                            SearchStep::Complete
                        }
                    },
                    CollectPhase::Finished => SearchStep::Complete,
                }
            },
        }
    }
}

/// The numbers of a list of replays.
pub open spec fn replay_ids(replays: Seq<ReplayView>) -> Seq<u64> {
    replays.map_values(|replay: ReplayView| replay.id)
}

/// A collection that can come about: the broad scan is within its pages, the selection is within
/// its limit and holds the key that is searched for, no replay was found twice, and the numbers
/// seen are those of the replays found.
pub open spec fn valid_collection(c: CollectorView) -> bool {
    &&& c.selected.len() <= FIGHT_NIGHT_KEY_LIMIT
    &&& c.phase matches CollectPhase::Broad { page } ==> page < MAX_PAGES
    &&& c.phase matches CollectPhase::Deep { next } ==> next < c.selected.len()
    &&& replay_ids(c.found).no_duplicates()
    &&& replay_ids(c.found).to_set() == c.seen
}

/// To add unseen replays keeps the list without duplicates, and the numbers seen those of the
/// list.
proof fn lemma_with_unseen(found: Seq<ReplayView>, seen: Set<u64>, more: Seq<ReplayView>)
    requires
        replay_ids(found).no_duplicates(),
        replay_ids(found).to_set() == seen,
    ensures
        ({
            let (f, s) = with_unseen(found, seen, more);
            &&& replay_ids(f).no_duplicates()
            &&& replay_ids(f).to_set() == s
        }),
    decreases more.len(),
{
    if more.len() > 0 {
        lemma_with_unseen(found, seen, more.drop_last());
        let (f, s) = with_unseen(found, seen, more.drop_last());
        let replay = more.last();
        if !s.contains(replay.id) {
            assert(replay_ids(f.push(replay)) =~= replay_ids(f).push(replay.id));
            lemma_push_to_set(replay_ids(f), replay.id);
            assert(!replay_ids(f).contains(replay.id));
        }
    }
}

/// Whatever is answered, a collection searches in depth for no more keys than the limit, finds no
/// replay twice, and asks for something as long as it goes on.
pub proof fn law_collection_stays_valid(c: CollectorView, page: PageView)
    requires
        valid_collection(c),
    ensures
        valid_collection(collect_step(c, page).0),
        collect_step(c, page).1 == SearchStep::NextPage ==> ask_of(collect_step(c, page).0) is Some,
{
    if let Some(hits) = page.hits {
        lemma_with_unseen(c.found, c.seen, candidates_of(hits, Series::FightNight));
    }
}

/// A collection begins valid, and asks for the first page of the broad scan.
pub proof fn law_collection_begins_valid(baseline: Seq<char>)
    ensures
        valid_collection(begun_collection(baseline)),
        ask_of(begun_collection(baseline)) == Some(
            AskView::Vods { query: query_of(Series::FightNight), page: 0 },
        ),
{
    assert(replay_ids(Seq::empty()) =~= Seq::<u64>::empty());
    assert(Seq::<u64>::empty().to_set() =~= Set::<u64>::empty());
}

/// How many answers a collection asks for at most from here on.
pub open spec fn asks_left(c: CollectorView) -> int {
    match c.phase {
        CollectPhase::Broad { page } => MAX_PAGES - page + 2 + FIGHT_NIGHT_KEY_LIMIT,
        CollectPhase::Playlists { second, .. } => if second {
            1 + FIGHT_NIGHT_KEY_LIMIT
        } else {
            2 + FIGHT_NIGHT_KEY_LIMIT
        },
        CollectPhase::Deep { next } => c.selected.len() - next,
        CollectPhase::Finished => 0,
    }
}

/// A collection comes to an end: with each answer after which it goes on fewer are left to ask
/// for.
pub proof fn law_collection_ends(c: CollectorView, page: PageView)
    requires
        valid_collection(c),
        collect_step(c, page).1 == SearchStep::NextPage,
    ensures
        0 < asks_left(collect_step(c, page).0) < asks_left(c),
{
}

/// A collection after a list of answers: it takes them in, one by one, as long as it asks for more.
pub open spec fn collect_run(c: CollectorView, pages: Seq<PageView>) -> (CollectorView, SearchStep)
    decreases pages.len(),
{
    if pages.len() == 0 {
        (c, SearchStep::NextPage)
    } else {
        let (so_far, step) = collect_run(c, pages.drop_last());
        if step == SearchStep::NextPage {
            collect_step(so_far, pages.last())
        } else {
            (so_far, step)
        }
    }
}

/// The keys with the keys of all pages' hits, page after page.
pub open spec fn note_pages(keys: Seq<DatedKey>, pages: Seq<PageView>, dated: bool) -> Seq<DatedKey>
    decreases pages.len(),
{
    if pages.len() == 0 {
        keys
    } else {
        note_hits(note_pages(keys, pages.drop_last(), dated), pages.last().hits->0, dated)
    }
}

/// The keys of a broad scan, with their dates.
pub open spec fn broad_keys(broad: Seq<PageView>) -> Seq<DatedKey> {
    note_pages(Seq::empty(), broad, true)
}

/// The keys of a broad scan, with their dates, and of playlists, without.
pub open spec fn known_keys(broad: Seq<PageView>, playlists: Seq<PageView>) -> Seq<DatedKey> {
    note_pages(broad_keys(broad), playlists, false)
}

/// How many answers on playlists a collection takes in: those of two years, where a date of the
/// broad scan tells a year.
pub open spec fn playlists_wanted(broad: Seq<PageView>) -> int {
    if latest_year_of(broad_keys(broad)) is Some {
        2
    } else {
        0
    }
}

/// The first `b` answers are those of the broad scan, those up to `p` are on playlists, and the
/// others are those of the searches in depth. The collection knows the keys of the first two
/// kinds; once it searches in depth, it has selected from them, and it has found the candidates of
/// the third kind, each number once.
pub open spec fn collected_from(c: CollectorView, pages: Seq<PageView>, b: int, p: int) -> bool {
    let broad = pages.take(b);
    &&& 0 <= b <= p <= pages.len()
    &&& c.keys == known_keys(broad, pages.subrange(b, p))
    &&& (c.found, c.seen) == with_unseen(
        Seq::empty(),
        Set::empty(),
        all_candidates(pages.skip(p), Series::FightNight),
    )
    &&& match c.phase {
        CollectPhase::Broad { page } => b == pages.len() && page == b,
        CollectPhase::Playlists { year, second } => {
            &&& p == pages.len()
            &&& p - b == (if second {
                1int
            } else {
                0int
            })
            &&& latest_year_of(broad_keys(broad)) == Some(year as nat)
        },
        CollectPhase::Deep { next } => {
            &&& p - b == playlists_wanted(broad)
            &&& c.selected == selected_keys(c.keys, c.baseline, FIGHT_NIGHT_KEY_LIMIT as nat)
            &&& pages.len() - p == next
        },
        CollectPhase::Finished => {
            &&& p - b == playlists_wanted(broad)
            &&& c.selected == selected_keys(c.keys, c.baseline, FIGHT_NIGHT_KEY_LIMIT as nat)
            &&& pages.len() - p == c.selected.len()
        },
    }
}

/// To add unseen replays of one list and then of another is to add those of both.
proof fn lemma_unseen_of_both(
    found: Seq<ReplayView>,
    seen: Set<u64>,
    a: Seq<ReplayView>,
    b: Seq<ReplayView>,
)
    ensures
        with_unseen(found, seen, a + b) == with_unseen(
            with_unseen(found, seen, a).0,
            with_unseen(found, seen, a).1,
            b,
        ),
    decreases b.len(),
{
    if b.len() == 0 {
        assert(a + b =~= a);
    } else {
        lemma_unseen_of_both(found, seen, a, b.drop_last());
        assert((a + b).drop_last() =~= a + b.drop_last());
        assert((a + b).last() == b.last());
    }
}

/// Where the answers of a collection part, once it has begun the search in depth.
proof fn lemma_deep_begun_from(c: CollectorView, pages: Seq<PageView>, b: int)
    requires
        0 <= b <= pages.len(),
        c.keys == known_keys(pages.take(b), pages.subrange(b, pages.len() as int)),
        c.found == Seq::<ReplayView>::empty(),
        c.seen == Set::<u64>::empty(),
        pages.len() - b == playlists_wanted(pages.take(b)),
    ensures
        collected_from(deep_begun(c).0, pages, b, pages.len() as int),
{
    assert(pages.skip(pages.len() as int) =~= Seq::<PageView>::empty());
}

/// A collection after one more answer.
proof fn lemma_collected_step(
    c: CollectorView,
    pages: Seq<PageView>,
    page: PageView,
    b: int,
    p: int,
)
    requires
        valid_collection(c),
        collected_from(c, pages, b, p),
        c.phase != CollectPhase::Finished,
        page.hits is Some,
    ensures
        exists|b: int, p: int| #[trigger]
            collected_from(collect_step(c, page).0, pages.push(page), b, p),
{
    let more = pages.push(page);
    let n = pages.len() as int;
    let hits = page.hits->0;
    let after = collect_step(c, page).0;
    match c.phase {
        CollectPhase::Broad { page: at } => {
            let broad = more.take(n + 1);
            assert(broad =~= more);
            assert(more.drop_last() =~= pages);
            assert(pages.take(n) =~= pages);
            assert(pages.subrange(n, n) =~= Seq::<PageView>::empty());
            assert(more.subrange(n + 1, n + 1) =~= Seq::<PageView>::empty());
            assert(more.skip(n + 1) =~= Seq::<PageView>::empty());
            assert(pages.skip(n) =~= Seq::<PageView>::empty());
            let noted_c = CollectorView { keys: note_hits(c.keys, hits, true), ..c };
            assert(noted_c.keys == broad_keys(broad));
            lemma_year_bound(noted_c.keys);
            if latest_year_of(noted_c.keys) is None {
                lemma_deep_begun_from(noted_c, more, n + 1);
            }
            assert(collected_from(after, more, n + 1, n + 1));
        },
        CollectPhase::Playlists { year, second } => {
            assert(more.take(b) =~= pages.take(b));
            assert(more.subrange(b, n + 1).drop_last() =~= pages.subrange(b, n));
            assert(more.subrange(b, n + 1).last() == page);
            assert(more.skip(n + 1) =~= Seq::<PageView>::empty());
            assert(pages.skip(n) =~= Seq::<PageView>::empty());
            let noted_c = CollectorView { keys: note_hits(c.keys, hits, false), ..c };
            if second {
                lemma_deep_begun_from(noted_c, more, b);
            }
            assert(collected_from(after, more, b, n + 1));
        },
        CollectPhase::Deep { next } => {
            assert(more.take(b) =~= pages.take(b));
            assert(more.subrange(b, p) =~= pages.subrange(b, p));
            assert(more.skip(p).drop_last() =~= pages.skip(p));
            assert(more.skip(p).last() == page);
            lemma_unseen_of_both(
                Seq::empty(),
                Set::empty(),
                all_candidates(pages.skip(p), Series::FightNight),
                candidates_of(hits, Series::FightNight),
            );
            assert(collected_from(after, more, b, p));
        },
        CollectPhase::Finished => {},
    }
}

/// As long as a collection has not failed, its answers part into those of the broad scan, those on
/// playlists and those of the searches in depth. The keys to search for are selected from the keys
/// of the first two, dated ones and undated ones; the replays found are the candidates of the
/// third, in their order, each number once; and where the collection is complete it has searched
/// for every selected key.
pub proof fn law_collection_finds_all(baseline: Seq<char>, pages: Seq<PageView>)
    requires
        pages.len() > 0 ==> collect_run(begun_collection(baseline), pages.drop_last()).1
            == SearchStep::NextPage,
    ensures
        ({
            let (c, step) = collect_run(begun_collection(baseline), pages);
            &&& c.baseline == baseline
            &&& valid_collection(c)
            &&& step == SearchStep::Complete <==> c.phase == CollectPhase::Finished
            &&& !(step is Failed) ==> exists|b: int, p: int| #[trigger]
                collected_from(c, pages, b, p)
        }),
    decreases pages.len(),
{
    let begun = begun_collection(baseline);
    if pages.len() == 0 {
        law_collection_begins_valid(baseline);
        assert(pages.take(0) =~= Seq::<PageView>::empty());
        assert(pages.subrange(0, 0) =~= Seq::<PageView>::empty());
        assert(pages.skip(0) =~= Seq::<PageView>::empty());
        assert(collected_from(begun, pages, 0, 0));
    } else {
        let front = pages.drop_last();
        let page = pages.last();
        if front.len() > 0 {
            assert(collect_run(begun, front.drop_last()).1 == SearchStep::NextPage);
        }
        law_collection_finds_all(baseline, front);
        let c = collect_run(begun, front).0;
        law_collection_stays_valid(c, page);
        if page.hits is Some {
            let (b, p) = choose|b: int, p: int| #[trigger] collected_from(c, front, b, p);
            lemma_collected_step(c, front, page, b, p);
            assert(front.push(page) =~= pages);
        }
    }
}

/// Keys that each have one entry keep one when hits are noted, and none is lost or gets an earlier
/// date.
proof fn lemma_note_hits(keys: Seq<DatedKey>, hits: Seq<HitView>, dated: bool)
    requires
        bare_keys(keys).no_duplicates(),
    ensures
        ({
            let after = note_hits(keys, hits, dated);
            &&& bare_keys(after).no_duplicates()
            &&& keys.len() <= after.len()
            &&& forall|j: int|
                0 <= j < keys.len() ==> (#[trigger] after[j]).0 == keys[j].0 && !before(
                    after[j].1,
                    keys[j].1,
                )
        }),
    decreases hits.len(),
{
    if hits.len() == 0 {
        assert forall|j: int| 0 <= j < keys.len() implies !before(
            (#[trigger] keys[j]).1,
            keys[j].1,
        ) by {
            lemma_before_irreflexive(keys[j].1);
        }
    } else {
        let front = note_hits(keys, hits.drop_last(), dated);
        lemma_note_hits(keys, hits.drop_last(), dated);
        lemma_note_hit(front, hits.last(), dated);
        let after = note_hits(keys, hits, dated);
        assert forall|j: int| 0 <= j < keys.len() implies (#[trigger] after[j]).0 == keys[j].0
            && !before(after[j].1, keys[j].1) by {
            assert(front[j].0 == keys[j].0);
            assert(!before(after[j].1, front[j].1));
            lemma_not_earlier(keys[j].1, front[j].1, after[j].1);
        }
    }
}

/// What is not before a text that is not before another is not before that one.
proof fn lemma_not_earlier(a: Seq<char>, b: Seq<char>, c: Seq<char>)
    requires
        !before(b, a),
        !before(c, b),
    ensures
        !before(c, a),
{
    if before(c, a) {
        if b == a {
        } else {
            lemma_before_total(a, b);
            lemma_before_transitive(c, a, b);
        }
    }
}

/// To note one hit keeps one entry per key, and loses none.
proof fn lemma_note_hit(keys: Seq<DatedKey>, hit: HitView, dated: bool)
    requires
        bare_keys(keys).no_duplicates(),
    ensures
        ({
            let after = note_hit(keys, hit, dated);
            &&& bare_keys(after).no_duplicates()
            &&& keys.len() <= after.len()
            &&& forall|j: int|
                0 <= j < keys.len() ==> (#[trigger] after[j]).0 == keys[j].0 && !before(
                    after[j].1,
                    keys[j].1,
                )
        }),
{
    assert forall|j: int| 0 <= j < keys.len() implies !before(
        (#[trigger] keys[j]).1,
        keys[j].1,
    ) by {
        lemma_before_irreflexive(keys[j].1);
    }
    if let Some(name) = hit.name {
        if let Some(key) = fight_night_event_key_of(name) {
            let published = match hit.published {
                Some(published) => if dated {
                    published
                } else {
                    Seq::empty()
                },
                None => Seq::empty(),
            };
            law_noted(keys, key, published);
        }
    }
}

/// The entry of a key, and a date that is not before another.
pub open spec fn has_key_from(
    keys: Seq<DatedKey>,
    key: Seq<char>,
    date: Seq<char>,
    j: int,
) -> bool {
    0 <= j < keys.len() && keys[j].0 == key && !before(keys[j].1, date)
}

/// The date that is noted of a hit: its own, where dates are noted and it has one.
pub open spec fn date_noted(hit: HitView, dated: bool) -> Seq<char> {
    if dated && hit.published is Some {
        hit.published->0
    } else {
        Seq::empty()
    }
}

/// Every title gives its event's key, that of a single bout as well as that of a whole event: for
/// every hit whose name has an event key, whatever its length and its number are, the noted keys
/// hold the key, and with dates the key's date is not before the hit's.
pub proof fn law_every_title_gives_its_key(
    keys: Seq<DatedKey>,
    hits: Seq<HitView>,
    dated: bool,
    i: int,
    name: Seq<char>,
    key: Seq<char>,
)
    requires
        bare_keys(keys).no_duplicates(),
        0 <= i < hits.len(),
        hits[i].name == Some(name),
        fight_night_event_key_of(name) == Some(key),
    ensures
        bare_keys(note_hits(keys, hits, dated)).contains(key),
        exists|j: int|
            has_key_from(note_hits(keys, hits, dated), key, date_noted(hits[i], dated), j),
    decreases hits.len(),
{
    let date = date_noted(hits[i], dated);
    let front = hits.drop_last();
    let so_far = note_hits(keys, front, dated);
    let after = note_hits(keys, hits, dated);
    lemma_note_hits(keys, front, dated);
    if i < front.len() {
        law_every_title_gives_its_key(keys, front, dated, i, name, key);
        let j = choose|j: int| has_key_from(so_far, key, date, j);
        lemma_note_hit(so_far, hits.last(), dated);
        assert(after[j].0 == so_far[j].0);
        lemma_not_earlier(date, so_far[j].1, after[j].1);
        assert(has_key_from(after, key, date, j));
        assert(bare_keys(after)[j] == key);
    } else {
        law_noted(so_far, key, date);
        assert(after == noted(so_far, key, date));
        let j = choose|j: int| 0 <= j < after.len() && bare_keys(after)[j] == key;
        law_noted_date(so_far, key, date, j);
        assert(has_key_from(after, key, date, j));
    }
}

/// A key that hits add is the event key of one of their names, and its date, where it has changed,
/// is that of one of them; without dates no date changes and added keys have none.
pub proof fn law_keys_come_from_titles(
    keys: Seq<DatedKey>,
    hits: Seq<HitView>,
    dated: bool,
    j: int,
)
    requires
        bare_keys(keys).no_duplicates(),
        0 <= j < note_hits(keys, hits, dated).len(),
    ensures
        ({
            let entry = note_hits(keys, hits, dated)[j];
            &&& j < keys.len() && entry == keys[j] || exists|i: int|
                #![trigger hits[i]]
                {
                    &&& 0 <= i < hits.len()
                    &&& hits[i].name is Some
                    &&& fight_night_event_key_of(hits[i].name->0) == Some(entry.0)
                    &&& entry.1.len() > 0 ==> dated && hits[i].published == Some(entry.1)
                }
            &&& !dated && j < keys.len() ==> entry == keys[j]
        }),
    decreases hits.len(),
{
    if hits.len() > 0 {
        let front = hits.drop_last();
        let so_far = note_hits(keys, front, dated);
        let after = note_hits(keys, hits, dated);
        let last = hits.last();
        lemma_note_hits(keys, front, dated);
        let entry = after[j];
        if j < so_far.len() {
            law_keys_come_from_titles(keys, front, dated, j);
            if !(j < keys.len() && so_far[j] == keys[j]) {
                let i = choose|i: int|
                    #![trigger front[i]]
                    {
                        &&& 0 <= i < front.len()
                        &&& front[i].name is Some
                        &&& fight_night_event_key_of(front[i].name->0) == Some(so_far[j].0)
                        &&& so_far[j].1.len() > 0 ==> dated && front[i].published == Some(
                            so_far[j].1,
                        )
                    };
                assert(hits[i] == front[i]);
            }
        }
        assert(hits[hits.len() - 1] == last);
        if let Some(name) = last.name {
            if let Some(key) = fight_night_event_key_of(name) {
                let published = match last.published {
                    Some(published) => if dated {
                        published
                    } else {
                        Seq::empty()
                    },
                    None => Seq::empty(),
                };
                assert(after == noted(so_far, key, published));
                law_noted(so_far, key, published);
                law_noted_date(so_far, key, published, j);
                if j < so_far.len() && !dated {
                    assert(!before(so_far[j].1, Seq::<char>::empty()));
                }
                if entry.0 == key && j < so_far.len() && entry == so_far[j] {
                } else if entry.0 == key {
                    assert(entry.1 == published);
                }
            }
        }
    }
}

/// What a collection asks for: the broad scan page by page, the playlists of the latest year and of
/// the one before, and the recordings of each selected key by its phrase.
pub proof fn law_collection_asks(c: CollectorView)
    ensures
        c.phase matches CollectPhase::Broad { page } ==> ask_of(c) == Some(
            AskView::Vods { query: "\"UFC Fight Night:\""@, page },
        ),
        c.phase matches CollectPhase::Playlists { year, second } ==> ask_of(c) == Some(
            AskView::Playlists {
                query: "\"UFC Fight Night:\""@,
                year: if second && year > 0 {
                    (year - 1) as u32
                } else {
                    year
                },
            },
        ),
        c.phase matches CollectPhase::Deep { next } ==> next < c.selected.len() ==> ask_of(c)
            == Some(
            AskView::Vods {
                query: "\"UFC Fight Night: "@ + c.selected[next as int] + "\""@,
                page: 0,
            },
        ),
        c.phase == CollectPhase::Finished ==> ask_of(c) is None,
{
}

/// The broad scan reads all pages that a page tells of, up to ten, and then goes on to the
/// playlists of the highest year among its keys, where there is one. The playlists of two years
/// are read. A collection fails just where an answer holds no hits.
pub proof fn law_collection_reads_all(c: CollectorView, page: PageView)
    ensures
        ({
            let (after, step) = collect_step(c, page);
            &&& step is Failed <==> page.hits is None
            &&& c.phase matches CollectPhase::Broad { page: at } ==> page.hits is Some ==> {
                &&& after.phase == (CollectPhase::Broad { page: (at + 1) as u64 }) <==> at + 1
                    < page.pages && at + 1 < 10
                &&& (at + 1 >= page.pages || at + 1 >= 10) && latest_year_of(after.keys) is Some
                    ==> after.phase == (CollectPhase::Playlists {
                    year: latest_year_of(after.keys)->0 as u32,
                    second: false,
                })
                &&& after.keys == note_hits(c.keys, page.hits->0, true)
            }
            &&& c.phase matches CollectPhase::Playlists { year, second } ==> page.hits is Some ==> {
                &&& !second ==> after.phase == (CollectPhase::Playlists { year, second: true })
                &&& second ==> after.phase is Deep || after.phase is Finished
                &&& after.keys == note_hits(c.keys, page.hits->0, false)
            }
            &&& after.phase is Deep && !(c.phase is Deep) ==> after.phase == (CollectPhase::Deep {
                next: 0,
            }) && after.selected == selected_keys(after.keys, c.baseline, 64)
            &&& after.phase is Finished && !(c.phase is Deep || c.phase is Finished) && page.hits
                is Some ==> selected_keys(after.keys, c.baseline, 64).len() == 0
            &&& c.phase matches CollectPhase::Deep { next } ==> page.hits is Some ==> {
                &&& after.keys == c.keys && after.selected == c.selected
                &&& next + 1 < c.selected.len() && c.selected.len() <= 64 ==> after.phase == (
                CollectPhase::Deep { next: (next + 1) as usize })
                &&& next + 1 >= c.selected.len() ==> after.phase == CollectPhase::Finished
            }
        }),
{
}

/// To add unseen replays: the numbers are then those seen and those of the others, each replay is
/// one of either list, and the first of a number that had not been seen is taken.
pub proof fn law_unseen_replays(
    found: Seq<ReplayView>,
    seen: Set<u64>,
    more: Seq<ReplayView>,
    i: int,
)
    requires
        0 <= i < more.len(),
    ensures
        ({
            let (f, s) = with_unseen(found, seen, more);
            &&& found.len() <= f.len()
            &&& f.take(found.len() as int) == found
            &&& s.contains(more[i].id)
            &&& !seen.contains(more[i].id) && (forall|j: int|
                0 <= j < i ==> (#[trigger] more[j]).id != more[i].id) ==> f.contains(more[i])
        }),
    decreases more.len(),
{
    let front = more.drop_last();
    let (f, s) = with_unseen(found, seen, front);
    let last = more.last();
    let (after, _) = with_unseen(found, seen, more);
    lemma_unseen_seen(found, seen, front);
    if i < front.len() {
        law_unseen_replays(found, seen, front, i);
        assert(front[i] == more[i]);
        if !seen.contains(more[i].id) && (forall|j: int|
            0 <= j < i ==> (#[trigger] more[j]).id != more[i].id) {
            assert forall|j: int| 0 <= j < i implies (#[trigger] front[j]).id != front[i].id by {
                assert(more[j] == front[j]);
            }
            let k = choose|k: int| 0 <= k < f.len() && f[k] == more[i];
            assert(after[k] == more[i]);
        }
        assert(after.take(found.len() as int) =~= found) by {
            assert(f.take(found.len() as int) == found);
            assert forall|k: int| 0 <= k < found.len() implies after[k] == #[trigger] found[k] by {
                assert(f.take(found.len() as int)[k] == f[k]);
            }
        }
    } else {
        if !seen.contains(last.id) && (forall|j: int|
            0 <= j < i ==> (#[trigger] more[j]).id != last.id) {
            if s.contains(last.id) {
                let j = choose|j: int| 0 <= j < front.len() && (#[trigger] front[j]).id == last.id;
                assert(more[j] == front[j]);
            }
            assert(after[f.len() as int] == last);
        }
        assert(after.take(found.len() as int) =~= found) by {
            assert forall|k: int| 0 <= k < found.len() implies after[k] == #[trigger] found[k] by {
                assert(f.take(found.len() as int)[k] == f[k]);
            }
        }
    }
}

/// The numbers seen are those seen before and those of the others; the list begins as before and
/// holds nothing that stands in neither list.
pub proof fn lemma_unseen_seen(found: Seq<ReplayView>, seen: Set<u64>, more: Seq<ReplayView>)
    ensures
        ({
            let (f, s) = with_unseen(found, seen, more);
            &&& forall|id: u64| #[trigger]
                s.contains(id) ==> seen.contains(id) || exists|j: int|
                    0 <= j < more.len() && (#[trigger] more[j]).id == id
            &&& found.len() <= f.len()
            &&& f.take(found.len() as int) == found
            &&& forall|k: int|
                found.len() <= k < f.len() ==> more.contains(#[trigger] f[k])
        }),
    decreases more.len(),
{
    let (f, s) = with_unseen(found, seen, more);
    if more.len() == 0 {
        assert(f.take(found.len() as int) =~= found);
    } else {
        let front = more.drop_last();
        let last = more.last();
        lemma_unseen_seen(found, seen, front);
        let (g, t) = with_unseen(found, seen, front);
        assert forall|id: u64| #[trigger] s.contains(id) implies seen.contains(id) || exists|j: int|
            0 <= j < more.len() && (#[trigger] more[j]).id == id by {
            if t.contains(id) && !seen.contains(id) {
                let j = choose|j: int| 0 <= j < front.len() && (#[trigger] front[j]).id == id;
                assert(more[j].id == id);
            } else if !t.contains(id) {
                assert(more[more.len() - 1].id == id);
            }
        }
        assert(f.take(found.len() as int) =~= found) by {
            assert forall|k: int| 0 <= k < found.len() implies f[k] == #[trigger] found[k] by {
                assert(g.take(found.len() as int)[k] == g[k]);
            }
        }
        assert forall|k: int| found.len() <= k < f.len() implies more.contains(#[trigger] f[k]) by {
            if k < g.len() {
                assert(front.contains(g[k]));
                let j = choose|j: int| 0 <= j < front.len() && front[j] == g[k];
                assert(more[j] == f[k]);
            } else {
                assert(more[more.len() - 1] == f[k]);
            }
        }
    }
}

/// What unseen replays add comes from the list of them.
pub proof fn law_unseen_replays_only(
    found: Seq<ReplayView>,
    seen: Set<u64>,
    more: Seq<ReplayView>,
    k: int,
)
    requires
        found.len() <= k < with_unseen(found, seen, more).0.len(),
    ensures
        more.contains(with_unseen(found, seen, more).0[k]),
{
    lemma_unseen_seen(found, seen, more);
}

/// A collection asks for at most ten pages of the broad scan, two years of playlists and sixty-four
/// keys.
pub proof fn law_collection_is_bounded(baseline: Seq<char>)
    ensures
        asks_left(begun_collection(baseline)) == 10 + 2 + 64,
{
}

/// The broad scan leaves pages unread where its first page tells of more than ten pages or of more
/// than a thousand hits.
pub proof fn law_truncated_scans(c: CollectorView, page: PageView)
    ensures
        scan_truncated(c, page) <==> {
            &&& c.phase == (CollectPhase::Broad { page: 0 })
            &&& page.pages > 10 || page.total > 1000
        },
{
}

} // verus!
