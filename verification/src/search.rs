//! Search results and the followers' searches.

use crate::ordering::{
    in_order, is_ranking, law_sort_is_stable, law_sort_keeps_items, law_sort_orders, lemma_sort_map,
    sort,
};
use crate::state::{replay_views, Replay, ReplayView};
use crate::text::{
    before, decimal, decimal_text, lemma_before_irreflexive, lemma_before_total,
    lemma_before_transitive, same_text, text_before,
};
use crate::titles::{
    classify_bjj, classify_contender, classify_fight_night, classify_ufc, is_bjj_replay,
    is_contender_replay, is_fight_night_replay, is_ufc_replay,
};
use vstd::prelude::*;
use vstd::string::*;

verus! {

/// One search hit: the fields that the followers read, where the hit has them.
#[derive(Debug)]
pub struct Hit {
    /// The recording's title.
    pub name: Option<String>,
    /// Its length in seconds.
    pub duration: Option<u64>,
    /// Its number.
    pub id: Option<u64>,
    /// When it was published.
    pub published: Option<String>,
}

/// The contents of a `Hit`.
pub struct HitView {
    /// The recording's title.
    pub name: Option<Seq<char>>,
    /// Its length in seconds.
    pub duration: Option<u64>,
    /// Its number.
    pub id: Option<u64>,
    /// When it was published.
    pub published: Option<Seq<char>>,
}

/// The contents of a text that may be missing.
pub open spec fn text_view(text: Option<String>) -> Option<Seq<char>> {
    match text {
        Some(text) => Some(text@),
        None => None,
    }
}

impl View for Hit {
    type V = HitView;

    open spec fn view(&self) -> HitView {
        HitView {
            name: text_view(self.name),
            duration: self.duration,
            id: self.id,
            published: text_view(self.published),
        }
    }
}

/// The contents of a list of hits.
pub open spec fn hit_views(hits: Seq<Hit>) -> Seq<HitView> {
    hits.map_values(|hit: Hit| hit@)
}

/// One page of search results.
#[derive(Debug)]
pub struct SearchPage {
    /// How many pages the results have.
    pub pages: u64,
    /// How many hits the results have.
    pub total: u64,
    /// The hits of this page; nothing where the results hold no list of hits.
    pub hits: Option<Vec<Hit>>,
}

/// The contents of a `SearchPage`.
pub struct PageView {
    /// How many pages the results have.
    pub pages: u64,
    /// How many hits the results have.
    pub total: u64,
    /// The hits of this page.
    pub hits: Option<Seq<HitView>>,
}

impl View for SearchPage {
    type V = PageView;

    open spec fn view(&self) -> PageView {
        PageView {
            pages: self.pages,
            total: self.total,
            hits: match self.hits {
                Some(hits) => Some(hit_views(hits@)),
                None => None,
            },
        }
    }
}

/// The series that can be followed.
#[derive(Clone, Copy, PartialEq, Eq, Structural, Debug)]
pub enum Series {
    /// The UFC event of this number.
    Ufc(u16),
    /// The UFC BJJ event of this number.
    Bjj(u16),
    /// The Contender Series.
    Contender,
    /// The Fight Nights.
    FightNight,
}

/// A complete recording of the series.
pub open spec fn is_replay(series: Series, name: Seq<char>, duration: u64) -> bool {
    match series {
        Series::Ufc(number) => is_ufc_replay(name, duration as int, number as nat),
        Series::Bjj(number) => is_bjj_replay(name, duration as int, number as nat),
        Series::Contender => is_contender_replay(name, duration as int),
        Series::FightNight => is_fight_night_replay(name, duration as int),
    }
}

/// Whether a recording is a complete one of the series.
pub fn classify(series: Series, name: &str, duration: u64) -> (r: bool)
    ensures
        r == is_replay(series, name@, duration),
{
    match series {
        Series::Ufc(number) => classify_ufc(name, duration, number),
        Series::Bjj(number) => classify_bjj(name, duration, number),
        Series::Contender => classify_contender(name, duration),
        Series::FightNight => classify_fight_night(name, duration),
    }
}

/// The replay that a hit stands for: a complete recording of the series with a number.
pub open spec fn candidate_of(hit: HitView, series: Series) -> Option<ReplayView> {
    match (hit.name, hit.duration, hit.id) {
        (Some(name), Some(duration), Some(id)) => if is_replay(series, name, duration) {
            Some(
                ReplayView {
                    id,
                    title: name,
                    published: match hit.published {
                        Some(published) => published,
                        None => Seq::empty(),
                    },
                },
            )
        } else {
            None
        },
        _ => None,
    }
}

/// The replay that a hit stands for, if it is a complete recording of the series.
pub fn candidate(hit: &Hit, series: Series) -> (r: Option<Replay>)
    ensures
        match r {
            Some(replay) => candidate_of(hit@, series) == Some(replay@),
            None => candidate_of(hit@, series) is None,
        },
{
    match (&hit.name, hit.duration, hit.id) {
        (Some(name), Some(duration), Some(id)) => {
            if !classify(series, name.as_str(), duration) {
                return None;
            }
            let published = match &hit.published {
                Some(published) => published.clone(),
                None => String::new(),
            };
            Some(Replay { id, title: name.clone(), published })
        },
        _ => None,
    }
}

/// The replays that a page's hits stand for, in the order of the hits.
pub open spec fn candidates_of(hits: Seq<HitView>, series: Series) -> Seq<ReplayView> {
    hits.filter_map(|hit: HitView| candidate_of(hit, series))
}

/// Adds the replays that hits stand for to a list.
pub fn add_candidates(found: &mut Vec<Replay>, hits: &Vec<Hit>, series: Series)
    ensures
        replay_views(final(found)@) == replay_views(old(found)@) + candidates_of(
            hit_views(hits@),
            series,
        ),
{
    let ghost start = replay_views(found@);
    let ghost views = hit_views(hits@);
    let ghost f = |hit: HitView| candidate_of(hit, series);
    let mut i: usize = 0;
    assert(views.take(0) =~= Seq::<HitView>::empty());
    assert(start + views.take(0).filter_map(f) =~= start);
    while i < hits.len()
        invariant
            i <= hits.len(),
            views == hit_views(hits@),
            f == (|hit: HitView| candidate_of(hit, series)),
            replay_views(found@) == start + views.take(i as int).filter_map(f),
        decreases hits.len() - i,
    {
        proof {
            let upto = views.take(i + 1);
            assert(upto.drop_last() =~= views.take(i as int));
            assert(upto.last() == hits@[i as int]@);
        }
        let ghost so_far = replay_views(found@);
        match candidate(&hits[i], series) {
            Some(replay) => {
                found.push(replay);
                proof {
                    assert(replay_views(found@) =~= so_far.push(replay@));
                    assert(replay_views(found@) =~= start + (views.take(i as int).filter_map(f)
                        + seq![replay@]));
                }
            },
            None => {},
        }
        i = i + 1;
    }
    assert(views.take(i as int) =~= views);
}

/// No search asks for more pages than this.
pub const MAX_PAGES: u64 = 10;

/// Why a search failed.
#[derive(Clone, Copy, PartialEq, Eq, Structural, Debug)]
pub enum SearchError {
    /// The results have more pages than a search may ask for.
    TooManyPages,
    /// The results hold no list of hits.
    InvalidResults,
}

impl SearchError {
    /// The error in words.
    pub fn message(&self) -> (r: &'static str)
        ensures
            r@ == (match *self {
                SearchError::TooManyPages => "Replay search exceeded the safe page limit"@,
                SearchError::InvalidResults => "Invalid replay results"@,
            }),
    {
        match *self {
            SearchError::TooManyPages => "Replay search exceeded the safe page limit",
            SearchError::InvalidResults => "Invalid replay results",
        }
    }
}

/// What a search does after a page.
#[derive(Clone, Copy, PartialEq, Eq, Structural, Debug)]
pub enum SearchStep {
    /// It asks for the next page.
    NextPage,
    /// It is complete.
    Complete,
    /// It has failed.
    Failed(SearchError),
}

/// A search for the replays of a series, page by page.
#[derive(Debug)]
pub struct Search {
    /// The series.
    pub series: Series,
    /// The page that is asked for.
    pub page: u64,
    /// The replays found so far.
    pub found: Vec<Replay>,
}

/// The contents of a `Search`.
#[verifier::ext_equal]
pub struct SearchView {
    /// The series.
    pub series: Series,
    /// The page that is asked for.
    pub page: u64,
    /// The replays found so far.
    pub found: Seq<ReplayView>,
}

impl View for Search {
    type V = SearchView;

    open spec fn view(&self) -> SearchView {
        SearchView { series: self.series, page: self.page, found: replay_views(self.found@) }
    }
}

/// A search that begins.
pub open spec fn begun_search(series: Series) -> SearchView {
    SearchView { series, page: 0, found: Seq::empty() }
}

/// A search after a page, and what it does next. Results with too many pages, or without a list
/// of hits, fail it. Otherwise the page's candidates are added, and the search goes on while
/// there are pages.
pub open spec fn search_step(search: SearchView, page: PageView) -> (SearchView, SearchStep) {
    if page.pages > MAX_PAGES {
        (search, SearchStep::Failed(SearchError::TooManyPages))
    } else {
        match page.hits {
            None => (search, SearchStep::Failed(SearchError::InvalidResults)),
            Some(hits) => {
                let found = search.found + candidates_of(hits, search.series);
                if search.page + 1 >= page.pages || search.page + 1 >= MAX_PAGES {
                    (SearchView { found, ..search }, SearchStep::Complete)
                } else {
                    (
                        SearchView { found, page: (search.page + 1) as u64, ..search },
                        SearchStep::NextPage,
                    )
                }
            },
        }
    }
}

/// The phrase that a search for a series looks for.
pub open spec fn query_of(series: Series) -> Seq<char> {
    match series {
        Series::Ufc(number) => "\"UFC "@ + decimal(number as nat) + "\""@,
        Series::Bjj(number) => "\"UFC BJJ "@ + decimal(number as nat) + "\""@,
        Series::Contender => "\"Dana White's Contender Series\""@,
        Series::FightNight => "\"UFC Fight Night:\""@,
    }
}

/// The phrase that a search for a series looks for.
pub fn query(series: Series) -> (r: String)
    ensures
        r@ == query_of(series),
{
    match series {
        Series::Ufc(number) => {
            let mut r = String::from_str("\"UFC ");
            r.append(decimal_text(number as u64).as_str());
            r.append("\"");
            r
        },
        Series::Bjj(number) => {
            let mut r = String::from_str("\"UFC BJJ ");
            r.append(decimal_text(number as u64).as_str());
            r.append("\"");
            r
        },
        Series::Contender => String::from_str("\"Dana White's Contender Series\""),
        Series::FightNight => String::from_str("\"UFC Fight Night:\""),
    }
}

impl Search {
    /// Begins a search.
    pub fn begin(series: Series) -> (r: Search)
        ensures
            r@ == begun_search(series),
    {
        let r = Search { series, page: 0, found: Vec::new() };
        assert(r@.found =~= Seq::<ReplayView>::empty());
        r
    }

    /// Takes in a page of results.
    pub fn take_page(&mut self, page: &SearchPage) -> (r: SearchStep)
        ensures
            (final(self)@, r) == search_step(old(self)@, page@),
    {
        if page.pages > MAX_PAGES {
            return SearchStep::Failed(SearchError::TooManyPages);
        }
        match &page.hits {
            None => SearchStep::Failed(SearchError::InvalidResults),
            Some(hits) => {
                add_candidates(&mut self.found, hits, self.series);
                let next: u64 = self.page.saturating_add(1);
                if next >= page.pages || next >= MAX_PAGES {
                    SearchStep::Complete
                } else {
                    self.page = next;
                    SearchStep::NextPage
                }
            },
        }
    }
}

/// The replay that was published later stands ahead.
pub open spec fn newer() -> spec_fn(ReplayView, ReplayView) -> bool {
    |a: ReplayView, b: ReplayView| before(b.published, a.published)
}

/// The replay that was published later stands ahead; of two that were published together the one
/// with the higher number.
pub open spec fn newer_or_higher() -> spec_fn(ReplayView, ReplayView) -> bool {
    |a: ReplayView, b: ReplayView|
        before(b.published, a.published) || (a.published == b.published && a.id > b.id)
}

/// Whether the first replay was published later.
fn is_newer(a: &Replay, b: &Replay) -> (r: bool)
    ensures
        r == newer()(a@, b@),
{
    text_before(b.published.as_str(), a.published.as_str())
}

/// Whether the first replay was published later, or together with the second and has the higher
/// number.
fn is_newer_or_higher(a: &Replay, b: &Replay) -> (r: bool)
    ensures
        r == newer_or_higher()(a@, b@),
{
    text_before(b.published.as_str(), a.published.as_str()) || (same_text(
        a.published.as_str(),
        b.published.as_str(),
    ) && a.id > b.id)
}

/// Sorts replays, newest first.
pub fn newest_first(replays: Vec<Replay>) -> (r: Vec<Replay>)
    ensures
        replay_views(r@) == in_order(replay_views(replays@), newer()),
{
    let ghost ahead = |a: Replay, b: Replay| newer()(a@, b@);
    proof {
        lemma_sort_map(replays@, ahead, |replay: Replay| replay@, newer());
    }
    sort(replays, is_newer, Ghost(ahead))
}

/// Sorts replays, newest first, and those that were published together by their numbers, highest
/// first.
pub fn newest_and_highest_first(replays: Vec<Replay>) -> (r: Vec<Replay>)
    ensures
        replay_views(r@) == in_order(replay_views(replays@), newer_or_higher()),
{
    let ghost ahead = |a: Replay, b: Replay| newer_or_higher()(a@, b@);
    proof {
        lemma_sort_map(replays@, ahead, |replay: Replay| replay@, newer_or_higher());
    }
    sort(replays, is_newer_or_higher, Ghost(ahead))
}

/// Both orders of replays treat equals alike.
pub proof fn lemma_newer_ranks()
    ensures
        is_ranking(newer()),
        is_ranking(newer_or_higher()),
{
    let ahead = newer();
    assert forall|a: ReplayView| !#[trigger] ahead(a, a) by {
        lemma_before_irreflexive(a.published);
    }
    assert forall|a: ReplayView, b: ReplayView, c: ReplayView|
        #![trigger ahead(a, b), ahead(b, c)]
        ahead(a, b) && ahead(b, c) implies ahead(a, c) by {
        lemma_before_transitive(c.published, b.published, a.published);
    }
    assert forall|a: ReplayView, b: ReplayView, c: ReplayView|
        #![trigger ahead(a, b), ahead(a, c)]
        ahead(a, c) && !ahead(b, c) implies ahead(a, b) by {
        lemma_not_before(b.published, c.published, a.published);
    }
    let strict = newer_or_higher();
    assert forall|a: ReplayView| !#[trigger] strict(a, a) by {
        lemma_before_irreflexive(a.published);
    }
    assert forall|a: ReplayView, b: ReplayView, c: ReplayView|
        #![trigger strict(a, b), strict(b, c)]
        strict(a, b) && strict(b, c) implies strict(a, c) by {
        if ahead(a, b) && ahead(b, c) {
            lemma_before_transitive(c.published, b.published, a.published);
        }
    }
    assert forall|a: ReplayView, b: ReplayView, c: ReplayView|
        #![trigger strict(a, b), strict(a, c)]
        strict(a, c) && !strict(b, c) implies strict(a, b) by {
        if ahead(a, c) {
            lemma_not_before(b.published, c.published, a.published);
        } else {
            if b.published != c.published {
                lemma_before_total(b.published, c.published);
            }
        }
    }
}

/// Where `c` is before `a` but not before `b`, `b` is before `a`.
proof fn lemma_not_before(b: Seq<char>, c: Seq<char>, a: Seq<char>)
    requires
        before(c, a),
        !before(c, b),
    ensures
        before(b, a),
{
    if b != c {
        lemma_before_total(b, c);
        lemma_before_transitive(b, c, a);
    }
}

/// A search after a list of pages: it takes them in, one by one, as long as it asks for more.
pub open spec fn search_run(search: SearchView, pages: Seq<PageView>) -> (SearchView, SearchStep)
    decreases pages.len(),
{
    if pages.len() == 0 {
        (search, SearchStep::NextPage)
    } else {
        let (so_far, step) = search_run(search, pages.drop_last());
        if step == SearchStep::NextPage {
            search_step(so_far, pages.last())
        } else {
            (so_far, step)
        }
    }
}

/// The candidates of a list of pages, page after page.
pub open spec fn all_candidates(pages: Seq<PageView>, series: Series) -> Seq<ReplayView>
    decreases pages.len(),
{
    if pages.len() == 0 {
        Seq::empty()
    } else {
        all_candidates(pages.drop_last(), series) + candidates_of(pages.last().hits->0, series)
    }
}

/// As long as a search has not failed it has found every candidate of the pages that it asked
/// for and nothing else, and it never asks for more than the allowed number of pages.
pub proof fn law_search_finds_all(series: Series, pages: Seq<PageView>)
    requires
        pages.len() > 0 ==> search_run(begun_search(series), pages.drop_last()).1
            == SearchStep::NextPage,
    ensures
        ({
            let (search, step) = search_run(begun_search(series), pages);
            &&& !(step is Failed) ==> search.found == all_candidates(pages, series)
            &&& step == SearchStep::NextPage ==> search.page == pages.len() && pages.len()
                < MAX_PAGES
            &&& pages.len() <= MAX_PAGES
            &&& search.series == series
        }),
    decreases pages.len(),
{
    if pages.len() > 0 {
        let front = pages.drop_last();
        if front.len() > 0 {
            assert(search_run(begun_search(series), front.drop_last()).1 == SearchStep::NextPage);
        }
        law_search_finds_all(series, front);
    }
}

/// A search has read a list of pages: it asked for each of them, one after the other.
pub open spec fn has_read(series: Series, pages: Seq<PageView>) -> bool {
    pages.len() > 0 && search_run(begun_search(series), pages.drop_last()).1 == SearchStep::NextPage
}

/// A search is complete just where its last page, like all before, told of no more than ten pages
/// and held hits, and all pages that the last one told of were read, or ten. It goes on just where
/// pages are left, and asks for the one that follows. It fails just where a page tells of more
/// than ten pages or holds no hits.
pub proof fn law_search_reads_all_pages(series: Series, pages: Seq<PageView>)
    requires
        has_read(series, pages),
    ensures
        ({
            let (search, step) = search_run(begun_search(series), pages);
            let last = pages.last();
            let good = last.pages <= 10 && last.hits is Some;
            &&& step is Failed <==> !good
            &&& step == SearchStep::Failed(SearchError::TooManyPages) <==> last.pages > 10
            &&& step == SearchStep::Complete <==> good && (pages.len() >= last.pages || pages.len()
                >= 10)
            &&& step == SearchStep::NextPage <==> good && pages.len() < last.pages && pages.len()
                < 10
            &&& step == SearchStep::NextPage ==> search.page == pages.len()
        }),
{
    law_search_finds_all(series, pages.drop_last());
    let front = pages.drop_last();
    if front.len() == 0 {
        assert(search_run(begun_search(series), front) == (
            begun_search(series),
            SearchStep::NextPage,
        ));
    }
}

/// A hit is the candidate of a series just where it has a name, a length and a number and the name
/// and length are those of a complete recording; the replay has the hit's number, name and date.
pub proof fn law_candidates(hit: HitView, series: Series, replay: ReplayView)
    ensures
        candidate_of(hit, series) == Some(replay) <==> {
            &&& hit.name == Some(replay.title)
            &&& hit.id == Some(replay.id)
            &&& hit.duration is Some
            &&& is_replay(series, replay.title, hit.duration->0)
            &&& hit.published is Some ==> replay.published == hit.published->0
            &&& hit.published is None ==> replay.published.len() == 0
        },
{
    if hit.published is None && replay.published.len() == 0 {
        assert(replay.published =~= Seq::<char>::empty());
    }
}

/// The candidates of hits are those of the first hits and then, where it is one, that of the last.
pub proof fn law_candidates_one_by_one(hits: Seq<HitView>, hit: HitView, series: Series)
    ensures
        candidates_of(Seq::empty(), series).len() == 0,
        candidates_of(hits.push(hit), series) == (match candidate_of(hit, series) {
            Some(replay) => candidates_of(hits, series).push(replay),
            None => candidates_of(hits, series),
        }),
{
    let f = |h: HitView| candidate_of(h, series);
    let all = hits.push(hit);
    assert(all.drop_last() =~= hits);
    match candidate_of(hit, series) {
        Some(replay) => {
            assert(all.filter_map(f) == hits.filter_map(f) + seq![replay]);
            assert(hits.filter_map(f) + seq![replay] =~= hits.filter_map(f).push(replay));
        },
        None => {
            assert(all.filter_map(f) == hits.filter_map(f));
        },
    }
}

/// A replay is among the candidates of hits just where a hit stands for it.
pub proof fn lemma_candidate_among(hits: Seq<HitView>, series: Series, replay: ReplayView)
    ensures
        candidates_of(hits, series).contains(replay) <==> exists|i: int|
            0 <= i < hits.len() && candidate_of(#[trigger] hits[i], series) == Some(replay),
    decreases hits.len(),
{
    if hits.len() == 0 {
        law_candidates_one_by_one(hits, arbitrary_hit(), series);
        assert(hits =~= Seq::<HitView>::empty());
    } else {
        let front = hits.drop_last();
        let last = hits.last();
        lemma_candidate_among(front, series, replay);
        law_candidates_one_by_one(front, last, series);
        assert(front.push(last) =~= hits);
        let found = candidates_of(front, series);
        if candidates_of(hits, series).contains(replay) {
            if found.contains(replay) {
                let i = choose|i: int|
                    0 <= i < front.len() && candidate_of(#[trigger] front[i], series) == Some(
                        replay,
                    );
                assert(hits[i] == front[i]);
            } else {
                assert(candidate_of(hits[hits.len() - 1], series) == Some(replay));
            }
        }
        if exists|i: int|
            0 <= i < hits.len() && candidate_of(#[trigger] hits[i], series) == Some(replay) {
            let i = choose|i: int|
                0 <= i < hits.len() && candidate_of(#[trigger] hits[i], series) == Some(replay);
            if i < front.len() {
                assert(front[i] == hits[i]);
                let k = choose|k: int| 0 <= k < found.len() && found[k] == replay;
                assert(candidates_of(hits, series)[k] == replay);
            } else {
                assert(candidates_of(hits, series)[found.len() as int] == replay);
            }
        }
    }
}

/// Some hit.
spec fn arbitrary_hit() -> HitView {
    HitView { name: None, duration: None, id: None, published: None }
}

/// A replay is among the candidates of pages just where a hit of a page stands for it.
pub proof fn lemma_candidate_of_pages(pages: Seq<PageView>, series: Series, replay: ReplayView)
    ensures
        all_candidates(pages, series).contains(replay) <==> exists|k: int|
            0 <= k < pages.len() && candidates_of((#[trigger] pages[k]).hits->0, series).contains(
                replay,
            ),
    decreases pages.len(),
{
    if pages.len() > 0 {
        let front = pages.drop_last();
        let last = pages.last();
        lemma_candidate_of_pages(front, series, replay);
        let a = all_candidates(front, series);
        let b = candidates_of(last.hits->0, series);
        let all = all_candidates(pages, series);
        assert(all == a + b);
        if all.contains(replay) {
            let i = choose|i: int| 0 <= i < all.len() && all[i] == replay;
            if i < a.len() {
                assert(a[i] == replay);
                let k = choose|k: int|
                    0 <= k < front.len() && candidates_of(
                        (#[trigger] front[k]).hits->0,
                        series,
                    ).contains(replay);
                assert(pages[k] == front[k]);
            } else {
                assert(b[i - a.len()] == replay);
                assert(pages[pages.len() - 1] == last);
            }
        }
        if exists|k: int|
            0 <= k < pages.len() && candidates_of((#[trigger] pages[k]).hits->0, series).contains(
                replay,
            ) {
            let k = choose|k: int|
                0 <= k < pages.len() && candidates_of(
                    (#[trigger] pages[k]).hits->0,
                    series,
                ).contains(replay);
            if k < front.len() {
                assert(front[k] == pages[k]);
                let i = choose|i: int| 0 <= i < a.len() && a[i] == replay;
                assert(all[i] == replay);
            } else {
                let i = choose|i: int| 0 <= i < b.len() && b[i] == replay;
                assert(all[a.len() + i] == replay);
            }
        }
    }
}

/// A search that has not failed has found a replay just where a hit of one of its pages has the
/// replay's name, number and date, with a length of a complete recording.
pub proof fn law_search_finds_each_recording(
    series: Series,
    pages: Seq<PageView>,
    replay: ReplayView,
)
    requires
        has_read(series, pages),
        !(search_run(begun_search(series), pages).1 is Failed),
    ensures
        search_run(begun_search(series), pages).0.found.contains(replay) <==> exists|
            k: int,
            i: int,
        |
            #![trigger pages[k].hits->0[i]]
            {
                let hit = pages[k].hits->0[i];
                &&& 0 <= k < pages.len()
                &&& 0 <= i < pages[k].hits->0.len()
                &&& hit.name == Some(replay.title)
                &&& hit.id == Some(replay.id)
                &&& hit.duration is Some
                &&& is_replay(series, replay.title, hit.duration->0)
                &&& hit.published is Some ==> replay.published == hit.published->0
                &&& hit.published is None ==> replay.published.len() == 0
            },
{
    law_search_finds_all(series, pages);
    lemma_candidate_of_pages(pages, series, replay);
    let found = search_run(begun_search(series), pages).0.found;
    if found.contains(replay) {
        let k = choose|k: int|
            0 <= k < pages.len() && candidates_of((#[trigger] pages[k]).hits->0, series).contains(
                replay,
            );
        let hits = pages[k].hits->0;
        lemma_candidate_among(hits, series, replay);
        let i = choose|i: int|
            0 <= i < hits.len() && candidate_of(#[trigger] hits[i], series) == Some(replay);
        law_candidates(hits[i], series, replay);
        assert(pages[k].hits->0[i] == hits[i]);
    }
    assert forall|k: int, i: int|
        #![trigger pages[k].hits->0[i]]
        0 <= k < pages.len() && 0 <= i < pages[k].hits->0.len() && candidate_of(
            pages[k].hits->0[i],
            series,
        ) == Some(replay) implies found.contains(replay) by {
        lemma_candidate_among(pages[k].hits->0, series, replay);
    }
    assert forall|k: int, i: int|
        #![trigger pages[k].hits->0[i]]
        {
            let hit = pages[k].hits->0[i];
            &&& 0 <= k < pages.len()
            &&& 0 <= i < pages[k].hits->0.len()
            &&& hit.name == Some(replay.title)
            &&& hit.id == Some(replay.id)
            &&& hit.duration is Some
            &&& is_replay(series, replay.title, hit.duration->0)
            &&& hit.published is Some ==> replay.published == hit.published->0
            &&& hit.published is None ==> replay.published.len() == 0
        } implies found.contains(replay) by {
        law_candidates(pages[k].hits->0[i], series, replay);
    }
}

/// The replays of a search newest first are the same replays; no later one stands behind an
/// earlier one, and those that were published together keep their order.
pub proof fn law_newest_first(replays: Seq<ReplayView>, published: Seq<char>)
    ensures
        ({
            let sorted = in_order(replays, newer());
            &&& sorted.to_multiset() == replays.to_multiset()
            &&& forall|i: int, j: int|
                #![trigger sorted[i], sorted[j]]
                0 <= i < j < sorted.len() ==> !before(sorted[i].published, sorted[j].published)
            &&& sorted.filter(|r: ReplayView| r.published == published) == replays.filter(
                |r: ReplayView| r.published == published,
            )
        }),
{
    law_sort_keeps_items(replays, newer());
    lemma_newer_ranks();
    law_sort_orders(replays, newer());
    let sorted = in_order(replays, newer());
    assert forall|i: int, j: int|
        #![trigger sorted[i], sorted[j]]
        0 <= i < j < sorted.len() implies !before(sorted[i].published, sorted[j].published) by {
        assert(!newer()(sorted[j], sorted[i]));
    }
    lemma_before_irreflexive(published);
    law_sort_is_stable(replays, newer(), |r: ReplayView| r.published == published);
}

/// The replays of a collection newest and highest first are the same replays; no later one stands
/// behind an earlier one, and of those that were published together none stands behind one of a
/// lower number.
pub proof fn law_newest_and_highest_first(replays: Seq<ReplayView>)
    ensures
        ({
            let sorted = in_order(replays, newer_or_higher());
            &&& sorted.to_multiset() == replays.to_multiset()
            &&& forall|i: int, j: int|
                #![trigger sorted[i], sorted[j]]
                0 <= i < j < sorted.len() ==> !before(sorted[i].published, sorted[j].published) && (
                sorted[i].published == sorted[j].published ==> sorted[i].id >= sorted[j].id)
        }),
{
    law_sort_keeps_items(replays, newer_or_higher());
    lemma_newer_ranks();
    law_sort_orders(replays, newer_or_higher());
    let sorted = in_order(replays, newer_or_higher());
    assert forall|i: int, j: int|
        #![trigger sorted[i], sorted[j]]
        0 <= i < j < sorted.len() implies !before(sorted[i].published, sorted[j].published) && (
    sorted[i].published == sorted[j].published ==> sorted[i].id >= sorted[j].id) by {
        assert(!newer_or_higher()(sorted[j], sorted[i]));
    }
}

/// What a search for a series looks for: the series' name, with the number where it has one, as a
/// phrase.
pub proof fn law_queries(number: u16)
    ensures
        query_of(Series::Ufc(number)) == "\"UFC "@ + decimal(number as nat) + "\""@,
        query_of(Series::Bjj(number)) == "\"UFC BJJ "@ + decimal(number as nat) + "\""@,
        query_of(Series::Contender) == "\"Dana White's Contender Series\""@,
        query_of(Series::FightNight) == "\"UFC Fight Night:\""@,
{
}

} // verus!
