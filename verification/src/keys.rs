//! Fight Night event keys and which of them are searched in depth.

use crate::ordering::{
    in_order, is_in_order, is_ranking, law_sort_keeps_items, law_sort_orders, lemma_sort_map, sort,
};
use crate::text::{
    all_digits, before, chars_of, is_digit, lemma_before_irreflexive, lemma_before_total,
    lemma_before_transitive, only_digits, same_text, slice_chars, text_before,
};
use vstd::prelude::*;
use vstd::string::*;

verus! {

/// The contents of a key with the publication date of its event.
pub type DatedKey = (Seq<char>, Seq<char>);

/// The contents of a list of keys with dates.
pub open spec fn key_views(keys: Seq<(String, String)>) -> Seq<DatedKey> {
    keys.map_values(|pair: (String, String)| (pair.0@, pair.1@))
}

/// The contents of a list of texts.
pub open spec fn text_views(texts: Seq<String>) -> Seq<Seq<char>> {
    texts.map_values(|text: String| text@)
}

/// The keys of a list.
pub open spec fn bare_keys(keys: Seq<DatedKey>) -> Seq<Seq<char>> {
    keys.map_values(|pair: DatedKey| pair.0)
}

/// A key without a date.
pub open spec fn undated() -> spec_fn(DatedKey) -> bool {
    |pair: DatedKey| pair.1.len() == 0
}

/// A key with a date.
pub open spec fn dated() -> spec_fn(DatedKey) -> bool {
    |pair: DatedKey| pair.1.len() > 0
}

/// A key that is not older than the baseline; without a baseline, any key.
pub open spec fn not_older_than(baseline: Seq<char>) -> spec_fn(DatedKey) -> bool {
    |pair: DatedKey| baseline.len() == 0 || !before(pair.1, baseline)
}

/// The key with the later date stands ahead.
pub open spec fn newer_key() -> spec_fn(DatedKey, DatedKey) -> bool {
    |a: DatedKey, b: DatedKey| before(b.1, a.1)
}

/// The dated keys, newest first.
pub open spec fn dated_newest_first(keys: Seq<DatedKey>) -> Seq<DatedKey> {
    in_order(keys.filter(dated()), newer_key())
}

/// The keys to search in depth, if there were no limit: the undated ones, then those that are
/// dated and not older than the baseline, newest first.
pub open spec fn wanted_keys(keys: Seq<DatedKey>, baseline: Seq<char>) -> Seq<Seq<char>> {
    bare_keys(keys.filter(undated())) + bare_keys(
        dated_newest_first(keys).filter(not_older_than(baseline)),
    )
}

/// The first `limit` keys of `wanted_keys`.
pub open spec fn selected_keys(keys: Seq<DatedKey>, baseline: Seq<char>, limit: nat) -> Seq<
    Seq<char>,
> {
    let wanted = wanted_keys(keys, baseline);
    if wanted.len() <= limit {
        wanted
    } else {
        wanted.take(limit as int)
    }
}

/// Later dates first is an order that treats equal dates alike.
pub proof fn lemma_newer_key_ranks()
    ensures
        is_ranking(newer_key()),
{
    let ahead = newer_key();
    assert forall|a: DatedKey| !#[trigger] ahead(a, a) by {
        lemma_before_irreflexive(a.1);
    }
    assert forall|a: DatedKey, b: DatedKey, c: DatedKey|
        #![trigger ahead(a, b), ahead(b, c)]
        ahead(a, b) && ahead(b, c) implies ahead(a, c) by {
        lemma_before_transitive(c.1, b.1, a.1);
    }
    assert forall|a: DatedKey, b: DatedKey, c: DatedKey|
        #![trigger ahead(a, b), ahead(a, c)]
        ahead(a, c) && !ahead(b, c) implies ahead(a, b) by {
        if b.1 != c.1 {
            lemma_before_total(b.1, c.1);
            lemma_before_transitive(b.1, c.1, a.1);
        }
    }
}

/// In a list that is in order, what stands behind a key that is too old is too old as well.
proof fn lemma_old_tail(list: Seq<DatedKey>, baseline: Seq<char>, at: int)
    requires
        is_in_order(list, newer_key()),
        0 <= at < list.len(),
        !not_older_than(baseline)(list[at]),
    ensures
        list.filter(not_older_than(baseline)) == list.take(at).filter(not_older_than(baseline)),
{
    let fresh = not_older_than(baseline);
    let tail = list.skip(at);
    assert forall|i: int| 0 <= i < tail.len() implies !fresh(#[trigger] tail[i]) by {
        assert(tail[i] == list[at + i]);
        if i > 0 {
            assert(!newer_key()(list[at + i], list[at]));
            let d = list[at + i].1;
            let e = list[at].1;
            if d != e {
                lemma_before_total(d, e);
                lemma_before_transitive(d, e, baseline);
            }
        }
    }
    lemma_filter_none(tail, fresh);
    Seq::filter_distributes_over_add(list.take(at), tail, fresh);
    assert(list =~= list.take(at) + tail);
    assert(list.take(at).filter(fresh) + Seq::<DatedKey>::empty() =~= list.take(at).filter(fresh));
}

/// A list with nothing to keep.
proof fn lemma_filter_none<A>(list: Seq<A>, keep: spec_fn(A) -> bool)
    requires
        forall|i: int| 0 <= i < list.len() ==> !keep(#[trigger] list[i]),
    ensures
        list.filter(keep) == Seq::<A>::empty(),
    decreases list.len(),
{
    reveal(Seq::filter);
    if list.len() > 0 {
        lemma_filter_none(list.drop_last(), keep);
    } else {
        assert(list =~= Seq::<A>::empty());
    }
}

/// A list with nothing to leave out.
proof fn lemma_filter_all<A>(list: Seq<A>, keep: spec_fn(A) -> bool)
    requires
        forall|i: int| 0 <= i < list.len() ==> keep(#[trigger] list[i]),
    ensures
        list.filter(keep) == list,
    decreases list.len(),
{
    reveal(Seq::filter);
    if list.len() > 0 {
        lemma_filter_all(list.drop_last(), keep);
        assert(list =~= list.drop_last().push(list.last()));
    }
}

/// A list with one more item, filtered.
pub proof fn lemma_filter_push<A>(list: Seq<A>, item: A, keep: spec_fn(A) -> bool)
    ensures
        list.push(item).filter(keep) == (if keep(item) {
            list.filter(keep).push(item)
        } else {
            list.filter(keep)
        }),
{
    reveal(Seq::filter);
    assert(list.push(item).drop_last() =~= list);
}

/// Parts a list of keys into those without and those with a date.
fn part_by_date(keys: Vec<(String, String)>) -> (r: (Vec<(String, String)>, Vec<(String, String)>))
    ensures
        key_views(r.0@) == key_views(keys@).filter(undated()),
        key_views(r.1@) == key_views(keys@).filter(dated()),
{
    let ghost whole = key_views(keys@);
    let mut rest = keys;
    let mut without: Vec<(String, String)> = Vec::new();
    let mut with: Vec<(String, String)> = Vec::new();
    let mut i: usize = 0;
    proof {
        lemma_filter_none(Seq::<DatedKey>::empty(), undated());
        lemma_filter_none(Seq::<DatedKey>::empty(), dated());
        assert(whole.take(0) =~= Seq::<DatedKey>::empty());
        assert(key_views(without@) =~= Seq::<DatedKey>::empty());
        assert(key_views(with@) =~= Seq::<DatedKey>::empty());
    }
    let total: usize = rest.len();
    while i < total
        invariant
            i <= total,
            total == keys@.len(),
            rest@ == keys@.skip(i as int),
            whole == key_views(keys@),
            key_views(without@) == whole.take(i as int).filter(undated()),
            key_views(with@) == whole.take(i as int).filter(dated()),
        decreases total - i,
    {
        let pair = rest.remove(0);
        let ghost view = (pair.0@, pair.1@);
        proof {
            assert(pair == keys@[i as int]);
            assert(whole[i as int] == view);
            assert(whole.take(i + 1) =~= whole.take(i as int).push(view));
            lemma_filter_push(whole.take(i as int), view, undated());
            lemma_filter_push(whole.take(i as int), view, dated());
            assert(rest@ =~= keys@.skip(i + 1));
        }
        let ghost before_without = without@;
        let ghost before_with = with@;
        if pair.1.as_str().is_empty() {
            without.push(pair);
            assert(key_views(without@) =~= key_views(before_without).push(view));
        } else {
            with.push(pair);
            assert(key_views(with@) =~= key_views(before_with).push(view));
        }
        i = i + 1;
    }
    assert(whole.take(i as int) =~= whole);
    (without, with)
}

/// Whether the first key has the later date.
fn is_newer_key(a: &(String, String), b: &(String, String)) -> (r: bool)
    ensures
        r == before(b.1@, a.1@),
{
    text_before(b.1.as_str(), a.1.as_str())
}

/// Sorts dated keys, newest first.
fn sort_newest_first(keys: Vec<(String, String)>) -> (r: Vec<(String, String)>)
    ensures
        key_views(r@) == in_order(key_views(keys@), newer_key()),
{
    let ghost ahead = |a: (String, String), b: (String, String)| before(b.1@, a.1@);
    proof {
        lemma_sort_map(
            keys@,
            ahead,
            |pair: (String, String)| (pair.0@, pair.1@),
            newer_key(),
        );
    }
    sort(keys, is_newer_key, Ghost(ahead))
}

/// Chooses which Fight Night event keys to deep-search. Undated keys (from
/// year-tagged playlists, i.e. recent events) come first so they are never
/// starved by the dated broad scan; dated keys follow newest-first, stopping
/// once older than the baseline. The total is bounded by `limit`.
pub fn select_fight_night_keys(
    keys: Vec<(String, String)>,
    baseline: &str,
    limit: usize,
) -> (r: Vec<String>)
    ensures
        text_views(r@) == selected_keys(key_views(keys@), baseline@, limit as nat),
{
    let ghost whole = key_views(keys@);
    let (first, rest) = part_by_date(keys);
    let second = sort_newest_first(rest);
    let ghost head = key_views(first@);
    let ghost tail = key_views(second@);
    let ghost fresh = not_older_than(baseline@);
    let ghost wanted = wanted_keys(whole, baseline@);
    assert(wanted == bare_keys(head) + bare_keys(tail.filter(fresh)));
    proof {
        lemma_newer_key_ranks();
        law_sort_orders(whole.filter(dated()), newer_key());
    }
    let mut selected: Vec<String> = Vec::new();
    let mut i: usize = 0;
    assert(text_views(selected@) =~= bare_keys(head).take(0));
    while i < first.len()
        invariant
            i <= first.len(),
            i <= limit,
            selected.len() == i,
            head == key_views(first@),
            whole == key_views(keys@),
            wanted == wanted_keys(whole, baseline@),
            wanted == bare_keys(head) + bare_keys(tail.filter(fresh)),
            text_views(selected@) == bare_keys(head).take(i as int),
        decreases first.len() - i,
    {
        if selected.len() >= limit {
            assert(wanted.take(limit as int) =~= bare_keys(head).take(i as int));
            return selected;
        }
        let ghost done = text_views(selected@);
        selected.push(first[i].0.clone());
        proof {
            assert(head[i as int].0 == first@[i as int].0@);
            assert(text_views(selected@) =~= done.push(head[i as int].0));
            assert(bare_keys(head).take(i + 1) =~= done.push(head[i as int].0));
        }
        i = i + 1;
    }
    let mut j: usize = 0;
    assert(bare_keys(tail.take(0)) =~= Seq::<Seq<char>>::empty());
    assert(text_views(selected@) =~= bare_keys(head) + bare_keys(tail.take(0)));
    while j < second.len()
        invariant
            j <= second.len(),
            head.len() + j <= limit,
            selected.len() == head.len() + j,
            tail == key_views(second@),
            is_in_order(tail, newer_key()),
            fresh == not_older_than(baseline@),
            whole == key_views(keys@),
            wanted == wanted_keys(whole, baseline@),
            wanted == bare_keys(head) + bare_keys(tail.filter(fresh)),
            forall|k: int| 0 <= k < j ==> fresh(#[trigger] tail[k]),
            text_views(selected@) == bare_keys(head) + bare_keys(tail.take(j as int)),
        decreases second.len() - j,
    {
        assert(tail[j as int].1 == second@[j as int].1@);
        if !baseline.is_empty() && text_before(second[j].1.as_str(), baseline) {
            proof {
                lemma_old_tail(tail, baseline@, j as int);
                lemma_filter_all(tail.take(j as int), fresh);
            }
            return selected;
        }
        assert(fresh(tail[j as int]));
        proof {
            let upto = tail.take(j + 1);
            let beyond = tail.skip(j + 1);
            assert(tail =~= upto + beyond);
            Seq::filter_distributes_over_add(upto, beyond, fresh);
            lemma_filter_all(upto, fresh);
            assert(wanted =~= bare_keys(head) + bare_keys(upto) + bare_keys(beyond.filter(fresh)));
        }
        if selected.len() >= limit {
            assert(wanted.take(limit as int) =~= bare_keys(head) + bare_keys(tail.take(j as int)));
            return selected;
        }
        let ghost done = text_views(selected@);
        selected.push(second[j].0.clone());
        proof {
            assert(tail[j as int].0 == second@[j as int].0@);
            assert(text_views(selected@) =~= done.push(tail[j as int].0));
            assert(bare_keys(tail.take(j + 1)) =~= bare_keys(tail.take(j as int)).push(
                tail[j as int].0,
            ));
            assert(text_views(selected@) =~= bare_keys(head) + bare_keys(tail.take(j + 1)));
        }
        j = j + 1;
    }
    proof {
        lemma_filter_all(tail, fresh);
        assert(tail.take(j as int) =~= tail);
    }
    selected
}

/// `at` is where the entry of a key stands.
pub open spec fn entry_at(entries: Seq<DatedKey>, key: Seq<char>, at: int) -> bool {
    &&& 0 <= at < entries.len()
    &&& entries[at].0 == key
    &&& forall|j: int| 0 <= j < at ==> #[trigger] entries[j].0 != key
}

/// The entry of a key, with the date that is later, its own or `published`; a new entry with
/// `published` where the key has none.
pub open spec fn noted(
    entries: Seq<DatedKey>,
    key: Seq<char>,
    published: Seq<char>,
) -> Seq<DatedKey> {
    if exists|at: int| entry_at(entries, key, at) {
        let at = choose|at: int| entry_at(entries, key, at);
        if before(entries[at].1, published) {
            entries.update(at, (key, published))
        } else {
            entries
        }
    } else {
        entries.push((key, published))
    }
}

/// Event keys, each once, with the latest publication date that was found for it (empty where
/// none was), in the order in which they were found.
#[derive(Debug)]
pub struct EventDates {
    entries: Vec<(String, String)>,
}

impl View for EventDates {
    type V = Seq<DatedKey>;

    closed spec fn view(&self) -> Seq<DatedKey> {
        key_views(self.entries@)
    }
}

impl EventDates {
    /// No key occurs twice.
    #[verifier::type_invariant]
    spec fn distinct(self) -> bool {
        bare_keys(key_views(self.entries@)).no_duplicates()
    }

    /// No keys.
    pub fn new() -> (r: EventDates)
        ensures
            r@ == Seq::<DatedKey>::empty(),
    {
        let r = EventDates { entries: Vec::new() };
        assert(r@ =~= Seq::<DatedKey>::empty());
        r
    }

    /// Where the entry of a key stands.
    fn position(&self, key: &str) -> (r: Option<usize>)
        ensures
            match r {
                Some(at) => entry_at(self@, key@, at as int),
                None => forall|j: int| 0 <= j < self@.len() ==> #[trigger] self@[j].0 != key@,
            },
    {
        let mut i: usize = 0;
        while i < self.entries.len()
            invariant
                i <= self.entries.len(),
                forall|j: int| 0 <= j < i ==> #[trigger] self@[j].0 != key@,
            decreases self.entries.len() - i,
        {
            assert(self@[i as int].0 == self.entries@[i as int].0@);
            if same_text(self.entries[i].0.as_str(), key) {
                return Some(i);
            }
            i = i + 1;
        }
        None
    }

    /// Notes that a key was found, with a publication date.
    pub fn note(&mut self, key: &str, published: &str)
        ensures
            final(self)@ == noted(old(self)@, key@, published@),
    {
        proof {
            use_type_invariant(&*self);
        }
        let ghost views = self@;
        match self.position(key) {
            Some(at) => {
                proof {
                    let chosen = choose|i: int| entry_at(views, key@, i);
                    assert(entry_at(views, key@, chosen));
                    assert(chosen == at);
                }
                assert(views[at as int].1 == self.entries@[at as int].1@);
                if text_before(self.entries[at].1.as_str(), published) {
                    let mut entries: Vec<(String, String)> = Vec::new();
                    std::mem::swap(&mut entries, &mut self.entries);
                    entries.set(at, (String::from_str(key), String::from_str(published)));
                    proof {
                        assert(key_views(entries@) =~= views.update(at as int, (key@, published@)));
                        assert(bare_keys(key_views(entries@)) =~= bare_keys(views));
                    }
                    self.entries = entries;
                }
            },
            None => {
                let mut entries: Vec<(String, String)> = Vec::new();
                std::mem::swap(&mut entries, &mut self.entries);
                entries.push((String::from_str(key), String::from_str(published)));
                proof {
                    assert(key_views(entries@) =~= views.push((key@, published@)));
                    assert(bare_keys(key_views(entries@)) =~= bare_keys(views).push(key@));
                    assert forall|i: int, j: int|
                        0 <= i < j < views.len() + 1 implies bare_keys(
                        key_views(entries@),
                    )[i] != bare_keys(key_views(entries@))[j] by {
                        assert(views[i].0 == bare_keys(views)[i]);
                        if j < views.len() {
                            assert(bare_keys(views)[i] != bare_keys(views)[j]);
                        }
                    }
                }
                self.entries = entries;
            },
        }
    }

    /// The keys with their dates.
    pub fn pairs(&self) -> (r: Vec<(String, String)>)
        ensures
            key_views(r@) == self@,
            bare_keys(self@).no_duplicates(),
    {
        proof {
            use_type_invariant(self);
        }
        let mut r: Vec<(String, String)> = Vec::new();
        let mut i: usize = 0;
        assert(key_views(r@) =~= self@.take(0));
        while i < self.entries.len()
            invariant
                i <= self.entries.len(),
                key_views(r@) == self@.take(i as int),
            decreases self.entries.len() - i,
        {
            let ghost done = key_views(r@);
            r.push((self.entries[i].0.clone(), self.entries[i].1.clone()));
            assert(key_views(r@) =~= done.push(self@[i as int]));
            assert(self@.take(i + 1) =~= done.push(self@[i as int]));
            i = i + 1;
        }
        assert(self@.take(i as int) =~= self@);
        r
    }
}

/// The value of a row of decimal digits.
pub open spec fn number_of(digits: Seq<char>) -> nat
    decreases digits.len(),
{
    if digits.len() == 0 {
        0
    } else {
        number_of(digits.drop_last()) * 10 + ((digits.last() as nat - 48) as nat)
    }
}

/// The year that a date begins with, in four digits; nothing where it begins otherwise.
pub open spec fn year_of(date: Seq<char>) -> Option<nat> {
    if date.len() >= 4 && all_digits(date.take(4)) {
        Some(number_of(date.take(4)))
    } else {
        None
    }
}

/// A key's date begins with a year.
pub open spec fn has_year(entries: Seq<DatedKey>) -> bool {
    exists|i: int| 0 <= i < entries.len() && year_of((#[trigger] entries[i]).1) is Some
}

/// `year` is the year of a key's date, and no key's date is of a higher year.
pub open spec fn is_highest_year(entries: Seq<DatedKey>, year: nat) -> bool {
    &&& exists|i: int| 0 <= i < entries.len() && year_of((#[trigger] entries[i]).1) == Some(year)
    &&& forall|j: int|
        0 <= j < entries.len() ==> match year_of((#[trigger] entries[j]).1) {
            Some(other) => other <= year,
            None => true,
        }
}

/// The highest year among the keys' dates, if any of them begins with a year.
pub open spec fn latest_year_of(entries: Seq<DatedKey>) -> Option<nat> {
    if has_year(entries) {
        Some(choose|year: nat| is_highest_year(entries, year))
    } else {
        None
    }
}

/// The value of a row of at most four decimal digits.
fn parse_digits(digits: &Vec<char>) -> (r: u32)
    requires
        digits.len() <= 4,
        all_digits(digits@),
    ensures
        r == number_of(digits@),
        r < 10_000,
{
    let mut value: u32 = 0;
    let mut bound: u32 = 1;
    let mut i: usize = 0;
    assert(digits@.take(0) =~= Seq::<char>::empty());
    while i < digits.len()
        invariant
            i <= digits.len() <= 4,
            all_digits(digits@),
            value == number_of(digits@.take(i as int)),
            value < bound,
            i == 0 ==> bound == 1,
            i == 1 ==> bound == 10,
            i == 2 ==> bound == 100,
            i == 3 ==> bound == 1000,
            i == 4 ==> bound == 10_000,
        decreases digits.len() - i,
    {
        let c: char = digits[i];
        assert(is_digit(digits@[i as int]));
        proof {
            let upto = digits@.take(i + 1);
            assert(upto.drop_last() =~= digits@.take(i as int));
            assert(upto.last() == c);
        }
        value = value * 10 + ((c as u32) - 48);
        bound = bound * 10;
        i = i + 1;
    }
    assert(digits@.take(i as int) =~= digits@);
    value
}

/// The year that a date begins with.
fn parse_year(date: &str) -> (r: Option<u32>)
    ensures
        match r {
            Some(year) => year_of(date@) == Some(year as nat),
            None => year_of(date@) is None,
        },
{
    let chars = chars_of(date);
    if chars.len() < 4 {
        return None;
    }
    let four = slice_chars(&chars, 0, 4);
    assert(four@ =~= date@.take(4));
    if only_digits(&four) {
        return Some(parse_digits(&four));
    }
    None
}

/// There is one highest year.
proof fn lemma_highest_year(entries: Seq<DatedKey>, year: nat)
    requires
        is_highest_year(entries, year),
    ensures
        latest_year_of(entries) == Some(year),
{
    let chosen = choose|y: nat| is_highest_year(entries, y);
    assert(is_highest_year(entries, chosen));
}

/// Highest release year present among the dated keys (for year-tag lookups). A date that begins
/// with no year hides no other.
pub fn latest_year(keys: &EventDates) -> (r: Option<u32>)
    ensures
        match r {
            Some(year) => is_highest_year(keys@, year as nat) && latest_year_of(keys@) == Some(
                year as nat,
            ),
            None => !has_year(keys@) && latest_year_of(keys@) is None,
        },
{
    let pairs = keys.pairs();
    let mut best: Option<u32> = None;
    let mut i: usize = 0;
    assert(keys@.take(0) =~= Seq::<DatedKey>::empty());
    while i < pairs.len()
        invariant
            i <= pairs.len(),
            key_views(pairs@) == keys@,
            match best {
                Some(year) => is_highest_year(keys@.take(i as int), year as nat),
                None => !has_year(keys@.take(i as int)),
            },
        decreases pairs.len() - i,
    {
        let ghost done = keys@.take(i as int);
        let ghost upto = keys@.take(i + 1);
        let ghost date = keys@[i as int].1;
        assert(date == pairs@[i as int].1@);
        assert(upto =~= done.push(keys@[i as int]));
        let read = parse_year(pairs[i].1.as_str());
        let ghost so_far = best;
        match (best, read) {
            (_, None) => {},
            (None, Some(year)) => {
                best = Some(year);
            },
            (Some(highest), Some(year)) => {
                if year > highest {
                    best = Some(year);
                }
            },
        }
        proof {
            lemma_next_year(
                done,
                keys@[i as int],
                match so_far {
                    Some(year) => Some(year as nat),
                    None => None,
                },
            );
        }
        i = i + 1;
    }
    assert(keys@.take(i as int) =~= keys@);
    proof {
        if let Some(year) = best {
            lemma_highest_year(keys@, year as nat);
        }
    }
    best
}

/// The highest year of keys with one more key.
proof fn lemma_next_year(done: Seq<DatedKey>, next: DatedKey, highest: Option<nat>)
    requires
        match highest {
            Some(year) => is_highest_year(done, year),
            None => !has_year(done),
        },
    ensures
        match (highest, year_of(next.1)) {
            (None, None) => !has_year(done.push(next)),
            (Some(year), None) => is_highest_year(done.push(next), year),
            (None, Some(year)) => is_highest_year(done.push(next), year),
            (Some(year), Some(other)) => is_highest_year(
                done.push(next),
                if other > year {
                    other
                } else {
                    year
                },
            ),
        },
{
    let all = done.push(next);
    let last = done.len() as int;
    assert(all[last] == next);
    assert forall|j: int| 0 <= j < done.len() implies all[j] == #[trigger] done[j] by {}
    if let Some(year) = highest {
        let i = choose|i: int| 0 <= i < done.len() && year_of((#[trigger] done[i]).1) == Some(year);
        assert(all[i] == done[i]);
    }
    assert forall|j: int| 0 <= j < all.len() implies match year_of((#[trigger] all[j]).1) {
        Some(other) => j == last || (highest is Some && other <= highest->0),
        None => true,
    } by {
        if j < last {
            assert(all[j] == done[j]);
        }
    }
}

/// The selection is bounded by the limit. The undated keys come first, in their order, so that no
/// dated key takes the place of one; behind them come dated keys, none older than the baseline
/// and none behind an older one.
pub proof fn law_selection(keys: Seq<DatedKey>, baseline: Seq<char>, limit: nat)
    ensures
        ({
            let selected = selected_keys(keys, baseline, limit);
            let first = keys.filter(undated());
            let second = dated_newest_first(keys).filter(not_older_than(baseline));
            &&& selected.len() <= limit
            &&& selected.len() < limit ==> selected.len() == first.len() + second.len()
            &&& forall|i: int|
                0 <= i < selected.len() && i < first.len() ==> #[trigger] selected[i] == first[i].0
            &&& forall|i: int|
                first.len() <= i < selected.len() ==> #[trigger] selected[i] == second[i
                    - first.len()].0
            &&& forall|i: int|
                0 <= i < second.len() ==> keys.contains(#[trigger] second[i]) && second[i].1.len()
                    > 0 && (baseline.len() == 0 || !before(second[i].1, baseline))
            &&& forall|i: int, j: int|
                #![trigger second[i], second[j]]
                0 <= i < j < second.len() ==> !before(second[i].1, second[j].1)
        }),
{
    broadcast use vstd::seq_lib::group_to_multiset_ensures;

    let kept = keys.filter(dated());
    let sorted = dated_newest_first(keys);
    let fresh = not_older_than(baseline);
    let second = sorted.filter(fresh);
    law_sort_keeps_items(kept, newer_key());
    lemma_newer_key_ranks();
    law_sort_orders(kept, newer_key());
    assert forall|i: int| 0 <= i < second.len() implies keys.contains(#[trigger] second[i])
        && second[i].1.len() > 0 && (baseline.len() == 0 || !before(second[i].1, baseline)) by {
        sorted.lemma_filter_pred(fresh, i);
        assert(second.contains(second[i]));
        sorted.lemma_filter_contains_rev(fresh, second[i]);
        assert(sorted.to_multiset().count(second[i]) > 0);
        assert(kept.contains(second[i]));
        let k = choose|k: int| 0 <= k < kept.len() && kept[k] == second[i];
        keys.lemma_filter_pred(dated(), k);
        keys.lemma_filter_contains_rev(dated(), second[i]);
    }
    lemma_filter_in_order(sorted, newer_key(), fresh);
}

/// What is left of a list that is in order is in order.
proof fn lemma_filter_in_order<A>(
    list: Seq<A>,
    ahead: spec_fn(A, A) -> bool,
    keep: spec_fn(A) -> bool,
)
    requires
        is_in_order(list, ahead),
    ensures
        is_in_order(list.filter(keep), ahead),
    decreases list.len(),
{
    reveal(Seq::filter);
    if list.len() > 0 {
        let front = list.drop_last();
        let last = list.last();
        assert(is_in_order(front, ahead)) by {
            assert forall|i: int, j: int|
                #![trigger front[i], front[j]]
                0 <= i < j < front.len() implies !ahead(front[j], front[i]) by {
                assert(front[i] == list[i] && front[j] == list[j]);
            }
        }
        lemma_filter_in_order(front, ahead, keep);
        let kept = front.filter(keep);
        if keep(last) {
            let whole = kept.push(last);
            assert forall|i: int, j: int|
                #![trigger whole[i], whole[j]]
                0 <= i < j < whole.len() implies !ahead(whole[j], whole[i]) by {
                if j < kept.len() {
                    assert(whole[i] == kept[i] && whole[j] == kept[j]);
                } else {
                    assert(kept.contains(kept[i]));
                    front.lemma_filter_contains_rev(keep, kept[i]);
                    let k = choose|k: int| 0 <= k < front.len() && front[k] == kept[i];
                    assert(list[k] == kept[i]);
                    assert(list[list.len() - 1] == last);
                }
            }
        }
    }
}

/// Each key keeps one entry, and an entry's date only moves forward.
pub proof fn law_noted(entries: Seq<DatedKey>, key: Seq<char>, published: Seq<char>)
    requires
        bare_keys(entries).no_duplicates(),
    ensures
        bare_keys(noted(entries, key, published)).no_duplicates(),
        bare_keys(noted(entries, key, published)).contains(key),
        entries.len() <= noted(entries, key, published).len() <= entries.len() + 1,
        forall|i: int|
            0 <= i < entries.len() ==> (#[trigger] noted(entries, key, published)[i]).0
                == entries[i].0 && !before(noted(entries, key, published)[i].1, entries[i].1),
{
    let after = noted(entries, key, published);
    assert forall|i: int| 0 <= i < entries.len() implies (#[trigger] after[i]).0 == entries[i].0
        && !before(after[i].1, entries[i].1) by {
        lemma_before_irreflexive(entries[i].1);
        if before(published, entries[i].1) && before(entries[i].1, published) {
            lemma_before_transitive(published, entries[i].1, published);
            lemma_before_irreflexive(published);
        }
    }
    if exists|at: int| entry_at(entries, key, at) {
        let at = choose|at: int| entry_at(entries, key, at);
        assert(bare_keys(after) =~= bare_keys(entries));
        assert(bare_keys(after)[at] == key);
    } else {
        assert(bare_keys(after) =~= bare_keys(entries).push(key));
        assert(bare_keys(after)[entries.len() as int] == key);
        assert forall|i: int| 0 <= i < entries.len() implies #[trigger] entries[i].0 != key by {
            lemma_no_entry(entries, key, i);
        }
        assert forall|i: int, j: int| 0 <= i < j < after.len() implies bare_keys(after)[i]
            != bare_keys(after)[j] by {
            assert(bare_keys(entries)[i] == entries[i].0);
        }
    }
}

/// Where no place is the first of a key, the key has no place.
proof fn lemma_no_entry(entries: Seq<DatedKey>, key: Seq<char>, i: int)
    requires
        !(exists|at: int| entry_at(entries, key, at)),
        0 <= i < entries.len(),
    ensures
        entries[i].0 != key,
    decreases i,
{
    if entries[i].0 == key {
        assert forall|j: int| 0 <= j < i implies #[trigger] entries[j].0 != key by {
            lemma_no_entry(entries, key, j);
        }
        assert(entry_at(entries, key, i));
    }
}

/// Where a key's date begins with a year, one is the highest.
proof fn lemma_has_highest_year(entries: Seq<DatedKey>)
    requires
        has_year(entries),
    ensures
        exists|year: nat| is_highest_year(entries, year),
    decreases entries.len(),
{
    let front = entries.drop_last();
    assert(entries =~= front.push(entries.last()));
    if has_year(front) {
        lemma_has_highest_year(front);
        let year = choose|year: nat| is_highest_year(front, year);
        lemma_next_year(front, entries.last(), Some(year));
    } else {
        lemma_next_year(front, entries.last(), None);
    }
}

/// The latest year is the highest among those of the dated keys: it is the year of one of them,
/// and no key's year is higher, whatever else the dates hold.
pub proof fn law_latest_year_is_highest(entries: Seq<DatedKey>, k: int)
    requires
        0 <= k < entries.len(),
        year_of(entries[k].1) is Some,
    ensures
        latest_year_of(entries) is Some,
        year_of(entries[k].1)->0 <= latest_year_of(entries)->0,
        exists|i: int|
            0 <= i < entries.len() && year_of((#[trigger] entries[i]).1) == latest_year_of(entries),
{
    lemma_has_highest_year(entries);
    let year = choose|year: nat| is_highest_year(entries, year);
    lemma_highest_year(entries, year);
}

/// A year has at most four digits.
pub proof fn lemma_year_bound(entries: Seq<DatedKey>)
    ensures
        latest_year_of(entries) matches Some(year) ==> year < 10_000,
{
    if has_year(entries) {
        lemma_has_highest_year(entries);
        let year = choose|year: nat| is_highest_year(entries, year);
        lemma_highest_year(entries, year);
        let i = choose|i: int|
            0 <= i < entries.len() && year_of((#[trigger] entries[i]).1) == Some(year);
        let digits = entries[i].1.take(4);
        assert forall|j: int| 0 <= j < 4 implies is_digit(#[trigger] digits[j]) by {}
        assert(digits.drop_last().last() == digits[2]);
        assert(digits.drop_last().drop_last().last() == digits[1]);
        assert(digits.drop_last().drop_last().drop_last().last() == digits[0]);
        reveal_with_fuel(number_of, 5);
    }
}

/// A key is undated where its date is empty; a dated one is fresh where there is no baseline or its
/// date is not before it; and of two keys the one with the later date is newer.
pub proof fn law_kinds_of_keys(a: DatedKey, b: DatedKey, baseline: Seq<char>)
    ensures
        undated()(a) <==> a.1.len() == 0,
        dated()(a) <==> a.1.len() > 0,
        not_older_than(baseline)(a) <==> baseline.len() == 0 || !before(a.1, baseline),
        newer_key()(a, b) <==> before(b.1, a.1),
{
}

/// `key` stands in the list at `j`, undated or not older than the baseline.
pub open spec fn is_wanted_at(
    keys: Seq<DatedKey>,
    baseline: Seq<char>,
    key: Seq<char>,
    j: int,
) -> bool {
    &&& 0 <= j < keys.len()
    &&& keys[j].0 == key
    &&& keys[j].1.len() == 0 || baseline.len() == 0 || !before(keys[j].1, baseline)
}

/// At most so many keys are selected as the limit says, and as long as it is not reached, none is
/// left out that is undated or not older than the baseline.
pub proof fn law_selection_leaves_nothing_out(
    keys: Seq<DatedKey>,
    baseline: Seq<char>,
    limit: nat,
    k: int,
)
    requires
        0 <= k < keys.len(),
    ensures
        ({
            let selected = selected_keys(keys, baseline, limit);
            let wanted = keys[k].1.len() == 0 || baseline.len() == 0 || !before(
                keys[k].1,
                baseline,
            );
            &&& selected.len() <= limit
            &&& wanted && selected.len() < limit ==> selected.contains(keys[k].0)
        }),
{
    broadcast use vstd::seq_lib::group_to_multiset_ensures;

    law_selection(keys, baseline, limit);
    let selected = selected_keys(keys, baseline, limit);
    let first = keys.filter(undated());
    let sorted = dated_newest_first(keys);
    let second = sorted.filter(not_older_than(baseline));
    let kept = keys.filter(dated());
    law_sort_keeps_items(kept, newer_key());
    let wanted = keys[k].1.len() == 0 || baseline.len() == 0 || !before(keys[k].1, baseline);
    if wanted && selected.len() < limit {
        if keys[k].1.len() == 0 {
            keys.lemma_filter_contains(undated(), k);
            let i = choose|i: int| 0 <= i < first.len() && first[i] == keys[k];
            assert(selected[i] == first[i].0);
            assert(selected.contains(keys[k].0));
        } else {
            keys.lemma_filter_contains(dated(), k);
            assert(kept.contains(keys[k]));
            assert(kept.to_multiset().count(keys[k]) > 0);
            assert(sorted.contains(keys[k]));
            let i = choose|i: int| 0 <= i < sorted.len() && sorted[i] == keys[k];
            sorted.lemma_filter_contains(not_older_than(baseline), i);
            let j = choose|j: int| 0 <= j < second.len() && second[j] == keys[k];
            assert(selected.len() == first.len() + second.len());
            assert(selected[first.len() + j] == second[j].0);
            assert(selected.contains(keys[k].0));
        }
    }
}

/// Each selected key stands in the list, undated or not older than the baseline.
pub proof fn law_selection_takes_only_wanted(
    keys: Seq<DatedKey>,
    baseline: Seq<char>,
    limit: nat,
    i: int,
)
    requires
        0 <= i < selected_keys(keys, baseline, limit).len(),
    ensures
        exists|j: int|
            is_wanted_at(keys, baseline, selected_keys(keys, baseline, limit)[i], j),
{
    law_selection(keys, baseline, limit);
    let selected = selected_keys(keys, baseline, limit);
    let first = keys.filter(undated());
    let second = dated_newest_first(keys).filter(not_older_than(baseline));
    if i < first.len() {
        keys.lemma_filter_pred(undated(), i);
        assert(first.contains(first[i]));
        keys.lemma_filter_contains_rev(undated(), first[i]);
        let j = choose|j: int| 0 <= j < keys.len() && keys[j] == first[i];
        assert(is_wanted_at(keys, baseline, selected[i], j));
    } else {
        let item = second[i - first.len()];
        assert(keys.contains(item));
        let j = choose|j: int| 0 <= j < keys.len() && keys[j] == item;
        assert(is_wanted_at(keys, baseline, selected[i], j));
    }
}

/// To note a key leaves the other keys as they are; the key's date is then its own or the noted
/// one, whichever is later, and where it had none yet, the noted one.
pub proof fn law_noted_date(entries: Seq<DatedKey>, key: Seq<char>, published: Seq<char>, i: int)
    requires
        bare_keys(entries).no_duplicates(),
        0 <= i < noted(entries, key, published).len(),
    ensures
        ({
            let after = noted(entries, key, published);
            &&& after[i].0 != key ==> i < entries.len() && after[i] == entries[i]
            &&& after[i].0 == key && i < entries.len() ==> after[i].1 == (if before(
                entries[i].1,
                published,
            ) {
                published
            } else {
                entries[i].1
            })
            &&& after[i].0 == key && i >= entries.len() ==> after[i].1 == published && !bare_keys(
                entries,
            ).contains(key)
            &&& after[i].0 == key ==> !before(after[i].1, published)
        }),
{
    let after = noted(entries, key, published);
    lemma_before_irreflexive(published);
    if exists|at: int| entry_at(entries, key, at) {
        let at = choose|at: int| entry_at(entries, key, at);
        if i < entries.len() && entries[i].0 == key {
            assert(bare_keys(entries)[i] == bare_keys(entries)[at]);
        }
    } else {
        assert forall|j: int| 0 <= j < entries.len() implies #[trigger] entries[j].0 != key by {
            lemma_no_entry(entries, key, j);
        }
        if bare_keys(entries).contains(key) {
            let j = choose|j: int| 0 <= j < entries.len() && bare_keys(entries)[j] == key;
            assert(entries[j].0 == key);
        }
    }
}

/// A date that begins with a year in four digits is of that year, whatever follows; one that begins
/// otherwise is of none.
pub proof fn law_years(digits: Seq<char>, rest: Seq<char>)
    requires
        digits.len() == 4,
    ensures
        (forall|i: int| 0 <= i < 4 ==> '0' <= #[trigger] digits[i] <= '9') ==> year_of(
            digits + rest,
        ) == Some(
            ((digits[0] as int - 48) * 1000 + (digits[1] as int - 48) * 100 + (digits[2] as int
                - 48) * 10 + (digits[3] as int - 48)) as nat,
        ),
        (exists|i: int| 0 <= i < 4 && !('0' <= #[trigger] digits[i] <= '9')) ==> year_of(
            digits + rest,
        ) is None,
        forall|short: Seq<char>| #[trigger] short.len() < 4 ==> year_of(short) is None,
{
    let date = digits + rest;
    assert(date.take(4) =~= digits);
    assert(digits.drop_last() =~= seq![digits[0], digits[1], digits[2]]);
    assert(digits.drop_last().drop_last() =~= seq![digits[0], digits[1]]);
    assert(digits.drop_last().drop_last().drop_last() =~= seq![digits[0]]);
    assert(digits.drop_last().drop_last().drop_last().drop_last() =~= Seq::<char>::empty());
    reveal_with_fuel(number_of, 5);
    if forall|i: int| 0 <= i < 4 ==> '0' <= #[trigger] digits[i] <= '9' {
        assert forall|i: int| 0 <= i < 4 implies is_digit(#[trigger] digits[i]) by {
            assert('0' <= digits[i] <= '9');
        }
    }
    if exists|i: int| 0 <= i < 4 && !('0' <= #[trigger] digits[i] <= '9') {
        let i = choose|i: int| 0 <= i < 4 && !('0' <= #[trigger] digits[i] <= '9');
        assert(!is_digit(digits[i]));
    }
}

} // verus!
