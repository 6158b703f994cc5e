//! What titles tell: sponsors, foreign-language uploads, events and their prelims.

use crate::search::{is_replay, Series};
use crate::text::{
    all_digits, decimal, digit, ends_with, first_occurrence, is_digit, last_occurrence,
    lemma_first_occurrence, lemma_first_place, lemma_last_occurrence, lower, occurs, occurs_at,
    occurs_first_at, without_ending,
};
use crate::titles::{
    bjj_marker, contender_prefix, event_suffix_of, fight_night_event_key_of, fight_night_key_of,
    fight_night_marker, is_contender_replay, is_event_name, is_number, names_language, sponsor_char,
    sponsor_prefix, ufc_marker, without_prelims,
};
use vstd::prelude::*;

verus! {

/// The marker of a series' titles; the Contender Series has another form of title.
pub open spec fn marker_of(series: Series) -> Seq<char> {
    match series {
        Series::Ufc(number) => ufc_marker(number as nat),
        Series::Bjj(number) => bjj_marker(number as nat),
        Series::FightNight => fight_night_marker(),
        Series::Contender => contender_prefix(),
    }
}

/// `c` is the only colon of a marker: its place, and a space behind it.
pub open spec fn colon_at(marker: Seq<char>, c: int) -> bool {
    &&& 0 <= c
    &&& c + 2 == marker.len()
    &&& marker[c] == ':'
    &&& marker[c + 1] == ' '
    &&& forall|i: int| 0 <= i < c ==> #[trigger] marker[i] != ':'
}

/// A number in decimal is made of digits, at least one.
pub proof fn lemma_decimal_digits(n: nat)
    ensures
        all_digits(decimal(n)),
        decimal(n).len() > 0,
    decreases n,
{
    if n >= 10 {
        lemma_decimal_digits(n / 10);
    }
}

/// Different numbers differ in decimal.
proof fn lemma_decimal_injective(n: nat, m: nat)
    requires
        decimal(n) == decimal(m),
    ensures
        n == m,
    decreases n,
{
    lemma_decimal_digits(n / 10);
    lemma_decimal_digits(m / 10);
    assert(decimal(n).last() == digit(n % 10));
    assert(decimal(m).last() == digit(m % 10));
    if n >= 10 && m >= 10 {
        assert(decimal(n).drop_last() =~= decimal(n / 10));
        assert(decimal(m).drop_last() =~= decimal(m / 10));
        lemma_decimal_injective(n / 10, m / 10);
    }
}

/// Where the colon of a series' marker stands.
proof fn lemma_colon(series: Series) -> (c: int)
    requires
        series != Series::Contender,
    ensures
        colon_at(marker_of(series), c),
        marker_of(series)[0] == 'U',
        forall|i: int| 0 < i < marker_of(series).len() ==> #[trigger] marker_of(series)[i] != 'U',
{
    reveal_strlit("UFC ");
    reveal_strlit("UFC BJJ ");
    reveal_strlit(": ");
    reveal_strlit("UFC Fight Night: ");
    match series {
        Series::Ufc(number) => lemma_decimal_digits(number as nat),
        Series::Bjj(number) => lemma_decimal_digits(number as nat),
        _ => {},
    }
    marker_of(series).len() - 2
}

/// A marker behind a text without colons stands there first.
proof fn lemma_first_marker(prefix: Seq<char>, marker: Seq<char>, rest: Seq<char>, c: int)
    requires
        colon_at(marker, c),
        forall|i: int| 0 <= i < prefix.len() ==> #[trigger] prefix[i] != ':',
    ensures
        first_occurrence(prefix + marker + rest, marker) == Some(prefix.len() as int),
        (prefix + marker + rest).take(prefix.len() as int) == prefix,
        (prefix + marker + rest).skip((prefix.len() + marker.len()) as int) == rest,
{
    let text = prefix + marker + rest;
    let at = prefix.len() as int;
    assert(text.subrange(at, at + marker.len()) =~= marker);
    assert forall|j: int| #[trigger] occurs_at(text, marker, j) implies at <= j by {
        let found = text.subrange(j, j + marker.len());
        assert(found[c] == ':');
        assert(text[j + c] == ':');
        if j < at {
            if j + c < at {
                assert(text[j + c] == prefix[j + c]);
            } else {
                assert(text[j + c] == marker[j + c - at]);
            }
        }
    }
    lemma_first_occurrence(text, marker, at);
    assert(text.take(at) =~= prefix);
    assert(text.skip(at + marker.len()) =~= rest);
}

/// What stands behind the marker of a title that begins with a sponsor, or with the marker.
pub proof fn lemma_sponsored_suffix(prefix: Seq<char>, series: Series, rest: Seq<char>)
    requires
        sponsor_prefix(prefix),
        series != Series::Contender,
    ensures
        event_suffix_of(prefix + marker_of(series) + rest, marker_of(series)) == Some(rest),
{
    let c = lemma_colon(series);
    assert forall|i: int| 0 <= i < prefix.len() implies #[trigger] prefix[i] != ':' by {
        assert(sponsor_char(prefix[i]));
    }
    lemma_first_marker(prefix, marker_of(series), rest, c);
}

/// A sponsor's name before the marker changes nothing: the title is that of a complete recording
/// just where the title without the sponsor is, and a Fight Night's key is the same.
pub proof fn law_sponsor_changes_nothing(
    sponsor: Seq<char>,
    series: Series,
    rest: Seq<char>,
    duration: u64,
)
    requires
        sponsor_prefix(sponsor),
        series != Series::Contender,
    ensures
        is_replay(series, sponsor + marker_of(series) + rest, duration) == is_replay(
            series,
            marker_of(series) + rest,
            duration,
        ),
        fight_night_key_of(sponsor + fight_night_marker() + rest) == fight_night_key_of(
            fight_night_marker() + rest,
        ),
{
    let none = Seq::<char>::empty();
    lemma_sponsored_suffix(sponsor, series, rest);
    lemma_sponsored_suffix(none, series, rest);
    assert(none + marker_of(series) + rest =~= marker_of(series) + rest);
    lemma_sponsored_suffix(sponsor, Series::FightNight, rest);
    lemma_sponsored_suffix(none, Series::FightNight, rest);
    assert(none + fight_night_marker() + rest =~= fight_night_marker() + rest);
}

/// A title in which a parenthesis, a character that is not ASCII, a language name, a bout or
/// anything else that no sponsor's name holds stands before the marker is not taken for a
/// complete recording, however long it is.
pub proof fn law_wrapped_titles_are_rejected(
    name: Seq<char>,
    series: Series,
    duration: u64,
    at: int,
)
    requires
        series != Series::Contender,
        occurs_first_at(name, marker_of(series), at),
        ({
            let prefix = name.take(at);
            ||| exists|i: int| 0 <= i < prefix.len() && !sponsor_char(#[trigger] prefix[i])
            ||| prefix.len() > 0 && names_language(lower(prefix))
            ||| prefix.len() > 0 && occurs(lower(prefix), " vs "@)
        }),
    ensures
        !is_replay(series, name, duration),
{
    lemma_first_occurrence(name, marker_of(series), at);
}

/// A recording that is too short is not taken for a complete one: under an hour, or under an hour
/// and a half where its title does not end in the mark of the prelims.
pub proof fn law_short_recordings_are_rejected(name: Seq<char>, series: Series, duration: u64)
    ensures
        duration < 3600 ==> !is_replay(series, name, duration),
        (series is Ufc || series is FightNight) && duration < 5400 && !ends_with(
            name,
            "Prelims"@,
        ) ==> !is_replay(series, name, duration),
{
    if (series is Ufc || series is FightNight) && is_replay(series, name, duration) {
        lemma_prelims_end(name, series, duration);
    }
}

/// A complete recording under an hour and a half has a title that ends in the mark of the prelims.
proof fn lemma_prelims_end(name: Seq<char>, series: Series, duration: u64)
    requires
        series is Ufc || series is FightNight,
        is_replay(series, name, duration),
    ensures
        duration < 5400 ==> ends_with(name, "Prelims"@),
{
    reveal_strlit("Prelims");
    reveal_strlit(" Prelims");
    reveal_strlit(" Early Prelims");
    reveal_strlit("Fight Pass Prelims");
    reveal_strlit(" Fight Pass Prelims");
    let marker = marker_of(series);
    let at = first_occurrence(name, marker)->0;
    let suffix = event_suffix_of(name, marker)->0;
    if duration < 5400 {
        lemma_first_place(name, marker);
        let n = suffix.len() as int;
        let m = name.len() as int;
        assert(suffix == name.skip(at + marker.len()));
        assert(n >= 7);
        assert forall|k: int| 0 <= k < 7 implies #[trigger] suffix[n - 7 + k] == "Prelims"@[k] by {
            lemma_tail(suffix, "Prelims"@, "Prelims"@, k);
            lemma_tail(suffix, "Fight Pass Prelims"@, "Prelims"@, k);
            lemma_tail(suffix, " Prelims"@, "Prelims"@, k);
            lemma_tail(suffix, " Early Prelims"@, "Prelims"@, k);
            lemma_tail(suffix, " Fight Pass Prelims"@, "Prelims"@, k);
        }
        assert(name.subrange(m - 7, m) =~= "Prelims"@) by {
            assert forall|k: int| 0 <= k < 7 implies #[trigger] name.subrange(m - 7, m)[k]
                == "Prelims"@[k] by {
                assert(name[m - 7 + k] == suffix[n - 7 + k]);
            }
        }
    }
}

/// The character of a text's ending.
proof fn lemma_tail(text: Seq<char>, ending: Seq<char>, tail: Seq<char>, k: int)
    requires
        0 <= k < tail.len() <= ending.len(),
        ending.skip(ending.len() - tail.len()) =~= tail,
    ensures
        ends_with(text, ending) || text == ending ==> text[text.len() - tail.len() + k] == tail[k],
{
    assert(ending.skip(ending.len() - tail.len())[k] == tail[k]);
    if ends_with(text, ending) {
        assert(text.subrange(text.len() - ending.len(), text.len() as int)[ending.len()
            - tail.len() + k] == ending[ending.len() - tail.len() + k]);
    }
}

/// A text with an ending ends with it, and is the text without it.
pub proof fn lemma_with_ending(base: Seq<char>, ending: Seq<char>)
    ensures
        ends_with(base + ending, ending),
        without_ending(base + ending, ending) == base,
{
    let text = base + ending;
    assert(text.subrange(text.len() - ending.len(), text.len() as int) =~= ending);
    assert(without_ending(text, ending) =~= base);
}

/// Where a text with an ending also ends with a longer ending, the text ends with what the longer
/// one has more.
proof fn lemma_longer_ending(base: Seq<char>, ending: Seq<char>, longer: Seq<char>)
    requires
        longer.len() >= ending.len(),
        ends_with(base + ending, longer),
    ensures
        longer.skip(longer.len() - ending.len()) == ending,
        ends_with(base, longer.take(longer.len() - ending.len())),
{
    let text = base + ending;
    let more = longer.len() - ending.len();
    let from = text.len() - longer.len();
    let tail = text.subrange(from, text.len() as int);
    assert(longer.skip(more) =~= ending) by {
        assert forall|k: int| 0 <= k < ending.len() implies #[trigger] longer.skip(more)[k]
            == ending[k] by {
            assert(tail[more + k] == text[base.len() + k]);
        }
    }
    assert(base.subrange(base.len() - more, base.len() as int) =~= longer.take(more)) by {
        assert forall|k: int| 0 <= k < more implies #[trigger] base.subrange(
            base.len() - more,
            base.len() as int,
        )[k] == longer.take(more)[k] by {
            assert(tail[k] == text[from + k]);
        }
    }
}

/// The three endings of prelims.
pub open spec fn prelims_endings() -> Seq<Seq<char>> {
    seq![" Fight Pass Prelims"@, " Early Prelims"@, " Prelims"@]
}

/// The prelims of an event: without their ending they have the event's name, which does not end
/// in a part of a longer ending itself.
pub proof fn lemma_without_prelims(base: Seq<char>, e: int)
    requires
        0 <= e < 3,
        e == 2 ==> !ends_with(base, " Fight Pass"@) && !ends_with(base, " Early"@),
    ensures
        without_prelims(base + prelims_endings()[e]) == base,
{
    reveal_strlit(" Prelims");
    reveal_strlit(" Early Prelims");
    reveal_strlit(" Fight Pass Prelims");
    reveal_strlit(" Fight Pass");
    reveal_strlit(" Early");
    let ending = prelims_endings()[e];
    let text = base + ending;
    lemma_with_ending(base, ending);
    if e == 1 && ends_with(text, " Fight Pass Prelims"@) {
        lemma_longer_ending(base, ending, " Fight Pass Prelims"@);
        assert(" Fight Pass Prelims"@.skip(5)[0] == ending[0]);
    }
    if e == 2 {
        if ends_with(text, " Fight Pass Prelims"@) {
            lemma_longer_ending(base, ending, " Fight Pass Prelims"@);
            assert(" Fight Pass Prelims"@.take(11) =~= " Fight Pass"@);
        }
        if ends_with(text, " Early Prelims"@) {
            lemma_longer_ending(base, ending, " Early Prelims"@);
            assert(" Early Prelims"@.take(6) =~= " Early"@);
        }
    }
}

/// A Fight Night's card and all its prelims share one event key, with or without a sponsor. Left
/// out are names that themselves end like prelims, or in the words that make a longer ending of
/// a shorter one.
pub proof fn law_prelims_share_the_event(sponsor: Seq<char>, base: Seq<char>, e: int)
    requires
        sponsor_prefix(sponsor),
        is_event_name(base),
        0 <= e < 3,
        without_prelims(base) == base,
        e == 2 ==> !ends_with(base, " Fight Pass"@) && !ends_with(base, " Early"@),
    ensures
        fight_night_key_of(sponsor + fight_night_marker() + base) == Some(base),
        fight_night_key_of(sponsor + fight_night_marker() + (base + prelims_endings()[e])) == Some(
            base,
        ),
{
    lemma_sponsored_suffix(sponsor, Series::FightNight, base);
    lemma_sponsored_suffix(sponsor, Series::FightNight, base + prelims_endings()[e]);
    lemma_without_prelims(base, e);
}

/// A marker behind any text stands there last, where the rest does not hold it.
proof fn lemma_last_marker(front: Seq<char>, rest: Seq<char>)
    requires
        !occurs(rest, fight_night_marker()),
    ensures
        last_occurrence(front + fight_night_marker() + rest, fight_night_marker()) == Some(
            front.len() as int,
        ),
        (front + fight_night_marker() + rest).skip(
            (front.len() + fight_night_marker().len()) as int,
        ) == rest,
{
    let marker = fight_night_marker();
    let text = front + marker + rest;
    let at = front.len() as int;
    let c = lemma_colon(Series::FightNight);
    assert(text.subrange(at, at + marker.len()) =~= marker);
    assert forall|j: int| #[trigger] occurs_at(text, marker, j) implies j <= at by {
        let found = text.subrange(j, j + marker.len());
        assert(found[0] == 'U');
        assert(text[j] == 'U');
        if j > at {
            if j < at + marker.len() {
                assert(text[j] == marker_of(Series::FightNight)[j - at]);
            } else {
                let k = j - at - marker.len();
                assert(rest.subrange(k, k + marker.len()) =~= found);
                assert(occurs_at(rest, marker, k));
            }
        }
    }
    lemma_last_occurrence(text, marker, at);
    assert(text.skip(at + marker.len()) =~= rest);
}

/// Any title that ends with an event's name behind the marker, a single bout's among them, gives
/// the event's key: the key that the event's own title has.
pub proof fn law_any_title_gives_the_event(front: Seq<char>, sponsor: Seq<char>, rest: Seq<char>)
    requires
        sponsor_prefix(sponsor),
        !occurs(rest, fight_night_marker()),
    ensures
        fight_night_event_key_of(front + fight_night_marker() + rest) == fight_night_key_of(
            sponsor + fight_night_marker() + rest,
        ),
{
    lemma_last_marker(front, rest);
    lemma_sponsored_suffix(sponsor, Series::FightNight, rest);
}

/// A Contender Series title is complete just where it names a season and a week by numbers and
/// the recording lasts an hour.
pub proof fn law_contender_titles(season: Seq<char>, week: Seq<char>, duration: u64)
    requires
        is_number(season),
        is_number(week),
    ensures
        is_contender_replay(
            contender_prefix() + (season + ", Week "@ + week),
            duration as int,
        ) == (duration >= 3600),
{
    reveal_strlit(", Week ");
    let rest = season + ", Week "@ + week;
    let name = contender_prefix() + rest;
    let at = season.len() as int;
    assert(name.subrange(0, contender_prefix().len() as int) =~= contender_prefix());
    assert(name.skip(contender_prefix().len() as int) =~= rest);
    assert(rest.subrange(at, at + 7) =~= ", Week "@);
    assert forall|j: int| #[trigger] occurs_at(rest, ", Week "@, j) implies at <= j by {
        assert(rest.subrange(j, j + 7)[0] == ',');
        if j < at {
            assert(is_digit(season[j]));
        }
    }
    lemma_first_occurrence(rest, ", Week "@, at);
    assert(rest.take(at) =~= season);
    assert(rest.skip(at + 7) =~= week);
}

/// A title that is taken for a Contender Series episode names a season and a week by numbers.
pub proof fn law_contender_titles_only(name: Seq<char>, duration: u64)
    requires
        is_contender_replay(name, duration as int),
    ensures
        exists|season: Seq<char>, week: Seq<char>|
            #[trigger] is_number(season) && #[trigger] is_number(week) && name
                == contender_prefix() + (season + ", Week "@ + week),
{
    reveal_strlit(", Week ");
    let prefix = contender_prefix();
    let rest = name.skip(prefix.len() as int);
    lemma_first_place(rest, ", Week "@);
    let at = first_occurrence(rest, ", Week "@)->0;
    let season = rest.take(at);
    let week = rest.skip(at + 7);
    assert(rest.subrange(at, at + 7) == ", Week "@);
    assert(rest =~= season + rest.subrange(at, at + 7) + week);
    assert(name =~= name.subrange(0, prefix.len() as int) + rest);
    assert(name == prefix + (season + ", Week "@ + week));
}

/// The number before the first colon of a text: its digits stand between a space and the colon at
/// `k`, and `before` stands before the space.
spec fn number_before_colon(name: Seq<char>, k: int, digits: Seq<char>, before: char) -> bool {
    &&& digits.len() + 2 <= k < name.len()
    &&& name[k] == ':'
    &&& forall|i: int| 0 <= i < k ==> #[trigger] name[i] != ':'
    &&& name.subrange(k - digits.len(), k) == digits
    &&& name[k - digits.len() - 1] == ' '
    &&& name[k - digits.len() - 2] == before
}

/// In a complete recording's title of a numbered series the number stands before the first colon.
proof fn lemma_number_before_colon(name: Seq<char>, series: Series, duration: u64) -> (k: int)
    requires
        series is Ufc || series is Bjj,
        is_replay(series, name, duration),
    ensures
        number_before_colon(
            name,
            k,
            decimal(
                (match series {
                    Series::Ufc(number) => number,
                    Series::Bjj(number) => number,
                    _ => 0,
                }) as nat,
            ),
            if series is Ufc {
                'C'
            } else {
                'J'
            },
        ),
{
    reveal_strlit("UFC ");
    reveal_strlit("UFC BJJ ");
    reveal_strlit(": ");
    let c = lemma_colon(series);
    let marker = marker_of(series);
    lemma_first_place(name, marker);
    let at = first_occurrence(name, marker)->0;
    let prefix = name.take(at);
    let found = name.subrange(at, at + marker.len());
    assert(found == marker);
    let digits = match series {
        Series::Ufc(number) => decimal(number as nat),
        Series::Bjj(number) => decimal(number as nat),
        _ => Seq::empty(),
    };
    let k = at + c;
    assert(found[c] == name[k]);
    assert forall|i: int| 0 <= i < k implies #[trigger] name[i] != ':' by {
        if i < at {
            assert(sponsor_char(prefix[i]));
        } else {
            assert(found[i - at] == marker[i - at]);
        }
    }
    let head = c - digits.len();
    assert(name.subrange(k - digits.len(), k) =~= digits) by {
        assert forall|i: int| 0 <= i < digits.len() implies #[trigger] name.subrange(
            k - digits.len(),
            k,
        )[i] == digits[i] by {
            assert(found[head + i] == marker[head + i]);
        }
    }
    assert(found[head - 1] == marker[head - 1]);
    assert(found[head - 2] == marker[head - 2]);
    k
}

/// The number before the first colon is one.
proof fn lemma_one_number(
    name: Seq<char>,
    j: int,
    k: int,
    n: nat,
    m: nat,
    before: char,
    other: char,
)
    requires
        number_before_colon(name, j, decimal(n), before),
        number_before_colon(name, k, decimal(m), other),
    ensures
        n == m,
        before == other,
{
    let a = decimal(n);
    let b = decimal(m);
    assert(j == k) by {
        if j < k {
            assert(name[j] != ':');
        }
        if k < j {
            assert(name[k] != ':');
        }
    }
    lemma_decimal_digits(n);
    lemma_decimal_digits(m);
    if a.len() < b.len() {
        let i = b.len() - a.len() - 1;
        assert(name.subrange(k - b.len(), k)[i] == name[k - a.len() - 1]);
        assert(is_digit(b[i]));
    }
    if b.len() < a.len() {
        let i = a.len() - b.len() - 1;
        assert(name.subrange(k - a.len(), k)[i] == name[k - b.len() - 1]);
        assert(is_digit(a[i]));
    }
    lemma_decimal_injective(n, m);
}

/// The first colon of a text stands at `k`, behind the character `mark`.
spec fn first_colon(name: Seq<char>, k: int, mark: char) -> bool {
    &&& 0 < k < name.len()
    &&& name[k] == ':'
    &&& name[k - 1] == mark
    &&& forall|i: int| 0 <= i < k ==> #[trigger] name[i] != ':'
}

/// In a complete recording's title of a numbered series a digit stands before the first colon.
proof fn lemma_digit_before_colon(name: Seq<char>, k: int, n: nat, before: char)
    requires
        number_before_colon(name, k, decimal(n), before),
    ensures
        first_colon(name, k, name[k - 1]),
        is_digit(name[k - 1]),
{
    lemma_decimal_digits(n);
    let digits = decimal(n);
    let last = digits.len() - 1;
    assert(name.subrange(k - digits.len(), k)[last] == name[k - 1]);
    assert(is_digit(digits[last]));
}

/// In a complete Fight Night's title the first colon stands behind `Night`.
proof fn lemma_fight_night_colon(name: Seq<char>, duration: u64) -> (k: int)
    requires
        is_replay(Series::FightNight, name, duration),
    ensures
        first_colon(name, k, 't'),
{
    reveal_strlit("UFC Fight Night: ");
    let marker = fight_night_marker();
    let c = lemma_colon(Series::FightNight);
    lemma_first_place(name, marker);
    let at = first_occurrence(name, marker)->0;
    let prefix = name.take(at);
    let found = name.subrange(at, at + marker.len());
    assert(found == marker);
    let k = at + c;
    assert(found[c] == name[k]);
    assert(found[c - 1] == name[k - 1]);
    assert forall|i: int| 0 <= i < k implies #[trigger] name[i] != ':' by {
        if i < at {
            assert(sponsor_char(prefix[i]));
        } else {
            assert(found[i - at] == marker_of(Series::FightNight)[i - at]);
        }
    }
    k
}

/// In a Contender Series episode's title the first colon stands behind `Series`.
proof fn lemma_contender_colon(name: Seq<char>, duration: u64) -> (k: int)
    requires
        is_replay(Series::Contender, name, duration),
    ensures
        first_colon(name, k, 's'),
{
    reveal_strlit("Dana White's Contender Series: Season ");
    let prefix = contender_prefix();
    let found = name.subrange(0, prefix.len() as int);
    assert(found == prefix);
    let k = 29int;
    assert forall|i: int| 0 <= i <= k implies #[trigger] name[i] == prefix[i] by {
        assert(found[i] == name[i]);
    }
    k
}

/// What stands before the first colon of a complete recording's title tells the series: a digit
/// for the numbered ones, a `t` for a Fight Night, an `s` for the Contender Series.
proof fn lemma_mark_of_series(name: Seq<char>, series: Series, duration: u64) -> (k: int)
    requires
        is_replay(series, name, duration),
    ensures
        first_colon(name, k, name[k - 1]),
        match series {
            Series::Ufc(_) | Series::Bjj(_) => is_digit(name[k - 1]),
            Series::FightNight => name[k - 1] == 't',
            Series::Contender => name[k - 1] == 's',
        },
{
    match series {
        Series::Ufc(number) => {
            let k = lemma_number_before_colon(name, series, duration);
            lemma_digit_before_colon(name, k, number as nat, 'C');
            k
        },
        Series::Bjj(number) => {
            let k = lemma_number_before_colon(name, series, duration);
            lemma_digit_before_colon(name, k, number as nat, 'J');
            k
        },
        Series::FightNight => lemma_fight_night_colon(name, duration),
        Series::Contender => lemma_contender_colon(name, duration),
    }
}

/// A numbered event's title is that of one number of one series.
proof fn lemma_one_numbered_event(
    name: Seq<char>,
    one: Series,
    other: Series,
    duration: u64,
    other_duration: u64,
)
    requires
        one is Ufc || one is Bjj,
        other is Ufc || other is Bjj,
        is_replay(one, name, duration),
        is_replay(other, name, other_duration),
    ensures
        one == other,
{
    let j = lemma_number_before_colon(name, one, duration);
    let k = lemma_number_before_colon(name, other, other_duration);
    let n = match one {
        Series::Ufc(number) => number,
        Series::Bjj(number) => number,
        _ => 0,
    };
    let m = match other {
        Series::Ufc(number) => number,
        Series::Bjj(number) => number,
        _ => 0,
    };
    lemma_one_number(
        name,
        j,
        k,
        n as nat,
        m as nat,
        if one is Ufc {
            'C'
        } else {
            'J'
        },
        if other is Ufc {
            'C'
        } else {
            'J'
        },
    );
}

/// A recording is never taken for two events: of all series and numbers a title is that of a
/// complete recording of one at most.
pub proof fn law_one_event_per_title(
    name: Seq<char>,
    one: Series,
    other: Series,
    duration: u64,
    other_duration: u64,
)
    requires
        is_replay(one, name, duration),
        is_replay(other, name, other_duration),
    ensures
        one == other,
{
    let j = lemma_mark_of_series(name, one, duration);
    let k = lemma_mark_of_series(name, other, other_duration);
    assert(j == k) by {
        if j < k {
            assert(name[j] != ':');
        }
        if k < j {
            assert(name[k] != ':');
        }
    }
    if (one is Ufc || one is Bjj) && (other is Ufc || other is Bjj) {
        lemma_one_numbered_event(name, one, other, duration, other_duration);
    }
}

} // verus!
