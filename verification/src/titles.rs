//! Titles of recordings: which are complete events, and of which event.

use crate::text::{
    all_digits, chars_of, contains, contains_any, contains_any_word, decimal, decimal_text,
    ends_with, find_first, find_last, first_occurrence, has_ending, last_occurrence, lower,
    matches_at, occurs, occurs_any, occurs_any_word, occurs_at, only_digits, same_text, slice_chars,
    to_lower, without_ending,
};
use vstd::prelude::*;
use vstd::string::*;

verus! {

/// A character that a sponsor's name may hold.
pub open spec fn sponsor_char(c: char) -> bool {
    ||| 'a' <= c && c <= 'z'
    ||| 'A' <= c && c <= 'Z'
    ||| '0' <= c && c <= '9'
    ||| c == '.' || c == ' ' || c == '&' || c == '\''
}

/// The language names that mark a foreign-language upload wherever they stand.
pub open spec fn language_words() -> Seq<Seq<char>> {
    seq!["portuguese"@, "english"@, "espanol"@, "francais"@, "deutsch"@, "italiano"@]
}

/// The language names that mark a foreign-language upload where they stand as words of their own:
/// many are parts of other words.
pub open spec fn whole_language_words() -> Seq<Seq<char>> {
    seq![
        "spanish"@,
        "french"@,
        "german"@,
        "italian"@,
        "russian"@,
        "ukrainian"@,
        "polish"@,
        "czech"@,
        "slovak"@,
        "hungarian"@,
        "romanian"@,
        "bulgarian"@,
        "serbian"@,
        "croatian"@,
        "greek"@,
        "turkish"@,
        "arabic"@,
        "hebrew"@,
        "persian"@,
        "farsi"@,
        "hindi"@,
        "urdu"@,
        "bengali"@,
        "tamil"@,
        "thai"@,
        "vietnamese"@,
        "indonesian"@,
        "bahasa"@,
        "tagalog"@,
        "chinese"@,
        "mandarin"@,
        "cantonese"@,
        "japanese"@,
        "korean"@,
        "mongolian"@,
        "kazakh"@,
        "georgian"@,
        "armenian"@,
        "dutch"@,
        "swedish"@,
        "norwegian"@,
        "danish"@,
        "finnish"@,
        "portugues"@,
        "castellano"@,
        "catalan"@,
        "polski"@,
        "svenska"@,
        "nederlands"@,
    ]
}

/// A text in lower case names a language.
pub open spec fn names_language(lowered: Seq<char>) -> bool {
    occurs_any(lowered, language_words()) || occurs_any_word(lowered, whole_language_words())
}

/// What may stand before an event's marker: nothing, or a short ASCII sponsor name that is
/// followed by a space, is no bout and names no language.
pub open spec fn sponsor_prefix(prefix: Seq<char>) -> bool {
    prefix.len() == 0 || {
        &&& prefix.last() == ' '
        &&& prefix.len() <= 32
        &&& !occurs(prefix, " - "@)
        &&& !occurs(lower(prefix), " vs "@)
        &&& forall|i: int| 0 <= i < prefix.len() ==> sponsor_char(#[trigger] prefix[i])
        &&& !names_language(lower(prefix))
    }
}

/// The text after the first `marker`, where only a sponsor stands before it.
pub open spec fn event_suffix_of(name: Seq<char>, marker: Seq<char>) -> Option<Seq<char>> {
    match first_occurrence(name, marker) {
        Some(at) => if sponsor_prefix(name.take(at)) {
            Some(name.skip(at + marker.len()))
        } else {
            None
        },
        None => None,
    }
}

/// Whether a character may stand in a sponsor's name.
fn is_sponsor_char(c: char) -> (r: bool)
    ensures
        r == sponsor_char(c),
{
    ('a' <= c && c <= 'z') || ('A' <= c && c <= 'Z') || ('0' <= c && c <= '9') || c == '.' || c
        == ' ' || c == '&' || c == '\''
}

/// Whether a text in lower case names a language.
fn has_language(lowered: &Vec<char>) -> (r: bool)
    ensures
        r == names_language(lowered@),
{
    let parts: [&str; 6] = ["portuguese", "english", "espanol", "francais", "deutsch", "italiano"];
    assert(parts@.map_values(|part: &str| part@) =~= language_words());
    let words: [&str; 49] = [
        "spanish",
        "french",
        "german",
        "italian",
        "russian",
        "ukrainian",
        "polish",
        "czech",
        "slovak",
        "hungarian",
        "romanian",
        "bulgarian",
        "serbian",
        "croatian",
        "greek",
        "turkish",
        "arabic",
        "hebrew",
        "persian",
        "farsi",
        "hindi",
        "urdu",
        "bengali",
        "tamil",
        "thai",
        "vietnamese",
        "indonesian",
        "bahasa",
        "tagalog",
        "chinese",
        "mandarin",
        "cantonese",
        "japanese",
        "korean",
        "mongolian",
        "kazakh",
        "georgian",
        "armenian",
        "dutch",
        "swedish",
        "norwegian",
        "danish",
        "finnish",
        "portugues",
        "castellano",
        "catalan",
        "polski",
        "svenska",
        "nederlands",
    ];
    assert(words@.map_values(|part: &str| part@) =~= whole_language_words());
    contains_any(lowered, &parts) || contains_any_word(lowered, &words)
}

/// Whether `prefix` may stand before an event's marker.
fn is_sponsor_prefix(prefix: &Vec<char>) -> (r: bool)
    ensures
        r == sponsor_prefix(prefix@),
{
    let len: usize = prefix.len();
    if len == 0 {
        return true;
    }
    if prefix[len - 1] != ' ' || len > 32 {
        return false;
    }
    let mut i: usize = 0;
    while i < len
        invariant
            len == prefix.len(),
            i <= len,
            forall|j: int| 0 <= j < i ==> sponsor_char(#[trigger] prefix@[j]),
        decreases len - i,
    {
        if !is_sponsor_char(prefix[i]) {
            return false;
        }
        i = i + 1;
    }
    let lowered = to_lower(prefix);
    !contains(prefix, " - ") && !contains(&lowered, " vs ") && !has_language(&lowered)
}

/// Returns the text after `marker` (for example `UFC 331: `), allowing an
/// optional ASCII sponsor prefix such as `Crypto.com ` before it. Prefixes that
/// look like localized/branded wrappers (parentheses, non-ASCII characters or a
/// language name) are rejected so foreign-language uploads stay excluded.
pub fn event_suffix<'a>(name: &'a str, marker: &str) -> (r: Option<&'a str>)
    ensures
        match r {
            Some(suffix) => event_suffix_of(name@, marker@) == Some(suffix@),
            None => event_suffix_of(name@, marker@) is None,
        },
{
    let chars = chars_of(name);
    let marker_chars = chars_of(marker);
    match find_first(&chars, &marker_chars) {
        Some(at) => {
            let prefix = slice_chars(&chars, 0, at);
            assert(prefix@ =~= name@.take(at as int));
            if is_sponsor_prefix(&prefix) {
                let from: usize = at + marker_chars.len();
                assert(name@.subrange(from as int, name@.len() as int) =~= name@.skip(from as int));
                Some(name.substring_char(from, chars.len()))
            } else {
                None
            }
        },
        None => None,
    }
}

/// The marker `UFC <number>: `.
pub open spec fn ufc_marker(number: nat) -> Seq<char> {
    "UFC "@ + decimal(number) + ": "@
}

/// The marker `UFC BJJ <number>: `.
pub open spec fn bjj_marker(number: nat) -> Seq<char> {
    "UFC BJJ "@ + decimal(number) + ": "@
}

/// A complete numbered UFC event: prelims of an hour, or a card of an hour and a half.
pub open spec fn is_ufc_replay(name: Seq<char>, duration: int, number: nat) -> bool {
    match event_suffix_of(name, ufc_marker(number)) {
        Some(suffix) => if suffix == "Prelims"@ || suffix == "Fight Pass Prelims"@ {
            duration >= 3600
        } else {
            &&& duration >= 5400
            &&& occurs(suffix, " vs "@)
            &&& !occurs(suffix, "("@)
            &&& !occurs(suffix, " - "@)
            &&& !occurs(suffix, "Promo"@)
        },
        None => false,
    }
}

/// A complete UFC BJJ event: a card of an hour.
pub open spec fn is_bjj_replay(name: Seq<char>, duration: int, number: nat) -> bool {
    match event_suffix_of(name, bjj_marker(number)) {
        Some(suffix) => {
            &&& duration >= 3600
            &&& occurs(suffix, " vs "@)
            &&& !occurs(suffix, "("@)
            &&& !occurs(suffix, " - "@)
        },
        None => false,
    }
}

/// The beginning of the title of a Contender Series episode.
pub open spec fn contender_prefix() -> Seq<char> {
    "Dana White's Contender Series: Season "@
}

/// A number: at least one digit and nothing else.
pub open spec fn is_number(text: Seq<char>) -> bool {
    text.len() > 0 && all_digits(text)
}

/// A complete Contender Series episode: an hour, and a title that ends with the numbers of the
/// season and the week.
pub open spec fn is_contender_replay(name: Seq<char>, duration: int) -> bool {
    &&& duration >= 3600
    &&& occurs_at(name, contender_prefix(), 0)
    &&& {
        let rest = name.skip(contender_prefix().len() as int);
        match first_occurrence(rest, ", Week "@) {
            Some(at) => is_number(rest.take(at)) && is_number(rest.skip(at + ", Week "@.len())),
            None => false,
        }
    }
}

/// Whether a recording is a complete event of the numbered UFC series.
pub fn classify_ufc(name: &str, duration: u64, number: u16) -> (r: bool)
    ensures
        r == is_ufc_replay(name@, duration as int, number as nat),
{
    let mut marker = String::from_str("UFC ");
    marker.append(decimal_text(number as u64).as_str());
    marker.append(": ");
    match event_suffix(name, marker.as_str()) {
        Some(suffix) => {
            if same_text(suffix, "Prelims") || same_text(suffix, "Fight Pass Prelims") {
                return duration >= 3600;
            }
            let chars = chars_of(suffix);
            duration >= 5400 && contains(&chars, " vs ") && !contains(&chars, "(") && !contains(
                &chars,
                " - ",
            ) && !contains(&chars, "Promo")
        },
        None => false,
    }
}

/// Whether a recording is a complete event of the UFC BJJ series.
pub fn classify_bjj(name: &str, duration: u64, number: u16) -> (r: bool)
    ensures
        r == is_bjj_replay(name@, duration as int, number as nat),
{
    let mut marker = String::from_str("UFC BJJ ");
    marker.append(decimal_text(number as u64).as_str());
    marker.append(": ");
    match event_suffix(name, marker.as_str()) {
        Some(suffix) => {
            let chars = chars_of(suffix);
            duration >= 3600 && contains(&chars, " vs ") && !contains(&chars, "(") && !contains(
                &chars,
                " - ",
            )
        },
        None => false,
    }
}

/// Whether a recording is a complete episode of the Contender Series.
pub fn classify_contender(name: &str, duration: u64) -> (r: bool)
    ensures
        r == is_contender_replay(name@, duration as int),
{
    if duration < 3600 {
        return false;
    }
    let chars = chars_of(name);
    let prefix = chars_of("Dana White's Contender Series: Season ");
    if !matches_at(&chars, &prefix, 0) {
        return false;
    }
    let rest = slice_chars(&chars, prefix.len(), chars.len());
    assert(rest@ =~= name@.skip(contender_prefix().len() as int));
    let separator = chars_of(", Week ");
    match find_first(&rest, &separator) {
        Some(at) => {
            let season = slice_chars(&rest, 0, at);
            let week = slice_chars(&rest, at + separator.len(), rest.len());
            assert(season@ =~= rest@.take(at as int));
            assert(week@ =~= rest@.skip(at + separator@.len()));
            season.len() > 0 && only_digits(&season) && week.len() > 0 && only_digits(&week)
        },
        None => false,
    }
}

/// The marker of a Fight Night.
pub open spec fn fight_night_marker() -> Seq<char> {
    "UFC Fight Night: "@
}

/// A title's end without the words that mark it as the prelims.
pub open spec fn without_prelims(suffix: Seq<char>) -> Seq<char> {
    if ends_with(suffix, " Fight Pass Prelims"@) {
        without_ending(suffix, " Fight Pass Prelims"@)
    } else if ends_with(suffix, " Early Prelims"@) {
        without_ending(suffix, " Early Prelims"@)
    } else if ends_with(suffix, " Prelims"@) {
        without_ending(suffix, " Prelims"@)
    } else {
        suffix
    }
}

/// The words that mark a recording as something other than an event.
pub open spec fn extra_words() -> Seq<Seq<char>> {
    seq![
        "Promo"@,
        "Press Conference"@,
        "Highlights"@,
        "Recap"@,
        "Countdown"@,
        "Interview"@,
        "Weigh-In"@,
        "Preview"@,
        "Full Fight"@,
    ]
}

/// The name of an event: a main bout and nothing that marks an extra.
pub open spec fn is_event_name(base: Seq<char>) -> bool {
    &&& occurs(base, " vs "@)
    &&& !occurs(base, "("@)
    &&& !occurs(base, " - "@)
    &&& !occurs_any(base, extra_words())
}

/// The event key of a title's end.
pub open spec fn key_of_suffix(suffix: Seq<char>) -> Option<Seq<char>> {
    let base = without_prelims(suffix);
    if is_event_name(base) {
        Some(base)
    } else {
        None
    }
}

/// The event key of a Fight Night's own title.
pub open spec fn fight_night_key_of(name: Seq<char>) -> Option<Seq<char>> {
    match event_suffix_of(name, fight_night_marker()) {
        Some(suffix) => key_of_suffix(suffix),
        None => None,
    }
}

/// The event key of any title that names a Fight Night.
pub open spec fn fight_night_event_key_of(name: Seq<char>) -> Option<Seq<char>> {
    match last_occurrence(name, fight_night_marker()) {
        Some(at) => key_of_suffix(name.skip(at + fight_night_marker().len())),
        None => None,
    }
}

/// The title's end carries one of the marks of the prelims.
pub open spec fn is_prelims(suffix: Seq<char>) -> bool {
    ends_with(suffix, " Fight Pass Prelims"@) || ends_with(suffix, " Early Prelims"@) || ends_with(
        suffix,
        " Prelims"@,
    )
}

/// A complete Fight Night: prelims of an hour, or a card of an hour and a half.
pub open spec fn is_fight_night_replay(name: Seq<char>, duration: int) -> bool {
    &&& fight_night_key_of(name) is Some
    &&& duration >= (if is_prelims(event_suffix_of(name, fight_night_marker())->0) {
        3600int
    } else {
        5400int
    })
}

/// The event key of a title's end.
fn suffix_key<'a>(suffix: &'a str) -> (r: Option<&'a str>)
    ensures
        match r {
            Some(key) => key_of_suffix(suffix@) == Some(key@),
            None => key_of_suffix(suffix@) is None,
        },
{
    let chars = chars_of(suffix);
    let cut: usize = if has_ending(&chars, " Fight Pass Prelims") {
        " Fight Pass Prelims".unicode_len()
    } else if has_ending(&chars, " Early Prelims") {
        " Early Prelims".unicode_len()
    } else if has_ending(&chars, " Prelims") {
        " Prelims".unicode_len()
    } else {
        0
    };
    let end: usize = chars.len() - cut;
    let base = slice_chars(&chars, 0, end);
    assert(base@ =~= without_prelims(suffix@));
    let words: [&str; 9] = [
        "Promo",
        "Press Conference",
        "Highlights",
        "Recap",
        "Countdown",
        "Interview",
        "Weigh-In",
        "Preview",
        "Full Fight",
    ];
    let extra = contains_any(&base, &words);
    assert(words@.map_values(|part: &str| part@) =~= extra_words());
    if contains(&base, " vs ") && !contains(&base, "(") && !contains(&base, " - ") && !extra {
        Some(suffix.substring_char(0, end))
    } else {
        None
    }
}

/// The event key of a Fight Night title: the event's name without a prelims ending.
pub fn fight_night_key<'a>(name: &'a str) -> (r: Option<&'a str>)
    ensures
        match r {
            Some(key) => fight_night_key_of(name@) == Some(key@),
            None => fight_night_key_of(name@) is None,
        },
{
    match event_suffix(name, "UFC Fight Night: ") {
        Some(suffix) => suffix_key(suffix),
        None => None,
    }
}

/// Extracts the event key from any `UFC Fight Night: …` title, including
/// individual bouts where the event name is a suffix (for example
/// `A vs B UFC Fight Night: C vs D` yields `C vs D`). Used to discover events
/// whose full replays are not in the reachable search window.
pub fn fight_night_event_key_any<'a>(name: &'a str) -> (r: Option<&'a str>)
    ensures
        match r {
            Some(key) => fight_night_event_key_of(name@) == Some(key@),
            None => fight_night_event_key_of(name@) is None,
        },
{
    let chars = chars_of(name);
    let marker = chars_of("UFC Fight Night: ");
    match find_last(&chars, &marker) {
        Some(at) => {
            assert(at + marker.len() <= chars.len());
            let from: usize = at + marker.len();
            assert(name@.subrange(from as int, name@.len() as int) =~= name@.skip(from as int));
            suffix_key(name.substring_char(from, chars.len()))
        },
        None => None,
    }
}

/// Whether a recording is a complete segment of a Fight Night.
pub fn classify_fight_night(name: &str, duration: u64) -> (r: bool)
    ensures
        r == is_fight_night_replay(name@, duration as int),
{
    match event_suffix(name, "UFC Fight Night: ") {
        Some(suffix) => {
            if suffix_key(suffix).is_none() {
                return false;
            }
            let chars = chars_of(suffix);
            if has_ending(&chars, " Fight Pass Prelims") || has_ending(&chars, " Early Prelims")
                || has_ending(&chars, " Prelims") {
                duration >= 3600
            } else {
                duration >= 5400
            }
        },
        None => false,
    }
}

} // verus!
