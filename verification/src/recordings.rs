//! Which titles and lengths make a complete recording, spelled out from the title's parts.

use crate::keys::number_of;
use crate::naming::{
    law_any_title_gives_the_event, law_contender_titles, law_contender_titles_only,
    lemma_decimal_digits, lemma_sponsored_suffix, lemma_with_ending, lemma_without_prelims,
    marker_of, prelims_endings,
};
use crate::search::{is_replay, Series};
use crate::text::{
    decimal, digit, ends_with, first_occurrence, is_digit, lemma_first_occurrence,
    lemma_first_place, lower, occurs, occurs_any, occurs_as_word, occurs_at, word_at,
};
use crate::titles::{
    contender_prefix, event_suffix_of, extra_words, fight_night_event_key_of, fight_night_key_of,
    is_event_name, is_number, language_words, names_language, sponsor_prefix, whole_language_words,
    without_prelims,
};
use vstd::prelude::*;

verus! {

/// A text of one character stands in a text that holds the character.
pub proof fn lemma_occurs_char(text: Seq<char>, part: Seq<char>)
    requires
        part.len() == 1,
    ensures
        occurs(text, part) == text.contains(part[0]),
{
    if occurs(text, part) {
        let at = choose|at: int| occurs_at(text, part, at);
        assert(text.subrange(at, at + 1)[0] == part[0]);
        assert(text[at] == part[0]);
    }
    if text.contains(part[0]) {
        let at = choose|at: int| 0 <= at < text.len() && text[at] == part[0];
        assert(text.subrange(at, at + 1) =~= part);
        assert(occurs_at(text, part, at));
    }
}

/// The marks of prelims hold no bout.
proof fn lemma_prelims_hold_no_bout()
    ensures
        !occurs("Prelims"@, " vs "@),
        !occurs("Fight Pass Prelims"@, " vs "@),
{
    reveal_strlit("Prelims");
    reveal_strlit("Fight Pass Prelims");
    reveal_strlit(" vs ");
    if occurs("Prelims"@, " vs "@) {
        let at = choose|at: int| occurs_at("Prelims"@, " vs "@, at);
        assert("Prelims"@.subrange(at, at + 4)[0] == ' ');
    }
    if occurs("Fight Pass Prelims"@, " vs "@) {
        let at = choose|at: int| occurs_at("Fight Pass Prelims"@, " vs "@, at);
        assert("Fight Pass Prelims"@.subrange(at, at + 4)[0] == ' ');
        assert("Fight Pass Prelims"@.subrange(at, at + 4)[1] == 'v');
    }
}

/// A numbered UFC event: with or without a sponsor, `UFC <number>: ` and prelims of an hour, or a
/// bout of an hour and a half that no parenthesis, dash or promotion marks as something else.
pub proof fn law_ufc_titles(sponsor: Seq<char>, number: u16, rest: Seq<char>, duration: u64)
    requires
        sponsor_prefix(sponsor),
    ensures
        is_replay(
            Series::Ufc(number),
            sponsor + ("UFC "@ + decimal(number as nat) + ": "@) + rest,
            duration,
        ) <==> {
            ||| duration >= 3600 && (rest == "Prelims"@ || rest == "Fight Pass Prelims"@)
            ||| duration >= 5400 && occurs(rest, " vs "@) && !rest.contains('(') && !occurs(
                rest,
                " - "@,
            ) && !occurs(rest, "Promo"@)
        },
{
    reveal_strlit("(");
    lemma_sponsored_suffix(sponsor, Series::Ufc(number), rest);
    lemma_occurs_char(rest, "("@);
    lemma_prelims_hold_no_bout();
}

/// A UFC BJJ event: with or without a sponsor, `UFC BJJ <number>: ` and a bout of an hour that no
/// parenthesis or dash marks as something else.
pub proof fn law_bjj_titles(sponsor: Seq<char>, number: u16, rest: Seq<char>, duration: u64)
    requires
        sponsor_prefix(sponsor),
    ensures
        is_replay(
            Series::Bjj(number),
            sponsor + ("UFC BJJ "@ + decimal(number as nat) + ": "@) + rest,
            duration,
        ) <==> duration >= 3600 && occurs(rest, " vs "@) && !rest.contains('(') && !occurs(
            rest,
            " - "@,
        ),
{
    reveal_strlit("(");
    lemma_sponsored_suffix(sponsor, Series::Bjj(number), rest);
    lemma_occurs_char(rest, "("@);
}

/// One of the words that mark an extra stands in the text.
pub open spec fn holds_extra(text: Seq<char>) -> bool {
    ||| occurs(text, "Promo"@)
    ||| occurs(text, "Press Conference"@)
    ||| occurs(text, "Highlights"@)
    ||| occurs(text, "Recap"@)
    ||| occurs(text, "Countdown"@)
    ||| occurs(text, "Interview"@)
    ||| occurs(text, "Weigh-In"@)
    ||| occurs(text, "Preview"@)
    ||| occurs(text, "Full Fight"@)
}

/// The words that mark an extra are the nine.
proof fn lemma_extra_words(text: Seq<char>)
    ensures
        occurs_any(text, extra_words()) == holds_extra(text),
{
    let words = extra_words();
    assert(words.len() == 9);
    if holds_extra(text) {
        assert(occurs(text, words[0]) || occurs(text, words[1]) || occurs(text, words[2]) || occurs(
            text,
            words[3],
        ) || occurs(text, words[4]) || occurs(text, words[5]) || occurs(text, words[6]) || occurs(
            text,
            words[7],
        ) || occurs(text, words[8]));
    }
}

/// A name that is a bout, and that no parenthesis, dash or word marks as an extra.
pub open spec fn plain_bout(base: Seq<char>) -> bool {
    &&& occurs(base, " vs "@)
    &&& !base.contains('(')
    &&& !occurs(base, " - "@)
    &&& !holds_extra(base)
}

/// What the name of an event is.
proof fn lemma_event_name(base: Seq<char>)
    ensures
        is_event_name(base) == plain_bout(base),
{
    reveal_strlit("(");
    lemma_occurs_char(base, "("@);
    lemma_extra_words(base);
}

/// What does not end in ` Prelims` carries no mark of prelims.
proof fn lemma_no_prelims(base: Seq<char>)
    requires
        !ends_with(base, " Prelims"@),
    ensures
        !ends_with(base, " Fight Pass Prelims"@),
        !ends_with(base, " Early Prelims"@),
        without_prelims(base) == base,
{
    reveal_strlit(" Prelims");
    reveal_strlit(" Early Prelims");
    reveal_strlit(" Fight Pass Prelims");
    let n = base.len() as int;
    if ends_with(base, " Fight Pass Prelims"@) {
        let tail = base.subrange(n - 19, n);
        assert(tail == " Fight Pass Prelims"@);
        assert(base.subrange(n - 8, n) =~= tail.subrange(11, 19));
        assert(tail.subrange(11, 19) =~= " Prelims"@);
    }
    if ends_with(base, " Early Prelims"@) {
        let tail = base.subrange(n - 14, n);
        assert(tail == " Early Prelims"@);
        assert(base.subrange(n - 8, n) =~= tail.subrange(6, 14));
        assert(tail.subrange(6, 14) =~= " Prelims"@);
    }
}

/// A Fight Night's card: with or without a sponsor, `UFC Fight Night: ` and a plain bout, of an
/// hour and a half. Its event key is the bout.
pub proof fn law_fight_night_cards(sponsor: Seq<char>, base: Seq<char>, duration: u64)
    requires
        sponsor_prefix(sponsor),
        !ends_with(base, " Prelims"@),
    ensures
        is_replay(Series::FightNight, sponsor + "UFC Fight Night: "@ + base, duration) <==> duration
            >= 5400 && plain_bout(base),
        fight_night_key_of(sponsor + "UFC Fight Night: "@ + base) == (if plain_bout(base) {
            Some(base)
        } else {
            None
        }),
{
    lemma_sponsored_suffix(sponsor, Series::FightNight, base);
    lemma_no_prelims(base);
    lemma_event_name(base);
}

/// A Fight Night's prelims, under each of their three names: with or without a sponsor, `UFC Fight
/// Night: `, a plain bout and the name, of an hour. Their event key is the bout. Left out are
/// bouts that end in the words that make a longer name of a shorter one.
pub proof fn law_fight_night_prelims(
    sponsor: Seq<char>,
    base: Seq<char>,
    ending: Seq<char>,
    duration: u64,
)
    requires
        sponsor_prefix(sponsor),
        ending == " Fight Pass Prelims"@ || ending == " Early Prelims"@ || ending == " Prelims"@,
        ending == " Prelims"@ ==> !ends_with(base, " Fight Pass"@) && !ends_with(base, " Early"@),
    ensures
        is_replay(Series::FightNight, sponsor + "UFC Fight Night: "@ + (base + ending), duration)
            <==> duration >= 3600 && plain_bout(base),
        fight_night_key_of(sponsor + "UFC Fight Night: "@ + (base + ending)) == (if plain_bout(
            base,
        ) {
            Some(base)
        } else {
            None
        }),
{
    let e: int = if ending == " Fight Pass Prelims"@ {
        0
    } else if ending == " Early Prelims"@ {
        1
    } else {
        2
    };
    assert(prelims_endings()[e] == ending);
    lemma_sponsored_suffix(sponsor, Series::FightNight, base + ending);
    lemma_without_prelims(base, e);
    lemma_with_ending(base, ending);
    lemma_event_name(base);
}

/// A title in which a parenthesis stands behind the marker is not taken for a complete recording,
/// however long it is and whatever stands before the marker. Nor is one with a dash between
/// spaces there; in a Fight Night's title the dash may be the last thing before the mark of the
/// prelims.
pub proof fn law_extras_are_rejected(
    front: Seq<char>,
    series: Series,
    rest: Seq<char>,
    duration: u64,
)
    requires
        series != Series::Contender,
        rest.contains('(') || (occurs(rest, " - "@) && (series is FightNight ==> !ends_with(
            rest,
            "Prelims"@,
        ))),
    ensures
        !is_replay(series, front + marker_of(series) + rest, duration),
{
    let marker = marker_of(series);
    let name = front + marker + rest;
    if is_replay(series, name, duration) {
        lemma_first_place(name, marker);
        let at = first_occurrence(name, marker)->0;
        let suffix = name.skip(at + marker.len());
        assert(name.subrange(front.len() as int, (front.len() + marker.len()) as int) =~= marker);
        assert(occurs_at(name, marker, front.len() as int));
        assert(at <= front.len());
        let from = front.len() - at;
        assert(suffix.skip(from) =~= rest);
        assert(event_suffix_of(name, marker) == Some(suffix));
        lemma_accepted_suffix(suffix, name, series, duration);
        if rest.contains('(') {
            let i = choose|i: int| 0 <= i < rest.len() && rest[i] == '(';
            assert(suffix[from + i] == '(');
        } else {
            lemma_occurs_behind(suffix, rest, from, " - "@);
            if series is FightNight {
                lemma_ends_behind(suffix, rest, from);
            }
        }
    }
}

/// What stands behind a place of a text stands in the text.
proof fn lemma_occurs_behind(text: Seq<char>, rest: Seq<char>, from: int, part: Seq<char>)
    requires
        0 <= from <= text.len(),
        text.skip(from) == rest,
        occurs(rest, part),
    ensures
        occurs(text, part),
{
    let at = choose|at: int| occurs_at(rest, part, at);
    assert(text.subrange(from + at, from + at + part.len()) =~= rest.subrange(at, at + part.len()));
    assert(occurs_at(text, part, from + at));
}

/// Where a dash between spaces stands in the rest of a text that ends in ` Prelims`, the rest ends
/// in `Prelims`, too.
proof fn lemma_ends_behind(text: Seq<char>, rest: Seq<char>, from: int)
    requires
        0 <= from <= text.len(),
        text.skip(from) == rest,
        occurs(rest, " - "@),
    ensures
        ends_with(text, " Prelims"@) ==> ends_with(rest, "Prelims"@),
{
    reveal_strlit(" - ");
    reveal_strlit(" Prelims");
    reveal_strlit("Prelims");
    if ends_with(text, " Prelims"@) {
        let n = text.len() as int;
        let m = rest.len() as int;
        let tail = text.subrange(n - 8, n);
        assert(tail == " Prelims"@);
        let at = choose|at: int| occurs_at(rest, " - "@, at);
        assert(rest.subrange(at, at + 3)[1] == '-');
        assert(rest[at + 1] == '-');
        if m < 7 {
            assert(text[from + at + 1] == rest[at + 1]);
            assert(tail[from + at + 1 - (n - 8)] == text[from + at + 1]);
        } else {
            assert(rest.subrange(m - 7, m) =~= "Prelims"@) by {
                assert forall|k: int| 0 <= k < 7 implies #[trigger] rest.subrange(m - 7, m)[k]
                    == "Prelims"@[k] by {
                    assert(rest[m - 7 + k] == text[n - 7 + k]);
                    assert(tail[1 + k] == text[n - 7 + k]);
                }
            }
        }
    }
}

/// What stands behind the marker of a complete recording's title.
proof fn lemma_accepted_suffix(suffix: Seq<char>, name: Seq<char>, series: Series, duration: u64)
    requires
        series != Series::Contender,
        event_suffix_of(name, marker_of(series)) == Some(suffix),
        is_replay(series, name, duration),
    ensures
        !suffix.contains('('),
        !occurs(suffix, " - "@) || (series is FightNight && ends_with(suffix, " Prelims"@)),
{
    reveal_strlit("(");
    reveal_strlit("Prelims");
    reveal_strlit("Fight Pass Prelims");
    reveal_strlit(" - ");
    lemma_occurs_char(suffix, "("@);
    if series is FightNight {
        if !ends_with(suffix, " Prelims"@) {
            lemma_no_prelims(suffix);
        } else {
            lemma_prelims_parenthesis(suffix);
        }
    }
    if series is Ufc && occurs(suffix, " - "@) && (suffix == "Prelims"@ || suffix
        == "Fight Pass Prelims"@) {
        let at = choose|at: int| occurs_at(suffix, " - "@, at);
        assert(suffix.subrange(at, at + 3)[1] == '-');
    }
}

/// Where a name without the mark of the prelims holds no parenthesis, the name with it holds none.
proof fn lemma_prelims_parenthesis(suffix: Seq<char>)
    requires
        !occurs(without_prelims(suffix), "("@),
    ensures
        !suffix.contains('('),
{
    reveal_strlit("(");
    reveal_strlit(" Prelims");
    reveal_strlit(" Early Prelims");
    reveal_strlit(" Fight Pass Prelims");
    let base = without_prelims(suffix);
    lemma_occurs_char(base, "("@);
    if suffix.contains('(') {
        let i = choose|i: int| 0 <= i < suffix.len() && suffix[i] == '(';
        let n = suffix.len() as int;
        let m = base.len() as int;
        if i < m {
            assert(base[i] == suffix[i]);
        } else {
            assert(suffix.subrange(m, n)[i - m] == '(');
        }
    }
}

/// Lower case: the letters `A` to `Z` become `a` to `z`, and nothing else changes.
pub proof fn law_lower_case(text: Seq<char>, i: int)
    requires
        0 <= i < text.len(),
    ensures
        lower(text).len() == text.len(),
        'A' <= text[i] <= 'Z' ==> lower(text)[i] as int == text[i] as int + 32,
        !('A' <= text[i] <= 'Z') ==> lower(text)[i] == text[i],
{
}

/// A word stands as a word of its own where no letter touches it.
pub proof fn law_words_stand_apart(front: Seq<char>, word: Seq<char>, back: Seq<char>)
    requires
        front.len() > 0 ==> !('a' <= front.last() <= 'z'),
        back.len() > 0 ==> !('a' <= back[0] <= 'z'),
    ensures
        occurs_as_word(front + word + back, word),
{
    let text = front + word + back;
    let at = front.len() as int;
    assert(text.subrange(at, at + word.len()) =~= word);
    assert(word_at(text, word, at));
}

/// In a text of nothing but letters no other word stands as a word of its own.
pub proof fn law_words_inside_words_do_not_count(text: Seq<char>, word: Seq<char>)
    requires
        forall|i: int| 0 <= i < text.len() ==> 'a' <= #[trigger] text[i] <= 'z',
        word.len() > 0,
        word != text,
    ensures
        !occurs_as_word(text, word),
{
    if occurs_as_word(text, word) {
        let at = choose|at: int| word_at(text, word, at);
        if at == 0 && word.len() == text.len() {
            assert(text.subrange(0, text.len() as int) =~= text);
        } else if at > 0 {
            assert('a' <= text[at - 1] <= 'z');
        } else {
            assert('a' <= text[at + word.len()] <= 'z');
        }
    }
}

/// One of the language names that count wherever they stand.
pub open spec fn holds_language_part(text: Seq<char>) -> bool {
    ||| occurs(text, "portuguese"@)
    ||| occurs(text, "english"@)
    ||| occurs(text, "espanol"@)
    ||| occurs(text, "francais"@)
    ||| occurs(text, "deutsch"@)
    ||| occurs(text, "italiano"@)
}

/// One of the language names that count as words of their own.
pub open spec fn holds_language_word(text: Seq<char>) -> bool {
    ||| occurs_as_word(text, "spanish"@)
    ||| occurs_as_word(text, "french"@)
    ||| occurs_as_word(text, "german"@)
    ||| occurs_as_word(text, "italian"@)
    ||| occurs_as_word(text, "russian"@)
    ||| occurs_as_word(text, "ukrainian"@)
    ||| occurs_as_word(text, "polish"@)
    ||| occurs_as_word(text, "czech"@)
    ||| occurs_as_word(text, "slovak"@)
    ||| occurs_as_word(text, "hungarian"@)
    ||| occurs_as_word(text, "romanian"@)
    ||| occurs_as_word(text, "bulgarian"@)
    ||| occurs_as_word(text, "serbian"@)
    ||| occurs_as_word(text, "croatian"@)
    ||| occurs_as_word(text, "greek"@)
    ||| occurs_as_word(text, "turkish"@)
    ||| occurs_as_word(text, "arabic"@)
    ||| occurs_as_word(text, "hebrew"@)
    ||| occurs_as_word(text, "persian"@)
    ||| occurs_as_word(text, "farsi"@)
    ||| occurs_as_word(text, "hindi"@)
    ||| occurs_as_word(text, "urdu"@)
    ||| occurs_as_word(text, "bengali"@)
    ||| occurs_as_word(text, "tamil"@)
    ||| occurs_as_word(text, "thai"@)
    ||| occurs_as_word(text, "vietnamese"@)
    ||| occurs_as_word(text, "indonesian"@)
    ||| occurs_as_word(text, "bahasa"@)
    ||| occurs_as_word(text, "tagalog"@)
    ||| occurs_as_word(text, "chinese"@)
    ||| occurs_as_word(text, "mandarin"@)
    ||| occurs_as_word(text, "cantonese"@)
    ||| occurs_as_word(text, "japanese"@)
    ||| occurs_as_word(text, "korean"@)
    ||| occurs_as_word(text, "mongolian"@)
    ||| occurs_as_word(text, "kazakh"@)
    ||| occurs_as_word(text, "georgian"@)
    ||| occurs_as_word(text, "armenian"@)
    ||| occurs_as_word(text, "dutch"@)
    ||| occurs_as_word(text, "swedish"@)
    ||| occurs_as_word(text, "norwegian"@)
    ||| occurs_as_word(text, "danish"@)
    ||| occurs_as_word(text, "finnish"@)
    ||| occurs_as_word(text, "portugues"@)
    ||| occurs_as_word(text, "castellano"@)
    ||| occurs_as_word(text, "catalan"@)
    ||| occurs_as_word(text, "polski"@)
    ||| occurs_as_word(text, "svenska"@)
    ||| occurs_as_word(text, "nederlands"@)
}

/// A text names a language just where one of the names stands in it, those six anywhere, the
/// others as words of their own.
#[verifier::spinoff_prover]
pub proof fn law_language_names(text: Seq<char>)
    ensures
        names_language(text) <==> holds_language_part(text) || holds_language_word(text),
{
    let parts = language_words();
    let words = whole_language_words();
    assert(parts.len() == 6);
    assert(words.len() == 49);
    assert(parts[0] == "portuguese"@);
    assert(parts[1] == "english"@);
    assert(parts[2] == "espanol"@);
    assert(parts[3] == "francais"@);
    assert(parts[4] == "deutsch"@);
    assert(parts[5] == "italiano"@);
    assert(words[0] == "spanish"@);
    assert(words[1] == "french"@);
    assert(words[2] == "german"@);
    assert(words[3] == "italian"@);
    assert(words[4] == "russian"@);
    assert(words[5] == "ukrainian"@);
    assert(words[6] == "polish"@);
    assert(words[7] == "czech"@);
    assert(words[8] == "slovak"@);
    assert(words[9] == "hungarian"@);
    assert(words[10] == "romanian"@);
    assert(words[11] == "bulgarian"@);
    assert(words[12] == "serbian"@);
    assert(words[13] == "croatian"@);
    assert(words[14] == "greek"@);
    assert(words[15] == "turkish"@);
    assert(words[16] == "arabic"@);
    assert(words[17] == "hebrew"@);
    assert(words[18] == "persian"@);
    assert(words[19] == "farsi"@);
    assert(words[20] == "hindi"@);
    assert(words[21] == "urdu"@);
    assert(words[22] == "bengali"@);
    assert(words[23] == "tamil"@);
    assert(words[24] == "thai"@);
    assert(words[25] == "vietnamese"@);
    assert(words[26] == "indonesian"@);
    assert(words[27] == "bahasa"@);
    assert(words[28] == "tagalog"@);
    assert(words[29] == "chinese"@);
    assert(words[30] == "mandarin"@);
    assert(words[31] == "cantonese"@);
    assert(words[32] == "japanese"@);
    assert(words[33] == "korean"@);
    assert(words[34] == "mongolian"@);
    assert(words[35] == "kazakh"@);
    assert(words[36] == "georgian"@);
    assert(words[37] == "armenian"@);
    assert(words[38] == "dutch"@);
    assert(words[39] == "swedish"@);
    assert(words[40] == "norwegian"@);
    assert(words[41] == "danish"@);
    assert(words[42] == "finnish"@);
    assert(words[43] == "portugues"@);
    assert(words[44] == "castellano"@);
    assert(words[45] == "catalan"@);
    assert(words[46] == "polski"@);
    assert(words[47] == "svenska"@);
    assert(words[48] == "nederlands"@);
}

/// A sponsor's name: nothing, or up to 32 letters, digits, dots, spaces, ampersands and apostrophes
/// that end in a space, are no bout, hold no dash between spaces and name no language.
pub proof fn law_sponsor_names(prefix: Seq<char>)
    ensures
        sponsor_prefix(prefix) <==> prefix.len() == 0 || {
            &&& prefix.len() <= 32
            &&& prefix[prefix.len() - 1] == ' '
            &&& forall|i: int|
                0 <= i < prefix.len() ==> {
                    ||| 'a' <= #[trigger] prefix[i] <= 'z'
                    ||| 'A' <= prefix[i] <= 'Z'
                    ||| '0' <= prefix[i] <= '9'
                    ||| prefix[i] == '.'
                    ||| prefix[i] == ' '
                    ||| prefix[i] == '&'
                    ||| prefix[i] == '\''
                }
            &&& !occurs(lower(prefix), " vs "@)
            &&& !holds_language_part(lower(prefix))
            &&& !holds_language_word(lower(prefix))
        },
{
    law_language_names(lower(prefix));
    if occurs(prefix, " - "@) {
        reveal_strlit(" - ");
        let at = choose|at: int| occurs_at(prefix, " - "@, at);
        assert(prefix.subrange(at, at + 3)[1] == '-');
        assert(prefix[at + 1] == '-');
    }
}

/// What `event_suffix_of` gives is what stands behind the first marker, and it gives something
/// just where a marker stands in the name with nothing but a sponsor's name before it.
pub proof fn law_suffix_stands_behind_the_first_marker(
    name: Seq<char>,
    marker: Seq<char>,
    at: int,
)
    requires
        occurs_at(name, marker, at),
        forall|j: int| #[trigger] occurs_at(name, marker, j) ==> at <= j,
    ensures
        event_suffix_of(name, marker) is Some <==> sponsor_prefix(name.subrange(0, at)),
        event_suffix_of(name, marker) matches Some(rest) ==> name == name.subrange(0, at) + marker
            + rest,
{
    lemma_first_occurrence(name, marker, at);
    assert(name.take(at) =~= name.subrange(0, at));
    let rest = name.skip(at + marker.len());
    assert(name =~= name.subrange(0, at) + name.subrange(at, at + marker.len()) + rest);
}

/// Where no marker stands in a name, `event_suffix_of` gives nothing, and no event has the title.
pub proof fn law_no_marker_no_event(name: Seq<char>, marker: Seq<char>)
    requires
        forall|j: int| !#[trigger] occurs_at(name, marker, j),
    ensures
        event_suffix_of(name, marker) is None,
{
}

/// A Contender Series episode: the series' name, a season and a week, both in digits, and an hour.
pub proof fn law_contender_episodes(season: Seq<char>, week: Seq<char>, duration: u64)
    requires
        season.len() > 0,
        week.len() > 0,
        forall|i: int| 0 <= i < season.len() ==> '0' <= #[trigger] season[i] <= '9',
        forall|i: int| 0 <= i < week.len() ==> '0' <= #[trigger] week[i] <= '9',
    ensures
        is_replay(
            Series::Contender,
            "Dana White's Contender Series: Season "@ + (season + ", Week "@ + week),
            duration,
        ) <==> duration >= 3600,
{
    assert forall|i: int| 0 <= i < season.len() implies is_digit(#[trigger] season[i]) by {}
    assert forall|i: int| 0 <= i < week.len() implies is_digit(#[trigger] week[i]) by {}
    law_contender_titles(season, week, duration);
}

/// A title that is taken for a Contender Series episode is made of the series' name, a season and a
/// week, both in digits.
pub proof fn law_contender_episodes_only(name: Seq<char>, duration: u64)
    requires
        is_replay(Series::Contender, name, duration),
    ensures
        duration >= 3600,
        exists|season: Seq<char>, week: Seq<char>|
            #![trigger season.len(), week.len()]
            {
                &&& season.len() > 0
                &&& week.len() > 0
                &&& forall|i: int| 0 <= i < season.len() ==> '0' <= #[trigger] season[i] <= '9'
                &&& forall|i: int| 0 <= i < week.len() ==> '0' <= #[trigger] week[i] <= '9'
                &&& name == "Dana White's Contender Series: Season "@ + (season + ", Week "@ + week)
            },
{
    law_contender_titles_only(name, duration);
    let (season, week) = choose|season: Seq<char>, week: Seq<char>|
        #[trigger] is_number(season) && #[trigger] is_number(week) && name == contender_prefix() + (
        season + ", Week "@ + week);
    assert forall|i: int| 0 <= i < season.len() implies '0' <= #[trigger] season[i] <= '9' by {
        assert(is_digit(season[i]));
    }
    assert forall|i: int| 0 <= i < week.len() implies '0' <= #[trigger] week[i] <= '9' by {
        assert(is_digit(week[i]));
    }
    assert(season.len() > 0 && week.len() > 0);
}

/// Any title that ends with `UFC Fight Night: ` and an event's name gives the event's key, whatever
/// stands before: the bout, without the mark of prelims.
pub proof fn law_any_title_names_its_event(front: Seq<char>, base: Seq<char>)
    requires
        !ends_with(base, " Prelims"@),
        !occurs(base, "UFC Fight Night: "@),
    ensures
        fight_night_event_key_of(front + "UFC Fight Night: "@ + base) == (if plain_bout(base) {
            Some(base)
        } else {
            None
        }),
{
    let none = Seq::<char>::empty();
    law_any_title_gives_the_event(front, none, base);
    law_fight_night_cards(none, base, 0);
}

/// A title without `UFC Fight Night: ` gives no key.
pub proof fn law_other_titles_name_no_event(name: Seq<char>)
    requires
        forall|at: int| !#[trigger] occurs_at(name, "UFC Fight Night: "@, at),
    ensures
        fight_night_event_key_of(name) is None,
        fight_night_key_of(name) is None,
{
}

/// The digits of a number in decimal make the number.
pub proof fn law_decimal(n: nat)
    ensures
        number_of(decimal(n)) == n,
        decimal(n).len() > 0,
        decimal(n)[0] == '0' ==> n == 0,
    decreases n,
{
    if n >= 10 {
        law_decimal(n / 10);
        assert(decimal(n).drop_last() =~= decimal(n / 10));
        assert(decimal(n).last() == digit(n % 10));
        lemma_decimal_digits(n / 10);
        assert(decimal(n)[0] == decimal(n / 10)[0]);
    } else {
        assert(decimal(n).drop_last() =~= Seq::<char>::empty());
        reveal_with_fuel(number_of, 2);
    }
}

} // verus!
