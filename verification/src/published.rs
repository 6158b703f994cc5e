//! Publication times: what a text tells of one, and which of two is later.

use crate::calendar::{
    begins_with_date, civil, date_before, has_iso_date, iso, law_day_number_order,
    law_one_date_per_day, lemma_four_digit_years, lemma_four_digits, lemma_two_digits, timestamp,
    valid_date,
};
use crate::text::{all_digits, before, chars_of, is_digit, text_before, zero_padded};
use vstd::prelude::*;
use vstd::string::*;

verus! {

/// The value of a decimal digit.
pub open spec fn digit_value(c: char) -> int {
    c as int - 48
}

/// Two digits stand in `text` from index `at` on.
pub open spec fn two_digits_at(text: Seq<char>, at: int) -> bool {
    at + 2 <= text.len() && is_digit(text[at]) && is_digit(text[at + 1])
}

/// The number that two digits make.
pub open spec fn two_digits(text: Seq<char>, at: int) -> int {
    digit_value(text[at]) * 10 + digit_value(text[at + 1])
}

/// The year, month and day of a text that begins with `YYYY-MM-DD`.
pub open spec fn date_of(text: Seq<char>) -> (int, int, int) {
    (two_digits(text, 0) * 100 + two_digits(text, 2), two_digits(text, 5), two_digits(text, 8))
}

/// The text begins with a date that the calendar has.
pub open spec fn carries_date(text: Seq<char>) -> bool {
    begins_with_date(text) && valid_date(date_of(text).0, date_of(text).1, date_of(text).2)
}

/// An hour of the day, `Thh`, follows the date.
pub open spec fn tells_hour(text: Seq<char>) -> bool {
    &&& text.len() >= 13
    &&& text[10] == 'T'
    &&& two_digits_at(text, 11)
    &&& two_digits(text, 11) < 24
}

/// A minute, `:mm`, follows the hour.
pub open spec fn tells_minute(text: Seq<char>) -> bool {
    &&& tells_hour(text)
    &&& text.len() >= 16
    &&& text[13] == ':'
    &&& two_digits_at(text, 14)
    &&& two_digits(text, 14) < 60
}

/// A second, `:ss`, follows the minute; a leap second is the second 60.
pub open spec fn tells_second(text: Seq<char>) -> bool {
    &&& tells_minute(text)
    &&& text.len() >= 19
    &&& text[16] == ':'
    &&& two_digits_at(text, 17)
    &&& two_digits(text, 17) <= 60
}

/// The second of the day; what the text does not tell of the time counts as zero.
pub open spec fn second_of_day(text: Seq<char>) -> int {
    if tells_second(text) {
        two_digits(text, 11) * 3600 + two_digits(text, 14) * 60 + two_digits(text, 17)
    } else if tells_minute(text) {
        two_digits(text, 11) * 3600 + two_digits(text, 14) * 60
    } else if tells_hour(text) {
        two_digits(text, 11) * 3600
    } else {
        0
    }
}

/// The text tells the digit `i` of the second's fraction: behind the second stand a dot and
/// digits, at least up to this one.
pub open spec fn tells_fraction(text: Seq<char>, i: int) -> bool {
    &&& tells_second(text)
    &&& 20 + i < text.len()
    &&& text[19] == '.'
    &&& forall|j: int| 20 <= j <= 20 + i ==> is_digit(#[trigger] text[j])
}

/// The digit `i` of the second's fraction; what the text does not tell counts as zero.
pub open spec fn fraction_digit(text: Seq<char>, i: int) -> int {
    if tells_fraction(text, i) {
        digit_value(text[20 + i])
    } else {
        0
    }
}

/// The fraction of `a` is smaller at the digit `i`, the first that differs.
pub open spec fn fraction_smaller_at(a: Seq<char>, b: Seq<char>, i: int) -> bool {
    &&& 0 <= i
    &&& fraction_digit(a, i) < fraction_digit(b, i)
    &&& forall|j: int| 0 <= j < i ==> #[trigger] fraction_digit(a, j) == fraction_digit(b, j)
}

/// The fraction of the second is smaller.
pub open spec fn fraction_before(a: Seq<char>, b: Seq<char>) -> bool {
    exists|i: int| fraction_smaller_at(a, b, i)
}

/// The time that `a` tells is earlier than the one that `b` tells, both in UTC: by the date, then
/// the second of the day, then the second's fraction.
pub open spec fn time_before(a: Seq<char>, b: Seq<char>) -> bool {
    ||| date_before(date_of(a), date_of(b))
    ||| date_of(a) == date_of(b) && second_of_day(a) < second_of_day(b)
    ||| date_of(a) == date_of(b) && second_of_day(a) == second_of_day(b) && fraction_before(a, b)
}

/// What was published at `published` came after `baseline`. Where the baseline does not begin with
/// a date, the texts are compared.
pub open spec fn published_after(published: Seq<char>, baseline: Seq<char>) -> bool {
    if begins_with_date(baseline) {
        time_before(baseline, published)
    } else {
        before(baseline, published)
    }
}

/// Reads two digits.
fn read_two(chars: &Vec<char>, at: usize) -> (r: Option<u32>)
    requires
        at < 1000,
    ensures
        match r {
            Some(value) => two_digits_at(chars@, at as int) && value == two_digits(
                chars@,
                at as int,
            ),
            None => !two_digits_at(chars@, at as int),
        },
{
    if at + 2 > chars.len() {
        return None;
    }
    let a: char = chars[at];
    let b: char = chars[at + 1];
    if '0' <= a && a <= '9' && '0' <= b && b <= '9' {
        Some(((a as u32) - 48) * 10 + ((b as u32) - 48))
    } else {
        None
    }
}

/// Reads the date that a text begins with.
fn read_date(chars: &Vec<char>) -> (r: (u32, u32, u32))
    requires
        begins_with_date(chars@),
    ensures
        (r.0 as int, r.1 as int, r.2 as int) == date_of(chars@),
        r.0 < 10_000,
{
    assert(is_digit(chars@[0]) && is_digit(chars@[1]) && is_digit(chars@[2]) && is_digit(
        chars@[3],
    ));
    assert(is_digit(chars@[5]) && is_digit(chars@[6]) && is_digit(chars@[8]) && is_digit(
        chars@[9],
    ));
    match (read_two(chars, 0), read_two(chars, 2), read_two(chars, 5), read_two(chars, 8)) {
        (Some(century), Some(year), Some(month), Some(day)) => (century * 100 + year, month, day),
        _ => (0, 0, 0),
    }
}

/// Whether the calendar has a date.
fn is_date(year: u32, month: u32, day: u32) -> (r: bool)
    ensures
        r == valid_date(year as int, month as int, day as int),
{
    if month < 1 || month > 12 || day < 1 {
        return false;
    }
    let leap = year % 4 == 0 && (year % 100 != 0 || year % 400 == 0);
    let days: u32 = if month == 2 {
        if leap {
            29
        } else {
            28
        }
    } else if month == 4 || month == 6 || month == 9 || month == 11 {
        30
    } else {
        31
    };
    day <= days
}

/// Whether a text begins with a date that the calendar has.
pub fn has_calendar_date(text: &str) -> (r: bool)
    ensures
        r == carries_date(text@),
{
    if !has_iso_date(text) {
        return false;
    }
    let chars = chars_of(text);
    let (year, month, day) = read_date(&chars);
    is_date(year, month, day)
}

/// Reads the second of the day; the second result says whether the text tells the second.
fn read_second(chars: &Vec<char>) -> (r: (u32, bool))
    ensures
        r.0 == second_of_day(chars@),
        r.1 == tells_second(chars@),
{
    if chars.len() < 13 || chars[10] != 'T' {
        return (0, false);
    }
    let hour: u32 = match read_two(chars, 11) {
        Some(hour) => hour,
        None => return (0, false),
    };
    if hour >= 24 {
        return (0, false);
    }
    if chars.len() < 16 || chars[13] != ':' {
        return (hour * 3600, false);
    }
    let minute: u32 = match read_two(chars, 14) {
        Some(minute) => minute,
        None => return (hour * 3600, false),
    };
    if minute >= 60 {
        return (hour * 3600, false);
    }
    let start: u32 = hour * 3600 + minute * 60;
    if chars.len() < 19 || chars[16] != ':' {
        return (start, false);
    }
    match read_two(chars, 17) {
        Some(second) => if second <= 60 {
            (start + second, true)
        } else {
            (start, false)
        },
        None => (start, false),
    }
}

/// Reads the digits of the second's fraction.
fn read_fraction(chars: &Vec<char>, told: bool) -> (r: Vec<u32>)
    requires
        told == tells_second(chars@),
    ensures
        forall|i: int|
            0 <= i ==> #[trigger] fraction_digit(chars@, i) == (if i < r.len() {
                r@[i] as int
            } else {
                0
            }),
{
    let mut r: Vec<u32> = Vec::new();
    if !told || chars.len() < 20 || chars[19] != '.' {
        return r;
    }
    let mut at: usize = 20;
    while at < chars.len() && '0' <= chars[at] && chars[at] <= '9'
        invariant
            20 <= at <= chars.len(),
            tells_second(chars@),
            chars@[19] == '.',
            r.len() == at - 20,
            forall|j: int| 20 <= j < at ==> is_digit(#[trigger] chars@[j]),
            forall|i: int| 0 <= i < r.len() ==> #[trigger] r@[i] == digit_value(chars@[20 + i]),
        decreases chars.len() - at,
    {
        assert(is_digit(chars@[at as int]));
        r.push((chars[at] as u32) - 48);
        at = at + 1;
    }
    assert forall|i: int| 0 <= i implies #[trigger] fraction_digit(chars@, i) == (if i < r.len() {
        r@[i] as int
    } else {
        0
    }) by {
        if i < r.len() {
            assert(tells_fraction(chars@, i));
        } else if tells_fraction(chars@, i) {
            assert(is_digit(chars@[at as int]));
        }
    }
    r
}

/// Whether the fraction of the second is smaller, by its digits.
fn smaller_fraction(a: &Vec<u32>, b: &Vec<u32>, Ghost(x): Ghost<Seq<char>>, Ghost(y): Ghost<
    Seq<char>,
>) -> (r: bool)
    requires
        forall|i: int|
            0 <= i ==> #[trigger] fraction_digit(x, i) == (if i < a.len() {
                a@[i] as int
            } else {
                0
            }),
        forall|i: int|
            0 <= i ==> #[trigger] fraction_digit(y, i) == (if i < b.len() {
                b@[i] as int
            } else {
                0
            }),
    ensures
        r == fraction_before(x, y),
{
    let mut i: usize = 0;
    while i < a.len() || i < b.len()
        invariant
            i <= a.len() || i <= b.len(),
            forall|j: int|
                0 <= j ==> #[trigger] fraction_digit(x, j) == (if j < a.len() {
                    a@[j] as int
                } else {
                    0
                }),
            forall|j: int|
                0 <= j ==> #[trigger] fraction_digit(y, j) == (if j < b.len() {
                    b@[j] as int
                } else {
                    0
                }),
            forall|j: int| 0 <= j < i ==> #[trigger] fraction_digit(x, j) == fraction_digit(y, j),
        decreases a.len() + b.len() - i,
    {
        let c: u32 = if i < a.len() {
            a[i]
        } else {
            0
        };
        let d: u32 = if i < b.len() {
            b[i]
        } else {
            0
        };
        assert(fraction_digit(x, i as int) == c);
        assert(fraction_digit(y, i as int) == d);
        if c < d {
            assert(fraction_smaller_at(x, y, i as int));
            return true;
        }
        if d < c {
            assert forall|k: int| !fraction_smaller_at(x, y, k) by {
                if k < i {
                } else if k > i && fraction_smaller_at(x, y, k) {
                    assert(fraction_digit(x, i as int) == fraction_digit(y, i as int));
                }
            }
            return false;
        }
        i = i + 1;
    }
    assert forall|k: int| !fraction_smaller_at(x, y, k) by {
        if 0 <= k {
            assert(fraction_digit(x, k) == fraction_digit(y, k));
        }
    }
    false
}

/// Whether what was published at `published`, a text that begins with a date, came after
/// `baseline`.
pub(crate) fn is_published_after(published: &str, baseline: &str) -> (r: bool)
    requires
        begins_with_date(published@),
    ensures
        r == published_after(published@, baseline@),
{
    if !has_iso_date(baseline) {
        return text_before(baseline, published);
    }
    let a = chars_of(baseline);
    let b = chars_of(published);
    let (year, month, day) = read_date(&a);
    let (later_year, later_month, later_day) = read_date(&b);
    if year != later_year {
        return year < later_year;
    }
    if month != later_month {
        return month < later_month;
    }
    if day != later_day {
        return day < later_day;
    }
    let (second, told) = read_second(&a);
    let (later_second, later_told) = read_second(&b);
    if second != later_second {
        return second < later_second;
    }
    let fraction = read_fraction(&a, told);
    let later_fraction = read_fraction(&b, later_told);
    smaller_fraction(&fraction, &later_fraction, Ghost(a@), Ghost(b@))
}

/// No time is before itself, of two times at most one is before the other, and what is before an
/// earlier time is before a later one.
pub proof fn law_time_order(a: Seq<char>, b: Seq<char>, c: Seq<char>)
    ensures
        !time_before(a, a),
        !(time_before(a, b) && time_before(b, a)),
        time_before(a, b) && time_before(b, c) ==> time_before(a, c),
{
    assert(!fraction_before(a, a));
    if fraction_before(a, b) {
        let i = choose|i: int| fraction_smaller_at(a, b, i);
        assert forall|k: int| !fraction_smaller_at(b, a, k) by {
            if fraction_smaller_at(b, a, k) {
                if k < i {
                    assert(fraction_digit(a, k) == fraction_digit(b, k));
                } else if i < k {
                    assert(fraction_digit(b, i) == fraction_digit(a, i));
                }
            }
        }
        if fraction_before(b, c) {
            let j = choose|j: int| fraction_smaller_at(b, c, j);
            let k = if i < j {
                i
            } else {
                j
            };
            assert(fraction_digit(a, k) <= fraction_digit(b, k)) by {
                if k < i {
                    assert(fraction_digit(a, k) == fraction_digit(b, k));
                }
            }
            assert(fraction_digit(b, k) <= fraction_digit(c, k)) by {
                if k < j {
                    assert(fraction_digit(b, k) == fraction_digit(c, k));
                }
            }
            assert forall|m: int| 0 <= m < k implies #[trigger] fraction_digit(a, m)
                == fraction_digit(c, m) by {
                assert(fraction_digit(a, m) == fraction_digit(b, m));
                assert(fraction_digit(b, m) == fraction_digit(c, m));
            }
            assert(fraction_smaller_at(a, c, k));
        }
    }
}

/// The digits of a number below 100.
proof fn lemma_read_two(n: nat)
    requires
        n < 100,
    ensures
        pair_of(zero_padded(n, 2), n as int),
{
    lemma_two_digits(n);
}

/// The text of a UTC time of the years 1970 to 9999 tells the date, the second of the day and no
/// fraction.
pub proof fn law_iso_tells_the_time(secs: int)
    requires
        0 <= secs < 253_402_300_800,
    ensures
        carries_date(iso(secs)),
        date_of(iso(secs)) == civil(secs / 86_400),
        tells_second(iso(secs)),
        second_of_day(iso(secs)) == secs % 86_400,
        forall|i: int| 0 <= i ==> #[trigger] fraction_digit(iso(secs), i) == 0,
{
    lemma_four_digit_years(secs);
    law_one_date_per_day(secs / 86_400);
    let date = civil(secs / 86_400);
    let second = secs % 86_400;
    lemma_timestamp_tells(date, second);
}

/// Pairs of digits with the signs of a timestamp between them.
#[verifier::spinoff_prover]
proof fn lemma_assembled(
    c: Seq<char>,
    y: Seq<char>,
    m: Seq<char>,
    d: Seq<char>,
    h: Seq<char>,
    n: Seq<char>,
    s: Seq<char>,
)
    requires
        c.len() == 2 && y.len() == 2 && m.len() == 2 && d.len() == 2,
        h.len() == 2 && n.len() == 2 && s.len() == 2,
    ensures
        (c + y) + "-"@ + m + "-"@ + d + "T"@ + h + ":"@ + n + ":"@ + s + "Z"@ == seq![
            c[0],
            c[1],
            y[0],
            y[1],
            '-',
            m[0],
            m[1],
            '-',
            d[0],
            d[1],
            'T',
            h[0],
            h[1],
            ':',
            n[0],
            n[1],
            ':',
            s[0],
            s[1],
            'Z',
        ],
{
    reveal_strlit("-");
    reveal_strlit("T");
    reveal_strlit(":");
    reveal_strlit("Z");
    let date = (c + y) + "-"@ + m + "-"@ + d;
    assert(date =~= seq![c[0], c[1], y[0], y[1], '-', m[0], m[1], '-', d[0], d[1]]);
    let clock = seq!['T', h[0], h[1], ':', n[0], n[1], ':', s[0], s[1], 'Z'];
    assert(date + "T"@ + h + ":"@ + n + ":"@ + s + "Z"@ =~= date + clock);
    assert(date + clock =~= seq![
        c[0],
        c[1],
        y[0],
        y[1],
        '-',
        m[0],
        m[1],
        '-',
        d[0],
        d[1],
        'T',
        h[0],
        h[1],
        ':',
        n[0],
        n[1],
        ':',
        s[0],
        s[1],
        'Z',
    ]);
}

/// Two digits are two characters that make a number.
spec fn pair_of(pair: Seq<char>, n: int) -> bool {
    pair.len() == 2 && two_digits_at(pair, 0) && two_digits(pair, 0) == n
}

/// A text made of pairs of digits tells the date and the time that they make.
#[verifier::spinoff_prover]
proof fn lemma_pairs_tell(
    pairs: (Seq<char>, Seq<char>, Seq<char>, Seq<char>, Seq<char>, Seq<char>, Seq<char>),
    date: (int, int, int),
    clock: (int, int, int),
)
    requires
        pair_of(pairs.0, date.0 / 100),
        pair_of(pairs.1, date.0 % 100),
        pair_of(pairs.2, date.1),
        pair_of(pairs.3, date.2),
        pair_of(pairs.4, clock.0),
        pair_of(pairs.5, clock.1),
        pair_of(pairs.6, clock.2),
        clock.0 < 24 && clock.1 < 60 && clock.2 < 60,
    ensures
        ({
            let text = (pairs.0 + pairs.1) + "-"@ + pairs.2 + "-"@ + pairs.3 + "T"@ + pairs.4
                + ":"@ + pairs.5 + ":"@ + pairs.6 + "Z"@;
            &&& text.len() == 20
            &&& begins_with_date(text)
            &&& date_of(text) == date
            &&& tells_second(text)
            &&& second_of_day(text) == clock.0 * 3600 + clock.1 * 60 + clock.2
        }),
{
    lemma_assembled(pairs.0, pairs.1, pairs.2, pairs.3, pairs.4, pairs.5, pairs.6);
}

/// A timestamp tells the date and the second that it is made of.
#[verifier::spinoff_prover]
proof fn lemma_timestamp_tells(date: (int, int, int), second: int)
    requires
        0 <= date.0 <= 9999,
        valid_date(date.0, date.1, date.2),
        0 <= second < 86_400,
    ensures
        ({
            let text = timestamp(date, second);
            &&& text.len() == 20
            &&& carries_date(text)
            &&& date_of(text) == date
            &&& tells_second(text)
            &&& second_of_day(text) == second
        }),
{
    let year = date.0 as nat;
    let hour = (second / 3600) as nat;
    let minute = ((second % 3600) / 60) as nat;
    let last = (second % 60) as nat;
    lemma_four_digits(year);
    lemma_read_two(year / 100);
    lemma_read_two(year % 100);
    lemma_read_two(date.1 as nat);
    lemma_read_two(date.2 as nat);
    lemma_read_two(hour);
    lemma_read_two(minute);
    lemma_read_two(last);
    assert(second == hour * 3600 + minute * 60 + last);
    lemma_pairs_tell(
        (
            zero_padded(year / 100, 2),
            zero_padded(year % 100, 2),
            zero_padded(date.1 as nat, 2),
            zero_padded(date.2 as nat, 2),
            zero_padded(hour, 2),
            zero_padded(minute, 2),
            zero_padded(last, 2),
        ),
        date,
        (hour as int, minute as int, last as int),
    );
}

/// For the years 1970 to 9999 one UTC time is published after another just where it is later.
pub proof fn law_later_times_are_published_after(a: int, b: int)
    requires
        0 <= a < 253_402_300_800,
        0 <= b < 253_402_300_800,
    ensures
        published_after(iso(b), iso(a)) <==> a < b,
{
    law_iso_tells_the_time(a);
    law_iso_tells_the_time(b);
    law_one_date_per_day(a / 86_400);
    law_one_date_per_day(b / 86_400);
    let x = civil(a / 86_400);
    let y = civil(b / 86_400);
    law_day_number_order(x, y);
    law_day_number_order(y, x);
    assert forall|i: int| !fraction_smaller_at(iso(a), iso(b), i) by {
        if 0 <= i {
            assert(fraction_digit(iso(a), i) == 0);
            assert(fraction_digit(iso(b), i) == 0);
        }
    }
}

/// A time that a fraction follows is published after the time without it, where the fraction is
/// not zero.
pub proof fn law_fractions_count(secs: int, digits: Seq<char>, k: int, rest: Seq<char>)
    requires
        0 <= secs < 253_402_300_800,
        all_digits(digits),
        0 <= k < digits.len(),
        digits[k] != '0',
        forall|j: int| 0 <= j < k ==> #[trigger] digits[j] == '0',
    ensures
        published_after(iso(secs).take(19) + "."@ + digits + rest, iso(secs)),
{
    reveal_strlit(".");
    law_iso_tells_the_time(secs);
    let old_text = iso(secs);
    let text = old_text.take(19) + "."@ + digits + rest;
    assert forall|i: int| 0 <= i < 19 implies #[trigger] text[i] == old_text[i] by {}
    assert(date_of(text) == date_of(old_text));
    assert(tells_second(text));
    assert forall|i: int| 0 <= i <= k implies #[trigger] fraction_digit(text, i) == digit_value(
        digits[i],
    ) by {
        assert forall|j: int| 20 <= j <= 20 + i implies is_digit(#[trigger] text[j]) by {
            assert(text[j] == digits[j - 20]);
        }
        assert(tells_fraction(text, i));
        assert(text[20 + i] == digits[i]);
    }
    assert(is_digit(digits[k]));
    assert(fraction_smaller_at(old_text, text, k));
}

/// A text that begins with a year, a month and a day in digits carries a date just where the
/// calendar has the day.
pub proof fn law_calendar_dates(year: nat, month: nat, day: nat, rest: Seq<char>)
    requires
        year < 10_000,
        month < 100,
        day < 100,
    ensures
        ({
            let text = zero_padded(year, 4) + "-"@ + zero_padded(month, 2) + "-"@ + zero_padded(
                day,
                2,
            ) + rest;
            &&& begins_with_date(text)
            &&& date_of(text) == (year as int, month as int, day as int)
            &&& carries_date(text) <==> valid_date(year as int, month as int, day as int)
        }),
{
    reveal_strlit("-");
    lemma_four_digits(year);
    lemma_read_two(year / 100);
    lemma_read_two(year % 100);
    lemma_read_two(month);
    lemma_read_two(day);
    lemma_date_digits(
        zero_padded(year / 100, 2),
        zero_padded(year % 100, 2),
        zero_padded(month, 2),
        zero_padded(day, 2),
        rest,
    );
}

/// Where the digits of a date stand.
#[verifier::spinoff_prover]
proof fn lemma_date_digits(
    c: Seq<char>,
    y: Seq<char>,
    m: Seq<char>,
    d: Seq<char>,
    rest: Seq<char>,
)
    requires
        c.len() == 2 && y.len() == 2 && m.len() == 2 && d.len() == 2,
        two_digits_at(c, 0) && two_digits_at(y, 0) && two_digits_at(m, 0) && two_digits_at(d, 0),
    ensures
        ({
            let text = (c + y) + "-"@ + m + "-"@ + d + rest;
            &&& begins_with_date(text)
            &&& date_of(text) == (
                two_digits(c, 0) * 100 + two_digits(y, 0),
                two_digits(m, 0),
                two_digits(d, 0),
            )
        }),
{
    reveal_strlit("-");
    let text = (c + y) + "-"@ + m + "-"@ + d + rest;
    let head = seq![c[0], c[1], y[0], y[1], '-', m[0], m[1], '-', d[0], d[1]];
    assert(text =~= head + rest);
    assert forall|i: int| 0 <= i < 10 implies text[i] == #[trigger] head[i] by {}
}

/// The days of the months, and the day that a leap year has more.
pub proof fn law_days_of_the_year(year: int, month: int, day: int)
    ensures
        valid_date(year, month, day) ==> 1 <= month <= 12 && 1 <= day <= 31,
        month == 4 || month == 6 || month == 9 || month == 11 ==> !valid_date(year, month, 31),
        !valid_date(year, 2, 30),
        valid_date(year, 2, 29) <==> year % 4 == 0 && (year % 100 != 0 || year % 400 == 0),
        1 <= month <= 12 && 1 <= day <= 28 ==> valid_date(year, month, day),
        1 <= month <= 12 && month != 2 ==> valid_date(year, month, 30),
        month == 1 || month == 3 || month == 5 || month == 7 || month == 8 || month == 10 || month
            == 12 ==> valid_date(year, month, 31),
{
}

/// What a text tells of the time behind a date of ten characters: the hour, then the minute, then
/// the second, each as far as it can be read.
#[verifier::spinoff_prover]
pub proof fn law_time_of_day(
    date: Seq<char>,
    h: Seq<char>,
    m: Seq<char>,
    s: Seq<char>,
    rest: Seq<char>,
)
    requires
        date.len() == 10,
        h.len() == 2 && two_digits_at(h, 0) && two_digits(h, 0) < 24,
        m.len() == 2 && two_digits_at(m, 0) && two_digits(m, 0) < 60,
        s.len() == 2 && two_digits_at(s, 0) && two_digits(s, 0) <= 60,
        rest.len() > 0 ==> rest[0] != ':',
    ensures
        second_of_day(date + "T"@ + h + ":"@ + m + ":"@ + s + rest) == two_digits(h, 0) * 3600
            + two_digits(m, 0) * 60 + two_digits(s, 0),
        second_of_day(date + "T"@ + h + ":"@ + m + rest) == two_digits(h, 0) * 3600 + two_digits(
            m,
            0,
        ) * 60,
        second_of_day(date + "T"@ + h + rest) == two_digits(h, 0) * 3600,
        rest.len() > 0 && rest[0] != 'T' || rest.len() == 0 ==> second_of_day(date + rest) == 0,
{
    reveal_strlit("T");
    reveal_strlit(":");
    let a = date + "T"@ + h + ":"@ + m + ":"@ + s + rest;
    assert(a =~= date + seq!['T', h[0], h[1], ':', m[0], m[1], ':', s[0], s[1]] + rest);
    let b = date + "T"@ + h + ":"@ + m + rest;
    assert(b =~= date + seq!['T', h[0], h[1], ':', m[0], m[1]] + rest);
    if rest.len() > 0 {
        assert(b[16] == rest[0]);
    }
    let c = date + "T"@ + h + rest;
    assert(c =~= date + seq!['T', h[0], h[1]] + rest);
    if rest.len() > 0 {
        assert(c[13] == rest[0]);
    }
}

} // verus!
