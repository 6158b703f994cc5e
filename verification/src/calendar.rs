//! The civil calendar and UTC timestamps.

use crate::text::{
    all_digits, before, chars_of, decimal, digit, is_digit, lemma_before_common_prefix,
    lemma_before_irreflexive, lemma_before_transitive, signed_zero_padded, signed_zero_padded_text,
    zero_padded, zero_padded_text,
};
use vstd::arithmetic::div_mod::lemma_mod_multiples_vanish;
use vstd::prelude::*;
use vstd::string::*;

verus! {

/// A leap year of the Gregorian calendar.
pub open spec fn is_leap(year: int) -> bool {
    year % 4 == 0 && (year % 100 != 0 || year % 400 == 0)
}

/// The number of days of a month.
pub open spec fn days_in_month(year: int, month: int) -> int {
    if month == 2 {
        if is_leap(year) {
            29
        } else {
            28
        }
    } else if month == 4 || month == 6 || month == 9 || month == 11 {
        30
    } else {
        31
    }
}

/// A date that the calendar has.
pub open spec fn valid_date(year: int, month: int, day: int) -> bool {
    1 <= month <= 12 && 1 <= day <= days_in_month(year, month)
}

/// The number of days of a year that lie before a month.
pub open spec fn days_before_month(year: int, month: int) -> int
    decreases month,
{
    if month <= 1 {
        0
    } else {
        days_before_month(year, month - 1) + days_in_month(year, month - 1)
    }
}

/// The number of days from the first day of the year 1 to the first day of `year`.
pub open spec fn days_before_year(year: int) -> int {
    365 * (year - 1) + (year - 1) / 4 - (year - 1) / 100 + (year - 1) / 400
}

/// The number of days from 1970-01-01 to a date.
pub open spec fn day_number(year: int, month: int, day: int) -> int {
    days_before_year(year) - days_before_year(1970) + days_before_month(year, month) + day - 1
}

/// The years of a 400-year era that begin in March: the day count fixes the year.
proof fn lemma_year_of_era(doe: int, yoe: int)
    requires
        0 <= doe <= 146_096,
        yoe == (doe - doe / 1460 + doe / 36_524 - doe / 146_096) / 365,
    ensures
        0 <= yoe <= 399,
        365 * yoe + yoe / 4 - yoe / 100 <= doe,
        doe - (365 * yoe + yoe / 4 - yoe / 100) <= 365,
        doe - (365 * yoe + yoe / 4 - yoe / 100) == 365 ==> is_leap(yoe + 1),
{
}

/// The day count of each month of a year, month by month.
proof fn lemma_days_before_month(year: int)
    ensures
        days_before_month(year, 1) == 0,
        days_before_month(year, 2) == 31,
        days_before_month(year, 3) == 31 + days_in_month(year, 2),
        days_before_month(year, 4) == days_before_month(year, 3) + 31,
        days_before_month(year, 5) == days_before_month(year, 3) + 61,
        days_before_month(year, 6) == days_before_month(year, 3) + 92,
        days_before_month(year, 7) == days_before_month(year, 3) + 122,
        days_before_month(year, 8) == days_before_month(year, 3) + 153,
        days_before_month(year, 9) == days_before_month(year, 3) + 184,
        days_before_month(year, 10) == days_before_month(year, 3) + 214,
        days_before_month(year, 11) == days_before_month(year, 3) + 245,
        days_before_month(year, 12) == days_before_month(year, 3) + 275,
{
    reveal_with_fuel(days_before_month, 13);
}

/// A year is 365 or 366 days long.
proof fn lemma_year_length(year: int)
    ensures
        days_before_year(year + 1) == days_before_year(year) + (if is_leap(year) {
            366int
        } else {
            365int
        }),
{
    let quarter = year / 4;
    let century = year / 100;
    let era = year / 400;
    assert((year - 1) / 4 == if year % 4 == 0 {
        quarter - 1
    } else {
        quarter
    });
    assert((year - 1) / 100 == if year % 100 == 0 {
        century - 1
    } else {
        century
    });
    assert((year - 1) / 400 == if year % 400 == 0 {
        era - 1
    } else {
        era
    });
    assert(year % 100 == 0 ==> year % 4 == 0);
    assert(year % 400 == 0 ==> year % 100 == 0);
}

/// The first of March of the year `yoe` of an era.
proof fn lemma_first_of_march(era: int, yoe: int)
    requires
        0 <= yoe <= 399,
    ensures
        day_number(400 * era + yoe, 3, 1) == era * 146_097 + 365 * yoe + yoe / 4 - yoe / 100
            - 719_468,
{
    let year = 400 * era + yoe;
    lemma_days_before_month(year);
    lemma_year_length(year);
    assert(days_before_month(year, 3) == if is_leap(year) {
        60int
    } else {
        59int
    });
    assert(year / 4 == 100 * era + yoe / 4);
    assert(year / 100 == 4 * era + yoe / 100);
    assert(year / 400 == era);
    assert(days_before_year(year + 1) == 365 * year + year / 4 - year / 100 + year / 400);
}

/// The month and the day that lie `doy` days after the first of March.
proof fn lemma_day_after_march(year: int, doy: int, mp: int, day: int)
    requires
        0 <= doy <= 365,
        doy == 365 ==> is_leap(year + 1),
        mp == (5 * doy + 2) / 153,
        day == doy - (153 * mp + 2) / 5 + 1,
    ensures
        0 <= mp <= 11,
        mp < 10 ==> valid_date(year, mp + 3, day) && day_number(year, mp + 3, day) == day_number(
            year,
            3,
            1,
        ) + doy,
        mp >= 10 ==> valid_date(year + 1, mp - 9, day) && day_number(year + 1, mp - 9, day)
            == day_number(year, 3, 1) + doy,
{
    lemma_days_before_month(year);
    lemma_days_before_month(year + 1);
    lemma_year_length(year);
    if mp == 0 {
    } else if mp == 1 {
    } else if mp == 2 {
    } else if mp == 3 {
    } else if mp == 4 {
    } else if mp == 5 {
    } else if mp == 6 {
    } else if mp == 7 {
    } else if mp == 8 {
    } else if mp == 9 {
    } else if mp == 10 {
    } else {
        assert(mp == 11);
    }
}

/// Leap years recur with the era.
proof fn lemma_leap_in_era(era: int, yoe: int)
    ensures
        is_leap(400 * era + yoe) == is_leap(yoe),
{
    lemma_mod_multiples_vanish(100 * era, yoe, 4);
    lemma_mod_multiples_vanish(4 * era, yoe, 100);
    lemma_mod_multiples_vanish(era, yoe, 400);
}

/// The date that the day count of an era gives.
#[verifier::spinoff_prover]
proof fn lemma_civil(days: int, era: int, doe: int, yoe: int, doy: int, mp: int, day: int)
    requires
        era == (days + 719_468) / 146_097,
        doe == days + 719_468 - era * 146_097,
        yoe == (doe - doe / 1460 + doe / 36_524 - doe / 146_096) / 365,
        doy == doe - (365 * yoe + yoe / 4 - yoe / 100),
        mp == (5 * doy + 2) / 153,
        day == doy - (153 * mp + 2) / 5 + 1,
    ensures
        0 <= doe <= 146_096,
        0 <= yoe <= 399,
        0 <= doy <= 365,
        0 <= mp <= 11,
        1 <= day <= 31,
        mp < 10 ==> valid_date(400 * era + yoe, mp + 3, day) && day_number(
            400 * era + yoe,
            mp + 3,
            day,
        ) == days,
        mp >= 10 ==> valid_date(400 * era + yoe + 1, mp - 9, day) && day_number(
            400 * era + yoe + 1,
            mp - 9,
            day,
        ) == days,
{
    assert(0 <= doe <= 146_096);
    lemma_year_of_era(doe, yoe);
    lemma_first_of_march(era, yoe);
    let year = 400 * era + yoe;
    lemma_leap_in_era(era, yoe + 1);
    lemma_day_after_march(year, doy, mp, day);
}

/// The quotient by the length of an era, rounded down.
fn era_of(z: i64) -> (era: i64)
    requires
        z >= i64::MIN + 146_096,
    ensures
        era == z as int / 146_097,
{
    (if z >= 0 {
        z
    } else {
        z - 146_096
    }) / 146_097
}

/// Converts days since 1970-01-01 to a civil `(year, month, day)`.
pub fn civil_from_days(days: i64) -> (date: (i64, u32, u32))
    requires
        days <= i64::MAX - 719_468,
    ensures
        valid_date(date.0 as int, date.1 as int, date.2 as int),
        day_number(date.0 as int, date.1 as int, date.2 as int) == days,
{
    let z: i64 = days + 719_468;
    let era: i64 = era_of(z);
    proof {
        let doe = z - era * 146_097;
        let yoe = (doe - doe / 1460 + doe / 36_524 - doe / 146_096) / 365;
        let doy = doe - (365 * yoe + yoe / 4 - yoe / 100);
        let mp = (5 * doy + 2) / 153;
        lemma_civil(days as int, era as int, doe, yoe, doy, mp, doy - (153 * mp + 2) / 5 + 1);
    }
    let doe: i64 = z - era * 146_097;
    let yoe: i64 = (doe - doe / 1460 + doe / 36_524 - doe / 146_096) / 365;
    let year: i64 = yoe + era * 400;
    let doy: i64 = doe - (365 * yoe + yoe / 4 - yoe / 100);
    let mp: i64 = (5 * doy + 2) / 153;
    let day: u32 = (doy - (153 * mp + 2) / 5 + 1) as u32;
    let month: u32 = (if mp < 10 {
        mp + 3
    } else {
        mp - 9
    }) as u32;
    (if month <= 2 {
        year + 1
    } else {
        year
    }, month, day)
}

/// The civil date of a day count.
pub open spec fn civil(days: int) -> (int, int, int) {
    choose|date: (int, int, int)|
        #![trigger valid_date(date.0, date.1, date.2)]
        valid_date(date.0, date.1, date.2) && day_number(date.0, date.1, date.2) == days
}

/// The text `YYYY-MM-DDThh:mm:ssZ` of a date and a second of the day.
pub open spec fn timestamp(date: (int, int, int), second: int) -> Seq<char> {
    signed_zero_padded(date.0, 4) + "-"@ + zero_padded(date.1 as nat, 2) + "-"@ + zero_padded(
        date.2 as nat,
        2,
    ) + "T"@ + zero_padded((second / 3600) as nat, 2) + ":"@ + zero_padded(
        ((second % 3600) / 60) as nat,
        2,
    ) + ":"@ + zero_padded((second % 60) as nat, 2) + "Z"@
}

/// The UTC time of `secs` seconds after 1970-01-01T00:00:00Z.
pub open spec fn iso(secs: int) -> Seq<char> {
    timestamp(civil(secs / 86_400), secs % 86_400)
}

/// Within one year a later month begins later, and no month reaches past the year's end.
proof fn lemma_month_order(year: int, m1: int, m2: int)
    requires
        1 <= m1 < m2 <= 13,
    ensures
        days_before_month(year, m1) + days_in_month(year, m1) <= days_before_month(year, m2),
        days_before_month(year, 13) == (if is_leap(year) {
            366int
        } else {
            365int
        }),
    decreases m2 - m1,
{
    reveal_with_fuel(days_before_month, 14);
    if m1 + 1 < m2 {
        lemma_month_order(year, m1, m2 - 1);
    }
}

/// A later year begins after the earlier year's end.
proof fn lemma_year_order(y1: int, y2: int)
    requires
        y1 < y2,
    ensures
        days_before_year(y1) + (if is_leap(y1) {
            366int
        } else {
            365int
        }) <= days_before_year(y2),
    decreases y2 - y1,
{
    lemma_year_length(y2 - 1);
    if y1 + 1 < y2 {
        lemma_year_order(y1, y2 - 1);
    }
}

/// The earlier of two dates by year, then month, then day.
pub open spec fn date_before(a: (int, int, int), b: (int, int, int)) -> bool {
    a.0 < b.0 || (a.0 == b.0 && (a.1 < b.1 || (a.1 == b.1 && a.2 < b.2)))
}

/// Day counts follow the order of the dates.
pub proof fn law_day_number_order(a: (int, int, int), b: (int, int, int))
    requires
        valid_date(a.0, a.1, a.2),
        valid_date(b.0, b.1, b.2),
    ensures
        date_before(a, b) <==> day_number(a.0, a.1, a.2) < day_number(b.0, b.1, b.2),
{
    if date_before(a, b) {
        lemma_date_order(a, b);
    } else if a != b {
        assert(date_before(b, a));
        lemma_date_order(b, a);
    }
}

/// An earlier date has the smaller day count.
proof fn lemma_date_order(a: (int, int, int), b: (int, int, int))
    requires
        valid_date(a.0, a.1, a.2),
        valid_date(b.0, b.1, b.2),
        date_before(a, b),
    ensures
        day_number(a.0, a.1, a.2) < day_number(b.0, b.1, b.2),
{
    lemma_month_order(a.0, a.1, 13);
    lemma_month_order(b.0, b.1, 13);
    if b.1 > 1 {
        lemma_month_order(b.0, 1, b.1);
    }
    if a.0 < b.0 {
        lemma_year_order(a.0, b.0);
    } else if a.1 < b.1 {
        lemma_month_order(a.0, a.1, b.1);
    }
}

/// Every day has exactly one date: `civil` gives a date of the calendar with that day count, and
/// any date of the calendar with that day count is the one that `civil` gives.
pub proof fn law_one_date_per_day(days: int)
    ensures
        valid_date(civil(days).0, civil(days).1, civil(days).2),
        day_number(civil(days).0, civil(days).1, civil(days).2) == days,
        forall|date: (int, int, int)| #[trigger]
            valid_date(date.0, date.1, date.2) && day_number(date.0, date.1, date.2) == days
                ==> date == civil(days),
{
    let era = (days + 719_468) / 146_097;
    let doe = days + 719_468 - era * 146_097;
    let yoe = (doe - doe / 1460 + doe / 36_524 - doe / 146_096) / 365;
    let doy = doe - (365 * yoe + yoe / 4 - yoe / 100);
    let mp = (5 * doy + 2) / 153;
    let day = doy - (153 * mp + 2) / 5 + 1;
    lemma_civil(days, era, doe, yoe, doy, mp, day);
    let date = if mp < 10 {
        (400 * era + yoe, mp + 3, day)
    } else {
        (400 * era + yoe + 1, mp - 9, day)
    };
    assert(valid_date(date.0, date.1, date.2) && day_number(date.0, date.1, date.2) == days);
    let chosen = civil(days);
    assert forall|other: (int, int, int)| #[trigger]
        valid_date(other.0, other.1, other.2) && day_number(other.0, other.1, other.2)
            == days implies other == chosen by {
        law_day_number_order(other, chosen);
        law_day_number_order(chosen, other);
    }
}

/// Day 0 is 1970-01-01, and the day after a date is the next day of its month, the first day of
/// the next month, or the first day of the next year.
pub proof fn law_next_day(year: int, month: int, day: int)
    requires
        valid_date(year, month, day),
    ensures
        day_number(1970, 1, 1) == 0,
        day < days_in_month(year, month) ==> day_number(year, month, day + 1) == day_number(
            year,
            month,
            day,
        ) + 1,
        day == days_in_month(year, month) && month < 12 ==> day_number(year, month + 1, 1)
            == day_number(year, month, day) + 1,
        day == days_in_month(year, month) && month == 12 ==> day_number(year + 1, 1, 1)
            == day_number(year, month, day) + 1,
{
    lemma_days_before_month(year);
    lemma_days_before_month(year + 1);
    lemma_days_before_month(1970);
    lemma_year_length(year);
    reveal_with_fuel(days_before_month, 2);
}

/// `value` begins with a date of the form `YYYY-MM-DD`.
pub open spec fn begins_with_date(value: Seq<char>) -> bool {
    &&& value.len() >= 10
    &&& value[4] == '-'
    &&& value[7] == '-'
    &&& forall|i: int| 0 <= i < 10 && i != 4 && i != 7 ==> is_digit(#[trigger] value[i])
}

/// True when `value` begins with an ISO-8601 UTC date (`YYYY-MM-DD`).
pub fn has_iso_date(value: &str) -> (r: bool)
    ensures
        r == begins_with_date(value@),
{
    let chars = chars_of(value);
    if chars.len() < 10 {
        return false;
    }
    let mut i: usize = 0;
    while i < 10
        invariant
            i <= 10,
            chars@ == value@,
            chars.len() >= 10,
            4 < i ==> chars@[4] == '-',
            7 < i ==> chars@[7] == '-',
            forall|j: int| 0 <= j < i && j != 4 && j != 7 ==> is_digit(#[trigger] chars@[j]),
        decreases 10 - i,
    {
        let c: char = chars[i];
        if i == 4 || i == 7 {
            if c != '-' {
                return false;
            }
        } else if !('0' <= c && c <= '9') {
            assert(!is_digit(value@[i as int]));
            return false;
        }
        i = i + 1;
    }
    true
}

/// The text of a UTC time, `secs` seconds after 1970-01-01T00:00:00Z.
pub fn iso_utc(secs: i64) -> (r: String)
    ensures
        r@ == iso(secs as int),
{
    let (days, rem) = split_days(secs);
    let (year, month, day) = civil_from_days(days);
    proof {
        law_one_date_per_day(days as int);
        let date = (year as int, month as int, day as int);
        assert(valid_date(date.0, date.1, date.2));
        assert(civil(days as int) == date);
    }
    let mut r = signed_zero_padded_text(year, 4);
    r.append("-");
    r.append(zero_padded_text(month as u64, 2).as_str());
    r.append("-");
    r.append(zero_padded_text(day as u64, 2).as_str());
    r.append("T");
    r.append(zero_padded_text(rem / 3600, 2).as_str());
    r.append(":");
    r.append(zero_padded_text((rem % 3600) / 60, 2).as_str());
    r.append(":");
    r.append(zero_padded_text(rem % 60, 2).as_str());
    r.append("Z");
    r
}

/// Whole days, rounded down, and the seconds that are left of the day.
fn split_days(secs: i64) -> (r: (i64, u64))
    ensures
        r.0 == secs as int / 86_400,
        r.1 == secs as int % 86_400,
{
    if secs >= 0 {
        (secs / 86_400, (secs % 86_400) as u64)
    } else {
        ((secs + 1) / 86_400 - 1, (86_399 + (secs + 1) % 86_400) as u64)
    }
}

/// Two digits.
pub proof fn lemma_two_digits(n: nat)
    requires
        n < 100,
    ensures
        zero_padded(n, 2) == seq![digit(n / 10), digit(n % 10)],
{
    reveal_with_fuel(decimal, 2);
    assert(zero_padded(n, 2) =~= seq![digit(n / 10), digit(n % 10)]);
}

/// Four digits are two digits and two digits.
pub proof fn lemma_four_digits(n: nat)
    requires
        n < 10_000,
    ensures
        zero_padded(n, 4) == zero_padded(n / 100, 2) + zero_padded(n % 100, 2),
{
    reveal_with_fuel(decimal, 4);
    lemma_two_digits(n / 100);
    lemma_two_digits(n % 100);
    assert((n / 10) / 10 == n / 100);
    assert((n / 100) / 10 == n / 1000);
    assert((n % 100) / 10 == (n / 10) % 10);
    assert((n % 100) % 10 == n % 10);
    assert(zero_padded(n, 4) =~= zero_padded(n / 100, 2) + zero_padded(n % 100, 2));
}

/// The order of texts is decided by the first of two parts of equal length that differs.
proof fn lemma_before_by_part(a: Seq<char>, b: Seq<char>, x: Seq<char>, y: Seq<char>)
    requires
        a.len() == b.len(),
    ensures
        before(a, b) ==> before(a + x, b + y),
        a == b ==> before(a + x, b + y) == before(x, y),
    decreases a.len(),
{
    if a == b {
        lemma_before_common_prefix(a, x, y);
    }
    if before(a, b) {
        assert((a + x).drop_first() =~= a.drop_first() + x);
        assert((b + y).drop_first() =~= b.drop_first() + y);
        if a[0] == b[0] {
            lemma_before_by_part(a.drop_first(), b.drop_first(), x, y);
        }
    }
}

/// Two-digit numbers are ordered as their texts are.
proof fn lemma_two_digits_order(m: nat, n: nat)
    requires
        m < n < 100,
    ensures
        before(zero_padded(m, 2), zero_padded(n, 2)),
{
    lemma_two_digits(m);
    lemma_two_digits(n);
    reveal_with_fuel(before, 3);
}

/// Four-digit numbers are ordered as their texts are.
proof fn lemma_four_digits_order(m: nat, n: nat)
    requires
        m < n < 10_000,
    ensures
        before(zero_padded(m, 4), zero_padded(n, 4)),
{
    lemma_four_digits(m);
    lemma_four_digits(n);
    lemma_two_digits(m / 100);
    lemma_two_digits(n / 100);
    lemma_before_by_part(
        zero_padded(m / 100, 2),
        zero_padded(n / 100, 2),
        zero_padded(m % 100, 2),
        zero_padded(n % 100, 2),
    );
    if m / 100 < n / 100 {
        lemma_two_digits_order(m / 100, n / 100);
    } else {
        lemma_two_digits_order(m % 100, n % 100);
    }
}

/// A two-digit field and what follows it keep the order of what stands before, or decide it.
proof fn lemma_two_digit_field(a: Seq<char>, b: Seq<char>, m: nat, n: nat, end: Seq<char>)
    requires
        a.len() == b.len(),
        before(a, b) || (a == b && m <= n),
        m < 100,
        n < 100,
    ensures
        (a + zero_padded(m, 2) + end).len() == (b + zero_padded(n, 2) + end).len(),
        before(a, b) || m < n ==> before(a + zero_padded(m, 2) + end, b + zero_padded(n, 2) + end),
        a == b && m == n ==> a + zero_padded(m, 2) + end == b + zero_padded(n, 2) + end,
{
    lemma_digits_only(m);
    lemma_digits_only(n);
    if m < n {
        lemma_two_digits_order(m, n);
    }
    let x = zero_padded(m, 2);
    let y = zero_padded(n, 2);
    lemma_before_by_part(a, b, x, y);
    lemma_before_by_part(a + x, b + y, end, end);
}

/// The order of a date's text and what stands before the clock.
proof fn lemma_date_text_order(a: (int, int, int), b: (int, int, int))
    requires
        0 <= a.0 <= 9999,
        0 <= b.0 <= 9999,
        valid_date(a.0, a.1, a.2),
        valid_date(b.0, b.1, b.2),
        date_before(a, b) || a == b,
    ensures
        ({
            let x = date_text(a.0 as nat, a.1 as nat, a.2 as nat) + "T"@;
            let y = date_text(b.0 as nat, b.1 as nat, b.2 as nat) + "T"@;
            x.len() == y.len() && (date_before(a, b) ==> before(x, y)) && (a == b ==> x == y)
        }),
{
    lemma_digits_only(a.0 as nat);
    lemma_digits_only(b.0 as nat);
    let a0 = zero_padded(a.0 as nat, 4);
    let b0 = zero_padded(b.0 as nat, 4);
    if a.0 < b.0 {
        lemma_four_digits_order(a.0 as nat, b.0 as nat);
    }
    lemma_before_by_part(a0, b0, "-"@, "-"@);
    let a1 = a0 + "-"@;
    let b1 = b0 + "-"@;
    lemma_two_digit_field(a1, b1, a.1 as nat, b.1 as nat, "-"@);
    let a2 = a1 + zero_padded(a.1 as nat, 2) + "-"@;
    let b2 = b1 + zero_padded(b.1 as nat, 2) + "-"@;
    lemma_two_digit_field(a2, b2, a.2 as nat, b.2 as nat, "T"@);
}

/// The order of the clock's text after equal or ordered dates.
proof fn lemma_clock_order(a: Seq<char>, s: (nat, nat, nat), b: Seq<char>, t: (nat, nat, nat))
    requires
        a.len() == b.len(),
        s.0 < 100 && s.1 < 100 && s.2 < 100,
        t.0 < 100 && t.1 < 100 && t.2 < 100,
        before(a, b) || (a == b && (s.0 < t.0 || (s.0 == t.0 && (s.1 < t.1 || (s.1 == t.1 && s.2
            < t.2))))),
    ensures
        before(
            a + zero_padded(s.0, 2) + ":"@ + zero_padded(s.1, 2) + ":"@ + zero_padded(s.2, 2)
                + "Z"@,
            b + zero_padded(t.0, 2) + ":"@ + zero_padded(t.1, 2) + ":"@ + zero_padded(t.2, 2)
                + "Z"@,
        ),
{
    lemma_two_digit_field(a, b, s.0, t.0, ":"@);
    let a1 = a + zero_padded(s.0, 2) + ":"@;
    let b1 = b + zero_padded(t.0, 2) + ":"@;
    lemma_two_digit_field(a1, b1, s.1, t.1, ":"@);
    let a2 = a1 + zero_padded(s.1, 2) + ":"@;
    let b2 = b1 + zero_padded(t.1, 2) + ":"@;
    lemma_two_digit_field(a2, b2, s.2, t.2, "Z"@);
}

/// The hour, the minute and the second of a second of the day.
proof fn lemma_clock_parts(s: int)
    requires
        0 <= s < 86_400,
    ensures
        0 <= s / 3600 < 24,
        0 <= (s % 3600) / 60 < 60,
        0 <= s % 60 < 60,
        s == 3600 * (s / 3600) + 60 * ((s % 3600) / 60) + s % 60,
{
    let rest = s % 3600;
    assert(s == 3600 * (s / 3600) + rest);
    assert(rest % 60 == s % 60) by {
        lemma_mod_multiples_vanish(60 * (s / 3600), rest, 60);
    }
}

/// A later time has the later text.
#[verifier::spinoff_prover]
proof fn lemma_timestamp_order(a: (int, int, int), s: int, b: (int, int, int), t: int)
    requires
        0 <= a.0 <= 9999,
        0 <= b.0 <= 9999,
        valid_date(a.0, a.1, a.2),
        valid_date(b.0, b.1, b.2),
        0 <= s < 86_400,
        0 <= t < 86_400,
        date_before(a, b) || (a == b && s < t),
    ensures
        before(timestamp(a, s), timestamp(b, t)),
{
    lemma_date_text_order(a, b);
    let x = ((s / 3600) as nat, ((s % 3600) / 60) as nat, (s % 60) as nat);
    let y = ((t / 3600) as nat, ((t % 3600) / 60) as nat, (t % 60) as nat);
    lemma_clock_parts(s);
    lemma_clock_parts(t);
    lemma_clock_order(
        date_text(a.0 as nat, a.1 as nat, a.2 as nat) + "T"@,
        x,
        date_text(b.0 as nat, b.1 as nat, b.2 as nat) + "T"@,
        y,
    );
}

/// The dates of the years 1970 to 9999.
pub proof fn lemma_four_digit_years(secs: int)
    requires
        0 <= secs < 253_402_300_800,
    ensures
        1970 <= civil(secs / 86_400).0 <= 9999,
{
    let days = secs / 86_400;
    let date = civil(days);
    law_one_date_per_day(days);
    lemma_days_before_month(1970);
    lemma_days_before_month(10_000);
    assert(day_number(1970, 1, 1) == 0);
    assert(day_number(10_000, 1, 1) == 2_932_897);
    law_day_number_order(date, (1970, 1, 1));
    law_day_number_order(date, (10_000, 1, 1));
}

/// For the years 1970 to 9999 the texts of UTC times are ordered as the times are, so that
/// comparing two texts compares the times.
pub proof fn law_iso_order(a: int, b: int)
    requires
        0 <= a < 253_402_300_800,
        0 <= b < 253_402_300_800,
    ensures
        a < b <==> before(iso(a), iso(b)),
{
    lemma_four_digit_years(a);
    lemma_four_digit_years(b);
    law_one_date_per_day(a / 86_400);
    law_one_date_per_day(b / 86_400);
    let x = civil(a / 86_400);
    let y = civil(b / 86_400);
    law_day_number_order(x, y);
    law_day_number_order(y, x);
    if a < b {
        lemma_timestamp_order(x, a % 86_400, y, b % 86_400);
    } else if b < a {
        lemma_timestamp_order(y, b % 86_400, x, a % 86_400);
        if before(iso(a), iso(b)) {
            lemma_before_transitive(iso(a), iso(b), iso(a));
            lemma_before_irreflexive(iso(a));
        }
    } else {
        lemma_before_irreflexive(iso(a));
    }
}

/// For the years 1970 to 9999 the text of a UTC time has twenty characters, begins with a date
/// and ends in `Z`.
pub proof fn law_iso_shape(secs: int)
    requires
        0 <= secs < 253_402_300_800,
    ensures
        iso(secs).len() == 20,
        begins_with_date(iso(secs)),
        iso(secs).last() == 'Z',
{
    lemma_four_digit_years(secs);
    law_one_date_per_day(secs / 86_400);
    let date = civil(secs / 86_400);
    let second = secs % 86_400;
    lemma_date_text(date.0 as nat, date.1 as nat, date.2 as nat);
    let head = date_text(date.0 as nat, date.1 as nat, date.2 as nat);
    let hour = (second / 3600) as nat;
    let minute = ((second % 3600) / 60) as nat;
    let last = (second % 60) as nat;
    lemma_clock_text(head, hour, minute, last);
}

/// The text `YYYY-MM-DD`.
spec fn date_text(year: nat, month: nat, day: nat) -> Seq<char> {
    zero_padded(year, 4) + "-"@ + zero_padded(month, 2) + "-"@ + zero_padded(day, 2)
}

/// Padded to two or four places, a number that fits is made of so many digits.
proof fn lemma_digits_only(n: nat)
    ensures
        n < 100 ==> zero_padded(n, 2).len() == 2 && all_digits(zero_padded(n, 2)),
        n < 10_000 ==> zero_padded(n, 4).len() == 4 && all_digits(zero_padded(n, 4)),
{
    if n < 100 {
        lemma_two_digits(n);
    }
    if n < 10_000 {
        lemma_four_digits(n);
        lemma_two_digits(n / 100);
        lemma_two_digits(n % 100);
    }
}

/// Digits with hyphens between them make the shape of a date.
proof fn lemma_hyphenated(year: Seq<char>, month: Seq<char>, day: Seq<char>)
    requires
        year.len() == 4 && all_digits(year),
        month.len() == 2 && all_digits(month),
        day.len() == 2 && all_digits(day),
    ensures
        (year + "-"@ + month + "-"@ + day).len() == 10,
        begins_with_date(year + "-"@ + month + "-"@ + day),
{
    reveal_strlit("-");
    let whole = year + "-"@ + month + "-"@ + day;
    assert(whole =~= seq![
        year[0],
        year[1],
        year[2],
        year[3],
        '-',
        month[0],
        month[1],
        '-',
        day[0],
        day[1],
    ]);
}

/// The shape of a date.
proof fn lemma_date_text(year: nat, month: nat, day: nat)
    requires
        year < 10_000,
        month < 100,
        day < 100,
    ensures
        date_text(year, month, day).len() == 10,
        begins_with_date(date_text(year, month, day)),
{
    lemma_digits_only(year);
    lemma_digits_only(month);
    lemma_digits_only(day);
    lemma_hyphenated(zero_padded(year, 4), zero_padded(month, 2), zero_padded(day, 2));
}

/// The shape of a time that follows a date.
proof fn lemma_clock_text(head: Seq<char>, hour: nat, minute: nat, second: nat)
    requires
        head.len() == 10,
        begins_with_date(head),
        hour < 100,
        minute < 100,
        second < 100,
    ensures
        ({
            let whole = head + "T"@ + zero_padded(hour, 2) + ":"@ + zero_padded(minute, 2) + ":"@
                + zero_padded(second, 2) + "Z"@;
            whole.len() == 20 && begins_with_date(whole) && whole.last() == 'Z'
        }),
{
    lemma_digits_only(hour);
    lemma_digits_only(minute);
    lemma_digits_only(second);
    reveal_strlit("T");
    reveal_strlit(":");
    reveal_strlit("Z");
    let whole = head + "T"@ + zero_padded(hour, 2) + ":"@ + zero_padded(minute, 2) + ":"@
        + zero_padded(second, 2) + "Z"@;
    assert(whole.take(10) =~= head);
    assert forall|i: int| 0 <= i < 10 implies whole[i] == head[i] by {
        assert(whole.take(10)[i] == whole[i]);
    }
}

} // verus!
