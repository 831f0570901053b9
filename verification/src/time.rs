//! The proleptic Gregorian calendar and RFC 3339 UTC timestamps.

use vstd::prelude::*;

use crate::text::{
    decimal, digits_value, is_whitespace, lemma_zero_padded_digits, lemma_zero_padded_value,
    push_zero_padded, string_of, zero_padded,
};

verus! {

/// A Gregorian leap year.
pub open spec fn is_leap_year(y: int) -> bool {
    y % 4 == 0 && (y % 100 != 0 || y % 400 == 0)
}

/// The number of days in month `m` (1 = January) of year `y`.
pub open spec fn days_in_month(y: int, m: int) -> int {
    if m == 2 {
        if is_leap_year(y) {
            29
        } else {
            28
        }
    } else if m == 4 || m == 6 || m == 9 || m == 11 {
        30
    } else {
        31
    }
}

/// A day that exists: month 1 to 12, day 1 to the month's length.
pub open spec fn is_valid_date(y: int, m: int, d: int) -> bool {
    1 <= m <= 12 && 1 <= d <= days_in_month(y, m)
}

/// The number of leap years among 1, ..., `y` (negated below year 1).
pub open spec fn leap_years_through(y: int) -> int {
    y / 4 - y / 100 + y / 400
}

/// Days from 1970-01-01 to January 1 of year `y` (negative before 1970).
pub open spec fn days_before_year(y: int) -> int {
    365 * (y - 1970) + leap_years_through(y - 1) - leap_years_through(1969)
}

/// Days from January 1 to the first day of month `m` in year `y`.
pub open spec fn days_before_month(y: int, m: int) -> int {
    let common: int = if m <= 1 {
        0
    } else if m == 2 {
        31
    } else if m == 3 {
        59
    } else if m == 4 {
        90
    } else if m == 5 {
        120
    } else if m == 6 {
        151
    } else if m == 7 {
        181
    } else if m == 8 {
        212
    } else if m == 9 {
        243
    } else if m == 10 {
        273
    } else if m == 11 {
        304
    } else {
        334
    };
    if m > 2 && is_leap_year(y) {
        common + 1
    } else {
        common
    }
}

/// Days from 1970-01-01 to the date `y`-`m`-`d`.
pub open spec fn days_from_civil(y: int, m: int, d: int) -> int {
    days_before_year(y) + days_before_month(y, m) + d - 1
}

/// Each year is as long as its leap status says: January 1 of `y + 1` comes
/// 365 or 366 days after January 1 of `y`.
pub proof fn lemma_days_before_next_year(y: int)
    ensures
        days_before_year(y + 1) == days_before_year(y) + (if is_leap_year(y) {
            366int
        } else {
            365int
        }),
{
    lemma_leap_years_step(y);
}

proof fn lemma_leap_years_step(y: int)
    ensures
        leap_years_through(y) == leap_years_through(y - 1) + (if is_leap_year(y) {
            1int
        } else {
            0int
        }),
{
    lemma_floor_step_4(y);
    lemma_floor_step_100(y);
    lemma_floor_step_400(y);
}

proof fn lemma_floor_step_4(y: int)
    ensures
        y / 4 - (y - 1) / 4 == (if y % 4 == 0 {
            1int
        } else {
            0int
        }),
{
}

proof fn lemma_floor_step_100(y: int)
    ensures
        y / 100 - (y - 1) / 100 == (if y % 100 == 0 {
            1int
        } else {
            0int
        }),
        y % 100 == 0 ==> y % 4 == 0,
{
}

proof fn lemma_floor_step_400(y: int)
    ensures
        y / 400 - (y - 1) / 400 == (if y % 400 == 0 {
            1int
        } else {
            0int
        }),
        y % 400 == 0 ==> y % 100 == 0,
{
}

// ---------------------------------------------------------------------------
// Years within a 400-year era that starts on March 1.

/// Days from March 1 of year 0 of an era to March 1 of year `y` of it.
spec fn era_days_before(y: int) -> int {
    365 * y + y / 4 - y / 100
}

/// Length of the March-based year `y` of an era: its February lies in
/// the calendar year `y + 1`.
spec fn era_year_length(y: int) -> int {
    if is_leap_year(y + 1) {
        366
    } else {
        365
    }
}

proof fn lemma_era_year_step(y: int)
    requires
        0 <= y < 399,
    ensures
        era_days_before(y + 1) == era_days_before(y) + era_year_length(y),
{
}

proof fn lemma_find_era_year(doe: int, y: int) -> (r: (int, int))
    requires
        0 <= y <= 399,
        era_days_before(y) <= doe <= 146096,
    ensures
        y <= r.0 <= 399,
        0 <= r.1 < era_year_length(r.0),
        doe == era_days_before(r.0) + r.1,
    decreases 399 - y,
{
    if y == 399 || doe < era_days_before(y) + era_year_length(y) {
        (y, doe - era_days_before(y))
    } else {
        lemma_era_year_step(y);
        lemma_find_era_year(doe, y + 1)
    }
}

/// The year-of-era formula finds the March-based year that holds `doe`.
proof fn lemma_year_of_era(doe: int, y: int, t: int)
    requires
        0 <= y <= 399,
        0 <= t < era_year_length(y),
        doe == era_days_before(y) + t,
    ensures
        (doe - doe / 1460 + doe / 36524 - doe / 146096) / 365 == y,
        doe - (365 * y + y / 4 - y / 100) == t,
{
    let a = y / 4;
    let b = y % 4;
    let c = y / 100;
    assert(y == 4 * a + b);
    assert(0 <= a - c <= 96);
    assert(doe == 1460 * a + (365 * b + t + a - c));
    let d1: int = if 365 * b + t + a - c >= 1460 { 1 } else { 0 };
    assert(doe / 1460 == a + d1);
    if doe == 146096 {
        assert(doe / 36524 == 4);
        assert(doe / 146096 == 1);
        assert(y == 399);
    } else {
        assert(doe < 146096);
        assert(36524 * c <= doe < 36524 * c + 36524);
        assert(doe / 36524 == c);
        assert(doe / 146096 == 0);
        if d1 == 1 {
            assert(b == 3);
        } else {
            assert(t <= 364);
        }
    }
    let f = doe - doe / 1460 + doe / 36524 - doe / 146096;
    assert(365 * y <= f <= 365 * y + 364);
}


/// The month formulas: `mp` counts months from March, `d` is the day.
proof fn lemma_month_of_year(doy: int, len: int)
    requires
        0 <= doy < len,
        len == 365 || len == 366,
    ensures
        ({
            let mp = (5 * doy + 2) / 153;
            let d = doy - (153 * mp + 2) / 5 + 1;
            &&& 0 <= mp <= 11
            &&& 1 <= d
            &&& mp < 11 ==> d <= (153 * (mp + 1) + 2) / 5 - (153 * mp + 2) / 5
            &&& mp == 11 ==> d <= len - 337
            &&& mp < 10 ==> doy <= 305
        }),
{
    let mp = (5 * doy + 2) / 153;
    assert(153 * mp <= 5 * doy + 2 < 153 * mp + 153);
    assert(0 <= mp <= 11);
    if mp == 0 {
        assert(doy < 31);
    } else if mp == 1 {
        assert(31 <= doy < 61);
    } else if mp == 2 {
        assert(61 <= doy < 92);
    } else if mp == 3 {
        assert(92 <= doy < 122);
    } else if mp == 4 {
        assert(122 <= doy < 153);
    } else if mp == 5 {
        assert(153 <= doy < 184);
    } else if mp == 6 {
        assert(184 <= doy < 214);
    } else if mp == 7 {
        assert(214 <= doy < 245);
    } else if mp == 8 {
        assert(245 <= doy < 275);
    } else if mp == 9 {
        assert(275 <= doy < 306);
    } else if mp == 10 {
        assert(306 <= doy < 337);
    } else {
        assert(337 <= doy);
    }
}

/// Days from 1970-01-01 to March 1 of any year `y`.
proof fn lemma_march_first(y: int)
    ensures
        days_before_year(y) + 59 + (if is_leap_year(y) {
            1int
        } else {
            0int
        }) == 365 * y + y / 4 - y / 100 + y / 400 - 719468,
{
    lemma_leap_years_step(y);
}

/// March 1 of the year `y` of era `era`.
proof fn lemma_era_start(era: int, y: int)
    requires
        0 <= y <= 399,
    ensures
        365 * (400 * era + y) + (400 * era + y) / 4 - (400 * era + y) / 100 + (400 * era + y) / 400
            == 146097 * era + era_days_before(y),
        is_leap_year(400 * era + y + 1) == is_leap_year(y + 1),
{
    let x = 400 * era + y;
    assert(x / 4 == 100 * era + y / 4);
    assert(x / 100 == 4 * era + y / 100);
    assert(x / 400 == era);
    assert((x + 1) % 4 == (y + 1) % 4);
    assert((x + 1) % 100 == (y + 1) % 100);
    assert((x + 1) % 400 == (y + 1) % 400);
}

/// The calendar date of day `days` after 1970-01-01 (negative before it).
fn civil_from_days(days: i64) -> (r: (i64, u32, u32))
    requires
        days <= 9223372036854056339,
    ensures
        is_valid_date(r.0 as int, r.1 as int, r.2 as int),
        days_from_civil(r.0 as int, r.1 as int, r.2 as int) == days,
{
    let shifted = days + 719_468;
    let era = if shifted >= 0 {
        shifted
    } else {
        shifted - 146_096
    } / 146_097;
    let ghost z = shifted as int;
    assert(era == z / 146097) by {
        if shifted < 0 {
            assert(era == -((146096 - z) / 146097));
        }
    }
    let day_of_era = (shifted - era * 146_097) as u64;
    assert(day_of_era == z % 146097);
    let ghost doe = day_of_era as int;
    let ghost (y, t) = lemma_find_era_year(doe, 0);
    proof {
        lemma_year_of_era(doe, y, t);
    }
    let year_of_era = (day_of_era - day_of_era / 1460 + day_of_era / 36_524 - day_of_era / 146_096)
        / 365;
    assert(year_of_era == y);
    let day_of_year = day_of_era - (365 * year_of_era + year_of_era / 4 - year_of_era / 100);
    assert(day_of_year == t);
    proof {
        lemma_month_of_year(t, era_year_length(y));
    }
    let month_index = (5 * day_of_year + 2) / 153;
    let day = (day_of_year - (153 * month_index + 2) / 5 + 1) as u32;
    let month = if month_index < 10 {
        month_index + 3
    } else {
        month_index - 9
    } as u32;
    let year = year_of_era as i64 + era * 400;
    let result_year = if month <= 2 {
        year + 1
    } else {
        year
    };
    proof {
        let ym = 400 * (era as int) + y;
        lemma_era_start(era as int, y);
        lemma_march_first(ym);
        lemma_leap_years_step(ym + 1);
        assert(z == 146097 * era + doe);
        if month_index >= 10 {
            lemma_days_before_next_year(ym);
            assert(days_before_year(ym + 1) == 365 * ym + ym / 4 - ym / 100 + ym / 400 - 719468
                + 306);
        }
    }
    (result_year, month, day)
}


/// Calendar days are at least 365 apart per year: January 1 of a later
/// year never comes before the end of an earlier year.
proof fn lemma_days_before_year_monotone(y1: int, y2: int)
    requires
        y1 < y2,
    ensures
        days_before_year(y1 + 1) <= days_before_year(y2),
    decreases y2 - y1,
{
    lemma_days_before_next_year(y2 - 1);
    if y1 + 1 < y2 {
        lemma_days_before_year_monotone(y1, y2 - 1);
    }
}

/// A valid date falls inside its own year.
proof fn lemma_date_within_year(y: int, m: int, d: int)
    requires
        is_valid_date(y, m, d),
    ensures
        days_before_year(y) <= days_from_civil(y, m, d) < days_before_year(y + 1),
{
    lemma_days_before_next_year(y);
}

/// Different valid dates have different day numbers: the day number
/// determines the date.
pub proof fn lemma_civil_date_unique(y1: int, m1: int, d1: int, y2: int, m2: int, d2: int)
    requires
        is_valid_date(y1, m1, d1),
        is_valid_date(y2, m2, d2),
        days_from_civil(y1, m1, d1) == days_from_civil(y2, m2, d2),
    ensures
        y1 == y2 && m1 == m2 && d1 == d2,
{
    lemma_date_within_year(y1, m1, d1);
    lemma_date_within_year(y2, m2, d2);
    if y1 < y2 {
        lemma_days_before_year_monotone(y1, y2);
    } else if y2 < y1 {
        lemma_days_before_year_monotone(y2, y1);
    }
}

/// The date of a valid date's day number is that date.
pub proof fn lemma_civil_date_of_day_number(y: int, m: int, d: int)
    requires
        is_valid_date(y, m, d),
    ensures
        civil_date(days_from_civil(y, m, d)) == (y, m, d),
{
    let days = days_from_civil(y, m, d);
    let w = (y, m, d);
    assert(is_valid_date(w.0, w.1, w.2) && days_from_civil(w.0, w.1, w.2) == days);
    let c = civil_date(days);
    lemma_civil_date_unique(c.0, c.1, c.2, y, m, d);
}

/// The day after `y`-`m`-`d`.
pub open spec fn next_day(y: int, m: int, d: int) -> (int, int, int) {
    if d < days_in_month(y, m) {
        (y, m, d + 1)
    } else if m < 12 {
        (y, m + 1, 1)
    } else {
        (y + 1, 1, 1)
    }
}

/// Day numbers count days: the day after a date is a valid date whose day
/// number is one more, and the date of that number.
pub proof fn lemma_next_day(y: int, m: int, d: int)
    requires
        is_valid_date(y, m, d),
    ensures
        is_valid_date(next_day(y, m, d).0, next_day(y, m, d).1, next_day(y, m, d).2),
        days_from_civil(next_day(y, m, d).0, next_day(y, m, d).1, next_day(y, m, d).2)
            == days_from_civil(y, m, d) + 1,
        civil_date(days_from_civil(y, m, d) + 1) == next_day(y, m, d),
{
    let n = next_day(y, m, d);
    if d >= days_in_month(y, m) && m == 12 {
        lemma_days_before_next_year(y);
    }
    lemma_civil_date_of_day_number(n.0, n.1, n.2);
}

/// Day 0 is 1970-01-01.
pub proof fn lemma_epoch_date()
    ensures
        days_from_civil(1970, 1, 1) == 0,
        civil_date(0) == (1970int, 1int, 1int),
{
    lemma_civil_date_of_day_number(1970, 1, 1);
}

/// The date (year, month, day) of the day `days` after 1970-01-01.
pub open spec fn civil_date(days: int) -> (int, int, int) {
    choose|ymd: (int, int, int)|
        is_valid_date(ymd.0, ymd.1, ymd.2) && days_from_civil(ymd.0, ymd.1, ymd.2) == days
}

/// Every day number, before or after the epoch, has a date: the date of a
/// day number is valid and has that number.
pub proof fn lemma_civil_date_exists(days: int)
    ensures
        is_valid_date(civil_date(days).0, civil_date(days).1, civil_date(days).2),
        days_from_civil(civil_date(days).0, civil_date(days).1, civil_date(days).2) == days,
{
    let z = days + 719468;
    let era = z / 146097;
    let doe = z % 146097;
    let (y, t) = lemma_find_era_year(doe, 0);
    lemma_year_of_era(doe, y, t);
    lemma_month_of_year(t, era_year_length(y));
    let mp = (5 * t + 2) / 153;
    let d = t - (153 * mp + 2) / 5 + 1;
    let m = if mp < 10 {
        mp + 3
    } else {
        mp - 9
    };
    let ym = 400 * era + y;
    let year = if m <= 2 {
        ym + 1
    } else {
        ym
    };
    lemma_era_start(era, y);
    lemma_march_first(ym);
    lemma_leap_years_step(ym + 1);
    assert(z == 146097 * era + doe);
    if mp >= 10 {
        lemma_days_before_next_year(ym);
        assert(days_before_year(ym + 1) == 365 * ym + ym / 4 - ym / 100 + ym / 400 - 719468 + 306);
    }
    assert(is_valid_date(year, m, d) && days_from_civil(year, m, d) == days);
    let w = (year, m, d);
    assert(is_valid_date(w.0, w.1, w.2) && days_from_civil(w.0, w.1, w.2) == days);
}

/// The RFC 3339 UTC instant `YYYY-MM-DDTHH:MM:SSZ` for `seconds` after the
/// Unix epoch.
pub open spec fn rfc3339_text(seconds: nat) -> Seq<char> {
    let date = civil_date((seconds / 86400) as int);
    let second_of_day = seconds % 86400;
    zero_padded(date.0 as nat, 4) + seq!['-'] + zero_padded(date.1 as nat, 2) + seq!['-']
        + zero_padded(date.2 as nat, 2) + seq!['T'] + zero_padded(second_of_day / 3600, 2) + seq![
        ':',
    ] + zero_padded((second_of_day % 3600) / 60, 2) + seq![':'] + zero_padded(
        second_of_day % 60,
        2,
    ) + seq!['Z']
}

/// An RFC 3339 instant is one line of text without whitespace, ending in
/// `Z`.
pub proof fn lemma_rfc3339_text_shape(seconds: nat)
    ensures
        rfc3339_text(seconds).len() > 0,
        rfc3339_text(seconds).last() == 'Z',
        forall|i: int|
            0 <= i < rfc3339_text(seconds).len() ==> !is_whitespace(
                #[trigger] rfc3339_text(seconds)[i],
            ),
{
    let date = civil_date((seconds / 86400) as int);
    let second_of_day = seconds % 86400;
    let parts = seq![
        zero_padded(date.0 as nat, 4),
        seq!['-'],
        zero_padded(date.1 as nat, 2),
        seq!['-'],
        zero_padded(date.2 as nat, 2),
        seq!['T'],
        zero_padded(second_of_day / 3600, 2),
        seq![':'],
        zero_padded((second_of_day % 3600) / 60, 2),
        seq![':'],
        zero_padded(second_of_day % 60, 2),
        seq!['Z'],
    ];
    lemma_zero_padded_digits(date.0 as nat, 4);
    lemma_zero_padded_digits(date.1 as nat, 2);
    lemma_zero_padded_digits(date.2 as nat, 2);
    lemma_zero_padded_digits(second_of_day / 3600, 2);
    lemma_zero_padded_digits((second_of_day % 3600) / 60, 2);
    lemma_zero_padded_digits(second_of_day % 60, 2);
    let t = rfc3339_text(seconds);
    assert(t =~= parts[0] + parts[1] + parts[2] + parts[3] + parts[4] + parts[5] + parts[6]
        + parts[7] + parts[8] + parts[9] + parts[10] + parts[11]);
    lemma_concat_no_whitespace(parts);
    assert(t =~= flatten_text(parts)) by {
        lemma_flatten_twelve(parts);
    }
}

/// The concatenation of `parts`, in order.
spec fn flatten_text(parts: Seq<Seq<char>>) -> Seq<char>
    decreases parts.len(),
{
    if parts.len() == 0 {
        seq![]
    } else {
        flatten_text(parts.drop_last()) + parts.last()
    }
}

proof fn lemma_flatten_twelve(parts: Seq<Seq<char>>)
    requires
        parts.len() == 12,
    ensures
        flatten_text(parts) == parts[0] + parts[1] + parts[2] + parts[3] + parts[4] + parts[5]
            + parts[6] + parts[7] + parts[8] + parts[9] + parts[10] + parts[11],
{
    reveal_with_fuel(flatten_text, 13);
    assert(parts.drop_last().drop_last().drop_last().drop_last().drop_last().drop_last()
        .drop_last().drop_last().drop_last().drop_last().drop_last().drop_last()
        =~= Seq::<Seq<char>>::empty());
}

proof fn lemma_concat_no_whitespace(parts: Seq<Seq<char>>)
    requires
        forall|k: int, i: int|
            0 <= k < parts.len() && 0 <= i < parts[k].len() ==> ('0' <= #[trigger] parts[k][i] <= '9'
                || parts[k][i] == '-' || parts[k][i] == 'T' || parts[k][i] == ':' || parts[k][i]
                == 'Z'),
    ensures
        forall|i: int|
            0 <= i < flatten_text(parts).len() ==> !is_whitespace(#[trigger] flatten_text(parts)[i]),
    decreases parts.len(),
{
    if parts.len() > 0 {
        let init = parts.drop_last();
        assert forall|k: int, i: int| 0 <= k < init.len() && 0 <= i < init[k].len() implies ('0'
            <= #[trigger] init[k][i] <= '9' || init[k][i] == '-' || init[k][i] == 'T' || init[k][i]
            == ':' || init[k][i] == 'Z') by {
            assert(init[k] == parts[k]);
        }
        lemma_concat_no_whitespace(init);
        let f = flatten_text(parts);
        let g = flatten_text(init);
        let last = parts.last();
        assert forall|i: int| 0 <= i < f.len() implies !is_whitespace(#[trigger] f[i]) by {
            if i < g.len() {
                assert(f[i] == g[i]);
            } else {
                assert(f[i] == last[i - g.len()]);
                assert(parts[parts.len() - 1][i - g.len()] == last[i - g.len()]);
            }
        }
    }
}

proof fn lemma_decimal_short(n: nat)
    ensures
        n < 10 ==> decimal(n).len() == 1,
        n < 100 ==> decimal(n).len() <= 2,
        n < 1000 ==> decimal(n).len() <= 3,
        n < 10000 ==> decimal(n).len() <= 4,
    decreases n,
{
    if n >= 10 {
        lemma_decimal_short(n / 10);
        assert(decimal(n).len() == decimal(n / 10).len() + 1);
        assert(n < 100 ==> n / 10 < 10);
        assert(n < 1000 ==> n / 10 < 100);
        assert(n < 10000 ==> n / 10 < 1000);
    }
}

/// Each field of an RFC 3339 instant (up to year 9999) is zero-padded
/// decimal text that reads back as the value it stands for: the year, month
/// and day of the date `seconds / 86400` days after the epoch, and the hour,
/// minute and second of the day.
pub proof fn lemma_rfc3339_fields(seconds: nat)
    requires
        seconds < 253402300800,
    ensures
        ({
            let t = rfc3339_text(seconds);
            let date = civil_date((seconds / 86400) as int);
            let second_of_day = seconds % 86400;
            &&& is_valid_date(date.0, date.1, date.2)
            &&& days_from_civil(date.0, date.1, date.2) == seconds / 86400
            &&& 1970 <= date.0 <= 9999
            &&& t.len() == 20
            &&& t[4] == '-' && t[7] == '-' && t[10] == 'T' && t[13] == ':' && t[16] == ':'
                && t[19] == 'Z'
            &&& digits_value(t.subrange(0, 4)) == date.0
            &&& digits_value(t.subrange(5, 7)) == date.1
            &&& digits_value(t.subrange(8, 10)) == date.2
            &&& digits_value(t.subrange(11, 13)) == second_of_day / 3600
            &&& digits_value(t.subrange(14, 16)) == (second_of_day % 3600) / 60
            &&& digits_value(t.subrange(17, 19)) == second_of_day % 60
        }),
{
    let days = (seconds / 86400) as int;
    let date = civil_date(days);
    let second_of_day = seconds % 86400;
    lemma_civil_date_exists(days);
    lemma_date_within_year(date.0, date.1, date.2);
    if date.0 < 1970 {
        lemma_days_before_year_monotone(date.0, 1970);
    }
    if date.0 > 9999 {
        lemma_days_before_year_monotone(9999, date.0);
        assert(days_before_year(10000) == 2932897);
    }
    let year = zero_padded(date.0 as nat, 4);
    let month = zero_padded(date.1 as nat, 2);
    let day = zero_padded(date.2 as nat, 2);
    let hour = zero_padded(second_of_day / 3600, 2);
    let minute = zero_padded((second_of_day % 3600) / 60, 2);
    let second = zero_padded(second_of_day % 60, 2);
    lemma_decimal_short(date.0 as nat);
    lemma_decimal_short(date.1 as nat);
    lemma_decimal_short(date.2 as nat);
    lemma_decimal_short(second_of_day / 3600);
    lemma_decimal_short((second_of_day % 3600) / 60);
    lemma_decimal_short(second_of_day % 60);
    lemma_zero_padded_value(date.0 as nat, 4);
    lemma_zero_padded_value(date.1 as nat, 2);
    lemma_zero_padded_value(date.2 as nat, 2);
    lemma_zero_padded_value(second_of_day / 3600, 2);
    lemma_zero_padded_value((second_of_day % 3600) / 60, 2);
    lemma_zero_padded_value(second_of_day % 60, 2);
    assert(year.len() == 4 && month.len() == 2 && day.len() == 2 && hour.len() == 2
        && minute.len() == 2 && second.len() == 2);
    let t = rfc3339_text(seconds);
    assert(t == year + seq!['-'] + month + seq!['-'] + day + seq!['T'] + hour + seq![':']
        + minute + seq![':'] + second + seq!['Z']);
    assert(t.subrange(0, 4) =~= year);
    assert(t.subrange(5, 7) =~= month);
    assert(t.subrange(8, 10) =~= day);
    assert(t.subrange(11, 13) =~= hour);
    assert(t.subrange(14, 16) =~= minute);
    assert(t.subrange(17, 19) =~= second);
}

/// Formats a time, given as whole seconds since the Unix epoch, as an
/// RFC 3339 UTC instant.
pub fn rfc3339_utc(seconds: u64) -> (s: String)
    ensures
        s@ == rfc3339_text(seconds as nat),
{
    let days = (seconds / 86_400) as i64;
    let (year, month, day) = civil_from_days(days);
    proof {
        let ymd = civil_date(days as int);
        let w = (year as int, month as int, day as int);
        assert(is_valid_date(w.0, w.1, w.2) && days_from_civil(w.0, w.1, w.2) == days);
        lemma_civil_date_unique(ymd.0, ymd.1, ymd.2, w.0, w.1, w.2);
        lemma_date_within_year(w.0, w.1, w.2);
        if year < 1970 {
            lemma_days_before_year_monotone(w.0, 1970);
        }
    }
    let second_of_day = seconds % 86_400;
    let mut v: Vec<char> = Vec::new();
    push_zero_padded(&mut v, year as u64, 4);
    v.push('-');
    push_zero_padded(&mut v, month as u64, 2);
    v.push('-');
    push_zero_padded(&mut v, day as u64, 2);
    v.push('T');
    push_zero_padded(&mut v, second_of_day / 3600, 2);
    v.push(':');
    push_zero_padded(&mut v, (second_of_day % 3600) / 60, 2);
    v.push(':');
    push_zero_padded(&mut v, second_of_day % 60, 2);
    v.push('Z');
    let ghost date = civil_date((seconds / 86400) as int);
    assert(v@ =~= rfc3339_text(seconds as nat));
    string_of(&v)
}

} // verus!
