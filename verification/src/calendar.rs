//! Days and dates: the proleptic Gregorian calendar, counted from 1970-01-01, and the UTC stamp
//! a session record carries.

use vstd::prelude::*;
use crate::text::{padded, push_char, push_padded};
use std::time::{Duration, SystemTime};

verus! {

pub open spec fn is_leap(y: int) -> bool {
    (y % 4 == 0 && y % 100 != 0) || y % 400 == 0
}

pub open spec fn year_days(y: int) -> int {
    if is_leap(y) { 366 } else { 365 }
}

/// Days in month `m` (1 to 12) of year `y`.
pub open spec fn month_days(y: int, m: int) -> int {
    if m == 2 {
        if is_leap(y) { 29 } else { 28 }
    } else if m == 4 || m == 6 || m == 9 || m == 11 {
        30
    } else {
        31
    }
}

/// Days from 1970-01-01 to the first of January of `y`.
pub open spec fn year_start(y: int) -> int
    decreases (if y >= 1970 { y - 1970 } else { 1970 - y }),
{
    if y == 1970 {
        0
    } else if y > 1970 {
        year_start(y - 1) + year_days(y - 1)
    } else {
        year_start(y + 1) - year_days(y)
    }
}

/// Days from the first of January of `y` to the first of month `m`.
pub open spec fn month_start(y: int, m: int) -> int
    decreases m,
{
    if m <= 1 {
        0
    } else {
        month_start(y, m - 1) + month_days(y, m - 1)
    }
}

/// The day number of `y`-`m`-`d`, counting 1970-01-01 as day 0.
pub open spec fn day_number(y: int, m: int, d: int) -> int {
    year_start(y) + month_start(y, m) + d - 1
}

/// Leap years before `y`, give or take a constant.
pub open spec fn leaps(y: int) -> int {
    (y - 1) / 4 - (y - 1) / 100 + (y - 1) / 400
}

/// A year adds one leap year to the count exactly when it is one.
proof fn lemma_leaps_step(y: int)
    ensures
        leaps(y + 1) - leaps(y) == if is_leap(y) { 1int } else { 0int },
{
    assert(y / 4 - (y - 1) / 4 == if y % 4 == 0 { 1int } else { 0int });
    assert(y / 100 - (y - 1) / 100 == if y % 100 == 0 { 1int } else { 0int });
    assert(y / 400 - (y - 1) / 400 == if y % 400 == 0 { 1int } else { 0int });
}

/// The days to a year's start, counted out.
proof fn lemma_year_start(y: int)
    ensures
        year_start(y) == 365 * (y - 1970) + leaps(y) - leaps(1970),
    decreases (if y >= 1970 { y - 1970 } else { 1970 - y }),
{
    if y > 1970 {
        lemma_year_start(y - 1);
        lemma_leaps_step(y - 1);
    } else if y < 1970 {
        lemma_year_start(y + 1);
        lemma_leaps_step(y);
    }
}

/// Four hundred years are always the same number of days.
proof fn lemma_four_centuries(y: int)
    ensures
        year_start(y + 400) == year_start(y) + 146097,
{
    lemma_year_start(y);
    lemma_year_start(y + 400);
    assert((y + 399) / 4 == (y - 1) / 4 + 100);
    assert((y + 399) / 100 == (y - 1) / 100 + 4);
    assert((y + 399) / 400 == (y - 1) / 400 + 1);
    assert(leaps(y + 400) == leaps(y) + 97);
}

/// The start of the year `400 * q` years after 1970.
proof fn lemma_eras(q: int)
    ensures
        year_start(1970 + 400 * q) == 146097 * q,
    decreases (if q >= 0 { q } else { -q }),
{
    if q > 0 {
        lemma_eras(q - 1);
        lemma_four_centuries(1970 + 400 * (q - 1));
    } else if q < 0 {
        lemma_eras(q + 1);
        lemma_four_centuries(1970 + 400 * q);
    }
}

/// A year's months add up to the year.
proof fn lemma_months(y: int)
    ensures
        month_start(y, 13) == year_days(y),
{
    reveal_with_fuel(month_start, 13);
}

/// The date of day number `days`, counting 1970-01-01 as day 0: the year, the month from 1 to 12
/// and the day of the month from 1.
pub fn civil(days: i64) -> (r: (i64, u32, u32))
    requires
        -200_000_000_000_000 <= days <= 200_000_000_000_000,
    ensures
        1 <= r.1 <= 12,
        1 <= r.2 <= month_days(r.0 as int, r.1 as int),
        day_number(r.0 as int, r.1 as int, r.2 as int) == days,
{
    let mut q = days / 146097;
    let mut rest = days % 146097;
    if rest < 0 {
        q -= 1;
        rest += 146097;
    }
    assert(q * 146097 + rest == days);
    let mut year: i64 = 1970 + 400 * q;
    proof {
        lemma_eras(q as int);
    }
    let ghost first = year;
    let mut length: i64 = if is_leap_year(year) { 366 } else { 365 };
    while rest >= length
        invariant
            0 <= rest < 146097,
            first <= year <= first + 400,
            first == 1970 + 400 * q,
            -1_000_000_000_000 <= first <= 1_000_000_000_000,
            length == year_days(year as int),
            year_start(year as int) + rest == days,
            year_start(year as int) - year_start(first as int) + rest < 146097,
        decreases 146097 - (year_start(year as int) - year_start(first as int)),
    {
        proof {
            lemma_four_centuries(first as int);
            if year == first + 400 {
                assert(false);
            }
        }
        rest -= length;
        year += 1;
        length = if is_leap_year(year) { 366 } else { 365 };
    }
    let mut month: u32 = 1;
    proof {
        lemma_months(year as int);
    }
    while rest >= month_length(year, month) as i64
        invariant
            1 <= month <= 12,
            0 <= rest,
            rest + month_start(year as int, month as int) < year_days(year as int),
            year_start(year as int) + month_start(year as int, month as int) + rest == days,
            month_start(year as int, 13) == year_days(year as int),
        decreases 13 - month,
    {
        proof {
            if month == 12 {
                assert(month_start(year as int, 13) == month_start(year as int, 12) + month_days(year as int, 12));
            }
        }
        rest -= month_length(year, month) as i64;
        month += 1;
    }
    (year, month, (rest + 1) as u32)
}

fn is_leap_year(y: i64) -> (r: bool)
    ensures
        r == is_leap(y as int),
{
    (y % 4 == 0 && y % 100 != 0) || y % 400 == 0
}

fn month_length(y: i64, m: u32) -> (r: u32)
    ensures
        r == month_days(y as int, m as int),
{
    if m == 2 {
        if is_leap_year(y) { 29 } else { 28 }
    } else if m == 4 || m == 6 || m == 9 || m == 11 {
        30
    } else {
        31
    }
}

/// Whether `y`-`m`-`d` is a day of the calendar.
pub open spec fn is_date(y: int, m: int, d: int) -> bool {
    1 <= m <= 12 && 1 <= d <= month_days(y, m)
}

/// The date of day number `days`: the one date whose day number it is.
pub open spec fn date_of(days: int) -> (int, int, int) {
    choose|t: (int, int, int)| is_date(t.0, t.1, t.2) && day_number(t.0, t.1, t.2) == days
}

/// One year after another starts a year's length later.
proof fn lemma_next_year(y: int)
    ensures
        year_start(y + 1) == year_start(y) + year_days(y),
{
    lemma_year_start(y);
    lemma_year_start(y + 1);
    lemma_leaps_step(y);
}

/// A later year starts after an earlier one has ended.
proof fn lemma_years_ordered(a: int, b: int)
    requires
        a < b,
    ensures
        year_start(a) + year_days(a) <= year_start(b),
    decreases b - a,
{
    lemma_next_year(a);
    if a + 1 < b {
        lemma_years_ordered(a + 1, b);
        lemma_next_year(a + 1);
    }
}

/// Each month starts where the one before it ends, and the last one ends with the year.
proof fn lemma_month_steps(y: int)
    ensures
        forall|m: int| 1 <= m <= 12 ==> #[trigger] month_start(y, m + 1) == month_start(y, m) + month_days(y, m),
        month_start(y, 1) == 0,
        month_start(y, 13) == year_days(y),
{
    reveal_with_fuel(month_start, 13);
}

/// No month starts before the year does.
proof fn lemma_month_start_grows(y: int, m: int)
    ensures
        0 <= month_start(y, m),
    decreases m,
{
    if m > 1 {
        lemma_month_start_grows(y, m - 1);
    }
}

/// A month starts after the months before it have ended, and no later than the year's end.
proof fn lemma_months_ordered(y: int, a: int, b: int)
    requires
        1 <= a < b <= 13,
    ensures
        0 <= month_start(y, a),
        month_start(y, a) + month_days(y, a) <= month_start(y, b),
        month_start(y, b) <= year_days(y),
    decreases 13 - a,
{
    lemma_month_steps(y);
    assert(month_start(y, a + 1) == month_start(y, a) + month_days(y, a));
    lemma_month_start_grows(y, a);
    if a + 1 < b {
        lemma_months_ordered(y, a + 1, b);
    } else if b < 13 {
        lemma_months_ordered(y, b, 13);
    }
}

/// A day of the calendar falls within its year.
proof fn lemma_within_year(y: int, m: int, d: int)
    requires
        is_date(y, m, d),
    ensures
        year_start(y) <= day_number(y, m, d) < year_start(y) + year_days(y),
{
    lemma_months_ordered(y, m, 13);
}

/// Two dates with the same day number are the same date.
pub proof fn law_a_day_has_one_date(a: (int, int, int), b: (int, int, int))
    requires
        is_date(a.0, a.1, a.2),
        is_date(b.0, b.1, b.2),
        day_number(a.0, a.1, a.2) == day_number(b.0, b.1, b.2),
    ensures
        a == b,
{
    lemma_within_year(a.0, a.1, a.2);
    lemma_within_year(b.0, b.1, b.2);
    if a.0 < b.0 {
        lemma_years_ordered(a.0, b.0);
    } else if b.0 < a.0 {
        lemma_years_ordered(b.0, a.0);
    }
    assert(a.0 == b.0);
    if a.1 < b.1 {
        lemma_months_ordered(a.0, a.1, b.1);
    } else if b.1 < a.1 {
        lemma_months_ordered(a.0, b.1, a.1);
    }
}

/// The date `civil` finds is the date of the day.
proof fn lemma_date_of(days: int, y: int, m: int, d: int)
    requires
        is_date(y, m, d),
        day_number(y, m, d) == days,
    ensures
        date_of(days) == (y, m, d),
{
    let w = (y, m, d);
    assert(is_date(w.0, w.1, w.2) && day_number(w.0, w.1, w.2) == days);
    let t = date_of(days);
    assert(is_date(t.0, t.1, t.2) && day_number(t.0, t.1, t.2) == days);
    law_a_day_has_one_date(t, (y, m, d));
}

/// `secs` seconds after the epoch as `YYYY-MM-DDTHH:MM:SSZ`, in UTC.
pub open spec fn stamp_text(secs: int) -> Seq<char> {
    let days = secs / 86400;
    let rest = secs % 86400;
    let date = date_of(days);
    padded(date.0, 4) + seq!['-'] + padded(date.1, 2) + seq!['-'] + padded(date.2, 2) + seq!['T']
        + padded(rest / 3600, 2) + seq![':'] + padded(rest % 3600 / 60, 2) + seq![':']
        + padded(rest % 60, 2) + seq!['Z']
}

/// `secs` seconds after the epoch as `YYYY-MM-DDTHH:MM:SSZ`, in UTC.
pub fn stamp(secs: i64) -> (r: String)
    ensures
        r@ == stamp_text(secs as int),
{
    let mut days = secs / 86_400;
    let mut rest = secs % 86_400;
    if rest < 0 {
        days -= 1;
        rest += 86_400;
    }
    assert(days == secs as int / 86400 && rest == secs as int % 86400);
    let (year, month, day) = civil(days);
    proof {
        lemma_date_of(days as int, year as int, month as int, day as int);
    }
    let mut r = String::new();
    push_padded(&mut r, year, 4);
    push_char(&mut r, '-');
    push_padded(&mut r, month as i64, 2);
    push_char(&mut r, '-');
    push_padded(&mut r, day as i64, 2);
    push_char(&mut r, 'T');
    push_padded(&mut r, rest / 3600, 2);
    push_char(&mut r, ':');
    push_padded(&mut r, (rest % 3600) / 60, 2);
    push_char(&mut r, ':');
    push_padded(&mut r, rest % 60, 2);
    push_char(&mut r, 'Z');
    assert(r@ =~= stamp_text(secs as int));
    r
}

/// Seconds since the epoch by the system clock; a clock set before the epoch reads 0.
pub fn seconds_now() -> i64 {
    let now = system_now();
    match since_epoch(&now) {
        Some(elapsed) => whole_seconds(&elapsed) as i64,
        None => 0,
    }
}

#[verifier::external_type_specification]
#[verifier::external_body]
pub struct ExSystemTime(SystemTime);

/// `SystemTime::now`: the clock as it reads, of which nothing is promised.
#[verifier::external_body]
fn system_now() -> SystemTime {
    SystemTime::now()
}

/// `SystemTime::duration_since` from the epoch; `None` where the time is before it.
#[verifier::external_body]
fn since_epoch(time: &SystemTime) -> Option<Duration> {
    match time.duration_since(std::time::UNIX_EPOCH) {
        Ok(elapsed) => Some(elapsed),
        Err(_) => None,
    }
}

/// `Duration::as_secs`: the whole seconds of a span, of which nothing here needs more.
#[verifier::external_body]
fn whole_seconds(span: &Duration) -> u64 {
    span.as_secs()
}

} // verus!
