//! The mathematical model of the calendar: a proleptic Gregorian calendar
//! restricted to the window in which every fourth year is a leap year,
//! anchored at the epoch 2001-01-01T00:00:00Z (Unix second 978307200).
//!
//! A civil date is modelled by its day index: the number of whole days
//! between the epoch day and the date. `days_from_civil` computes that
//! index from a `(year, month, day)` triple; the triple is recovered
//! uniquely from the index (`lemma_civil_date_unique`).

use vstd::prelude::*;
use vstd::arithmetic::div_mod::*;

verus! {

/// Unix second count of the epoch instant 2001-01-01T00:00:00Z.
pub const EPOCH: u64 = 978307200;

/// First calendar year of the supported window.
pub const EPOCH_YEAR: u64 = 2001;

pub const SECONDS_PER_DAY: u64 = 86400;

pub const SECONDS_PER_HOUR: u64 = 3600;

pub const SECONDS_PER_MINUTE: u64 = 60;

/// Exact day count of a 4-year span holding one leap year: 365 * 4 + 1.
pub const DAYS_PER_CYCLE: u64 = 1461;

pub const DAYS_PER_COMMON_YEAR: u64 = 365;

/// Unix second count of 10000-01-01T00:00:00 in this calendar: the
/// exclusive upper bound of the formatting window, inside which a year
/// always fits in four digits.
pub const TS_LIMIT: u64 = 253407484800;

/// Whether `year` has 366 days. Within the supported window the calendar
/// inserts a leap day every fourth year; the epoch year 2001 opens a
/// 4-year cycle whose last year is divisible by 4, so the divisibility
/// test agrees with the position-in-cycle rule the conversion uses.
pub open spec fn is_leap_year(year: int) -> bool {
    year % 4 == 0
}

pub open spec fn days_in_year(year: int) -> int {
    if is_leap_year(year) { 366 } else { 365 }
}

/// Days elapsed in a year before the first day of `month` (1-based).
/// `month == 13` yields the full length of the year.
pub open spec fn days_before_month(leap: bool, month: int) -> int {
    let common: int = if month <= 1 {
        0
    } else if month == 2 {
        31
    } else if month == 3 {
        59
    } else if month == 4 {
        90
    } else if month == 5 {
        120
    } else if month == 6 {
        151
    } else if month == 7 {
        181
    } else if month == 8 {
        212
    } else if month == 9 {
        243
    } else if month == 10 {
        273
    } else if month == 11 {
        304
    } else if month == 12 {
        334
    } else {
        365
    };
    if leap && month >= 3 {
        common + 1
    } else {
        common
    }
}

pub open spec fn days_in_month(year: int, month: int) -> int {
    days_before_month(is_leap_year(year), month + 1) - days_before_month(
        is_leap_year(year),
        month,
    )
}

/// Days between the epoch day and January 1 of `year`: 365 per elapsed
/// year plus one per elapsed leap year ((year - 1) / 4 - 500 counts the
/// multiples of 4 in 2001..year).
pub open spec fn days_before_year(year: int) -> int {
    365 * (year - 2001) + ((year - 1) / 4 - 500)
}

pub open spec fn valid_civil_date(year: int, month: int, day: int) -> bool {
    &&& 2001 <= year
    &&& 1 <= month <= 12
    &&& 1 <= day <= days_in_month(year, month)
}

/// Day index of a civil date: whole days between the epoch day and that date.
pub open spec fn days_from_civil(year: int, month: int, day: int) -> int {
    days_before_year(year) + days_before_month(is_leap_year(year), month) + (day - 1)
}

/// Whole days between the epoch and the instant `ts` of the Unix scale.
pub open spec fn epoch_days(ts: int) -> int {
    (ts - EPOCH) / (SECONDS_PER_DAY as int)
}

/// The civil date whose day index is `n`: unique when it exists, by
/// `lemma_civil_date_unique`; `lemma_civil_of_day_inverse` recovers
/// every valid date from its own index.
pub open spec fn civil_of_day(n: int) -> (int, int, int) {
    choose|year: int, month: int, day: int|
        valid_civil_date(year, month, day) && days_from_civil(year, month, day) == n
}

pub open spec fn hour_of(ts: int) -> int {
    (ts % (SECONDS_PER_DAY as int)) / (SECONDS_PER_HOUR as int)
}

pub open spec fn minute_of(ts: int) -> int {
    ((ts % (SECONDS_PER_DAY as int)) % (SECONDS_PER_HOUR as int)) / (SECONDS_PER_MINUTE as int)
}

pub open spec fn second_of(ts: int) -> int {
    ts % (SECONDS_PER_DAY as int) % (SECONDS_PER_MINUTE as int)
}

/// Consecutive years differ by exactly the length of the earlier year.
pub proof fn lemma_days_before_year_succ(year: int)
    requires
        2001 <= year,
    ensures
        days_before_year(year + 1) == days_before_year(year) + days_in_year(year),
{
    let q = year / 4;
    let r = year % 4;
    lemma_fundamental_div_mod(year, 4);
    if r == 0 {
        lemma_fundamental_div_mod_converse_div(year - 1, 4, q - 1, 3);
    } else {
        lemma_fundamental_div_mod_converse_div(year - 1, 4, q, r - 1);
    }
}

/// Later years start later; a strictly later year starts at least a full
/// year's worth of days later.
pub proof fn lemma_days_before_year_ordered(y1: int, y2: int)
    requires
        2001 <= y1 <= y2,
    ensures
        days_before_year(y1) <= days_before_year(y2),
        y1 < y2 ==> days_before_year(y1) + days_in_year(y1) <= days_before_year(y2),
{
    lemma_div_is_ordered(y1 - 1, y2 - 1, 4);
    if y1 < y2 {
        lemma_days_before_year_succ(y1);
        lemma_div_is_ordered(y1, y2 - 1, 4);
    }
}

/// The cumulative month table is monotone in the month.
pub proof fn lemma_days_before_month_ordered(leap: bool, m1: int, m2: int)
    requires
        1 <= m1 <= m2 <= 13,
    ensures
        days_before_month(leap, m1) <= days_before_month(leap, m2),
{
}

/// A valid date's day index falls inside its own year.
pub proof fn lemma_day_index_within_year(year: int, month: int, day: int)
    requires
        valid_civil_date(year, month, day),
    ensures
        days_before_year(year) <= days_from_civil(year, month, day) < days_before_year(year)
            + days_in_year(year),
{
    let leap = is_leap_year(year);
    lemma_days_before_month_ordered(leap, 1, month);
    lemma_days_before_month_ordered(leap, month + 1, 13);
}

/// Two valid dates with the same day index are the same date.
pub proof fn lemma_civil_date_unique(y1: int, m1: int, d1: int, y2: int, m2: int, d2: int)
    requires
        valid_civil_date(y1, m1, d1),
        valid_civil_date(y2, m2, d2),
        days_from_civil(y1, m1, d1) == days_from_civil(y2, m2, d2),
    ensures
        y1 == y2,
        m1 == m2,
        d1 == d2,
{
    lemma_day_index_within_year(y1, m1, d1);
    lemma_day_index_within_year(y2, m2, d2);
    if y1 < y2 {
        lemma_days_before_year_ordered(y1, y2);
    }
    if y2 < y1 {
        lemma_days_before_year_ordered(y2, y1);
    }
    let leap = is_leap_year(y1);
    if m1 < m2 {
        lemma_days_before_month_ordered(leap, m1 + 1, m2);
    }
    if m2 < m1 {
        lemma_days_before_month_ordered(leap, m2 + 1, m1);
    }
}

/// A civil date is recovered from its own day index.
pub proof fn lemma_civil_of_day_inverse(year: int, month: int, day: int)
    requires
        valid_civil_date(year, month, day),
    ensures
        civil_of_day(days_from_civil(year, month, day)) == (year, month, day),
{
    let n = days_from_civil(year, month, day);
    assert(exists|y: int, m: int, d: int| valid_civil_date(y, m, d) && days_from_civil(y, m, d) == n)
        by {
        assert(valid_civil_date(year, month, day) && days_from_civil(year, month, day) == n);
    }
    let (y2, m2, d2) = civil_of_day(n);
    assert(valid_civil_date(y2, m2, d2) && days_from_civil(y2, m2, d2) == n);
    lemma_civil_date_unique(year, month, day, y2, m2, d2);
}

/// The day after the last day of a month is the first day of the next
/// month, December rolling over to January of the following year.
pub proof fn lemma_month_boundary(year: int, month: int)
    requires
        2001 <= year,
        1 <= month <= 12,
    ensures
        valid_civil_date(year, month, days_in_month(year, month)),
        month < 12 ==> valid_civil_date(year, month + 1, 1) && days_from_civil(
            year,
            month,
            days_in_month(year, month),
        ) + 1 == days_from_civil(year, month + 1, 1),
        month == 12 ==> valid_civil_date(year + 1, 1, 1) && days_from_civil(
            year,
            12,
            days_in_month(year, 12),
        ) + 1 == days_from_civil(year + 1, 1, 1),
{
    if month == 12 {
        lemma_days_before_year_succ(year);
    }
}

/// The last day of each 4-year cycle is December 31 of the cycle's leap
/// year: day index `1461 * c + 1460` belongs to December 31 of year
/// `2004 + 4 * c`, never to a fifth year or a thirteenth month.
pub proof fn lemma_cycle_end(c: int)
    requires
        0 <= c,
    ensures
        valid_civil_date(2004 + 4 * c, 12, 31),
        days_from_civil(2004 + 4 * c, 12, 31) == 1461 * c + 1460,
{
    lemma_fundamental_div_mod_converse(2003 + 4 * c, 4, 500 + c, 3);
    lemma_fundamental_div_mod_converse(2004 + 4 * c, 4, 501 + c, 0);
}

/// Round trip: rebuilding a second count from the derived calendar
/// fields gives back the original timestamp exactly — the civil date
/// contributes the whole days since the epoch, the clock fields the
/// sub-day remainder.
pub proof fn lemma_round_trip(ts: int, year: int, month: int, day: int)
    requires
        EPOCH <= ts,
        valid_civil_date(year, month, day),
        days_from_civil(year, month, day) == epoch_days(ts),
    ensures
        EPOCH + 86400 * days_from_civil(year, month, day) + 3600 * hour_of(ts) + 60 * minute_of(
            ts,
        ) + second_of(ts) == ts,
{
    let e = ts - EPOCH;
    lemma_fundamental_div_mod(e, 86400);
    lemma_mod_multiples_vanish(11323, e, 86400);
    let sod = ts % 86400;
    lemma_fundamental_div_mod(sod, 3600);
    lemma_fundamental_div_mod(sod % 3600, 60);
    lemma_mod_multiples_vanish(60 * (sod / 3600), sod % 3600, 60);
}

/// Below `TS_LIMIT` the derived year has at most four digits.
pub proof fn lemma_year_within_format_window(ts: int, year: int, month: int, day: int)
    requires
        EPOCH <= ts < TS_LIMIT,
        valid_civil_date(year, month, day),
        days_from_civil(year, month, day) == epoch_days(ts),
    ensures
        year <= 9999,
{
    lemma_div_is_ordered(ts - EPOCH, 252429177599, 86400);
    lemma_fundamental_div_mod_converse(252429177599, 86400, 2921633, 86399);
    lemma_fundamental_div_mod_converse(9999, 4, 2499, 3);
    lemma_day_index_within_year(year, month, day);
    if year >= 10000 {
        lemma_days_before_year_ordered(10000, year);
    }
}

/// At a day boundary the clock reads midnight; one second earlier it
/// reads 23:59:59, and the day index is one less.
pub proof fn lemma_day_rollover(ts: int)
    requires
        EPOCH < ts,
        ts % 86400 == 0,
    ensures
        hour_of(ts) == 0 && minute_of(ts) == 0 && second_of(ts) == 0,
        hour_of(ts - 1) == 23 && minute_of(ts - 1) == 59 && second_of(ts - 1) == 59,
        epoch_days(ts - 1) == epoch_days(ts) - 1,
{
    let k = ts / 86400;
    lemma_fundamental_div_mod(ts, 86400);
    lemma_fundamental_div_mod_converse(ts - 1, 86400, k - 1, 86399);
    lemma_fundamental_div_mod_converse(ts - EPOCH, 86400, k - 11323, 0);
    lemma_fundamental_div_mod_converse(ts - 1 - EPOCH, 86400, k - 11324, 86399);
}

} // verus!
