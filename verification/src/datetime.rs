//! The `Datetime` value: an immutable wrapper around a second count on
//! the Unix time scale, with queries for the civil date, the time of day
//! and the ISO-8601 rendering.

use vstd::prelude::*;
use vstd::arithmetic::div_mod::{
    lemma_fundamental_div_mod, lemma_fundamental_div_mod_converse, lemma_div_nonincreasing,
    lemma_mod_multiples_vanish, lemma_multiply_divide_lt,
};
use vstd::string::StringExecFns;
use crate::calendar::{
    civil_of_day, days_before_month, days_from_civil, epoch_days, hour_of,
    lemma_civil_of_day_inverse, lemma_cycle_end, lemma_year_within_format_window, minute_of,
    second_of, valid_civil_date, DAYS_PER_COMMON_YEAR, DAYS_PER_CYCLE, EPOCH, EPOCH_YEAR,
    SECONDS_PER_DAY, SECONDS_PER_HOUR, SECONDS_PER_MINUTE, TS_LIMIT,
};

verus! {

/// The character of one decimal digit.
pub open spec fn digit_char(d: int) -> char {
    if d == 0 {
        '0'
    } else if d == 1 {
        '1'
    } else if d == 2 {
        '2'
    } else if d == 3 {
        '3'
    } else if d == 4 {
        '4'
    } else if d == 5 {
        '5'
    } else if d == 6 {
        '6'
    } else if d == 7 {
        '7'
    } else if d == 8 {
        '8'
    } else {
        '9'
    }
}

/// `n` in decimal, zero-padded to exactly two digits.
pub open spec fn two_digits(n: int) -> Seq<char> {
    seq![digit_char(n / 10), digit_char(n % 10)]
}

/// `n` in decimal, zero-padded to exactly four digits.
pub open spec fn four_digits(n: int) -> Seq<char> {
    seq![
        digit_char(n / 1000),
        digit_char(n / 100 % 10),
        digit_char(n / 10 % 10),
        digit_char(n % 10),
    ]
}

/// The two recognized spellings of the fixed UTC suffix; `Z` is the
/// default that `format_iso8601` uses.
#[derive(Debug, Clone, Copy, PartialEq, Eq, Structural)]
pub enum UtcSuffixStyle {
    Z,
    Offset,
}

pub open spec fn suffix_chars(style: UtcSuffixStyle) -> Seq<char> {
    match style {
        UtcSuffixStyle::Z => seq!['Z'],
        UtcSuffixStyle::Offset => seq!['+', '0', '0', ':', '0', '0'],
    }
}

/// The rendering `YYYY-MM-DDTHH:MM:SS` without a suffix: fixed field
/// widths 4/2/2/2/2/2 and literal separators.
pub open spec fn iso8601_body(
    year: int,
    month: int,
    day: int,
    hour: int,
    minute: int,
    second: int,
) -> Seq<char> {
    four_digits(year) + seq!['-'] + two_digits(month) + seq!['-'] + two_digits(day) + seq!['T']
        + two_digits(hour) + seq![':'] + two_digits(minute) + seq![':'] + two_digits(second)
}

/// The canonical rendering: the body followed by the fixed suffix `Z`.
pub open spec fn iso8601_chars(
    year: int,
    month: int,
    day: int,
    hour: int,
    minute: int,
    second: int,
) -> Seq<char> {
    iso8601_body(year, month, day, hour, minute, second) + seq!['Z']
}

/// One decimal digit as a string slice.
fn digit_str(d: u64) -> (r: &'static str)
    requires
        d < 10,
    ensures
        r@ =~= seq![digit_char(d as int)],
{
    proof {
        reveal_strlit("0");
        reveal_strlit("1");
        reveal_strlit("2");
        reveal_strlit("3");
        reveal_strlit("4");
        reveal_strlit("5");
        reveal_strlit("6");
        reveal_strlit("7");
        reveal_strlit("8");
        reveal_strlit("9");
    }
    match d {
        0 => "0",
        1 => "1",
        2 => "2",
        3 => "3",
        4 => "4",
        5 => "5",
        6 => "6",
        7 => "7",
        8 => "8",
        _ => "9",
    }
}

/// Appends `n` zero-padded to two decimal digits.
fn push_two_digits(s: &mut String, n: u64)
    requires
        n < 100,
    ensures
        final(s)@ == old(s)@ + two_digits(n as int),
{
    s.append(digit_str(n / 10));
    s.append(digit_str(n % 10));
    proof {
        lemma_multiply_divide_lt(n as int, 10, 10);
        assert(s@ =~= old(s)@ + two_digits(n as int));
    }
}

/// Appends `n` zero-padded to four decimal digits.
fn push_four_digits(s: &mut String, n: u64)
    requires
        n < 10000,
    ensures
        final(s)@ == old(s)@ + four_digits(n as int),
{
    s.append(digit_str(n / 1000));
    s.append(digit_str(n / 100 % 10));
    s.append(digit_str(n / 10 % 10));
    s.append(digit_str(n % 10));
    proof {
        lemma_multiply_divide_lt(n as int, 1000, 10);
        assert(s@ =~= old(s)@ + four_digits(n as int));
    }
}

/// Days elapsed in a year before the first day of `month`; the
/// executable twin of `days_before_month`.
fn month_offset(leap: bool, month: u64) -> (r: u64)
    requires
        1 <= month <= 13,
    ensures
        r == days_before_month(leap, month as int),
{
    let common: u64 = if month <= 1 {
        0
    } else if month == 2 {
        31
    } else if month == 3 {
        59
    } else if month == 4 {
        90
    } else if month == 5 {
        120
    } else if month == 6 {
        151
    } else if month == 7 {
        181
    } else if month == 8 {
        212
    } else if month == 9 {
        243
    } else if month == 10 {
        273
    } else if month == 11 {
        304
    } else if month == 12 {
        334
    } else {
        365
    };
    if leap && month >= 3 {
        common + 1
    } else {
        common
    }
}

/// An instant, held as whole seconds since the Unix epoch. The calendar
/// queries are defined for instants at or after `EPOCH`
/// (2001-01-01T00:00:00Z).
#[derive(Debug, Clone, Copy)]
pub struct Datetime {
    timestamp: u64,
}

impl View for Datetime {
    type V = u64;

    closed spec fn view(&self) -> u64 {
        self.timestamp
    }
}

impl Datetime {
    pub fn new(timestamp: u64) -> (r: Self)
        ensures
            r@ == timestamp,
    {
        Self { timestamp }
    }

    /// The raw second count this instant was built from.
    pub fn timestamp(&self) -> (r: u64)
        ensures
            r == self@,
    {
        self.timestamp
    }

    /// The Gregorian civil date `(year, month, day)` of the instant:
    /// the unique valid date whose day index equals the whole days
    /// elapsed between the epoch and this timestamp.
    pub fn date(&self) -> (r: (u64, u64, u64))
        requires
            EPOCH <= self@,
        ensures
            valid_civil_date(r.0 as int, r.1 as int, r.2 as int),
            days_from_civil(r.0 as int, r.1 as int, r.2 as int) == epoch_days(self@ as int),
            (r.0 as int, r.1 as int, r.2 as int) == civil_of_day(epoch_days(self@ as int)),
    {
        let elapsed = self.timestamp - EPOCH;
        let days = elapsed / SECONDS_PER_DAY;
        let cycles = days / DAYS_PER_CYCLE;
        let day_in_cycle = days % DAYS_PER_CYCLE;
        proof {
            lemma_div_nonincreasing(elapsed as int, 86400);
            lemma_fundamental_div_mod(days as int, 1461);
        }
        // The 366th day of the cycle's leap year cannot be reached by the
        // per-year division below, which gives each of the first three
        // years exactly 365 days: the cycle's last day is special-cased.
        if day_in_cycle == DAYS_PER_CYCLE - 1 {
            let year = EPOCH_YEAR + 3 + cycles * 4;
            proof {
                lemma_cycle_end(cycles as int);
                lemma_civil_of_day_inverse(year as int, 12, 31);
            }
            return (year, 12, 31);
        }
        let year_in_cycle = day_in_cycle / DAYS_PER_COMMON_YEAR;
        let day_of_year = day_in_cycle % DAYS_PER_COMMON_YEAR;
        proof {
            lemma_fundamental_div_mod(day_in_cycle as int, 365);
            lemma_multiply_divide_lt(day_in_cycle as int, 365, 4);
        }
        let year = EPOCH_YEAR + cycles * 4 + year_in_cycle;
        let leap = year_in_cycle == 3;
        proof {
            let c = cycles as int;
            let q = year_in_cycle as int;
            lemma_fundamental_div_mod_converse(year as int - 1, 4, 500 + c, q);
            if q == 3 {
                lemma_fundamental_div_mod_converse(year as int, 4, 501 + c, 0);
            } else {
                lemma_fundamental_div_mod_converse(year as int, 4, 500 + c, q + 1);
            }
        }
        let mut month: u64 = 1;
        while month < 12 && month_offset(leap, month + 1) <= day_of_year
            invariant
                1 <= month <= 12,
                day_of_year < 365,
                days_before_month(leap, month as int) <= day_of_year,
            decreases 12 - month,
        {
            month = month + 1;
        }
        let month_start = month_offset(leap, month);
        let day = day_of_year - month_start + 1;
        proof {
            lemma_civil_of_day_inverse(year as int, month as int, day as int);
        }
        (year, month, day)
    }

    /// The civil date, or `None` for a timestamp before the epoch: the
    /// explicit form of the domain check, rejecting every pre-epoch
    /// value instead of interpreting it.
    pub fn try_date(&self) -> (r: Option<(u64, u64, u64)>)
        ensures
            r is Some <==> EPOCH <= self@,
            r matches Some(t) ==> {
                &&& valid_civil_date(t.0 as int, t.1 as int, t.2 as int)
                &&& days_from_civil(t.0 as int, t.1 as int, t.2 as int) == epoch_days(
                    self@ as int,
                )
                &&& (t.0 as int, t.1 as int, t.2 as int) == civil_of_day(epoch_days(self@ as int))
            },
    {
        if self.timestamp >= EPOCH {
            Some(self.date())
        } else {
            None
        }
    }

    /// The time of day: hours, minutes and seconds of the sub-day
    /// remainder of the timestamp. Total over all timestamps and
    /// independent of the date computation.
    pub fn time(&self) -> (r: (u64, u64, u64))
        ensures
            r.0 == hour_of(self@ as int),
            r.1 == minute_of(self@ as int),
            r.2 == second_of(self@ as int),
            r.0 < 24,
            r.1 < 60,
            r.2 < 60,
    {
        let secs = self.timestamp % SECONDS_PER_DAY;
        let hour = secs / SECONDS_PER_HOUR;
        let rest = secs % SECONDS_PER_HOUR;
        let min = rest / SECONDS_PER_MINUTE;
        let sec = rest % SECONDS_PER_MINUTE;
        proof {
            let sod = self.timestamp as int % 86400;
            lemma_fundamental_div_mod(sod, 3600);
            lemma_mod_multiples_vanish(60 * (sod / 3600), sod % 3600, 60);
            lemma_multiply_divide_lt(sod, 3600, 24);
            lemma_multiply_divide_lt(sod % 3600, 60, 60);
        }
        (hour, min, sec)
    }

    /// Renders the instant as `YYYY-MM-DDTHH:MM:SS` followed by the UTC
    /// suffix in the chosen spelling, every field zero-padded to its
    /// fixed width. The timestamp must lie in the formatting window,
    /// where the year has at most four digits, so padding never
    /// truncates.
    pub fn format_iso8601_with_style(&self, style: UtcSuffixStyle) -> (r: String)
        requires
            EPOCH <= self@,
            self@ < TS_LIMIT,
        ensures
            ({
                let (y, mo, d) = civil_of_day(epoch_days(self@ as int));
                r@ == iso8601_body(
                    y,
                    mo,
                    d,
                    hour_of(self@ as int),
                    minute_of(self@ as int),
                    second_of(self@ as int),
                ) + suffix_chars(style)
            }),
    {
        let (year, month, day) = self.date();
        let (hour, min, sec) = self.time();
        proof {
            lemma_year_within_format_window(
                self@ as int,
                year as int,
                month as int,
                day as int,
            );
        }
        let mut s = String::new();
        push_four_digits(&mut s, year);
        s.append("-");
        push_two_digits(&mut s, month);
        s.append("-");
        push_two_digits(&mut s, day);
        s.append("T");
        push_two_digits(&mut s, hour);
        s.append(":");
        push_two_digits(&mut s, min);
        s.append(":");
        push_two_digits(&mut s, sec);
        match style {
            UtcSuffixStyle::Z => s.append("Z"),
            UtcSuffixStyle::Offset => s.append("+00:00"),
        }
        proof {
            reveal_strlit("-");
            reveal_strlit("T");
            reveal_strlit(":");
            reveal_strlit("Z");
            reveal_strlit("+00:00");
            assert(s@ =~= iso8601_body(
                year as int,
                month as int,
                day as int,
                hour as int,
                min as int,
                sec as int,
            ) + suffix_chars(style));
        }
        s
    }

    /// The canonical rendering, with the default suffix spelling `Z`.
    pub fn format_iso8601(&self) -> (r: String)
        requires
            EPOCH <= self@,
            self@ < TS_LIMIT,
        ensures
            ({
                let (y, mo, d) = civil_of_day(epoch_days(self@ as int));
                r@ == iso8601_chars(
                    y,
                    mo,
                    d,
                    hour_of(self@ as int),
                    minute_of(self@ as int),
                    second_of(self@ as int),
                )
            }),
    {
        self.format_iso8601_with_style(UtcSuffixStyle::Z)
    }
}

} // verus!
