//! Calendar dates (proleptic Gregorian, as chrono's `NaiveDate`).
//!
//! A [`Date`] holds plain numbers; calendar arithmetic and parsing go
//! through chrono.

use vstd::prelude::*;

use chrono::Datelike;

use crate::text::{decimal, push_char, push_usize};

verus! {

/// Earliest year chrono's `NaiveDate` represents.
pub const MIN_YEAR: i32 = -262143;

/// Latest year chrono's `NaiveDate` represents.
pub const MAX_YEAR: i32 = 262142;

/// A calendar date.
#[derive(Debug, Clone, Copy, PartialEq, Eq, Structural, Hash)]
pub struct Date {
    pub year: i32,
    pub month: u32,
    pub day: u32,
}

pub open spec fn is_leap_year(y: int) -> bool {
    (y % 4 == 0 && y % 100 != 0) || y % 400 == 0
}

pub open spec fn days_in_month(y: int, m: int) -> int {
    if m == 2 {
        if is_leap_year(y) {
            29
        } else {
            28
        }
    } else if m == 4 || m == 6 || m == 9 || m == 11 {
        30
    } else {
        31
    }
}

/// `d` names a day of the calendar within chrono's range.
pub open spec fn valid_date(d: Date) -> bool {
    &&& MIN_YEAR <= d.year <= MAX_YEAR
    &&& 1 <= d.month <= 12
    &&& 1 <= d.day <= days_in_month(d.year as int, d.month as int)
}

/// `d` is chrono's first day, January 1 of [`MIN_YEAR`].
pub open spec fn is_first_day(d: Date) -> bool {
    d.year == MIN_YEAR && d.month == 1 && d.day == 1
}

/// `d` is chrono's last day, December 31 of [`MAX_YEAR`].
pub open spec fn is_last_day(d: Date) -> bool {
    d.year == MAX_YEAR && d.month == 12 && d.day == 31
}

/// `a` comes strictly before `b`.
pub open spec fn date_lt(a: Date, b: Date) -> bool {
    a.year < b.year || (a.year == b.year && (a.month < b.month || (a.month == b.month && a.day < b.day)))
}

/// `s` left-padded with `'0'` to at least `w` characters.
pub open spec fn zero_pad(s: Seq<char>, w: nat) -> Seq<char> {
    if s.len() >= w {
        s
    } else {
        Seq::new((w - s.len()) as nat, |i: int| '0') + s
    }
}

/// chrono's rendering of a date: `YYYY-MM-DD` for years `0..=9999`, with
/// an explicit sign and at least four digits for other years.
pub open spec fn date_text(d: Date) -> Seq<char> {
    let y = if 0 <= d.year <= 9999 {
        zero_pad(decimal(d.year as nat), 4)
    } else if d.year < 0 {
        seq!['-'] + zero_pad(decimal((-d.year) as nat), 4)
    } else {
        seq!['+'] + zero_pad(decimal(d.year as nat), 4)
    };
    y + seq!['-'] + zero_pad(decimal(d.month as nat), 2) + seq!['-'] + zero_pad(decimal(d.day as nat), 2)
}

pub open spec fn digit_value(c: char) -> int {
    c as int - '0' as int
}

/// `s` is ten characters `DDDD-DD-DD` of ASCII digits naming a valid date.
pub open spec fn is_iso_date_text(s: Seq<char>) -> bool {
    &&& s.len() == 10
    &&& forall|i: int| 0 <= i < 10 && i != 4 && i != 7 ==> crate::text::is_ascii_digit(#[trigger] s[i])
    &&& s[4] == '-' && s[7] == '-'
    &&& valid_date(iso_date_value(s))
}

/// The date written by ten characters `DDDD-DD-DD`.
pub open spec fn iso_date_value(s: Seq<char>) -> Date {
    Date {
        year: (digit_value(s[0]) * 1000 + digit_value(s[1]) * 100 + digit_value(s[2]) * 10 + digit_value(
            s[3],
        )) as i32,
        month: (digit_value(s[5]) * 10 + digit_value(s[6])) as u32,
        day: (digit_value(s[8]) * 10 + digit_value(s[9])) as u32,
    }
}

/// What `NaiveDate::parse_from_str(s, "%Y-%m-%d")` gives for `s`.
pub uninterp spec fn chrono_parse_date(s: Seq<char>) -> Option<Date>;

/// What `NaiveDate::checked_add_signed(d, TimeDelta::days(n))` gives.
pub uninterp spec fn chrono_add_days(d: Date, n: i64) -> Option<Date>;

/// `NaiveDate::parse_from_str(s, "%Y-%m-%d")`. The result is named by
/// [`chrono_parse_date`]; chrono only builds valid dates, and a zero-padded
/// `YYYY-MM-DD` of a valid date (its own rendering) parses back to that
/// date.
#[verifier::external_body]
pub fn parse_iso_date(s: &str) -> (r: Option<Date>)
    ensures
        r == chrono_parse_date(s@),
        r matches Some(d) ==> valid_date(d),
        is_iso_date_text(s@) ==> r == Some(iso_date_value(s@)),
{
    match chrono::NaiveDate::parse_from_str(s, "%Y-%m-%d") {
        Ok(d) => Some(Date { year: d.year(), month: d.month(), day: d.day() }),
        Err(_) => None,
    }
}

/// `NaiveDate::checked_add_signed(d, TimeDelta::days(n))`. The result is
/// named by [`chrono_add_days`]; it is a valid date, adding zero days gives
/// `d` back, and a day forward from any date but chrono's last (or back
/// from any but its first) stays in range. `n` is kept small enough for
/// `TimeDelta::days` not to panic.
#[verifier::external_body]
pub fn add_days(d: Date, n: i64) -> (r: Option<Date>)
    requires
        valid_date(d),
        -1_000_000_000 <= n <= 1_000_000_000,
    ensures
        r == chrono_add_days(d, n),
        r matches Some(x) ==> valid_date(x),
        n == 0 ==> r == Some(d),
        (n == 1 && !is_last_day(d)) ==> r is Some,
        (n == -1 && !is_first_day(d)) ==> r is Some,
{
    match chrono::NaiveDate::from_ymd_opt(d.year, d.month, d.day) {
        Some(nd) => match nd.checked_add_signed(chrono::TimeDelta::days(n)) {
            Some(x) => Some(Date { year: x.year(), month: x.month(), day: x.day() }),
            None => None,
        },
        None => None,
    }
}

/// What `NaiveDate::checked_add_days(d, Days::new(n))` gives.
pub uninterp spec fn chrono_add_days_forward(d: Date, n: u64) -> Option<Date>;

/// What `NaiveDate::checked_add_months(d, Months::new(n))` gives.
pub uninterp spec fn chrono_add_months(d: Date, n: u32) -> Option<Date>;

/// What `d.weekday().num_days_from_monday()` gives.
pub uninterp spec fn chrono_weekday(d: Date) -> u32;

/// What `a.signed_duration_since(b).num_days()` gives.
pub uninterp spec fn chrono_days_between(a: Date, b: Date) -> i64;

/// `NaiveDate::checked_add_days(d, Days::new(n))`. The result is named by
/// [`chrono_add_days_forward`]; it is a valid date when there is one, it
/// lies `n` days after `d`, and its weekday is `n` days on from `d`'s.
#[verifier::external_body]
pub fn add_days_forward(d: Date, n: u64) -> (r: Option<Date>)
    requires
        valid_date(d),
    ensures
        r == chrono_add_days_forward(d, n),
        r matches Some(x) ==> valid_date(x),
        r matches Some(x) ==> chrono_days_between(x, d) == n,
        r matches Some(x) ==> chrono_weekday(x) == (chrono_weekday(d) + n) % 7,
{
    match chrono::NaiveDate::from_ymd_opt(d.year, d.month, d.day) {
        Some(nd) => match nd.checked_add_days(chrono::Days::new(n)) {
            Some(x) => Some(Date { year: x.year(), month: x.month(), day: x.day() }),
            None => None,
        },
        None => None,
    }
}

/// `NaiveDate::checked_add_months(d, Months::new(n))`. The result is named
/// by [`chrono_add_months`]; it is a valid date when there is one, `n`
/// months after `d`'s month, on `d`'s day or on that month's last day
/// when the month is shorter.
#[verifier::external_body]
pub fn add_months(d: Date, n: u32) -> (r: Option<Date>)
    requires
        valid_date(d),
    ensures
        r == chrono_add_months(d, n),
        r matches Some(x) ==> valid_date(x),
        r matches Some(x) ==> x.year * 12 + x.month == d.year * 12 + d.month + n,
        r matches Some(x) ==> x.day == (if d.day <= days_in_month(x.year as int, x.month as int) {
            d.day as int
        } else {
            days_in_month(x.year as int, x.month as int)
        }),
{
    match chrono::NaiveDate::from_ymd_opt(d.year, d.month, d.day) {
        Some(nd) => match nd.checked_add_months(chrono::Months::new(n)) {
            Some(x) => Some(Date { year: x.year(), month: x.month(), day: x.day() }),
            None => None,
        },
        None => None,
    }
}

/// `d.weekday().num_days_from_monday()`: Monday is 0, Sunday 6. The result
/// is named by [`chrono_weekday`].
#[verifier::external_body]
pub fn weekday_from_monday(d: Date) -> (r: u32)
    requires
        valid_date(d),
    ensures
        r == chrono_weekday(d),
        r < 7,
{
    match chrono::NaiveDate::from_ymd_opt(d.year, d.month, d.day) {
        Some(nd) => nd.weekday().num_days_from_monday(),
        None => 0,
    }
}

/// `a.signed_duration_since(b).num_days()`. The result is named by
/// [`chrono_days_between`]; between two dates of chrono's range it stays
/// within the number of days that range spans.
#[verifier::external_body]
pub fn days_between(a: Date, b: Date) -> (r: i64)
    requires
        valid_date(a),
        valid_date(b),
    ensures
        r == chrono_days_between(a, b),
        -200_000_000 <= r <= 200_000_000,
{
    match (
        chrono::NaiveDate::from_ymd_opt(a.year, a.month, a.day),
        chrono::NaiveDate::from_ymd_opt(b.year, b.month, b.day),
    ) {
        (Some(x), Some(y)) => x.signed_duration_since(y).num_days(),
        _ => 0,
    }
}

fn push_padded(out: &mut String, n: u32, w: usize)
    requires
        w <= 4,
    ensures
        final(out)@ == old(out)@ + zero_pad(decimal(n as nat), w as nat),
{
    let mut digits = String::new();
    push_usize(&mut digits, n as usize);
    let dv = crate::text::to_chars(digits.as_str());
    let len = dv.len();
    if len < w {
        let mut k: usize = 0;
        while k < w - len
            invariant
                k <= w - len,
                len < w <= 4,
                out@ == old(out)@ + Seq::new(k as nat, |i: int| '0'),
            decreases w - len - k,
        {
            push_char(out, '0');
            proof {
                assert(old(out)@ + Seq::new(k as nat, |i: int| '0') + seq!['0'] =~= old(out)@ + Seq::new(
                    (k + 1) as nat,
                    |i: int| '0',
                ));
            }
            k += 1;
        }
    }
    crate::text::push_all(out, &dv);
    proof {
        assert(final(out)@ =~= old(out)@ + zero_pad(decimal(n as nat), w as nat));
    }
}

impl Date {
    /// The date `year-month-day`, or `None` when it is not a valid calendar
    /// date within chrono's range (as `NaiveDate::from_ymd_opt`).
    pub fn from_ymd_opt(year: i32, month: u32, day: u32) -> (r: Option<Date>)
        ensures
            match r {
                Some(d) => d == (Date { year, month, day }) && valid_date(d),
                None => !valid_date(Date { year, month, day }),
            },
    {
        if year < MIN_YEAR || year > MAX_YEAR || month < 1 || month > 12 || day < 1 {
            return None;
        }
        let leap = (year % 4 == 0 && year % 100 != 0) || year % 400 == 0;
        proof {
            assert(leap == is_leap_year(year as int)) by (nonlinear_arith)
                requires
                    leap == ((year % 4 == 0 && year % 100 != 0) || year % 400 == 0),
                    MIN_YEAR <= year <= MAX_YEAR,
            ;
        }
        let dim: u32 = if month == 2 {
            if leap {
                29
            } else {
                28
            }
        } else if month == 4 || month == 6 || month == 9 || month == 11 {
            30
        } else {
            31
        };
        if day > dim {
            None
        } else {
            Some(Date { year, month, day })
        }
    }

    /// `self` comes strictly before `other`.
    pub fn before(&self, other: &Date) -> (r: bool)
        ensures
            r == date_lt(*self, *other),
    {
        self.year < other.year || (self.year == other.year && (self.month < other.month || (self.month
            == other.month && self.day < other.day)))
    }

    /// chrono's rendering of the date (`2026-05-10`).
    pub fn to_string(&self) -> (r: String)
        ensures
            r@ == date_text(*self),
    {
        let mut s = String::new();
        if self.year >= 0 && self.year <= 9999 {
            push_padded(&mut s, self.year as u32, 4);
        } else if self.year < 0 {
            push_char(&mut s, '-');
            let a: u32 = (-(self.year as i64)) as u32;
            push_padded(&mut s, a, 4);
        } else {
            push_char(&mut s, '+');
            push_padded(&mut s, self.year as u32, 4);
        }
        push_char(&mut s, '-');
        push_padded(&mut s, self.month, 2);
        push_char(&mut s, '-');
        push_padded(&mut s, self.day, 2);
        proof {
            assert(s@ =~= date_text(*self));
        }
        s
    }
}

} // verus!
