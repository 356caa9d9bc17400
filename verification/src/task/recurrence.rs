//! Recurrence rules of the supported subset.
//!
//! Patterns (case-insensitive):
//! - `every day` / `every N day[s]`
//! - `every week` / `every N week[s]` / `every week on <weekday>`
//! - `every month` / `every N month[s]` / `every month on the Nth`
//!
//! Anything else is [`RecurrenceError::Unsupported`], naming the offending
//! text. A rule moves a task's primary date (due, else scheduled, else
//! start); its other dates move by the same number of days.

use vstd::prelude::*;

use crate::date::{
    add_days, add_days_forward, add_months, chrono_add_days, chrono_add_days_forward, chrono_add_months,
    chrono_days_between, chrono_weekday, days_between, days_in_month, valid_date, weekday_from_monday,
    Date, MAX_YEAR,
};
use crate::task::Task;
use crate::text::{
    ends_with, join_spaces, lower, lower_vec, parse_unsigned, parse_unsigned_exec, push_str, slice_vec,
    split_words, string_of_all, str_eq, to_chars, trim, trim_vec, vec_ends_with, vec_eq_str, words,
};

verus! {

/// A day of the week.
#[derive(Debug, Clone, Copy, PartialEq, Eq, Structural)]
pub enum Weekday {
    Mon,
    Tue,
    Wed,
    Thu,
    Fri,
    Sat,
    Sun,
}

/// Days from Monday: Monday is 0, Sunday 6.
pub open spec fn weekday_index(w: Weekday) -> int {
    match w {
        Weekday::Mon => 0,
        Weekday::Tue => 1,
        Weekday::Wed => 2,
        Weekday::Thu => 3,
        Weekday::Fri => 4,
        Weekday::Sat => 5,
        Weekday::Sun => 6,
    }
}

/// A parsed recurrence rule.
#[derive(Debug, Clone, Copy, PartialEq, Eq, Structural)]
pub enum Rule {
    Days(u32),
    Weeks(u32),
    Months(u32),
    WeekOnWeekday(Weekday),
    MonthOnDay(u32),
}

/// Errors of recurrence rules.
#[derive(Debug, PartialEq, Eq)]
pub enum RecurrenceError {
    /// The task has no due, scheduled or start date.
    NoAnchor,
    /// A part of the rule is outside the supported subset.
    Unsupported { rule: String, token: String },
    /// The rule is incomplete or out of range.
    Malformed { rule: String, reason: String },
}

/// Mathematical value of a [`RecurrenceError`].
pub enum RecurrenceErrorSpec {
    NoAnchor,
    Unsupported { rule: Seq<char>, token: Seq<char> },
    Malformed { rule: Seq<char>, reason: Seq<char> },
}

/// The text of a recurrence error.
pub open spec fn rec_error_text(e: RecurrenceError) -> Seq<char> {
    match e {
        RecurrenceError::NoAnchor => "recurring task has no due/scheduled/start date to anchor on"@,
        RecurrenceError::Unsupported { rule, token } => "unsupported recurrence rule `"@ + rule@ + "`: unsupported token `"@
            + token@ + "`"@,
        RecurrenceError::Malformed { rule, reason } => "malformed recurrence rule `"@ + rule@ + "`: "@ + reason@,
    }
}

impl RecurrenceError {
    /// Human-readable rendering of the error (see [`rec_error_text`]).
    pub fn message(&self) -> (r: String)
        ensures
            r@ == rec_error_text(*self),
    {
        match self {
            RecurrenceError::NoAnchor => crate::text::owned("recurring task has no due/scheduled/start date to anchor on"),
            RecurrenceError::Unsupported { rule, token } => crate::text::concat5(
                "unsupported recurrence rule `",
                rule.as_str(),
                "`: unsupported token `",
                token.as_str(),
                "`",
            ),
            RecurrenceError::Malformed { rule, reason } => crate::text::concat4(
                "malformed recurrence rule `",
                rule.as_str(),
                "`: ",
                reason.as_str(),
            ),
        }
    }
}

pub open spec fn rec_error_view(e: RecurrenceError) -> RecurrenceErrorSpec {
    match e {
        RecurrenceError::NoAnchor => RecurrenceErrorSpec::NoAnchor,
        RecurrenceError::Unsupported { rule, token } => RecurrenceErrorSpec::Unsupported {
            rule: rule@,
            token: token@,
        },
        RecurrenceError::Malformed { rule, reason } => RecurrenceErrorSpec::Malformed {
            rule: rule@,
            reason: reason@,
        },
    }
}

/// The weekday named by `s` (full or abbreviated, lowercase).
pub open spec fn weekday_named(s: Seq<char>) -> Option<Weekday> {
    if s == "monday"@ || s == "mon"@ {
        Some(Weekday::Mon)
    } else if s == "tuesday"@ || s == "tue"@ || s == "tues"@ {
        Some(Weekday::Tue)
    } else if s == "wednesday"@ || s == "wed"@ {
        Some(Weekday::Wed)
    } else if s == "thursday"@ || s == "thu"@ || s == "thur"@ || s == "thurs"@ {
        Some(Weekday::Thu)
    } else if s == "friday"@ || s == "fri"@ {
        Some(Weekday::Fri)
    } else if s == "saturday"@ || s == "sat"@ {
        Some(Weekday::Sat)
    } else if s == "sunday"@ || s == "sun"@ {
        Some(Weekday::Sun)
    } else {
        None
    }
}

/// Weekdays count from Monday as chrono's `num_days_from_monday` does:
/// Monday 0 through Sunday 6, each its own number.
pub proof fn lemma_weekday_numbers(a: Weekday, b: Weekday)
    ensures
        0 <= weekday_index(a) < 7,
        weekday_index(a) == weekday_index(b) ==> a == b,
        weekday_index(Weekday::Mon) == 0,
        weekday_index(Weekday::Wed) == 2,
        weekday_index(Weekday::Sun) == 6,
{
}

/// The weekday names, full or short: each names its own day.
pub proof fn lemma_weekday_names()
    ensures
        weekday_named("monday"@) == Some(Weekday::Mon),
        weekday_named("tuesday"@) == Some(Weekday::Tue),
        weekday_named("wednesday"@) == Some(Weekday::Wed),
        weekday_named("wed"@) == Some(Weekday::Wed),
        weekday_named("thursday"@) == Some(Weekday::Thu),
        weekday_named("friday"@) == Some(Weekday::Fri),
        weekday_named("saturday"@) == Some(Weekday::Sat),
        weekday_named("sunday"@) == Some(Weekday::Sun),
{
    reveal_strlit("monday");
    reveal_strlit("mon");
    reveal_strlit("tuesday");
    reveal_strlit("tue");
    reveal_strlit("tues");
    reveal_strlit("wednesday");
    reveal_strlit("wed");
    reveal_strlit("thursday");
    reveal_strlit("thu");
    reveal_strlit("thur");
    reveal_strlit("thurs");
    reveal_strlit("friday");
    reveal_strlit("fri");
    reveal_strlit("saturday");
    reveal_strlit("sat");
    reveal_strlit("sunday");
    reveal_strlit("sun");
    assert("tuesday"@.len() != "monday"@.len());
    assert("tuesday"@ != "monday"@);
    assert("tuesday"@.len() != "mon"@.len());
    assert("tuesday"@ != "mon"@);
    assert("wednesday"@.len() != "monday"@.len());
    assert("wednesday"@ != "monday"@);
    assert("wednesday"@.len() != "mon"@.len());
    assert("wednesday"@ != "mon"@);
    assert("wednesday"@.len() != "tuesday"@.len());
    assert("wednesday"@ != "tuesday"@);
    assert("wednesday"@.len() != "tue"@.len());
    assert("wednesday"@ != "tue"@);
    assert("wednesday"@.len() != "tues"@.len());
    assert("wednesday"@ != "tues"@);
    assert("wed"@.len() != "monday"@.len());
    assert("wed"@ != "monday"@);
    assert("wed"@[0] != "mon"@[0]);
    assert("wed"@ != "mon"@);
    assert("wed"@.len() != "tuesday"@.len());
    assert("wed"@ != "tuesday"@);
    assert("wed"@[0] != "tue"@[0]);
    assert("wed"@ != "tue"@);
    assert("wed"@.len() != "tues"@.len());
    assert("wed"@ != "tues"@);
    assert("thursday"@.len() != "monday"@.len());
    assert("thursday"@ != "monday"@);
    assert("thursday"@.len() != "mon"@.len());
    assert("thursday"@ != "mon"@);
    assert("thursday"@.len() != "tuesday"@.len());
    assert("thursday"@ != "tuesday"@);
    assert("thursday"@.len() != "tue"@.len());
    assert("thursday"@ != "tue"@);
    assert("thursday"@.len() != "tues"@.len());
    assert("thursday"@ != "tues"@);
    assert("thursday"@.len() != "wednesday"@.len());
    assert("thursday"@ != "wednesday"@);
    assert("thursday"@.len() != "wed"@.len());
    assert("thursday"@ != "wed"@);
    assert("friday"@[0] != "monday"@[0]);
    assert("friday"@ != "monday"@);
    assert("friday"@.len() != "mon"@.len());
    assert("friday"@ != "mon"@);
    assert("friday"@.len() != "tuesday"@.len());
    assert("friday"@ != "tuesday"@);
    assert("friday"@.len() != "tue"@.len());
    assert("friday"@ != "tue"@);
    assert("friday"@.len() != "tues"@.len());
    assert("friday"@ != "tues"@);
    assert("friday"@.len() != "wednesday"@.len());
    assert("friday"@ != "wednesday"@);
    assert("friday"@.len() != "wed"@.len());
    assert("friday"@ != "wed"@);
    assert("friday"@.len() != "thursday"@.len());
    assert("friday"@ != "thursday"@);
    assert("friday"@.len() != "thu"@.len());
    assert("friday"@ != "thu"@);
    assert("friday"@.len() != "thur"@.len());
    assert("friday"@ != "thur"@);
    assert("friday"@.len() != "thurs"@.len());
    assert("friday"@ != "thurs"@);
    assert("saturday"@.len() != "monday"@.len());
    assert("saturday"@ != "monday"@);
    assert("saturday"@.len() != "mon"@.len());
    assert("saturday"@ != "mon"@);
    assert("saturday"@.len() != "tuesday"@.len());
    assert("saturday"@ != "tuesday"@);
    assert("saturday"@.len() != "tue"@.len());
    assert("saturday"@ != "tue"@);
    assert("saturday"@.len() != "tues"@.len());
    assert("saturday"@ != "tues"@);
    assert("saturday"@.len() != "wednesday"@.len());
    assert("saturday"@ != "wednesday"@);
    assert("saturday"@.len() != "wed"@.len());
    assert("saturday"@ != "wed"@);
    assert("saturday"@[0] != "thursday"@[0]);
    assert("saturday"@ != "thursday"@);
    assert("saturday"@.len() != "thu"@.len());
    assert("saturday"@ != "thu"@);
    assert("saturday"@.len() != "thur"@.len());
    assert("saturday"@ != "thur"@);
    assert("saturday"@.len() != "thurs"@.len());
    assert("saturday"@ != "thurs"@);
    assert("saturday"@.len() != "friday"@.len());
    assert("saturday"@ != "friday"@);
    assert("saturday"@.len() != "fri"@.len());
    assert("saturday"@ != "fri"@);
    assert("sunday"@[0] != "monday"@[0]);
    assert("sunday"@ != "monday"@);
    assert("sunday"@.len() != "mon"@.len());
    assert("sunday"@ != "mon"@);
    assert("sunday"@.len() != "tuesday"@.len());
    assert("sunday"@ != "tuesday"@);
    assert("sunday"@.len() != "tue"@.len());
    assert("sunday"@ != "tue"@);
    assert("sunday"@.len() != "tues"@.len());
    assert("sunday"@ != "tues"@);
    assert("sunday"@.len() != "wednesday"@.len());
    assert("sunday"@ != "wednesday"@);
    assert("sunday"@.len() != "wed"@.len());
    assert("sunday"@ != "wed"@);
    assert("sunday"@.len() != "thursday"@.len());
    assert("sunday"@ != "thursday"@);
    assert("sunday"@.len() != "thu"@.len());
    assert("sunday"@ != "thu"@);
    assert("sunday"@.len() != "thur"@.len());
    assert("sunday"@ != "thur"@);
    assert("sunday"@.len() != "thurs"@.len());
    assert("sunday"@ != "thurs"@);
    assert("sunday"@[0] != "friday"@[0]);
    assert("sunday"@ != "friday"@);
    assert("sunday"@.len() != "fri"@.len());
    assert("sunday"@ != "fri"@);
    assert("sunday"@.len() != "saturday"@.len());
    assert("sunday"@ != "saturday"@);
    assert("sunday"@.len() != "sat"@.len());
    assert("sunday"@ != "sat"@);
}

/// `1`, `1st`, `2nd`, `3rd`, `4th`, … as a number.
pub open spec fn ordinal_value(s: Seq<char>) -> Option<nat> {
    if parse_unsigned(s, 0xffff_ffff) is Some {
        parse_unsigned(s, 0xffff_ffff)
    } else if s.len() >= 2 && (ends_with(s, "st"@) || ends_with(s, "nd"@) || ends_with(s, "rd"@)
        || ends_with(s, "th"@)) {
        parse_unsigned(s.take(s.len() - 2), 0xffff_ffff)
    } else {
        None
    }
}

pub open spec fn unsupported(rule: Seq<char>, token: Seq<char>) -> Result<Rule, RecurrenceErrorSpec> {
    Err(RecurrenceErrorSpec::Unsupported { rule, token })
}

pub open spec fn malformed(rule: Seq<char>, reason: Seq<char>) -> Result<Rule, RecurrenceErrorSpec> {
    Err(RecurrenceErrorSpec::Malformed { rule, reason })
}

/// The weekly rule with `count` and the words after the unit.
pub open spec fn week_tail(rule: Seq<char>, count: u32, tail: Seq<Seq<char>>) -> Result<Rule, RecurrenceErrorSpec> {
    if tail.len() == 0 {
        Ok(Rule::Weeks(count))
    } else if tail[0] != "on"@ || count != 1 {
        unsupported(rule, join_spaces(tail))
    } else if tail.len() < 2 {
        malformed(rule, "missing weekday"@)
    } else if weekday_named(tail[1]) is None {
        unsupported(rule, tail[1])
    } else if tail.len() > 2 {
        unsupported(rule, join_spaces(tail.skip(2)))
    } else {
        Ok(Rule::WeekOnWeekday(weekday_named(tail[1])->0))
    }
}

/// The monthly rule with `count` and the words after the unit.
pub open spec fn month_tail(rule: Seq<char>, count: u32, tail: Seq<Seq<char>>) -> Result<Rule, RecurrenceErrorSpec> {
    if tail.len() == 0 {
        Ok(Rule::Months(count))
    } else if tail[0] != "on"@ || count != 1 {
        unsupported(rule, join_spaces(tail))
    } else if tail.len() < 2 || tail[1] != "the"@ {
        unsupported(rule, join_spaces(tail.skip(1)))
    } else if tail.len() < 3 {
        malformed(rule, "missing day-of-month"@)
    } else if ordinal_value(tail[2]) is None {
        unsupported(rule, tail[2])
    } else if !(1 <= ordinal_value(tail[2])->0 <= 31) {
        malformed(rule, "day-of-month must be 1..=31"@)
    } else if tail.len() > 3 {
        unsupported(rule, join_spaces(tail.skip(3)))
    } else {
        Ok(Rule::MonthOnDay((ordinal_value(tail[2])->0) as u32))
    }
}

/// What [`parse_rule`] gives for `rule`.
pub open spec fn rule_of(rule: Seq<char>) -> Result<Rule, RecurrenceErrorSpec> {
    let ts = words(lower(trim(rule)));
    if ts.len() == 0 || ts[0] != "every"@ {
        unsupported(rule, if ts.len() > 0 { ts[0] } else { Seq::empty() })
    } else if ts.len() < 2 {
        malformed(rule, "missing time unit"@)
    } else if parse_unsigned(ts[1], 0xffff_ffff) == Some(0nat) {
        malformed(rule, "count must be positive"@)
    } else {
        let c = parse_unsigned(ts[1], 0xffff_ffff);
        let count: u32 = if c is Some { (c->0) as u32 } else { 1 };
        let ui: int = if c is Some { 2 } else { 1 };
        if ui >= ts.len() {
            malformed(rule, "missing time unit"@)
        } else {
            let unit = ts[ui];
            let tail = ts.skip(ui + 1);
            if unit == "day"@ || unit == "days"@ {
                if tail.len() > 0 {
                    unsupported(rule, join_spaces(tail))
                } else {
                    Ok(Rule::Days(count))
                }
            } else if unit == "week"@ || unit == "weeks"@ {
                week_tail(rule, count, tail)
            } else if unit == "month"@ || unit == "months"@ {
                month_tail(rule, count, tail)
            } else {
                unsupported(rule, unit)
            }
        }
    }
}

/// The date a rule gives after `anchor`; `None` where the date arithmetic
/// leaves chrono's range.
pub open spec fn next_after_date(rule: Rule, anchor: Date) -> Option<Date> {
    match rule {
        Rule::Days(n) => chrono_add_days_forward(anchor, n as u64),
        Rule::Weeks(n) => if n * 7 <= 0xffff_ffff {
            chrono_add_days_forward(anchor, (n * 7) as u64)
        } else {
            None
        },
        Rule::Months(n) => chrono_add_months(anchor, n),
        Rule::WeekOnWeekday(t) => {
            let delta = weekday_index(t) - chrono_weekday(anchor);
            let d = if delta <= 0 { delta + 7 } else { delta };
            chrono_add_days_forward(anchor, d as u64)
        },
        Rule::MonthOnDay(n) => match chrono_add_months(
            Date { year: anchor.year, month: anchor.month, day: 1 },
            1,
        ) {
            Some(f) => {
                let last = days_in_month(f.year as int, f.month as int);
                let day = if n < last { n as int } else { last };
                if (f.year == MAX_YEAR && f.month == 12) || day < 1 {
                    None
                } else {
                    Some(Date { year: f.year, month: f.month, day: day as u32 })
                }
            },
            None => None,
        },
    }
}

// ── parsing ──────────────────────────────────────────────────────────────────

fn unsupported_err(rule: &Vec<char>, token: String) -> (r: RecurrenceError)
    ensures
        rec_error_view(r) == (RecurrenceErrorSpec::Unsupported { rule: rule@, token: token@ }),
{
    RecurrenceError::Unsupported { rule: string_of_all(rule), token }
}

fn malformed_err(rule: &Vec<char>, reason: &str) -> (r: RecurrenceError)
    ensures
        rec_error_view(r) == (RecurrenceErrorSpec::Malformed { rule: rule@, reason: reason@ }),
{
    let mut m = String::new();
    push_str(&mut m, reason);
    RecurrenceError::Malformed { rule: string_of_all(rule), reason: m }
}

pub open spec fn rule_result_view(r: Result<Rule, RecurrenceError>) -> Result<Rule, RecurrenceErrorSpec> {
    match r {
        Ok(x) => Ok(x),
        Err(e) => Err(rec_error_view(e)),
    }
}

fn parse_weekday(s: &Vec<char>) -> (r: Option<Weekday>)
    ensures
        r == weekday_named(s@),
{
    if vec_eq_str(s, "monday") || vec_eq_str(s, "mon") {
        Some(Weekday::Mon)
    } else if vec_eq_str(s, "tuesday") || vec_eq_str(s, "tue") || vec_eq_str(s, "tues") {
        Some(Weekday::Tue)
    } else if vec_eq_str(s, "wednesday") || vec_eq_str(s, "wed") {
        Some(Weekday::Wed)
    } else if vec_eq_str(s, "thursday") || vec_eq_str(s, "thu") || vec_eq_str(s, "thur") || vec_eq_str(s, "thurs") {
        Some(Weekday::Thu)
    } else if vec_eq_str(s, "friday") || vec_eq_str(s, "fri") {
        Some(Weekday::Fri)
    } else if vec_eq_str(s, "saturday") || vec_eq_str(s, "sat") {
        Some(Weekday::Sat)
    } else if vec_eq_str(s, "sunday") || vec_eq_str(s, "sun") {
        Some(Weekday::Sun)
    } else {
        None
    }
}

fn parse_ordinal(s: &Vec<char>) -> (r: Option<u32>)
    ensures
        match r {
            Some(n) => ordinal_value(s@) == Some(n as nat),
            None => ordinal_value(s@) is None,
        },
{
    match parse_unsigned_exec(s, 0xffff_ffff) {
        Some(n) => {
            return Some(n as u32);
        },
        None => {},
    }
    proof {
        reveal_strlit("st");
        reveal_strlit("nd");
        reveal_strlit("rd");
        reveal_strlit("th");
    }
    if s.len() >= 2 && (vec_ends_with(s, "st") || vec_ends_with(s, "nd") || vec_ends_with(s, "rd") || vec_ends_with(s, "th")) {
        let t = slice_vec(s, 0, s.len() - 2);
        proof {
            assert(t@ =~= s@.take(s@.len() - 2));
        }
        match parse_unsigned_exec(&t, 0xffff_ffff) {
            Some(n) => Some(n as u32),
            None => None,
        }
    } else {
        None
    }
}

spec fn words_view(ts: Seq<Vec<char>>) -> Seq<Seq<char>> {
    ts.map_values(|w: Vec<char>| w@)
}

/// [`week_tail`] over the words `ts[lo..]`.
fn week_tail_exec(rule: &Vec<char>, count: u32, ts: &Vec<Vec<char>>, lo: usize) -> (r: Result<Rule, RecurrenceError>)
    requires
        lo <= ts@.len(),
    ensures
        rule_result_view(r) == week_tail(rule@, count, words_view(ts@).skip(lo as int)),
{
    let ghost tail = words_view(ts@).skip(lo as int);
    let n = ts.len();
    proof {
        assert(words_view(ts@.skip(lo as int)) =~= tail);
    }
    if n - lo == 0 {
        return Ok(Rule::Weeks(count));
    }
    proof {
        assert(tail[0] == ts@[lo as int]@);
    }
    if !vec_eq_str(&ts[lo], "on") || count != 1 {
        return Err(unsupported_err(rule, crate::text::join_words_from(ts, lo)));
    }
    if n - lo < 2 {
        return Err(malformed_err(rule, "missing weekday"));
    }
    proof {
        assert(tail[1] == ts@[lo + 1]@);
    }
    let w = match parse_weekday(&ts[lo + 1]) {
        Some(w) => w,
        None => {
            return Err(unsupported_err(rule, string_of_all(&ts[lo + 1])));
        },
    };
    if n - lo > 2 {
        let j = crate::text::join_words_from(ts, lo + 2);
        proof {
            assert(ts@.skip(lo + 2).map_values(|w: Vec<char>| w@) =~= tail.skip(2));
        }
        return Err(unsupported_err(rule, j));
    }
    Ok(Rule::WeekOnWeekday(w))
}

/// [`month_tail`] over the words `ts[lo..]`.
fn month_tail_exec(rule: &Vec<char>, count: u32, ts: &Vec<Vec<char>>, lo: usize) -> (r: Result<Rule, RecurrenceError>)
    requires
        lo <= ts@.len(),
    ensures
        rule_result_view(r) == month_tail(rule@, count, words_view(ts@).skip(lo as int)),
{
    let ghost tail = words_view(ts@).skip(lo as int);
    let n = ts.len();
    proof {
        assert(words_view(ts@.skip(lo as int)) =~= tail);
    }
    if n - lo == 0 {
        return Ok(Rule::Months(count));
    }
    proof {
        assert(tail[0] == ts@[lo as int]@);
    }
    if !vec_eq_str(&ts[lo], "on") || count != 1 {
        return Err(unsupported_err(rule, crate::text::join_words_from(ts, lo)));
    }
    if n - lo < 2 || !vec_eq_str(&ts[lo + 1], "the") {
        let j = crate::text::join_words_from(ts, lo + 1);
        proof {
            if n - lo >= 2 {
                assert(tail[1] == ts@[lo + 1]@);
            }
            assert(ts@.skip(lo + 1).map_values(|w: Vec<char>| w@) =~= tail.skip(1));
        }
        return Err(unsupported_err(rule, j));
    }
    proof {
        assert(tail[1] == ts@[lo + 1]@);
    }
    if n - lo < 3 {
        return Err(malformed_err(rule, "missing day-of-month"));
    }
    proof {
        assert(tail[2] == ts@[lo + 2]@);
    }
    let d = match parse_ordinal(&ts[lo + 2]) {
        Some(d) => d,
        None => {
            return Err(unsupported_err(rule, string_of_all(&ts[lo + 2])));
        },
    };
    if d < 1 || d > 31 {
        return Err(malformed_err(rule, "day-of-month must be 1..=31"));
    }
    if n - lo > 3 {
        let j = crate::text::join_words_from(ts, lo + 3);
        proof {
            assert(ts@.skip(lo + 3).map_values(|w: Vec<char>| w@) =~= tail.skip(3));
        }
        return Err(unsupported_err(rule, j));
    }
    Ok(Rule::MonthOnDay(d))
}

/// Parse a recurrence rule (case-insensitive); an error names the part of
/// the rule that is not supported or is malformed.
pub fn parse_rule(rule: &str) -> (r: Result<Rule, RecurrenceError>)
    ensures
        rule_result_view(r) == rule_of(rule@),
{
    let rv = to_chars(rule);
    let t = trim_vec(&rv);
    let l = lower_vec(&t);
    let ts = split_words(&l);
    let ghost tv = words(lower(trim(rule@)));
    proof {
        assert(words_view(ts@) =~= tv);
    }
    let n = ts.len();
    if n == 0 || !vec_eq_str(&ts[0], "every") {
        let tok = if n > 0 {
            string_of_all(&ts[0])
        } else {
            String::new()
        };
        return Err(unsupported_err(&rv, tok));
    }
    if n < 2 {
        return Err(malformed_err(&rv, "missing time unit"));
    }
    let c = parse_unsigned_exec(&ts[1], 0xffff_ffff);
    proof {
        assert(tv[1] == ts@[1]@);
    }
    match c {
        Some(0) => {
            return Err(malformed_err(&rv, "count must be positive"));
        },
        _ => {},
    }
    let (count, ui): (u32, usize) = match c {
        Some(v) => (v as u32, 2),
        None => (1, 1),
    };
    if ui >= n {
        return Err(malformed_err(&rv, "missing time unit"));
    }
    let unit = &ts[ui];
    proof {
        assert(tv[ui as int] == unit@);
        assert(words_view(ts@).skip(ui + 1) =~= tv.skip(ui + 1));
    }
    if vec_eq_str(unit, "day") || vec_eq_str(unit, "days") {
        if n - (ui + 1) > 0 {
            let j = crate::text::join_words_from(&ts, ui + 1);
            proof {
                assert(ts@.skip(ui + 1).map_values(|w: Vec<char>| w@) =~= tv.skip(ui + 1));
            }
            return Err(unsupported_err(&rv, j));
        }
        Ok(Rule::Days(count))
    } else if vec_eq_str(unit, "week") || vec_eq_str(unit, "weeks") {
        week_tail_exec(&rv, count, &ts, ui + 1)
    } else if vec_eq_str(unit, "month") || vec_eq_str(unit, "months") {
        month_tail_exec(&rv, count, &ts, ui + 1)
    } else {
        Err(unsupported_err(&rv, string_of_all(unit)))
    }
}

// ── next dates ───────────────────────────────────────────────────────────────

fn weekday_number(w: Weekday) -> (r: u32)
    ensures
        r == weekday_index(w),
{
    match w {
        Weekday::Mon => 0,
        Weekday::Tue => 1,
        Weekday::Wed => 2,
        Weekday::Thu => 3,
        Weekday::Fri => 4,
        Weekday::Sat => 5,
        Weekday::Sun => 6,
    }
}

fn days_in_month_exec(y: i32, m: u32) -> (r: u32)
    requires
        1 <= m <= 12,
    ensures
        r == days_in_month(y as int, m as int),
{
    if m == 2 {
        let leap = (y % 4 == 0 && y % 100 != 0) || y % 400 == 0;
        proof {
            assert(leap == crate::date::is_leap_year(y as int)) by (nonlinear_arith)
                requires
                    leap == ((y % 4 == 0 && y % 100 != 0) || y % 400 == 0),
            ;
        }
        if leap {
            29
        } else {
            28
        }
    } else if m == 4 || m == 6 || m == 9 || m == 11 {
        30
    } else {
        31
    }
}

/// "Every week on `t`" from `anchor` is the date `k` days after the anchor
/// for the one `k` from 1 to 7 that lands on weekday `t`: the coming
/// such weekday, strictly after the anchor, never a week later.
pub proof fn lemma_week_on_weekday_steps(t: Weekday, anchor: Date)
    requires
        chrono_weekday(anchor) < 7,
    ensures
        exists|k: int|
            1 <= k <= 7 && (chrono_weekday(anchor) + k) % 7 == weekday_index(t) && next_after_date(
                Rule::WeekOnWeekday(t),
                anchor,
            ) == #[trigger] chrono_add_days_forward(anchor, k as u64),
        forall|k: int|
            1 <= k <= 7 && (chrono_weekday(anchor) + k) % 7 == weekday_index(t) ==> next_after_date(
                Rule::WeekOnWeekday(t),
                anchor,
            ) == #[trigger] chrono_add_days_forward(anchor, k as u64),
{
    let delta = weekday_index(t) - chrono_weekday(anchor);
    let d = if delta <= 0 { delta + 7 } else { delta };
    assert(1 <= d <= 7 && (chrono_weekday(anchor) + d) % 7 == weekday_index(t));
    assert(next_after_date(Rule::WeekOnWeekday(t), anchor) == chrono_add_days_forward(anchor, d as u64));
    assert forall|k: int|
        1 <= k <= 7 && (chrono_weekday(anchor) + k) % 7 == weekday_index(t) implies next_after_date(
            Rule::WeekOnWeekday(t),
            anchor,
        ) == #[trigger] chrono_add_days_forward(anchor, k as u64) by {
        assert(k == d);
    }
}

/// The date `rule` gives after `anchor`, or `None` where that date leaves
/// chrono's range (see [`next_after_date`]).
pub fn next_after_checked(rule: &Rule, anchor: Date) -> (r: Option<Date>)
    requires
        valid_date(anchor),
    ensures
        r == next_after_date(*rule, anchor),
        r matches Some(d) ==> valid_date(d),
        r matches Some(x) ==> (*rule matches Rule::Days(n) ==> chrono_days_between(x, anchor) == n),
        r matches Some(x) ==> (*rule matches Rule::Weeks(n) ==> chrono_days_between(x, anchor) == 7 * n),
        r matches Some(x) ==> (*rule matches Rule::WeekOnWeekday(t) ==> chrono_weekday(x) == weekday_index(t) && 1
            <= chrono_days_between(x, anchor) <= 7),
        r matches Some(x) ==> (*rule matches Rule::Months(n) ==> x.year * 12 + x.month == anchor.year * 12
            + anchor.month + n && x.day == (if anchor.day <= days_in_month(x.year as int, x.month as int) {
            anchor.day as int
        } else {
            days_in_month(x.year as int, x.month as int)
        })),
        r matches Some(x) ==> (*rule matches Rule::MonthOnDay(n) ==> x.year * 12 + x.month == anchor.year * 12
            + anchor.month + 1 && x.day == (if n <= days_in_month(x.year as int, x.month as int) {
            n as int
        } else {
            days_in_month(x.year as int, x.month as int)
        })),
{
    match *rule {
        Rule::Days(n) => add_days_forward(anchor, n as u64),
        Rule::Weeks(n) => {
            if n > 0xffff_ffff / 7 {
                None
            } else {
                add_days_forward(anchor, (n * 7) as u64)
            }
        },
        Rule::Months(n) => add_months(anchor, n),
        Rule::WeekOnWeekday(t) => {
            let cur = weekday_from_monday(anchor) as i64;
            let tgt = weekday_number(t) as i64;
            let mut delta = tgt - cur;
            if delta <= 0 {
                delta += 7;
            }
            add_days_forward(anchor, delta as u64)
        },
        Rule::MonthOnDay(n) => {
            let first = Date { year: anchor.year, month: anchor.month, day: 1 };
            match add_months(first, 1) {
                Some(f) => {
                    let last = days_in_month_exec(f.year, f.month);
                    let day = if n < last {
                        n
                    } else {
                        last
                    };
                    if (f.year == MAX_YEAR && f.month == 12) || day < 1 {
                        None
                    } else {
                        Some(Date { year: f.year, month: f.month, day })
                    }
                },
                None => None,
            }
        },
    }
}

/// The date `rule` gives after `anchor`: `Days` and `Weeks` add days,
/// `Months` adds months (clamping to the month's end), `WeekOnWeekday`
/// moves to the next such weekday strictly after the anchor, and
/// `MonthOnDay` moves to that day of the next month (clamped to its end).
pub fn next_after(rule: &Rule, anchor: Date) -> (r: Date)
    requires
        valid_date(anchor),
        next_after_date(*rule, anchor) is Some,
    ensures
        Some(r) == next_after_date(*rule, anchor),
        valid_date(r),
        (*rule matches Rule::Days(n) ==> chrono_days_between(r, anchor) == n),
        (*rule matches Rule::Weeks(n) ==> chrono_days_between(r, anchor) == 7 * n),
        (*rule matches Rule::WeekOnWeekday(t) ==> chrono_weekday(r) == weekday_index(t) && 1
            <= chrono_days_between(r, anchor) <= 7),
        (*rule matches Rule::Months(n) ==> r.year * 12 + r.month == anchor.year * 12
            + anchor.month + n && r.day == (if anchor.day <= days_in_month(r.year as int, r.month as int) {
            anchor.day as int
        } else {
            days_in_month(r.year as int, r.month as int)
        })),
        (*rule matches Rule::MonthOnDay(n) ==> r.year * 12 + r.month == anchor.year * 12
            + anchor.month + 1 && r.day == (if n <= days_in_month(r.year as int, r.month as int) {
            n as int
        } else {
            days_in_month(r.year as int, r.month as int)
        })),
{
    match next_after_checked(rule, anchor) {
        Some(d) => d,
        None => anchor,
    }
}

/// The moved dates of a recurring task.
#[derive(Debug, Clone, Copy, PartialEq, Eq)]
pub struct NextDates {
    pub start: Option<Date>,
    pub scheduled: Option<Date>,
    pub due: Option<Date>,
}

/// The primary date of a task: due, else scheduled, else start.
pub open spec fn primary_date(due: Option<Date>, scheduled: Option<Date>, start: Option<Date>) -> Option<Date> {
    if due is Some {
        due
    } else if scheduled is Some {
        scheduled
    } else {
        start
    }
}

pub open spec fn opt_valid(d: Option<Date>) -> bool {
    d matches Some(x) ==> valid_date(x)
}

/// `d` moved by `delta` days (chrono's `checked_add_signed`).
pub open spec fn shift_date(d: Option<Date>, delta: i64) -> Option<Date> {
    match d {
        Some(x) => chrono_add_days(x, delta),
        None => None,
    }
}

fn shift_exec(d: Option<Date>, delta: i64) -> (r: Option<Date>)
    requires
        opt_valid(d),
        -200_000_000 <= delta <= 200_000_000,
    ensures
        r == shift_date(d, delta),
        opt_valid(r),
{
    match d {
        Some(x) => add_days(x, delta),
        None => None,
    }
}

/// The dates of the next instance of a recurring task: the rule moves the
/// primary date (due, else scheduled, else start), and every date of the
/// task moves by the same number of days. A task with none of the three
/// dates has no anchor.
pub fn next_dates(rule: &Rule, task: &Task) -> (r: Result<NextDates, RecurrenceError>)
    requires
        opt_valid(task.due),
        opt_valid(task.scheduled),
        opt_valid(task.start),
        primary_date(task.due, task.scheduled, task.start) matches Some(p) ==> next_after_date(*rule, p) is Some,
    ensures
        match (r, primary_date(task.due, task.scheduled, task.start)) {
            (Err(e), None) => e == RecurrenceError::NoAnchor,
            (Ok(n), Some(p)) => {
                let delta = chrono_days_between(next_after_date(*rule, p)->0, p);
                &&& n.start == shift_date(task.start, delta)
                &&& n.scheduled == shift_date(task.scheduled, delta)
                &&& n.due == shift_date(task.due, delta)
            },
            _ => false,
        },
{
    let primary = match task.due {
        Some(d) => d,
        None => match task.scheduled {
            Some(d) => d,
            None => match task.start {
                Some(d) => d,
                None => {
                    return Err(RecurrenceError::NoAnchor);
                },
            },
        },
    };
    let new_primary = next_after(rule, primary);
    let delta = days_between(new_primary, primary);
    Ok(
        NextDates {
            start: shift_exec(task.start, delta),
            scheduled: shift_exec(task.scheduled, delta),
            due: shift_exec(task.due, delta),
        },
    )
}

} // verus!
