use ft_core::date::Date;
use ft_core::task::recurrence::{next_after, next_dates, parse_rule, RecurrenceError, Rule, Weekday};
use ft_core::task::{Status, Task};

fn d(y: i32, m: u32, day: u32) -> Date {
    Date::from_ymd_opt(y, m, day).unwrap()
}

fn task_with(due: Option<Date>, sched: Option<Date>, start: Option<Date>) -> Task {
    Task {
        description: "x".into(),
        status: Status::Open,
        priority: None,
        tags: vec![],
        created: None,
        start,
        scheduled: sched,
        due,
        done: None,
        cancelled: None,
        recurrence: None,
        id: None,
        depends_on: vec![],
        on_completion: None,
        block_link: None,
        raw_trailing: None,
        source_file: "x.md".to_string(),
        source_line: 1,
        indent_level: 0,
        parent: None,
    }
}

// ── parse ─────────────────────────────────────────────────────────────────

#[test]
fn parse_every_day() {
    assert_eq!(parse_rule("every day").unwrap(), Rule::Days(1));
}

#[test]
fn parse_every_n_days() {
    assert_eq!(parse_rule("every 3 days").unwrap(), Rule::Days(3));
    assert_eq!(parse_rule("every 1 day").unwrap(), Rule::Days(1));
}

#[test]
fn parse_every_week() {
    assert_eq!(parse_rule("every week").unwrap(), Rule::Weeks(1));
    assert_eq!(parse_rule("every 2 weeks").unwrap(), Rule::Weeks(2));
}

#[test]
fn parse_every_week_on_weekday() {
    assert_eq!(
        parse_rule("every week on monday").unwrap(),
        Rule::WeekOnWeekday(Weekday::Mon)
    );
    assert_eq!(
        parse_rule("every week on Fri").unwrap(),
        Rule::WeekOnWeekday(Weekday::Fri)
    );
}

#[test]
fn parse_every_month() {
    assert_eq!(parse_rule("every month").unwrap(), Rule::Months(1));
    assert_eq!(parse_rule("every 6 months").unwrap(), Rule::Months(6));
}

#[test]
fn parse_every_month_on_the_nth() {
    assert_eq!(parse_rule("every month on the 1st").unwrap(), Rule::MonthOnDay(1));
    assert_eq!(parse_rule("every month on the 18th").unwrap(), Rule::MonthOnDay(18));
    assert_eq!(parse_rule("every month on the 31").unwrap(), Rule::MonthOnDay(31));
}

#[test]
fn parse_case_insensitive() {
    assert_eq!(parse_rule("Every Month On The 18th").unwrap(), Rule::MonthOnDay(18));
}

#[test]
fn parse_rejects_year() {
    let e = parse_rule("every year").unwrap_err();
    assert!(
        matches!(e, RecurrenceError::Unsupported { ref token, .. } if token == "year"),
        "{e:?}"
    );
}

#[test]
fn parse_rejects_when_done_modifier() {
    let e = parse_rule("every day when done").unwrap_err();
    assert!(
        matches!(e, RecurrenceError::Unsupported { ref token, .. } if token.contains("when")),
        "{e:?}"
    );
}

#[test]
fn parse_rejects_every_2_weeks_on_monday() {
    let e = parse_rule("every 2 weeks on monday").unwrap_err();
    assert!(matches!(e, RecurrenceError::Unsupported { .. }), "{e:?}");
}

#[test]
fn parse_rejects_unknown_weekday() {
    let e = parse_rule("every week on funday").unwrap_err();
    assert!(
        matches!(e, RecurrenceError::Unsupported { ref token, .. } if token == "funday"),
        "{e:?}"
    );
}

#[test]
fn parse_rejects_zero_count() {
    let e = parse_rule("every 0 days").unwrap_err();
    assert!(matches!(e, RecurrenceError::Malformed { .. }), "{e:?}");
}

#[test]
fn parse_rejects_empty() {
    let e = parse_rule("").unwrap_err();
    assert!(matches!(e, RecurrenceError::Unsupported { .. }), "{e:?}");
}

// ── next_after: days / weeks / months ─────────────────────────────────────

#[test]
fn next_every_day() {
    assert_eq!(next_after(&Rule::Days(1), d(2026, 5, 10)), d(2026, 5, 11));
    assert_eq!(next_after(&Rule::Days(7), d(2026, 5, 10)), d(2026, 5, 17));
}

#[test]
fn next_every_week() {
    assert_eq!(next_after(&Rule::Weeks(1), d(2026, 5, 10)), d(2026, 5, 17));
    assert_eq!(next_after(&Rule::Weeks(2), d(2026, 5, 10)), d(2026, 5, 24));
}

#[test]
fn next_every_month_normal() {
    assert_eq!(next_after(&Rule::Months(1), d(2026, 5, 10)), d(2026, 6, 10));
    assert_eq!(next_after(&Rule::Months(6), d(2026, 5, 10)), d(2026, 11, 10));
}

#[test]
fn next_every_month_clamps_eom() {
    assert_eq!(next_after(&Rule::Months(1), d(2026, 1, 31)), d(2026, 2, 28));
}

#[test]
fn next_every_month_leap_day() {
    assert_eq!(next_after(&Rule::Months(1), d(2024, 2, 29)), d(2024, 3, 29));
}

#[test]
fn next_weekday_strictly_after() {
    assert_eq!(
        next_after(&Rule::WeekOnWeekday(Weekday::Mon), d(2026, 5, 10)),
        d(2026, 5, 11)
    );
    assert_eq!(
        next_after(&Rule::WeekOnWeekday(Weekday::Sun), d(2026, 5, 10)),
        d(2026, 5, 17)
    );
    assert_eq!(
        next_after(&Rule::WeekOnWeekday(Weekday::Fri), d(2026, 5, 10)),
        d(2026, 5, 15)
    );
}

#[test]
fn next_month_on_day_simple() {
    assert_eq!(next_after(&Rule::MonthOnDay(18), d(2026, 5, 18)), d(2026, 6, 18));
}

#[test]
fn next_month_on_day_clamp_then_recover() {
    assert_eq!(next_after(&Rule::MonthOnDay(31), d(2026, 1, 31)), d(2026, 2, 28));
    assert_eq!(next_after(&Rule::MonthOnDay(31), d(2026, 2, 28)), d(2026, 3, 31));
}

#[test]
fn next_month_on_day_anchor_in_middle() {
    assert_eq!(next_after(&Rule::MonthOnDay(18), d(2026, 5, 5)), d(2026, 6, 18));
}

#[test]
fn next_month_on_day_year_rollover() {
    assert_eq!(next_after(&Rule::MonthOnDay(15), d(2026, 12, 20)), d(2027, 1, 15));
}

// ── next_dates: anchor preference + delta shift ───────────────────────────

#[test]
fn next_dates_due_anchor_shifts_other_dates() {
    let task = task_with(Some(d(2026, 5, 10)), Some(d(2026, 5, 8)), Some(d(2026, 5, 1)));
    let n = next_dates(&Rule::Days(7), &task).unwrap();
    assert_eq!(n.due, Some(d(2026, 5, 17)));
    assert_eq!(n.scheduled, Some(d(2026, 5, 15)));
    assert_eq!(n.start, Some(d(2026, 5, 8)));
}

#[test]
fn next_dates_uses_scheduled_when_due_absent() {
    let task = task_with(None, Some(d(2026, 5, 8)), None);
    let n = next_dates(&Rule::Days(1), &task).unwrap();
    assert_eq!(n.due, None);
    assert_eq!(n.scheduled, Some(d(2026, 5, 9)));
}

#[test]
fn next_dates_uses_start_when_others_absent() {
    let task = task_with(None, None, Some(d(2026, 5, 1)));
    let n = next_dates(&Rule::Weeks(1), &task).unwrap();
    assert_eq!(n.start, Some(d(2026, 5, 8)));
}

#[test]
fn next_dates_no_anchor_errors() {
    let task = task_with(None, None, None);
    let e = next_dates(&Rule::Days(1), &task).unwrap_err();
    assert_eq!(e, RecurrenceError::NoAnchor);
}

#[test]
fn next_dates_month_clamp_delta_consistent() {
    let task = task_with(Some(d(2026, 1, 31)), Some(d(2026, 1, 29)), None);
    let n = next_dates(&Rule::Months(1), &task).unwrap();
    assert_eq!(n.due, Some(d(2026, 2, 28)));
    assert_eq!(n.scheduled, Some(d(2026, 2, 26)));
}

// ── edge cases of this library ────────────────────────────────────────────

#[test]
fn parse_rejects_missing_every() {
    let e = parse_rule("day").unwrap_err();
    assert!(matches!(e, RecurrenceError::Unsupported { .. }), "{e:?}");
}

#[test]
fn parse_rejects_day_of_month_out_of_range() {
    let e = parse_rule("every month on the 32nd").unwrap_err();
    assert!(matches!(e, RecurrenceError::Malformed { .. }), "{e:?}");
}

#[test]
fn next_months_across_year_end() {
    assert_eq!(next_after(&Rule::Months(3), d(2026, 11, 30)), d(2027, 2, 28));
}
