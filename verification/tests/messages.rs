use ft_core::daily::{translate_format, DailyError};
use ft_core::date::Date;
use ft_core::query::dsl::{parse, DslError};
use ft_core::task::ops::{CompleteError, CreateError};
use ft_core::task::recurrence::{parse_rule, RecurrenceError};
use ft_core::timeblock::{parse_line, parse_tag_string, ParseError};

#[test]
fn dsl_error_texts() {
    let today = Date::from_ymd_opt(2026, 5, 9).unwrap();
    assert_eq!(parse("", today).unwrap_err().message(), "empty query");
    assert_eq!(parse("foo is bar", today).unwrap_err().message(), "unknown identifier `foo`");
    assert_eq!(
        parse("due on not-a-date", today).unwrap_err().message(),
        "invalid date `not-a-date` (expected YYYY-MM-DD or today/tomorrow/yesterday)"
    );
    assert_eq!(
        DslError::UnexpectedToken { found: "open".into(), expected: "`is`".into() }.message(),
        "expected `is`, found `open`"
    );
    assert_eq!(DslError::UnterminatedString.message(), "unterminated string literal");
    assert_eq!(
        DslError::UnsupportedFeature("group".into()).message(),
        "unsupported query feature: `group` — see docs/query-dsl.md"
    );
    assert_eq!(
        DslError::TrailingTokens("extra".into()).message(),
        "unexpected trailing tokens after query: `extra`"
    );
    assert_eq!(DslError::InvalidNumber("x".into()).message(), "invalid number `x`");
}

#[test]
fn recurrence_error_texts() {
    assert_eq!(
        parse_rule("every year").unwrap_err().message(),
        "unsupported recurrence rule `every year`: unsupported token `year`"
    );
    assert_eq!(
        RecurrenceError::NoAnchor.message(),
        "recurring task has no due/scheduled/start date to anchor on"
    );
    assert_eq!(
        parse_rule("every 0 days").unwrap_err().message(),
        "malformed recurrence rule `every 0 days`: count must be positive"
    );
}

#[test]
fn timeblock_error_texts() {
    assert_eq!(parse_line("").unwrap_err().message(), "empty input");
    assert_eq!(
        parse_line("11:00 - 10:00 x").unwrap_err().message(),
        "end time 10:00 is not after start 11:00"
    );
    assert_eq!(parse_tag_string("a/b/c/d").unwrap_err().message(), "tag has more than 3 levels");
    assert_eq!(
        parse_tag_string("a/[[x]]").unwrap_err().message(),
        "tag contains disallowed character '['"
    );
    assert_eq!(
        ParseError::BadStart { pos: 0 }.message(),
        "expected `HH:MM` start time at position 0"
    );
    assert_eq!(ParseError::BadEnd.message(), "expected `HH:MM` end time after `-` separator");
}

#[test]
fn task_operation_error_texts() {
    assert_eq!(
        CreateError::Duplicate { path: "a.md".into(), line: 3 }.message(),
        "duplicate task already exists at a.md:3 (use --force to insert anyway)"
    );
    assert_eq!(
        CreateError::LineOutOfRange { line: 9, file_lines: 2 }.message(),
        "invalid --at-line 9: file has only 2 lines"
    );
    assert_eq!(CreateError::Write { message: "disk full".into() }.message(), "write failed: disk full");
    assert_eq!(
        CompleteError::LineMissing { path: "n.md".into(), line: 5, file_lines: 1 }.message(),
        "line 5 not found in n.md (1 lines)"
    );
    assert_eq!(
        CompleteError::NotATask { path: "n.md".into(), line: 1 }.message(),
        "line 1 in n.md is not a task"
    );
    assert_eq!(
        CompleteError::AlreadyDone {
            path: "n.md".into(),
            line: 1,
            done: Date::from_ymd_opt(2026, 5, 9).unwrap()
        }
        .message(),
        "task at n.md:1 is already done (on 2026-05-09)"
    );
    assert_eq!(
        CompleteError::Recurrence(RecurrenceError::NoAnchor).message(),
        "recurring task has no due/scheduled/start date to anchor on"
    );
}

#[test]
fn daily_error_texts() {
    assert_eq!(
        translate_format("Q").unwrap_err().message(),
        "daily-notes format token `Q` is not supported"
    );
    assert_eq!(
        DailyError::ExplicitMissingPath.message(),
        "[daily_notes].source = \"explicit\" requires `path` to be set in ft's config"
    );
    assert_eq!(
        DailyError::Read { path: "/v/x.json".into(), message: "denied".into() }.message(),
        "could not read /v/x.json: denied"
    );
    assert!(DailyError::CoreNotFound { path: "/v/c.json".into() }
        .message()
        .starts_with("daily-notes config not found at /v/c.json\nhint: "));
}
