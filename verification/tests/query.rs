use ft_core::date::Date;
use ft_core::query::dsl::{parse, parse_sort_key, DslError, Query};
use ft_core::query::expr::{Atom, Expr};
use ft_core::query::preset::{builtin, builtin_names};
use ft_core::query::sort::{SortKey, SortOrder};
use ft_core::task::{Priority, Status, Task};

fn today() -> Date {
    Date::from_ymd_opt(2026, 5, 9).unwrap()
}

fn parse_ok(s: &str) -> Query {
    parse(s, today()).expect("DSL should parse")
}

fn task(desc: &str) -> Task {
    Task {
        description: desc.into(),
        status: Status::Open,
        priority: None,
        tags: Vec::new(),
        created: None,
        start: None,
        scheduled: None,
        due: None,
        done: None,
        cancelled: None,
        recurrence: None,
        id: None,
        depends_on: Vec::new(),
        on_completion: None,
        block_link: None,
        raw_trailing: None,
        source_file: "notes/x.md".to_string(),
        source_line: 1,
        indent_level: 0,
        parent: None,
    }
}

// ── dsl ───────────────────────────────────────────────────────────────────

#[test]
fn empty_input_errors() {
    assert!(matches!(parse("", today()), Err(DslError::EmptyInput)));
    assert!(matches!(parse("   ", today()), Err(DslError::EmptyInput)));
}

#[test]
fn status_predicate() {
    let q = parse_ok("status is open");
    assert_eq!(q.expr, Some(Expr::Atom(Atom::Status(Status::Open))));
    let q = parse_ok("status is in-progress");
    assert_eq!(q.expr, Some(Expr::Atom(Atom::Status(Status::InProgress))));
}

#[test]
fn priority_predicate() {
    let q = parse_ok("priority is high");
    assert_eq!(q.expr, Some(Expr::Atom(Atom::Priority(Priority::High))));
}

#[test]
fn path_includes_quoted() {
    let q = parse_ok(r#"path includes "Projects/""#);
    assert_eq!(q.expr, Some(Expr::Atom(Atom::PathIncludes("Projects/".into()))));
}

#[test]
fn tag_predicates_strip_hash() {
    let q = parse_ok("tag is #work");
    assert_eq!(q.expr, Some(Expr::Atom(Atom::HasTag("work".into()))));
    let q = parse_ok("has tag work");
    assert_eq!(q.expr, Some(Expr::Atom(Atom::HasTag("work".into()))));
}

#[test]
fn due_comparisons() {
    let q = parse_ok("due before 2026-05-15");
    assert_eq!(
        q.expr,
        Some(Expr::Atom(Atom::DueBefore(Date::from_ymd_opt(2026, 5, 15).unwrap())))
    );
    let q = parse_ok("due on today");
    assert_eq!(q.expr, Some(Expr::Atom(Atom::DueOn(today()))));
    let q = parse_ok("due after yesterday");
    assert_eq!(
        q.expr,
        Some(Expr::Atom(Atom::DueAfter(Date::from_ymd_opt(2026, 5, 8).unwrap())))
    );
}

#[test]
fn scheduled_and_completed() {
    let q = parse_ok("scheduled on tomorrow");
    assert_eq!(
        q.expr,
        Some(Expr::Atom(Atom::ScheduledOn(Date::from_ymd_opt(2026, 5, 10).unwrap())))
    );
    let q = parse_ok("completed on today");
    assert_eq!(q.expr, Some(Expr::Atom(Atom::CompletedOn(today()))));
}

#[test]
fn done_and_not_done() {
    let q = parse_ok("done");
    assert_eq!(q.expr, Some(Expr::Atom(Atom::Done)));
    let q = parse_ok("not done");
    assert_eq!(q.expr, Some(Expr::Atom(Atom::NotDone)));
}

#[test]
fn has_due_no_due() {
    assert_eq!(parse_ok("has due").expr, Some(Expr::Atom(Atom::HasDue)));
    assert_eq!(parse_ok("has due date").expr, Some(Expr::Atom(Atom::HasDue)));
    assert_eq!(parse_ok("no due date").expr, Some(Expr::Atom(Atom::NoDue)));
}

#[test]
fn boolean_combinators() {
    let q = parse_ok("status is open and priority is high");
    assert!(matches!(q.expr, Some(Expr::And(_))));

    let q = parse_ok("done or not done");
    assert!(matches!(q.expr, Some(Expr::Or(_))));

    let q = parse_ok("not (done)");
    assert!(matches!(q.expr, Some(Expr::Not(_))));
}

#[test]
fn precedence_and_binds_tighter_than_or() {
    let q = parse_ok("done or status is open and priority is high");
    match q.expr {
        Some(Expr::Or(parts)) => {
            assert_eq!(parts.len(), 2);
            assert!(matches!(parts[1], Expr::And(_)));
        }
        other => panic!("expected Or at the top, got {other:?}"),
    }
}

#[test]
fn parens_override_precedence() {
    let q = parse_ok("(done or not done) and priority is high");
    assert!(matches!(q.expr, Some(Expr::And(_))));
}

#[test]
fn sort_clause() {
    let q = parse_ok("done sort by priority");
    assert_eq!(q.sort_keys, vec![(SortKey::Priority, SortOrder::Asc)]);

    let q = parse_ok("done sort by priority reverse, due");
    assert_eq!(
        q.sort_keys,
        vec![(SortKey::Priority, SortOrder::Desc), (SortKey::Due, SortOrder::Asc)]
    );
}

#[test]
fn limit_clause() {
    let q = parse_ok("done limit 5");
    assert_eq!(q.limit, Some(5));
}

#[test]
fn sort_then_limit() {
    let q = parse_ok("done sort by due limit 3");
    assert_eq!(q.sort_keys, vec![(SortKey::Due, SortOrder::Asc)]);
    assert_eq!(q.limit, Some(3));
}

#[test]
fn unsupported_feature_rejected() {
    let err = parse("group by path", today()).unwrap_err();
    assert!(matches!(err, DslError::UnsupportedFeature(_)));
}

#[test]
fn unknown_identifier_rejected() {
    let err = parse("foo is bar", today()).unwrap_err();
    assert!(matches!(err, DslError::UnknownIdentifier(_)));
}

#[test]
fn invalid_date_rejected() {
    let err = parse("due on not-a-date", today()).unwrap_err();
    assert!(matches!(err, DslError::InvalidDate(_)));
}

#[test]
fn missing_keyword_rejected() {
    let err = parse("status open", today()).unwrap_err();
    assert!(matches!(err, DslError::UnexpectedToken { .. }));
}

#[test]
fn unterminated_string_rejected() {
    let err = parse(r#"path includes "no-closing-quote"#, today()).unwrap_err();
    assert!(matches!(err, DslError::UnterminatedString));
}

#[test]
fn trailing_tokens_rejected() {
    let err = parse("done extra", today()).unwrap_err();
    assert!(matches!(err, DslError::TrailingTokens(_)));
}

#[test]
fn case_insensitive_keywords() {
    let q = parse_ok("DONE AND PRIORITY IS HIGH");
    assert!(matches!(q.expr, Some(Expr::And(_))));
}

#[test]
fn parse_sort_key_helpers() {
    assert_eq!(parse_sort_key("Due").unwrap(), SortKey::Due);
    assert!(parse_sort_key("nonsense").is_err());
}

#[test]
fn bad_limit_is_invalid_number() {
    let err = parse("done limit many", today()).unwrap_err();
    assert!(matches!(err, DslError::InvalidNumber(_)), "{err:?}");
}

#[test]
fn unknown_sort_key_names_it() {
    assert_eq!(
        parse_sort_key("nonsense"),
        Err(DslError::UnknownIdentifier("sort key `nonsense`".to_string()))
    );
}

// ── expr ──────────────────────────────────────────────────────────────────

#[test]
fn atom_status_match() {
    let mut t = task("a");
    t.status = Status::Done;
    assert!(Atom::Done.matches(&t));
    assert!(!Atom::NotDone.matches(&t));
}

#[test]
fn not_done_excludes_cancelled() {
    let mut t = task("a");
    t.status = Status::Cancelled;
    assert!(!Atom::NotDone.matches(&t));
    assert!(!Atom::Done.matches(&t));

    t.status = Status::Open;
    assert!(Atom::NotDone.matches(&t));
    t.status = Status::InProgress;
    assert!(Atom::NotDone.matches(&t));
}

#[test]
fn atom_due_comparisons() {
    let mut t = task("a");
    t.due = Some(Date::from_ymd_opt(2026, 5, 10).unwrap());
    assert!(Atom::DueOn(Date::from_ymd_opt(2026, 5, 10).unwrap()).matches(&t));
    assert!(Atom::DueBefore(Date::from_ymd_opt(2026, 5, 11).unwrap()).matches(&t));
    assert!(!Atom::DueBefore(Date::from_ymd_opt(2026, 5, 10).unwrap()).matches(&t));
    assert!(Atom::DueAfter(Date::from_ymd_opt(2026, 5, 9).unwrap()).matches(&t));
}

fn work() -> Expr {
    Expr::Atom(Atom::HasTag("work".into()))
}

fn high() -> Expr {
    Expr::Atom(Atom::Priority(Priority::High))
}

fn low() -> Expr {
    Expr::Atom(Atom::Priority(Priority::Low))
}

#[test]
fn and_or_not() {
    let mut t = task("x");
    t.tags = vec!["work".into()];
    t.priority = Some(Priority::High);

    assert!(Expr::And(vec![work(), high()]).matches(&t));
    assert!(!Expr::And(vec![work(), low()]).matches(&t));
    assert!(Expr::Or(vec![low(), high()]).matches(&t));
    assert!(Expr::Not(Box::new(low())).matches(&t));
    assert!(!Expr::Not(Box::new(high())).matches(&t));
}

#[test]
fn path_includes_matches_source_file() {
    let t = task("a");
    assert!(Atom::PathIncludes("notes/".into()).matches(&t));
    assert!(!Atom::PathIncludes("other/".into()).matches(&t));
}

#[test]
fn parsed_query_filters_tasks() {
    let q = parse_ok("not done and due before tomorrow");
    let e = q.expr.unwrap();
    let mut t = task("a");
    t.due = Some(today());
    assert!(e.matches(&t));
    t.status = Status::Done;
    assert!(!e.matches(&t));
}

// ── presets ───────────────────────────────────────────────────────────────

#[test]
fn every_builtin_parses() {
    for name in builtin_names() {
        let dsl_str = builtin(name).unwrap_or_else(|| panic!("missing preset {name}"));
        parse(dsl_str, today())
            .unwrap_or_else(|e| panic!("preset `{name}` failed to parse: {e:?}"));
    }
}

#[test]
fn unknown_preset_returns_none() {
    assert!(builtin("nope").is_none());
}

#[test]
fn only_blank_input_is_an_empty_query() {
    for s in ["\t \n", "x", "(", "sort by due", ")", "not"] {
        let blank = s.chars().all(char::is_whitespace);
        assert_eq!(matches!(parse(s, today()), Err(DslError::EmptyInput)), blank, "{s:?}");
    }
}

#[test]
fn parse_accepts_dates_near_the_ends_of_the_calendar() {
    let early = Date::from_ymd_opt(-262143, 1, 2).unwrap();
    assert!(parse("due before yesterday", early).is_ok());
    let late = Date::from_ymd_opt(262142, 12, 30).unwrap();
    assert!(parse("due after tomorrow", late).is_ok());
}
