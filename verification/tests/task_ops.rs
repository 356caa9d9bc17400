use ft_core::date::Date;
use ft_core::task::ops::{
    build_task, complete_task, create_task, parse_heading, try_complete_task, CompleteError,
    CompleteOptions, CreateError, CreateInput, CreateOptions, Position,
};
use ft_core::task::emoji::EmojiFormat;
use ft_core::task::format::{ParseContext, TaskFormat};
use ft_core::task::recurrence::RecurrenceError;

fn d(y: i32, m: u32, day: u32) -> Date {
    Date::from_ymd_opt(y, m, day).unwrap()
}

fn input(desc: &str) -> CreateInput {
    CreateInput {
        description: desc.into(),
        ..Default::default()
    }
}

fn opts(position: Position, force: bool) -> CreateOptions {
    CreateOptions { position, force }
}

fn complete(content: &str, line: usize, on: Date) -> Result<(String, ft_core::task::ops::CompleteOutcome), CompleteError> {
    complete_task("notes.md", content, line, CompleteOptions { on })
}

#[test]
fn build_task_appends_tags() {
    let mut i = input("Buy milk");
    i.tags = vec!["work".into(), "#urgent".into()];
    let t = build_task(&i);
    assert_eq!(t.description, "Buy milk #work #urgent");
    assert_eq!(t.tags, vec!["work", "urgent"]);
}

#[test]
fn build_task_does_not_double_existing_tag() {
    let mut i = input("Buy milk #work");
    i.tags = vec!["work".into()];
    let t = build_task(&i);
    assert_eq!(t.description, "Buy milk #work");
    assert_eq!(t.tags, vec!["work"]);
}

#[test]
fn append_to_empty_file() {
    let mut i = input("Buy milk");
    i.due = Some(d(2026, 5, 10));
    let (content, outcome) = create_task("daily.md", "", i, opts(Position::Append, false)).unwrap();
    assert_eq!(outcome.line, 1);
    assert_eq!(content, "- [ ] Buy milk 📅 2026-05-10\n");
}

#[test]
fn append_to_existing_file_preserves_content() {
    let (content, outcome) = create_task(
        "notes.md",
        "# Notes\n\nSome prose.\n",
        input("Buy milk"),
        opts(Position::Append, false),
    )
    .unwrap();
    assert_eq!(outcome.line, 4);
    assert_eq!(content, "# Notes\n\nSome prose.\n- [ ] Buy milk\n");
}

#[test]
fn at_line_inserts_in_middle() {
    let (content, outcome) = create_task(
        "notes.md",
        "line1\nline2\nline3\n",
        input("Buy milk"),
        opts(Position::AtLine(2), false),
    )
    .unwrap();
    assert_eq!(outcome.line, 2);
    assert_eq!(content, "line1\n- [ ] Buy milk\nline2\nline3\n");
}

#[test]
fn at_line_zero_rejected() {
    let err = create_task("notes.md", "line1\n", input("X"), opts(Position::AtLine(0), false))
        .unwrap_err();
    assert!(matches!(err, CreateError::LineOutOfRange { .. }));
}

#[test]
fn at_line_past_end_rejected() {
    let err = create_task("notes.md", "line1\n", input("X"), opts(Position::AtLine(3), false))
        .unwrap_err();
    assert!(matches!(err, CreateError::LineOutOfRange { line: 3, file_lines: 1 }), "{err:?}");
}

#[test]
fn under_heading_existing() {
    let (content, outcome) = create_task(
        "notes.md",
        "## Tasks\n- [ ] existing\n\n## Other\nstuff\n",
        input("Buy milk"),
        opts(Position::UnderHeading("Tasks".into()), false),
    )
    .unwrap();
    assert_eq!(content, "## Tasks\n- [ ] existing\n- [ ] Buy milk\n\n## Other\nstuff\n");
    assert_eq!(outcome.line, 3);
}

#[test]
fn under_heading_missing_creates_heading() {
    let (content, _) = create_task(
        "notes.md",
        "# Notes\n\nProse.\n",
        input("Buy milk"),
        opts(Position::UnderHeading("Tasks".into()), false),
    )
    .unwrap();
    assert_eq!(content, "# Notes\n\nProse.\n\n## Tasks\n- [ ] Buy milk\n");
}

#[test]
fn under_heading_at_top_of_empty_file() {
    let (content, _) = create_task(
        "notes.md",
        "",
        input("Buy milk"),
        opts(Position::UnderHeading("Tasks".into()), false),
    )
    .unwrap();
    assert_eq!(content, "## Tasks\n- [ ] Buy milk\n");
}

#[test]
fn duplicate_refused_without_force() {
    let mut i = input("Buy milk");
    i.due = Some(d(2026, 5, 10));
    let err = create_task(
        "notes.md",
        "- [ ] Buy milk 📅 2026-05-10\n",
        i,
        opts(Position::Append, false),
    )
    .unwrap_err();
    assert!(matches!(err, CreateError::Duplicate { line: 1, .. }), "{err:?}");
}

#[test]
fn duplicate_inserted_with_force() {
    let mut i = input("Buy milk");
    i.due = Some(d(2026, 5, 10));
    let (content, _) = create_task(
        "notes.md",
        "- [ ] Buy milk 📅 2026-05-10\n",
        i,
        opts(Position::Append, true),
    )
    .unwrap();
    let count = content.matches("- [ ] Buy milk 📅 2026-05-10").count();
    assert_eq!(count, 2);
}

#[test]
fn duplicate_check_distinguishes_dates() {
    let mut i = input("Buy milk");
    i.due = Some(d(2026, 5, 11));
    create_task(
        "notes.md",
        "- [ ] Buy milk 📅 2026-05-10\n",
        i,
        opts(Position::Append, false),
    )
    .unwrap();
}

#[test]
fn parse_heading_levels() {
    assert_eq!(parse_heading("# Top"), Some((1, "Top".to_string())));
    assert_eq!(parse_heading("### Three"), Some((3, "Three".to_string())));
    assert_eq!(parse_heading("###### Six"), Some((6, "Six".to_string())));
    assert_eq!(parse_heading("####### Seven"), None);
    assert_eq!(parse_heading("not a heading"), None);
    assert_eq!(parse_heading("#NoSpace"), None);
}

// ── complete_task ─────────────────────────────────────────────────────────

#[test]
fn complete_simple_task_marks_done_with_date() {
    let (content, outcome) =
        complete("# Notes\n- [ ] Buy milk 📅 2026-05-10\n", 2, d(2026, 5, 10)).unwrap();
    assert_eq!(outcome.completed_line, 2);
    assert!(outcome.next_instance.is_none());
    assert_eq!(content, "# Notes\n- [x] Buy milk 📅 2026-05-10 ✅ 2026-05-10\n");
}

#[test]
fn complete_already_done_errors() {
    let err = complete("- [x] task ✅ 2026-05-09\n", 1, d(2026, 5, 10)).unwrap_err();
    assert!(matches!(err, CompleteError::AlreadyDone { .. }), "{err:?}");
}

#[test]
fn complete_non_task_line_errors() {
    let err = complete("# Heading\nProse\n", 1, d(2026, 5, 10)).unwrap_err();
    assert!(matches!(err, CompleteError::NotATask { .. }), "{err:?}");
}

#[test]
fn complete_line_out_of_range_errors() {
    let err = complete("- [ ] x\n", 5, d(2026, 5, 10)).unwrap_err();
    assert!(matches!(err, CompleteError::LineMissing { .. }), "{err:?}");
}

#[test]
fn complete_recurring_task_inserts_next_instance_above() {
    let (content, outcome) = complete(
        "- [ ] Pay tax 🔁 every month on the 18th 📅 2026-05-18\n",
        1,
        d(2026, 5, 18),
    )
    .unwrap();
    assert_eq!(outcome.completed_line, 2);
    let next = outcome.next_instance.expect("recurrence creates next");
    assert_eq!(next.line, 1);
    assert_eq!(
        content,
        "- [ ] Pay tax 🔁 every month on the 18th 📅 2026-06-18\n\
         - [x] Pay tax 🔁 every month on the 18th 📅 2026-05-18 ✅ 2026-05-18\n"
    );
}

#[test]
fn complete_recurring_weekly_shifts_all_dates() {
    let (content, _) = complete(
        "- [ ] Standup 🔁 every week ⏳ 2026-05-08 📅 2026-05-10\n",
        1,
        d(2026, 5, 10),
    )
    .unwrap();
    assert_eq!(
        content,
        "- [ ] Standup 🔁 every week ⏳ 2026-05-15 📅 2026-05-17\n\
         - [x] Standup 🔁 every week ⏳ 2026-05-08 📅 2026-05-10 ✅ 2026-05-10\n"
    );
}

#[test]
fn complete_recurring_with_unsupported_pattern_errors() {
    let err = complete(
        "- [ ] Yearly thing 🔁 every year 📅 2026-05-10\n",
        1,
        d(2026, 5, 10),
    )
    .unwrap_err();
    assert!(
        matches!(err, CompleteError::Recurrence(RecurrenceError::Unsupported { .. })),
        "{err:?}"
    );
}

#[test]
fn complete_recurring_with_no_anchor_errors() {
    let err = complete("- [ ] No-anchor 🔁 every day\n", 1, d(2026, 5, 10)).unwrap_err();
    assert!(
        matches!(err, CompleteError::Recurrence(RecurrenceError::NoAnchor)),
        "{err:?}"
    );
}

#[test]
fn complete_preserves_indentation_and_other_lines() {
    let (content, _) = complete(
        "## Tasks\n- [ ] parent\n  - [ ] child to complete\n  - [ ] sibling\n",
        3,
        d(2026, 5, 10),
    )
    .unwrap();
    assert_eq!(
        content,
        "## Tasks\n- [ ] parent\n  - [x] child to complete ✅ 2026-05-10\n  - [ ] sibling\n"
    );
}

#[test]
fn try_complete_matches_complete_in_range() {
    let content = "- [ ] x 📅 2026-05-10\n";
    let opts = CompleteOptions { on: d(2026, 5, 11) };
    let got = try_complete_task("notes.md", content, 1, opts).expect("in range");
    let (c, o) = got.unwrap();
    assert_eq!(c, "- [x] x 📅 2026-05-10 ✅ 2026-05-11\n");
    assert_eq!(o.completed_serialized, "- [x] x 📅 2026-05-10 ✅ 2026-05-11");
}

#[test]
fn created_task_reads_back_from_its_line() {
    let mut i = input("Water plants");
    i.due = Some(d(2026, 6, 1));
    let (content, outcome) = create_task(
        "notes.md",
        "# Garden\n## Tasks\n- [ ] Rake leaves\n\n## Log\n",
        i,
        opts(Position::UnderHeading("Tasks".into()), false),
    )
    .unwrap();
    let line = content.lines().nth(outcome.line - 1).unwrap();
    assert_eq!(line, outcome.serialized);
    let t = EmojiFormat
        .parse_line(
            line,
            ParseContext {
                source_file: "notes.md".to_string(),
                source_line: outcome.line,
            },
        )
        .unwrap();
    assert_eq!(t.description, "Water plants");
    assert_eq!(t.due, Some(d(2026, 6, 1)));
    assert_eq!(t.source_line, 4);
}
