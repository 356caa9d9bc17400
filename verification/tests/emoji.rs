use ft_core::date::Date;
use ft_core::task::emoji::{extract_tags, EmojiFormat};
use ft_core::task::format::{ParseContext, TaskFormat};
use ft_core::task::{Priority, Status, Task};


fn ctx() -> ParseContext {
    ParseContext {
        source_file: "test.md".to_string(),
        source_line: 1,
    }
}

fn parse(line: &str) -> Task {
    EmojiFormat
        .parse_line(line, ctx())
        .unwrap_or_else(|| panic!("failed to parse task line: {line:?}"))
}

fn roundtrip(line: &str) {
    let task = parse(line);
    let serialized = EmojiFormat.serialize_line(&task);
    assert_eq!(
        line, serialized,
        "round-trip failed\n  original:   {line:?}\n  serialized: {serialized:?}"
    );
}

// ── status ────────────────────────────────────────────────────────────────

#[test]
fn status_open() {
    assert_eq!(parse("- [ ] task").status, Status::Open);
}

#[test]
fn status_done_lower() {
    assert_eq!(parse("- [x] task").status, Status::Done);
}

#[test]
fn status_done_upper() {
    assert_eq!(parse("- [X] task").status, Status::Done);
}

#[test]
fn status_in_progress() {
    assert_eq!(parse("- [/] task").status, Status::InProgress);
}

#[test]
fn status_cancelled() {
    assert_eq!(parse("- [-] task").status, Status::Cancelled);
}

#[test]
fn unknown_status_parses_as_open() {
    assert_eq!(parse("- [?] weird task").status, Status::Open);
}

// ── description ──────────────────────────────────────────────────────────

#[test]
fn plain_description() {
    assert_eq!(parse("- [ ] Buy milk").description, "Buy milk");
}

#[test]
fn description_with_wikilink() {
    assert_eq!(
        parse("- [x] FUP with [[John True]] 📅 2025-10-25 ✅ 2025-10-24").description,
        "FUP with [[John True]]"
    );
}

#[test]
fn description_with_tag() {
    let task = parse("- [ ] Sell backpacks #t");
    assert_eq!(task.description, "Sell backpacks #t");
    assert_eq!(task.tags, vec!["t"]);
}

#[test]
fn description_strips_nothing_when_no_fields() {
    let task = parse("- [ ] Just text, no fields");
    assert_eq!(task.description, "Just text, no fields");
    assert!(task.priority.is_none());
    assert!(task.due.is_none());
}

// ── indent / subtasks ────────────────────────────────────────────────────

#[test]
fn indent_level_zero() {
    assert_eq!(parse("- [ ] top level").indent_level, 0);
}

#[test]
fn indent_level_two_spaces() {
    let task = EmojiFormat.parse_line("  - [ ] indented", ctx()).unwrap();
    assert_eq!(task.indent_level, 2);
}

#[test]
fn indent_level_four_spaces() {
    let task = EmojiFormat
        .parse_line("    - [ ] deeply indented", ctx())
        .unwrap();
    assert_eq!(task.indent_level, 4);
}

// ── non-task lines ───────────────────────────────────────────────────────

#[test]
fn heading_returns_none() {
    assert!(EmojiFormat.parse_line("## Heading", ctx()).is_none());
}

#[test]
fn blank_line_returns_none() {
    assert!(EmojiFormat.parse_line("", ctx()).is_none());
}

#[test]
fn prose_returns_none() {
    assert!(EmojiFormat.parse_line("Some prose text.", ctx()).is_none());
}

#[test]
fn list_item_without_checkbox_returns_none() {
    assert!(EmojiFormat.parse_line("- plain list item", ctx()).is_none());
}

// ── priority ─────────────────────────────────────────────────────────────

#[test]
fn priority_highest() {
    assert_eq!(parse("- [ ] task 🔺").priority, Some(Priority::Highest));
}

#[test]
fn priority_high() {
    assert_eq!(parse("- [ ] task ⏫").priority, Some(Priority::High));
}

#[test]
fn priority_medium() {
    assert_eq!(parse("- [ ] task 🔼").priority, Some(Priority::Medium));
}

#[test]
fn priority_low() {
    assert_eq!(parse("- [ ] task 🔽").priority, Some(Priority::Low));
}

#[test]
fn priority_lowest() {
    assert_eq!(parse("- [ ] task ⏬").priority, Some(Priority::Lowest));
}

#[test]
fn no_priority() {
    assert!(parse("- [ ] task 📅 2026-05-10").priority.is_none());
}

// ── dates ─────────────────────────────────────────────────────────────────

fn date(y: i32, m: u32, d: u32) -> Date {
    Date::from_ymd_opt(y, m, d).unwrap()
}

#[test]
fn due_date() {
    let task = parse("- [ ] task 📅 2026-05-10");
    assert_eq!(task.due, Some(date(2026, 5, 10)));
}

#[test]
fn done_date() {
    let task = parse("- [x] task ✅ 2026-04-01");
    assert_eq!(task.done, Some(date(2026, 4, 1)));
}

#[test]
fn cancelled_date() {
    let task = parse("- [-] task ❌ 2026-02-01");
    assert_eq!(task.cancelled, Some(date(2026, 2, 1)));
}

#[test]
fn created_date() {
    let task = parse("- [ ] task ➕ 2025-11-17");
    assert_eq!(task.created, Some(date(2025, 11, 17)));
}

#[test]
fn start_date() {
    let task = parse("- [ ] task 🛫 2025-10-01");
    assert_eq!(task.start, Some(date(2025, 10, 1)));
}

#[test]
fn scheduled_date() {
    let task = parse("- [ ] task ⏳ 2025-12-29");
    assert_eq!(task.scheduled, Some(date(2025, 12, 29)));
}

#[test]
fn all_dates() {
    let line =
        "- [x] task ➕ 2025-01-01 🛫 2025-01-02 ⏳ 2025-01-03 📅 2025-01-04 ✅ 2025-01-05";
    let task = parse(line);
    assert_eq!(task.created, Some(date(2025, 1, 1)));
    assert_eq!(task.start, Some(date(2025, 1, 2)));
    assert_eq!(task.scheduled, Some(date(2025, 1, 3)));
    assert_eq!(task.due, Some(date(2025, 1, 4)));
    assert_eq!(task.done, Some(date(2025, 1, 5)));
}

// ── recurrence ────────────────────────────────────────────────────────────

#[test]
fn recurrence_simple() {
    let task = parse("- [ ] task 🔁 every day 📅 2026-05-10");
    assert_eq!(task.recurrence.as_deref(), Some("every day"));
}

#[test]
fn recurrence_monthly_with_day() {
    let task = parse("- [ ] Pay tax 🔼 🔁 every month on the 18th 📅 2026-05-18");
    assert_eq!(task.recurrence.as_deref(), Some("every month on the 18th"));
    assert_eq!(task.priority, Some(Priority::Medium));
    assert_eq!(task.due, Some(date(2026, 5, 18)));
}

#[test]
fn recurrence_at_end_no_following_field() {
    let task = parse("- [ ] task 🔁 every 15 days");
    assert_eq!(task.recurrence.as_deref(), Some("every 15 days"));
}

// ── ID and depends_on ─────────────────────────────────────────────────────

#[test]
fn task_id() {
    let task = parse("- [ ] task 🆔 abc123");
    assert_eq!(task.id.as_deref(), Some("abc123"));
}

#[test]
fn depends_on_single() {
    let task = parse("- [ ] task ⛔ abc123");
    assert_eq!(task.depends_on, vec!["abc123"]);
}

#[test]
fn depends_on_multiple() {
    let task = parse("- [ ] task ⛔ id1,id2,id3");
    assert_eq!(task.depends_on, vec!["id1", "id2", "id3"]);
}

// ── block link ────────────────────────────────────────────────────────────

#[test]
fn block_link_stripped() {
    let task = parse("- [ ] task 📅 2026-05-10 ^blk1a");
    assert_eq!(task.block_link.as_deref(), Some("blk1a"));
    assert_eq!(task.due, Some(date(2026, 5, 10)));
}

#[test]
fn no_block_link() {
    let task = parse("- [ ] task 📅 2026-05-10");
    assert!(task.block_link.is_none());
}

// ── tags ──────────────────────────────────────────────────────────────────

#[test]
fn multiple_tags() {
    let task = parse("- [ ] Do #work task #urgent 📅 2026-05-10");
    assert_eq!(task.tags, vec!["work", "urgent"]);
}

#[test]
fn nested_tag_slash() {
    let task = parse("- [ ] task #area/work");
    assert_eq!(task.tags, vec!["area/work"]);
}

// ── round-trip ────────────────────────────────────────────────────────────

#[test]
fn roundtrip_simple_open() {
    roundtrip("- [ ] Buy milk");
}

#[test]
fn roundtrip_done_with_date() {
    roundtrip("- [x] FUP with [[John True]] 📅 2025-10-25 ✅ 2025-10-24");
}

#[test]
fn roundtrip_cancelled_with_scheduled() {
    roundtrip("- [-] ACK: At any point in time ⏳ 2025-12-29 📅 2025-12-29 ❌ 2026-02-01");
}

#[test]
fn roundtrip_priority_and_recurrence() {
    roundtrip("- [ ] Pay tax (DAS) 🔼 🔁 every month on the 18th 📅 2026-05-18");
}

#[test]
fn roundtrip_created_due_done() {
    roundtrip("- [x] Order flowers ➕ 2025-11-24 📅 2025-11-24 ✅ 2025-11-24");
}

#[test]
fn roundtrip_highest_priority_all_dates() {
    roundtrip("- [x] Fix water leak 🔺 ➕ 2025-11-24 📅 2025-11-24 ✅ 2025-11-24");
}

#[test]
fn roundtrip_indented() {
    roundtrip("  - [ ] subtask under parent");
}

#[test]
fn roundtrip_with_block_link() {
    roundtrip("- [ ] task 📅 2026-05-10 ^abc123");
}

#[test]
fn roundtrip_with_tag() {
    roundtrip("- [ ] Sell backpacks #t");
}

#[test]
fn roundtrip_in_progress() {
    roundtrip("- [/] Working on it 📅 2026-05-09");
}

// ── pathological cases ────────────────────────────────────────────────────

#[test]
fn empty_description() {
    // Tasks with empty description are technically valid.
    let task = EmojiFormat
        .parse_line("- [ ]  📅 2026-05-10", ctx())
        .expect("should parse");
    assert_eq!(task.description, "");
    assert_eq!(task.due, Some(date(2026, 5, 10)));
}

#[test]
fn description_only_spaces_trimmed() {
    let task = EmojiFormat
        .parse_line("- [ ] task   📅 2026-05-10", ctx())
        .unwrap();
    // Trailing space before field should not bleed into description.
    assert_eq!(task.description, "task");
}

#[test]
fn wikilink_does_not_confuse_status_parser() {
    // The `[[` in a wikilink must not be mistaken for a task status.
    assert!(EmojiFormat.parse_line("See [[my note]]", ctx()).is_none());
}

// ── serialize, then parse ────────────────────────────────────────────────

fn plain_task(
    description: &str,
    status: Status,
    priority: Option<Priority>,
    due: Option<Date>,
    scheduled: Option<Date>,
    recurrence: Option<&str>,
) -> Task {
    Task {
        description: description.to_string(),
        status,
        priority,
        tags: extract_tags(description),
        created: Some(date(2025, 1, 1)),
        start: None,
        scheduled,
        due,
        done: None,
        cancelled: Some(date(2099, 12, 31)),
        recurrence: recurrence.map(|s| s.to_string()),
        id: None,
        depends_on: vec![],
        on_completion: None,
        block_link: None,
        raw_trailing: None,
        source_file: "test.md".to_string(),
        source_line: 1,
        indent_level: 0,
        parent: None,
    }
}

fn sample_tasks() -> Vec<Task> {
    let statuses = [Status::Open, Status::Done, Status::InProgress, Status::Cancelled];
    let priorities = [
        None,
        Some(Priority::Highest),
        Some(Priority::High),
        Some(Priority::Medium),
        Some(Priority::Low),
        Some(Priority::Lowest),
    ];
    let descriptions = ["Buy milk", "a", "Call (home) at 10:30, then email/notes."];
    let mut out = Vec::new();
    for (i, st) in statuses.iter().enumerate() {
        for (j, pr) in priorities.iter().enumerate() {
            let desc = descriptions[(i + j) % descriptions.len()];
            let due = if j % 2 == 0 { Some(date(1970 + j as i32, 1 + i as u32, 28)) } else { None };
            let sched = if i % 2 == 0 { Some(date(2099, 12, 1 + j as u32)) } else { None };
            let rec = if (i + j) % 3 == 0 { Some("every 2 weeks") } else { None };
            out.push(plain_task(desc, *st, *pr, due, sched, rec));
        }
    }
    out
}

#[test]
fn serialized_plain_tasks_parse_back() {
    for task in sample_tasks() {
        let line = EmojiFormat.serialize_line(&task);
        let parsed = EmojiFormat.parse_line(&line, ctx()).expect("serialized line parses");
        assert_eq!(parsed.description, task.description, "{line}");
        assert_eq!(parsed.status, task.status, "{line}");
        assert_eq!(parsed.priority, task.priority, "{line}");
        assert_eq!(parsed.created, task.created, "{line}");
        assert_eq!(parsed.start, task.start, "{line}");
        assert_eq!(parsed.scheduled, task.scheduled, "{line}");
        assert_eq!(parsed.due, task.due, "{line}");
        assert_eq!(parsed.done, task.done, "{line}");
        assert_eq!(parsed.cancelled, task.cancelled, "{line}");
        assert_eq!(parsed.recurrence, task.recurrence, "{line}");
        assert_eq!(parsed.id, task.id, "{line}");
        assert_eq!(parsed.depends_on, task.depends_on, "{line}");
        assert_eq!(parsed.tags, task.tags, "{line}");
    }
}

#[test]
fn serialize_of_parsed_line_is_stable() {
    for task in sample_tasks() {
        let line1 = EmojiFormat.serialize_line(&task);
        let parsed = EmojiFormat.parse_line(&line1, ctx()).unwrap();
        let line2 = EmojiFormat.serialize_line(&parsed);
        assert_eq!(line1, line2);
    }
}

#[test]
fn serialize_canonical_field_order() {
    let mut t = plain_task("Pay tax", Status::Open, Some(Priority::Medium), Some(date(2026, 5, 18)), None, Some("every month"));
    t.created = None;
    t.cancelled = None;
    t.id = Some("x1".to_string());
    t.depends_on = vec!["a".to_string(), "b".to_string()];
    t.block_link = Some("blk".to_string());
    t.indent_level = 2;
    assert_eq!(
        EmojiFormat.serialize_line(&t),
        "  - [ ] Pay tax 🔼 🔁 every month 📅 2026-05-18 🆔 x1 ⛔ a,b ^blk"
    );
}

#[test]
fn unknown_trailing_text_kept_verbatim() {
    let task = parse("- [ ] task 📅 2026-05-10 🏁 delete");
    assert_eq!(task.due, Some(date(2026, 5, 10)));
    assert_eq!(task.raw_trailing.as_deref(), Some("🏁 delete"));
    assert_eq!(EmojiFormat.serialize_line(&task), "- [ ] task 📅 2026-05-10 🏁 delete");
}

#[test]
fn invalid_date_after_marker_is_description() {
    let task = parse("- [ ] task 📅 2026-13-40");
    assert_eq!(task.due, None);
    assert_eq!(task.description, "task 📅 2026-13-40");
}

#[test]
fn extract_tags_reads_hash_runs() {
    assert_eq!(extract_tags("a #x b #y/z-1 #"), vec!["x", "y/z-1"]);
    assert!(extract_tags("no tags").is_empty());
}
