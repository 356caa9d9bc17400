use ft_core::selector::{parse, resolve, Selector};
use ft_core::task::emoji::EmojiFormat;
use ft_core::task::format::{ParseContext, TaskFormat};
use ft_core::task::hierarchy::resolve_hierarchy;
use ft_core::task::{Status, Task};

fn task(id: Option<&str>, file: &str, line: usize, desc: &str, status: Status) -> Task {
    Task {
        description: desc.into(),
        status,
        priority: None,
        tags: vec![],
        created: None,
        start: None,
        scheduled: None,
        due: None,
        done: None,
        cancelled: None,
        recurrence: None,
        id: id.map(str::to_string),
        depends_on: vec![],
        on_completion: None,
        block_link: None,
        raw_trailing: None,
        source_file: file.to_string(),
        source_line: line,
        indent_level: 0,
        parent: None,
    }
}

// ── parse ─────────────────────────────────────────────────────────────────

#[test]
fn parse_file_colon_line() {
    assert_eq!(
        parse("notes/inbox.md:5"),
        Selector::FileLine {
            file: "notes/inbox.md".to_string(),
            line: 5,
        }
    );
}

#[test]
fn parse_bare_id() {
    assert_eq!(parse("abc123"), Selector::Id("abc123".into()));
    assert_eq!(parse("foo-bar_42"), Selector::Id("foo-bar_42".into()));
}

#[test]
fn parse_fuzzy_for_text_with_space() {
    assert_eq!(parse("buy milk"), Selector::Fuzzy("buy milk".into()));
}

#[test]
fn parse_fuzzy_when_colon_suffix_not_numeric() {
    assert_eq!(
        parse("notes/inbox.md:later"),
        Selector::Fuzzy("notes/inbox.md:later".into())
    );
}

#[test]
fn parse_zero_line_falls_to_id_or_fuzzy() {
    assert_eq!(parse("foo:0"), Selector::Fuzzy("foo:0".into()));
}

// ── resolve ───────────────────────────────────────────────────────────────

#[test]
fn resolve_id_unique() {
    let tasks = vec![
        task(Some("abc"), "a.md", 1, "first", Status::Open),
        task(Some("xyz"), "b.md", 2, "second", Status::Open),
    ];
    let m = resolve(&tasks, &Selector::Id("xyz".into()));
    assert_eq!(m.len(), 1);
    assert_eq!(m[0].description, "second");
}

#[test]
fn resolve_id_no_match() {
    let tasks = vec![task(Some("abc"), "a.md", 1, "first", Status::Open)];
    let m = resolve(&tasks, &Selector::Id("nope".into()));
    assert!(m.is_empty());
}

#[test]
fn resolve_file_line_exact() {
    let tasks = vec![
        task(None, "notes/inbox.md", 3, "x", Status::Open),
        task(None, "notes/inbox.md", 5, "y", Status::Open),
    ];
    let m = resolve(
        &tasks,
        &Selector::FileLine {
            file: "notes/inbox.md".to_string(),
            line: 5,
        },
    );
    assert_eq!(m.len(), 1);
    assert_eq!(m[0].description, "y");
}

#[test]
fn resolve_file_line_suffix_match() {
    let tasks = vec![task(None, "notes/inbox.md", 5, "y", Status::Open)];
    let m = resolve(
        &tasks,
        &Selector::FileLine {
            file: "inbox.md".to_string(),
            line: 5,
        },
    );
    assert_eq!(m.len(), 1);
}

#[test]
fn resolve_fuzzy_matches_description() {
    let tasks = vec![
        task(None, "a.md", 1, "Buy milk", Status::Open),
        task(None, "a.md", 2, "Walk dog", Status::Open),
    ];
    let m = resolve(&tasks, &Selector::Fuzzy("milk".into()));
    assert_eq!(m.len(), 1);
    assert_eq!(m[0].description, "Buy milk");
}

#[test]
fn resolve_fuzzy_skips_done() {
    let tasks = vec![
        task(None, "a.md", 1, "Buy milk", Status::Done),
        task(None, "a.md", 2, "Buy milk again", Status::Open),
    ];
    let m = resolve(&tasks, &Selector::Fuzzy("milk".into()));
    assert_eq!(m.len(), 1);
    assert_eq!(m[0].description, "Buy milk again");
}

#[test]
fn resolve_fuzzy_matches_path() {
    let tasks = vec![
        task(None, "projects/alpha.md", 1, "review", Status::Open),
        task(None, "projects/beta.md", 1, "review", Status::Open),
    ];
    let m = resolve(&tasks, &Selector::Fuzzy("alpha".into()));
    assert_eq!(m.len(), 1);
    assert_eq!(m[0].source_file, "projects/alpha.md".to_string());
}

#[test]
fn resolve_fuzzy_is_case_insensitive() {
    let tasks = vec![task(None, "a.md", 1, "Buy MILK", Status::Open)];
    let m = resolve(&tasks, &Selector::Fuzzy("milk".into()));
    assert_eq!(m.len(), 1);
}

#[test]
fn resolve_file_line_wrong_line_is_empty() {
    let tasks = vec![task(None, "notes/inbox.md", 5, "y", Status::Open)];
    let m = resolve(
        &tasks,
        &Selector::FileLine {
            file: "notes/inbox.md".to_string(),
            line: 6,
        },
    );
    assert!(m.is_empty());
}

// ── hierarchy ─────────────────────────────────────────────────────────────

fn parse_tasks(lines: &[&str]) -> Vec<Task> {
    lines
        .iter()
        .enumerate()
        .filter_map(|(i, line)| {
            EmojiFormat.parse_line(
                line,
                ParseContext {
                    source_file: "test.md".to_string(),
                    source_line: i + 1,
                },
            )
        })
        .collect()
}

#[test]
fn no_children_when_all_same_indent() {
    let mut tasks = parse_tasks(&["- [ ] task A", "- [ ] task B", "- [ ] task C"]);
    resolve_hierarchy(&mut tasks);
    for t in &tasks {
        assert!(t.parent.is_none(), "flat tasks should have no parent");
    }
}

#[test]
fn single_level_children() {
    let mut tasks = parse_tasks(&["- [ ] parent", "  - [ ] child A", "  - [ ] child B"]);
    resolve_hierarchy(&mut tasks);
    assert!(tasks[0].parent.is_none());
    assert_eq!(tasks[1].parent, Some(1));
    assert_eq!(tasks[2].parent, Some(1));
}

#[test]
fn two_level_nesting() {
    let mut tasks = parse_tasks(&["- [ ] grandparent", "  - [ ] parent", "    - [ ] child"]);
    resolve_hierarchy(&mut tasks);
    assert!(tasks[0].parent.is_none());
    assert_eq!(tasks[1].parent, Some(1));
    assert_eq!(tasks[2].parent, Some(2));
}

#[test]
fn three_level_nesting() {
    let mut tasks = parse_tasks(&[
        "- [ ] L0",
        "  - [ ] L1",
        "    - [ ] L2a",
        "    - [ ] L2b",
        "  - [ ] L1b",
    ]);
    resolve_hierarchy(&mut tasks);
    assert!(tasks[0].parent.is_none());
    assert_eq!(tasks[1].parent, Some(1));
    assert_eq!(tasks[2].parent, Some(2));
    assert_eq!(tasks[3].parent, Some(2));
    assert_eq!(tasks[4].parent, Some(1));
}

#[test]
fn mixed_statuses_in_hierarchy() {
    let mut tasks = parse_tasks(&[
        "- [ ] open parent",
        "  - [x] done child ✅ 2026-05-01",
        "  - [-] cancelled child ❌ 2026-05-02",
    ]);
    resolve_hierarchy(&mut tasks);
    assert_eq!(tasks[1].parent, Some(1));
    assert_eq!(tasks[2].parent, Some(1));
}

#[test]
fn dedent_skips_to_outer_ancestor() {
    let mut tasks = parse_tasks(&["- [ ] a", "    - [ ] b", "  - [ ] c"]);
    resolve_hierarchy(&mut tasks);
    assert_eq!(tasks[1].parent, Some(1));
    assert_eq!(tasks[2].parent, Some(1));
}

#[test]
fn stale_parent_of_a_top_level_task_is_cleared() {
    let mut tasks = parse_tasks(&["- [ ] a", "- [ ] b"]);
    tasks[0].parent = Some(99);
    tasks[1].parent = Some(42);
    resolve_hierarchy(&mut tasks);
    assert_eq!(tasks[0].parent, None);
    assert_eq!(tasks[1].parent, None);
}
