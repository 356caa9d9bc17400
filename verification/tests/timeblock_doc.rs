use ft_core::error::Error;
use ft_core::timeblock::doc::{reindexed, Document};
use ft_core::timeblock::ops::{
    add_block, delete_block, edit_block, AddOptions, EditMutation, Selector, SelectorResult, TimeChange,
};
use ft_core::timeblock::{parse_line, parse_tags, Tag, Time, Timeblock};

fn t(h: u32, m: u32) -> Time {
    Time::from_hm_opt(h, m).unwrap()
}

fn read(body: &str) -> Document {
    Document::read("day.md", body.to_string(), "Time Blocks")
}

// ── Document::read ────────────────────────────────────────────────────────

#[test]
fn read_returns_empty_blocks_when_file_missing() {
    let doc = read("");
    assert!(doc.blocks.is_empty());
    assert!(!doc.heading_present);
}

#[test]
fn read_returns_empty_blocks_when_heading_missing() {
    let doc = read("# Day\n\nNothing here yet.\n");
    assert!(doc.blocks.is_empty());
    assert!(!doc.heading_present);
}

#[test]
fn read_parses_blocks_under_heading() {
    let doc = read(
        "# Day\n\n## Time Blocks\n- 09:00 - 10:00 standup\n- 10:00 - 11:00 review @work\n\n## Notes\n- skip this\n",
    );
    assert_eq!(doc.blocks.len(), 2);
    assert_eq!(doc.blocks[0].desc, "standup");
    assert_eq!(doc.blocks[1].desc, "review @work");
    assert!(doc.heading_present);
    assert_eq!(doc.heading_level, 2);
    assert_eq!(doc.blocks[0].source_line, 1);
    assert_eq!(doc.blocks[1].source_line, 2);
}

#[test]
fn read_is_case_insensitive_and_level_insensitive() {
    let doc = read("### time blocks\n- 09:00 - 10:00 foo\n");
    assert_eq!(doc.blocks.len(), 1);
    assert_eq!(doc.heading_level, 3);
}

#[test]
fn read_ignores_blocks_inside_fenced_code() {
    let doc = read("## Time Blocks\n```\n- 09:00 - 10:00 fenced not real\n```\n- 10:00 - 11:00 real\n");
    assert_eq!(doc.blocks.len(), 1);
    assert_eq!(doc.blocks[0].desc, "real");
}

#[test]
fn read_stops_at_equal_or_higher_heading() {
    let doc = read("## Time Blocks\n- 09:00 - 10:00 in section\n## Next\n- 10:00 - 11:00 out\n");
    assert_eq!(doc.blocks.len(), 1);
    assert_eq!(doc.blocks[0].desc, "in section");
}

#[test]
fn read_descends_into_sub_headings_in_section() {
    let doc = read("## Time Blocks\n- 09:00 - 10:00 a\n### Sub\n- 10:00 - 11:00 b\n");
    assert_eq!(doc.blocks.len(), 2);
}

#[test]
fn read_sorts_out_of_order_blocks_by_start_time() {
    let doc = read("## Time Blocks\n- 11:00 - 12:00 second\n- 09:00 - 10:00 first\n");
    assert_eq!(doc.blocks[0].desc, "first");
    assert_eq!(doc.blocks[1].desc, "second");
}

// ── Document::render ──────────────────────────────────────────────────────

#[test]
fn write_appends_heading_when_missing() {
    let mut doc = read("# Day\n\nprose\n");
    doc.blocks.push(parse_line("09:00 - 10:00 first").unwrap());
    let body = doc.render();
    assert!(body.contains("## Time Blocks\n"));
    assert!(body.contains("- 09:00 - 10:00 first"));
    assert!(body.starts_with("# Day\n\nprose\n"));
}

#[test]
fn write_replaces_existing_section_in_place() {
    let mut doc = read("# Day\n\n## Time Blocks\n- 09:00 - 10:00 old\n\n## Notes\nkeep\n");
    doc.blocks.clear();
    doc.blocks.push(parse_line("10:00 - 11:00 new").unwrap());
    let body = doc.render();
    assert!(body.contains("- 10:00 - 11:00 new"));
    assert!(!body.contains("old"));
    assert!(body.contains("## Notes"));
    assert!(body.contains("keep"));
}

#[test]
fn write_preserves_content_outside_section() {
    let original = "# Day\n\nintro prose\n\n## Time Blocks\n- 09:00 - 10:00 old\n\n## Notes\n- keep me\n\n## Trailing\nfinal\n";
    let mut doc = read(original);
    doc.blocks.clear();
    doc.blocks.push(parse_line("08:00 - 09:00 fresh").unwrap());
    let body = doc.render();
    assert!(body.starts_with("# Day\n\nintro prose\n"));
    assert!(body.contains("- keep me"));
    assert!(body.contains("## Trailing\nfinal\n"));
}

#[test]
fn write_is_atomic_via_write_atomic() {
    let mut doc = read("## Time Blocks\n- 09:00 - 10:00 a\n");
    doc.blocks.clear();
    doc.blocks.push(parse_line("11:00 - 12:00 z").unwrap());
    let body = doc.render();
    assert!(!body.contains("09:00"));
    assert!(body.contains("11:00 - 12:00 z"));
}

#[test]
fn write_creates_file_when_missing() {
    let mut doc = read("");
    doc.blocks.push(parse_line("09:00 - 10:00 first").unwrap());
    let body = doc.render();
    assert!(body.contains("## Time Blocks"));
    assert!(body.contains("- 09:00 - 10:00 first"));
}

#[test]
fn render_produces_what_write_would_write() {
    let mut doc = read("## Time Blocks\n- 09:00 - 10:00 a\n");
    doc.blocks.push(parse_line("10:00 - 11:00 b").unwrap());
    let rendered = doc.render();
    assert_eq!(rendered, "## Time Blocks\n\n- 09:00 - 10:00 a\n- 10:00 - 11:00 b\n\n");
}

#[test]
fn render_normalizes_section_layout() {
    let doc = read("# Day\n\n## Time Blocks\n- 09:00 - 10:00 a\n\n## Notes\nx\n");
    assert_eq!(
        doc.render(),
        "# Day\n\n## Time Blocks\n\n- 09:00 - 10:00 a\n\n## Notes\nx\n"
    );
}

#[test]
fn reindexed_sorts_and_numbers() {
    let blocks = vec![mkblock(7, 11, 0, 12, 0, "late"), mkblock(3, 9, 0, 10, 0, "early")];
    let r = reindexed(&blocks);
    assert_eq!(r[0].desc, "early");
    assert_eq!(r[0].source_line, 1);
    assert_eq!(r[1].desc, "late");
    assert_eq!(r[1].source_line, 2);
}

// ── Selector / SelectorResult ─────────────────────────────────────────────

fn mkblock(line: usize, sh: u32, sm: u32, eh: u32, em: u32, desc: &str) -> Timeblock {
    Timeblock {
        start: t(sh, sm),
        end: t(eh, em),
        end_explicit: true,
        desc: desc.into(),
        tags: parse_tags(desc),
        source_line: line,
    }
}

#[test]
fn selector_line_matches_by_source_line() {
    let blocks = vec![mkblock(1, 9, 0, 10, 0, "a"), mkblock(2, 10, 0, 11, 0, "b")];
    assert_eq!(Selector::Line(2).resolve(&blocks), SelectorResult::Found(1));
    assert_eq!(Selector::Line(9).resolve(&blocks), SelectorResult::NoMatch);
}

#[test]
fn selector_time_matches_by_start() {
    let blocks = vec![mkblock(1, 9, 0, 10, 0, "a"), mkblock(2, 10, 0, 11, 0, "b")];
    assert_eq!(Selector::Time(t(10, 0)).resolve(&blocks), SelectorResult::Found(1));
}

#[test]
fn selector_fuzzy_case_insensitive() {
    let blocks = vec![mkblock(1, 9, 0, 10, 0, "Standup"), mkblock(2, 10, 0, 11, 0, "code review")];
    assert_eq!(Selector::Fuzzy("REVIEW".into()).resolve(&blocks), SelectorResult::Found(1));
}

#[test]
fn selector_fuzzy_ambiguous_returns_all() {
    let blocks = vec![mkblock(1, 9, 0, 10, 0, "review code"), mkblock(2, 10, 0, 11, 0, "review pr")];
    assert_eq!(
        Selector::Fuzzy("review".into()).resolve(&blocks),
        SelectorResult::Ambiguous(vec![0, 1]),
    );
}

// ── add_block ─────────────────────────────────────────────────────────────

#[test]
fn add_block_inserts_into_existing_section() {
    let doc = read("## Time Blocks\n- 09:00 - 10:00 a\n");
    let new = parse_line("10:00 - 11:00 b").unwrap();
    let doc = add_block(doc, new, AddOptions::default()).unwrap();
    assert_eq!(doc.blocks.len(), 2);
    let body = doc.render();
    assert!(body.contains("- 09:00 - 10:00 a"));
    assert!(body.contains("- 10:00 - 11:00 b"));
}

#[test]
fn add_block_preserves_sort_order() {
    let doc = read("## Time Blocks\n- 10:00 - 11:00 second\n");
    let new = parse_line("09:00 - 10:00 first").unwrap();
    let doc = add_block(doc, new, AddOptions::default()).unwrap();
    assert_eq!(doc.blocks[0].desc, "first");
    assert_eq!(doc.blocks[1].desc, "second");
    let body = doc.render();
    let idx_first = body.find("first").unwrap();
    let idx_second = body.find("second").unwrap();
    assert!(idx_first < idx_second);
}

#[test]
fn add_block_creates_section_when_missing() {
    let doc = read("# Day\n\nprose\n");
    let new = parse_line("09:00 - 10:00 fresh").unwrap();
    let doc = add_block(doc, new, AddOptions::default()).unwrap();
    let body = doc.render();
    assert!(body.contains("## Time Blocks"));
    assert!(body.contains("- 09:00 - 10:00 fresh"));
}

#[test]
fn add_block_rejects_exact_duplicate() {
    let doc = read("## Time Blocks\n- 09:00 - 10:00 same\n");
    let dup = parse_line("09:00 - 10:00 same").unwrap();
    let err = add_block(doc, dup, AddOptions::default()).unwrap_err();
    assert!(matches!(err, Error::Timeblock(_)));
}

#[test]
fn add_block_force_inserts_duplicate() {
    let doc = read("## Time Blocks\n- 09:00 - 10:00 same\n");
    let dup = parse_line("09:00 - 10:00 same").unwrap();
    let doc = add_block(doc, dup, AddOptions { force: true }).unwrap();
    let body = doc.render();
    let count = body.matches("- 09:00 - 10:00 same").count();
    assert_eq!(count, 2);
}

// ── edit_block ────────────────────────────────────────────────────────────

fn one() -> Document {
    read("## Time Blocks\n- 09:00 - 10:00 a\n")
}

#[test]
fn edit_block_absolute_start_and_end() {
    let doc = edit_block(
        one(),
        &Selector::Line(1),
        EditMutation {
            start: Some(TimeChange::Absolute(t(9, 30))),
            end: Some(TimeChange::Absolute(t(11, 0))),
            ..Default::default()
        },
    )
    .unwrap();
    assert_eq!(doc.blocks[0].start, t(9, 30));
    assert_eq!(doc.blocks[0].end, t(11, 0));
}

#[test]
fn edit_block_relative_shifts() {
    let doc = edit_block(
        one(),
        &Selector::Time(t(9, 0)),
        EditMutation {
            end: Some(TimeChange::ShiftMinutes(15)),
            ..Default::default()
        },
    )
    .unwrap();
    assert_eq!(doc.blocks[0].end, t(10, 15));
}

#[test]
fn edit_block_shift_clamps_at_zero() {
    let doc = edit_block(
        one(),
        &Selector::Line(1),
        EditMutation {
            start: Some(TimeChange::ShiftMinutes(-1000)),
            ..Default::default()
        },
    )
    .unwrap();
    assert_eq!(doc.blocks[0].start, t(0, 0));
}

#[test]
fn edit_block_shift_clamps_at_2359() {
    let doc = edit_block(
        one(),
        &Selector::Line(1),
        EditMutation {
            end: Some(TimeChange::ShiftMinutes(10_000)),
            ..Default::default()
        },
    )
    .unwrap();
    assert_eq!(doc.blocks[0].end, t(23, 59));
}

#[test]
fn edit_block_rejects_end_at_or_before_start() {
    let err = edit_block(
        one(),
        &Selector::Line(1),
        EditMutation {
            end: Some(TimeChange::Absolute(t(9, 0))),
            ..Default::default()
        },
    )
    .unwrap_err();
    assert!(matches!(err, Error::Timeblock(_)));
}

#[test]
fn edit_block_add_tag_appends_to_desc() {
    let doc = edit_block(
        read("## Time Blocks\n- 09:00 - 10:00 standup\n"),
        &Selector::Line(1),
        EditMutation {
            add_tags: vec![Tag {
                levels: vec!["work".into(), "meeting".into()],
            }],
            ..Default::default()
        },
    )
    .unwrap();
    assert_eq!(doc.blocks[0].desc, "standup @work/meeting");
    assert_eq!(doc.blocks[0].tags.len(), 1);
}

#[test]
fn edit_block_add_tag_dedupes_existing() {
    let doc = edit_block(
        read("## Time Blocks\n- 09:00 - 10:00 standup @work\n"),
        &Selector::Line(1),
        EditMutation {
            add_tags: vec![Tag {
                levels: vec!["work".into()],
            }],
            ..Default::default()
        },
    )
    .unwrap();
    assert_eq!(doc.blocks[0].desc, "standup @work");
    assert_eq!(doc.blocks[0].tags.len(), 1);
}

#[test]
fn edit_block_remove_tag_strips_token() {
    let doc = edit_block(
        read("## Time Blocks\n- 09:00 - 10:00 standup @work @later\n"),
        &Selector::Line(1),
        EditMutation {
            remove_tags: vec![Tag {
                levels: vec!["work".into()],
            }],
            ..Default::default()
        },
    )
    .unwrap();
    assert_eq!(doc.blocks[0].desc, "standup @later");
}

#[test]
fn edit_block_change_desc_refreshes_tags() {
    let doc = edit_block(
        read("## Time Blocks\n- 09:00 - 10:00 old @prev\n"),
        &Selector::Line(1),
        EditMutation {
            desc: Some("new desc @work/x".into()),
            ..Default::default()
        },
    )
    .unwrap();
    assert_eq!(doc.blocks[0].desc, "new desc @work/x");
    assert_eq!(doc.blocks[0].tags[0].levels, vec!["work", "x"]);
}

#[test]
fn edit_block_no_match_errors() {
    let err = edit_block(one(), &Selector::Line(99), EditMutation::default()).unwrap_err();
    assert!(matches!(err, Error::Timeblock(_)));
}

#[test]
fn edit_block_ambiguous_errors() {
    let err = edit_block(
        read("## Time Blocks\n- 09:00 - 10:00 review pr\n- 10:00 - 11:00 review issues\n"),
        &Selector::Fuzzy("review".into()),
        EditMutation::default(),
    )
    .unwrap_err();
    let msg = err.message();
    assert!(msg.contains("ambiguous"));
    assert!(msg.contains("review pr"));
}

// ── delete_block ──────────────────────────────────────────────────────────

#[test]
fn delete_block_removes_matched_block() {
    let doc = delete_block(
        read("## Time Blocks\n- 09:00 - 10:00 a\n- 10:00 - 11:00 b\n"),
        &Selector::Line(1),
    )
    .unwrap();
    assert_eq!(doc.blocks.len(), 1);
    assert_eq!(doc.blocks[0].desc, "b");
    let body = doc.render();
    assert!(!body.contains("- 09:00 - 10:00 a"));
    assert!(body.contains("- 10:00 - 11:00 b"));
}

#[test]
fn delete_block_no_match_errors() {
    let err = delete_block(one(), &Selector::Line(9)).unwrap_err();
    assert!(matches!(err, Error::Timeblock(_)));
}

#[test]
fn reading_a_rendered_section_gives_the_blocks_back() {
    let mut doc = read("# Day\n\n## Time Blocks\n- 09:00 - 10:00 a\n\n## Notes\nx");
    doc.blocks.push(parse_line("08:00 - 08:30 early #ops").unwrap());
    let rendered = doc.render();
    let again = read(&rendered);
    assert!(again.heading_present);
    assert_eq!(again.blocks.len(), 2);
    assert_eq!(again.blocks[0].start, t(8, 0));
    assert_eq!(again.blocks[0].end, t(8, 30));
    assert_eq!(again.blocks[0].desc, "early #ops");
    assert_eq!(again.blocks[1].start, t(9, 0));
    assert_eq!(again.blocks[1].desc, "a");
    assert!(rendered.ends_with("## Notes\nx"));
}

#[test]
fn render_keeps_crlf_lines_outside_the_section() {
    let doc = read("# Day\r\n## Time Blocks\r\n- 09:00 - 10:00 a\r\n## Notes\r\nkeep\r\n");
    let r = doc.render();
    assert!(r.starts_with("# Day\r\n"));
    assert!(r.ends_with("## Notes\r\nkeep\r\n"));
}
