use ft_core::timeblock::{parse_line, parse_tag_string, parse_tags, serialize_line, ParseError, Time, Timeblock};

fn t(h: u32, m: u32) -> Time {
    Time::from_hm_opt(h, m).unwrap()
}

// ── parse_line: time grammar ──────────────────────────────────────────────

#[test]
fn parses_full_form_with_desc() {
    let b = parse_line("10:00 - 11:30 Buy coffee").unwrap();
    assert_eq!(b.start, t(10, 0));
    assert_eq!(b.end, t(11, 30));
    assert!(b.end_explicit);
    assert_eq!(b.desc, "Buy coffee");
}

#[test]
fn parses_short_form_with_derived_end() {
    let b = parse_line("10:00 Quick check").unwrap();
    assert_eq!(b.start, t(10, 0));
    assert_eq!(b.end, t(10, 30));
    assert!(!b.end_explicit);
    assert_eq!(b.desc, "Quick check");
}

#[test]
fn tolerates_leading_list_marker() {
    let b = parse_line("- 08:00 - 09:00 Standup").unwrap();
    assert_eq!(b.start, t(8, 0));
    assert_eq!(b.end, t(9, 0));
    assert_eq!(b.desc, "Standup");

    let b = parse_line("  *  09:00 - 10:00 Pair").unwrap();
    assert_eq!(b.start, t(9, 0));
    assert_eq!(b.desc, "Pair");
}

#[test]
fn allows_empty_description() {
    let b = parse_line("10:00 - 10:30").unwrap();
    assert_eq!(b.desc, "");
    assert!(b.tags.is_empty());
}

#[test]
fn description_can_start_with_digit() {
    let b = parse_line("10:00 - 11:00 1on1 with Hans").unwrap();
    assert_eq!(b.desc, "1on1 with Hans");
}

#[test]
fn rejects_missing_start_time() {
    assert!(matches!(parse_line("desc only"), Err(ParseError::BadStart { .. })));
}

#[test]
fn rejects_non_zero_padded_hour() {
    assert!(matches!(parse_line("9:00 - 10:00 nope"), Err(ParseError::BadStart { .. })));
}

#[test]
fn rejects_out_of_range_time() {
    assert!(matches!(parse_line("25:00 - 26:00 nope"), Err(ParseError::BadStart { .. })));
    assert!(matches!(parse_line("12:60 - 13:00 nope"), Err(ParseError::BadStart { .. })));
}

#[test]
fn rejects_end_at_or_before_start() {
    assert!(matches!(
        parse_line("11:00 - 11:00 zero-length"),
        Err(ParseError::EndBeforeStart { .. })
    ));
    assert!(matches!(
        parse_line("11:00 - 10:00 backwards"),
        Err(ParseError::EndBeforeStart { .. })
    ));
}

#[test]
fn dash_without_end_falls_back_to_desc() {
    let b = parse_line("10:00 - foo").unwrap();
    assert_eq!(b.start, t(10, 0));
    assert!(!b.end_explicit);
    assert_eq!(b.desc, "- foo");
}

#[test]
fn empty_input_is_empty_error() {
    assert!(matches!(parse_line(""), Err(ParseError::Empty)));
    assert!(matches!(parse_line("   "), Err(ParseError::Empty)));
}

#[test]
fn short_form_near_midnight_wraps_end() {
    let b = parse_line("23:45 late").unwrap();
    assert_eq!(b.end, t(0, 15));
}

#[test]
fn end_before_start_names_both_times() {
    assert_eq!(
        parse_line("11:00 - 10:00 backwards"),
        Err(ParseError::EndBeforeStart {
            start: "11:00".to_string(),
            end: "10:00".to_string()
        })
    );
}

// ── parse_tags: lenient inline tag extraction ─────────────────────────────

#[test]
fn parses_one_level_tag() {
    let b = parse_line("10:00 - 11:00 Buy coffee @chores").unwrap();
    assert_eq!(b.tags.len(), 1);
    assert_eq!(b.tags[0].levels, vec!["chores"]);
}

#[test]
fn parses_three_level_tag() {
    let b = parse_line("10:00 - 11:00 do thing @work/proj/sub").unwrap();
    assert_eq!(b.tags[0].levels, vec!["work", "proj", "sub"]);
}

#[test]
fn parses_multiple_tags() {
    let b = parse_line("10:00 - 11:00 Plan @work/meeting @personal").unwrap();
    assert_eq!(b.tags.len(), 2);
    assert_eq!(b.tags[0].levels, vec!["work", "meeting"]);
    assert_eq!(b.tags[1].levels, vec!["personal"]);
}

#[test]
fn four_level_tag_is_skipped_not_errored() {
    let b = parse_line("10:00 - 11:00 thing @a/b/c/d more").unwrap();
    assert_eq!(b.desc, "thing @a/b/c/d more");
    assert!(b.tags.is_empty());
}

#[test]
fn bracket_tag_is_skipped_not_errored() {
    let b = parse_line("10:00 - 11:00 thing @p/[[Proj]]/x").unwrap();
    assert_eq!(b.desc, "thing @p/[[Proj]]/x");
    assert!(b.tags.is_empty());
}

#[test]
fn paren_tag_is_skipped_not_errored() {
    let b = parse_line("10:00 - 11:00 thing @p/(Hi)/x").unwrap();
    assert!(b.tags.is_empty());
}

#[test]
fn email_at_token_is_skipped() {
    let b = parse_line("10:00 - 11:00 mail @example.com about thing").unwrap();
    assert!(b.tags.is_empty());
}

#[test]
fn bare_at_sign_is_ignored() {
    let b = parse_line("10:00 - 11:00 hello @ world").unwrap();
    assert!(b.tags.is_empty());
}

// ── parse_tag_string: strict validation ───────────────────────────────────

#[test]
fn strict_tag_string_parses_with_and_without_prefix() {
    assert_eq!(parse_tag_string("@work").unwrap().levels, vec!["work"]);
    assert_eq!(parse_tag_string("work").unwrap().levels, vec!["work"]);
    assert_eq!(parse_tag_string("@a/b/c").unwrap().levels, vec!["a", "b", "c"]);
}

#[test]
fn strict_tag_string_rejects_four_levels() {
    assert_eq!(parse_tag_string("a/b/c/d"), Err(ParseError::TagTooDeep));
}

#[test]
fn strict_tag_string_rejects_brackets() {
    assert!(matches!(parse_tag_string("a/[[x]]"), Err(ParseError::TagBadChar { ch: '[' })));
}

#[test]
fn strict_tag_string_rejects_empty_level() {
    assert_eq!(parse_tag_string("a//b"), Err(ParseError::Empty));
    assert_eq!(parse_tag_string(""), Err(ParseError::Empty));
    assert_eq!(parse_tag_string("@"), Err(ParseError::Empty));
}

// ── serialize_line / round-trip ───────────────────────────────────────────

#[test]
fn serialize_emits_canonical_form() {
    let b = Timeblock {
        start: t(9, 5),
        end: t(10, 0),
        end_explicit: true,
        desc: "Standup".into(),
        tags: vec![],
        source_line: 0,
    };
    assert_eq!(serialize_line(&b), "09:05 - 10:00 Standup");
}

#[test]
fn serialize_normalizes_short_form_to_full_form() {
    let b = parse_line("10:00 quick").unwrap();
    assert_eq!(serialize_line(&b), "10:00 - 10:30 quick");
}

#[test]
fn serialize_empty_desc_emits_no_trailing_space() {
    let b = Timeblock {
        start: t(9, 0),
        end: t(9, 30),
        end_explicit: true,
        desc: String::new(),
        tags: vec![],
        source_line: 0,
    };
    assert_eq!(serialize_line(&b), "09:00 - 09:30");
}

#[test]
fn serialize_preserves_inline_tag_text() {
    let b = parse_line("10:00 - 11:00 review @work/code").unwrap();
    assert_eq!(serialize_line(&b), "10:00 - 11:00 review @work/code");
}

#[test]
fn round_trip_serialize_parse_serialize() {
    for (h1, m1, dur, desc) in [
        (0u32, 0u32, 1u32, "a"),
        (9, 5, 55, "Standup with team"),
        (22, 58, 59, "late 2nd shift"),
        (12, 30, 30, "x1 y2"),
    ] {
        let total = h1 * 60 + m1 + dur;
        assert!(total < 24 * 60);
        let b = Timeblock {
            start: t(h1, m1),
            end: t(total / 60, total % 60),
            end_explicit: true,
            desc: desc.trim().to_string(),
            tags: vec![],
            source_line: 0,
        };
        let s1 = serialize_line(&b);
        let parsed = parse_line(&s1).unwrap();
        assert_eq!(parsed.start, b.start);
        assert_eq!(parsed.end, b.end);
        assert_eq!(parsed.desc, b.desc);
        let s2 = serialize_line(&parsed);
        assert_eq!(s1, s2);
    }
}

// ── Tag::to_string_form ───────────────────────────────────────────────────

#[test]
fn tag_string_form_roundtrips_with_parse() {
    for input in ["@work", "@work/meeting", "@a/b/c"] {
        let t = parse_tag_string(input).unwrap();
        assert_eq!(t.to_string_form(), input);
    }
}

#[test]
fn time_helpers() {
    assert_eq!(t(9, 5).to_hhmm(), "09:05");
    assert_eq!(t(9, 5).minute_of_day(), 545);
    assert_eq!(t(23, 50).plus_minutes(20), t(0, 10));
    assert!(Time::from_hm_opt(24, 0).is_none());
    assert!(Time::from_hm_opt(0, 60).is_none());
}

#[test]
fn found_tags_read_back_from_their_form() {
    let d = "plan @work/meeting and @home then @a/b/c/d and mail@x.com";
    let tags = parse_tags(d);
    assert_eq!(tags.len(), 2);
    for t in &tags {
        let form = t.to_string_form();
        assert!(d.contains(&form));
        assert_eq!(parse_tag_string(&form).unwrap(), *t);
    }
    assert!(parse_tags("thing @a/b/c/d more").is_empty());
}
