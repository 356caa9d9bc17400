use ft_core::error::Error;
use ft_core::markdown::Heading;
use ft_core::notes::{
    extract_sections, move_sections, shift_section_level, validate_disjoint, Placement, Section,
    SectionPick,
};

// ── extract_sections ─────────────────────────────────────────────────

#[test]
fn extract_sections_empty_returns_empty() {
    assert_eq!(extract_sections(""), Vec::<Section>::new());
}

#[test]
fn extract_sections_no_headings_returns_empty() {
    assert_eq!(
        extract_sections("just prose\nno headings here\n"),
        Vec::<Section>::new()
    );
}

#[test]
fn extract_sections_single_h1() {
    let s = extract_sections("# Top\nbody line\n");
    assert_eq!(s.len(), 1);
    assert_eq!(s[0].heading.text, "Top");
    assert_eq!(s[0].body, "# Top\nbody line\n");
}

#[test]
fn extract_sections_h2_includes_nested_h3() {
    let body = "\
## Section A
text under A
### Nested
nested body
## Section B
text under B
";
    let s = extract_sections(body);
    // Every heading produces a section. Section A's body includes
    // the nested H3 (lower level), but the H3 also has its own
    // scoped entry — both are valid pick targets for move_sections.
    assert_eq!(s.len(), 3);
    assert_eq!(s[0].heading.text, "Section A");
    assert!(s[0].body.contains("### Nested"));
    assert!(s[0].body.contains("nested body"));
    assert!(!s[0].body.contains("Section B"));
    assert_eq!(s[1].heading.text, "Nested");
    assert_eq!(s[1].body, "### Nested\nnested body\n");
    assert_eq!(s[2].heading.text, "Section B");
    assert_eq!(s[2].body, "## Section B\ntext under B\n");
}

#[test]
fn extract_sections_sibling_h2s() {
    let body = "## A\na body\n## B\nb body\n";
    let s = extract_sections(body);
    assert_eq!(s.len(), 2);
    assert_eq!(s[0].body, "## A\na body\n");
    assert_eq!(s[1].body, "## B\nb body\n");
}

#[test]
fn extract_sections_content_before_first_heading_excluded() {
    let body = "prose first\nmore prose\n# Heading\nafter\n";
    let s = extract_sections(body);
    assert_eq!(s.len(), 1);
    assert!(!s[0].body.contains("prose first"));
    assert!(s[0].body.starts_with("# Heading"));
}

#[test]
fn extract_sections_skips_frontmatter() {
    let body = "\
---
title: Foo
---
# Real
real body
";
    let s = extract_sections(body);
    assert_eq!(s.len(), 1);
    assert_eq!(s[0].heading.text, "Real");
}

#[test]
fn extract_sections_trailing_section_without_newline() {
    let body = "# A\nfinal line";
    let s = extract_sections(body);
    assert_eq!(s.len(), 1);
    assert_eq!(s[0].body, "# A\nfinal line");
}

// ── shift_section_level ──────────────────────────────────────────────

#[test]
fn shift_no_op_returns_clone() {
    let body = "## A\ntext\n";
    let section = extract_sections(body).remove(0);
    let out = shift_section_level(&section, 2).unwrap();
    assert_eq!(out, body);
}

#[test]
fn shift_down_cascades_nested() {
    let body = "## Top\n### Mid\n#### Inner\nbody\n";
    let section = extract_sections(body).remove(0);
    let out = shift_section_level(&section, 3).unwrap();
    assert_eq!(out, "### Top\n#### Mid\n##### Inner\nbody\n");
}

#[test]
fn shift_up_cascades_nested() {
    let body = "### Top\n#### Mid\nbody\n";
    let section = extract_sections(body).remove(0);
    let out = shift_section_level(&section, 2).unwrap();
    assert_eq!(out, "## Top\n### Mid\nbody\n");
}

#[test]
fn shift_overflow_past_h6_errors() {
    let body = "## Top\n###### Deep\n";
    let section = extract_sections(body).remove(0);
    let err = shift_section_level(&section, 3).unwrap_err();
    match err {
        Error::Notes(msg) => assert!(msg.contains("outside 1..=6"), "msg: {msg}"),
        _ => panic!("expected Notes error"),
    }
}

#[test]
fn shift_below_h1_errors() {
    let body = "## Top\nbody\n";
    let section = extract_sections(body).remove(0);
    let err = shift_section_level(&section, 0).unwrap_err();
    assert!(matches!(err, Error::Notes(_)));
}

#[test]
fn shift_preserves_code_fence_pseudo_headings() {
    let body = "\
## Top
```rust
# pretend heading
```
### Real Nested
done
";
    let section = extract_sections(body).remove(0);
    let out = shift_section_level(&section, 3).unwrap();
    assert!(out.starts_with("### Top\n"));
    // The line inside the fence keeps its single `#`.
    assert!(out.contains("\n# pretend heading\n"));
    // The real nested heading shifts.
    assert!(out.contains("\n#### Real Nested\n"));
}

#[test]
fn shift_invalid_top_level_errors() {
    let body = "## Top\n";
    let section = extract_sections(body).remove(0);
    assert!(shift_section_level(&section, 7).is_err());
    assert!(shift_section_level(&section, 0).is_err());
}

// ── validate_disjoint ────────────────────────────────────────────────

#[test]
fn disjoint_empty_ok() {
    assert!(validate_disjoint(&[], &[]).is_ok());
}

#[test]
fn disjoint_singleton_ok() {
    let headings = vec![Heading {
        text: "A".into(),
        level: 2,
        line: 1,
    }];
    assert!(validate_disjoint(&[1], &headings).is_ok());
}

#[test]
fn disjoint_siblings_ok() {
    let headings = vec![
        Heading {
            text: "A".into(),
            level: 2,
            line: 1,
        },
        Heading {
            text: "B".into(),
            level: 2,
            line: 5,
        },
    ];
    assert!(validate_disjoint(&[1, 5], &headings).is_ok());
}

#[test]
fn disjoint_parent_and_child_errors() {
    let headings = vec![
        Heading {
            text: "Parent".into(),
            level: 2,
            line: 1,
        },
        Heading {
            text: "Child".into(),
            level: 3,
            line: 3,
        },
        Heading {
            text: "Sibling".into(),
            level: 2,
            line: 6,
        },
    ];
    let err = validate_disjoint(&[1, 3], &headings).unwrap_err();
    match err {
        Error::Notes(msg) => {
            assert!(msg.contains("line 3"));
            assert!(msg.contains("line 1"));
        }
        _ => panic!("expected Notes error"),
    }
}

#[test]
fn disjoint_duplicate_line_errors() {
    let headings = vec![Heading {
        text: "A".into(),
        level: 2,
        line: 1,
    }];
    let err = validate_disjoint(&[1, 1], &headings).unwrap_err();
    assert!(matches!(err, Error::Notes(_)));
}

// ── move_sections ────────────────────────────────────────────────────

#[test]
fn move_single_section_preserving_level() {
    let source = "\
## Keep me
keep body
## Move me
move body
";
    let target = "# Target\nbefore\n";
    let picks = [SectionPick {
        source_line: 3, // "## Move me"
        new_level: 2,
    }];
    let plan = [Placement {
        pick_idx: 0,
        after_line: Some(1), // after "# Target"
    }];
    let (new_source, new_target) = move_sections(source, &picks, target, &plan).unwrap();
    assert_eq!(new_source, "## Keep me\nkeep body\n");
    assert!(new_target.contains("## Move me\nmove body\n"));
    assert!(new_target.starts_with("# Target\nbefore\n## Move me"));
}

#[test]
fn move_single_section_with_level_shift() {
    let source = "## Move\nbody\n### Nested\nnested\n";
    let target = "# Target\n";
    let picks = [SectionPick {
        source_line: 1,
        new_level: 3,
    }];
    let plan = [Placement {
        pick_idx: 0,
        after_line: Some(1),
    }];
    let (new_source, new_target) = move_sections(source, &picks, target, &plan).unwrap();
    assert_eq!(new_source, "");
    assert!(new_target.contains("### Move\nbody\n#### Nested\nnested\n"));
}

#[test]
fn move_multiple_picks_preserves_relative_order() {
    let source = "\
## A
a body
## B
b body
## C
c body
";
    let target = "# T\n";
    let picks = [
        SectionPick {
            source_line: 1,
            new_level: 2,
        }, // A
        SectionPick {
            source_line: 5,
            new_level: 2,
        }, // C
    ];
    let plan = [
        Placement {
            pick_idx: 0,
            after_line: Some(1),
        },
        Placement {
            pick_idx: 1,
            after_line: Some(1),
        },
    ];
    let (new_source, new_target) = move_sections(source, &picks, target, &plan).unwrap();
    assert_eq!(new_source, "## B\nb body\n");
    // Both inserted after target line 1, in plan order.
    let a_idx = new_target.find("## A").unwrap();
    let c_idx = new_target.find("## C").unwrap();
    assert!(a_idx < c_idx);
}

#[test]
fn move_insert_at_top_when_after_line_is_none() {
    let source = "## Move\nbody\n";
    let target = "# Existing\nexisting body\n";
    let picks = [SectionPick {
        source_line: 1,
        new_level: 2,
    }];
    let plan = [Placement {
        pick_idx: 0,
        after_line: None,
    }];
    let (_, new_target) = move_sections(source, &picks, target, &plan).unwrap();
    assert!(new_target.starts_with("## Move\nbody\n# Existing"));
}

#[test]
fn move_insert_after_last_heading_appends() {
    let source = "## Move\nbody\n";
    let target = "# Existing\nexisting body\n";
    let picks = [SectionPick {
        source_line: 1,
        new_level: 2,
    }];
    let plan = [Placement {
        pick_idx: 0,
        after_line: Some(1),
    }];
    let (_, new_target) = move_sections(source, &picks, target, &plan).unwrap();
    assert_eq!(new_target, "# Existing\nexisting body\n## Move\nbody\n");
}

#[test]
fn move_picks_empty_returns_unchanged() {
    let source = "## A\nbody\n";
    let target = "# T\n";
    let (s, t) = move_sections(source, &[], target, &[]).unwrap();
    assert_eq!(s, source);
    assert_eq!(t, target);
}

#[test]
fn move_invalid_pick_line_errors() {
    let source = "## A\nbody\n";
    let target = "# T\n";
    let picks = [SectionPick {
        source_line: 99,
        new_level: 2,
    }];
    let plan = [Placement {
        pick_idx: 0,
        after_line: Some(1),
    }];
    let err = move_sections(source, &picks, target, &plan).unwrap_err();
    assert!(matches!(err, Error::Notes(_)));
}

#[test]
fn move_invalid_after_line_errors() {
    let source = "## A\nbody\n";
    let target = "# T\n";
    let picks = [SectionPick {
        source_line: 1,
        new_level: 2,
    }];
    let plan = [Placement {
        pick_idx: 0,
        after_line: Some(99),
    }];
    let err = move_sections(source, &picks, target, &plan).unwrap_err();
    assert!(matches!(err, Error::Notes(_)));
}

#[test]
fn move_disjoint_violation_errors() {
    let source = "## Parent\n### Child\nbody\n";
    let target = "# T\n";
    let picks = [
        SectionPick {
            source_line: 1,
            new_level: 2,
        },
        SectionPick {
            source_line: 2,
            new_level: 3,
        },
    ];
    let plan = [
        Placement {
            pick_idx: 0,
            after_line: Some(1),
        },
        Placement {
            pick_idx: 1,
            after_line: Some(1),
        },
    ];
    let err = move_sections(source, &picks, target, &plan).unwrap_err();
    assert!(matches!(err, Error::Notes(_)));
}

#[test]
fn move_plan_length_mismatch_errors() {
    let source = "## A\nbody\n";
    let target = "# T\n";
    let picks = [SectionPick {
        source_line: 1,
        new_level: 2,
    }];
    let plan: [Placement; 0] = [];
    let err = move_sections(source, &picks, target, &plan).unwrap_err();
    assert!(matches!(err, Error::Notes(_)));
}

#[test]
fn move_cascade_overflow_errors() {
    let source = "## Top\n###### Deep\n";
    let target = "# T\n";
    let picks = [SectionPick {
        source_line: 1,
        new_level: 3,
    }];
    let plan = [Placement {
        pick_idx: 0,
        after_line: Some(1),
    }];
    let err = move_sections(source, &picks, target, &plan).unwrap_err();
    assert!(matches!(err, Error::Notes(_)));
}
