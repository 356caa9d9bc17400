use ft_core::error::Error;
use ft_core::graph::parser::extract_links;
use ft_core::graph::rename::{
    apply_edits, build_replacement, edits_for, first_stale, plan_rename, relative_url_from, FileEdit, FileSnapshot,
    Incoming,
};

/// Rename `src` to `new_path` where the only linker is `linker` with
/// `content`, and give back the linker's new text.
fn rename_in(src: Option<&str>, linker: &str, content: &str, new_path: &str) -> String {
    let incoming: Vec<Incoming> = extract_links(content)
        .into_iter()
        .map(|l| {
            let embed = l.is_embed;
            Incoming { linker: linker.to_string(), link: l, embed }
        })
        .collect();
    let plan = plan_rename(src, &incoming, new_path, false).unwrap();
    let mine = edits_for(&plan.edits, linker);
    apply_edits(linker, content, &mine).unwrap()
}

#[test]
fn rename_single_wikilink_linker_updates_link() {
    assert_eq!(rename_in(Some("foo.md"), "a.md", "see [[foo]] now\n", "bar.md"), "see [[bar]] now\n");
}

#[test]
fn rename_multi_link_in_same_file_applies_from_the_end() {
    assert_eq!(
        rename_in(Some("foo.md"), "a.md", "[[foo]] one [[foo]] two [[foo]] three\n", "a-much-longer-name.md"),
        "[[a-much-longer-name]] one [[a-much-longer-name]] two [[a-much-longer-name]] three\n"
    );
}

#[test]
fn rename_wikilink_keeps_alias_and_anchor() {
    assert_eq!(rename_in(Some("foo.md"), "a.md", "[[foo|Alias]]\n", "bar.md"), "[[bar|Alias]]\n");
    assert_eq!(rename_in(Some("foo.md"), "a.md", "[[foo#Sec]]\n", "bar.md"), "[[bar#Sec]]\n");
    assert_eq!(rename_in(Some("foo.md"), "a.md", "[[foo#Sec|Alias]]\n", "bar.md"), "[[bar#Sec|Alias]]\n");
}

#[test]
fn rename_wikilink_path_form_keeps_path_form() {
    assert_eq!(rename_in(Some("sub/foo.md"), "a.md", "[[sub/foo]]\n", "other/bar.md"), "[[other/bar]]\n");
    assert_eq!(rename_in(Some("sub/foo.md"), "a.md", "[[sub/foo.md]]\n", "other/bar.md"), "[[other/bar.md]]\n");
}

#[test]
fn rename_md_link_updates_url_and_keeps_display() {
    assert_eq!(rename_in(Some("foo.md"), "a.md", "[F](foo.md)\n", "bar.md"), "[F](bar.md)\n");
    assert_eq!(rename_in(Some("foo.md"), "a.md", "[F](foo)\n", "bar.md"), "[F](bar)\n");
    assert_eq!(rename_in(Some("foo.md"), "a.md", "[F](foo.md#Sec)\n", "bar.md"), "[F](bar.md#Sec)\n");
}

#[test]
fn rename_md_link_relative_to_linker_dir() {
    assert_eq!(
        rename_in(Some("notes/foo.md"), "notes/a.md", "[F](foo.md)\n", "archive/bar.md"),
        "[F](../archive/bar.md)\n"
    );
}

#[test]
fn rename_embeds_keep_bang_prefix() {
    assert_eq!(rename_in(Some("foo.md"), "a.md", "![[foo]]\n", "bar.md"), "![[bar]]\n");
    assert_eq!(rename_in(Some("foo.md"), "a.md", "![F](foo.md)\n", "bar.md"), "![F](bar.md)\n");
}

#[test]
fn rename_md_link_to_path_with_spaces_url_encodes_in_href() {
    assert_eq!(rename_in(Some("foo.md"), "a.md", "[F](foo.md)\n", "My Note.md"), "[F](My%20Note.md)\n");
}

#[test]
fn rename_ghost_rewrites_linkers_without_a_move() {
    let content = "[[ghost]]\n";
    let incoming: Vec<Incoming> = extract_links(content)
        .into_iter()
        .map(|l| Incoming { linker: "a.md".to_string(), link: l, embed: false })
        .collect();
    let plan = plan_rename(None, &incoming, "real.md", true).unwrap();
    assert!(plan.rename.is_none());
    assert_eq!(plan.snapshot_paths, vec!["a.md".to_string()]);
    assert_eq!(apply_edits("a.md", content, &plan.edits).unwrap(), "[[real]]\n");
}

#[test]
fn rename_to_existing_path_errors() {
    let r = plan_rename(Some("foo.md"), &vec![], "bar.md", true);
    match r {
        Err(Error::Notes(m)) => assert_eq!(m, "target already exists: bar.md \u{2014} refusing to overwrite"),
        _ => panic!("expected an error"),
    }
}

#[test]
fn rename_without_file_stem_errors() {
    match plan_rename(Some("foo.md"), &vec![], "..", false) {
        Err(Error::Notes(m)) => assert_eq!(m, "new path has no file stem: .."),
        _ => panic!("expected an error"),
    }
}

#[test]
fn rename_to_same_path_is_a_noop() {
    let plan = plan_rename(Some("foo.md"), &vec![], "foo.md", true).unwrap();
    assert!(plan.rename.is_none());
    assert!(plan.edits.is_empty());
    assert_eq!(plan.snapshot_paths, vec!["foo.md".to_string()]);
}

#[test]
fn rename_with_no_incoming_edges_just_moves() {
    let plan = plan_rename(Some("foo.md"), &vec![], "bar.md", false).unwrap();
    let m = plan.rename.as_ref().unwrap();
    assert_eq!((m.from.as_str(), m.to.as_str()), ("foo.md", "bar.md"));
    assert!(plan.edits.is_empty());
    assert_eq!(plan.touched_files(), 1);
}

#[test]
fn touched_files_count_includes_source_and_linkers() {
    let mut incoming = Vec::new();
    for name in ["a.md", "b.md", "a.md"] {
        for l in extract_links("[[foo]]\n") {
            incoming.push(Incoming { linker: name.to_string(), link: l, embed: false });
        }
    }
    let plan = plan_rename(Some("foo.md"), &incoming, "bar.md", false).unwrap();
    assert_eq!(plan.touched_files(), 3);
    assert_eq!(plan.snapshot_paths, vec!["foo.md".to_string(), "a.md".to_string(), "b.md".to_string()]);
}

#[test]
fn self_link_is_edited_in_the_renamed_file() {
    let content = "# Foo\nsee [[foo]]\n";
    assert_eq!(rename_in(Some("foo.md"), "foo.md", content, "bar.md"), "# Foo\nsee [[bar]]\n");
}

fn edit(start: usize, end: usize, r: &str) -> FileEdit {
    FileEdit { path: "a.md".to_string(), byte_range: start..end, replacement: r.to_string() }
}

#[test]
fn apply_edits_refuses_overlap() {
    let r = apply_edits("a.md", "abcdef", &vec![edit(0, 3, "x"), edit(2, 4, "y")]);
    match r {
        Err(Error::Notes(m)) => assert_eq!(m, "planner produced overlapping edits for a.md (0..3 vs 2..4)"),
        _ => panic!("expected an error"),
    }
}

#[test]
fn apply_edits_refuses_ranges_that_do_not_fit() {
    match apply_edits("a.md", "abc", &vec![edit(2, 9, "x")]) {
        Err(Error::Notes(m)) => assert_eq!(m, "edit 2..9 does not fit a.md"),
        _ => panic!("expected an error"),
    }
    // off a character boundary
    assert!(apply_edits("a.md", "é", &vec![edit(1, 2, "x")]).is_err());
}

#[test]
fn apply_edits_in_any_order() {
    let r = apply_edits("a.md", "héllo world", &vec![edit(0, 1, "J"), edit(7, 12, "there")]).unwrap();
    assert_eq!(r, "Jéllo there");
}

#[test]
fn relative_url_goes_up_and_down() {
    assert_eq!(relative_url_from("a/b/from.md", "a/c/to.md"), "../c/to.md");
    assert_eq!(relative_url_from("from.md", "x y/t~.md"), "x%20y/t~.md");
}

#[test]
fn replacement_of_a_path_form_wikilink_without_md() {
    let l = &extract_links("[[x/old]]")[0];
    assert_eq!(build_replacement(l, false, "a.md", "dir/new.md", "new"), "[[dir/new]]");
}

#[test]
fn freshness_names_the_first_changed_file() {
    let snaps = vec![
        FileSnapshot { path: "a.md".into(), mtime: 5, len: 10 },
        FileSnapshot { path: "b.md".into(), mtime: 7, len: 3 },
    ];
    assert_eq!(first_stale(&snaps, &vec![(10, 5), (3, 7)]), None);
    assert_eq!(first_stale(&snaps, &vec![(10, 5), (4, 7)]), Some(1));
    assert_eq!(first_stale(&snaps, &vec![(10, 6), (3, 7)]), Some(0));
}
