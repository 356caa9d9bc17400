use ft_core::markdown::extract_headings;
use ft_core::recents::RecentsLog;
use ft_core::search::{fuzzy_find, recent_hits, Query, SearchFile, SearchOptions};

fn level_bonus(level: u8) -> u32 {
    match level {
        1 => 10,
        2 => 6,
        3 => 3,
        _ => 0,
    }
}

// ── Query parsing ─────────────────────────────────────────────────────────

#[test]
fn query_parse_no_hash_is_file_only() {
    let q = Query::parse("gen consid");
    assert_eq!(q.file_part, "gen consid");
    assert_eq!(q.heading_part, None);
}

#[test]
fn query_parse_file_and_heading() {
    let q = Query::parse("gen consid#Firs");
    assert_eq!(q.file_part, "gen consid");
    assert_eq!(q.heading_part, Some("Firs".into()));
}

#[test]
fn query_parse_heading_only() {
    let q = Query::parse("#Firs");
    assert_eq!(q.file_part, "");
    assert_eq!(q.heading_part, Some("Firs".into()));
}

#[test]
fn query_parse_trailing_hash_drops_heading() {
    let q = Query::parse("foo#");
    assert_eq!(q.file_part, "foo");
    assert_eq!(q.heading_part, None);
}

#[test]
fn query_parse_trims_outer_whitespace_keeps_inner() {
    let q = Query::parse("  foo bar  #  baz qux  ");
    assert_eq!(q.file_part, "foo bar");
    assert_eq!(q.heading_part, Some("baz qux".into()));
}

#[test]
fn query_parse_empty_string() {
    let q = Query::parse("");
    assert!(q.is_empty());
}

// ── fuzzy_find against synthetic vaults ───────────────────────────────────

fn make_vault(files: &[(&str, &str)]) -> Vec<SearchFile> {
    files
        .iter()
        .map(|(rel, body)| SearchFile {
            path: rel.to_string(),
            headings: extract_headings(body),
        })
        .collect()
}

#[test]
fn file_only_query_ranks_filename_matches() {
    let vault = make_vault(&[
        ("General Considerations about Food.md", "# X\n"),
        ("initial general considerations.md", "# Y\n"),
        ("unrelated.md", "# Z\n"),
    ]);
    let q = Query::parse("gen consid");
    let hits = fuzzy_find(&vault, &q, SearchOptions::default());
    let names: Vec<String> = hits.iter().map(|h| h.path.clone()).collect();
    assert!(
        names.iter().any(|n| n.contains("General Considerations")),
        "expected the General Considerations file in results: {names:?}"
    );
    assert!(
        names.iter().any(|n| n.contains("initial general considerations")),
        "expected the initial-general file in results: {names:?}"
    );
    assert!(
        !names.iter().any(|n| n.contains("unrelated")),
        "non-matching file should be excluded: {names:?}"
    );
    for h in &hits {
        assert!(h.file_score > 0);
        assert!(h.heading.is_none());
    }
}

#[test]
fn file_and_heading_query_filters_to_files_with_matching_heading() {
    let vault = make_vault(&[
        ("General Considerations about Food.md", "# Intro\n## Second Try\n"),
        ("initial general considerations.md", "# Overview\n### First Try\n"),
    ]);
    let q = Query::parse("gen consid#Firs");
    let hits = fuzzy_find(&vault, &q, SearchOptions::default());
    let top = &hits[0];
    assert!(
        top.path.contains("initial general considerations"),
        "top hit should be the file with 'First Try': got {:?}",
        top.path
    );
    let heading = top.heading.as_ref().expect("heading payload missing");
    assert_eq!(heading.text, "First Try");
    assert_eq!(heading.level, 3);
    assert!(heading.line >= 2);
    assert!(top.heading_score.unwrap() > 0);
    assert_eq!(
        top.total_score,
        top.file_score + top.heading_score.unwrap() + level_bonus(heading.level)
    );
}

#[test]
fn heading_only_query_searches_every_file() {
    let vault = make_vault(&[
        ("a.md", "# Alpha\n# Other\n"),
        ("b.md", "# Beta\n## Alpha Variant\n"),
        ("c.md", "no heading here\n"),
    ]);
    let q = Query::parse("#Alpha");
    let hits = fuzzy_find(&vault, &q, SearchOptions::default());
    assert_eq!(hits.len(), 2);
    for h in &hits {
        assert!(h.heading.is_some());
        assert!(h.heading_score.is_some());
    }
    let texts: Vec<String> = hits.iter().map(|h| h.heading.as_ref().unwrap().text.clone()).collect();
    assert!(texts.iter().any(|t| t.contains("Alpha")));
}

#[test]
fn no_match_returns_empty() {
    let vault = make_vault(&[("foo.md", "# H\n")]);
    let q = Query::parse("zzzzzzz");
    assert!(fuzzy_find(&vault, &q, SearchOptions::default()).is_empty());
}

#[test]
fn empty_query_returns_empty() {
    let vault = make_vault(&[("foo.md", "# H\n")]);
    let q = Query::parse("");
    assert!(fuzzy_find(&vault, &q, SearchOptions::default()).is_empty());
}

#[test]
fn limit_truncates_results() {
    let pairs: Vec<(String, String)> = (0..50).map(|i| (format!("note-{i:02}.md"), "# H\n".to_string())).collect();
    let refs: Vec<(&str, &str)> = pairs.iter().map(|(p, b)| (p.as_str(), b.as_str())).collect();
    let vault = make_vault(&refs);
    let q = Query::parse("note");
    let opts = SearchOptions {
        limit: 5,
        include_headings: false,
    };
    assert_eq!(fuzzy_find(&vault, &q, opts).len(), 5);
}

#[test]
fn tiebreaker_is_path_lexicographic() {
    let vault = make_vault(&[("zeta.md", "# H\n"), ("alpha.md", "# H\n"), ("mike.md", "# H\n")]);
    let q = Query::parse(".md");
    let hits = fuzzy_find(&vault, &q, SearchOptions::default());
    let names: Vec<String> = hits.iter().map(|h| h.path.clone()).collect();
    assert_eq!(names, vec!["alpha.md", "mike.md", "zeta.md"]);
}

#[test]
fn include_headings_without_heading_part_attaches_first_heading() {
    let vault = make_vault(&[("notes.md", "# Top Heading\n## Sub\nbody text\n")]);
    let q = Query::parse("notes");
    let opts = SearchOptions {
        limit: 10,
        include_headings: true,
    };
    let hits = fuzzy_find(&vault, &q, opts);
    assert_eq!(hits.len(), 1);
    let h = hits[0].heading.as_ref().expect("heading attached");
    assert_eq!(h.text, "Top Heading");
    assert_eq!(h.level, 1);
}

#[test]
fn default_options_cap_at_twenty_five() {
    let o = SearchOptions::default();
    assert_eq!(o.limit, 25);
    assert!(!o.include_headings);
}

// ── recent_hits ───────────────────────────────────────────────────────────

fn recents() -> RecentsLog {
    RecentsLog::with_log_path("/vault".to_string(), "/state/recents.jsonl".to_string())
}

fn files(list: &[(&str, i128)]) -> Vec<(String, i128)> {
    list.iter().map(|(p, t)| (p.to_string(), *t)).collect()
}

fn opened(list: &[&str]) -> Vec<String> {
    list.iter().map(|p| p.to_string()).collect()
}

fn names(hits: &[ft_core::search::Hit]) -> Vec<String> {
    hits.iter().map(|h| h.path.clone()).collect()
}

#[test]
fn recent_hits_mtime_only_returns_files_newest_first() {
    let f = files(&[("old.md", 100), ("mid.md", 105), ("new.md", 110)]);
    let hits = recent_hits(&f, &recents(), &Vec::new(), 25);
    assert_eq!(names(&hits), vec!["new.md", "mid.md", "old.md"]);
    for h in &hits {
        assert!(h.heading.is_none());
        assert_eq!(h.file_score, 0);
        assert_eq!(h.total_score, 0);
    }
}

#[test]
fn recent_hits_opens_only_returns_log_order() {
    let f = files(&[("a.md", 1), ("b.md", 1), ("c.md", 1)]);
    let hits = recent_hits(&f, &recents(), &opened(&["a.md", "c.md"]), 2);
    assert_eq!(names(&hits), vec!["c.md", "a.md"]);
}

#[test]
fn recent_hits_merges_opens_first_then_mtime_tail() {
    let f = files(&[("a.md", 1), ("b.md", 2), ("c.md", 3), ("d.md", 4)]);
    let hits = recent_hits(&f, &recents(), &opened(&["a.md"]), 25);
    let n = names(&hits);
    assert_eq!(n[0], "a.md", "opened file leads the list");
    assert_eq!(n.len(), 4, "all files appear");
    let a_count = n.iter().filter(|x| *x == "a.md").count();
    assert_eq!(a_count, 1, "no duplication between opens and mtime tail");
    assert_eq!(n, vec!["a.md", "d.md", "c.md", "b.md"]);
}

#[test]
fn recent_hits_drops_deleted_paths_from_log() {
    let f = files(&[("alive.md", 1)]);
    let hits = recent_hits(&f, &recents(), &opened(&["ghost.md", "alive.md"]), 25);
    let n = names(&hits);
    assert!(!n.iter().any(|x| x == "ghost.md"), "deleted file should not surface; got {n:?}");
    assert!(n.iter().any(|x| x == "alive.md"));
}

#[test]
fn recent_hits_honors_limit() {
    let f = files(&[("a.md", 1), ("b.md", 2), ("c.md", 3), ("d.md", 4), ("e.md", 5)]);
    let log = opened(&["a.md", "b.md"]);
    let hits = recent_hits(&f, &recents(), &log, 3);
    assert_eq!(hits.len(), 3, "limit must be honored across the merge");
    assert!(recent_hits(&f, &recents(), &log, 0).is_empty());
}

#[test]
fn recent_hits_dedup_keeps_open_position() {
    let f = files(&[("a.md", 1), ("b.md", 2)]);
    let hits = recent_hits(&f, &recents(), &opened(&["a.md", "b.md"]), 10);
    assert_eq!(names(&hits), vec!["b.md", "a.md"]);
}

#[test]
fn recent_hits_empty_vault_empty_log_returns_empty() {
    assert!(recent_hits(&Vec::new(), &recents(), &Vec::new(), 25).is_empty());
}

#[test]
fn recent_hits_equal_mtimes_order_by_path() {
    let f = files(&[("y.md", 7), ("x.md", 7)]);
    let hits = recent_hits(&f, &recents(), &Vec::new(), 10);
    assert_eq!(names(&hits), vec!["x.md", "y.md"]);
}
