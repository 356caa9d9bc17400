use ft_core::error::Error;
use ft_core::vault::{find_vault, parse_file_content, scan_override_patterns, walk_up_candidates, Candidate};

fn cand(given: &str, has: bool) -> Option<Candidate> {
    Some(Candidate {
        given: given.to_string(),
        canonical: format!("/canon{given}"),
        has_obsidian: has,
    })
}

// ── locating the vault ────────────────────────────────────────────────────

#[test]
fn flag_pointing_at_valid_vault() {
    let r = find_vault(cand("/v", true), None, "/cwd", None, "/cfg", None).unwrap();
    assert_eq!(r, "/canon/v");
}

#[test]
fn flag_pointing_at_non_vault_errors() {
    let r = find_vault(cand("/nope", false), None, "/cwd", None, "/cfg", None);
    assert!(matches!(r, Err(Error::VaultNotFound { .. })));
}

#[test]
fn error_message_lists_tried_locations() {
    let err = find_vault(cand("/nope", false), None, "/cwd", None, "/cfg/config.toml", None).unwrap_err();
    let msg = err.message();
    assert!(msg.contains("--vault"), "error should mention --vault; got: {msg}");
    assert_eq!(
        msg,
        "vault not found; searched:\n  --vault /nope: no .obsidian/ found\n  $FT_VAULT: not set\n  CWD walk from /cwd: no ancestor contains .obsidian/\n  /cfg/config.toml: default_vault not set"
    );
}

#[test]
fn env_var_valid_vault() {
    let r = find_vault(cand("/bad", false), cand("/env", true), "/cwd", Some("/walk".into()), "/cfg", None);
    assert_eq!(r.unwrap(), "/canon/env");
}

#[test]
fn walk_beats_default_vault() {
    let r = find_vault(None, None, "/cwd", Some("/walk".into()), "/cfg", cand("/dv", true));
    assert_eq!(r.unwrap(), "/walk");
}

#[test]
fn default_vault_is_last_resort() {
    let r = find_vault(None, cand("/e", false), "/cwd", None, "/cfg", cand("/dv", true));
    assert_eq!(r.unwrap(), "/canon/dv");
}

#[test]
fn every_failed_place_is_listed() {
    match find_vault(None, cand("/e", false), "/w", None, "/c.toml", cand("/dv", false)) {
        Err(Error::VaultNotFound { tried }) => assert_eq!(
            tried,
            vec![
                "  --vault: not provided",
                "  $FT_VAULT=/e: no .obsidian/ found",
                "  CWD walk from /w: no ancestor contains .obsidian/",
                "  /c.toml: default_vault=/dv: no .obsidian/ found",
            ]
        ),
        other => panic!("expected VaultNotFound, got {other:?}"),
    }
}

#[test]
fn walk_up_finds_obsidian_in_parent() {
    let c = walk_up_candidates("/home/me/vault/notes/2026");
    assert_eq!(
        c,
        vec!["/home/me/vault/notes/2026", "/home/me/vault/notes", "/home/me/vault", "/home/me", "/home", "/"]
    );
}

#[test]
fn walk_up_finds_self() {
    let c = walk_up_candidates("/v");
    assert_eq!(c[0], "/v");
}

#[test]
fn walk_up_returns_none_when_no_obsidian() {
    assert_eq!(walk_up_candidates("/"), vec!["/"]);
}

// ── what a scan reads ─────────────────────────────────────────────────────

#[test]
fn scan_collects_tasks_from_multiple_files() {
    let a = parse_file_content(&"a.md".to_string(), "- [ ] task in A\n- [x] done in A ✅ 2026-05-01\n");
    let b = parse_file_content(&"b.md".to_string(), "Some prose\n- [ ] task in B\n");
    assert_eq!(a.len() + b.len(), 3, "expected 3 tasks total");
    assert_eq!(b[0].source_line, 2);
}

#[test]
fn scan_skips_default_excluded_dirs() {
    let p = scan_override_patterns(&Vec::new());
    assert_eq!(p, vec!["!.obsidian/**", "!.git/**", "!attachments/**"]);
}

#[test]
fn scan_respects_ignored_paths_from_config() {
    let p = scan_override_patterns(&vec!["private/".to_string(), "draft.md".to_string()]);
    assert_eq!(
        p,
        vec!["!.obsidian/**", "!.git/**", "!attachments/**", "!private/**", "!draft.md"]
    );
}

#[test]
fn scan_resolves_hierarchy_per_file() {
    let tasks = parse_file_content(
        &"nested.md".to_string(),
        "- [ ] parent\n  - [ ] child A\n  - [ ] child B\n",
    );
    assert_eq!(tasks.len(), 3);
    let parent = tasks.iter().find(|t| t.description == "parent").unwrap();
    let children: Vec<_> = tasks.iter().filter(|t| t.parent == Some(parent.source_line)).collect();
    assert_eq!(children.len(), 2);
}

#[test]
fn scan_returns_relative_paths() {
    let tasks = parse_file_content(&"notes/sub.md".to_string(), "- [ ] task\n");
    assert_eq!(tasks.len(), 1);
    assert_eq!(tasks[0].source_file, "notes/sub.md");
}

#[test]
fn crlf_lines_parse_like_lf() {
    let tasks = parse_file_content(&"w.md".to_string(), "- [ ] one\r\n- [ ] two\r\n");
    assert_eq!(tasks.len(), 2);
    assert_eq!(tasks[0].description, "one");
    assert_eq!(tasks[1].source_line, 2);
}

// ── error texts ───────────────────────────────────────────────────────────

#[test]
fn error_texts_carry_their_prefix() {
    assert_eq!(Error::Timeblock("x".into()).message(), "timeblock: x");
    assert_eq!(Error::Notes("n".into()).message(), "notes: n");
    assert_eq!(Error::Periodic("p".into()).message(), "periodic notes: p");
    assert_eq!(Error::Git("g".into()).message(), "git: g");
    assert_eq!(
        Error::Io { path: "/a".into(), message: "denied".into() }.message(),
        "I/O error at /a: denied"
    );
    assert_eq!(
        Error::Config { path: "/c".into(), message: "bad".into() }.message(),
        "config error in /c: bad"
    );
    assert_eq!(Error::VaultNotFound { tried: vec![] }.message(), "vault not found; searched:\n");
}
