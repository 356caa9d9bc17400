use ft_core::recents::{trim_keep_from, vault_path_hash, RecentsLog, TRIM_KEEP, TRIM_THRESHOLD};

fn log() -> RecentsLog {
    RecentsLog::with_log_path("/vault".to_string(), "/state/recents.jsonl".to_string())
}

fn entries(paths: &[&str]) -> Vec<String> {
    paths.iter().map(|p| p.to_string()).collect()
}

#[test]
fn record_then_load_returns_path() {
    let got = log().load_recent(10, &entries(&["note.md"]));
    assert_eq!(got, vec!["note.md".to_string()]);
}

#[test]
fn duplicate_paths_dedupe_to_one_entry_newest_wins() {
    let got = log().load_recent(10, &entries(&["a.md", "b.md", "a.md"]));
    assert_eq!(
        got,
        vec!["a.md".to_string(), "b.md".to_string()],
        "expected a then b — a's second open promotes it"
    );
}

#[test]
fn dedupe_holds_across_many_writes() {
    let mut e = vec!["x.md".to_string(); 10];
    e.push("y.md".to_string());
    let got = log().load_recent(10, &e);
    assert_eq!(got, vec!["y.md".to_string(), "x.md".to_string()]);
}

#[test]
fn newest_first_ordering() {
    let e: Vec<String> = (0..5).map(|i| format!("note-{i}.md")).collect();
    let got = log().load_recent(10, &e);
    assert_eq!(
        got,
        vec!["note-4.md", "note-3.md", "note-2.md", "note-1.md", "note-0.md"]
    );
}

#[test]
fn limit_truncates_load() {
    let e: Vec<String> = (0..20).map(|i| format!("n{i:02}.md")).collect();
    assert_eq!(log().load_recent(0, &e).len(), 0);
    assert_eq!(log().load_recent(3, &e).len(), 3);
    assert_eq!(log().load_recent(100, &e).len(), 20);
}

#[test]
fn missing_log_returns_empty() {
    assert!(log().load_recent(10, &Vec::new()).is_empty());
}

#[test]
fn trim_keeps_newest_after_threshold() {
    assert_eq!(trim_keep_from(TRIM_THRESHOLD, 250), None);
    assert_eq!(trim_keep_from(TRIM_THRESHOLD + 1, 251), Some(251 - TRIM_KEEP));
    assert_eq!(trim_keep_from(300, 120), Some(0));
}

#[test]
fn accessors_return_construction_values() {
    let l = log();
    assert_eq!(l.vault_root(), "/vault");
    assert_eq!(l.log_path(), "/state/recents.jsonl");
}

#[test]
fn vault_path_hash_is_deterministic_and_distinct() {
    let a = vault_path_hash("/Users/me/Vault");
    let b = vault_path_hash("/Users/me/Vault");
    let c = vault_path_hash("/Users/me/Other");
    assert_eq!(a, b, "hash must be deterministic");
    assert_ne!(a, c, "different paths must hash differently");
    assert_eq!(a.len(), 16, "hash is 16-char hex");
    assert!(a.chars().all(|ch| ch.is_ascii_hexdigit()));
}

#[test]
fn vault_path_hash_of_empty_is_fnv_offset_basis() {
    assert_eq!(vault_path_hash(""), "cbf29ce484222325");
    assert_eq!(vault_path_hash("a"), "af63dc4c8601ec8c");
}

#[test]
fn equal_paths_written_differently_dedupe() {
    let got = log().load_recent(10, &entries(&["x//a.md", "x/a.md"]));
    assert_eq!(got, vec!["x/a.md".to_string()]);
}

#[test]
fn vault_relative_strips_the_vault_root() {
    let l = log();
    assert_eq!(l.vault_relative("/vault/notes/a.md"), "notes/a.md");
    assert_eq!(l.vault_relative("/elsewhere/a.md"), "/elsewhere/a.md");
    assert_eq!(l.vault_relative("notes/a.md"), "notes/a.md");
}
