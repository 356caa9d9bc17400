use ft_core::graph::resolve::{md_target, resolve_md, resolve_wiki, Resolution};

fn notes(v: &[&str]) -> Vec<String> {
    v.iter().map(|s| s.to_string()).collect()
}

fn resolved(r: Resolution) -> Option<usize> {
    match r {
        Resolution::Resolved(i) => Some(i),
        _ => None,
    }
}

#[test]
fn wiki_title_resolves_when_unique() {
    let n = notes(&["Foo.md", "Bar.md"]);
    assert_eq!(resolved(resolve_wiki("Foo", &n)), Some(0));
}

#[test]
fn wiki_title_unresolved_when_missing() {
    let n = notes(&["Foo.md"]);
    match resolve_wiki("Missing", &n) {
        Resolution::Unresolved(k) => assert_eq!(k, "Missing"),
        r => panic!("expected unresolved, got {r:?}"),
    }
}

#[test]
fn wiki_title_collision_picks_shortest_path() {
    let n = notes(&["deep/nested/Index.md", "archive/Index.md", "Index.md"]);
    assert_eq!(resolved(resolve_wiki("Index", &n)), Some(2));
}

#[test]
fn wiki_title_collision_alphabetical_when_depth_tied() {
    let n = notes(&["zeta/Same.md", "alpha/Same.md", "beta/Same.md"]);
    assert_eq!(resolved(resolve_wiki("Same", &n)), Some(1));
}

#[test]
fn wiki_path_form_resolves() {
    let n = notes(&["sub/Foo.md"]);
    assert_eq!(resolved(resolve_wiki("sub/Foo", &n)), Some(0));
    assert_eq!(resolved(resolve_wiki("sub/Foo.md", &n)), Some(0));
    match resolve_wiki("sub/Bar", &n) {
        Resolution::Unresolved(k) => assert_eq!(k, "sub/Bar"),
        r => panic!("expected unresolved, got {r:?}"),
    }
}

#[test]
fn wiki_empty_target_is_not_a_link() {
    assert!(matches!(resolve_wiki("  ", &notes(&["a.md"])), Resolution::NotALink));
}

#[test]
fn md_link_resolves_relative_to_linker_dir() {
    let n = notes(&["notes/from.md", "notes/target.md"]);
    assert_eq!(resolved(resolve_md("target.md", "notes/from.md", &n)), Some(1));
}

#[test]
fn md_link_handles_parent_dir_traversal() {
    let n = notes(&["a/from.md", "b/target.md"]);
    assert_eq!(resolved(resolve_md("../b/target.md", "a/from.md", &n)), Some(1));
}

#[test]
fn md_link_unresolved_keys_normalized_path() {
    let n = notes(&["from.md"]);
    match resolve_md("./missing.md", "from.md", &n) {
        Resolution::Unresolved(k) => assert_eq!(k, "missing.md"),
        r => panic!("expected unresolved, got {r:?}"),
    }
}

#[test]
fn md_target_keeps_escaping_dotdots() {
    assert_eq!(md_target("../../x.md", "a/from.md"), "../x.md");
    assert_eq!(md_target("b/./c/../d", "from.md"), "b/d");
}
