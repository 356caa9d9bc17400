use ft_core::graph::parser::{extract_links, RawLink};
use ft_core::graph::LinkForm;

fn extract(s: &str) -> Vec<RawLink> {
    extract_links(s)
}

#[test]
fn empty_input() {
    assert_eq!(extract(""), vec![]);
}

#[test]
fn plain_wikilink() {
    let links = extract("see [[Foo]] now\n");
    assert_eq!(links.len(), 1);
    assert_eq!(links[0].form, LinkForm::WikiLink);
    assert!(!links[0].is_embed);
    assert_eq!(links[0].raw_text, "[[Foo]]");
    assert_eq!(links[0].target_text, "Foo");
    assert_eq!(links[0].anchor, None);
    assert_eq!(links[0].display, None);
    assert_eq!(links[0].line, 1);
}

#[test]
fn wikilink_with_alias() {
    let links = extract("see [[Foo|Bar]]\n");
    assert_eq!(links[0].target_text, "Foo");
    assert_eq!(links[0].display.as_deref(), Some("Bar"));
}

#[test]
fn wikilink_with_anchor() {
    let links = extract("see [[Foo#Heading]]\n");
    assert_eq!(links[0].target_text, "Foo");
    assert_eq!(links[0].anchor.as_deref(), Some("Heading"));
    assert_eq!(links[0].display, None);
}

#[test]
fn wikilink_with_anchor_and_alias() {
    let links = extract("see [[Foo#H|D]]\n");
    assert_eq!(links[0].target_text, "Foo");
    assert_eq!(links[0].anchor.as_deref(), Some("H"));
    assert_eq!(links[0].display.as_deref(), Some("D"));
}

#[test]
fn wikilink_path_form_kept_in_target() {
    let links = extract("see [[Sub/Foo]]\n");
    assert_eq!(links[0].target_text, "Sub/Foo");
}

#[test]
fn embed_wikilink() {
    let links = extract("![[image.png]]\n");
    assert_eq!(links[0].form, LinkForm::WikiLink);
    assert!(links[0].is_embed);
    assert_eq!(links[0].raw_text, "![[image.png]]");
    assert_eq!(links[0].target_text, "image.png");
}

#[test]
fn plain_md_link() {
    let links = extract("see [Foo](foo.md) now\n");
    assert_eq!(links.len(), 1);
    assert_eq!(links[0].form, LinkForm::MdLink);
    assert!(!links[0].is_embed);
    assert_eq!(links[0].raw_text, "[Foo](foo.md)");
    assert_eq!(links[0].target_text, "foo.md");
    assert_eq!(links[0].display.as_deref(), Some("Foo"));
}

#[test]
fn md_link_with_anchor() {
    let links = extract("[F](foo.md#H)\n");
    assert_eq!(links[0].target_text, "foo.md");
    assert_eq!(links[0].anchor.as_deref(), Some("H"));
}

#[test]
fn md_link_url_decoded() {
    let links = extract("[F](My%20Note.md)\n");
    assert_eq!(links[0].target_text, "My Note.md");
}

#[test]
fn md_embed_link() {
    let links = extract("![alt](image.png)\n");
    assert!(links[0].is_embed);
    assert_eq!(links[0].target_text, "image.png");
}

#[test]
fn md_link_external_url_not_an_edge() {
    let links = extract("[google](https://google.com) and [m](mailto:a@b)\n");
    assert!(links.is_empty());
}

#[test]
fn skips_links_inside_fenced_code_block() {
    let s = "\
before [[A]]
```
[[B]]
[c](c.md)
```
after [[D]]
";
    let links = extract(s);
    let targets: Vec<_> = links.iter().map(|l| l.target_text.as_str()).collect();
    assert_eq!(targets, vec!["A", "D"]);
}

#[test]
fn skips_links_inside_indented_code_block() {
    let s = "before [[A]]\n    [[B]]\nafter [[C]]\n";
    let links = extract(s);
    let targets: Vec<_> = links.iter().map(|l| l.target_text.as_str()).collect();
    assert_eq!(targets, vec!["A", "C"]);
}

#[test]
fn skips_links_inside_frontmatter() {
    let s = "---\ntitle: [[Foo]]\n---\n[[Real]]\n";
    let links = extract(s);
    assert_eq!(links.len(), 1);
    assert_eq!(links[0].target_text, "Real");
}

#[test]
fn skips_links_inside_inline_code_span() {
    let links = extract("text `[[Foo]]` more [[Bar]]\n");
    assert_eq!(links.len(), 1);
    assert_eq!(links[0].target_text, "Bar");
}

#[test]
fn unterminated_code_span_does_not_swallow_following_links() {
    // CommonMark: an unterminated `` ` `` is literal — links on the
    // rest of the line still register.
    let links = extract("`unterminated [[Foo]]\n");
    assert_eq!(links.len(), 1);
    assert_eq!(links[0].target_text, "Foo");
}

#[test]
fn double_backtick_code_span_skips_inner_single_backticks() {
    let links = extract("``[[Foo]] `still in code` [[Bar]]`` real [[Baz]]\n");
    assert_eq!(links.len(), 1);
    assert_eq!(links[0].target_text, "Baz");
}

#[test]
fn byte_range_round_trips_for_each_link() {
    let s = "line one [[A]] mid\nline two [B](b.md) end\n";
    let links = extract(s);
    assert_eq!(links.len(), 2);
    for l in &links {
        assert_eq!(&s[l.byte_range.clone()], l.raw_text);
    }
}

#[test]
fn line_numbers_track_real_source_lines() {
    let s = "first\n[[A]]\n\n[[B]]\n";
    let links = extract(s);
    assert_eq!(links.len(), 2);
    assert_eq!(links[0].line, 2);
    assert_eq!(links[1].line, 4);
}

#[test]
fn multiple_links_on_one_line_in_document_order() {
    let s = "[[A]] then [[B]] then [c](c.md)\n";
    let links = extract(s);
    assert_eq!(links.len(), 3);
    assert_eq!(links[0].target_text, "A");
    assert_eq!(links[1].target_text, "B");
    assert_eq!(links[2].target_text, "c.md");
}

#[test]
fn duplicate_links_emit_one_record_each() {
    let s = "[[Foo]] [[Foo]] [[Foo]]\n";
    let links = extract(s);
    assert_eq!(links.len(), 3);
    for l in &links {
        assert_eq!(l.target_text, "Foo");
    }
}

#[test]
fn empty_wikilink_body_is_not_a_link() {
    let links = extract("[[]] is not a link\n");
    assert!(links.is_empty());
}

#[test]
fn empty_target_with_anchor_is_not_a_link() {
    // `[[#Heading]]` is Obsidian shorthand for "this file's heading"
    // — not a cross-note edge. We don't emit it.
    let links = extract("[[#Heading]]\n");
    assert!(links.is_empty());
}

#[test]
fn extension_less_md_link_kept_verbatim() {
    let links = extract("[F](notes/foo)\n");
    assert_eq!(links.len(), 1);
    assert_eq!(links[0].target_text, "notes/foo");
}

#[test]
fn md_link_with_title_strips_title() {
    let links = extract(r#"[F](foo.md "the title")"#);
    assert_eq!(links.len(), 1);
    assert_eq!(links[0].target_text, "foo.md");
}

#[test]
fn md_link_angle_bracket_form() {
    let links = extract("[F](<foo bar.md>)\n");
    assert_eq!(links.len(), 1);
    assert_eq!(links[0].target_text, "foo bar.md");
}

#[test]
fn inline_code_span_closing_at_line_end_is_skipped() {
    assert_eq!(extract("`[[Foo]]`\n"), vec![]);
    assert_eq!(extract("a `[[Foo]]`"), vec![]);
}
