use ft_core::markdown::{extract_headings, Heading};

#[test]
fn extracts_atx_levels_one_through_six() {
    let body = "\
# H1
## H2
### H3
#### H4
##### H5
###### H6
####### not a heading
";
    let headings = extract_headings(body);
    assert_eq!(headings.len(), 6);
    for (i, h) in headings.iter().enumerate() {
        assert_eq!(h.level as usize, i + 1);
        assert_eq!(h.text, format!("H{}", i + 1));
        assert_eq!(h.line, i + 1);
    }
}

#[test]
fn skips_headings_in_fenced_code_blocks_backticks() {
    let body = "\
# Real heading
```rust
# fake heading inside backtick fence
## also fake
```
## Real again
";
    let headings = extract_headings(body);
    assert_eq!(headings.len(), 2);
    assert_eq!(headings[0].text, "Real heading");
    assert_eq!(headings[1].text, "Real again");
    assert_eq!(headings[1].line, 6);
}

#[test]
fn skips_headings_in_fenced_code_blocks_tildes() {
    let body = "\
~~~
# fake
~~~
# real
";
    let headings = extract_headings(body);
    assert_eq!(headings.len(), 1);
    assert_eq!(headings[0].text, "real");
}

#[test]
fn skips_indented_code_blocks() {
    // NB: don't use `"\<newline>"` continuation here — it eats the
    // leading whitespace of the next line, defeating the test.
    let body = "    # not a heading (4-space indent)\n\
                \t# also not a heading (tab indent)\n\
                # real heading\n";
    let headings = extract_headings(body);
    assert_eq!(headings.len(), 1);
    assert_eq!(headings[0].text, "real heading");
}

#[test]
fn skips_frontmatter_block() {
    let body = "\
---
title: Foo
# this is yaml, not a heading
---
# Actual heading
";
    let headings = extract_headings(body);
    assert_eq!(headings.len(), 1);
    assert_eq!(headings[0].text, "Actual heading");
    assert_eq!(headings[0].line, 5);
}

#[test]
fn frontmatter_only_counts_at_file_top() {
    let body = "\
some prose
---
title: not frontmatter
---
# heading
";
    let headings = extract_headings(body);
    assert_eq!(headings.len(), 1);
    assert_eq!(headings[0].text, "heading");
}

#[test]
fn rejects_hash_without_space() {
    let body = "\
#nospace not a heading
# spaced is a heading
";
    let headings = extract_headings(body);
    assert_eq!(headings.len(), 1);
    assert_eq!(headings[0].text, "spaced is a heading");
}

#[test]
fn strips_trailing_hashes() {
    let body = "\
# Hello ###
## Goodbye ##
";
    let headings = extract_headings(body);
    assert_eq!(headings[0].text, "Hello");
    assert_eq!(headings[1].text, "Goodbye");
}

#[test]
fn empty_input_returns_empty_vec() {
    assert_eq!(extract_headings(""), Vec::<Heading>::new());
}

#[test]
fn heading_with_no_text_is_kept_as_empty_string() {
    let body = "# \n## also empty\n";
    let headings = extract_headings(body);
    assert_eq!(headings.len(), 2);
    assert_eq!(headings[0].text, "");
    assert_eq!(headings[1].text, "also empty");
}
