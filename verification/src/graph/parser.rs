//! Link extraction from markdown content.
//!
//! Three link forms are recognised, in document order, each with a byte
//! range that round-trips against the source:
//!
//! - wikilinks `[[Target]]`, `[[Target|Display]]`, `[[Target#Anchor]]`,
//!   `[[Target#Anchor|Display]]`;
//! - embeds: any of the above prefixed with `!`;
//! - markdown links `[Display](href)` and `![Display](href)`, where `href`
//!   is a vault path. External URLs (`http://`, `https://`, `mailto:`,
//!   `obsidian://`, ...) are not links here.
//!
//! Frontmatter, fenced code blocks and indented code blocks are skipped
//! line by line; inline code spans are skipped within a line.

use vstd::prelude::*;

use crate::graph::LinkForm;
use crate::markdown::{count_run, initial_skip_state, lemma_run_len_bound, run_len, skip_step, LineSkipState};
use crate::text::{
    byte_offset, find_char_from, find_from, is_whitespace, lemma_find_from_bounds, lemma_utf8_len_encode,
    lemma_utf8_len_take, lemma_utf8_split, lower, lower_ascii, is_ws, piece_end, slice_vec, starts_with,
    string_of_all, strip_nl, to_chars, trim, trim_vec, utf8_len, char_width_exec,
};

verus! {

// ── percent-decoding ─────────────────────────────────────────────────────────

/// `s` holds no `%`.
pub open spec fn no_percent(s: Seq<char>) -> bool {
    forall|i: int| 0 <= i < s.len() ==> s[i] != '%'
}

/// What `urlencoding::decode` gives for `s`: the percent-decoded text, or
/// `None` when the decoded bytes are not valid UTF-8.
pub uninterp spec fn url_decode(s: Seq<char>) -> Option<Seq<char>>;

/// `urlencoding::decode`. The result is named by [`url_decode`]; text
/// without a `%` comes back unchanged (the crate hands it back borrowed).
#[verifier::external_body]
fn decode_percent(s: &str) -> (r: Option<String>)
    ensures
        match r {
            Some(d) => url_decode(s@) == Some(d@) && (no_percent(s@) ==> d@ == s@),
            None => url_decode(s@) is None && !no_percent(s@),
        },
{
    match urlencoding::decode(s) {
        Ok(d) => Some(d.into_owned()),
        Err(_) => None,
    }
}

// ── specification of a line scan ─────────────────────────────────────────────

/// A link found in one line; `start` and `end` are character offsets into
/// the line.
pub struct LineLink {
    pub form: LinkForm,
    pub is_embed: bool,
    pub start: int,
    pub end: int,
    pub raw_text: Seq<char>,
    pub target_text: Seq<char>,
    pub anchor: Option<Seq<char>>,
    pub display: Option<Seq<char>>,
}

/// Searching from `j`, the offset just past the first run of exactly `run`
/// backticks; `None` when the line has none.
pub open spec fn backtick_close(line: Seq<char>, run: nat, j: int) -> Option<int>
    decreases line.len() - j,
{
    if j < 0 || j >= line.len() {
        None
    } else if line[j] == '`' {
        if run_len(line, '`', j) == run {
            Some(j + run_len(line, '`', j))
        } else {
            proof {
                assert(run_len(line, '`', j) == 1 + run_len(line, '`', j + 1));
                lemma_run_len_bound(line, '`', j);
            }
            backtick_close(line, run, j + run_len(line, '`', j))
        }
    } else {
        backtick_close(line, run, j + 1)
    }
}

/// Searching from `i` for the `]]` that closes a wikilink whose body starts
/// at `bs`: the offset just past it, or `None` when the line ends first,
/// a `'\n'` comes first, or the body is empty.
pub open spec fn wiki_close(line: Seq<char>, bs: int, i: int) -> Option<int>
    decreases line.len() - i,
{
    if i < 0 || i + 1 >= line.len() {
        None
    } else if line[i] == ']' && line[i + 1] == ']' {
        if i == bs {
            None
        } else {
            Some(i + 2)
        }
    } else if line[i] == '\n' {
        None
    } else {
        wiki_close(line, bs, i + 1)
    }
}

/// The end of a wikilink whose `[[` starts at `start`.
pub open spec fn parse_wikilink(line: Seq<char>, start: int) -> Option<int> {
    wiki_close(line, start + 2, start + 2)
}

/// Offset of the `]` that ends a markdown link's display text, scanning
/// from `i`; a backslash escapes the next character and a nested `[`
/// fails.
pub open spec fn display_end(line: Seq<char>, i: int) -> Option<int>
    decreases line.len() - i,
{
    if i < 0 || i >= line.len() {
        None
    } else if line[i] == '\\' && i + 1 < line.len() {
        display_end(line, i + 2)
    } else if line[i] == ']' {
        Some(i)
    } else if line[i] == '[' {
        None
    } else {
        display_end(line, i + 1)
    }
}

/// Offset of the `)` that closes a markdown link's href, scanning from `i`
/// with `depth` open parentheses; a backslash escapes the next character.
pub open spec fn href_end(line: Seq<char>, i: int, depth: int) -> Option<int>
    decreases line.len() - i,
{
    if i < 0 || i >= line.len() {
        None
    } else if line[i] == '\\' && i + 1 < line.len() {
        href_end(line, i + 2, depth)
    } else if line[i] == '(' {
        href_end(line, i + 1, depth + 1)
    } else if line[i] == ')' {
        if depth - 1 == 0 {
            Some(i)
        } else {
            href_end(line, i + 1, depth - 1)
        }
    } else {
        href_end(line, i + 1, depth)
    }
}

/// Index of the first whitespace character of `s` at or after `p`, or
/// `s.len()`.
pub open spec fn first_ws(s: Seq<char>, p: int) -> int
    decreases s.len() - p,
{
    if p < 0 || p >= s.len() {
        s.len() as int
    } else if is_ws(s[p]) {
        p
    } else {
        first_ws(s, p + 1)
    }
}

/// `u` percent-decoded, or `u` itself when decoding fails.
pub open spec fn decode_or_keep(u: Seq<char>) -> Seq<char> {
    match url_decode(u) {
        Some(d) => d,
        None => u,
    }
}

/// An href without its optional title, percent-decoded; the
/// angle-bracket form `<url>` may hold whitespace.
pub open spec fn strip_md_title(href: Seq<char>) -> Seq<char> {
    let t = trim(href);
    if t.len() > 0 && t[0] == '<' {
        let a = t.drop_first();
        decode_or_keep(a.take(find_from(a, '>', 0)))
    } else {
        decode_or_keep(t.take(first_ws(t, 0)))
    }
}

/// An href that points outside the vault.
pub open spec fn is_external_url(h: Seq<char>) -> bool {
    let l = lower(h);
    ||| starts_with(l, "http://"@)
    ||| starts_with(l, "https://"@)
    ||| starts_with(l, "mailto:"@)
    ||| starts_with(l, "obsidian://"@)
    ||| starts_with(l, "ftp://"@)
    ||| starts_with(l, "ftps://"@)
    ||| starts_with(l, "ssh://"@)
    ||| starts_with(l, "file://"@)
}

/// The pieces of a markdown link.
pub struct MdParts {
    pub end: int,
    pub display: Seq<char>,
    pub href: Seq<char>,
    pub raw: Seq<char>,
}

/// A markdown link whose `[` is at `start` (preceded by `!` for an embed).
pub open spec fn md_link(line: Seq<char>, start: int, embed: bool) -> Option<MdParts> {
    if start < 0 || start >= line.len() || line[start] != '[' {
        None
    } else {
        match display_end(line, start + 1) {
            None => None,
            Some(de) => if de + 1 >= line.len() || line[de + 1] != '(' {
                None
            } else {
                match href_end(line, de + 2, 1) {
                    None => None,
                    Some(he) => {
                        let href = strip_md_title(trim(line.subrange(de + 2, he)));
                        if href.len() == 0 || is_external_url(href) {
                            None
                        } else {
                            Some(
                                MdParts {
                                    end: he + 1,
                                    display: line.subrange(start + 1, de),
                                    href,
                                    raw: line.subrange(if embed { start - 1 } else { start }, he + 1),
                                },
                            )
                        }
                    },
                }
            },
        }
    }
}

/// `s` split at its first `c`: the part before, and the part after when
/// there is a `c`.
pub open spec fn split_at_char(s: Seq<char>, c: char) -> (Seq<char>, Option<Seq<char>>) {
    let k = find_from(s, c, 0);
    if k < s.len() {
        (s.take(k), Some(s.skip(k + 1)))
    } else {
        (s, None)
    }
}

/// The wikilink spanning `line[s..e]`, unless its target is blank.
pub open spec fn wiki_link_at(line: Seq<char>, s: int, e: int, embed: bool) -> Seq<LineLink> {
    let raw = line.subrange(s, e);
    let body = raw.subrange(if embed { 3 } else { 2 }, raw.len() - 2);
    let (lhs, display) = split_at_char(body, '|');
    let (target, anchor) = split_at_char(lhs, '#');
    if trim(target).len() == 0 {
        Seq::empty()
    } else {
        seq![
            LineLink {
                form: LinkForm::WikiLink,
                is_embed: embed,
                start: s,
                end: e,
                raw_text: raw,
                target_text: trim(target),
                anchor,
                display,
            },
        ]
    }
}

/// The markdown link starting at `s`, unless its path part is empty.
pub open spec fn md_link_at(s: int, m: MdParts) -> Seq<LineLink> {
    let (target, anchor) = split_at_char(m.href, '#');
    if target.len() == 0 {
        Seq::empty()
    } else {
        seq![
            LineLink {
                form: LinkForm::MdLink,
                is_embed: m.raw.len() > 0 && m.raw[0] == '!',
                start: s,
                end: m.end,
                raw_text: m.raw,
                target_text: target,
                anchor,
                display: if m.display.len() == 0 { None } else { Some(m.display) },
            },
        ]
    }
}

pub proof fn lemma_backtick_close(line: Seq<char>, run: nat, j: int)
    requires
        0 <= j,
    ensures
        backtick_close(line, run, j) matches Some(e) ==> j < e <= line.len(),
    decreases line.len() - j,
{
    if 0 <= j < line.len() {
        lemma_run_len_bound(line, '`', j);
        if line[j] == '`' {
            if run_len(line, '`', j) != run {
                lemma_backtick_close(line, run, j + run_len(line, '`', j));
            }
        } else {
            lemma_backtick_close(line, run, j + 1);
        }
    }
}

pub proof fn lemma_wiki_close(line: Seq<char>, bs: int, i: int)
    requires
        0 <= i,
    ensures
        wiki_close(line, bs, i) matches Some(e) ==> i + 2 <= e <= line.len() && e - 2 != bs,
    decreases line.len() - i,
{
    if i + 1 < line.len() && !(line[i] == ']' && line[i + 1] == ']') && line[i] != '\n' {
        lemma_wiki_close(line, bs, i + 1);
    }
}

pub proof fn lemma_display_end(line: Seq<char>, i: int)
    requires
        0 <= i,
    ensures
        display_end(line, i) matches Some(e) ==> i <= e < line.len(),
    decreases line.len() - i,
{
    if i < line.len() {
        if line[i] == '\\' && i + 1 < line.len() {
            lemma_display_end(line, i + 2);
        } else if line[i] != ']' && line[i] != '[' {
            lemma_display_end(line, i + 1);
        }
    }
}

pub proof fn lemma_href_end(line: Seq<char>, i: int, depth: int)
    requires
        0 <= i,
    ensures
        href_end(line, i, depth) matches Some(e) ==> i <= e < line.len(),
    decreases line.len() - i,
{
    if i < line.len() {
        if line[i] == '\\' && i + 1 < line.len() {
            lemma_href_end(line, i + 2, depth);
        } else if line[i] == '(' {
            lemma_href_end(line, i + 1, depth + 1);
        } else if line[i] == ')' {
            if depth - 1 != 0 {
                lemma_href_end(line, i + 1, depth - 1);
            }
        } else {
            lemma_href_end(line, i + 1, depth);
        }
    }
}

pub proof fn lemma_md_link(line: Seq<char>, start: int, embed: bool)
    ensures
        md_link(line, start, embed) matches Some(m) ==> start < m.end <= line.len(),
{
    if 0 <= start < line.len() && line[start] == '[' {
        lemma_display_end(line, start + 1);
        if let Some(de) = display_end(line, start + 1) {
            lemma_href_end(line, de + 2, 1);
        }
    }
}

/// The links of `line` found by scanning from offset `i`.
pub open spec fn scan_from(line: Seq<char>, i: int) -> Seq<LineLink>
    decreases line.len() - i,
{
    if i < 0 || i >= line.len() {
        Seq::empty()
    } else if line[i] == '`' {
        let r = run_len(line, '`', i);
        proof {
            lemma_run_len_bound(line, '`', i);
            lemma_backtick_close(line, r, i + r);
        }
        match backtick_close(line, r, i + r) {
            Some(e) => scan_from(line, e),
            None => scan_from(line, i + r),
        }
    } else if line[i] == '!' && i + 1 < line.len() {
        if line[i + 1] == '[' && i + 2 < line.len() && line[i + 2] == '[' {
            proof {
                lemma_wiki_close(line, i + 3, i + 3);
            }
            match parse_wikilink(line, i + 1) {
                Some(end) => wiki_link_at(line, i, end, true) + scan_from(line, end),
                None => scan_from(line, i + 1),
            }
        } else if line[i + 1] == '[' {
            proof {
                lemma_md_link(line, i + 1, true);
            }
            match md_link(line, i + 1, true) {
                Some(m) => md_link_at(i, m) + scan_from(line, m.end),
                None => scan_from(line, i + 1),
            }
        } else {
            scan_from(line, i + 1)
        }
    } else if line[i] == '[' {
        proof {
            lemma_wiki_close(line, i + 2, i + 2);
            lemma_md_link(line, i, false);
        }
        let w = if i + 1 < line.len() && line[i + 1] == '[' {
            parse_wikilink(line, i)
        } else {
            None
        };
        match w {
            Some(end) => wiki_link_at(line, i, end, false) + scan_from(line, end),
            None => match md_link(line, i, false) {
                Some(m) => md_link_at(i, m) + scan_from(line, m.end),
                None => scan_from(line, i + 1),
            },
        }
    } else {
        scan_from(line, i + 1)
    }
}

// ── scanning one line ────────────────────────────────────────────────────────

/// `o` as an optional character sequence.
pub open spec fn opt_chars(o: Option<Vec<char>>) -> Option<Seq<char>> {
    match o {
        Some(v) => Some(v@),
        None => None,
    }
}

/// A link found in one line (see [`LineLink`]).
struct Found {
    form: LinkForm,
    is_embed: bool,
    start: usize,
    end: usize,
    raw_text: Vec<char>,
    target_text: Vec<char>,
    anchor: Option<Vec<char>>,
    display: Option<Vec<char>>,
}

impl View for Found {
    type V = LineLink;

    closed spec fn view(&self) -> LineLink {
        LineLink {
            form: self.form,
            is_embed: self.is_embed,
            start: self.start as int,
            end: self.end as int,
            raw_text: self.raw_text@,
            target_text: self.target_text@,
            anchor: opt_chars(self.anchor),
            display: opt_chars(self.display),
        }
    }
}

spec fn found_view(v: Seq<Found>) -> Seq<LineLink> {
    v.map_values(|f: Found| f@)
}

fn backtick_close_exec(line: &Vec<char>, run: usize, j: usize) -> (r: Option<usize>)
    requires
        j <= line@.len(),
    ensures
        match r {
            Some(e) => backtick_close(line@, run as nat, j as int) == Some(e as int),
            None => backtick_close(line@, run as nat, j as int) is None,
        },
{
    let n = line.len();
    let mut k = j;
    while k < n
        invariant
            j <= k <= n == line@.len(),
            backtick_close(line@, run as nat, k as int) == backtick_close(line@, run as nat, j as int),
        decreases n - k,
    {
        if line[k] == '`' {
            let c = count_run(line, '`', k);
            if c == run {
                return Some(k + c);
            }
            proof {
                assert(run_len(line@, '`', k as int) == 1 + run_len(line@, '`', k + 1));
            }
            k = k + c;
        } else {
            k += 1;
        }
    }
    None
}

/// End of the wikilink whose `[[` starts at `start`.
fn wiki_end(line: &Vec<char>, start: usize) -> (r: Option<usize>)
    requires
        start + 2 <= line@.len(),
    ensures
        match r {
            Some(e) => parse_wikilink(line@, start as int) == Some(e as int),
            None => parse_wikilink(line@, start as int) is None,
        },
{
    let n = line.len();
    let bs = start + 2;
    let mut i = bs;
    while i < n - 1
        invariant
            bs == start + 2,
            2 <= n,
            bs <= i <= n == line@.len(),
            wiki_close(line@, bs as int, i as int) == wiki_close(line@, bs as int, bs as int),
        decreases n - i,
    {
        if line[i] == ']' && line[i + 1] == ']' {
            if i == bs {
                return None;
            }
            return Some(i + 2);
        }
        if line[i] == '\n' {
            return None;
        }
        i += 1;
    }
    None
}

fn display_end_exec(line: &Vec<char>, i0: usize) -> (r: Option<usize>)
    requires
        i0 <= line@.len(),
    ensures
        match r {
            Some(e) => display_end(line@, i0 as int) == Some(e as int),
            None => display_end(line@, i0 as int) is None,
        },
{
    let n = line.len();
    let mut i = i0;
    while i < n
        invariant
            i0 <= i <= n == line@.len(),
            display_end(line@, i as int) == display_end(line@, i0 as int),
        decreases n - i,
    {
        let b = line[i];
        if b == '\\' && i + 1 < n {
            i += 2;
        } else if b == ']' {
            return Some(i);
        } else if b == '[' {
            return None;
        } else {
            i += 1;
        }
    }
    None
}

fn href_end_exec(line: &Vec<char>, i0: usize) -> (r: Option<usize>)
    requires
        1 <= i0 <= line@.len(),
    ensures
        match r {
            Some(e) => href_end(line@, i0 as int, 1) == Some(e as int),
            None => href_end(line@, i0 as int, 1) is None,
        },
{
    let n = line.len();
    let mut i = i0;
    let mut depth: usize = 1;
    while i < n
        invariant
            1 <= i0 <= i <= n == line@.len(),
            1 <= depth <= i - i0 + 1,
            href_end(line@, i as int, depth as int) == href_end(line@, i0 as int, 1),
        decreases n - i,
    {
        let b = line[i];
        if b == '\\' && i + 1 < n {
            i += 2;
        } else if b == '(' {
            depth += 1;
            i += 1;
        } else if b == ')' {
            if depth - 1 == 0 {
                return Some(i);
            }
            depth -= 1;
            i += 1;
        } else {
            i += 1;
        }
    }
    None
}

fn first_ws_exec(s: &Vec<char>) -> (r: usize)
    ensures
        r as int == first_ws(s@, 0),
        r <= s@.len(),
{
    let n = s.len();
    let mut p: usize = 0;
    while p < n
        invariant
            p <= n == s@.len(),
            first_ws(s@, p as int) == first_ws(s@, 0),
        decreases n - p,
    {
        if is_whitespace(s[p]) {
            return p;
        }
        p += 1;
    }
    p
}

/// [`strip_md_title`].
fn strip_md_title_exec(href: &Vec<char>) -> (r: Vec<char>)
    ensures
        r@ == strip_md_title(href@),
{
    let t = trim_vec(href);
    let n = t.len();
    let u = if n > 0 && t[0] == '<' {
        let a = slice_vec(&t, 1, n);
        proof {
            assert(a@ =~= t@.drop_first());
        }
        let e = find_char_from(&a, '>', 0);
        let u = slice_vec(&a, 0, e);
        proof {
            assert(u@ =~= a@.take(e as int));
        }
        u
    } else {
        let e = first_ws_exec(&t);
        let u = slice_vec(&t, 0, e);
        proof {
            assert(u@ =~= t@.take(e as int));
        }
        u
    };
    let us = string_of_all(&u);
    match decode_percent(us.as_str()) {
        Some(d) => to_chars(d.as_str()),
        None => u,
    }
}

/// `lower(l)` starts with the characters of `p`.
fn lower_starts_with(l: &Vec<char>, p: &str) -> (r: bool)
    ensures
        r == starts_with(lower(l@), p@),
{
    let pv = to_chars(p);
    if pv.len() > l.len() {
        return false;
    }
    let mut k: usize = 0;
    while k < pv.len()
        invariant
            k <= pv@.len() <= l@.len(),
            pv@ == p@,
            forall|q: int| 0 <= q < k ==> lower(l@)[q] == pv@[q],
        decreases pv@.len() - k,
    {
        if lower_ascii(l[k]) != pv[k] {
            proof {
                assert(lower(l@).subrange(0, pv@.len() as int)[k as int] != pv@[k as int]);
            }
            return false;
        }
        k += 1;
    }
    proof {
        assert(lower(l@).subrange(0, pv@.len() as int) =~= pv@);
    }
    true
}

/// [`is_external_url`].
fn is_external_url_exec(h: &Vec<char>) -> (r: bool)
    ensures
        r == is_external_url(h@),
{
    lower_starts_with(h, "http://") || lower_starts_with(h, "https://") || lower_starts_with(
        h,
        "mailto:",
    ) || lower_starts_with(h, "obsidian://") || lower_starts_with(h, "ftp://") || lower_starts_with(
        h,
        "ftps://",
    ) || lower_starts_with(h, "ssh://") || lower_starts_with(h, "file://")
}

/// The parts of a markdown link (see [`MdParts`]).
struct MdFound {
    end: usize,
    display: Vec<char>,
    href: Vec<char>,
    raw: Vec<char>,
}

/// [`md_link`].
fn md_link_exec(line: &Vec<char>, start: usize, embed: bool) -> (r: Option<MdFound>)
    requires
        embed ==> start >= 1,
    ensures
        match (r, md_link(line@, start as int, embed)) {
            (Some(f), Some(m)) => f.end == m.end && f.display@ == m.display && f.href@ == m.href
                && f.raw@ == m.raw,
            (None, None) => true,
            _ => false,
        },
{
    let n = line.len();
    if start >= n || line[start] != '[' {
        return None;
    }
    let de = match display_end_exec(line, start + 1) {
        Some(de) => de,
        None => {
            return None;
        },
    };
    proof {
        lemma_display_end(line@, start + 1);
    }
    if de + 1 >= n || line[de + 1] != '(' {
        return None;
    }
    let he = match href_end_exec(line, de + 2) {
        Some(he) => he,
        None => {
            return None;
        },
    };
    proof {
        lemma_href_end(line@, de + 2, 1);
    }
    let raw_href = slice_vec(line, de + 2, he);
    let trimmed = trim_vec(&raw_href);
    let href = strip_md_title_exec(&trimmed);
    if href.len() == 0 || is_external_url_exec(&href) {
        return None;
    }
    let display = slice_vec(line, start + 1, de);
    let from = if embed {
        start - 1
    } else {
        start
    };
    let raw = slice_vec(line, from, he + 1);
    Some(MdFound { end: he + 1, display, href, raw })
}

/// [`split_at_char`].
fn split_at_char_exec(s: &Vec<char>, c: char) -> (r: (Vec<char>, Option<Vec<char>>))
    ensures
        (r.0@, opt_chars(r.1)) == split_at_char(s@, c),
{
    let n = s.len();
    let k = find_char_from(s, c, 0);
    if k < n {
        let a = slice_vec(s, 0, k);
        let b = slice_vec(s, k + 1, n);
        proof {
            assert(a@ =~= s@.take(k as int));
            assert(b@ =~= s@.skip(k + 1));
        }
        (a, Some(b))
    } else {
        let a = slice_vec(s, 0, n);
        proof {
            assert(a@ =~= s@);
        }
        (a, None)
    }
}

/// Append the wikilink spanning `line[s..e]`, unless its target is blank.
fn push_wiki(line: &Vec<char>, s: usize, e: usize, embed: bool, out: &mut Vec<Found>)
    requires
        s + (if embed { 3int } else { 2int }) + 2 <= e <= line@.len(),
    ensures
        found_view(final(out)@) == found_view(old(out)@) + wiki_link_at(line@, s as int, e as int, embed),
{
    let raw = slice_vec(line, s, e);
    let bs: usize = if embed {
        3
    } else {
        2
    };
    let body = slice_vec(&raw, bs, raw.len() - 2);
    let (lhs, display) = split_at_char_exec(&body, '|');
    let (target, anchor) = split_at_char_exec(&lhs, '#');
    let t = trim_vec(&target);
    if t.len() == 0 {
        proof {
            assert(found_view(out@) + wiki_link_at(line@, s as int, e as int, embed) =~= found_view(out@));
        }
        return;
    }
    let f = Found {
        form: LinkForm::WikiLink,
        is_embed: embed,
        start: s,
        end: e,
        raw_text: raw,
        target_text: t,
        anchor,
        display,
    };
    proof {
        assert(found_view(out@.push(f)) =~= found_view(out@).push(f@));
        assert(seq![f@] =~= wiki_link_at(line@, s as int, e as int, embed));
    }
    out.push(f);
}

/// Append the markdown link starting at `s`, unless its path part is empty.
fn push_md(s: usize, m: MdFound, out: &mut Vec<Found>)
    ensures
        found_view(final(out)@) == found_view(old(out)@) + md_link_at(
            s as int,
            MdParts { end: m.end as int, display: m.display@, href: m.href@, raw: m.raw@ },
        ),
{
    let ghost mp = MdParts { end: m.end as int, display: m.display@, href: m.href@, raw: m.raw@ };
    let (target, anchor) = split_at_char_exec(&m.href, '#');
    if target.len() == 0 {
        proof {
            assert(found_view(out@) + md_link_at(s as int, mp) =~= found_view(out@));
        }
        return;
    }
    let is_embed = m.raw.len() > 0 && m.raw[0] == '!';
    let display = if m.display.len() == 0 {
        None
    } else {
        Some(m.display)
    };
    let f = Found {
        form: LinkForm::MdLink,
        is_embed,
        start: s,
        end: m.end,
        raw_text: m.raw,
        target_text: target,
        anchor,
        display,
    };
    proof {
        assert(found_view(out@.push(f)) =~= found_view(out@).push(f@));
        assert(seq![f@] =~= md_link_at(s as int, mp));
    }
    out.push(f);
}

/// Every link of one content line, in order.
fn scan_line(line: &Vec<char>) -> (r: Vec<Found>)
    ensures
        found_view(r@) == scan_from(line@, 0),
{
    let n = line.len();
    let mut out: Vec<Found> = Vec::new();
    let mut i: usize = 0;
    while i < n
        invariant
            i <= n == line@.len(),
            scan_from(line@, 0) == found_view(out@) + scan_from(line@, i as int),
        decreases n - i,
    {
        let ghost i0 = i;
        let ghost before = found_view(out@);
        let c = line[i];
        if c == '`' {
            let r = count_run(line, '`', i);
            proof {
                lemma_run_len_bound(line@, '`', i as int);
                assert(run_len(line@, '`', i as int) == 1 + run_len(line@, '`', i + 1));
                lemma_backtick_close(line@, r as nat, (i + r) as int);
            }
            match backtick_close_exec(line, r, i + r) {
                Some(e) => {
                    i = e;
                },
                None => {
                    i = i + r;
                },
            }
        } else if c == '!' && i + 1 < n {
            if line[i + 1] == '[' && i + 2 < n && line[i + 2] == '[' {
                proof {
                    lemma_wiki_close(line@, i + 3, i + 3);
                }
                match wiki_end(line, i + 1) {
                    Some(end) => {
                        push_wiki(line, i, end, true, &mut out);
                        proof {
                            assert(before + (wiki_link_at(line@, i0 as int, end as int, true) + scan_from(line@, end as int))
                                =~= found_view(out@) + scan_from(line@, end as int));
                        }
                        i = end;
                    },
                    None => {
                        i += 1;
                    },
                }
            } else if line[i + 1] == '[' {
                proof {
                    lemma_md_link(line@, i + 1, true);
                }
                match md_link_exec(line, i + 1, true) {
                    Some(m) => {
                        let end = m.end;
                        push_md(i, m, &mut out);
                        proof {
                            let mp = md_link(line@, i0 + 1, true)->0;
                            assert(before + (md_link_at(i0 as int, mp) + scan_from(line@, end as int))
                                =~= found_view(out@) + scan_from(line@, end as int));
                        }
                        i = end;
                    },
                    None => {
                        i += 1;
                    },
                }
            } else {
                i += 1;
            }
        } else if c == '[' {
            proof {
                lemma_wiki_close(line@, i + 2, i + 2);
                lemma_md_link(line@, i as int, false);
            }
            let w = if i + 1 < n && line[i + 1] == '[' {
                wiki_end(line, i)
            } else {
                None
            };
            match w {
                Some(end) => {
                    push_wiki(line, i, end, false, &mut out);
                    proof {
                        assert(before + (wiki_link_at(line@, i0 as int, end as int, false) + scan_from(line@, end as int))
                            =~= found_view(out@) + scan_from(line@, end as int));
                    }
                    i = end;
                },
                None => {
                    match md_link_exec(line, i, false) {
                        Some(m) => {
                            let end = m.end;
                            push_md(i, m, &mut out);
                            proof {
                                let mp = md_link(line@, i0 as int, false)->0;
                                assert(before + (md_link_at(i0 as int, mp) + scan_from(line@, end as int))
                                    =~= found_view(out@) + scan_from(line@, end as int));
                            }
                            i = end;
                        },
                        None => {
                            i += 1;
                        },
                    }
                },
            }
        } else {
            i += 1;
        }
    }
    proof {
        assert(found_view(out@) + Seq::<LineLink>::empty() =~= found_view(out@));
    }
    out
}

// ── whole documents ──────────────────────────────────────────────────────────

/// One link occurrence in a document.
#[derive(Debug, PartialEq, Eq)]
pub struct RawLink {
    pub form: LinkForm,
    pub is_embed: bool,
    /// Byte range in the source content: `&content[byte_range] == raw_text`.
    pub byte_range: std::ops::Range<usize>,
    /// 1-indexed source line.
    pub line: usize,
    pub raw_text: String,
    /// The target before any anchor or display text. For markdown links
    /// this is the percent-decoded href.
    pub target_text: String,
    pub anchor: Option<String>,
    pub display: Option<String>,
}

/// Mathematical value of a [`RawLink`].
pub struct RawLinkSpec {
    pub form: LinkForm,
    pub is_embed: bool,
    pub byte_start: int,
    pub byte_end: int,
    pub line: nat,
    pub raw_text: Seq<char>,
    pub target_text: Seq<char>,
    pub anchor: Option<Seq<char>>,
    pub display: Option<Seq<char>>,
}

/// `o` as an optional character sequence.
pub open spec fn opt_string(o: Option<String>) -> Option<Seq<char>> {
    match o {
        Some(s) => Some(s@),
        None => None,
    }
}

impl View for RawLink {
    type V = RawLinkSpec;

    open spec fn view(&self) -> RawLinkSpec {
        RawLinkSpec {
            form: self.form,
            is_embed: self.is_embed,
            byte_start: self.byte_range.start as int,
            byte_end: self.byte_range.end as int,
            line: self.line as nat,
            raw_text: self.raw_text@,
            target_text: self.target_text@,
            anchor: opt_string(self.anchor),
            display: opt_string(self.display),
        }
    }
}

pub open spec fn raw_links_view(v: Seq<RawLink>) -> Seq<RawLinkSpec> {
    v.map_values(|l: RawLink| l@)
}

/// The link `l` of the line starting at offset `p` of `s`, placed in `s`:
/// its byte range is that of its characters in `s`.
pub open spec fn raw_link_of(s: Seq<char>, p: int, lineno: nat, l: LineLink) -> RawLinkSpec {
    RawLinkSpec {
        form: l.form,
        is_embed: l.is_embed,
        byte_start: utf8_len(s.take(p + l.start)) as int,
        byte_end: utf8_len(s.take(p + l.end)) as int,
        line: lineno,
        raw_text: l.raw_text,
        target_text: l.target_text,
        anchor: l.anchor,
        display: l.display,
    }
}

/// The links of `s` from the line starting at offset `p` on; that line is
/// line `lineno`, and the skip state before it is `st`.
pub open spec fn links_from(s: Seq<char>, p: int, lineno: nat, st: LineSkipState) -> Seq<RawLinkSpec>
    decreases s.len() + 1 - p,
{
    if p < 0 || p >= s.len() {
        Seq::empty()
    } else {
        proof {
            lemma_find_from_bounds(s, '\n', p);
        }
        let e = piece_end(s, p);
        let l = strip_nl(s.subrange(p, e));
        let (st2, skip) = skip_step(st, l);
        let rest = links_from(s, e, lineno + 1, st2);
        if skip {
            rest
        } else {
            scan_from(l, 0).map_values(|x: LineLink| raw_link_of(s, p, lineno, x)) + rest
        }
    }
}

/// Every link of `s`, in document order.
pub open spec fn links_of(s: Seq<char>) -> Seq<RawLinkSpec> {
    links_from(s, 0, 1, initial_skip_state())
}

/// Every link of `v` lies in `line[i..]`, and its raw text is the text it
/// spans.
pub open spec fn links_within(line: Seq<char>, v: Seq<LineLink>, i: int) -> bool {
    forall|k: int|
        0 <= k < v.len() ==> i <= #[trigger] v[k].start <= v[k].end <= line.len() && v[k].raw_text
            == line.subrange(v[k].start, v[k].end)
}

proof fn lemma_links_within_concat(line: Seq<char>, w: Seq<LineLink>, rest: Seq<LineLink>, i: int, j: int)
    requires
        i <= j,
        links_within(line, w, i),
        links_within(line, rest, j),
    ensures
        links_within(line, w + rest, i),
{
    assert forall|k: int| 0 <= k < (w + rest).len() implies i <= #[trigger] (w + rest)[k].start <= (w
        + rest)[k].end <= line.len() && (w + rest)[k].raw_text == line.subrange(
        (w + rest)[k].start,
        (w + rest)[k].end,
    ) by {
        if k < w.len() {
            assert((w + rest)[k] == w[k]);
        } else {
            assert((w + rest)[k] == rest[k - w.len()]);
        }
    }
}

/// Every link scanned from a line lies within it, and its raw text is the
/// text it spans.
pub proof fn lemma_scan_bounds(line: Seq<char>, i: int)
    requires
        0 <= i,
    ensures
        links_within(line, scan_from(line, i), i),
    decreases line.len() - i,
{
    let e: Seq<LineLink> = Seq::empty();
    if 0 <= i < line.len() {
        if line[i] == '`' {
            let r = run_len(line, '`', i);
            lemma_run_len_bound(line, '`', i);
            assert(run_len(line, '`', i) == 1 + run_len(line, '`', i + 1));
            lemma_backtick_close(line, r, i + r);
            match backtick_close(line, r, i + r) {
                Some(c) => {
                    lemma_scan_bounds(line, c);
                    lemma_links_within_concat(line, e, scan_from(line, c), i, c);
                    assert(e + scan_from(line, c) =~= scan_from(line, c));
                },
                None => {
                    lemma_scan_bounds(line, i + r);
                    lemma_links_within_concat(line, e, scan_from(line, i + r), i, i + r);
                    assert(e + scan_from(line, i + r) =~= scan_from(line, i + r));
                },
            }
        } else if line[i] == '!' && i + 1 < line.len() {
            lemma_scan_bounds(line, i + 1);
            lemma_links_within_concat(line, e, scan_from(line, i + 1), i, i + 1);
            assert(e + scan_from(line, i + 1) =~= scan_from(line, i + 1));
            if line[i + 1] == '[' && i + 2 < line.len() && line[i + 2] == '[' {
                lemma_wiki_close(line, i + 3, i + 3);
                match parse_wikilink(line, i + 1) {
                    Some(end) => {
                        lemma_scan_bounds(line, end);
                        lemma_links_within_concat(line, wiki_link_at(line, i, end, true), scan_from(line, end), i, end);
                    },
                    None => {},
                }
            } else if line[i + 1] == '[' {
                lemma_md_link(line, i + 1, true);
                match md_link(line, i + 1, true) {
                    Some(m) => {
                        lemma_scan_bounds(line, m.end);
                        lemma_links_within_concat(line, md_link_at(i, m), scan_from(line, m.end), i, m.end);
                    },
                    None => {},
                }
            }
        } else if line[i] == '[' {
            lemma_wiki_close(line, i + 2, i + 2);
            lemma_md_link(line, i, false);
            lemma_scan_bounds(line, i + 1);
            lemma_links_within_concat(line, e, scan_from(line, i + 1), i, i + 1);
            assert(e + scan_from(line, i + 1) =~= scan_from(line, i + 1));
            let w = if i + 1 < line.len() && line[i + 1] == '[' {
                parse_wikilink(line, i)
            } else {
                None
            };
            match w {
                Some(end) => {
                    lemma_scan_bounds(line, end);
                    lemma_links_within_concat(line, wiki_link_at(line, i, end, false), scan_from(line, end), i, end);
                },
                None => match md_link(line, i, false) {
                    Some(m) => {
                        lemma_scan_bounds(line, m.end);
                        lemma_links_within_concat(line, md_link_at(i, m), scan_from(line, m.end), i, m.end);
                    },
                    None => {},
                },
            }
        } else {
            lemma_scan_bounds(line, i + 1);
            lemma_links_within_concat(line, e, scan_from(line, i + 1), i, i + 1);
            assert(e + scan_from(line, i + 1) =~= scan_from(line, i + 1));
        }
    }
}

fn opt_vec_to_string(o: &Option<Vec<char>>) -> (r: Option<String>)
    ensures
        opt_string(r) == opt_chars(*o),
{
    match o {
        Some(v) => Some(string_of_all(v)),
        None => None,
    }
}

/// Extract every link occurrence from `content`, in document order.
///
/// Lines inside frontmatter, fenced code or indented code are skipped
/// entirely; inline code spans are skipped within a line, and the rest of
/// the line still contributes its links.
pub fn extract_links(content: &str) -> (r: Vec<RawLink>)
    ensures
        raw_links_view(r@) == links_of(content@),
{
    let chars = to_chars(content);
    let total = content.as_bytes().len();
    proof {
        lemma_utf8_len_encode(content@);
        assert(chars@.take(0) =~= Seq::<char>::empty());
    }
    let n = chars.len();
    let mut out: Vec<RawLink> = Vec::new();
    let mut state = LineSkipState::new();
    let mut p: usize = 0;
    let mut b: usize = 0;
    let mut lineno: usize = 0;
    while p < n
        invariant
            p <= n == chars@.len(),
            chars@ == content@,
            total as nat == utf8_len(chars@),
            b as nat == utf8_len(chars@.take(p as int)),
            lineno <= p,
            links_of(chars@) == raw_links_view(out@) + links_from(chars@, p as int, (lineno + 1) as nat, state),
        decreases n - p,
    {
        lineno += 1;
        let q = find_char_from(&chars, '\n', p);
        let lend = q;
        let e = if q < n {
            q + 1
        } else {
            n
        };
        let l = slice_vec(&chars, p, lend);
        proof {
            lemma_find_from_bounds(chars@, '\n', p as int);
            assert(e as int == piece_end(chars@, p as int));
            assert(l@ =~= strip_nl(chars@.subrange(p as int, e as int)));
            lemma_utf8_split(chars@, p as int, lend as int);
        }
        let ghost st0 = state;
        let ghost before = raw_links_view(out@);
        let skip = state.skip_line(&l);
        if !skip {
            let found = scan_line(&l);
            proof {
                lemma_scan_bounds(l@, 0);
            }
            let ghost lv = scan_from(l@, 0);
            let ghost mapped = lv.map_values(|x: LineLink| raw_link_of(chars@, p as int, lineno as nat, x));
            let mut k: usize = 0;
            while k < found.len()
                invariant
                    k <= found@.len() == lv.len(),
                    found_view(found@) == lv,
                    lv == scan_from(l@, 0),
                    mapped == lv.map_values(|x: LineLink| raw_link_of(chars@, p as int, lineno as nat, x)),
                    links_within(l@, lv, 0),
                    l@ == chars@.subrange(p as int, lend as int),
                    p <= lend <= n == chars@.len(),
                    total as nat == utf8_len(chars@),
                    b as nat == utf8_len(chars@.take(p as int)),
                    utf8_len(chars@.take(lend as int)) == utf8_len(chars@.take(p as int)) + utf8_len(l@),
                    utf8_len(chars@.take(lend as int)) <= utf8_len(chars@),
                    raw_links_view(out@) == before + mapped.take(k as int),
                decreases found@.len() - k,
            {
                let f = &found[k];
                proof {
                    assert(found@[k as int]@ == lv[k as int]);
                    let kk = k as int;
                    assert(links_within(l@, lv, 0));
                    assert(0 <= kk < lv.len());
                    assert(0 <= lv[kk].start <= lv[kk].end <= l@.len());
                    assert(l@.take(f.start as int) =~= chars@.subrange(p as int, p + f.start));
                    assert(l@.take(f.end as int) =~= chars@.subrange(p as int, p + f.end));
                    lemma_utf8_split(chars@, p as int, p + f.start);
                    lemma_utf8_split(chars@, p as int, p + f.end);
                    lemma_utf8_split(l@, f.start as int, f.end as int);
                    lemma_utf8_split(l@, f.end as int, l@.len() as int);
                    assert(l@.take(l@.len() as int) =~= l@);
                }
                let bs = byte_offset(&l, f.start, b, Ghost(total as nat));
                let be = byte_offset(&l, f.end, b, Ghost(total as nat));
                let link = RawLink {
                    form: f.form,
                    is_embed: f.is_embed,
                    byte_range: bs..be,
                    line: lineno,
                    raw_text: string_of_all(&f.raw_text),
                    target_text: string_of_all(&f.target_text),
                    anchor: opt_vec_to_string(&f.anchor),
                    display: opt_vec_to_string(&f.display),
                };
                proof {
                    assert(link@ == mapped[k as int]);
                    assert(raw_links_view(out@.push(link)) =~= raw_links_view(out@).push(link@));
                    assert(mapped.take(k + 1) =~= mapped.take(k as int).push(mapped[k as int]));
                }
                out.push(link);
                k += 1;
            }
            proof {
                assert(mapped.take(k as int) =~= mapped);
                assert(before + mapped + links_from(chars@, e as int, (lineno + 1) as nat, state) =~= raw_links_view(out@) + links_from(chars@, e as int, (lineno + 1) as nat, state));
                assert(scan_from(l@, 0).map_values(|x: LineLink| raw_link_of(chars@, p as int, lineno as nat, x)) == mapped);
            }
        }
        let mut j = p;
        while j < e
            invariant
                p <= j <= e <= n == chars@.len(),
                total as nat == utf8_len(chars@),
                b as nat == utf8_len(chars@.take(j as int)),
            decreases e - j,
        {
            proof {
                lemma_utf8_len_take(chars@, j as int);
            }
            b = b + char_width_exec(chars[j]);
            j += 1;
        }
        p = e;
    }
    proof {
        assert(raw_links_view(out@) + Seq::<RawLinkSpec>::empty() =~= raw_links_view(out@));
    }
    out
}

// ── laws ─────────────────────────────────────────────────────────────────────

/// `r` spans `s[a..b]` for some `a <= b`, with the byte offsets of `a` and
/// `b` as its byte range.
pub open spec fn placed(s: Seq<char>, r: RawLinkSpec) -> bool {
    exists|a: int, b: int|
        0 <= a <= b <= s.len() && r.raw_text == #[trigger] s.subrange(a, b) && r.byte_start
            == utf8_len(s.take(a)) && r.byte_end == utf8_len(s.take(b))
}

proof fn lemma_links_from_placed(s: Seq<char>, p: int, lineno: nat, st: LineSkipState)
    requires
        0 <= p,
    ensures
        forall|k: int| 0 <= k < links_from(s, p, lineno, st).len() ==> placed(s, #[trigger] links_from(s, p, lineno, st)[k]),
    decreases s.len() + 1 - p,
{
    if p < s.len() {
        lemma_find_from_bounds(s, '\n', p);
        let e = piece_end(s, p);
        let l = strip_nl(s.subrange(p, e));
        let (st2, skip) = skip_step(st, l);
        lemma_links_from_placed(s, e, lineno + 1, st2);
        if !skip {
            let lv = scan_from(l, 0);
            lemma_scan_bounds(l, 0);
            let mapped = lv.map_values(|x: LineLink| raw_link_of(s, p, lineno, x));
            let rest = links_from(s, e, lineno + 1, st2);
            assert(l.len() <= e - p);
            assert forall|k: int| 0 <= k < (mapped + rest).len() implies placed(s, #[trigger] (mapped + rest)[k]) by {
                if k < mapped.len() {
                    let x = lv[k];
                    assert((mapped + rest)[k] == raw_link_of(s, p, lineno, x));
                    assert(x.raw_text == l.subrange(x.start, x.end));
                    assert(l.subrange(x.start, x.end) =~= s.subrange(p + x.start, p + x.end));
                    let a = p + x.start;
                    let b = p + x.end;
                    assert(x.raw_text == s.subrange(a, b));
                } else {
                    assert((mapped + rest)[k] == rest[k - mapped.len()]);
                }
            }
            assert(links_from(s, p, lineno, st) == mapped + rest);
        } else {
            assert(links_from(s, p, lineno, st) == links_from(s, e, lineno + 1, st2));
        }
    }
}

/// The byte range of every extracted link selects exactly its raw text
/// from the UTF-8 bytes of the content.
pub proof fn lemma_byte_range_round_trip(s: Seq<char>, k: int)
    requires
        0 <= k < links_of(s).len(),
    ensures
        vstd::utf8::encode_utf8(s).subrange(links_of(s)[k].byte_start, links_of(s)[k].byte_end)
            == vstd::utf8::encode_utf8(links_of(s)[k].raw_text),
{
    lemma_links_from_placed(s, 0, 1, initial_skip_state());
    let r = links_of(s)[k];
    assert(placed(s, r));
    let (a, b) = choose|a: int, b: int|
        0 <= a <= b <= s.len() && r.raw_text == #[trigger] s.subrange(a, b) && r.byte_start
            == utf8_len(s.take(a)) && r.byte_end == utf8_len(s.take(b));
    crate::text::lemma_encode_utf8_slice(s, a, b);
}

} // verus!
