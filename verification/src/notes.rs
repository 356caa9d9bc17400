//! Section-level operations on markdown notes.
//!
//! A *section* is a heading plus the body that follows it, up to the next
//! heading of equal or higher level. Moving an `##` heading drags its
//! nested `###` / `####` headings with it.
//!
//! The primitives here are pure (text in, text out). Writing the two
//! resulting files (target first, then source) is the caller's job.

use vstd::prelude::*;

use crate::error::Error;
use crate::markdown::{
    extract_headings_chars, headings_of, headings_view, lemma_headings_scan_lines, Heading,
    HeadingSpec,
};
use crate::markdown::run_len;
use crate::text::{
    decimal, lines, pieces, push_str, push_usize, skip_ws, split_inclusive_lines, string_of,
    string_of_all, to_chars, trim_start,
};

verus! {

/// A heading and the body that belongs to it. `body` includes the heading
/// line itself and runs up to (not including) the next heading of
/// equal-or-higher level, or the end of the file.
#[derive(Debug, Clone, PartialEq, Eq)]
pub struct Section {
    pub heading: Heading,
    pub body: String,
}

/// Mathematical value of a [`Section`].
pub struct SectionSpec {
    pub heading: HeadingSpec,
    pub body: Seq<char>,
}

impl View for Section {
    type V = SectionSpec;

    open spec fn view(&self) -> SectionSpec {
        SectionSpec { heading: self.heading@, body: self.body@ }
    }
}

pub open spec fn sections_view(v: Seq<Section>) -> Seq<SectionSpec> {
    v.map_values(|s: Section| s@)
}

/// One heading to move out of the source, and the level to drop it at.
/// `source_line` is the 1-indexed line of the heading in the source.
#[derive(Debug, Clone, Copy, PartialEq, Eq)]
pub struct SectionPick {
    pub source_line: usize,
    pub new_level: u8,
}

/// Where in the target a pick lands: after the section of the target
/// heading at `after_line`, or at the very top when `None`.
#[derive(Debug, Clone, Copy, PartialEq, Eq)]
pub struct Placement {
    pub pick_idx: usize,
    pub after_line: Option<usize>,
}

// ── line offsets ─────────────────────────────────────────────────────────────

/// Offsets just past each `'\n'` of `s` at or after `p`.
pub open spec fn nl_after(s: Seq<char>, p: int) -> Seq<int>
    decreases s.len() - p,
{
    if p < 0 || p >= s.len() {
        Seq::empty()
    } else if s[p] == '\n' {
        seq![p + 1] + nl_after(s, p + 1)
    } else {
        nl_after(s, p + 1)
    }
}

/// Offset of the start of each line, plus a final entry equal to the length
/// of `s`: `line_offsets(s)[n - 1]` is where line `n` starts.
pub open spec fn line_offsets(s: Seq<char>) -> Seq<int> {
    seq![0int] + nl_after(s, 0) + seq![s.len() as int]
}

proof fn lemma_nl_after_props(s: Seq<char>, p: int)
    requires
        0 <= p,
    ensures
        forall|k: int| 0 <= k < nl_after(s, p).len() ==> p < #[trigger] nl_after(s, p)[k] <= s.len(),
        forall|a: int, b: int|
            0 <= a < b < nl_after(s, p).len() ==> #[trigger] nl_after(s, p)[a] < #[trigger] nl_after(
                s,
                p,
            )[b],
    decreases s.len() - p,
{
    if p < s.len() {
        lemma_nl_after_props(s, p + 1);
        let r = nl_after(s, p);
        let rest = nl_after(s, p + 1);
        if s[p] == '\n' {
            assert forall|k: int| 0 <= k < r.len() implies p < #[trigger] r[k] <= s.len() by {
                if k > 0 {
                    assert(r[k] == rest[k - 1]);
                }
            }
            assert forall|a: int, b: int| 0 <= a < b < r.len() implies #[trigger] r[a] < #[trigger] r[b] by {
                assert(r[b] == rest[b - 1]);
                if a > 0 {
                    assert(r[a] == rest[a - 1]);
                }
            }
        }
    }
}

proof fn lemma_nl_after_skip(s: Seq<char>, p: int, q: int)
    requires
        0 <= p <= q <= s.len(),
        forall|k: int| p <= k < q ==> s[k] != '\n',
    ensures
        nl_after(s, p) == nl_after(s, q),
    decreases q - p,
{
    if p < q {
        lemma_nl_after_skip(s, p + 1, q);
    }
}

proof fn lemma_lines_len(s: Seq<char>, p: int)
    requires
        0 <= p,
    ensures
        crate::text::lines_from(s, p).len() <= nl_after(s, p).len() + 1,
    decreases s.len() + 1 - p,
{
    if p < s.len() {
        let q = crate::text::find_from(s, '\n', p);
        crate::text::lemma_find_from_bounds(s, '\n', p);
        lemma_lines_len(s, q + 1);
        lemma_nl_after_skip(s, p, q);
        if q < s.len() {
            assert(nl_after(s, q) == seq![q + 1] + nl_after(s, q + 1));
        }
    }
}

/// `line_offsets` is nondecreasing, starts at 0 and ends at `s.len()`;
/// every heading line of `s` indexes it.
pub proof fn lemma_line_offsets(s: Seq<char>)
    ensures
        line_offsets(s).len() == nl_after(s, 0).len() + 2,
        lines(s).len() + 1 <= line_offsets(s).len(),
        forall|a: int, b: int|
            0 <= a <= b < line_offsets(s).len() ==> 0 <= #[trigger] line_offsets(s)[a] <= #[trigger] line_offsets(s)[b] <= s.len(),
        forall|k: int|
            0 <= k < headings_of(s).len() ==> 1 <= #[trigger] headings_of(s)[k].line <= lines(s).len(),
        forall|a: int, b: int|
            0 <= a < b < headings_of(s).len() ==> #[trigger] headings_of(s)[a].line < #[trigger] headings_of(s)[b].line,
{
    lemma_nl_after_props(s, 0);
    lemma_lines_len(s, 0);
    lemma_headings_scan_lines(lines(s), 0, crate::markdown::initial_skip_state());
    let o = line_offsets(s);
    let n = nl_after(s, 0);
    assert forall|a: int, b: int| 0 <= a <= b < o.len() implies 0 <= #[trigger] o[a] <= #[trigger] o[b] <= s.len() by {
        if a > 0 && a < o.len() - 1 {
            assert(o[a] == n[a - 1]);
        }
        if b > 0 && b < o.len() - 1 {
            assert(o[b] == n[b - 1]);
        }
        if a > 0 && b < o.len() - 1 && a < b {
            assert(n[a - 1] < n[b - 1]);
        }
    }
}

/// Byte-free line offsets: the start of each line plus a final `len`.
fn line_offsets_exec(s: &Vec<char>) -> (r: Vec<usize>)
    ensures
        r@.len() == line_offsets(s@).len(),
        forall|k: int| 0 <= k < r@.len() ==> r@[k] as int == #[trigger] line_offsets(s@)[k],
{
    let mut offs: Vec<usize> = Vec::new();
    offs.push(0);
    let mut p: usize = 0;
    let ghost mut acc: Seq<int> = Seq::empty();
    while p < s.len()
        invariant
            p <= s@.len(),
            nl_after(s@, 0) == acc + nl_after(s@, p as int),
            offs@.len() == acc.len() + 1,
            offs@[0] == 0,
            forall|k: int| 0 <= k < acc.len() ==> offs@[k + 1] as int == #[trigger] acc[k],
        decreases s@.len() - p,
    {
        if s[p] == '\n' {
            proof {
                assert(nl_after(s@, p as int) == seq![p + 1] + nl_after(s@, p + 1));
                assert(acc + nl_after(s@, p as int) =~= acc.push(p + 1) + nl_after(s@, p + 1));
                acc = acc.push(p + 1);
            }
            offs.push(p + 1);
        }
        p += 1;
    }
    offs.push(s.len());
    proof {
        assert(acc + Seq::<int>::empty() =~= acc);
        let o = line_offsets(s@);
        assert forall|k: int| 0 <= k < offs@.len() implies offs@[k] as int == #[trigger] o[k] by {
            if k > 0 && k < offs@.len() - 1 {
                assert(o[k] == acc[k - 1]);
            }
        }
    }
    offs
}

// ── sections ─────────────────────────────────────────────────────────────────

/// Index of the first heading at or after `j` whose level is `<= lvl`, or
/// `hs.len()` when there is none.
pub open spec fn first_le(hs: Seq<HeadingSpec>, lvl: u8, j: int) -> int
    decreases hs.len() - j,
{
    if j < 0 || j >= hs.len() {
        hs.len() as int
    } else if hs[j].level <= lvl {
        j
    } else {
        first_le(hs, lvl, j + 1)
    }
}

proof fn lemma_first_le(hs: Seq<HeadingSpec>, lvl: u8, j: int)
    requires
        0 <= j <= hs.len(),
    ensures
        j <= first_le(hs, lvl, j) <= hs.len(),
        first_le(hs, lvl, j) < hs.len() ==> hs[first_le(hs, lvl, j)].level <= lvl,
        forall|k: int| j <= k < first_le(hs, lvl, j) ==> #[trigger] hs[k].level > lvl,
    decreases hs.len() - j,
{
    if j < hs.len() && hs[j].level > lvl {
        lemma_first_le(hs, lvl, j + 1);
    }
}

/// Start and end offsets of the section of heading `i` among `hs`, the
/// headings of `s`.
pub open spec fn section_span(s: Seq<char>, hs: Seq<HeadingSpec>, i: int) -> (int, int) {
    let o = line_offsets(s);
    let f = first_le(hs, hs[i].level, i + 1);
    (o[hs[i].line - 1], if f < hs.len() { o[hs[f].line - 1] } else { s.len() as int })
}

/// Every section of `s`, in document order.
pub open spec fn sections_of(s: Seq<char>) -> Seq<SectionSpec> {
    let hs = headings_of(s);
    Seq::new(
        hs.len(),
        |i: int| SectionSpec { heading: hs[i], body: s.subrange(section_span(s, hs, i).0, section_span(s, hs, i).1) },
    )
}

proof fn lemma_section_span(s: Seq<char>, i: int)
    requires
        0 <= i < headings_of(s).len(),
    ensures
        0 <= section_span(s, headings_of(s), i).0 <= section_span(s, headings_of(s), i).1 <= s.len(),
{
    let hs = headings_of(s);
    lemma_line_offsets(s);
    lemma_first_le(hs, hs[i].level, i + 1);
    let f = first_le(hs, hs[i].level, i + 1);
    let o = line_offsets(s);
    assert(0 <= hs[i].line - 1 < o.len() - 1);
    if f < hs.len() {
        assert(hs[i].line < hs[f].line);
        assert(o[hs[i].line - 1] <= o[hs[f].line - 1]);
    } else {
        assert(o[hs[i].line - 1] <= o[o.len() - 1]);
    }
}

/// Extract every section from `content`, in document order. Content before
/// the first heading is excluded; headings inside frontmatter or code
/// blocks do not start sections.
pub fn extract_sections(content: &str) -> (r: Vec<Section>)
    ensures
        sections_view(r@) == sections_of(content@),
{
    let chars = to_chars(content);
    extract_sections_chars(&chars)
}

/// [`extract_sections`] over a character vector.
pub fn extract_sections_chars(chars: &Vec<char>) -> (r: Vec<Section>)
    ensures
        sections_view(r@) == sections_of(chars@),
{
    let hs = extract_headings_chars(chars);
    let offs = line_offsets_exec(chars);
    let ghost hsv = headings_of(chars@);
    proof {
        lemma_line_offsets(chars@);
        assert(hsv.len() == hs@.len());
    }
    let mut out: Vec<Section> = Vec::new();
    let mut i: usize = 0;
    while i < hs.len()
        invariant
            i <= hs@.len() == hsv.len(),
            hsv == headings_of(chars@),
            headings_view(hs@) == hsv,
            offs@.len() == line_offsets(chars@).len(),
            forall|k: int| 0 <= k < offs@.len() ==> offs@[k] as int == #[trigger] line_offsets(chars@)[k],
            sections_view(out@) == sections_of(chars@).take(i as int),
        decreases hs@.len() - i,
    {
        proof {
            lemma_line_offsets(chars@);
            assert(hs@[i as int]@ == hsv[i as int]);
            lemma_section_span(chars@, i as int);
            lemma_first_le(hsv, hsv[i as int].level, i + 1);
        }
        let lvl = hs[i].level;
        let mut j = i + 1;
        while j < hs.len() && hs[j].level > lvl
            invariant
                i < j <= hs@.len() == hsv.len(),
                headings_view(hs@) == hsv,
                lvl == hsv[i as int].level,
                first_le(hsv, lvl, j as int) == first_le(hsv, lvl, i + 1),
            decreases hs@.len() - j,
        {
            proof {
                assert(hs@[j as int]@ == hsv[j as int]);
            }
            j += 1;
        }
        proof {
            if j < hs@.len() {
                assert(hs@[j as int]@ == hsv[j as int]);
                assert(hsv[i as int].line < hsv[j as int].line);
            }
        }
        let start = offs[hs[i].line - 1];
        let end = if j < hs.len() {
            offs[hs[j].line - 1]
        } else {
            chars.len()
        };
        let body = string_of(chars, start, end);
        let sec = Section { heading: hs[i].copy(), body };
        proof {
            assert(sec@ == sections_of(chars@)[i as int]);
            assert(sections_view(out@.push(sec)) =~= sections_view(out@).push(sec@));
            assert(sections_of(chars@).take(i + 1) =~= sections_of(chars@).take(i as int).push(sec@));
        }
        out.push(sec);
        i += 1;
    }
    proof {
        assert(sections_of(chars@).take(i as int) =~= sections_of(chars@));
    }
    out
}

// ── level shifting ───────────────────────────────────────────────────────────

/// `e` is a notes error carrying the message `m`.
pub open spec fn notes_error(e: Error, m: Seq<char>) -> bool {
    match e {
        Error::Notes(s) => s@ == m,
        _ => false,
    }
}

/// `n` in decimal, with a leading `-` when negative.
pub open spec fn signed_decimal(n: int) -> Seq<char> {
    if n < 0 {
        seq!['-'] + decimal((-n) as nat)
    } else {
        decimal(n as nat)
    }
}

/// `n` copies of `'#'`.
pub open spec fn hashes(n: nat) -> Seq<char> {
    Seq::new(n, |i: int| '#')
}

/// Length of a `split_inclusive('\n')` piece without its line ending.
pub open spec fn piece_body_len(p: Seq<char>) -> int {
    if p.len() > 0 && p.last() == '\n' {
        p.len() - 1
    } else {
        p.len() as int
    }
}

/// A heading line re-rendered at level `lvl`: leading whitespace, `lvl`
/// hashes, then whatever followed the original hash run, then the original
/// line ending.
pub open spec fn rerender_heading(p: Seq<char>, lvl: nat) -> Seq<char> {
    let bl = piece_body_len(p);
    let body = p.take(bl);
    let ws = bl - trim_start(body).len();
    let h = run_len(body, '#', ws);
    body.take(ws) + hashes(lvl) + body.skip(ws + h) + p.skip(bl)
}

/// Index of the first heading at or after `j` on line `n`, or `hs.len()`.
pub open spec fn line_index(hs: Seq<HeadingSpec>, n: nat, j: int) -> int
    decreases hs.len() - j,
{
    if j < 0 || j >= hs.len() {
        hs.len() as int
    } else if hs[j].line == n {
        j
    } else {
        line_index(hs, n, j + 1)
    }
}

proof fn lemma_line_index(hs: Seq<HeadingSpec>, n: nat, j: int)
    requires
        0 <= j <= hs.len(),
    ensures
        j <= line_index(hs, n, j) <= hs.len(),
        line_index(hs, n, j) < hs.len() ==> hs[line_index(hs, n, j)].line == n,
        forall|k: int| j <= k < line_index(hs, n, j) ==> #[trigger] hs[k].line != n,
    decreases hs.len() - j,
{
    if j < hs.len() && hs[j].line != n {
        lemma_line_index(hs, n, j + 1);
    }
}

/// Piece `k` of a body after shifting its headings by `d`.
pub open spec fn shifted_piece(hs: Seq<HeadingSpec>, d: int, p: Seq<char>, k: int) -> Seq<char> {
    let j = line_index(hs, (k + 1) as nat, 0);
    if j < hs.len() {
        rerender_heading(p, (hs[j].level + d) as nat)
    } else {
        p
    }
}

/// `body` with every one of its headings moved by `d` levels.
pub open spec fn shifted_body(body: Seq<char>, d: int) -> Seq<char> {
    let ps = pieces(body);
    Seq::new(ps.len(), |k: int| shifted_piece(headings_of(body), d, ps[k], k)).flatten()
}

/// Index of the first heading at or after `j` that a shift by `d` would
/// move out of `1..=6`, or `hs.len()`.
pub open spec fn first_bad_shift(hs: Seq<HeadingSpec>, d: int, j: int) -> int
    decreases hs.len() - j,
{
    if j < 0 || j >= hs.len() {
        hs.len() as int
    } else if !(1 <= hs[j].level + d <= 6) {
        j
    } else {
        first_bad_shift(hs, d, j + 1)
    }
}

proof fn lemma_first_bad_shift(hs: Seq<HeadingSpec>, d: int, j: int)
    requires
        0 <= j <= hs.len(),
    ensures
        j <= first_bad_shift(hs, d, j) <= hs.len(),
        first_bad_shift(hs, d, j) < hs.len() ==> !(1 <= hs[first_bad_shift(hs, d, j)].level + d <= 6),
        forall|k: int| j <= k < first_bad_shift(hs, d, j) ==> 1 <= #[trigger] hs[k].level + d <= 6,
    decreases hs.len() - j,
{
    if j < hs.len() && 1 <= hs[j].level + d <= 6 {
        lemma_first_bad_shift(hs, d, j + 1);
    }
}

pub open spec fn level_range_message(to: u8) -> Seq<char> {
    "target level "@ + decimal(to as nat) + " is outside the ATX range 1..=6"@
}

pub open spec fn shift_overflow_message(h: HeadingSpec, d: int) -> Seq<char> {
    "heading at body line "@ + decimal(h.line) + " (level "@ + decimal(h.level as nat)
        + ") would shift to level "@ + signed_decimal(h.level + d) + ", outside 1..=6"@
}

/// What [`shift_section_level`] returns: the re-rendered body, or the
/// message of the error.
pub open spec fn shift_result(sec: SectionSpec, to: u8) -> Result<Seq<char>, Seq<char>> {
    let d = to - sec.heading.level;
    let hs = headings_of(sec.body);
    if !(1 <= to <= 6) {
        Err(level_range_message(to))
    } else if d == 0 {
        Ok(sec.body)
    } else if first_bad_shift(hs, d, 0) < hs.len() {
        Err(shift_overflow_message(hs[first_bad_shift(hs, d, 0)], d))
    } else {
        Ok(shifted_body(sec.body, d))
    }
}

/// Append `'#'` `n` times.
fn push_hashes(out: &mut String, n: u8)
    ensures
        final(out)@ == old(out)@ + hashes(n as nat),
{
    let mut i: u8 = 0;
    while i < n
        invariant
            i <= n,
            out@ == old(out)@ + hashes(i as nat),
        decreases n - i,
    {
        crate::text::push_char(out, '#');
        proof {
            assert(old(out)@ + hashes(i as nat) + seq!['#'] =~= old(out)@ + hashes((i + 1) as nat));
        }
        i += 1;
    }
}

/// Append `n` in decimal, with a leading `-` when negative.
fn push_i16(out: &mut String, n: i16)
    ensures
        final(out)@ == old(out)@ + signed_decimal(n as int),
{
    if n < 0 {
        crate::text::push_char(out, '-');
        let m: usize = (-(n as i32)) as usize;
        push_usize(out, m);
        proof {
            assert(final(out)@ =~= old(out)@ + signed_decimal(n as int));
        }
    } else {
        push_usize(out, n as usize);
    }
}

/// Re-render the heading piece `p` at level `lvl`, keeping its leading
/// whitespace, the text after its hash run, and its line ending.
fn rerender_heading_line(p: &Vec<char>, lvl: u8) -> (r: String)
    ensures
        r@ == rerender_heading(p@, lvl as nat),
{
    let n = p.len();
    let bl = if n > 0 && p[n - 1] == '\n' {
        n - 1
    } else {
        n
    };
    let ghost body = p@.take(bl as int);
    let ws = skip_ws(p, 0, bl);
    proof {
        assert(p@.subrange(0, bl as int) =~= body);
        assert(trim_start(body).len() == bl - ws);
        crate::markdown::lemma_run_len_bound(body, '#', ws as int);
    }
    let mut j = ws;
    while j < bl && p[j] == '#'
        invariant
            ws <= j <= bl <= p@.len(),
            body == p@.take(bl as int),
            run_len(body, '#', ws as int) == (j - ws) + run_len(body, '#', j as int),
        decreases bl - j,
    {
        proof {
            assert(body[j as int] == p@[j as int]);
        }
        j += 1;
    }
    proof {
        if j < bl {
            assert(body[j as int] == p@[j as int]);
        }
    }
    let mut out = String::new();
    crate::text::push_range(&mut out, p, 0, ws);
    push_hashes(&mut out, lvl);
    crate::text::push_range(&mut out, p, j, bl);
    crate::text::push_range(&mut out, p, bl, n);
    proof {
        assert(p@.subrange(0, ws as int) =~= body.take(ws as int));
        assert(p@.subrange(j as int, bl as int) =~= body.skip(j as int));
        assert(p@.subrange(bl as int, n as int) =~= p@.skip(bl as int));
        assert(out@ =~= rerender_heading(p@, lvl as nat));
    }
    out
}

/// Index of the first heading in `hs` on line `n`, or `hs.len()`.
fn find_line(hs: &Vec<Heading>, n: usize) -> (r: usize)
    ensures
        r as int == line_index(headings_view(hs@), n as nat, 0),
{
    let ghost hv = headings_view(hs@);
    proof {
        lemma_line_index(hv, n as nat, 0);
    }
    let mut j: usize = 0;
    while j < hs.len()
        invariant
            j <= hs@.len() == hv.len(),
            hv == headings_view(hs@),
            line_index(hv, n as nat, j as int) == line_index(hv, n as nat, 0),
        decreases hs@.len() - j,
    {
        proof {
            assert(hs@[j as int]@ == hv[j as int]);
        }
        if hs[j].line == n {
            return j;
        }
        j += 1;
    }
    j
}

/// Re-render a section's body with every heading shifted so that the top
/// heading lands at `new_top_level`. Nested headings move by the same
/// amount; headings inside code blocks are not headings and do not move.
/// Fails, before any rewriting, if the target level or any shifted heading
/// falls outside `1..=6`.
pub fn shift_section_level(section: &Section, new_top_level: u8) -> (r: Result<String, Error>)
    ensures
        match (r, shift_result(section@, new_top_level)) {
            (Ok(s), Ok(t)) => s@ == t,
            (Err(e), Err(m)) => notes_error(e, m),
            _ => false,
        },
{
    if new_top_level < 1 || new_top_level > 6 {
        let mut m = String::new();
        push_str(&mut m, "target level ");
        push_usize(&mut m, new_top_level as usize);
        push_str(&mut m, " is outside the ATX range 1..=6");
        return Err(Error::Notes(m));
    }
    let from = section.heading.level as i16;
    let to = new_top_level as i16;
    let delta: i16 = to - from;
    let chars = to_chars(section.body.as_str());
    if delta == 0 {
        return Ok(string_of_all(&chars));
    }
    let hs = extract_headings_chars(&chars);
    let ghost hv = headings_of(section.body@);
    proof {
        lemma_first_bad_shift(hv, delta as int, 0);
    }
    let mut k: usize = 0;
    while k < hs.len()
        invariant
            k <= hs@.len() == hv.len(),
            hv == headings_view(hs@),
            hv == headings_of(section.body@),
            -254 <= delta <= 6,
            delta as int == new_top_level - section.heading.level,
            1 <= new_top_level <= 6,
            delta != 0,
            first_bad_shift(hv, delta as int, k as int) == first_bad_shift(hv, delta as int, 0),
        decreases hs@.len() - k,
    {
        proof {
            assert(hs@[k as int]@ == hv[k as int]);
        }
        let shifted: i16 = hs[k].level as i16 + delta;
        if shifted < 1 || shifted > 6 {
            let mut m = String::new();
            push_str(&mut m, "heading at body line ");
            push_usize(&mut m, hs[k].line);
            push_str(&mut m, " (level ");
            push_usize(&mut m, hs[k].level as usize);
            push_str(&mut m, ") would shift to level ");
            push_i16(&mut m, shifted);
            push_str(&mut m, ", outside 1..=6");
            proof {
                assert(first_bad_shift(hv, delta as int, k as int) == k);
                assert(m@ =~= shift_overflow_message(hv[k as int], delta as int));
            }
            return Err(Error::Notes(m));
        }
        k += 1;
    }
    let ps = split_inclusive_lines(&chars);
    let ghost psv = pieces(section.body@);
    let ghost f = |i: int| shifted_piece(hv, delta as int, psv[i], i);
    let mut out = String::new();
    let mut i: usize = 0;
    while i < ps.len()
        invariant
            i <= ps@.len() == psv.len(),
            psv == pieces(section.body@),
            forall|q: int| 0 <= q < ps@.len() ==> #[trigger] ps@[q]@ == psv[q],
            hv == headings_view(hs@),
            hv == headings_of(section.body@),
            -254 <= delta <= 6,
            delta as int == new_top_level - section.heading.level,
            1 <= new_top_level <= 6,
            delta != 0,
            first_bad_shift(hv, delta as int, 0) == hv.len(),
            f == (|q: int| shifted_piece(hv, delta as int, psv[q], q)),
            out@ == Seq::new(i as nat, f).flatten(),
        decreases ps@.len() - i,
    {
        let j = find_line(&hs, i + 1);
        let ghost before = Seq::new(i as nat, f);
        if j < hs.len() {
            proof {
                lemma_line_index(hv, (i + 1) as nat, 0);
                lemma_first_bad_shift(hv, delta as int, 0);
                assert(hs@[j as int]@ == hv[j as int]);
                assert(1 <= hv[j as int].level + delta <= 6);
            }
            let lvl: u8 = (hs[j].level as i16 + delta) as u8;
            let line = rerender_heading_line(&ps[i], lvl);
            push_str(&mut out, line.as_str());
        } else {
            let line = string_of_all(&ps[i]);
            push_str(&mut out, line.as_str());
        }
        proof {
            assert(Seq::new((i + 1) as nat, f) =~= before.push(f(i as int)));
            before.lemma_flatten_push(f(i as int));
        }
        i += 1;
    }
    proof {
        assert(Seq::new(psv.len(), f) =~= Seq::new(
            psv.len(),
            |q: int| shifted_piece(headings_of(section.body@), delta as int, psv[q], q),
        ));
    }
    Ok(out)
}

// ── disjoint selections ─────────────────────────────────────────────────────

/// Line `n` is among the selected lines.
pub open spec fn selected(sel: Seq<usize>, n: nat) -> bool {
    exists|k: int| 0 <= k < sel.len() && sel[k] as nat == n
}

/// Index of the first selected line at or after `k` that already occurred
/// earlier in `sel`, or `sel.len()`.
pub open spec fn first_dup(sel: Seq<usize>, k: int) -> int
    decreases sel.len() - k,
{
    if k < 0 || k >= sel.len() {
        sel.len() as int
    } else if exists|j: int| 0 <= j < k && sel[j] == sel[k] {
        k
    } else {
        first_dup(sel, k + 1)
    }
}

/// Walking from heading `m` on, the first selected heading before any
/// heading of level `<= lvl`; `hs.len()` when there is none.
pub open spec fn descendant_hit(hs: Seq<HeadingSpec>, sel: Seq<usize>, lvl: u8, m: int) -> int
    decreases hs.len() - m,
{
    if m < 0 || m >= hs.len() {
        hs.len() as int
    } else if hs[m].level <= lvl {
        hs.len() as int
    } else if selected(sel, hs[m].line) {
        m
    } else {
        descendant_hit(hs, sel, lvl, m + 1)
    }
}

/// Index of the first selected heading at or after `i` that has a selected
/// descendant, or `hs.len()`.
pub open spec fn first_conflict(hs: Seq<HeadingSpec>, sel: Seq<usize>, i: int) -> int
    decreases hs.len() - i,
{
    if i < 0 || i >= hs.len() {
        hs.len() as int
    } else if selected(sel, hs[i].line) && descendant_hit(hs, sel, hs[i].level, i + 1) < hs.len() {
        i
    } else {
        first_conflict(hs, sel, i + 1)
    }
}

pub open spec fn duplicate_message(line: usize) -> Seq<char> {
    "heading at line "@ + decimal(line as nat) + " is selected twice"@
}

pub open spec fn descendant_message(inner: HeadingSpec, outer: HeadingSpec) -> Seq<char> {
    "heading at line "@ + decimal(inner.line) + " (level "@ + decimal(inner.level as nat)
        + ") is a descendant of selected heading at line "@ + decimal(outer.line) + " (level "@
        + decimal(outer.level as nat) + ")"@
}

/// What [`validate_disjoint`] reports: `None` when the selection is
/// disjoint, else the message of the first conflict.
pub open spec fn disjoint_error(sel: Seq<usize>, hs: Seq<HeadingSpec>) -> Option<Seq<char>> {
    let dk = first_dup(sel, 0);
    let i = first_conflict(hs, sel, 0);
    if dk < sel.len() {
        Some(duplicate_message(sel[dk]))
    } else if i < hs.len() {
        Some(descendant_message(hs[descendant_hit(hs, sel, hs[i].level, i + 1)], hs[i]))
    } else {
        None
    }
}

proof fn lemma_descendant_hit(hs: Seq<HeadingSpec>, sel: Seq<usize>, lvl: u8, m: int)
    requires
        0 <= m <= hs.len(),
    ensures
        descendant_hit(hs, sel, lvl, m) == hs.len() || (m <= descendant_hit(hs, sel, lvl, m) < hs.len()
            && selected(sel, hs[descendant_hit(hs, sel, lvl, m)].line)),
    decreases hs.len() - m,
{
    if m < hs.len() && hs[m].level > lvl && !selected(sel, hs[m].line) {
        lemma_descendant_hit(hs, sel, lvl, m + 1);
    }
}

/// Line `n` is among `sel`.
fn is_selected(sel: &[usize], n: usize) -> (r: bool)
    ensures
        r == selected(sel@, n as nat),
{
    let mut k: usize = 0;
    while k < sel.len()
        invariant
            k <= sel@.len(),
            forall|j: int| 0 <= j < k ==> sel@[j] != n,
        decreases sel@.len() - k,
    {
        if sel[k] == n {
            return true;
        }
        k += 1;
    }
    false
}

/// Reject a selection that picks a heading twice, or picks a heading
/// together with one of its descendants (a later heading reached before the
/// next heading of equal-or-higher level). Only line numbers take part.
pub fn validate_disjoint(selected_lines: &[usize], all_headings: &[Heading]) -> (r: Result<(), Error>)
    ensures
        match (r, disjoint_error(selected_lines@, headings_view(all_headings@))) {
            (Ok(()), None) => true,
            (Err(e), Some(m)) => notes_error(e, m),
            _ => false,
        },
{
    let ghost sel = selected_lines@;
    let ghost hs = headings_view(all_headings@);
    let mut k: usize = 0;
    while k < selected_lines.len()
        invariant
            k <= sel.len(),
            sel == selected_lines@,
            first_dup(sel, k as int) == first_dup(sel, 0),
        decreases sel.len() - k,
    {
        let mut j: usize = 0;
        while j < k
            invariant
                j <= k < sel.len(),
                sel == selected_lines@,
                forall|q: int| 0 <= q < j ==> sel[q] != sel[k as int],
                first_dup(sel, k as int) == first_dup(sel, 0),
            decreases k - j,
        {
            if selected_lines[j] == selected_lines[k] {
                let mut m = String::new();
                push_str(&mut m, "heading at line ");
                push_usize(&mut m, selected_lines[k]);
                push_str(&mut m, " is selected twice");
                proof {
                    assert(first_dup(sel, k as int) == k);
                    assert(m@ =~= duplicate_message(sel[k as int]));
                }
                return Err(Error::Notes(m));
            }
            j += 1;
        }
        k += 1;
    }
    let mut i: usize = 0;
    while i < all_headings.len()
        invariant
            i <= hs.len(),
            sel == selected_lines@,
            hs == headings_view(all_headings@),
            first_dup(sel, 0) == sel.len(),
            first_conflict(hs, sel, i as int) == first_conflict(hs, sel, 0),
        decreases hs.len() - i,
    {
        proof {
            assert(all_headings@[i as int]@ == hs[i as int]);
        }
        let lvl = all_headings[i].level;
        if is_selected(selected_lines, all_headings[i].line) {
            let mut m = i + 1;
            while m < all_headings.len() && all_headings[m].level > lvl
                invariant
                    i < m <= hs.len(),
                    sel == selected_lines@,
                    hs == headings_view(all_headings@),
                    lvl == hs[i as int].level,
                    selected(sel, hs[i as int].line),
                    first_dup(sel, 0) == sel.len(),
                    first_conflict(hs, sel, i as int) == first_conflict(hs, sel, 0),
                    descendant_hit(hs, sel, lvl, m as int) == descendant_hit(hs, sel, lvl, i + 1),
                decreases hs.len() - m,
            {
                proof {
                    assert(all_headings@[m as int]@ == hs[m as int]);
                }
                if is_selected(selected_lines, all_headings[m].line) {
                    let mut msg = String::new();
                    push_str(&mut msg, "heading at line ");
                    push_usize(&mut msg, all_headings[m].line);
                    push_str(&mut msg, " (level ");
                    push_usize(&mut msg, all_headings[m].level as usize);
                    push_str(&mut msg, ") is a descendant of selected heading at line ");
                    push_usize(&mut msg, all_headings[i].line);
                    push_str(&mut msg, " (level ");
                    push_usize(&mut msg, all_headings[i].level as usize);
                    push_str(&mut msg, ")");
                    proof {
                        assert(descendant_hit(hs, sel, lvl, m as int) == m);
                        assert(first_conflict(hs, sel, i as int) == i);
                        assert(msg@ =~= descendant_message(hs[m as int], hs[i as int]));
                    }
                    return Err(Error::Notes(msg));
                }
                m += 1;
            }
            proof {
                if m < hs.len() {
                    assert(all_headings@[m as int]@ == hs[m as int]);
                }
                assert(descendant_hit(hs, sel, lvl, m as int) == hs.len());
            }
        }
        i += 1;
    }
    Ok(())
}

// ── moving sections ─────────────────────────────────────────────────────────

/// Where placement `p` lands in the target `t`: offset 0 for the top, the
/// end of the named heading's section otherwise; `None` when the named line
/// holds no heading of `t`.
pub open spec fn placement_offset(t: Seq<char>, p: Placement) -> Option<int> {
    match p.after_line {
        None => Some(0),
        Some(l) => {
            let ht = headings_of(t);
            let i = line_index(ht, l as nat, 0);
            if i < ht.len() {
                Some(section_span(t, ht, i).1)
            } else {
                None
            }
        },
    }
}

/// Index of the first placement at or after `j` that names a pick outside
/// `0..n` or a line that holds no heading of `t`, or `plan.len()`.
pub open spec fn first_bad_placement(t: Seq<char>, plan: Seq<Placement>, n: nat, j: int) -> int
    decreases plan.len() - j,
{
    if j < 0 || j >= plan.len() {
        plan.len() as int
    } else if plan[j].pick_idx >= n || placement_offset(t, plan[j]) is None {
        j
    } else {
        first_bad_placement(t, plan, n, j + 1)
    }
}

pub open spec fn placement_message(p: Placement, n: nat) -> Seq<char> {
    if p.pick_idx >= n {
        "placement pick_idx "@ + decimal(p.pick_idx as nat) + " is out of range for "@ + decimal(n)
            + " picks"@
    } else {
        "placement after_line "@ + decimal(p.after_line->0 as nat)
            + " is not a heading in the target"@
    }
}

/// An inserted body, with a `'\n'` added when it lacks one and more target
/// text follows.
pub open spec fn insert_piece(t_len: int, body: Seq<char>, pos: int) -> Seq<char> {
    if !(body.len() > 0 && body.last() == '\n') && pos < t_len {
        body.push('\n')
    } else {
        body
    }
}

/// The bodies that plan entries `0..j` insert at target offset `pos`, in
/// plan order.
pub open spec fn inserts_at(
    t: Seq<char>,
    shifted: Seq<Seq<char>>,
    plan: Seq<Placement>,
    pos: int,
    j: int,
) -> Seq<char>
    decreases j,
{
    if j <= 0 {
        Seq::empty()
    } else {
        inserts_at(t, shifted, plan, pos, j - 1) + if placement_offset(t, plan[j - 1]) == Some(pos) {
            insert_piece(t.len() as int, shifted[plan[j - 1].pick_idx as int], pos)
        } else {
            Seq::empty()
        }
    }
}

/// The target up to (not including) offset `n - 1`'s character... precisely:
/// for each offset `p < n`, the bodies inserted at `p` followed by `t[p]`.
pub open spec fn woven(t: Seq<char>, shifted: Seq<Seq<char>>, plan: Seq<Placement>, n: int) -> Seq<char>
    decreases n,
{
    if n <= 0 {
        Seq::empty()
    } else {
        woven(t, shifted, plan, n - 1) + inserts_at(t, shifted, plan, n - 1, plan.len() as int)
            + if n - 1 < t.len() {
            seq![t[n - 1]]
        } else {
            Seq::empty()
        }
    }
}

/// Offset `p` of `s` lies in the section of one of the headings `idx`.
pub open spec fn covered(s: Seq<char>, hs: Seq<HeadingSpec>, idx: Seq<int>, p: int) -> bool {
    exists|k: int|
        0 <= k < idx.len() && section_span(s, hs, #[trigger] idx[k]).0 <= p < section_span(s, hs, idx[k]).1
}

/// The characters of `s[..n]` that no picked section covers.
pub open spec fn kept(s: Seq<char>, hs: Seq<HeadingSpec>, idx: Seq<int>, n: int) -> Seq<char>
    decreases n,
{
    if n <= 0 {
        Seq::empty()
    } else {
        kept(s, hs, idx, n - 1) + if covered(s, hs, idx, n - 1) {
            Seq::empty()
        } else {
            seq![s[n - 1]]
        }
    }
}

/// Section index of each pick among the headings of `s`.
pub open spec fn pick_indices(s: Seq<char>, picks: Seq<SectionPick>) -> Seq<int> {
    picks.map_values(|p: SectionPick| line_index(headings_of(s), p.source_line as nat, 0))
}

pub open spec fn pick_lines(picks: Seq<SectionPick>) -> Seq<usize> {
    picks.map_values(|p: SectionPick| p.source_line)
}

/// The level shift of one pick.
pub open spec fn pick_shift(s: Seq<char>, p: SectionPick) -> Result<Seq<char>, Seq<char>> {
    shift_result(sections_of(s)[line_index(headings_of(s), p.source_line as nat, 0)], p.new_level)
}

/// Index of the first pick at or after `k` that names no heading of `s` or
/// whose level shift fails, or `picks.len()`.
pub open spec fn first_bad_pick(s: Seq<char>, picks: Seq<SectionPick>, k: int) -> int
    decreases picks.len() - k,
{
    if k < 0 || k >= picks.len() {
        picks.len() as int
    } else if line_index(headings_of(s), picks[k].source_line as nat, 0) >= headings_of(s).len()
        || pick_shift(s, picks[k]) is Err {
        k
    } else {
        first_bad_pick(s, picks, k + 1)
    }
}

pub open spec fn pick_message(s: Seq<char>, p: SectionPick) -> Seq<char> {
    if line_index(headings_of(s), p.source_line as nat, 0) >= headings_of(s).len() {
        "pick references line "@ + decimal(p.source_line as nat)
            + " which is not a heading in the source"@
    } else {
        pick_shift(s, p)->Err_0
    }
}

/// The level-shifted body of each pick.
pub open spec fn shifted_bodies(s: Seq<char>, picks: Seq<SectionPick>) -> Seq<Seq<char>> {
    picks.map_values(|p: SectionPick| pick_shift(s, p)->Ok_0)
}

pub open spec fn length_message(plan_len: nat, picks_len: nat) -> Seq<char> {
    "plan length "@ + decimal(plan_len) + " does not match picks length "@ + decimal(picks_len)
}

/// What [`move_sections`] returns: the new source and target, or the
/// message of the first error.
pub open spec fn move_result(
    src: Seq<char>,
    picks: Seq<SectionPick>,
    tgt: Seq<char>,
    plan: Seq<Placement>,
) -> Result<(Seq<char>, Seq<char>), Seq<char>> {
    let hs = headings_of(src);
    let bp = first_bad_pick(src, picks, 0);
    let bpl = first_bad_placement(tgt, plan, picks.len(), 0);
    if picks.len() == 0 {
        Ok((src, tgt))
    } else if plan.len() != picks.len() {
        Err(length_message(plan.len(), picks.len()))
    } else if disjoint_error(pick_lines(picks), hs) is Some {
        Err(disjoint_error(pick_lines(picks), hs)->0)
    } else if bp < picks.len() {
        Err(pick_message(src, picks[bp]))
    } else if bpl < plan.len() {
        Err(placement_message(plan[bpl], picks.len()))
    } else {
        Ok(
            (
                kept(src, hs, pick_indices(src, picks), src.len() as int),
                woven(tgt, shifted_bodies(src, picks), plan, tgt.len() + 1int),
            ),
        )
    }
}

proof fn lemma_first_bad_placement(t: Seq<char>, plan: Seq<Placement>, n: nat, j: int)
    requires
        0 <= j <= plan.len(),
    ensures
        j <= first_bad_placement(t, plan, n, j) <= plan.len(),
        forall|k: int|
            j <= k < first_bad_placement(t, plan, n, j) ==> #[trigger] plan[k].pick_idx < n
                && placement_offset(t, plan[k]) is Some,
    decreases plan.len() - j,
{
    if j < plan.len() && !(plan[j].pick_idx >= n || placement_offset(t, plan[j]) is None) {
        lemma_first_bad_placement(t, plan, n, j + 1);
    }
}

/// Start and end offsets of the section of heading `i`.
fn section_bounds(chars: &Vec<char>, hs: &Vec<Heading>, offs: &Vec<usize>, i: usize) -> (r: (
    usize,
    usize,
))
    requires
        headings_view(hs@) == headings_of(chars@),
        offs@.len() == line_offsets(chars@).len(),
        forall|k: int| 0 <= k < offs@.len() ==> offs@[k] as int == #[trigger] line_offsets(chars@)[k],
        i < hs@.len(),
    ensures
        r.0 as int == section_span(chars@, headings_of(chars@), i as int).0,
        r.1 as int == section_span(chars@, headings_of(chars@), i as int).1,
        r.0 <= r.1 <= chars@.len(),
{
    let ghost hsv = headings_of(chars@);
    proof {
        lemma_line_offsets(chars@);
        assert(hs@[i as int]@ == hsv[i as int]);
        lemma_section_span(chars@, i as int);
        lemma_first_le(hsv, hsv[i as int].level, i + 1);
    }
    let lvl = hs[i].level;
    let n = hs.len();
    let mut j = i + 1;
    while j < n && hs[j].level > lvl
        invariant
            i < j <= hs@.len() == hsv.len() == n,
            headings_view(hs@) == hsv,
            lvl == hsv[i as int].level,
            first_le(hsv, lvl, j as int) == first_le(hsv, lvl, i + 1),
        decreases hs@.len() - j,
    {
        proof {
            assert(hs@[j as int]@ == hsv[j as int]);
        }
        j += 1;
    }
    proof {
        if j < hs@.len() {
            assert(hs@[j as int]@ == hsv[j as int]);
            assert(hsv[i as int].line < hsv[j as int].line);
        }
    }
    let start = offs[hs[i].line - 1];
    let end = if j < hs.len() {
        offs[hs[j].line - 1]
    } else {
        chars.len()
    };
    (start, end)
}

/// Append the bodies that the plan inserts at target offset `pos`.
fn push_inserts(
    out: &mut String,
    tgt: &Vec<char>,
    shifted: &Vec<String>,
    plan: &[Placement],
    at: &Vec<usize>,
    pos: usize,
    Ghost(shv): Ghost<Seq<Seq<char>>>,
)
    requires
        pos <= tgt@.len(),
        plan@.len() == shifted@.len() == at@.len() == shv.len(),
        forall|q: int|
            0 <= q < plan@.len() ==> placement_offset(tgt@, plan@[q]) == Some(#[trigger] at@[q] as int)
                && plan@[q].pick_idx < shv.len(),
        forall|q: int| 0 <= q < shifted@.len() ==> #[trigger] shifted@[q]@ == shv[q],
    ensures
        final(out)@ == old(out)@ + inserts_at(tgt@, shv, plan@, pos as int, plan@.len() as int),
{
    let mut j: usize = 0;
    while j < plan.len()
        invariant
            j <= plan@.len() == shifted@.len() == at@.len() == shv.len(),
            pos <= tgt@.len(),
            forall|q: int|
                0 <= q < plan@.len() ==> placement_offset(tgt@, plan@[q]) == Some(#[trigger] at@[q] as int)
                    && plan@[q].pick_idx < shv.len(),
            forall|q: int| 0 <= q < shifted@.len() ==> #[trigger] shifted@[q]@ == shv[q],
            out@ == old(out)@ + inserts_at(tgt@, shv, plan@, pos as int, j as int),
        decreases plan@.len() - j,
    {
        let ghost before = out@;
        proof {
            assert(placement_offset(tgt@, plan@[j as int]) == Some(at@[j as int] as int));
        }
        if at[j] == pos {
            let q = plan[j].pick_idx;
            let body = to_chars(shifted[q].as_str());
            push_str(out, shifted[q].as_str());
            let bl = body.len();
            if !(bl > 0 && body[bl - 1] == '\n') && pos < tgt.len() {
                crate::text::push_char(out, '\n');
            }
            proof {
                assert(shifted@[q as int]@ == shv[q as int]);
            }
        }
        proof {
            assert(out@ =~= old(out)@ + inserts_at(tgt@, shv, plan@, pos as int, j + 1));
        }
        j += 1;
    }
}

/// Move the picked sections out of `source` and into `target`, returning
/// `(new_source, new_target)`.
///
/// Each pick is level-shifted to its `new_level` and inserted where its
/// placement says: after the section of the target heading on
/// `after_line`, or at the top when that is `None`. Picks that land at the
/// same place keep their plan order. The source loses every picked
/// section. An empty `picks` leaves both texts as they are.
pub fn move_sections(source: &str, picks: &[SectionPick], target: &str, plan: &[Placement]) -> (r:
    Result<(String, String), Error>)
    ensures
        match (r, move_result(source@, picks@, target@, plan@)) {
            (Ok((a, b)), Ok((x, y))) => a@ == x && b@ == y,
            (Err(e), Err(m)) => notes_error(e, m),
            _ => false,
        },
{
    let src = to_chars(source);
    let tgt = to_chars(target);
    if picks.len() == 0 {
        return Ok((string_of_all(&src), string_of_all(&tgt)));
    }
    if plan.len() != picks.len() {
        let mut m = String::new();
        push_str(&mut m, "plan length ");
        push_usize(&mut m, plan.len());
        push_str(&mut m, " does not match picks length ");
        push_usize(&mut m, picks.len());
        proof {
            assert(m@ =~= length_message(plan@.len(), picks@.len()));
        }
        return Err(Error::Notes(m));
    }
    let ghost hsv = headings_of(src@);
    let sections = extract_sections_chars(&src);
    let hs = extract_headings_chars(&src);
    let mut lines: Vec<usize> = Vec::new();
    let mut k: usize = 0;
    while k < picks.len()
        invariant
            src@ == source@,
            tgt@ == target@,
            k <= picks@.len(),
            lines@ == pick_lines(picks@).take(k as int),
        decreases picks@.len() - k,
    {
        lines.push(picks[k].source_line);
        proof {
            assert(lines@ =~= pick_lines(picks@).take(k + 1));
        }
        k += 1;
    }
    proof {
        assert(lines@ =~= pick_lines(picks@));
    }
    match validate_disjoint(lines.as_slice(), hs.as_slice()) {
        Ok(()) => {},
        Err(e) => {
            return Err(e);
        },
    }
    // Resolve and level-shift every pick.
    let ghost idxv = pick_indices(src@, picks@);
    let ghost shv = shifted_bodies(src@, picks@);
    let mut shifted: Vec<String> = Vec::new();
    let mut idxs: Vec<usize> = Vec::new();
    let mut k: usize = 0;
    while k < picks.len()
        invariant
            src@ == source@,
            tgt@ == target@,
            k <= picks@.len() == plan@.len(),
            hsv == headings_of(src@),
            headings_view(hs@) == hsv,
            sections_view(sections@) == sections_of(src@),
            idxv == pick_indices(src@, picks@),
            shv == shifted_bodies(src@, picks@),
            first_bad_pick(src@, picks@, k as int) == first_bad_pick(src@, picks@, 0),
            idxs@.len() == k == shifted@.len(),
            forall|q: int| 0 <= q < k ==> #[trigger] idxs@[q] as int == idxv[q] && idxv[q] < hsv.len(),
            forall|q: int| 0 <= q < k ==> #[trigger] shifted@[q]@ == shv[q],
            disjoint_error(pick_lines(picks@), hsv) is None,
            picks@.len() > 0,
        decreases picks@.len() - k,
    {
        let pick = picks[k];
        let idx = find_line(&hs, pick.source_line);
        if idx >= hs.len() {
            let mut m = String::new();
            push_str(&mut m, "pick references line ");
            push_usize(&mut m, pick.source_line);
            push_str(&mut m, " which is not a heading in the source");
            proof {
                assert(first_bad_pick(src@, picks@, k as int) == k);
                assert(m@ =~= pick_message(src@, picks@[k as int]));
            }
            return Err(Error::Notes(m));
        }
        proof {
            assert(idxv[k as int] == line_index(hsv, pick.source_line as nat, 0));
            assert(sections_view(sections@).len() == sections@.len());
            assert(sections_of(src@).len() == hsv.len());
            assert(headings_view(hs@).len() == hs@.len());
            assert(sections_view(sections@)[idx as int] == sections@[idx as int]@);
            assert(sections@[idx as int]@ == sections_of(src@)[idx as int]);
        }
        match shift_section_level(&sections[idx], pick.new_level) {
            Ok(b) => {
                proof {
                    assert(b@ == shv[k as int]);
                }
                shifted.push(b);
            },
            Err(e) => {
                proof {
                    assert(first_bad_pick(src@, picks@, k as int) == k);
                }
                return Err(e);
            },
        }
        idxs.push(idx);
        k += 1;
    }
    // The source without the picked sections.
    let offs = line_offsets_exec(&src);
    let mut spans: Vec<(usize, usize)> = Vec::new();
    let mut k: usize = 0;
    while k < idxs.len()
        invariant
            src@ == source@,
            tgt@ == target@,
            k <= idxs@.len() == idxv.len(),
            hsv == headings_of(src@),
            headings_view(hs@) == hsv,
            offs@.len() == line_offsets(src@).len(),
            forall|q: int| 0 <= q < offs@.len() ==> offs@[q] as int == #[trigger] line_offsets(src@)[q],
            forall|q: int| 0 <= q < idxs@.len() ==> #[trigger] idxs@[q] as int == idxv[q] && idxv[q] < hsv.len(),
            spans@.len() == k,
            forall|q: int|
                0 <= q < k ==> (#[trigger] spans@[q]).0 as int == section_span(src@, hsv, idxv[q]).0
                    && spans@[q].1 as int == section_span(src@, hsv, idxv[q]).1,
        decreases idxs@.len() - k,
    {
        let b = section_bounds(&src, &hs, &offs, idxs[k]);
        spans.push(b);
        k += 1;
    }
    let mut new_source = String::new();
    let mut p: usize = 0;
    while p < src.len()
        invariant
            src@ == source@,
            tgt@ == target@,
            p <= src@.len(),
            spans@.len() == idxv.len(),
            forall|q: int|
                0 <= q < spans@.len() ==> (#[trigger] spans@[q]).0 as int == section_span(src@, hsv, idxv[q]).0
                    && spans@[q].1 as int == section_span(src@, hsv, idxv[q]).1,
            new_source@ == kept(src@, hsv, idxv, p as int),
        decreases src@.len() - p,
    {
        let mut q: usize = 0;
        let mut hit = false;
        while q < spans.len()
            invariant
                src@ == source@,
                tgt@ == target@,
            src@ == source@,
            tgt@ == target@,
                q <= spans@.len() == idxv.len(),
                forall|z: int|
                    0 <= z < spans@.len() ==> (#[trigger] spans@[z]).0 as int == section_span(src@, hsv, idxv[z]).0
                        && spans@[z].1 as int == section_span(src@, hsv, idxv[z]).1,
                hit == exists|z: int|
                    0 <= z < q && section_span(src@, hsv, #[trigger] idxv[z]).0 <= p < section_span(src@, hsv, idxv[z]).1,
            decreases spans@.len() - q,
        {
            let (a, b) = spans[q];
            if a <= p && p < b {
                hit = true;
            }
            q += 1;
        }
        if !hit {
            crate::text::push_char(&mut new_source, src[p]);
        }
        proof {
            assert(hit == covered(src@, hsv, idxv, p as int));
            assert(new_source@ =~= kept(src@, hsv, idxv, p + 1));
        }
        p += 1;
    }
    // Resolve every placement to an offset of the target.
    let ht = extract_headings_chars(&tgt);
    let toffs = line_offsets_exec(&tgt);
    let ghost htv = headings_of(tgt@);
    let mut at: Vec<usize> = Vec::new();
    let mut j: usize = 0;
    proof {
        lemma_first_bad_placement(tgt@, plan@, picks@.len(), 0);
    }
    while j < plan.len()
        invariant
            src@ == source@,
            tgt@ == target@,
            j <= plan@.len() == picks@.len() == shifted@.len(),
            htv == headings_of(tgt@),
            headings_view(ht@) == htv,
            toffs@.len() == line_offsets(tgt@).len(),
            forall|q: int| 0 <= q < toffs@.len() ==> toffs@[q] as int == #[trigger] line_offsets(tgt@)[q],
            first_bad_placement(tgt@, plan@, picks@.len(), j as int) == first_bad_placement(tgt@, plan@, picks@.len(), 0),
            disjoint_error(pick_lines(picks@), headings_of(src@)) is None,
            first_bad_pick(src@, picks@, 0) == picks@.len(),
            picks@.len() > 0,
            at@.len() == j,
            forall|q: int|
                0 <= q < j ==> placement_offset(tgt@, plan@[q]) == Some(#[trigger] at@[q] as int)
                    && plan@[q].pick_idx < picks@.len(),
            at@.len() <= tgt@.len() + 1 || at@.len() == j,
            forall|q: int| 0 <= q < j ==> #[trigger] at@[q] <= tgt@.len(),
        decreases plan@.len() - j,
    {
        let pl = plan[j];
        if pl.pick_idx >= shifted.len() {
            let mut m = String::new();
            push_str(&mut m, "placement pick_idx ");
            push_usize(&mut m, pl.pick_idx);
            push_str(&mut m, " is out of range for ");
            push_usize(&mut m, shifted.len());
            push_str(&mut m, " picks");
            proof {
                assert(first_bad_placement(tgt@, plan@, picks@.len(), j as int) == j);
                assert(m@ =~= placement_message(plan@[j as int], picks@.len()));
            }
            return Err(Error::Notes(m));
        }
        let off = match pl.after_line {
            None => 0,
            Some(l) => {
                let i = find_line(&ht, l);
                if i >= ht.len() {
                    let mut m = String::new();
                    push_str(&mut m, "placement after_line ");
                    push_usize(&mut m, l);
                    push_str(&mut m, " is not a heading in the target");
                    proof {
                        assert(first_bad_placement(tgt@, plan@, picks@.len(), j as int) == j);
                        assert(m@ =~= placement_message(plan@[j as int], picks@.len()));
                    }
                    return Err(Error::Notes(m));
                }
                let b = section_bounds(&tgt, &ht, &toffs, i);
                b.1
            },
        };
        at.push(off);
        j += 1;
    }
    // Weave the shifted bodies into the target.
    let mut new_target = String::new();
    let mut pos: usize = 0;
    while pos < tgt.len()
        invariant
            src@ == source@,
            tgt@ == target@,
            pos <= tgt@.len(),
            plan@.len() == picks@.len() == shifted@.len() == at@.len(),
            forall|q: int|
                0 <= q < plan@.len() ==> placement_offset(tgt@, plan@[q]) == Some(#[trigger] at@[q] as int)
                    && plan@[q].pick_idx < picks@.len(),
            forall|q: int| 0 <= q < shifted@.len() ==> #[trigger] shifted@[q]@ == shv[q],
            shv.len() == picks@.len(),
            new_target@ == woven(tgt@, shv, plan@, pos as int),
        decreases tgt@.len() - pos,
    {
        push_inserts(&mut new_target, &tgt, &shifted, plan, &at, pos, Ghost(shv));
        crate::text::push_char(&mut new_target, tgt[pos]);
        proof {
            assert(new_target@ =~= woven(tgt@, shv, plan@, pos + 1));
        }
        pos += 1;
    }
    push_inserts(&mut new_target, &tgt, &shifted, plan, &at, pos, Ghost(shv));
    proof {
        assert(new_target@ =~= woven(tgt@, shv, plan@, pos + 1));
    }
    proof {
        assert(first_bad_pick(src@, picks@, 0) == picks@.len());
        assert(first_bad_placement(tgt@, plan@, picks@.len(), 0) == plan@.len());
    }
    Ok((new_source, new_target))
}

} // verus!
