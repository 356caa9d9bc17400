//! Markdown structure parsers: ATX headings, plus the per-line skip state
//! (frontmatter, fenced and indented code) shared with the link parser.

use vstd::prelude::*;

use crate::text::{
    is_whitespace, is_ws, lines, skip_ws, skip_ws_back, split_lines, string_of, to_chars, trim,
    trim_end, trim_start,
};

verus! {

/// A markdown heading found inside a file.
#[derive(Debug, Clone, PartialEq, Eq)]
pub struct Heading {
    pub text: String,
    /// ATX level — 1 for `#`, 2 for `##`, … up to 6.
    pub level: u8,
    /// 1-indexed line number within the source file.
    pub line: usize,
}

/// Mathematical value of a [`Heading`].
pub struct HeadingSpec {
    pub text: Seq<char>,
    pub level: u8,
    pub line: nat,
}

impl View for Heading {
    type V = HeadingSpec;

    open spec fn view(&self) -> HeadingSpec {
        HeadingSpec { text: self.text@, level: self.level, line: self.line as nat }
    }
}

impl Heading {
    /// A copy of this heading.
    pub fn copy(&self) -> (r: Heading)
        ensures
            r@ == self@,
    {
        Heading { text: self.text.clone(), level: self.level, line: self.line }
    }
}

/// The views of a sequence of headings.
pub open spec fn headings_view(v: Seq<Heading>) -> Seq<HeadingSpec> {
    v.map_values(|h: Heading| h@)
}

// ── line skipping ────────────────────────────────────────────────────────────

/// Frontmatter / fenced code / indented code state across a line-by-line
/// scan of a markdown file.
pub struct LineSkipState {
    /// Inside the leading frontmatter block.
    pub in_frontmatter: bool,
    /// At least one line has been seen.
    pub started: bool,
    /// Fence character of the open fenced code block, if any.
    pub fence: Option<char>,
    /// Number of fence characters the opener used.
    pub fence_len: usize,
}

/// Length of the run of `c` starting at index `i` of `s`.
pub open spec fn run_len(s: Seq<char>, c: char, i: int) -> nat
    decreases s.len() - i,
{
    if 0 <= i < s.len() && s[i] == c {
        1 + run_len(s, c, i + 1)
    } else {
        0
    }
}

/// A fence opener or closer at the start of `s`: the fence character and the
/// length of its run, when the run is at least 3 long.
pub open spec fn leading_fence(s: Seq<char>) -> Option<(char, nat)> {
    if s.len() > 0 && (s[0] == '`' || s[0] == '~') && run_len(s, s[0], 0) >= 3 {
        Some((s[0], run_len(s, s[0], 0)))
    } else {
        None
    }
}

/// `line[i..]` reaches column `n` from column `col` (spaces advance one
/// column; a tab advances to the next multiple of 4).
pub open spec fn indent_from(line: Seq<char>, i: int, col: int, n: int) -> bool
    decreases line.len() - i,
{
    if i < 0 || i >= line.len() {
        false
    } else if line[i] == ' ' || line[i] == '\t' {
        let col2 = if line[i] == ' ' { col + 1 } else { (col / 4 + 1) * 4 };
        if col2 >= n {
            true
        } else {
            indent_from(line, i + 1, col2, n)
        }
    } else {
        col >= n
    }
}

/// `line` starts with at least `n` columns of whitespace.
pub open spec fn starts_with_indent(line: Seq<char>, n: int) -> bool {
    indent_from(line, 0, 0, n)
}

pub open spec fn dashes3() -> Seq<char> {
    seq!['-', '-', '-']
}

pub open spec fn dots3() -> Seq<char> {
    seq!['.', '.', '.']
}

/// One step of the line-skip state machine: the state after `line`, and
/// whether `line` is structural (to be skipped by the consumer).
pub open spec fn skip_step(st: LineSkipState, line: Seq<char>) -> (LineSkipState, bool) {
    if !st.started && trim_end(line) == dashes3() {
        (LineSkipState { in_frontmatter: true, started: true, ..st }, true)
    } else if st.started && st.in_frontmatter {
        if trim_end(line) == dashes3() || trim_end(line) == dots3() {
            (LineSkipState { in_frontmatter: false, ..st }, true)
        } else {
            (st, true)
        }
    } else {
        let st1 = LineSkipState { started: true, ..st };
        let t = trim_start(line);
        match st1.fence {
            Some(fc) => match leading_fence(t) {
                Some((c, n)) => if c == fc && n >= st1.fence_len {
                    (LineSkipState { fence: None, fence_len: 0, ..st1 }, true)
                } else {
                    (st1, true)
                },
                None => (st1, true),
            },
            None => match leading_fence(t) {
                Some((c, n)) => (LineSkipState { fence: Some(c), fence_len: n as usize, ..st1 }, true),
                None => (st1, starts_with_indent(line, 4)),
            },
        }
    }
}

pub open spec fn initial_skip_state() -> LineSkipState {
    LineSkipState { in_frontmatter: false, started: false, fence: None, fence_len: 0 }
}

pub proof fn lemma_run_len_bound(s: Seq<char>, c: char, i: int)
    requires
        0 <= i <= s.len(),
    ensures
        i + run_len(s, c, i) <= s.len(),
        forall|k: int| i <= k < i + run_len(s, c, i) ==> s[k] == c,
        i + run_len(s, c, i) < s.len() ==> s[i + run_len(s, c, i)] != c,
    decreases s.len() - i,
{
    if i < s.len() && s[i] == c {
        lemma_run_len_bound(s, c, i + 1);
    }
}

/// Length of the run of `c` in `s` starting at `i`.
pub fn count_run(s: &Vec<char>, c: char, i: usize) -> (r: usize)
    requires
        i <= s@.len(),
    ensures
        r == run_len(s@, c, i as int),
        i + r <= s@.len(),
{
    proof {
        lemma_run_len_bound(s@, c, i as int);
    }
    let mut j = i;
    while j < s.len() && s[j] == c
        invariant
            i <= j <= s@.len(),
            run_len(s@, c, i as int) == (j - i) + run_len(s@, c, j as int),
        decreases s@.len() - j,
    {
        j += 1;
    }
    j - i
}

pub proof fn lemma_run_len_shift(s: Seq<char>, c: char, lo: int, i: int)
    requires
        0 <= lo <= i <= s.len(),
    ensures
        run_len(s.subrange(lo, s.len() as int), c, i - lo) == run_len(s, c, i),
    decreases s.len() - i,
{
    if i < s.len() {
        lemma_run_len_shift(s, c, lo, i + 1);
    }
}

/// `leading_fence` of `s[lo..]`.
fn fence_at(s: &Vec<char>, lo: usize) -> (r: Option<(char, usize)>)
    requires
        lo <= s@.len(),
    ensures
        match (r, leading_fence(s@.subrange(lo as int, s@.len() as int))) {
            (Some((c, n)), Some((c2, n2))) => c == c2 && n == n2,
            (None, None) => true,
            _ => false,
        },
{
    proof {
        lemma_run_len_shift(s@, '`', lo as int, lo as int);
        lemma_run_len_shift(s@, '~', lo as int, lo as int);
    }
    if lo >= s.len() {
        return None;
    }
    let first = s[lo];
    if first != '`' && first != '~' {
        return None;
    }
    let n = count_run(s, first, lo);
    if n >= 3 {
        Some((first, n))
    } else {
        None
    }
}

fn indent_at_least(line: &Vec<char>, n: usize) -> (r: bool)
    requires
        n <= 4,
    ensures
        r == starts_with_indent(line@, n as int),
{
    let mut col: usize = 0;
    let mut i: usize = 0;
    if n == 0 {
        proof {
            assert(indent_from(line@, 0, 0, n as int) == (line@.len() > 0)) by {
                if line@.len() > 0 {
                    if line@[0] == ' ' || line@[0] == '\t' {
                    }
                }
            }
        }
        return line.len() > 0;
    }
    while i < line.len()
        invariant
            0 < n <= 4,
            i <= line@.len(),
            col < n,
            indent_from(line@, i as int, col as int, n as int) == starts_with_indent(
                line@,
                n as int,
            ),
        decreases line@.len() - i,
    {
        let c = line[i];
        if c == ' ' {
            col = col + 1;
        } else if c == '\t' {
            col = (col / 4 + 1) * 4;
        } else {
            return col >= n;
        }
        if col >= n {
            return true;
        }
        i += 1;
    }
    false
}

fn is_three(s: &Vec<char>, lo: usize, hi: usize, c: char) -> (r: bool)
    requires
        lo <= hi <= s@.len(),
    ensures
        r == (s@.subrange(lo as int, hi as int) == seq![c, c, c]),
{
    if hi - lo != 3 {
        proof {
            assert(s@.subrange(lo as int, hi as int).len() != seq![c, c, c].len());
        }
        return false;
    }
    let r = s[lo] == c && s[lo + 1] == c && s[lo + 2] == c;
    proof {
        if r {
            assert(s@.subrange(lo as int, hi as int) =~= seq![c, c, c]);
        } else {
            let t = s@.subrange(lo as int, hi as int);
            if t == seq![c, c, c] {
                assert(t[0] == c && t[1] == c && t[2] == c);
            }
        }
    }
    r
}

impl LineSkipState {
    pub fn new() -> (r: LineSkipState)
        ensures
            r == initial_skip_state(),
    {
        LineSkipState { in_frontmatter: false, started: false, fence: None, fence_len: 0 }
    }

    /// Advance one line. Returns `true` when the line is structural
    /// (frontmatter, a code fence or a line inside one, or an indented code
    /// line) and should be skipped by the consumer.
    pub fn skip_line(&mut self, line: &Vec<char>) -> (r: bool)
        ensures
            (*final(self), r) == skip_step(*old(self), line@),
    {
        let te = skip_ws_back(line, 0, line.len());
        proof {
            assert(line@.subrange(0, line@.len() as int) =~= line@);
        }
        if !self.started {
            if is_three(line, 0, te, '-') {
                self.started = true;
                self.in_frontmatter = true;
                return true;
            }
        } else if self.in_frontmatter {
            if is_three(line, 0, te, '-') || is_three(line, 0, te, '.') {
                self.in_frontmatter = false;
            }
            return true;
        }
        self.started = true;
        let ts = skip_ws(line, 0, line.len());
        let f = fence_at(line, ts);
        match self.fence {
            Some(fc) => {
                match f {
                    Some((c, n)) => {
                        if c == fc && n >= self.fence_len {
                            self.fence = None;
                            self.fence_len = 0;
                        }
                    },
                    None => {},
                }
                return true;
            },
            None => {},
        }
        match f {
            Some((c, n)) => {
                self.fence = Some(c);
                self.fence_len = n;
                return true;
            },
            None => {},
        }
        indent_at_least(line, 4)
    }
}

// ── ATX headings ─────────────────────────────────────────────────────────────

/// `s` with every trailing `c` removed.
pub open spec fn strip_trailing(s: Seq<char>, c: char) -> Seq<char>
    decreases s.len(),
{
    if s.len() > 0 && s.last() == c {
        strip_trailing(s.drop_last(), c)
    } else {
        s
    }
}

/// An ATX heading line: its level and text (closing `#`s and surrounding
/// whitespace stripped).
pub open spec fn parse_atx(line: Seq<char>) -> Option<(u8, Seq<char>)> {
    let t = trim_start(line);
    let level = run_len(t, '#', 0);
    let after = t.subrange(level as int, t.len() as int);
    if 1 <= level <= 6 && (after.len() == 0 || is_ws(after[0])) {
        Some((level as u8, trim_end(strip_trailing(trim(after), '#'))))
    } else {
        None
    }
}

proof fn lemma_trim_start_sub(s: Seq<char>, lo: int, r: int)
    requires
        0 <= lo <= r <= s.len(),
        s.subrange(r, s.len() as int) == trim_start(s.subrange(lo, s.len() as int)),
    ensures
        forall|k: int| r <= k <= s.len() ==> #[trigger] s.subrange(r, s.len() as int).subrange(k - r, s.len() - r) == s.subrange(k, s.len() as int),
{
    assert forall|k: int| r <= k <= s.len() implies #[trigger] s.subrange(r, s.len() as int).subrange(k - r, s.len() - r) == s.subrange(k, s.len() as int) by {
        assert(s.subrange(r, s.len() as int).subrange(k - r, s.len() - r) =~= s.subrange(k, s.len() as int));
    }
}

/// Parse an ATX heading from `line`; `lineno` is its 1-indexed line number.
pub fn parse_atx_line(line: &Vec<char>, lineno: usize) -> (r: Option<Heading>)
    ensures
        match (r, parse_atx(line@)) {
            (Some(h), Some((level, text))) => h@ == (HeadingSpec { text, level, line: lineno as nat }),
            (None, None) => true,
            _ => false,
        },
{
    let len = line.len();
    let ts = skip_ws(line, 0, len);
    proof {
        assert(line@.subrange(0, len as int) =~= line@);
    }
    let level = count_run(line, '#', ts);
    proof {
        lemma_run_len_shift(line@, '#', ts as int, ts as int);
        let t = trim_start(line@);
        assert(t == line@.subrange(ts as int, len as int));
        assert(t.subrange(level as int, t.len() as int) =~= line@.subrange(ts + level, len as int));
    }
    if level < 1 || level > 6 {
        return None;
    }
    let a = ts + level;
    if a < len && !is_whitespace(line[a]) {
        proof {
            let after = line@.subrange(a as int, len as int);
            assert(after[0] == line@[a as int]);
        }
        return None;
    }
    let b0 = skip_ws(line, a, len);
    let mut e = skip_ws_back(line, b0, len);
    proof {
        assert(trim(line@.subrange(a as int, len as int)) == line@.subrange(b0 as int, e as int));
    }
    while e > b0 && line[e - 1] == '#'
        invariant
            b0 <= e <= len == line@.len(),
            strip_trailing(line@.subrange(b0 as int, e as int), '#') == strip_trailing(
                trim(line@.subrange(a as int, len as int)),
                '#',
            ),
        decreases e - b0,
    {
        proof {
            assert(line@.subrange(b0 as int, e as int).drop_last() =~= line@.subrange(
                b0 as int,
                e - 1,
            ));
        }
        e -= 1;
    }
    proof {
        let t = line@.subrange(b0 as int, e as int);
        assert(strip_trailing(t, '#') == t);
    }
    let e2 = skip_ws_back(line, b0, e);
    let text = string_of(line, b0, e2);
    Some(Heading { text, level: level as u8, line: lineno })
}

/// Heading records produced by scanning `ls[i..]` from skip state `st`.
pub open spec fn headings_scan(ls: Seq<Seq<char>>, i: int, st: LineSkipState) -> Seq<HeadingSpec>
    decreases ls.len() - i,
{
    if i < 0 || i >= ls.len() {
        Seq::empty()
    } else {
        let (st2, skip) = skip_step(st, ls[i]);
        let rest = headings_scan(ls, i + 1, st2);
        if skip {
            rest
        } else {
            match parse_atx(ls[i]) {
                Some((level, text)) => seq![HeadingSpec { text, level, line: (i + 1) as nat }]
                    + rest,
                None => rest,
            }
        }
    }
}

/// The headings of a scan carry strictly increasing line numbers, each
/// naming one of the scanned lines.
pub proof fn lemma_headings_scan_lines(ls: Seq<Seq<char>>, i: int, st: LineSkipState)
    requires
        0 <= i,
    ensures
        forall|k: int|
            0 <= k < headings_scan(ls, i, st).len() ==> i < #[trigger] headings_scan(ls, i, st)[k].line
                <= ls.len(),
        forall|a: int, b: int|
            0 <= a < b < headings_scan(ls, i, st).len() ==> #[trigger] headings_scan(ls, i, st)[a].line
                < #[trigger] headings_scan(ls, i, st)[b].line,
    decreases ls.len() - i,
{
    if i < ls.len() {
        let (st2, skip) = skip_step(st, ls[i]);
        lemma_headings_scan_lines(ls, i + 1, st2);
        let r = headings_scan(ls, i, st);
        let rest = headings_scan(ls, i + 1, st2);
        if !skip {
            match parse_atx(ls[i]) {
                Some((level, text)) => {
                    let h = HeadingSpec { text, level, line: (i + 1) as nat };
                    assert(r == seq![h] + rest);
                    assert forall|k: int| 0 <= k < r.len() implies i < #[trigger] r[k].line <= ls.len() by {
                        if k > 0 {
                            assert(r[k] == rest[k - 1]);
                        }
                    }
                    assert forall|a: int, b: int| 0 <= a < b < r.len() implies #[trigger] r[a].line < #[trigger] r[b].line by {
                        assert(r[b] == rest[b - 1]);
                        if a > 0 {
                            assert(r[a] == rest[a - 1]);
                        } else {
                            assert(i + 1 < rest[b - 1].line);
                        }
                    }
                },
                None => {},
            }
        }
    }
}

/// Every ATX heading of `content`, in document order.
pub open spec fn headings_of(content: Seq<char>) -> Seq<HeadingSpec> {
    headings_scan(lines(content), 0, initial_skip_state())
}

/// Extract every ATX heading (`#` … `######`) from `content`.
///
/// Headings inside fenced code blocks (``` and ~~~), inside indented code
/// blocks (4 columns of indent), and inside the leading frontmatter block
/// are skipped. Setext headings are out of scope.
pub fn extract_headings(content: &str) -> (r: Vec<Heading>)
    ensures
        headings_view(r@) == headings_of(content@),
{
    let chars = to_chars(content);
    extract_headings_chars(&chars)
}

/// [`extract_headings`] over a character vector.
pub fn extract_headings_chars(chars: &Vec<char>) -> (r: Vec<Heading>)
    ensures
        headings_view(r@) == headings_of(chars@),
{
    let ls = split_lines(chars);
    let mut out: Vec<Heading> = Vec::new();
    let mut state = LineSkipState::new();
    let mut i: usize = 0;
    let ghost lsv = lines(chars@);
    while i < ls.len()
        invariant
            i <= ls@.len() == lsv.len(),
            lsv == lines(chars@),
            forall|k: int| 0 <= k < ls@.len() ==> #[trigger] ls@[k]@ == lsv[k],
            headings_of(chars@) == headings_view(out@) + headings_scan(lsv, i as int, state),
        decreases ls@.len() - i,
    {
        let ghost st0 = state;
        let skip = state.skip_line(&ls[i]);
        if !skip {
            let h = parse_atx_line(&ls[i], i + 1);
            match h {
                Some(h) => {
                    proof {
                        assert(headings_view(out@.push(h)) =~= headings_view(out@).push(h@));
                        assert(headings_view(out@).push(h@) + headings_scan(lsv, i + 1, state)
                            =~= headings_view(out@) + (seq![h@] + headings_scan(lsv, i + 1, state)));
                    }
                    out.push(h);
                },
                None => {},
            }
        }
        i += 1;
    }
    proof {
        assert(headings_view(out@) + Seq::<HeadingSpec>::empty() =~= headings_view(out@));
    }
    out
}

} // verus!
