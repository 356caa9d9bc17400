//! Day-planner timeblocks: model, parser and serializer.
//!
//! A timeblock is one entry under a daily note's timeblock heading, in the
//! Day Planner plugin's format:
//!
//! ```text
//! - HH:MM - HH:MM <desc>
//! - HH:MM - HH:MM <desc> @group/tag/subtag
//! ```
//!
//! The short form `- HH:MM <desc>` is accepted too; its end is the start
//! plus 30 minutes. `@tags` are extracted for queries and stay in `desc`.

pub mod doc;
pub mod ops;
pub mod read_back;
pub mod report;
pub mod round_trip;

use vstd::prelude::*;

use crate::text::{
    is_ws, push_char, push_str, skip_ws, skip_ws_back, slice_vec, string_of, string_of_all,
    to_chars, trim, trim_start,
};

verus! {

/// A time of day with minute precision.
#[derive(Debug, Clone, Copy, PartialEq, Eq, Structural, Hash)]
pub struct Time {
    pub hour: u32,
    pub minute: u32,
}

/// `t` is a time of day.
pub open spec fn valid_time(t: Time) -> bool {
    t.hour < 24 && t.minute < 60
}

/// Minutes since midnight.
pub open spec fn minute_of_day(t: Time) -> int {
    t.hour * 60 + t.minute
}

/// `t` plus `m` minutes, wrapping at midnight.
pub open spec fn add_minutes(t: Time, m: int) -> Time {
    let x = (minute_of_day(t) + m) % 1440;
    Time { hour: (x / 60) as u32, minute: (x % 60) as u32 }
}

/// `HH:MM`.
pub open spec fn hhmm_text(t: Time) -> Seq<char> {
    crate::date::zero_pad(crate::text::decimal(t.hour as nat), 2) + seq![':'] + crate::date::zero_pad(
        crate::text::decimal(t.minute as nat),
        2,
    )
}

impl Time {
    /// The time `hour:minute`, or `None` outside a day (as
    /// `NaiveTime::from_hms_opt(hour, minute, 0)`).
    pub fn from_hm_opt(hour: u32, minute: u32) -> (r: Option<Time>)
        ensures
            match r {
                Some(t) => t == (Time { hour, minute }) && valid_time(t),
                None => !valid_time(Time { hour, minute }),
            },
    {
        if hour < 24 && minute < 60 {
            Some(Time { hour, minute })
        } else {
            None
        }
    }

    /// Minutes since midnight.
    pub fn minute_of_day(&self) -> (r: u32)
        requires
            valid_time(*self),
        ensures
            r == minute_of_day(*self),
    {
        self.hour * 60 + self.minute
    }

    /// `self` plus `m` minutes, wrapping at midnight.
    pub fn plus_minutes(&self, m: u32) -> (r: Time)
        requires
            valid_time(*self),
        ensures
            r == add_minutes(*self, m as int),
            valid_time(r),
    {
        let x: u64 = ((self.hour as u64) * 60 + (self.minute as u64) + (m as u64)) % 1440;
        Time { hour: (x / 60) as u32, minute: (x % 60) as u32 }
    }

    /// `HH:MM`, zero-padded.
    pub fn to_hhmm(&self) -> (r: String)
        requires
            valid_time(*self),
        ensures
            r@ == hhmm_text(*self),
    {
        let mut s = String::new();
        push_two(&mut s, self.hour);
        push_char(&mut s, ':');
        push_two(&mut s, self.minute);
        proof {
            assert(s@ =~= hhmm_text(*self));
        }
        s
    }
}

fn push_two(out: &mut String, n: u32)
    requires
        n < 100,
    ensures
        final(out)@ == old(out)@ + crate::date::zero_pad(crate::text::decimal(n as nat), 2),
{
    if n < 10 {
        push_char(out, '0');
    }
    crate::text::push_usize(out, n as usize);
    proof {
        let d = crate::text::decimal(n as nat);
        if n >= 10 {
            assert(crate::text::decimal((n / 10) as nat).len() == 1);
            assert(d.len() == 2);
        } else {
            assert(d.len() == 1);
        }
        assert(final(out)@ =~= old(out)@ + crate::date::zero_pad(d, 2));
    }
}

/// A hierarchical tag of one to three levels (`@work/meeting/1on1`).
#[derive(Debug, Clone, PartialEq, Eq, Hash)]
pub struct Tag {
    pub levels: Vec<String>,
}

pub open spec fn tag_view(t: Tag) -> Seq<Seq<char>> {
    crate::task::strings_view(t.levels@)
}

pub open spec fn tags_view(v: Seq<Tag>) -> Seq<Seq<Seq<char>>> {
    v.map_values(|t: Tag| tag_view(t))
}

/// `levels` joined with `/`.
pub open spec fn join_slash(levels: Seq<Seq<char>>) -> Seq<char>
    decreases levels.len(),
{
    if levels.len() == 0 {
        Seq::empty()
    } else if levels.len() == 1 {
        levels[0]
    } else {
        join_slash(levels.drop_last()) + seq!['/'] + levels.last()
    }
}

impl Tag {
    /// `@a/b/c`.
    pub fn to_string_form(&self) -> (r: String)
        ensures
            r@ == seq!['@'] + join_slash(tag_view(*self)),
    {
        let ghost v = tag_view(*self);
        let mut s = String::new();
        push_char(&mut s, '@');
        let mut i: usize = 0;
        proof {
            assert(v.take(0) =~= Seq::<Seq<char>>::empty());
        }
        while i < self.levels.len()
            invariant
                i <= self.levels@.len() == v.len(),
                v == tag_view(*self),
                s@ == seq!['@'] + join_slash(v.take(i as int)),
            decreases self.levels@.len() - i,
        {
            if i > 0 {
                push_char(&mut s, '/');
            }
            push_str(&mut s, self.levels[i].as_str());
            proof {
                let t = v.take(i + 1);
                assert(t.drop_last() =~= v.take(i as int));
                assert(t.last() == self.levels@[i as int]@);
                if i == 0 {
                    assert(s@ =~= seq!['@'] + t[0]);
                } else {
                    assert(s@ =~= seq!['@'] + (join_slash(v.take(i as int)) + seq!['/'] + t.last()));
                }
            }
            i += 1;
        }
        proof {
            assert(v.take(i as int) =~= v);
        }
        s
    }
}

/// One day-planner block.
#[derive(Debug, Clone, PartialEq, Eq)]
pub struct Timeblock {
    pub start: Time,
    /// `start + 30m` when the source line omits the end.
    pub end: Time,
    /// `false` for the short form `HH:MM <desc>`.
    pub end_explicit: bool,
    /// Description, with its `@tag` text inline.
    pub desc: String,
    /// The well-formed tags of `desc`.
    pub tags: Vec<Tag>,
    /// 1-indexed position within the block list; `0` when not placed.
    pub source_line: usize,
}

/// Errors of the timeblock parsers.
#[derive(Debug, Clone, PartialEq, Eq)]
pub enum ParseError {
    BadStart { pos: usize },
    BadEnd,
    EndBeforeStart { start: String, end: String },
    TagTooDeep,
    TagBadChar { ch: char },
    Empty,
}

/// The text of a timeblock parse error.
pub open spec fn parse_error_text(e: ParseError) -> Seq<char> {
    match e {
        ParseError::BadStart { pos } => "expected `HH:MM` start time at position "@ + crate::text::decimal(pos as nat),
        ParseError::BadEnd => "expected `HH:MM` end time after `-` separator"@,
        ParseError::EndBeforeStart { start, end } => "end time "@ + end@ + " is not after start "@ + start@,
        ParseError::TagTooDeep => "tag has more than 3 levels"@,
        ParseError::TagBadChar { ch } => "tag contains disallowed character "@ + crate::text::char_debug(ch),
        ParseError::Empty => "empty input"@,
    }
}

impl ParseError {
    /// Human-readable rendering of the error (see [`parse_error_text`]).
    pub fn message(&self) -> (r: String)
        ensures
            r@ == parse_error_text(*self),
    {
        match self {
            ParseError::BadStart { pos } => {
                let n = crate::text::usize_to_string(*pos);
                crate::text::concat2("expected `HH:MM` start time at position ", n.as_str())
            },
            ParseError::BadEnd => crate::text::owned("expected `HH:MM` end time after `-` separator"),
            ParseError::EndBeforeStart { start, end } => crate::text::concat4(
                "end time ",
                end.as_str(),
                " is not after start ",
                start.as_str(),
            ),
            ParseError::TagTooDeep => crate::text::owned("tag has more than 3 levels"),
            ParseError::TagBadChar { ch } => {
                let d = crate::text::debug_char(*ch);
                crate::text::concat2("tag contains disallowed character ", d.as_str())
            },
            ParseError::Empty => crate::text::owned("empty input"),
        }
    }
}

// ── specification ────────────────────────────────────────────────────────────

/// A character allowed in a tag level.
pub open spec fn is_tag_char(c: char) -> bool {
    crate::text::is_ascii_alnum(c) || c == '_' || c == '-'
}

/// A character that ends a tag level.
pub open spec fn ends_level(c: char) -> bool {
    c == '/' || is_ws(c) || c == '@'
}

/// First offset at or after `i` that is not a tag character.
pub open spec fn level_end(s: Seq<char>, i: int) -> int
    decreases s.len() - i,
{
    if i < 0 || i >= s.len() {
        s.len() as int
    } else if is_tag_char(s[i]) {
        level_end(s, i + 1)
    } else {
        i
    }
}

/// First offset at or after `i` holding whitespace.
pub open spec fn ws_from(s: Seq<char>, i: int) -> int
    decreases s.len() - i,
{
    if i < 0 || i >= s.len() {
        s.len() as int
    } else if is_ws(s[i]) {
        i
    } else {
        ws_from(s, i + 1)
    }
}

pub proof fn lemma_level_end(s: Seq<char>, i: int)
    requires
        0 <= i <= s.len(),
    ensures
        i <= level_end(s, i) <= s.len(),
        forall|k: int| i <= k < level_end(s, i) ==> is_tag_char(#[trigger] s[k]),
        level_end(s, i) < s.len() ==> !is_tag_char(s[level_end(s, i)]),
    decreases s.len() - i,
{
    if i < s.len() && is_tag_char(s[i]) {
        lemma_level_end(s, i + 1);
    }
}

pub proof fn lemma_ws_from(s: Seq<char>, i: int)
    requires
        0 <= i <= s.len(),
    ensures
        i <= ws_from(s, i) <= s.len(),
    decreases s.len() - i,
{
    if i < s.len() && !is_ws(s[i]) {
        lemma_ws_from(s, i + 1);
    }
}

/// Reading the levels of a tag from offset `i`, with `levels` read so far:
/// where reading stops, and the levels when the tag is well formed.
pub open spec fn tag_body(s: Seq<char>, i: int, levels: Seq<Seq<char>>) -> (int, Option<Seq<Seq<char>>>)
    decreases s.len() - i,
{
    if i < 0 || i > s.len() {
        (s.len() as int, None)
    } else {
        let j = level_end(s, i);
        proof {
            lemma_level_end(s, i);
            lemma_ws_from(s, j);
        }
        if j < s.len() && !ends_level(s[j]) {
            (ws_from(s, j), None)
        } else if j == i {
            (j, None)
        } else {
            let lv = levels.push(s.subrange(i, j));
            if j < s.len() && s[j] == '/' {
                if lv.len() >= 3 {
                    (ws_from(s, j), None)
                } else {
                    tag_body(s, j + 1, lv)
                }
            } else {
                (j, Some(lv))
            }
        }
    }
}

pub proof fn lemma_tag_body(s: Seq<char>, i: int, levels: Seq<Seq<char>>)
    requires
        0 <= i <= s.len(),
    ensures
        i <= tag_body(s, i, levels).0 <= s.len(),
    decreases s.len() - i,
{
    let j = level_end(s, i);
    lemma_level_end(s, i);
    lemma_ws_from(s, j);
    if !(j < s.len() && !ends_level(s[j])) && j != i {
        let lv = levels.push(s.subrange(i, j));
        if j < s.len() && s[j] == '/' && lv.len() < 3 {
            lemma_tag_body(s, j + 1, lv);
        }
    }
}

/// One entry per `@` of `s[i..]`: the tag it opens, or `None` when the
/// token after it is malformed.
pub open spec fn tags_collect(s: Seq<char>, i: int) -> Seq<Option<Seq<Seq<char>>>>
    decreases s.len() - i,
{
    if i < 0 || i >= s.len() {
        Seq::empty()
    } else if s[i] != '@' {
        tags_collect(s, i + 1)
    } else {
        proof {
            lemma_tag_body(s, i + 1, Seq::empty());
        }
        let (i2, r) = tag_body(s, i + 1, Seq::empty());
        seq![r] + tags_collect(s, i2)
    }
}

/// The well-formed tags of `s`, in order.
pub open spec fn tags_in(s: Seq<char>) -> Seq<Seq<Seq<char>>> {
    tags_collect(s, 0).filter(|o: Option<Seq<Seq<char>>>| o is Some).map_values(
        |o: Option<Seq<Seq<char>>>| o->0,
    )
}

/// `t` with a leading list marker (`-`, `*` or `+`, then a space or tab)
/// removed.
pub open spec fn strip_list_marker(t: Seq<char>) -> Seq<char> {
    let u = trim_start(t);
    if u.len() >= 2 && (u[0] == '-' || u[0] == '*' || u[0] == '+') && (u[1] == ' ' || u[1] == '\t') {
        u.skip(2)
    } else {
        u
    }
}

pub open spec fn digit_at(s: Seq<char>, i: int) -> int {
    s[i] as int - '0' as int
}

/// The zero-padded `HH:MM` time that `s` starts with.
pub open spec fn hhmm_at(s: Seq<char>) -> Option<Time> {
    if s.len() >= 5 && crate::text::is_ascii_digit(s[0]) && crate::text::is_ascii_digit(s[1]) && s[2]
        == ':' && crate::text::is_ascii_digit(s[3]) && crate::text::is_ascii_digit(s[4])
        && digit_at(s, 0) * 10 + digit_at(s, 1) < 24 && digit_at(s, 3) * 10 + digit_at(s, 4) < 60 {
        Some(
            Time {
                hour: (digit_at(s, 0) * 10 + digit_at(s, 1)) as u32,
                minute: (digit_at(s, 3) * 10 + digit_at(s, 4)) as u32,
            },
        )
    } else {
        None
    }
}

/// First offset at or after `i` that is not a space or tab.
pub open spec fn skip_blank(s: Seq<char>, i: int) -> int
    decreases s.len() - i,
{
    if i < 0 || i >= s.len() {
        s.len() as int
    } else if s[i] == ' ' || s[i] == '\t' {
        skip_blank(s, i + 1)
    } else {
        i
    }
}

/// ` - HH:MM` at the start of `rest` (blanks optional around the dash):
/// the end time and how many characters it took.
pub open spec fn dash_end(rest: Seq<char>) -> Option<(Time, int)> {
    let i1 = skip_blank(rest, 0);
    if i1 >= rest.len() || rest[i1] != '-' {
        None
    } else {
        let i2 = skip_blank(rest, i1 + 1);
        match hhmm_at(rest.skip(i2)) {
            Some(t) => Some((t, i2 + 5)),
            None => None,
        }
    }
}

/// Mathematical value of a [`Timeblock`].
pub struct BlockSpec {
    pub start: Time,
    pub end: Time,
    pub end_explicit: bool,
    pub desc: Seq<char>,
    pub tags: Seq<Seq<Seq<char>>>,
    pub source_line: nat,
}

pub open spec fn block_view(b: Timeblock) -> BlockSpec {
    BlockSpec {
        start: b.start,
        end: b.end,
        end_explicit: b.end_explicit,
        desc: b.desc@,
        tags: tags_view(b.tags@),
        source_line: b.source_line as nat,
    }
}

/// Mathematical value of a [`ParseError`].
pub enum ParseErrorSpec {
    BadStart { pos: nat },
    BadEnd,
    EndBeforeStart { start: Seq<char>, end: Seq<char> },
    TagTooDeep,
    TagBadChar { ch: char },
    Empty,
}

pub open spec fn error_view(e: ParseError) -> ParseErrorSpec {
    match e {
        ParseError::BadStart { pos } => ParseErrorSpec::BadStart { pos: pos as nat },
        ParseError::BadEnd => ParseErrorSpec::BadEnd,
        ParseError::EndBeforeStart { start, end } => ParseErrorSpec::EndBeforeStart {
            start: start@,
            end: end@,
        },
        ParseError::TagTooDeep => ParseErrorSpec::TagTooDeep,
        ParseError::TagBadChar { ch } => ParseErrorSpec::TagBadChar { ch },
        ParseError::Empty => ParseErrorSpec::Empty,
    }
}

/// The block with the given times and description, its tags extracted.
pub open spec fn block_of(start: Time, end: Time, explicit: bool, desc: Seq<char>) -> BlockSpec {
    BlockSpec { start, end, end_explicit: explicit, desc, tags: tags_in(desc), source_line: 0 }
}

/// What [`parse_line`] gives for the text `body` that follows the list
/// marker.
pub open spec fn parse_body(body: Seq<char>) -> Result<BlockSpec, ParseErrorSpec> {
    match hhmm_at(body) {
        None => Err(ParseErrorSpec::BadStart { pos: 0 }),
        Some(start) => {
            let rest = body.skip(5);
            match dash_end(rest) {
                Some((end, k)) => if minute_of_day(end) <= minute_of_day(start) {
                    Err(ParseErrorSpec::EndBeforeStart { start: hhmm_text(start), end: hhmm_text(end) })
                } else {
                    Ok(block_of(start, end, true, trim(rest.skip(k))))
                },
                None => Ok(block_of(start, add_minutes(start, 30), false, trim(rest))),
            }
        },
    }
}

/// What [`parse_line`] gives for `input`.
pub open spec fn parse_block(input: Seq<char>) -> Result<BlockSpec, ParseErrorSpec> {
    let t = trim(input);
    if t.len() == 0 {
        Err(ParseErrorSpec::Empty)
    } else {
        parse_body(trim_start(strip_list_marker(t)))
    }
}

/// The canonical line of a block: `HH:MM - HH:MM <desc>`, with no trailing
/// space when the description is empty.
pub open spec fn block_line(b: BlockSpec) -> Seq<char> {
    hhmm_text(b.start) + seq![' ', '-', ' '] + hhmm_text(b.end) + if b.desc.len() == 0 {
        Seq::empty()
    } else {
        seq![' '] + b.desc
    }
}

/// `s` split at every `c`.
pub open spec fn split_char(s: Seq<char>, c: char) -> Seq<Seq<char>>
    decreases s.len(),
{
    let k = crate::text::find_from(s, c, 0);
    if k < s.len() {
        proof {
            crate::text::lemma_find_from_bounds(s, c, 0);
        }
        seq![s.take(k)] + split_char(s.skip(k + 1), c)
    } else {
        seq![s]
    }
}

/// Index of the first character of `s` that is not a tag character, or
/// `s.len()` (the same as [`level_end`] from 0).
pub open spec fn first_bad_char(s: Seq<char>) -> int {
    level_end(s, 0)
}

/// Index of the first level of `parts` that is empty or holds a bad
/// character, from `k` on, or `parts.len()`.
pub open spec fn first_bad_level(parts: Seq<Seq<char>>, k: int) -> int
    decreases parts.len() - k,
{
    if k < 0 || k >= parts.len() {
        parts.len() as int
    } else if parts[k].len() == 0 || first_bad_char(parts[k]) < parts[k].len() {
        k
    } else {
        first_bad_level(parts, k + 1)
    }
}

/// What [`parse_tag_string`] gives for `s`.
/// The text of a tag string: trimmed, without its `@`.
pub open spec fn tag_text(s: Seq<char>) -> Seq<char> {
    let t = trim(s);
    if t.len() > 0 && t[0] == '@' {
        t.drop_first()
    } else {
        t
    }
}

pub open spec fn parse_tag(s: Seq<char>) -> Result<Seq<Seq<char>>, ParseErrorSpec> {
    let u = tag_text(s);
    let parts = split_char(u, '/');
    let k = first_bad_level(parts, 0);
    if u.len() == 0 {
        Err(ParseErrorSpec::Empty)
    } else if parts.len() > 3 {
        Err(ParseErrorSpec::TagTooDeep)
    } else if k < parts.len() {
        if parts[k].len() == 0 {
            Err(ParseErrorSpec::Empty)
        } else {
            Err(ParseErrorSpec::TagBadChar { ch: parts[k][first_bad_char(parts[k])] })
        }
    } else {
        Ok(parts)
    }
}

// ── parsing ──────────────────────────────────────────────────────────────────

fn is_tag_char_exec(c: char) -> (r: bool)
    ensures
        r == is_tag_char(c),
{
    ('0' <= c && c <= '9') || ('a' <= c && c <= 'z') || ('A' <= c && c <= 'Z') || c == '_' || c == '-'
}

fn level_end_exec(s: &Vec<char>, i0: usize) -> (r: usize)
    requires
        i0 <= s@.len(),
    ensures
        r as int == level_end(s@, i0 as int),
{
    let mut i = i0;
    while i < s.len() && is_tag_char_exec(s[i])
        invariant
            i0 <= i <= s@.len(),
            level_end(s@, i as int) == level_end(s@, i0 as int),
        decreases s@.len() - i,
    {
        i += 1;
    }
    i
}

fn ws_from_exec(s: &Vec<char>, i0: usize) -> (r: usize)
    requires
        i0 <= s@.len(),
    ensures
        r as int == ws_from(s@, i0 as int),
{
    let mut i = i0;
    while i < s.len() && !crate::text::is_whitespace(s[i])
        invariant
            i0 <= i <= s@.len(),
            ws_from(s@, i as int) == ws_from(s@, i0 as int),
        decreases s@.len() - i,
    {
        i += 1;
    }
    i
}

/// [`tag_body`] from offset `i0` with no levels read yet.
fn tag_body_exec(s: &Vec<char>, i0: usize) -> (r: (usize, Option<Vec<String>>))
    requires
        i0 <= s@.len(),
    ensures
        (r.0 as int, match r.1 {
            Some(v) => Some(crate::task::strings_view(v@)),
            None => None,
        }) == tag_body(s@, i0 as int, Seq::empty()),
{
    let mut levels: Vec<String> = Vec::new();
    let mut i = i0;
    proof {
        assert(crate::task::strings_view(levels@) =~= Seq::<Seq<char>>::empty());
    }
    loop
        invariant
            i0 <= i <= s@.len(),
            levels@.len() < 3,
            tag_body(s@, i0 as int, Seq::empty()) == tag_body(s@, i as int, crate::task::strings_view(levels@)),
        decreases s@.len() - i,
    {
        let j = level_end_exec(s, i);
        proof {
            lemma_level_end(s@, i as int);
        }
        if j < s.len() && !(s[j] == '/' || crate::text::is_whitespace(s[j]) || s[j] == '@') {
            let w = ws_from_exec(s, j);
            return (w, None);
        }
        if j == i {
            return (j, None);
        }
        let lv = string_of(s, i, j);
        let ghost before = crate::task::strings_view(levels@);
        levels.push(lv);
        proof {
            assert(crate::task::strings_view(levels@) =~= before.push(s@.subrange(i as int, j as int)));
        }
        if j < s.len() && s[j] == '/' {
            if levels.len() >= 3 {
                let w = ws_from_exec(s, j);
                return (w, None);
            }
            i = j + 1;
        } else {
            return (j, Some(levels));
        }
    }
}

/// Every well-formed `@tag` of `desc`, in order. Malformed `@` tokens
/// (brackets, parentheses, four levels, bad characters, a bare `@`) stay in
/// the text but yield no tag.
pub fn parse_tags(desc: &str) -> (r: Vec<Tag>)
    ensures
        tags_view(r@) == tags_in(desc@),
{
    let s = to_chars(desc);
    let n = s.len();
    let mut out: Vec<Tag> = Vec::new();
    let mut i: usize = 0;
    let ghost mut done: Seq<Option<Seq<Seq<char>>>> = Seq::empty();
    let ghost pred = |o: Option<Seq<Seq<char>>>| o is Some;
    let ghost get = |o: Option<Seq<Seq<char>>>| o->0;
    proof {
        assert(tags_view(out@) =~= done.filter(pred).map_values(get));
    }
    while i < n
        invariant
            i <= n == s@.len(),
            s@ == desc@,
            tags_collect(s@, 0) == done + tags_collect(s@, i as int),
            tags_view(out@) == done.filter(pred).map_values(get),
            pred == (|o: Option<Seq<Seq<char>>>| o is Some),
            get == (|o: Option<Seq<Seq<char>>>| o->0),
        decreases n - i,
    {
        if s[i] != '@' {
            i += 1;
            continue;
        }
        proof {
            lemma_tag_body(s@, i + 1, Seq::empty());
        }
        let (i2, r) = tag_body_exec(&s, i + 1);
        let ghost rv = match &r {
            Some(v) => Some(crate::task::strings_view(v@)),
            None => None::<Seq<Seq<char>>>,
        };
        proof {
            assert(tags_collect(s@, i as int) == seq![rv] + tags_collect(s@, i2 as int));
            assert(done + tags_collect(s@, i as int) =~= done.push(rv) + tags_collect(s@, i2 as int));
            reveal(Seq::filter);
            assert(done.push(rv).filter(pred) == if pred(rv) { done.filter(pred).push(rv) } else { done.filter(pred) }) by {
                assert(done.push(rv).drop_last() =~= done);
            }
        }
        match r {
            Some(v) => {
                let t = Tag { levels: v };
                proof {
                    assert(tags_view(out@.push(t)) =~= tags_view(out@).push(tag_view(t)));
                    assert(done.filter(pred).push(rv).map_values(get) =~= done.filter(pred).map_values(get).push(get(rv)));
                }
                out.push(t);
            },
            None => {},
        }
        proof {
            done = done.push(rv);
        }
        i = i2;
    }
    proof {
        assert(done + Seq::<Option<Seq<Seq<char>>>>::empty() =~= done);
    }
    out
}

fn hhmm_at_exec(s: &Vec<char>, lo: usize) -> (r: Option<Time>)
    requires
        lo <= s@.len(),
    ensures
        r == hhmm_at(s@.skip(lo as int)),
{
    let ghost t = s@.skip(lo as int);
    if s.len() - lo < 5 {
        return None;
    }
    proof {
        assert(t[0] == s@[lo as int] && t[1] == s@[lo + 1] && t[2] == s@[lo + 2] && t[3] == s@[lo + 3]
            && t[4] == s@[lo + 4]);
    }
    let h0 = s[lo];
    let h1 = s[lo + 1];
    let c = s[lo + 2];
    let m0 = s[lo + 3];
    let m1 = s[lo + 4];
    if !('0' <= h0 && h0 <= '9' && '0' <= h1 && h1 <= '9' && c == ':' && '0' <= m0 && m0 <= '9' && '0'
        <= m1 && m1 <= '9') {
        return None;
    }
    let h: u32 = (h0 as u32 - '0' as u32) * 10 + (h1 as u32 - '0' as u32);
    let m: u32 = (m0 as u32 - '0' as u32) * 10 + (m1 as u32 - '0' as u32);
    if h >= 24 || m >= 60 {
        return None;
    }
    Some(Time { hour: h, minute: m })
}

fn skip_blank_exec(s: &Vec<char>, i0: usize) -> (r: usize)
    requires
        i0 <= s@.len(),
    ensures
        r as int == skip_blank(s@, i0 as int),
        i0 <= r <= s@.len(),
{
    let mut i = i0;
    while i < s.len() && (s[i] == ' ' || s[i] == '\t')
        invariant
            i0 <= i <= s@.len(),
            skip_blank(s@, i as int) == skip_blank(s@, i0 as int),
        decreases s@.len() - i,
    {
        i += 1;
    }
    i
}

proof fn lemma_skip_blank_shift(s: Seq<char>, lo: int, i: int)
    requires
        0 <= lo <= i <= s.len(),
    ensures
        skip_blank(s.skip(lo), i - lo) == skip_blank(s, i) - lo,
    decreases s.len() - i,
{
    if i < s.len() && (s[i] == ' ' || s[i] == '\t') {
        lemma_skip_blank_shift(s, lo, i + 1);
    }
}

/// [`dash_end`] at offset `lo` of `s`; the count is relative to `lo`.
fn dash_end_exec(s: &Vec<char>, lo: usize) -> (r: Option<(Time, usize)>)
    requires
        lo <= s@.len(),
    ensures
        match (r, dash_end(s@.skip(lo as int))) {
            (Some((t, k)), Some((t2, k2))) => t == t2 && k == k2 && lo + k <= s@.len(),
            (None, None) => true,
            _ => false,
        },
{
    let ghost rest = s@.skip(lo as int);
    let i1 = skip_blank_exec(s, lo);
    proof {
        lemma_skip_blank_shift(s@, lo as int, lo as int);
    }
    if i1 >= s.len() || s[i1] != '-' {
        return None;
    }
    let i2 = skip_blank_exec(s, i1 + 1);
    proof {
        lemma_skip_blank_shift(s@, lo as int, i1 + 1);
        assert(rest.skip(i2 - lo) =~= s@.skip(i2 as int));
    }
    match hhmm_at_exec(s, i2) {
        Some(t) => Some((t, i2 - lo + 5)),
        None => None,
    }
}

/// The text after the list marker of the trimmed line `t`.
fn body_of(t: &Vec<char>) -> (r: Vec<char>)
    ensures
        r@ == trim_start(strip_list_marker(t@)),
{
    let u0 = skip_ws(t, 0, t.len());
    proof {
        assert(t@.subrange(0, t@.len() as int) =~= t@);
    }
    let m0 = if t.len() - u0 >= 2 && (t[u0] == '-' || t[u0] == '*' || t[u0] == '+') && (t[u0 + 1] == ' '
        || t[u0 + 1] == '\t') {
        u0 + 2
    } else {
        u0
    };
    proof {
        let u = trim_start(t@);
        assert(u == t@.subrange(u0 as int, t@.len() as int));
        if m0 == u0 + 2 {
            assert(u.skip(2) =~= t@.skip(m0 as int));
        } else {
            assert(u =~= t@.skip(m0 as int));
        }
        assert(t@.subrange(m0 as int, t@.len() as int) =~= t@.skip(m0 as int));
    }
    let b0 = skip_ws(t, m0, t.len());
    let body = slice_vec(t, b0, t.len());
    body
}

/// [`parse_body`].
fn parse_body_exec(body: &Vec<char>) -> (r: Result<Timeblock, ParseError>)
    ensures
        match (r, parse_body(body@)) {
            (Ok(b), Ok(bs)) => block_view(b) == bs,
            (Err(e), Err(es)) => error_view(e) == es,
            _ => false,
        },
{
    proof {
        assert(body@.skip(0) =~= body@);
    }
    let start = match hhmm_at_exec(body, 0) {
        Some(x) => x,
        None => {
            return Err(ParseError::BadStart { pos: 0 });
        },
    };
    proof {
        assert(body@.len() >= 5);
    }
    let (end, explicit, k) = match dash_end_exec(body, 5) {
        Some((e, k)) => {
            let n = body.len();
            proof {
                assert(5 + k <= n);
            }
            if e.hour * 60 + e.minute <= start.hour * 60 + start.minute {
                return Err(
                    ParseError::EndBeforeStart { start: start.to_hhmm(), end: e.to_hhmm() },
                );
            }
            (e, true, 5 + k)
        },
        None => (start.plus_minutes(30), false, 5),
    };
    let d0 = slice_vec(body, k, body.len());
    let d = trim_vec_exec(&d0);
    proof {
        assert(d0@ =~= body@.skip(5).skip(k - 5));
    }
    let desc = string_of_all(&d);
    let tags = parse_tags(desc.as_str());
    Ok(Timeblock { start, end, end_explicit: explicit, desc, tags, source_line: 0 })
}

/// Parse one timeblock line: `HH:MM - HH:MM <desc>`, or the short form
/// `HH:MM <desc>` whose end is 30 minutes after its start. A leading list
/// marker and surrounding whitespace are tolerated. The start must be a
/// zero-padded `HH:MM`; an explicit end must come after the start.
pub fn parse_line(input: &str) -> (r: Result<Timeblock, ParseError>)
    ensures
        match (r, parse_block(input@)) {
            (Ok(b), Ok(bs)) => block_view(b) == bs,
            (Err(e), Err(es)) => error_view(e) == es,
            _ => false,
        },
{
    let all = to_chars(input);
    let t = trim_vec_exec(&all);
    if t.len() == 0 {
        return Err(ParseError::Empty);
    }
    let body = body_of(&t);
    parse_body_exec(&body)
}

fn trim_vec_exec(s: &Vec<char>) -> (r: Vec<char>)
    ensures
        r@ == trim(s@),
{
    crate::text::trim_vec(s)
}

/// A block in canonical form: `HH:MM - HH:MM <desc>`, without a list
/// marker and without a trailing space when the description is empty.
pub fn serialize_line(b: &Timeblock) -> (r: String)
    requires
        valid_time(b.start),
        valid_time(b.end),
    ensures
        r@ == block_line(block_view(*b)),
{
    let mut s = String::new();
    push_str(&mut s, b.start.to_hhmm().as_str());
    push_char(&mut s, ' ');
    push_char(&mut s, '-');
    push_char(&mut s, ' ');
    push_str(&mut s, b.end.to_hhmm().as_str());
    let dv = to_chars(b.desc.as_str());
    if dv.len() > 0 {
        push_char(&mut s, ' ');
        push_str(&mut s, b.desc.as_str());
    }
    proof {
        assert(s@ =~= block_line(block_view(*b)));
    }
    s
}

/// Parse one tag strictly (`@work/meeting`, the `@` optional): one to
/// three non-empty levels of ASCII letters, digits, `_` and `-`.
pub fn parse_tag_string(s: &str) -> (r: Result<Tag, ParseError>)
    ensures
        match (r, parse_tag(s@)) {
            (Ok(t), Ok(levels)) => tag_view(t) == levels,
            (Err(e), Err(es)) => error_view(e) == es,
            _ => false,
        },
{
    let all = to_chars(s);
    let t = trim_vec_exec(&all);
    let u = if t.len() > 0 && t[0] == '@' {
        let v = slice_vec(&t, 1, t.len());
        proof {
            assert(v@ =~= t@.drop_first());
        }
        v
    } else {
        t
    };
    if u.len() == 0 {
        return Err(ParseError::Empty);
    }
    // split at '/'
    let ghost parts = split_char(u@, '/');
    let mut pieces: Vec<Vec<char>> = Vec::new();
    let mut p: usize = 0;
    let mut fin = false;
    let n = u.len();
    let ghost mut acc: Seq<Seq<char>> = Seq::empty();
    proof {
        assert(u@.skip(0) =~= u@);
    }
    while !fin
        invariant
            p <= n == u@.len(),
            u@ == tag_text(s@),
            parts == split_char(u@, '/'),
            pieces@.len() == acc.len(),
            forall|q: int| 0 <= q < acc.len() ==> #[trigger] pieces@[q]@ == acc[q],
            !fin ==> parts == acc + split_char(u@.skip(p as int), '/'),
            fin ==> parts == acc,
        decreases (n - p) as int + if fin { 0int } else { 1int },
    {
        let ghost rest = u@.skip(p as int);
        let k = crate::text::find_char_from(&u, '/', p);
        let piece = slice_vec(&u, p, k);
        proof {
            crate::text::lemma_find_from_bounds(rest, '/', 0);
            assert(crate::text::find_from(rest, '/', 0) == k - p) by {
                lemma_find_shift(u@, '/', p as int, p as int);
            }
            assert(piece@ =~= rest.take(k - p));
            acc = acc.push(piece@);
        }
        pieces.push(piece);
        if k < n {
            proof {
                assert(rest.skip(k - p + 1) =~= u@.skip(k + 1));
            }
            p = k + 1;
        } else {
            fin = true;
        }
    }
    if pieces.len() > 3 {
        return Err(ParseError::TagTooDeep);
    }
    let mut levels: Vec<String> = Vec::new();
    let mut q: usize = 0;
    proof {
        assert(crate::task::strings_view(levels@) =~= Seq::<Seq<char>>::empty());
    }
    while q < pieces.len()
        invariant
            q <= pieces@.len() == parts.len() <= 3,
            forall|z: int| 0 <= z < parts.len() ==> #[trigger] pieces@[z]@ == parts[z],
            first_bad_level(parts, q as int) == first_bad_level(parts, 0),
            crate::task::strings_view(levels@) == parts.take(q as int),
            parts == split_char(u@, '/'),
            u@ == tag_text(s@),
            u@.len() > 0,
            parts.len() <= 3,
        decreases pieces@.len() - q,
    {
        let lv = &pieces[q];
        if lv.len() == 0 {
            return Err(ParseError::Empty);
        }
        let e = level_end_exec(lv, 0);
        if e < lv.len() {
            return Err(ParseError::TagBadChar { ch: lv[e] });
        }
        let ls = string_of_all(lv);
        let ghost before = crate::task::strings_view(levels@);
        levels.push(ls);
        proof {
            assert(crate::task::strings_view(levels@) =~= before.push(parts[q as int]));
            assert(parts.take(q + 1) =~= parts.take(q as int).push(parts[q as int]));
        }
        q += 1;
    }
    proof {
        assert(parts.take(q as int) =~= parts);
    }
    Ok(Tag { levels })
}

proof fn lemma_find_shift(s: Seq<char>, c: char, lo: int, p: int)
    requires
        0 <= lo <= p <= s.len(),
    ensures
        crate::text::find_from(s.skip(lo), c, p - lo) == crate::text::find_from(s, c, p) - lo,
    decreases s.len() - p,
{
    if p < s.len() && s[p] != c {
        lemma_find_shift(s, c, lo, p + 1);
    }
}

} // verus!
