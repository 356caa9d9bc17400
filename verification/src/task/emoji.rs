//! The Tasks plugin's emoji format (canonical output of plugin v7.22).
//!
//! A task line is `- [c] description fields ^block`, where the fields are
//! emoji markers: priorities `🔺 ⏫ 🔼 🔽 ⏬`, recurrence `🔁 text`, dates
//! `➕ 🛫 ⏳ 📅 ✅ ❌` followed by `YYYY-MM-DD`, `🆔 id` and `⛔ id,id`.

use vstd::prelude::*;

use crate::date::{chrono_parse_date, date_text, parse_iso_date, valid_date, Date};
use crate::task::recurrence::opt_valid;
use crate::markdown::strip_trailing;
use crate::task::format::{ParseContext, TaskFormat};
use crate::task::{dates_valid, opt_view, priority_char, strings_view, Priority, Status, Task, TaskSpec};
use crate::text::{
    bytes_prefix_end, find_from, first_non_ascii_ws, first_non_ascii_ws_exec, is_alphanumeric,
    is_whitespace, last_index, prefix_bytes_end, push_all, push_char, push_str, rfind_char,
    skip_ws, skip_ws_back, slice_vec, string_of, string_of_all, to_chars, trim, trim_end,
    trim_start, trim_vec, unicode_alnum,
};

verus! {

// ── markers ──────────────────────────────────────────────────────────────────

pub open spec fn recurrence_char() -> char {
    '\u{1F501}'
}

pub open spec fn id_char() -> char {
    '\u{1F194}'
}

pub open spec fn depends_char() -> char {
    '\u{26D4}'
}

/// The date fields, in canonical order.
#[derive(Debug, Clone, Copy, PartialEq, Eq, Structural)]
pub enum DateField {
    Created,
    Start,
    Scheduled,
    Due,
    Done,
    Cancelled,
}

/// The emoji that marks date field `f` (`➕ 🛫 ⏳ 📅 ✅ ❌`).
pub open spec fn date_char(f: DateField) -> char {
    match f {
        DateField::Created => '\u{2795}',
        DateField::Start => '\u{1F6EB}',
        DateField::Scheduled => '\u{23F3}',
        DateField::Due => '\u{1F4C5}',
        DateField::Done => '\u{2705}',
        DateField::Cancelled => '\u{274C}',
    }
}

/// The priority that `c` marks.
pub open spec fn priority_of(c: char) -> Option<Priority> {
    if c == '\u{1F53A}' {
        Some(Priority::Highest)
    } else if c == '\u{23EB}' {
        Some(Priority::High)
    } else if c == '\u{1F53C}' {
        Some(Priority::Medium)
    } else if c == '\u{1F53D}' {
        Some(Priority::Low)
    } else if c == '\u{23EC}' {
        Some(Priority::Lowest)
    } else {
        None
    }
}

/// The date field that `c` marks.
pub open spec fn date_field_of(c: char) -> Option<DateField> {
    if c == '\u{2795}' {
        Some(DateField::Created)
    } else if c == '\u{1F6EB}' {
        Some(DateField::Start)
    } else if c == '\u{23F3}' {
        Some(DateField::Scheduled)
    } else if c == '\u{1F4C5}' {
        Some(DateField::Due)
    } else if c == '\u{2705}' {
        Some(DateField::Done)
    } else if c == '\u{274C}' {
        Some(DateField::Cancelled)
    } else {
        None
    }
}

/// `c` is one of the fourteen field markers.
pub open spec fn is_field_char(c: char) -> bool {
    priority_of(c) is Some || date_field_of(c) is Some || c == recurrence_char() || c == id_char()
        || c == depends_char()
}

/// The date written by the first ten bytes of `s`, as chrono reads it.
pub open spec fn date_after(s: Seq<char>) -> Option<Date> {
    match bytes_prefix_end(s, 10) {
        Some(k) => chrono_parse_date(s.take(k)),
        None => None,
    }
}

/// A field marker at offset `q` of `c` that opens the field section: a
/// priority followed by a space, another marker or the end; a date marker
/// followed by a space and a date; any other marker followed by a space.
pub open spec fn field_starts_at(c: Seq<char>, q: int) -> bool {
    &&& 0 <= q < c.len()
    &&& if priority_of(c[q]) is Some {
        q + 1 == c.len() || c[q + 1] == ' ' || is_field_char(c[q + 1])
    } else if date_field_of(c[q]) is Some {
        q + 1 < c.len() && c[q + 1] == ' ' && date_after(c.skip(q + 2)) is Some
    } else if c[q] == recurrence_char() || c[q] == id_char() || c[q] == depends_char() {
        q + 1 < c.len() && c[q + 1] == ' '
    } else {
        false
    }
}

/// The first offset at or after `p` where the field section starts, or
/// `c.len()`.
pub open spec fn fields_boundary(c: Seq<char>, p: int) -> int
    decreases c.len() - p,
{
    if p < 0 || p >= c.len() {
        c.len() as int
    } else if field_starts_at(c, p) {
        p
    } else {
        fields_boundary(c, p + 1)
    }
}

/// The first offset at or after `p` holding any field marker, or `s.len()`.
pub open spec fn next_marker(s: Seq<char>, p: int) -> int
    decreases s.len() - p,
{
    if p < 0 || p >= s.len() {
        s.len() as int
    } else if is_field_char(s[p]) {
        p
    } else {
        next_marker(s, p + 1)
    }
}

/// The comma-separated ids of `s`, trimmed, empty ones dropped.
pub open spec fn comma_ids(s: Seq<char>) -> Seq<Seq<char>>
    decreases s.len(),
{
    let k = find_from(s, ',', 0);
    let piece = trim(s.take(k));
    let head = if piece.len() > 0 { seq![piece] } else { Seq::empty() };
    if k < s.len() {
        proof {
            crate::text::lemma_find_from_bounds(s, ',', 0);
        }
        head + comma_ids(s.skip(k + 1))
    } else {
        head
    }
}

/// The fields read so far from a field section.
pub struct Fields {
    pub priority: Option<Priority>,
    pub recurrence: Option<Seq<char>>,
    pub created: Option<Date>,
    pub start: Option<Date>,
    pub scheduled: Option<Date>,
    pub due: Option<Date>,
    pub done: Option<Date>,
    pub cancelled: Option<Date>,
    pub id: Option<Seq<char>>,
    pub depends_on: Seq<Seq<char>>,
    pub raw_trailing: Option<Seq<char>>,
}

pub open spec fn no_fields() -> Fields {
    Fields {
        priority: None,
        recurrence: None,
        created: None,
        start: None,
        scheduled: None,
        due: None,
        done: None,
        cancelled: None,
        id: None,
        depends_on: Seq::empty(),
        raw_trailing: None,
    }
}

/// `f` with date field `which` set to `d`.
pub open spec fn set_date(f: Fields, which: DateField, d: Date) -> Fields {
    match which {
        DateField::Created => Fields { created: Some(d), ..f },
        DateField::Start => Fields { start: Some(d), ..f },
        DateField::Scheduled => Fields { scheduled: Some(d), ..f },
        DateField::Due => Fields { due: Some(d), ..f },
        DateField::Done => Fields { done: Some(d), ..f },
        DateField::Cancelled => Fields { cancelled: Some(d), ..f },
    }
}

/// The value of a text field starting at `p` of `s`, up to the next marker.
pub open spec fn text_value(s: Seq<char>, p: int) -> Seq<char> {
    trim_end(s.subrange(p, next_marker(s, p)))
}

/// Read the field section `s` from offset `pos` on, starting from `f`.
///
/// Spaces between fields are skipped (but kept once unknown text has
/// started); a priority is taken once; a date marker with a space and a
/// date sets that date; `🔁`, `🆔` and `⛔` with a space take the text up to
/// the next marker; anything else is unknown text, kept verbatim.
pub open spec fn read_fields(s: Seq<char>, pos: int, f: Fields) -> Fields
    decreases s.len() - pos,
{
    if pos < 0 || pos >= s.len() {
        f
    } else if s[pos] == ' ' {
        read_fields(
            s,
            pos + 1,
            Fields {
                raw_trailing: match f.raw_trailing {
                    Some(r) => Some(r.push(' ')),
                    None => None,
                },
                ..f
            },
        )
    } else if priority_of(s[pos]) is Some {
        read_fields(
            s,
            pos + 1,
            if f.priority is None {
                Fields { priority: priority_of(s[pos]), ..f }
            } else {
                f
            },
        )
    } else if date_field_of(s[pos]) is Some && pos + 1 < s.len() && s[pos + 1] == ' ' && date_after(
        s.skip(pos + 2),
    ) is Some {
        let k = bytes_prefix_end(s.skip(pos + 2), 10)->0;
        proof {
            crate::text::lemma_bytes_prefix_end(s.skip(pos + 2), 10);
        }
        read_fields(
            s,
            pos + 2 + k,
            set_date(f, date_field_of(s[pos])->0, date_after(s.skip(pos + 2))->0),
        )
    } else if (s[pos] == recurrence_char() || s[pos] == id_char() || s[pos] == depends_char()) && pos
        + 1 < s.len() && s[pos + 1] == ' ' {
        let v = text_value(s, pos + 2);
        let f2 = if s[pos] == recurrence_char() {
            Fields { recurrence: Some(v), ..f }
        } else if s[pos] == id_char() {
            Fields { id: Some(v), ..f }
        } else {
            Fields { depends_on: comma_ids(v), ..f }
        };
        proof {
            lemma_next_marker(s, pos + 2);
        }
        read_fields(s, next_marker(s, pos + 2), f2)
    } else {
        read_fields(
            s,
            pos + 1,
            Fields {
                raw_trailing: match f.raw_trailing {
                    Some(r) => Some(r.push(s[pos])),
                    None => Some(seq![s[pos]]),
                },
                ..f
            },
        )
    }
}

pub proof fn lemma_next_marker(s: Seq<char>, p: int)
    requires
        0 <= p,
    ensures
        p <= s.len() ==> p <= next_marker(s, p) <= s.len(),
        p > s.len() ==> next_marker(s, p) == s.len(),
        next_marker(s, p) < s.len() ==> is_field_char(s[next_marker(s, p)]),
        forall|k: int| p <= k < next_marker(s, p) ==> !is_field_char(#[trigger] s[k]),
    decreases s.len() - p,
{
    if p < s.len() && !is_field_char(s[p]) {
        lemma_next_marker(s, p + 1);
    }
}

/// A block-link candidate: `^` followed by at least one alphanumeric or
/// `-` character.
pub open spec fn is_block_link(cand: Seq<char>) -> bool {
    &&& cand.len() > 1
    &&& cand[0] == '^'
    &&& forall|i: int| 1 <= i < cand.len() ==> unicode_alnum(#[trigger] cand[i]) || cand[i] == '-'
}

/// `s` without its trailing ` ^identifier` block link, and the identifier.
pub open spec fn split_block_link(s: Seq<char>) -> (Seq<char>, Option<Seq<char>>) {
    let t = trim_end(s);
    let sp = last_index(t, ' ', t.len() as int);
    if sp >= 0 && is_block_link(t.skip(sp + 1)) {
        (t.take(sp), Some(t.skip(sp + 2)))
    } else {
        (t, None)
    }
}

/// The status that checkbox character `c` marks (unknown ones are open).
pub open spec fn status_of(c: char) -> Status {
    if c == ' ' {
        Status::Open
    } else if c == 'x' || c == 'X' {
        Status::Done
    } else if c == '/' {
        Status::InProgress
    } else if c == '-' {
        Status::Cancelled
    } else {
        Status::Open
    }
}

/// A tag character: alphanumeric, `_`, `-` or `/`.
pub open spec fn is_tag_char(c: char) -> bool {
    unicode_alnum(c) || c == '_' || c == '-' || c == '/'
}

/// The first offset at or after `p` that does not hold a tag character, or
/// `s.len()`.
pub open spec fn tag_end(s: Seq<char>, p: int) -> int
    decreases s.len() - p,
{
    if p < 0 || p >= s.len() {
        s.len() as int
    } else if is_tag_char(s[p]) {
        tag_end(s, p + 1)
    } else {
        p
    }
}

pub proof fn lemma_tag_end(s: Seq<char>, p: int)
    requires
        0 <= p <= s.len(),
    ensures
        p <= tag_end(s, p) <= s.len(),
    decreases s.len() - p,
{
    if p < s.len() && is_tag_char(s[p]) {
        lemma_tag_end(s, p + 1);
    }
}

/// The hashtags of `s` from offset `pos` on: each `#` followed by a run of
/// tag characters yields that run.
pub open spec fn tags_from(s: Seq<char>, pos: int) -> Seq<Seq<char>>
    decreases s.len() - pos,
{
    if pos < 0 || pos >= s.len() {
        Seq::empty()
    } else if s[pos] == '#' {
        let e = tag_end(s, pos + 1);
        proof {
            lemma_tag_end(s, pos + 1);
        }
        if e > pos + 1 {
            seq![s.subrange(pos + 1, e)] + tags_from(s, e)
        } else {
            tags_from(s, pos + 1)
        }
    } else {
        tags_from(s, pos + 1)
    }
}

/// What parsing line `line` of `file` yields: the task, or `None` when the
/// line is not a task line.
pub open spec fn parse_task(line: Seq<char>, file: Seq<char>, lineno: nat) -> Option<TaskSpec> {
    let tl = strip_trailing(strip_trailing(line, '\n'), '\r');
    let cs = first_non_ascii_ws(tl, 0);
    let s = tl.skip(cs);
    if !(s.len() >= 6 && s[0] == '-' && s[1] == ' ' && s[2] == '[' && s[4] == ']' && s[5] == ' ') {
        None
    } else {
        let (content, bl) = split_block_link(s.skip(6));
        let b = fields_boundary(content, 0);
        let description = trim_end(content.take(b));
        let f = read_fields(trim_start(content.skip(b)), 0, no_fields());
        Some(
            TaskSpec {
                description,
                status: status_of(s[3]),
                priority: f.priority,
                tags: tags_from(description, 0),
                created: f.created,
                start: f.start,
                scheduled: f.scheduled,
                due: f.due,
                done: f.done,
                cancelled: f.cancelled,
                recurrence: f.recurrence,
                id: f.id,
                depends_on: f.depends_on,
                on_completion: None,
                block_link: bl,
                raw_trailing: f.raw_trailing,
                source_file: file,
                source_line: lineno,
                indent_level: cs as nat,
                parent: None,
            },
        )
    }
}

/// The checkbox character of status `s`.
pub open spec fn status_char(s: Status) -> char {
    match s {
        Status::Open => ' ',
        Status::Done => 'x',
        Status::InProgress => '/',
        Status::Cancelled => '-',
    }
}

/// ` <marker> <value>`.
pub open spec fn field_text(marker: char, v: Seq<char>) -> Seq<char> {
    seq![' ', marker, ' '] + v
}

/// An optional date field, rendered.
pub open spec fn date_part(which: DateField, d: Option<Date>) -> Seq<char> {
    match d {
        Some(x) => field_text(date_char(which), date_text(x)),
        None => Seq::empty(),
    }
}

/// `ids` joined with commas.
pub open spec fn join_commas(ids: Seq<Seq<char>>) -> Seq<char>
    decreases ids.len(),
{
    if ids.len() == 0 {
        Seq::empty()
    } else if ids.len() == 1 {
        ids[0]
    } else {
        join_commas(ids.drop_last()) + seq![','] + ids.last()
    }
}

/// The priority, recurrence and date fields of `t`, rendered in canonical
/// order, each after a space.
pub open spec fn leading_fields(t: TaskSpec) -> Seq<char> {
    let pri = match t.priority {
        Some(p) => seq![' ', priority_char(p)],
        None => Seq::empty(),
    };
    let rec = match t.recurrence {
        Some(r) => field_text(recurrence_char(), r),
        None => Seq::empty(),
    };
    pri + rec + date_fields(t.created, t.start, t.scheduled, t.due, t.done, t.cancelled)
}

/// The six date fields, rendered in canonical order.
pub open spec fn date_fields(
    created: Option<Date>,
    start: Option<Date>,
    scheduled: Option<Date>,
    due: Option<Date>,
    done: Option<Date>,
    cancelled: Option<Date>,
) -> Seq<char> {
    date_part(DateField::Created, created) + date_part(DateField::Start, start) + date_part(
        DateField::Scheduled,
        scheduled,
    ) + date_part(DateField::Due, due) + date_part(DateField::Done, done) + date_part(
        DateField::Cancelled,
        cancelled,
    )
}

/// The id, dependency and unknown fields of `t`, rendered.
pub open spec fn trailing_fields(t: TaskSpec) -> Seq<char> {
    let idp = match t.id {
        Some(i) => field_text(id_char(), i),
        None => Seq::empty(),
    };
    let dep = if t.depends_on.len() > 0 {
        field_text(depends_char(), join_commas(t.depends_on))
    } else {
        Seq::empty()
    };
    let raw = match t.raw_trailing {
        Some(r) => seq![' '] + r,
        None => Seq::empty(),
    };
    idp + dep + raw
}

/// The canonical line of task `t`: indent, checkbox, description, then the
/// fields in canonical order, each after a space, then the block link.
pub open spec fn task_line(t: TaskSpec) -> Seq<char> {
    let blp = match t.block_link {
        Some(b) => seq![' ', '^'] + b,
        None => Seq::empty(),
    };
    Seq::new(t.indent_level, |i: int| ' ') + seq!['-', ' ', '[', status_char(t.status), ']', ' ']
        + t.description + leading_fields(t) + trailing_fields(t) + blp
}

// ── executable parsing ───────────────────────────────────────────────────────

fn priority_of_exec(c: char) -> (r: Option<Priority>)
    ensures
        r == priority_of(c),
{
    if c == '\u{1F53A}' {
        Some(Priority::Highest)
    } else if c == '\u{23EB}' {
        Some(Priority::High)
    } else if c == '\u{1F53C}' {
        Some(Priority::Medium)
    } else if c == '\u{1F53D}' {
        Some(Priority::Low)
    } else if c == '\u{23EC}' {
        Some(Priority::Lowest)
    } else {
        None
    }
}

fn date_field_of_exec(c: char) -> (r: Option<DateField>)
    ensures
        r == date_field_of(c),
{
    if c == '\u{2795}' {
        Some(DateField::Created)
    } else if c == '\u{1F6EB}' {
        Some(DateField::Start)
    } else if c == '\u{23F3}' {
        Some(DateField::Scheduled)
    } else if c == '\u{1F4C5}' {
        Some(DateField::Due)
    } else if c == '\u{2705}' {
        Some(DateField::Done)
    } else if c == '\u{274C}' {
        Some(DateField::Cancelled)
    } else {
        None
    }
}

fn is_text_marker(c: char) -> (r: bool)
    ensures
        r == (c == recurrence_char() || c == id_char() || c == depends_char()),
{
    c == '\u{1F501}' || c == '\u{1F194}' || c == '\u{26D4}'
}

fn is_field_char_exec(c: char) -> (r: bool)
    ensures
        r == is_field_char(c),
{
    priority_of_exec(c).is_some() || date_field_of_exec(c).is_some() || is_text_marker(c)
}

/// The date written by the first ten bytes of `s[lo..]`, and where those
/// bytes end.
fn date_after_exec(s: &Vec<char>, lo: usize) -> (r: Option<(Date, usize)>)
    requires
        lo <= s@.len(),
    ensures
        match r {
            Some((d, k)) => date_after(s@.skip(lo as int)) == Some(d) && lo <= k <= s@.len()
                && bytes_prefix_end(s@.skip(lo as int), 10) == Some(k - lo) && valid_date(d),
            None => date_after(s@.skip(lo as int)) is None,
        },
{
    match prefix_bytes_end(s, lo, 10) {
        Some(k) => {
            let t = string_of(s, lo, k);
            proof {
                assert(s@.subrange(lo as int, k as int) =~= s@.skip(lo as int).take(k - lo));
            }
            match parse_iso_date(t.as_str()) {
                Some(d) => Some((d, k)),
                None => None,
            }
        },
        None => None,
    }
}

fn field_starts_at_exec(c: &Vec<char>, q: usize) -> (r: bool)
    requires
        q < c@.len(),
    ensures
        r == field_starts_at(c@, q as int),
{
    let n = c.len();
    let ch = c[q];
    if priority_of_exec(ch).is_some() {
        q + 1 == n || c[q + 1] == ' ' || is_field_char_exec(c[q + 1])
    } else if date_field_of_exec(ch).is_some() {
        q + 1 < n && c[q + 1] == ' ' && date_after_exec(c, q + 2).is_some()
    } else if is_text_marker(ch) {
        q + 1 < n && c[q + 1] == ' '
    } else {
        false
    }
}

fn fields_boundary_exec(c: &Vec<char>) -> (r: usize)
    ensures
        r as int == fields_boundary(c@, 0),
        r <= c@.len(),
{
    let mut p: usize = 0;
    while p < c.len()
        invariant
            p <= c@.len(),
            fields_boundary(c@, p as int) == fields_boundary(c@, 0),
        decreases c@.len() - p,
    {
        if field_starts_at_exec(c, p) {
            return p;
        }
        p += 1;
    }
    p
}

fn next_marker_exec(s: &Vec<char>, p0: usize) -> (r: usize)
    requires
        p0 <= s@.len(),
    ensures
        r as int == next_marker(s@, p0 as int),
        p0 <= r <= s@.len(),
{
    let mut p = p0;
    while p < s.len()
        invariant
            p0 <= p <= s@.len(),
            next_marker(s@, p as int) == next_marker(s@, p0 as int),
        decreases s@.len() - p,
    {
        if is_field_char_exec(s[p]) {
            return p;
        }
        p += 1;
    }
    p
}

/// [`comma_ids`].
fn comma_ids_exec(s: &Vec<char>) -> (r: Vec<String>)
    ensures
        strings_view(r@) == comma_ids(s@),
{
    let n = s.len();
    let mut out: Vec<String> = Vec::new();
    let mut p: usize = 0;
    let mut fin = false;
    proof {
        assert(s@.skip(0) =~= s@);
        assert(strings_view(out@) + comma_ids(s@) =~= comma_ids(s@));
    }
    while !fin
        invariant
            p <= n,
            n == s@.len(),
            !fin ==> comma_ids(s@) == strings_view(out@) + comma_ids(s@.skip(p as int)),
            fin ==> comma_ids(s@) == strings_view(out@),
        decreases (n - p) as int + if fin { 0int } else { 1int },
    {
        let ghost rest = s@.skip(p as int);
        let k = crate::text::find_char_from(s, ',', p);
        let piece_raw = slice_vec(s, p, k);
        let piece = trim_vec(&piece_raw);
        proof {
            crate::text::lemma_find_from_bounds(rest, ',', 0);
            crate::text::lemma_find_from_bounds(s@, ',', p as int);
            assert(find_from(rest, ',', 0) == k - p) by {
                lemma_find_from_shift(s@, ',', p as int, p as int);
            }
            assert(piece_raw@ =~= rest.take(k - p));
        }
        let ghost before = strings_view(out@);
        if piece.len() > 0 {
            let ps = string_of_all(&piece);
            proof {
                assert(strings_view(out@.push(ps)) =~= strings_view(out@).push(ps@));
            }
            out.push(ps);
        }
        if k < n {
            proof {
                assert(rest.skip(k - p + 1) =~= s@.skip(k + 1));
                let head = if piece@.len() > 0 { seq![piece@] } else { Seq::<Seq<char>>::empty() };
                assert(comma_ids(rest) == head + comma_ids(rest.skip(k - p + 1)));
                assert(before + (head + comma_ids(s@.skip(k + 1))) =~= strings_view(out@) + comma_ids(s@.skip(k + 1)));
            }
            p = k + 1;
        } else {
            proof {
                let head = if piece@.len() > 0 { seq![piece@] } else { Seq::<Seq<char>>::empty() };
                assert(comma_ids(rest) == head);
                assert(before + head =~= strings_view(out@));
            }
            fin = true;
        }
    }
    out
}

proof fn lemma_find_from_shift(s: Seq<char>, c: char, lo: int, p: int)
    requires
        0 <= lo <= p <= s.len(),
    ensures
        find_from(s.skip(lo), c, p - lo) == find_from(s, c, p) - lo,
    decreases s.len() - p,
{
    if p < s.len() && s[p] != c {
        lemma_find_from_shift(s, c, lo, p + 1);
    }
}

/// The fields read so far, as executable values (see [`Fields`]).
struct FieldVals {
    priority: Option<Priority>,
    recurrence: Option<String>,
    created: Option<Date>,
    start: Option<Date>,
    scheduled: Option<Date>,
    due: Option<Date>,
    done: Option<Date>,
    cancelled: Option<Date>,
    id: Option<String>,
    depends_on: Vec<String>,
    raw_trailing: Option<String>,
}

impl View for FieldVals {
    type V = Fields;

    closed spec fn view(&self) -> Fields {
        Fields {
            priority: self.priority,
            recurrence: opt_view(self.recurrence),
            created: self.created,
            start: self.start,
            scheduled: self.scheduled,
            due: self.due,
            done: self.done,
            cancelled: self.cancelled,
            id: opt_view(self.id),
            depends_on: strings_view(self.depends_on@),
            raw_trailing: opt_view(self.raw_trailing),
        }
    }
}

impl FieldVals {
    spec fn dates_valid(&self) -> bool {
        &&& opt_valid(self.created)
        &&& opt_valid(self.start)
        &&& opt_valid(self.scheduled)
        &&& opt_valid(self.due)
        &&& opt_valid(self.done)
        &&& opt_valid(self.cancelled)
    }
}

fn push_opt(raw: Option<String>, c: char, start_new: bool) -> (r: Option<String>)
    ensures
        opt_view(r) == match raw {
            Some(x) => Some(x@.push(c)),
            None => if start_new { Some(seq![c]) } else { None },
        },
{
    match raw {
        Some(x) => {
            let mut y = x;
            push_char(&mut y, c);
            Some(y)
        },
        None => if start_new {
            let mut y = String::new();
            push_char(&mut y, c);
            proof {
                assert(y@ =~= seq![c]);
            }
            Some(y)
        } else {
            None
        },
    }
}

/// [`read_fields`] from the start of `fs`.
fn read_fields_exec(fs: &Vec<char>) -> (r: FieldVals)
    ensures
        r@ == read_fields(fs@, 0, no_fields()),
        r.dates_valid(),
{
    let n = fs.len();
    let mut f = FieldVals {
        priority: None,
        recurrence: None,
        created: None,
        start: None,
        scheduled: None,
        due: None,
        done: None,
        cancelled: None,
        id: None,
        depends_on: Vec::new(),
        raw_trailing: None,
    };
    proof {
        assert(strings_view(f.depends_on@) =~= Seq::<Seq<char>>::empty());
        assert(f@ == no_fields());
    }
    let mut pos: usize = 0;
    while pos < n
        invariant
            pos <= n == fs@.len(),
            read_fields(fs@, 0, no_fields()) == read_fields(fs@, pos as int, f@),
            f.dates_valid(),
        decreases n - pos,
    {
        let c = fs[pos];
        if c == ' ' {
            let raw = push_opt(f.raw_trailing, ' ', false);
            f = FieldVals { raw_trailing: raw, ..f };
            pos += 1;
            continue;
        }
        let pr = priority_of_exec(c);
        if pr.is_some() {
            if f.priority.is_none() {
                f = FieldVals { priority: pr, ..f };
            }
            pos += 1;
            continue;
        }
        let df = date_field_of_exec(c);
        if df.is_some() && pos + 1 < n && fs[pos + 1] == ' ' {
            match date_after_exec(fs, pos + 2) {
                Some((d, k)) => {
                    proof {
                        crate::text::lemma_bytes_prefix_end(fs@.skip(pos + 2), 10);
                    }
                    match df {
                        Some(DateField::Created) => {
                            f = FieldVals { created: Some(d), ..f };
                        },
                        Some(DateField::Start) => {
                            f = FieldVals { start: Some(d), ..f };
                        },
                        Some(DateField::Scheduled) => {
                            f = FieldVals { scheduled: Some(d), ..f };
                        },
                        Some(DateField::Due) => {
                            f = FieldVals { due: Some(d), ..f };
                        },
                        Some(DateField::Done) => {
                            f = FieldVals { done: Some(d), ..f };
                        },
                        _ => {
                            f = FieldVals { cancelled: Some(d), ..f };
                        },
                    }
                    pos = k;
                    continue;
                },
                None => {},
            }
        }
        if is_text_marker(c) && pos + 1 < n && fs[pos + 1] == ' ' {
            let e = next_marker_exec(fs, pos + 2);
            let ve = skip_ws_back(fs, pos + 2, e);
            let v = slice_vec(fs, pos + 2, ve);
            proof {
                assert(v@ == text_value(fs@, pos + 2));
                lemma_next_marker(fs@, pos + 2);
            }
            if c == '\u{1F501}' {
                f = FieldVals { recurrence: Some(string_of_all(&v)), ..f };
            } else if c == '\u{1F194}' {
                f = FieldVals { id: Some(string_of_all(&v)), ..f };
            } else {
                f = FieldVals { depends_on: comma_ids_exec(&v), ..f };
            }
            pos = e;
            continue;
        }
        let raw = push_opt(f.raw_trailing, c, true);
        f = FieldVals { raw_trailing: raw, ..f };
        pos += 1;
    }
    f
}

/// [`split_block_link`].
fn split_block_link_exec(body: &Vec<char>) -> (r: (Vec<char>, Option<String>))
    ensures
        (r.0@, opt_view(r.1)) == split_block_link(body@),
{
    let te = skip_ws_back(body, 0, body.len());
    let t = slice_vec(body, 0, te);
    proof {
        assert(body@.subrange(0, body@.len() as int) =~= body@);
    }
    match rfind_char(&t, ' ') {
        Some(sp) => {
            let cand = slice_vec(&t, sp + 1, t.len());
            proof {
                assert(cand@ =~= t@.skip(sp + 1));
            }
            let mut ok = cand.len() > 1 && cand[0] == '^';
            if ok {
                let mut i: usize = 1;
                while i < cand.len()
                    invariant
                        1 <= i <= cand@.len(),
                        ok == forall|j: int| 1 <= j < i ==> unicode_alnum(#[trigger] cand@[j]) || cand@[j] == '-',
                    decreases cand@.len() - i,
                {
                    let c = cand[i];
                    let a = is_alphanumeric(c);
                    ok = ok && (a || c == '-');
                    i += 1;
                }
            }
            if ok {
                let head = slice_vec(&t, 0, sp);
                let id = string_of(&t, sp + 2, t.len());
                proof {
                    assert(head@ =~= t@.take(sp as int));
                    assert(id@ =~= t@.skip(sp + 2));
                }
                (head, Some(id))
            } else {
                (t, None)
            }
        },
        None => (t, None),
    }
}

/// [`tag_end`].
fn tag_end_exec(s: &Vec<char>, p0: usize) -> (r: usize)
    requires
        p0 <= s@.len(),
    ensures
        r as int == tag_end(s@, p0 as int),
        p0 <= r <= s@.len(),
{
    let mut p = p0;
    while p < s.len()
        invariant
            p0 <= p <= s@.len(),
            tag_end(s@, p as int) == tag_end(s@, p0 as int),
        decreases s@.len() - p,
    {
        let c = s[p];
        if !(is_alphanumeric(c) || c == '_' || c == '-' || c == '/') {
            return p;
        }
        p += 1;
    }
    p
}

/// The hashtags of `s` (see [`tags_from`]).
fn tags_of(s: &Vec<char>) -> (r: Vec<String>)
    ensures
        strings_view(r@) == tags_from(s@, 0),
{
    let n = s.len();
    let mut out: Vec<String> = Vec::new();
    let mut pos: usize = 0;
    while pos < n
        invariant
            pos <= n == s@.len(),
            tags_from(s@, 0) == strings_view(out@) + tags_from(s@, pos as int),
        decreases n - pos,
    {
        if s[pos] == '#' {
            let e = tag_end_exec(s, pos + 1);
            if e > pos + 1 {
                let t = string_of(s, pos + 1, e);
                proof {
                    assert(strings_view(out@.push(t)) =~= strings_view(out@).push(t@));
                    assert(strings_view(out@) + tags_from(s@, pos as int) =~= strings_view(out@).push(t@)
                        + tags_from(s@, e as int));
                }
                out.push(t);
                pos = e;
            } else {
                pos += 1;
            }
        } else {
            pos += 1;
        }
    }
    proof {
        assert(strings_view(out@) + Seq::<Seq<char>>::empty() =~= strings_view(out@));
    }
    out
}

/// Extract the hashtags of a description (`#work` gives `work`); a tag is
/// a run of alphanumeric, `_`, `-` and `/` characters after a `#`.
pub fn extract_tags(description: &str) -> (r: Vec<String>)
    ensures
        strings_view(r@) == tags_from(description@, 0),
{
    let chars = to_chars(description);
    tags_of(&chars)
}

/// [`parse_task`] on a line of text.
pub fn parse_line(line: &str, ctx: ParseContext) -> (r: Option<Task>)
    ensures
        match (r, parse_task(line@, ctx.source_file@, ctx.source_line as nat)) {
            (Some(t), Some(ts)) => t@ == ts,
            (None, None) => true,
            _ => false,
        },
        r matches Some(t) ==> dates_valid(t@),
{
    let chars = to_chars(line);
    let mut e = chars.len();
    proof {
        assert(chars@.take(e as int) =~= chars@);
    }
    while e > 0 && chars[e - 1] == '\n'
        invariant
            e <= chars@.len(),
            strip_trailing(chars@.take(e as int), '\n') == strip_trailing(chars@, '\n'),
        decreases e,
    {
        proof {
            assert(chars@.take(e as int).drop_last() =~= chars@.take(e - 1));
        }
        e -= 1;
    }
    let ghost t1 = chars@.take(e as int);
    let mut e2 = e;
    proof {
        assert(t1.take(e2 as int) =~= t1);
    }
    while e2 > 0 && chars[e2 - 1] == '\r'
        invariant
            e2 <= e <= chars@.len(),
            t1 == chars@.take(e as int),
            strip_trailing(t1.take(e2 as int), '\r') == strip_trailing(t1, '\r'),
        decreases e2,
    {
        proof {
            assert(t1.take(e2 as int).drop_last() =~= t1.take(e2 - 1));
        }
        e2 -= 1;
    }
    let tl = slice_vec(&chars, 0, e2);
    proof {
        if e2 > 0 {
            assert(t1.take(e2 as int)[e2 - 1] != '\r');
        }
        if e > 0 {
            assert(chars@.take(e as int)[e - 1] != '\n');
        }
        assert(strip_trailing(t1, '\n') == t1) by {
            if t1.len() > 0 {
                assert(t1.last() != '\n');
            }
        }
        assert(strip_trailing(t1.take(e2 as int), '\r') == t1.take(e2 as int));
        assert(tl@ =~= t1.take(e2 as int));
    }
    let cs = first_non_ascii_ws_exec(&tl);
    let s = slice_vec(&tl, cs, tl.len());
    proof {
        assert(s@ =~= tl@.skip(cs as int));
    }
    if !(s.len() >= 6 && s[0] == '-' && s[1] == ' ' && s[2] == '[' && s[4] == ']' && s[5] == ' ') {
        return None;
    }
    let sc = s[3];
    let status = if sc == ' ' {
        Status::Open
    } else if sc == 'x' || sc == 'X' {
        Status::Done
    } else if sc == '/' {
        Status::InProgress
    } else if sc == '-' {
        Status::Cancelled
    } else {
        Status::Open
    };
    let body = slice_vec(&s, 6, s.len());
    proof {
        assert(body@ =~= s@.skip(6));
    }
    let (content, bl) = split_block_link_exec(&body);
    let b = fields_boundary_exec(&content);
    let de = skip_ws_back(&content, 0, b);
    let desc = slice_vec(&content, 0, de);
    let fs0 = skip_ws(&content, b, content.len());
    let fs = slice_vec(&content, fs0, content.len());
    proof {
        assert(content@.subrange(0, b as int) =~= content@.take(b as int));
        assert(content@.subrange(b as int, content@.len() as int) =~= content@.skip(b as int));
    }
    let f = read_fields_exec(&fs);
    let tags = tags_of(&desc);
    let description = string_of_all(&desc);
    let t = Task {
        description,
        status,
        priority: f.priority,
        tags,
        created: f.created,
        start: f.start,
        scheduled: f.scheduled,
        due: f.due,
        done: f.done,
        cancelled: f.cancelled,
        recurrence: f.recurrence,
        id: f.id,
        depends_on: f.depends_on,
        on_completion: None,
        block_link: bl,
        raw_trailing: f.raw_trailing,
        source_file: ctx.source_file,
        source_line: ctx.source_line,
        indent_level: cs,
        parent: None,
    };
    Some(t)
}

// ── serializing ──────────────────────────────────────────────────────────────

/// Append ` <marker> <v>`.
fn push_field(out: &mut String, marker: char, v: &str)
    ensures
        final(out)@ == old(out)@ + field_text(marker, v@),
{
    push_char(out, ' ');
    push_char(out, marker);
    push_char(out, ' ');
    push_str(out, v);
    proof {
        assert(final(out)@ =~= old(out)@ + field_text(marker, v@));
    }
}

fn date_marker(which: DateField) -> (r: char)
    ensures
        r == date_char(which),
{
    match which {
        DateField::Created => '\u{2795}',
        DateField::Start => '\u{1F6EB}',
        DateField::Scheduled => '\u{23F3}',
        DateField::Due => '\u{1F4C5}',
        DateField::Done => '\u{2705}',
        DateField::Cancelled => '\u{274C}',
    }
}

fn push_date_part(out: &mut String, which: DateField, d: Option<Date>)
    ensures
        final(out)@ == old(out)@ + date_part(which, d),
{
    match d {
        Some(x) => {
            let t = x.to_string();
            push_field(out, date_marker(which), t.as_str());
        },
        None => {
            proof {
                assert(old(out)@ + date_part(which, d) =~= old(out)@);
            }
        },
    }
}

/// `ids` joined with commas.
fn join_commas_exec(ids: &Vec<String>) -> (r: String)
    ensures
        r@ == join_commas(strings_view(ids@)),
{
    let ghost v = strings_view(ids@);
    let mut out = String::new();
    let mut k: usize = 0;
    proof {
        assert(v.take(0) =~= Seq::<Seq<char>>::empty());
    }
    while k < ids.len()
        invariant
            k <= ids@.len() == v.len(),
            v == strings_view(ids@),
            out@ == join_commas(v.take(k as int)),
        decreases ids@.len() - k,
    {
        if k > 0 {
            push_char(&mut out, ',');
        }
        push_str(&mut out, ids[k].as_str());
        proof {
            let t = v.take(k + 1);
            assert(t.drop_last() =~= v.take(k as int));
            assert(t.last() == ids@[k as int]@);
            if k == 0 {
                assert(t.len() == 1);
                assert(out@ =~= t[0]);
            } else {
                assert(out@ =~= join_commas(v.take(k as int)) + seq![','] + t.last());
            }
        }
        k += 1;
    }
    proof {
        assert(v.take(k as int) =~= v);
    }
    out
}

fn push_date_fields(
    out: &mut String,
    created: Option<Date>,
    start: Option<Date>,
    scheduled: Option<Date>,
    due: Option<Date>,
    done: Option<Date>,
    cancelled: Option<Date>,
)
    ensures
        final(out)@ == old(out)@ + date_fields(created, start, scheduled, due, done, cancelled),
{
    push_date_part(out, DateField::Created, created);
    push_date_part(out, DateField::Start, start);
    push_date_part(out, DateField::Scheduled, scheduled);
    push_date_part(out, DateField::Due, due);
    push_date_part(out, DateField::Done, done);
    push_date_part(out, DateField::Cancelled, cancelled);
    proof {
        assert(final(out)@ =~= old(out)@ + date_fields(created, start, scheduled, due, done, cancelled));
    }
}

fn push_leading_fields(out: &mut String, task: &Task)
    ensures
        final(out)@ == old(out)@ + leading_fields(task@),
{
    let ghost c0 = out@;
    match task.priority {
        Some(p) => {
            push_char(out, ' ');
            push_str(out, p.emoji());
        },
        None => {},
    }
    let ghost c1 = out@;
    match &task.recurrence {
        Some(r) => push_field(out, '\u{1F501}', r.as_str()),
        None => {},
    }
    let ghost c2 = out@;
    push_date_fields(out, task.created, task.start, task.scheduled, task.due, task.done, task.cancelled);
    proof {
        let pri = match task.priority {
            Some(p) => seq![' ', priority_char(p)],
            None => Seq::<char>::empty(),
        };
        let rec = match opt_view(task.recurrence) {
            Some(r) => field_text(recurrence_char(), r),
            None => Seq::<char>::empty(),
        };
        assert(c1 =~= c0 + pri);
        assert(c2 =~= c1 + rec);
        assert(out@ =~= c0 + (pri + rec + date_fields(task.created, task.start, task.scheduled, task.due, task.done, task.cancelled)));
    }
}

fn push_trailing_fields(out: &mut String, task: &Task)
    ensures
        final(out)@ == old(out)@ + trailing_fields(task@),
{
    let ghost t = task@;
    let ghost c0 = out@;
    match &task.id {
        Some(x) => push_field(out, '\u{1F194}', x.as_str()),
        None => {},
    }
    let ghost c1 = out@;
    if task.depends_on.len() > 0 {
        let j = join_commas_exec(&task.depends_on);
        push_field(out, '\u{26D4}', j.as_str());
    }
    let ghost c2 = out@;
    match &task.raw_trailing {
        Some(x) => {
            push_char(out, ' ');
            push_str(out, x.as_str());
        },
        None => {},
    }
    proof {
        let idp = match t.id {
            Some(x) => field_text(id_char(), x),
            None => Seq::<char>::empty(),
        };
        let dep = if t.depends_on.len() > 0 {
            field_text(depends_char(), join_commas(t.depends_on))
        } else {
            Seq::<char>::empty()
        };
        assert(c1 =~= c0 + idp);
        assert(c2 =~= c1 + dep);
        assert(out@ =~= c0 + trailing_fields(t));
    }
}

/// The canonical line of `task` (see [`task_line`]).
pub fn serialize_line(task: &Task) -> (r: String)
    ensures
        r@ == task_line(task@),
{
    let ghost t = task@;
    let mut out = String::new();
    let mut i: usize = 0;
    while i < task.indent_level
        invariant
            i <= task.indent_level,
            out@ == Seq::new(i as nat, |j: int| ' '),
        decreases task.indent_level - i,
    {
        push_char(&mut out, ' ');
        proof {
            assert(out@ =~= Seq::new((i + 1) as nat, |j: int| ' '));
        }
        i += 1;
    }
    let sc = match task.status {
        Status::Open => ' ',
        Status::Done => 'x',
        Status::InProgress => '/',
        Status::Cancelled => '-',
    };
    push_char(&mut out, '-');
    push_char(&mut out, ' ');
    push_char(&mut out, '[');
    push_char(&mut out, sc);
    push_char(&mut out, ']');
    push_char(&mut out, ' ');
    let ghost head = out@;
    push_str(&mut out, task.description.as_str());
    let ghost c1 = out@;
    push_leading_fields(&mut out, task);
    let ghost c2 = out@;
    push_trailing_fields(&mut out, task);
    let ghost c3 = out@;
    match &task.block_link {
        Some(b) => {
            push_char(&mut out, ' ');
            push_char(&mut out, '^');
            push_str(&mut out, b.as_str());
        },
        None => {},
    }
    proof {
        let blp = match t.block_link {
            Some(b) => seq![' ', '^'] + b,
            None => Seq::<char>::empty(),
        };
        assert(out@ =~= c3 + blp);
        assert(head =~= Seq::new(t.indent_level, |j: int| ' ') + seq!['-', ' ', '[', status_char(t.status), ']', ' ']);
        assert(out@ =~= head + t.description + leading_fields(t) + trailing_fields(t) + blp);
    }
    out
}

/// Emoji-format task parser and serializer, compatible with the Tasks
/// plugin's canonical output.
pub struct EmojiFormat;

impl TaskFormat for EmojiFormat {
    fn parse_line(&self, line: &str, ctx: ParseContext) -> (r: Option<Task>)
        ensures
            match (r, parse_task(line@, ctx.source_file@, ctx.source_line as nat)) {
                (Some(t), Some(ts)) => t@ == ts,
                (None, None) => true,
                _ => false,
            },
    {
        parse_line(line, ctx)
    }

    fn serialize_line(&self, task: &Task) -> (r: String)
        ensures
            r@ == task_line(task@),
    {
        serialize_line(task)
    }
}

} // verus!
