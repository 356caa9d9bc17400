//! Task creation and completion over the text of a note.
//!
//! Each operation takes a file's content and returns the new content;
//! reading and writing the file is the caller's.

use vstd::prelude::*;

use crate::date::{valid_date, Date};
use crate::markdown::{count_run, lemma_run_len_shift, run_len, strip_trailing};
use crate::task::emoji::{extract_tags, parse_line, parse_task, serialize_line, tags_from, task_line};
use crate::task::format::ParseContext;
use crate::text::decimal;
use crate::date::chrono_days_between;
use crate::task::recurrence::{
    next_after_checked, next_after_date, next_dates, opt_valid, parse_rule, primary_date, rec_error_view, rule_of, shift_date,
    RecurrenceError, RecurrenceErrorSpec, Rule,
};
use crate::task::{dates_valid, opt_view, strings_view, Priority, Status, Task, TaskSpec};
use crate::text::{
    chars_eq, lines, pieces, push_all, push_char, push_str, skip_ws, skip_ws_back, slice_vec, split_lines, str_eq, string_of,
    split_inclusive_lines, split_words, string_of_all, to_chars, trim_end, trim_start, words,
};

verus! {

// ── lines of a file ──────────────────────────────────────────────────────────

/// The lines of `content` as the task operations see them: each piece of
/// `split_inclusive('\n')` without its trailing `'\n'`s and then `'\r'`s.
pub open spec fn file_lines(content: Seq<char>) -> Seq<Seq<char>> {
    pieces(content).map_values(|p: Seq<char>| strip_trailing(strip_trailing(p, '\n'), '\r'))
}

/// `ls` joined with `'\n'`, plus a final `'\n'`.
pub open spec fn join_lines(ls: Seq<Seq<char>>) -> Seq<char>
    decreases ls.len(),
{
    if ls.len() == 0 {
        seq!['\n']
    } else if ls.len() == 1 {
        ls[0] + seq!['\n']
    } else {
        join_lines(ls.drop_last()).drop_last() + seq!['\n'] + ls.last() + seq!['\n']
    }
}

fn strip_line_end(p: &Vec<char>) -> (r: String)
    ensures
        r@ == strip_trailing(strip_trailing(p@, '\n'), '\r'),
{
    let mut e = p.len();
    proof {
        assert(p@.take(e as int) =~= p@);
    }
    while e > 0 && p[e - 1] == '\n'
        invariant
            e <= p@.len(),
            strip_trailing(p@.take(e as int), '\n') == strip_trailing(p@, '\n'),
        decreases e,
    {
        proof {
            assert(p@.take(e as int).drop_last() =~= p@.take(e - 1));
        }
        e -= 1;
    }
    let ghost t1 = p@.take(e as int);
    proof {
        if e > 0 {
            assert(t1.last() != '\n');
        }
        assert(strip_trailing(t1, '\n') == t1);
        assert(t1.take(e as int) =~= t1);
    }
    let mut e2 = e;
    while e2 > 0 && p[e2 - 1] == '\r'
        invariant
            e2 <= e <= p@.len(),
            t1 == p@.take(e as int),
            strip_trailing(t1.take(e2 as int), '\r') == strip_trailing(t1, '\r'),
        decreases e2,
    {
        proof {
            assert(t1.take(e2 as int).drop_last() =~= t1.take(e2 - 1));
        }
        e2 -= 1;
    }
    proof {
        if e2 > 0 {
            assert(t1.take(e2 as int).last() != '\r');
        }
        assert(strip_trailing(t1.take(e2 as int), '\r') == t1.take(e2 as int));
    }
    let r = crate::text::string_of(p, 0, e2);
    proof {
        assert(r@ =~= t1.take(e2 as int));
    }
    r
}

/// [`file_lines`] of `content`.
fn file_lines_exec(content: &str) -> (r: Vec<String>)
    ensures
        strings_view(r@) == file_lines(content@),
{
    let chars = to_chars(content);
    let ps = split_inclusive_lines(&chars);
    let mut out: Vec<String> = Vec::new();
    let mut k: usize = 0;
    while k < ps.len()
        invariant
            k <= ps@.len() == pieces(chars@).len(),
            chars@ == content@,
            forall|q: int| 0 <= q < ps@.len() ==> #[trigger] ps@[q]@ == pieces(chars@)[q],
            strings_view(out@) == file_lines(content@).take(k as int),
        decreases ps@.len() - k,
    {
        let l = strip_line_end(&ps[k]);
        proof {
            assert(strings_view(out@.push(l)) =~= strings_view(out@).push(l@));
            assert(file_lines(content@).take(k + 1) =~= file_lines(content@).take(k as int).push(l@));
        }
        out.push(l);
        k += 1;
    }
    proof {
        assert(file_lines(content@).take(k as int) =~= file_lines(content@));
    }
    out
}

/// [`join_lines`] of `ls`.
fn join_lines_exec(ls: &Vec<String>) -> (r: String)
    ensures
        r@ == join_lines(strings_view(ls@)),
{
    let ghost v = strings_view(ls@);
    let mut out = String::new();
    let mut k: usize = 0;
    while k < ls.len()
        invariant
            k <= ls@.len() == v.len(),
            v == strings_view(ls@),
            k > 0 ==> out@ == join_lines(v.take(k as int)).drop_last(),
            k == 0 ==> out@ == Seq::<char>::empty(),
        decreases ls@.len() - k,
    {
        let ghost before = out@;
        if k > 0 {
            push_char(&mut out, '\n');
        }
        push_str(&mut out, ls[k].as_str());
        proof {
            let t = v.take(k + 1);
            assert(t.drop_last() =~= v.take(k as int));
            assert(t.last() == ls@[k as int]@);
            if k == 0 {
                assert(join_lines(t) == t[0] + seq!['\n']);
                assert(out@ =~= join_lines(t).drop_last());
            } else {
                assert(join_lines(t) == join_lines(v.take(k as int)).drop_last() + seq!['\n'] + t.last() + seq!['\n']);
                assert(out@ =~= join_lines(t).drop_last());
            }
        }
        k += 1;
    }
    push_char(&mut out, '\n');
    proof {
        assert(v.take(k as int) =~= v);
        if k == 0 {
            assert(out@ =~= seq!['\n']);
        } else {
            let j = join_lines(v);
            assert(j.len() > 0) by {
                assert(j == j.drop_last() + seq!['\n']) by {
                    lemma_join_lines_ends(v);
                }
            }
            lemma_join_lines_ends(v);
            assert(out@ =~= j);
        }
    }
    out
}

proof fn lemma_join_lines_ends(ls: Seq<Seq<char>>)
    ensures
        join_lines(ls).len() > 0,
        join_lines(ls).last() == '\n',
        join_lines(ls) == join_lines(ls).drop_last() + seq!['\n'],
    decreases ls.len(),
{
    if ls.len() > 1 {
        lemma_join_lines_ends(ls.drop_last());
    }
    let j = join_lines(ls);
    assert(j =~= j.drop_last() + seq!['\n']);
}


// ── headings ─────────────────────────────────────────────────────────────────

/// What [`parse_heading`] reads from a line: after leading whitespace, one
/// to six `#`, a space, and the heading text with trailing whitespace
/// removed.
pub open spec fn heading_of(line: Seq<char>) -> Option<(nat, Seq<char>)> {
    let t = trim_start(line);
    let h = run_len(t, '#', 0);
    if 1 <= h <= 6 && h < t.len() && t[h as int] == ' ' {
        Some((h, trim_end(t.skip((h + 1) as int))))
    } else {
        None
    }
}

/// Parse a Markdown ATX heading line into its level and text (see
/// [`heading_of`]).
pub fn parse_heading(line: &str) -> (r: Option<(usize, String)>)
    ensures
        match (r, heading_of(line@)) {
            (Some((l, t)), Some((l2, t2))) => l == l2 && t@ == t2,
            (None, None) => true,
            _ => false,
        },
{
    let cs = to_chars(line);
    let n = cs.len();
    let st = skip_ws(&cs, 0, n);
    let h = count_run(&cs, '#', st);
    let ghost t = cs@.subrange(st as int, n as int);
    proof {
        assert(cs@.subrange(0, n as int) =~= cs@);
        lemma_run_len_shift(cs@, '#', st as int, st as int);
        assert(t == trim_start(line@));
    }
    if h == 0 || h > 6 || st + h >= n || cs[st + h] != ' ' {
        return None;
    }
    let e = skip_ws_back(&cs, st + h + 1, n);
    let text = string_of(&cs, st + h + 1, e);
    proof {
        assert(t.skip(h + 1) =~= cs@.subrange(st + h + 1, n as int));
        assert(t[h as int] == cs@[st + h]);
    }
    Some((h, text))
}

/// The first line of `ls` at or after `i` that is a heading with text
/// `target`: its index and level.
pub open spec fn find_heading_from(ls: Seq<Seq<char>>, target: Seq<char>, i: int) -> Option<(nat, nat)>
    decreases ls.len() - i,
{
    if i < 0 || i >= ls.len() {
        None
    } else {
        match heading_of(ls[i]) {
            Some((lvl, text)) => if text == target {
                Some((i as nat, lvl))
            } else {
                find_heading_from(ls, target, i + 1)
            },
            None => find_heading_from(ls, target, i + 1),
        }
    }
}

fn find_heading(lines: &Vec<String>, target: &str) -> (r: Option<(usize, usize)>)
    ensures
        match (r, find_heading_from(strings_view(lines@), target@, 0)) {
            (Some((i, l)), Some((i2, l2))) => i == i2 && l == l2 && i < lines@.len(),
            (None, None) => true,
            _ => false,
        },
{
    let ghost ls = strings_view(lines@);
    let mut i: usize = 0;
    while i < lines.len()
        invariant
            i <= lines@.len() == ls.len(),
            ls == strings_view(lines@),
            find_heading_from(ls, target@, i as int) == find_heading_from(ls, target@, 0),
        decreases lines@.len() - i,
    {
        match parse_heading(lines[i].as_str()) {
            Some((level, text)) => {
                if str_eq(text.as_str(), target) {
                    return Some((i, level));
                }
            },
            None => {},
        }
        i += 1;
    }
    None
}

/// The first line of `ls` at or after `i` that is a heading of level at
/// most `level`, or `ls.len()`.
pub open spec fn section_stop(ls: Seq<Seq<char>>, level: nat, i: int) -> int
    decreases ls.len() - i,
{
    if i < 0 || i >= ls.len() {
        ls.len() as int
    } else {
        match heading_of(ls[i]) {
            Some((l, _)) => if l <= level {
                i
            } else {
                section_stop(ls, level, i + 1)
            },
            None => section_stop(ls, level, i + 1),
        }
    }
}

/// `e` moved back over the empty lines before it, never below `floor`.
pub open spec fn back_over_blank(ls: Seq<Seq<char>>, floor: int, e: int) -> int
    decreases e - floor,
{
    if floor < e && e <= ls.len() && ls[e - 1].len() == 0 {
        back_over_blank(ls, floor, e - 1)
    } else {
        e
    }
}

/// Where a task goes under the heading at `heading_idx` of level `level`:
/// before the next heading of the same or a higher level (or the end),
/// and before the empty lines that precede it.
pub open spec fn section_end_of(ls: Seq<Seq<char>>, heading_idx: int, level: nat) -> int {
    back_over_blank(ls, heading_idx + 1, section_stop(ls, level, heading_idx + 1))
}

proof fn lemma_section_stop(ls: Seq<Seq<char>>, level: nat, i: int)
    requires
        0 <= i <= ls.len(),
    ensures
        i <= section_stop(ls, level, i) <= ls.len(),
    decreases ls.len() - i,
{
    if i < ls.len() {
        lemma_section_stop(ls, level, i + 1);
    }
}

proof fn lemma_back_over_blank(ls: Seq<Seq<char>>, floor: int, e: int)
    requires
        floor <= e <= ls.len(),
    ensures
        floor <= back_over_blank(ls, floor, e) <= e,
    decreases e - floor,
{
    if floor < e && ls[e - 1].len() == 0 {
        lemma_back_over_blank(ls, floor, e - 1);
    }
}

fn section_stop_exec(lines: &Vec<String>, level: usize, from: usize) -> (r: usize)
    requires
        from <= lines@.len(),
    ensures
        r == section_stop(strings_view(lines@), level as nat, from as int),
        from <= r <= lines@.len(),
{
    let ghost ls = strings_view(lines@);
    proof {
        lemma_section_stop(ls, level as nat, from as int);
    }
    let mut i = from;
    while i < lines.len()
        invariant
            from <= i <= lines@.len() == ls.len(),
            ls == strings_view(lines@),
            section_stop(ls, level as nat, i as int) == section_stop(ls, level as nat, from as int),
        decreases lines@.len() - i,
    {
        match parse_heading(lines[i].as_str()) {
            Some((lvl, _)) => {
                if lvl <= level {
                    return i;
                }
            },
            None => {},
        }
        i += 1;
    }
    i
}

fn section_end(lines: &Vec<String>, heading_idx: usize, level: usize) -> (r: usize)
    requires
        heading_idx < lines@.len(),
    ensures
        r == section_end_of(strings_view(lines@), heading_idx as int, level as nat),
        heading_idx < r <= lines@.len(),
{
    let ghost ls = strings_view(lines@);
    let _n = lines.len();
    let mut end = section_stop_exec(lines, level, heading_idx + 1);
    while end > heading_idx + 1 && lines[end - 1].as_str().is_empty()
        invariant
            heading_idx + 1 <= end <= lines@.len() == ls.len(),
            ls == strings_view(lines@),
            back_over_blank(ls, heading_idx + 1, end as int) == section_end_of(ls, heading_idx as int, level as nat),
        decreases end,
    {
        end -= 1;
    }
    end
}


// ── creating a task ──────────────────────────────────────────────────────────

/// Why a task could not be created.
#[derive(Debug)]
pub enum CreateError {
    /// The target file could not be read.
    Read { path: String, message: String },
    /// An equal task is already at `path:line`.
    Duplicate { path: String, line: usize },
    /// `line` is outside `1..=file_lines + 1`.
    LineOutOfRange { line: usize, file_lines: usize },
    /// Writing the new content failed.
    Write { message: String },
}

/// The text of a task-creation error.
pub open spec fn create_error_text(e: CreateError) -> Seq<char> {
    match e {
        CreateError::Read { path, message } => "could not read "@ + path@ + ": "@ + message@,
        CreateError::Duplicate { path, line } => "duplicate task already exists at "@ + path@ + ":"@ + decimal(
            line as nat,
        ) + " (use --force to insert anyway)"@,
        CreateError::LineOutOfRange { line, file_lines } => "invalid --at-line "@ + decimal(line as nat)
            + ": file has only "@ + decimal(file_lines as nat) + " lines"@,
        CreateError::Write { message } => "write failed: "@ + message@,
    }
}

impl CreateError {
    /// Human-readable rendering of the error (see [`create_error_text`]).
    pub fn message(&self) -> (r: String)
        ensures
            r@ == create_error_text(*self),
    {
        match self {
            CreateError::Read { path, message } => crate::text::concat4(
                "could not read ",
                path.as_str(),
                ": ",
                message.as_str(),
            ),
            CreateError::Duplicate { path, line } => {
                let n = crate::text::usize_to_string(*line);
                crate::text::concat5(
                    "duplicate task already exists at ",
                    path.as_str(),
                    ":",
                    n.as_str(),
                    " (use --force to insert anyway)",
                )
            },
            CreateError::LineOutOfRange { line, file_lines } => {
                let a = crate::text::usize_to_string(*line);
                let b = crate::text::usize_to_string(*file_lines);
                crate::text::concat5("invalid --at-line ", a.as_str(), ": file has only ", b.as_str(), " lines")
            },
            CreateError::Write { message } => crate::text::concat2("write failed: ", message.as_str()),
        }
    }
}

/// Where to insert a new task within the target file.
#[derive(Debug, Clone)]
pub enum Position {
    /// Append at the end of the file.
    Append,
    /// Insert at the end of the section under the heading with this exact
    /// text (without the `#` markers); the heading is created at the end
    /// of the file when it is missing.
    UnderHeading(String),
    /// Insert at this 1-indexed line, pushing existing content down.
    AtLine(usize),
}

/// `seq!['#', '#', ' ']` followed by `h`.
pub open spec fn level2_heading(h: Seq<char>) -> Seq<char> {
    seq!['#', '#', ' '] + h
}

/// The lines of `ls` with `line` inserted as `pos` says, and the 1-indexed
/// line where it lands; or the requested line and the number of lines
/// when `pos` is a line outside `1..=ls.len() + 1`.
pub open spec fn splice_lines(ls: Seq<Seq<char>>, line: Seq<char>, pos: Position) -> Result<
    (Seq<Seq<char>>, nat),
    (nat, nat),
> {
    match pos {
        Position::Append => Ok((ls.push(line), ls.len() + 1)),
        Position::AtLine(n) => if n == 0 || n > ls.len() + 1 {
            Err((n as nat, ls.len()))
        } else {
            Ok((ls.insert(n - 1, line), n as nat))
        },
        Position::UnderHeading(h) => match find_heading_from(ls, h@, 0) {
            Some((hi, lvl)) => {
                let at = section_end_of(ls, hi as int, lvl);
                Ok((ls.insert(at, line), (at + 1) as nat))
            },
            None => {
                let ls2 = if ls.len() > 0 && ls.last().len() > 0 {
                    ls.push(Seq::empty())
                } else {
                    ls
                };
                Ok((ls2.push(level2_heading(h@)).push(line), ls2.len() + 2))
            },
        },
    }
}

/// [`splice_lines`] over the lines of `content`; the new content is the
/// lines joined with `'\n'` and ending in one.
pub open spec fn splice_result(content: Seq<char>, line: Seq<char>, pos: Position) -> Result<
    (Seq<char>, nat),
    (nat, nat),
> {
    match splice_lines(file_lines(content), line, pos) {
        Ok((ls, n)) => Ok((join_lines(ls), n)),
        Err(e) => Err(e),
    }
}

proof fn lemma_find_heading_bound(ls: Seq<Seq<char>>, target: Seq<char>, i: int)
    requires
        0 <= i,
    ensures
        find_heading_from(ls, target, i) matches Some((k, _)) ==> i <= k < ls.len(),
    decreases ls.len() - i,
{
    if i < ls.len() {
        lemma_find_heading_bound(ls, target, i + 1);
    }
}

/// Insert `line` into `content` as `pos` says (see [`splice_result`]).
fn splice(content: &str, line: &str, pos: &Position) -> (r: Result<(String, usize), CreateError>)
    ensures
        match (r, splice_result(content@, line@, *pos)) {
            (Ok((c, n)), Ok((c2, n2))) => c@ == c2 && n == n2,
            (Err(e), Err((l, f))) => e matches CreateError::LineOutOfRange { line, file_lines } && line == l
                && file_lines == f,
            _ => false,
        },
{
    let mut lines = file_lines_exec(content);
    let ghost ls = strings_view(lines@);
    let inserted_at_idx: usize = match pos {
        Position::Append => {
            lines.push(line.to_string());
            proof {
                assert(strings_view(lines@) =~= ls.push(line@));
            }
            lines.len() - 1
        },
        Position::AtLine(n) => {
            let n = *n;
            if n == 0 || n - 1 > lines.len() {
                return Err(CreateError::LineOutOfRange { line: n, file_lines: lines.len() });
            }
            lines.insert(n - 1, line.to_string());
            proof {
                assert(strings_view(lines@) =~= ls.insert(n - 1, line@));
            }
            n - 1
        },
        Position::UnderHeading(heading) => match find_heading(&lines, heading.as_str()) {
            Some((heading_idx, level)) => {
                let insert_at = section_end(&lines, heading_idx, level);
                lines.insert(insert_at, line.to_string());
                proof {
                    assert(strings_view(lines@) =~= ls.insert(insert_at as int, line@));
                }
                insert_at
            },
            None => {
                let ghost ls2 = if ls.len() > 0 && ls.last().len() > 0 {
                    ls.push(Seq::empty())
                } else {
                    ls
                };
                if lines.len() > 0 && !lines[lines.len() - 1].as_str().is_empty() {
                    lines.push(String::new());
                }
                proof {
                    assert(strings_view(lines@) =~= ls2);
                }
                let mut h = String::new();
                push_str(&mut h, "## ");
                push_str(&mut h, heading.as_str());
                proof {
                    reveal_strlit("## ");
                    assert(h@ =~= level2_heading(heading@));
                }
                lines.push(h);
                lines.push(line.to_string());
                proof {
                    assert(strings_view(lines@) =~= ls2.push(level2_heading(heading@)).push(line@));
                }
                lines.len() - 1
            },
        },
    };
    let joined = join_lines_exec(&lines);
    Ok((joined, inserted_at_idx + 1))
}


/// What the user gives for a new task. `description` holds only the free
/// text; `tags` are appended to it.
#[derive(Debug, Clone)]
pub struct CreateInput {
    pub description: String,
    pub status: Status,
    pub priority: Option<Priority>,
    pub tags: Vec<String>,
    pub created: Option<Date>,
    pub start: Option<Date>,
    pub scheduled: Option<Date>,
    pub due: Option<Date>,
    pub recurrence: Option<String>,
    pub id: Option<String>,
    pub depends_on: Vec<String>,
}

impl Default for CreateInput {
    fn default() -> (r: CreateInput)
        ensures
            r.description@.len() == 0,
            r.status == Status::Open,
            r.priority is None,
            r.tags@.len() == 0,
            r.created is None && r.start is None && r.scheduled is None && r.due is None,
            r.recurrence is None && r.id is None,
            r.depends_on@.len() == 0,
    {
        CreateInput {
            description: String::new(),
            status: Status::Open,
            priority: None,
            tags: Vec::new(),
            created: None,
            start: None,
            scheduled: None,
            due: None,
            recurrence: None,
            id: None,
            depends_on: Vec::new(),
        }
    }
}

/// How to create a task.
#[derive(Debug, Clone)]
pub struct CreateOptions {
    pub position: Position,
    /// Skip the duplicate check.
    pub force: bool,
}

/// Where a new task ended up.
#[derive(Debug)]
pub struct CreateOutcome {
    /// 1-indexed line of the new task.
    pub line: usize,
    /// The task's line, without a line ending.
    pub serialized: String,
}

/// `#` followed by `tag` without its leading `#`s.
pub open spec fn tag_needle(tag: Seq<char>) -> Seq<char> {
    seq!['#'] + tag.skip(run_len(tag, '#', 0) as int)
}

/// `desc` with `#tag` appended after a space, unless it is already one of
/// its words.
pub open spec fn add_tag(desc: Seq<char>, tag: Seq<char>) -> Seq<char> {
    let needle = tag_needle(tag);
    if words(desc).contains(needle) {
        desc
    } else if desc.len() > 0 {
        desc + seq![' '] + needle
    } else {
        needle
    }
}

/// `desc` with each of `tags` added in turn.
pub open spec fn add_tags(desc: Seq<char>, tags: Seq<Seq<char>>) -> Seq<char>
    decreases tags.len(),
{
    if tags.len() == 0 {
        desc
    } else {
        add_tag(add_tags(desc, tags.drop_last()), tags.last())
    }
}

/// The task that `input` describes: the description with trailing
/// whitespace removed and the tags added, its hashtags, the given fields,
/// and nothing else.
pub open spec fn built_task(input: CreateInput) -> TaskSpec {
    let description = add_tags(trim_end(input.description@), strings_view(input.tags@));
    TaskSpec {
        description,
        status: input.status,
        priority: input.priority,
        tags: tags_from(description, 0),
        created: input.created,
        start: input.start,
        scheduled: input.scheduled,
        due: input.due,
        done: None,
        cancelled: None,
        recurrence: opt_view(input.recurrence),
        id: opt_view(input.id),
        depends_on: strings_view(input.depends_on@),
        on_completion: None,
        block_link: None,
        raw_trailing: None,
        source_file: Seq::empty(),
        source_line: 0,
        indent_level: 0,
        parent: None,
    }
}

fn clone_opt(o: &Option<String>) -> (r: Option<String>)
    ensures
        opt_view(r) == opt_view(*o),
{
    match o {
        Some(x) => Some(x.clone()),
        None => None,
    }
}

fn clone_strings(v: &Vec<String>) -> (r: Vec<String>)
    ensures
        strings_view(r@) == strings_view(v@),
{
    let mut out: Vec<String> = Vec::new();
    let mut i: usize = 0;
    while i < v.len()
        invariant
            i <= v@.len(),
            strings_view(out@) == strings_view(v@).take(i as int),
        decreases v@.len() - i,
    {
        let c = v[i].clone();
        proof {
            assert(c@ == v@[i as int]@);
        }
        let ghost prev = out@;
        out.push(c);
        proof {
            assert(strings_view(out@) =~= strings_view(prev).push(c@));
            assert(strings_view(v@).take(i + 1) =~= strings_view(v@).take(i as int).push(c@));
        }
        i += 1;
    }
    proof {
        assert(strings_view(v@).take(i as int) =~= strings_view(v@));
    }
    out
}

pub(crate) fn has_word(desc: &String, needle: &Vec<char>) -> (r: bool)
    ensures
        r == words(desc@).contains(needle@),
{
    let cs = to_chars(desc.as_str());
    let ws = split_words(&cs);
    let mut i: usize = 0;
    while i < ws.len()
        invariant
            i <= ws@.len() == words(desc@).len(),
            cs@ == desc@,
            forall|k: int| 0 <= k < ws@.len() ==> #[trigger] ws@[k]@ == words(cs@)[k],
            forall|k: int| 0 <= k < i ==> words(desc@)[k] != needle@,
        decreases ws@.len() - i,
    {
        if chars_eq(&ws[i], needle) {
            proof {
                assert(words(desc@)[i as int] == needle@);
            }
            return true;
        }
        i += 1;
    }
    false
}

fn build_description(input: &CreateInput) -> (r: String)
    ensures
        r@ == add_tags(trim_end(input.description@), strings_view(input.tags@)),
{
    let dc = to_chars(input.description.as_str());
    let de = skip_ws_back(&dc, 0, dc.len());
    let mut description = string_of(&dc, 0, de);
    proof {
        assert(dc@.subrange(0, dc@.len() as int) =~= dc@);
        assert(add_tags(trim_end(input.description@), strings_view(input.tags@).take(0)) == description@);
    }
    let mut i: usize = 0;
    while i < input.tags.len()
        invariant
            i <= input.tags@.len(),
            description@ == add_tags(trim_end(input.description@), strings_view(input.tags@).take(i as int)),
        decreases input.tags@.len() - i,
    {
        let tc = to_chars(input.tags[i].as_str());
        let h = count_run(&tc, '#', 0);
        let mut needle: Vec<char> = Vec::new();
        needle.push('#');
        let mut k = h;
        while k < tc.len()
            invariant
                h <= k <= tc@.len(),
                needle@ == seq!['#'] + tc@.subrange(h as int, k as int),
            decreases tc@.len() - k,
        {
            needle.push(tc[k]);
            k += 1;
            proof {
                assert(needle@ =~= seq!['#'] + tc@.subrange(h as int, k as int));
            }
        }
        proof {
            assert(tc@.subrange(h as int, tc@.len() as int) =~= tc@.skip(h as int));
            assert(needle@ == tag_needle(input.tags@[i as int]@));
            let t = strings_view(input.tags@).take(i + 1);
            assert(t.drop_last() =~= strings_view(input.tags@).take(i as int));
        }
        if !has_word(&description, &needle) {
            if !description.as_str().is_empty() {
                push_char(&mut description, ' ');
            }
            push_all(&mut description, &needle);
        }
        i += 1;
    }
    proof {
        assert(strings_view(input.tags@).take(i as int) =~= strings_view(input.tags@));
    }
    description
}

/// The task that `input` describes (see [`built_task`]).
pub fn build_task(input: &CreateInput) -> (r: Task)
    ensures
        r@ == built_task(*input),
{
    let description = build_description(input);
    let tags = extract_tags(description.as_str());
    Task {
        description,
        status: input.status,
        priority: input.priority,
        tags,
        created: input.created,
        start: input.start,
        scheduled: input.scheduled,
        due: input.due,
        done: None,
        cancelled: None,
        recurrence: clone_opt(&input.recurrence),
        id: clone_opt(&input.id),
        depends_on: clone_strings(&input.depends_on),
        on_completion: None,
        block_link: None,
        raw_trailing: None,
        source_file: String::new(),
        source_line: 0,
        indent_level: 0,
        parent: None,
    }
}

/// The 1-indexed line of the first line of `ls` from `i` on that parses as
/// a task with the description, due, scheduled and start date of `t`.
pub open spec fn duplicate_from(ls: Seq<Seq<char>>, t: TaskSpec, i: int) -> Option<nat>
    decreases ls.len() - i,
{
    if i < 0 || i >= ls.len() {
        None
    } else {
        match parse_task(ls[i], Seq::empty(), (i + 1) as nat) {
            Some(e) => if e.description == t.description && e.due == t.due && e.scheduled == t.scheduled
                && e.start == t.start {
                Some((i + 1) as nat)
            } else {
                duplicate_from(ls, t, i + 1)
            },
            None => duplicate_from(ls, t, i + 1),
        }
    }
}

fn opt_date_eq(a: Option<Date>, b: Option<Date>) -> (r: bool)
    ensures
        r == (a == b),
{
    match (a, b) {
        (Some(x), Some(y)) => x == y,
        (None, None) => true,
        _ => false,
    }
}

/// The 1-indexed line of an existing task equal to `task` in description
/// and due, scheduled and start dates; the status is not compared.
fn find_duplicate(content: &str, task: &Task) -> (r: Option<usize>)
    ensures
        match (r, duplicate_from(lines(content@), task@, 0)) {
            (Some(n), Some(m)) => n == m,
            (None, None) => true,
            _ => false,
        },
{
    let cs = to_chars(content);
    let ls = split_lines(&cs);
    let ghost lv = lines(content@);
    let mut idx: usize = 0;
    while idx < ls.len()
        invariant
            idx <= ls@.len() == lv.len(),
            cs@ == content@,
            lv == lines(cs@),
            forall|k: int| 0 <= k < ls@.len() ==> #[trigger] ls@[k]@ == lv[k],
            duplicate_from(lv, task@, idx as int) == duplicate_from(lv, task@, 0),
        decreases ls@.len() - idx,
    {
        let line = string_of_all(&ls[idx]);
        let ctx = ParseContext { source_file: String::new(), source_line: idx + 1 };
        match parse_line(line.as_str(), ctx) {
            Some(existing) => {
                if str_eq(existing.description.as_str(), task.description.as_str()) && opt_date_eq(
                    existing.due,
                    task.due,
                ) && opt_date_eq(existing.scheduled, task.scheduled) && opt_date_eq(
                    existing.start,
                    task.start,
                ) {
                    return Some(idx + 1);
                }
            },
            None => {},
        }
        idx += 1;
    }
    None
}

/// Create a task from `input` in a file whose content is `existing` and
/// whose path is `target_path`: returns the new content and where the task
/// landed. Unless `opts.force` is set, an existing task with the same
/// description, due, scheduled and start dates refuses the creation.
pub fn create_task(target_path: &str, existing: &str, input: CreateInput, opts: CreateOptions) -> (r: Result<
    (String, CreateOutcome),
    CreateError,
>)
    ensures
        ({
            let t = built_task(input);
            let ser = task_line(t);
            let dup = if opts.force {
                None
            } else {
                duplicate_from(lines(existing@), t, 0)
            };
            match dup {
                Some(l) => r matches Err(CreateError::Duplicate { path, line }) && path@ == target_path@
                    && line == l,
                None => match (r, splice_result(existing@, ser, opts.position)) {
                    (Ok((c, o)), Ok((c2, n))) => c@ == c2 && o.line == n && o.serialized@ == ser,
                    (Err(e), Err((l, f))) => e matches CreateError::LineOutOfRange { line, file_lines }
                        && line == l && file_lines == f,
                    _ => false,
                },
            }
        }),
{
    let task = build_task(&input);
    let serialized = serialize_line(&task);
    if !opts.force {
        match find_duplicate(existing, &task) {
            Some(line) => {
                return Err(CreateError::Duplicate { path: target_path.to_string(), line });
            },
            None => {},
        }
    }
    match splice(existing, serialized.as_str(), &opts.position) {
        Ok((new_content, line)) => Ok((new_content, CreateOutcome { line, serialized })),
        Err(e) => Err(e),
    }
}


// ── completing a task ────────────────────────────────────────────────────────

/// Why a task could not be completed.
#[derive(Debug)]
pub enum CompleteError {
    /// The file could not be read.
    Read { path: String, message: String },
    /// `line` is not a line of the file, which has `file_lines` lines.
    LineMissing { path: String, line: usize, file_lines: usize },
    /// The line is not a task.
    NotATask { path: String, line: usize },
    /// The task is already done, on `done`.
    AlreadyDone { path: String, line: usize, done: Date },
    /// The task's recurrence rule cannot give a next instance.
    Recurrence(RecurrenceError),
    /// Writing the new content failed.
    Write { message: String },
}

/// The text of a task-completion error.
pub open spec fn complete_error_text(e: CompleteError) -> Seq<char> {
    match e {
        CompleteError::Read { path, message } => "could not read "@ + path@ + ": "@ + message@,
        CompleteError::LineMissing { path, line, file_lines } => "line "@ + decimal(line as nat) + " not found in "@
            + path@ + " ("@ + decimal(file_lines as nat) + " lines)"@,
        CompleteError::NotATask { path, line } => "line "@ + decimal(line as nat) + " in "@ + path@ + " is not a task"@,
        CompleteError::AlreadyDone { path, line, done } => "task at "@ + path@ + ":"@ + decimal(line as nat)
            + " is already done (on "@ + crate::date::date_text(done) + ")"@,
        CompleteError::Recurrence(r) => crate::task::recurrence::rec_error_text(r),
        CompleteError::Write { message } => "write failed: "@ + message@,
    }
}

impl CompleteError {
    /// Human-readable rendering of the error (see [`complete_error_text`]).
    pub fn message(&self) -> (r: String)
        ensures
            r@ == complete_error_text(*self),
    {
        match self {
            CompleteError::Read { path, message } => crate::text::concat4(
                "could not read ",
                path.as_str(),
                ": ",
                message.as_str(),
            ),
            CompleteError::LineMissing { path, line, file_lines } => {
                let a = crate::text::usize_to_string(*line);
                let b = crate::text::usize_to_string(*file_lines);
                crate::text::concat7("line ", a.as_str(), " not found in ", path.as_str(), " (", b.as_str(), " lines)")
            },
            CompleteError::NotATask { path, line } => {
                let a = crate::text::usize_to_string(*line);
                crate::text::concat5("line ", a.as_str(), " in ", path.as_str(), " is not a task")
            },
            CompleteError::AlreadyDone { path, line, done } => {
                let a = crate::text::usize_to_string(*line);
                let d = done.to_string();
                crate::text::concat7(
                    "task at ",
                    path.as_str(),
                    ":",
                    a.as_str(),
                    " is already done (on ",
                    d.as_str(),
                    ")",
                )
            },
            CompleteError::Recurrence(r) => r.message(),
            CompleteError::Write { message } => crate::text::concat2("write failed: ", message.as_str()),
        }
    }
}

/// How to complete a task.
#[derive(Debug, Clone)]
pub struct CompleteOptions {
    /// Date recorded as the done date.
    pub on: Date,
}

/// The next instance of a recurring task.
#[derive(Debug)]
pub struct NextInstance {
    pub line: usize,
    pub serialized: String,
}

/// What completing a task did.
#[derive(Debug)]
pub struct CompleteOutcome {
    /// 1-indexed line of the now-done task in the new content.
    pub completed_line: usize,
    /// The now-done task's line.
    pub completed_serialized: String,
    /// For a recurring task, its next instance, inserted above.
    pub next_instance: Option<NextInstance>,
}

/// The errors of [`complete_task`], without the file's path.
pub enum CompleteErrorSpec {
    LineMissing { line: nat, file_lines: nat },
    NotATask { line: nat },
    AlreadyDone { line: nat, done: Date },
    Recurrence(RecurrenceErrorSpec),
}

/// What completing a task gives: the new content, the completed task's
/// line number and text, and the next instance's line number and text.
pub struct CompletionSpec {
    pub content: Seq<char>,
    pub completed_line: nat,
    pub completed: Seq<char>,
    pub next: Option<(nat, Seq<char>)>,
}

/// `t` marked done on `on`.
pub open spec fn completed_task(t: TaskSpec, on: Date) -> TaskSpec {
    TaskSpec { status: Status::Done, done: Some(on), ..t }
}

/// The next instance of `t`: open again, with its start, scheduled and due
/// dates moved by `delta` days and no done or cancelled date.
pub open spec fn next_task(t: TaskSpec, delta: i64) -> TaskSpec {
    TaskSpec {
        status: Status::Open,
        start: shift_date(t.start, delta),
        scheduled: shift_date(t.scheduled, delta),
        due: shift_date(t.due, delta),
        done: None,
        cancelled: None,
        ..t
    }
}

/// The day count by which the dates of `t` move under `rule`.
pub open spec fn recurrence_delta(rule: Rule, t: TaskSpec) -> i64 {
    let p = primary_date(t.due, t.scheduled, t.start)->0;
    chrono_days_between(next_after_date(rule, p)->0, p)
}

/// The task on 1-indexed line `line` of `content`, as completing reads it.
pub open spec fn task_on_line(content: Seq<char>, line: nat) -> Option<TaskSpec> {
    let ls = file_lines(content);
    if 1 <= line <= ls.len() {
        parse_task(ls[line - 1], Seq::empty(), line)
    } else {
        None
    }
}

/// The date arithmetic of completing line `line` of `content` stays in
/// chrono's calendar: where the task recurs by a supported rule and has a
/// primary date, the rule gives a next date.
pub open spec fn completion_in_range(content: Seq<char>, line: nat) -> bool {
    match task_on_line(content, line) {
        Some(t) => match t.recurrence {
            Some(rs) => match rule_of(rs) {
                Ok(rule) => match primary_date(t.due, t.scheduled, t.start) {
                    Some(p) => next_after_date(rule, p) is Some,
                    None => true,
                },
                Err(_) => true,
            },
            None => true,
        },
        None => true,
    }
}

/// Completing the task on 1-indexed line `line` of `content` on date `on`:
/// the line must exist and hold a task that is not already done (with a
/// done date). The task gets status done and the done date; a recurring
/// task gets its next instance, with its dates moved, inserted above it.
pub open spec fn complete_result(content: Seq<char>, line: nat, on: Date) -> Result<CompletionSpec, CompleteErrorSpec> {
    let ls = file_lines(content);
    if line == 0 || line > ls.len() {
        Err(CompleteErrorSpec::LineMissing { line, file_lines: ls.len() })
    } else {
        match parse_task(ls[line - 1], Seq::empty(), line) {
            None => Err(CompleteErrorSpec::NotATask { line }),
            Some(t) => if t.status == Status::Done && t.done is Some {
                Err(CompleteErrorSpec::AlreadyDone { line, done: t.done->0 })
            } else {
                let done_line = task_line(completed_task(t, on));
                match t.recurrence {
                    None => Ok(
                        CompletionSpec {
                            content: join_lines(ls.update(line - 1, done_line)),
                            completed_line: line,
                            completed: done_line,
                            next: None,
                        },
                    ),
                    Some(rs) => match rule_of(rs) {
                        Err(e) => Err(CompleteErrorSpec::Recurrence(e)),
                        Ok(rule) => if primary_date(t.due, t.scheduled, t.start) is None {
                            Err(CompleteErrorSpec::Recurrence(RecurrenceErrorSpec::NoAnchor))
                        } else {
                            let next_line = task_line(next_task(t, recurrence_delta(rule, t)));
                            Ok(
                                CompletionSpec {
                                    content: join_lines(ls.update(line - 1, done_line).insert(line - 1, next_line)),
                                    completed_line: line + 1,
                                    completed: done_line,
                                    next: Some((line, next_line)),
                                },
                            )
                        },
                    },
                }
            },
        }
    }
}

/// `e` is the error `es` about the file `path`.
pub open spec fn complete_error_is(e: CompleteError, es: CompleteErrorSpec, path: Seq<char>) -> bool {
    match (e, es) {
        (
            CompleteError::LineMissing { path: p, line, file_lines },
            CompleteErrorSpec::LineMissing { line: l, file_lines: f },
        ) => p@ == path && line == l && file_lines == f,
        (CompleteError::NotATask { path: p, line }, CompleteErrorSpec::NotATask { line: l }) => p@ == path
            && line == l,
        (
            CompleteError::AlreadyDone { path: p, line, done },
            CompleteErrorSpec::AlreadyDone { line: l, done: d },
        ) => p@ == path && line == l && done == d,
        (CompleteError::Recurrence(r), CompleteErrorSpec::Recurrence(rs)) => rec_error_view(r) == rs,
        _ => false,
    }
}

/// A copy of `t`.
fn copy_task(t: &Task) -> (r: Task)
    ensures
        r@ == t@,
{
    Task {
        description: t.description.clone(),
        status: t.status,
        priority: t.priority,
        tags: clone_strings(&t.tags),
        created: t.created,
        start: t.start,
        scheduled: t.scheduled,
        due: t.due,
        done: t.done,
        cancelled: t.cancelled,
        recurrence: clone_opt(&t.recurrence),
        id: clone_opt(&t.id),
        depends_on: clone_strings(&t.depends_on),
        on_completion: clone_opt(&t.on_completion),
        block_link: clone_opt(&t.block_link),
        raw_trailing: clone_opt(&t.raw_trailing),
        source_file: t.source_file.clone(),
        source_line: t.source_line,
        indent_level: t.indent_level,
        parent: t.parent,
    }
}

/// Complete the task on 1-indexed line `line` of `content` (the text of
/// the file at `target_path`) on `opts.on`; see [`complete_result`]. A
/// recurring task's next instance takes the task's line and the completed
/// task moves one line down.
pub fn complete_task(target_path: &str, content: &str, line: usize, opts: CompleteOptions) -> (r: Result<
    (String, CompleteOutcome),
    CompleteError,
>)
    requires
        completion_in_range(content@, line as nat),
    ensures
        match (r, complete_result(content@, line as nat, opts.on)) {
            (Ok((c, o)), Ok(cs)) => {
                &&& c@ == cs.content
                &&& o.completed_line == cs.completed_line
                &&& o.completed_serialized@ == cs.completed
                &&& match (o.next_instance, cs.next) {
                    (Some(ni), Some((l, sr))) => ni.line == l && ni.serialized@ == sr,
                    (None, None) => true,
                    _ => false,
                }
            },
            (Err(e), Err(es)) => complete_error_is(e, es, target_path@),
            _ => false,
        },
{
    let mut lines = file_lines_exec(content);
    let ghost ls = strings_view(lines@);
    if line == 0 || line > lines.len() {
        return Err(CompleteError::LineMissing { path: target_path.to_string(), line, file_lines: lines.len() });
    }
    let idx = line - 1;
    let ctx = ParseContext { source_file: String::new(), source_line: line };
    let task = match parse_line(lines[idx].as_str(), ctx) {
        Some(t) => t,
        None => {
            return Err(CompleteError::NotATask { path: target_path.to_string(), line });
        },
    };
    proof {
        reveal_strlit("");
        assert(Some(task@) == parse_task(ls[idx as int], Seq::empty(), line as nat));
    }
    if task.status == Status::Done {
        match task.done {
            Some(done) => {
                return Err(CompleteError::AlreadyDone { path: target_path.to_string(), line, done });
            },
            None => {},
        }
    }
    let ghost t = task@;
    let next: Option<Task> = match &task.recurrence {
        Some(rs) => {
            let rule = match parse_rule(rs.as_str()) {
                Ok(rule) => rule,
                Err(e) => {
                    return Err(CompleteError::Recurrence(e));
                },
            };
            let nd = match next_dates(&rule, &task) {
                Ok(nd) => nd,
                Err(e) => {
                    return Err(CompleteError::Recurrence(e));
                },
            };
            let base = copy_task(&task);
            let nt = Task {
                status: Status::Open,
                start: nd.start,
                scheduled: nd.scheduled,
                due: nd.due,
                done: None,
                cancelled: None,
                ..base
            };
            proof {
                assert(nt@ == next_task(t, recurrence_delta(rule, t)));
            }
            Some(nt)
        },
        None => None,
    };
    let completed = Task { status: Status::Done, done: Some(opts.on), ..task };
    proof {
        assert(completed@ == completed_task(t, opts.on));
    }
    let completed_line = serialize_line(&completed);
    let next_instance: Option<NextInstance> = match next {
        Some(nt) => {
            let serialized = serialize_line(&nt);
            lines.set(idx, completed_line.clone());
            lines.insert(idx, serialized.clone());
            proof {
                assert(strings_view(lines@) =~= ls.update(idx as int, completed_line@).insert(idx as int, serialized@));
            }
            Some(NextInstance { line, serialized })
        },
        None => {
            lines.set(idx, completed_line.clone());
            proof {
                assert(strings_view(lines@) =~= ls.update(idx as int, completed_line@));
            }
            None
        },
    };
    let total = lines.len();
    let joined = join_lines_exec(&lines);
    proof {
        assert(next_instance is Some ==> lines@.len() == ls.len() + 1);
        assert(line <= ls.len());
        assert(next_instance is Some ==> line < total);
    }
    let completed_line_no = if next_instance.is_some() {
        line + 1
    } else {
        line
    };
    Ok(
        (
            joined,
            CompleteOutcome { completed_line: completed_line_no, completed_serialized: completed_line, next_instance },
        ),
    )
}


fn completion_in_range_exec(content: &str, line: usize) -> (r: bool)
    ensures
        r == completion_in_range(content@, line as nat),
{
    let lines = file_lines_exec(content);
    if line == 0 || line > lines.len() {
        return true;
    }
    let ctx = ParseContext { source_file: String::new(), source_line: line };
    let task = match parse_line(lines[line - 1].as_str(), ctx) {
        Some(t) => t,
        None => {
            return true;
        },
    };
    proof {
        reveal_strlit("");
    }
    match &task.recurrence {
        Some(rs) => match parse_rule(rs.as_str()) {
            Ok(rule) => {
                let primary = match task.due {
                    Some(d) => Some(d),
                    None => match task.scheduled {
                        Some(d) => Some(d),
                        None => task.start,
                    },
                };
                match primary {
                    Some(p) => next_after_checked(&rule, p).is_some(),
                    None => true,
                }
            },
            Err(_) => true,
        },
        None => true,
    }
}

/// [`complete_task`] where its date arithmetic stays in chrono's calendar;
/// `None` where the next date of a recurring task would leave it.
pub fn try_complete_task(target_path: &str, content: &str, line: usize, opts: CompleteOptions) -> (r: Option<
    Result<(String, CompleteOutcome), CompleteError>,
>)
    ensures
        r is None <==> !completion_in_range(content@, line as nat),
        r matches Some(res) ==> match (res, complete_result(content@, line as nat, opts.on)) {
            (Ok((c, o)), Ok(cs)) => {
                &&& c@ == cs.content
                &&& o.completed_line == cs.completed_line
                &&& o.completed_serialized@ == cs.completed
                &&& match (o.next_instance, cs.next) {
                    (Some(ni), Some((l, sr))) => ni.line == l && ni.serialized@ == sr,
                    (None, None) => true,
                    _ => false,
                }
            },
            (Err(e), Err(es)) => complete_error_is(e, es, target_path@),
            _ => false,
        },
{
    if completion_in_range_exec(content, line) {
        Some(complete_task(target_path, content, line, opts))
    } else {
        None
    }
}


// ── where a created task lands ───────────────────────────────────────────────

/// A line that stays one line: no `'\n'` in it and no `'\r'` at its end.
pub open spec fn clean_line(l: Seq<char>) -> bool {
    &&& forall|i: int| 0 <= i < l.len() ==> l[i] != '\n'
    &&& (l.len() > 0 ==> l.last() != '\r')
}

proof fn lemma_strip_trailing_prefix(s: Seq<char>, c: char)
    ensures
        strip_trailing(s, c).len() <= s.len(),
        strip_trailing(s, c) =~= s.take(strip_trailing(s, c).len() as int),
        strip_trailing(s, c).len() > 0 ==> strip_trailing(s, c).last() != c,
    decreases s.len(),
{
    if s.len() > 0 && s.last() == c {
        lemma_strip_trailing_prefix(s.drop_last(), c);
        let r = strip_trailing(s.drop_last(), c);
        assert(s.drop_last().take(r.len() as int) =~= s.take(r.len() as int));
    } else {
        assert(s.take(s.len() as int) =~= s);
    }
}

/// The lines of any text are clean.
proof fn lemma_file_lines_clean(content: Seq<char>)
    ensures
        forall|k: int| 0 <= k < file_lines(content).len() ==> clean_line(#[trigger] file_lines(content)[k]),
{
    let ps = pieces(content);
    crate::text::lemma_pieces_newlines(content, 0);
    assert forall|k: int| 0 <= k < file_lines(content).len() implies clean_line(#[trigger] file_lines(content)[k]) by {
        let piece = ps[k];
        let a = strip_trailing(piece, '\n');
        let b = strip_trailing(a, '\r');
        lemma_strip_trailing_prefix(piece, '\n');
        lemma_strip_trailing_prefix(a, '\r');
        assert(file_lines(content)[k] == b);
        assert forall|i: int| 0 <= i < a.len() implies a[i] != '\n' by {
            assert(a[i] == piece[i]);
            if i == piece.len() - 1 {
                assert(a.len() == piece.len());
                assert(a.last() == a[i]);
            }
        }
        assert forall|i: int| 0 <= i < b.len() implies b[i] != '\n' by {
            assert(b[i] == a[i]);
        }
    }
}

proof fn lemma_pieces_join(ls: Seq<Seq<char>>)
    requires
        ls.len() > 0,
        forall|k: int| 0 <= k < ls.len() ==> clean_line(#[trigger] ls[k]),
    ensures
        pieces(join_lines(ls)) == ls.map_values(|l: Seq<char>| l + seq!['\n']),
    decreases ls.len(),
{
    if ls.len() == 1 {
        crate::text::lemma_pieces_one_line(ls[0]);
        assert(pieces(join_lines(ls)) =~= ls.map_values(|l: Seq<char>| l + seq!['\n']));
    } else {
        let rest = ls.drop_last();
        assert forall|k: int| 0 <= k < rest.len() implies clean_line(#[trigger] rest[k]) by {
            assert(rest[k] == ls[k]);
        }
        lemma_pieces_join(rest);
        lemma_join_lines_ends(rest);
        let a = join_lines(rest);
        let b = ls.last() + seq!['\n'];
        assert(join_lines(ls) =~= a + b);
        crate::text::lemma_pieces_concat(a, b, 0);
        assert(clean_line(ls[ls.len() - 1]));
        crate::text::lemma_pieces_one_line(ls.last());
        assert(pieces(join_lines(ls)) =~= ls.map_values(|l: Seq<char>| l + seq!['\n']));
    }
}

/// Joining clean lines and splitting the result again gives them back.
proof fn lemma_file_lines_join(ls: Seq<Seq<char>>)
    requires
        ls.len() > 0,
        forall|k: int| 0 <= k < ls.len() ==> clean_line(#[trigger] ls[k]),
    ensures
        file_lines(join_lines(ls)) == ls,
{
    lemma_pieces_join(ls);
    assert forall|k: int| 0 <= k < ls.len() implies strip_trailing(strip_trailing(ls[k] + seq!['\n'], '\n'), '\r') == ls[k] by {
        let l = ls[k];
        assert(clean_line(l));
        let ln = l + seq!['\n'];
        assert(ln.drop_last() =~= l);
        assert(ln.last() == '\n');
        assert(strip_trailing(ln, '\n') == strip_trailing(l, '\n'));
        if l.len() > 0 {
            assert(l.last() == l[l.len() - 1]);
            assert(l[l.len() - 1] != '\n');
        }
        assert(strip_trailing(l, '\n') == l);
        assert(strip_trailing(l, '\r') == l);
    }
    assert(file_lines(join_lines(ls)) =~= ls);
}

/// Inserting `line` as `pos` says puts it at the reported 1-indexed line,
/// among clean lines only.
proof fn lemma_splice_lines_places(ls: Seq<Seq<char>>, line: Seq<char>, pos: Position)
    requires
        forall|k: int| 0 <= k < ls.len() ==> clean_line(#[trigger] ls[k]),
        clean_line(line),
        pos matches Position::UnderHeading(h) ==> clean_line(level2_heading(h@)),
        splice_lines(ls, line, pos) is Ok,
    ensures
        ({
            let (out, n) = splice_lines(ls, line, pos)->Ok_0;
            &&& 1 <= n <= out.len()
            &&& out[n - 1] == line
            &&& forall|k: int| 0 <= k < out.len() ==> clean_line(#[trigger] out[k])
        }),
{
    let (out, n) = splice_lines(ls, line, pos)->Ok_0;
    match pos {
        Position::Append => {
            assert forall|k: int| 0 <= k < out.len() implies clean_line(#[trigger] out[k]) by {
                if k < ls.len() {
                    assert(out[k] == ls[k]);
                }
            }
        },
        Position::AtLine(m) => {
            assert forall|k: int| 0 <= k < out.len() implies clean_line(#[trigger] out[k]) by {
                if k < m - 1 {
                    assert(out[k] == ls[k]);
                } else if k > m - 1 {
                    assert(out[k] == ls[k - 1]);
                }
            }
        },
        Position::UnderHeading(h) => {
            match find_heading_from(ls, h@, 0) {
                Some((hi, lvl)) => {
                    lemma_find_heading_bound(ls, h@, 0);
                    lemma_section_stop(ls, lvl, hi + 1int);
                    lemma_back_over_blank(ls, hi + 1int, section_stop(ls, lvl, hi + 1int));
                    let at = section_end_of(ls, hi as int, lvl);
                    assert forall|k: int| 0 <= k < out.len() implies clean_line(#[trigger] out[k]) by {
                        if k < at {
                            assert(out[k] == ls[k]);
                        } else if k > at {
                            assert(out[k] == ls[k - 1]);
                        }
                    }
                },
                None => {
                    let ls2 = if ls.len() > 0 && ls.last().len() > 0 {
                        ls.push(Seq::empty())
                    } else {
                        ls
                    };
                    assert forall|k: int| 0 <= k < out.len() implies clean_line(#[trigger] out[k]) by {
                        if k < ls.len() {
                            assert(out[k] == ls[k]);
                        } else if k < ls2.len() {
                            assert(out[k] == Seq::<char>::empty());
                        }
                    }
                },
            }
        },
    }
}

/// A created task lands where the outcome says: splicing a clean line
/// into any text, the line of the new text at the reported 1-indexed
/// position is that line (a heading made for it must be clean too).
pub proof fn lemma_splice_places_line(content: Seq<char>, line: Seq<char>, pos: Position)
    requires
        clean_line(line),
        pos matches Position::UnderHeading(h) ==> clean_line(level2_heading(h@)),
        splice_result(content, line, pos) is Ok,
    ensures
        ({
            let (c, n) = splice_result(content, line, pos)->Ok_0;
            1 <= n <= file_lines(c).len() && file_lines(c)[n - 1] == line
        }),
{
    let ls = file_lines(content);
    lemma_file_lines_clean(content);
    lemma_splice_lines_places(ls, line, pos);
    let (out, n) = splice_lines(ls, line, pos)->Ok_0;
    lemma_file_lines_join(out);
}

/// A created task reads back: when the task that `input` describes
/// round-trips through its line (see
/// [`crate::task::round_trip::round_trip_task`]) and that line is one
/// line, splicing it in as `pos` says leaves, at the reported position of
/// the new content, a line that parses as that task.
pub proof fn lemma_created_task_reads_back(existing: Seq<char>, input: CreateInput, pos: Position, file: Seq<char>)
    requires
        crate::task::round_trip::round_trip_task(built_task(input)),
        clean_line(task_line(built_task(input))),
        pos matches Position::UnderHeading(h) ==> clean_line(level2_heading(h@)),
        splice_result(existing, task_line(built_task(input)), pos) is Ok,
    ensures
        ({
            let (c, n) = splice_result(existing, task_line(built_task(input)), pos)->Ok_0;
            parse_task(file_lines(c)[n - 1], file, n) == Some(
                crate::task::round_trip::read_back(built_task(input), file, n),
            )
        }),
{
    let t = built_task(input);
    lemma_splice_places_line(existing, task_line(t), pos);
    let (c, n) = splice_result(existing, task_line(t), pos)->Ok_0;
    crate::task::round_trip::lemma_parse_serialized(t, file, n);
}

} // verus!
