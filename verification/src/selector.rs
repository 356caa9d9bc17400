//! Picking tasks out of a vault scan by a user's selector.
//!
//! Three forms: an id (the `🆔` field), `<path>:<line>`, or anything else
//! as a case-insensitive substring of the description or path.

use vstd::prelude::*;

use crate::task::{Status, Task};
use crate::text::{
    contains, contains_exec, ends_with, is_alphanumeric, last_index, lower, lower_vec, parse_unsigned,
    parse_unsigned_exec, rfind_char, string_of, to_chars, unicode_alnum,
};

verus! {

/// How a user picks a task.
#[derive(Debug, Clone, PartialEq, Eq)]
pub enum Selector {
    Id(String),
    FileLine { file: String, line: usize },
    Fuzzy(String),
}

/// Mathematical value of a [`Selector`].
pub enum SelectorSpec {
    Id(Seq<char>),
    FileLine { file: Seq<char>, line: nat },
    Fuzzy(Seq<char>),
}

pub open spec fn selector_view(s: Selector) -> SelectorSpec {
    match s {
        Selector::Id(i) => SelectorSpec::Id(i@),
        Selector::FileLine { file, line } => SelectorSpec::FileLine { file: file@, line: line as nat },
        Selector::Fuzzy(f) => SelectorSpec::Fuzzy(f@),
    }
}

/// What [`parse`] makes of `s`: `<path>:<line>` when the text after the
/// last `:` is a positive number and the path is not empty; an id when
/// `s` is a non-empty run of alphanumeric characters, `_` and `-`; a fuzzy
/// selector otherwise.
pub open spec fn selector_of(s: Seq<char>) -> SelectorSpec {
    let p = last_index(s, ':', s.len() as int);
    let line = if p >= 0 { parse_unsigned(s.skip(p + 1), usize::MAX as nat) } else { None };
    if p > 0 && line is Some && line->0 > 0 {
        SelectorSpec::FileLine { file: s.take(p), line: line->0 }
    } else if s.len() > 0 && forall|i: int| 0 <= i < s.len() ==> unicode_alnum(#[trigger] s[i]) || s[i] == '_' || s[i] == '-' {
        SelectorSpec::Id(s)
    } else {
        SelectorSpec::Fuzzy(s)
    }
}

/// Classify a user's selector (see [`selector_of`]).
pub fn parse(s: &str) -> (r: Selector)
    ensures
        selector_view(r) == selector_of(s@),
{
    let cs = to_chars(s);
    let _n = cs.len();
    proof {
        crate::text::lemma_last_index_bounds(cs@, ':', cs@.len() as int);
    }
    match rfind_char(&cs, ':') {
        Some(p) => {
            let tail = crate::text::slice_vec(&cs, p + 1, cs.len());
            proof {
                assert(tail@ =~= cs@.skip(p + 1));
            }
            match parse_unsigned_exec(&tail, usize::MAX as u64) {
                Some(line) => {
                    if line > 0 && p > 0 {
                        let file = string_of(&cs, 0, p);
                        proof {
                            assert(file@ =~= cs@.take(p as int));
                        }
                        return Selector::FileLine { file, line: line as usize };
                    }
                },
                None => {},
            }
        },
        None => {},
    }
    let mut all = cs.len() > 0;
    let mut i: usize = 0;
    while i < cs.len()
        invariant
            i <= cs@.len(),
            all == (cs@.len() > 0 && forall|j: int| 0 <= j < i ==> unicode_alnum(#[trigger] cs@[j]) || cs@[j] == '_' || cs@[j] == '-'),
        decreases cs@.len() - i,
    {
        let c = cs[i];
        let ok = is_alphanumeric(c) || c == '_' || c == '-';
        all = all && ok;
        i += 1;
    }
    if all {
        Selector::Id(s.to_string())
    } else {
        Selector::Fuzzy(s.to_string())
    }
}

/// Whether `std::path::Path::new(a) == std::path::Path::new(b)`: the paths
/// have the same components.
pub uninterp spec fn same_path(a: Seq<char>, b: Seq<char>) -> bool;

/// Some path of `xs` equals `p` as a `Path`.
pub open spec fn has_path(xs: Seq<Seq<char>>, p: Seq<char>) -> bool {
    exists|i: int| 0 <= i < xs.len() && same_path(#[trigger] xs[i], p)
}

/// `Path` equality of two paths. The result is named by [`same_path`];
/// the comparison is by components, so it is symmetric, and equal texts
/// give equal paths.
#[verifier::external_body]
pub(crate) fn path_eq(a: &str, b: &str) -> (r: bool)
    ensures
        r == same_path(a@, b@),
        r == same_path(b@, a@),
        a@ == b@ ==> r,
{
    std::path::Path::new(a) == std::path::Path::new(b)
}

/// `t` is picked by selector `s`: an id selects equal ids; a file/line
/// selects that line of a path equal to or ending with the given one; a
/// fuzzy selector picks tasks not done whose description or path contains
/// it, ignoring ASCII case.
pub open spec fn picks_task(s: SelectorSpec, t: crate::task::TaskSpec) -> bool {
    match s {
        SelectorSpec::Id(i) => t.id == Some(i),
        SelectorSpec::FileLine { file, line } => t.source_line == line && (same_path(t.source_file, file)
            || t.source_file == file || ends_with(t.source_file, file)),
        SelectorSpec::Fuzzy(n) => t.status != Status::Done && (contains(lower(t.description), lower(n))
            || contains(lower(t.source_file), lower(n))),
    }
}

fn ends_with_exec(s: &Vec<char>, p: &Vec<char>) -> (r: bool)
    ensures
        r == ends_with(s@, p@),
{
    if p.len() > s.len() {
        return false;
    }
    let r = crate::text::occurs_at_exec(s, p, s.len() - p.len());
    proof {
        assert(r == (s@.subrange(s@.len() - p@.len(), s@.len() as int) == p@));
    }
    r
}

fn picks_exec(s: &Selector, t: &Task) -> (r: bool)
    ensures
        r == picks_task(selector_view(*s), t@),
{
    match s {
        Selector::Id(i) => match &t.id {
            Some(x) => crate::text::str_eq(x.as_str(), i.as_str()),
            None => false,
        },
        Selector::FileLine { file, line } => t.source_line == *line && (path_eq(t.source_file.as_str(), file.as_str())
            || crate::text::str_eq(t.source_file.as_str(), file.as_str()) || ends_with_exec(
            &to_chars(t.source_file.as_str()),
            &to_chars(file.as_str()),
        )),
        Selector::Fuzzy(n) => {
            let nl = lower_vec(&to_chars(n.as_str()));
            t.status != Status::Done && (contains_exec(&lower_vec(&to_chars(t.description.as_str())), &nl)
                || contains_exec(&lower_vec(&to_chars(t.source_file.as_str())), &nl))
        },
    }
}

/// The tasks of `tasks[..k]` that `s` picks, in order.
pub open spec fn picked_tasks(s: SelectorSpec, tasks: Seq<Task>, k: int) -> Seq<Task>
    decreases k,
{
    if k <= 0 || k > tasks.len() {
        Seq::empty()
    } else if picks_task(s, tasks[k - 1]@) {
        picked_tasks(s, tasks, k - 1).push(tasks[k - 1])
    } else {
        picked_tasks(s, tasks, k - 1)
    }
}

/// Every task of `tasks` that `selector` picks, in order (see
/// [`picks_task`]).
pub fn resolve<'a>(tasks: &'a Vec<Task>, selector: &Selector) -> (r: Vec<&'a Task>)
    ensures
        r@.len() == picked_tasks(selector_view(*selector), tasks@, tasks@.len() as int).len(),
        forall|k: int| 0 <= k < r@.len() ==> *#[trigger] r@[k] == picked_tasks(selector_view(*selector), tasks@, tasks@.len() as int)[k],
{
    let ghost sv = selector_view(*selector);
    let mut out: Vec<&'a Task> = Vec::new();
    let mut i: usize = 0;
    while i < tasks.len()
        invariant
            i <= tasks@.len(),
            sv == selector_view(*selector),
            out@.len() == picked_tasks(sv, tasks@, i as int).len(),
            forall|k: int| 0 <= k < out@.len() ==> *#[trigger] out@[k] == picked_tasks(sv, tasks@, i as int)[k],
        decreases tasks@.len() - i,
    {
        if picks_exec(selector, &tasks[i]) {
            out.push(&tasks[i]);
        }
        i += 1;
    }
    out
}


/// What each selector picks. An id picks the tasks with that id. A file
/// and line picks only tasks on that line, and every task on that line of
/// that very file. A fuzzy needle never picks a done task, picks only
/// tasks whose description or path holds it (ignoring ASCII case), and
/// picks every task not done — open, in progress or cancelled — whose
/// description or path holds it.
pub proof fn lemma_selector_meaning(t: crate::task::TaskSpec, n: Seq<char>, id: Seq<char>, file: Seq<char>, line: nat)
    ensures
        picks_task(SelectorSpec::Id(id), t) <==> t.id == Some(id),
        picks_task(SelectorSpec::FileLine { file, line }, t) ==> t.source_line == line,
        (t.source_line == line && t.source_file == file) ==> picks_task(SelectorSpec::FileLine { file, line }, t),
        picks_task(SelectorSpec::Fuzzy(n), t) ==> t.status != Status::Done,
        picks_task(SelectorSpec::Fuzzy(n), t) ==> (contains(lower(t.description), lower(n)) || contains(
            lower(t.source_file),
            lower(n),
        )),
        (t.status != Status::Done && contains(lower(t.description), lower(n))) ==> picks_task(
            SelectorSpec::Fuzzy(n),
            t,
        ),
        (t.status != Status::Done && contains(lower(t.source_file), lower(n))) ==> picks_task(
            SelectorSpec::Fuzzy(n),
            t,
        ),
{
}

} // verus!
