//! Boolean predicate trees over tasks, compiled from the query language.

use vstd::prelude::*;

use crate::date::{date_lt, Date};
use crate::task::{Priority, Status, Task, TaskSpec};
use crate::text::{contains, contains_exec, to_chars};

verus! {

/// A boolean combination of atomic predicates.
#[derive(Debug, PartialEq, Eq)]
pub enum Expr {
    Atom(Atom),
    And(Vec<Expr>),
    Or(Vec<Expr>),
    Not(Box<Expr>),
}

/// An atomic predicate on a task.
#[derive(Debug, Clone, PartialEq, Eq)]
pub enum Atom {
    Status(Status),
    Priority(Priority),
    /// The source file's path contains this substring.
    PathIncludes(String),
    /// The task carries this tag (without its `#`).
    HasTag(String),
    DueBefore(Date),
    DueAfter(Date),
    DueOn(Date),
    ScheduledBefore(Date),
    ScheduledAfter(Date),
    ScheduledOn(Date),
    CompletedBefore(Date),
    CompletedAfter(Date),
    CompletedOn(Date),
    /// Status is done.
    Done,
    /// Still actionable: open or in progress.
    NotDone,
    HasDue,
    NoDue,
}

/// Mathematical value of an [`Atom`].
pub enum AtomSpec {
    Status(Status),
    Priority(Priority),
    PathIncludes(Seq<char>),
    HasTag(Seq<char>),
    DueBefore(Date),
    DueAfter(Date),
    DueOn(Date),
    ScheduledBefore(Date),
    ScheduledAfter(Date),
    ScheduledOn(Date),
    CompletedBefore(Date),
    CompletedAfter(Date),
    CompletedOn(Date),
    Done,
    NotDone,
    HasDue,
    NoDue,
}

/// Mathematical value of an [`Expr`].
pub enum ExprSpec {
    Atom(AtomSpec),
    And(Seq<ExprSpec>),
    Or(Seq<ExprSpec>),
    Not(Box<ExprSpec>),
}

impl View for Atom {
    type V = AtomSpec;

    open spec fn view(&self) -> AtomSpec {
        match *self {
            Atom::Status(s) => AtomSpec::Status(s),
            Atom::Priority(p) => AtomSpec::Priority(p),
            Atom::PathIncludes(s) => AtomSpec::PathIncludes(s@),
            Atom::HasTag(s) => AtomSpec::HasTag(s@),
            Atom::DueBefore(d) => AtomSpec::DueBefore(d),
            Atom::DueAfter(d) => AtomSpec::DueAfter(d),
            Atom::DueOn(d) => AtomSpec::DueOn(d),
            Atom::ScheduledBefore(d) => AtomSpec::ScheduledBefore(d),
            Atom::ScheduledAfter(d) => AtomSpec::ScheduledAfter(d),
            Atom::ScheduledOn(d) => AtomSpec::ScheduledOn(d),
            Atom::CompletedBefore(d) => AtomSpec::CompletedBefore(d),
            Atom::CompletedAfter(d) => AtomSpec::CompletedAfter(d),
            Atom::CompletedOn(d) => AtomSpec::CompletedOn(d),
            Atom::Done => AtomSpec::Done,
            Atom::NotDone => AtomSpec::NotDone,
            Atom::HasDue => AtomSpec::HasDue,
            Atom::NoDue => AtomSpec::NoDue,
        }
    }
}

/// The value of `e`.
pub open spec fn expr_view(e: Expr) -> ExprSpec
    decreases e,
{
    match e {
        Expr::Atom(a) => ExprSpec::Atom(a@),
        Expr::And(v) => ExprSpec::And(exprs_view(v@)),
        Expr::Or(v) => ExprSpec::Or(exprs_view(v@)),
        Expr::Not(b) => ExprSpec::Not(Box::new(expr_view(*b))),
    }
}

/// The values of `es`.
pub open spec fn exprs_view(es: Seq<Expr>) -> Seq<ExprSpec>
    decreases es,
{
    if es.len() == 0 {
        Seq::empty()
    } else {
        exprs_view(es.drop_last()).push(expr_view(es.last()))
    }
}

/// `d` is `Some` date that stands in relation `rel` to `x`
/// (`rel` is -1 for before, 0 for on, 1 for after).
pub open spec fn date_rel(d: Option<Date>, rel: int, x: Date) -> bool {
    match d {
        Some(td) => if rel < 0 {
            date_lt(td, x)
        } else if rel == 0 {
            td == x
        } else {
            date_lt(x, td)
        },
        None => false,
    }
}

/// Task `t` satisfies atom `a`.
pub open spec fn atom_holds(a: AtomSpec, t: TaskSpec) -> bool {
    match a {
        AtomSpec::Status(s) => t.status == s,
        AtomSpec::Priority(p) => t.priority == Some(p),
        AtomSpec::PathIncludes(n) => contains(t.source_file, n),
        AtomSpec::HasTag(g) => t.tags.contains(g),
        AtomSpec::DueBefore(d) => date_rel(t.due, -1, d),
        AtomSpec::DueAfter(d) => date_rel(t.due, 1, d),
        AtomSpec::DueOn(d) => date_rel(t.due, 0, d),
        AtomSpec::ScheduledBefore(d) => date_rel(t.scheduled, -1, d),
        AtomSpec::ScheduledAfter(d) => date_rel(t.scheduled, 1, d),
        AtomSpec::ScheduledOn(d) => date_rel(t.scheduled, 0, d),
        AtomSpec::CompletedBefore(d) => date_rel(t.done, -1, d),
        AtomSpec::CompletedAfter(d) => date_rel(t.done, 1, d),
        AtomSpec::CompletedOn(d) => date_rel(t.done, 0, d),
        AtomSpec::Done => t.status == Status::Done,
        AtomSpec::NotDone => t.status == Status::Open || t.status == Status::InProgress,
        AtomSpec::HasDue => t.due is Some,
        AtomSpec::NoDue => t.due is None,
    }
}

/// Task `t` satisfies expression `e`: every part of an `And`, some part
/// of an `Or`, not the operand of a `Not`.
pub open spec fn expr_holds(e: ExprSpec, t: TaskSpec) -> bool
    decreases e,
{
    match e {
        ExprSpec::Atom(a) => atom_holds(a, t),
        ExprSpec::And(ps) => all_hold(ps, t),
        ExprSpec::Or(ps) => any_holds(ps, t),
        ExprSpec::Not(b) => !expr_holds(*b, t),
    }
}

pub open spec fn all_hold(ps: Seq<ExprSpec>, t: TaskSpec) -> bool
    decreases ps,
{
    if ps.len() == 0 {
        true
    } else {
        all_hold(ps.drop_last(), t) && expr_holds(ps.last(), t)
    }
}

pub open spec fn any_holds(ps: Seq<ExprSpec>, t: TaskSpec) -> bool
    decreases ps,
{
    if ps.len() == 0 {
        false
    } else {
        any_holds(ps.drop_last(), t) || expr_holds(ps.last(), t)
    }
}

fn date_rel_exec(d: Option<Date>, rel: i8, x: Date) -> (r: bool)
    ensures
        r == date_rel(d, rel as int, x),
{
    match d {
        Some(td) => {
            let lt = td.before(&x);
            let gt = x.before(&td);
            if rel < 0 {
                lt
            } else if rel == 0 {
                !lt && !gt
            } else {
                gt
            }
        },
        None => false,
    }
}

impl Atom {
    /// `task` satisfies this atom (see [`atom_holds`]).
    pub fn matches(&self, task: &Task) -> (r: bool)
        ensures
            r == atom_holds(self@, task@),
    {
        match self {
            Atom::Status(s) => task.status == *s,
            Atom::Priority(p) => match task.priority {
                Some(tp) => tp == *p,
                None => false,
            },
            Atom::PathIncludes(needle) => contains_exec(
                &to_chars(task.source_file.as_str()),
                &to_chars(needle.as_str()),
            ),
            Atom::HasTag(tag) => {
                let mut i: usize = 0;
                while i < task.tags.len()
                    invariant
                        i <= task.tags@.len(),
                        self@ == AtomSpec::HasTag(tag@),
                        forall|j: int| 0 <= j < i ==> task.tags@[j]@ != tag@,
                    decreases task.tags@.len() - i,
                {
                    if crate::text::str_eq(task.tags[i].as_str(), tag.as_str()) {
                        proof {
                            assert(task@.tags[i as int] == tag@);
                            assert(task@.tags.contains(tag@));
                        }
                        return true;
                    }
                    i += 1;
                }
                proof {
                    assert forall|j: int| 0 <= j < task@.tags.len() implies task@.tags[j] != tag@ by {
                        assert(task@.tags[j] == task.tags@[j]@);
                    }
                }
                false
            },
            Atom::DueBefore(d) => date_rel_exec(task.due, -1, *d),
            Atom::DueAfter(d) => date_rel_exec(task.due, 1, *d),
            Atom::DueOn(d) => date_rel_exec(task.due, 0, *d),
            Atom::ScheduledBefore(d) => date_rel_exec(task.scheduled, -1, *d),
            Atom::ScheduledAfter(d) => date_rel_exec(task.scheduled, 1, *d),
            Atom::ScheduledOn(d) => date_rel_exec(task.scheduled, 0, *d),
            Atom::CompletedBefore(d) => date_rel_exec(task.done, -1, *d),
            Atom::CompletedAfter(d) => date_rel_exec(task.done, 1, *d),
            Atom::CompletedOn(d) => date_rel_exec(task.done, 0, *d),
            Atom::Done => task.status == Status::Done,
            Atom::NotDone => task.status == Status::Open || task.status == Status::InProgress,
            Atom::HasDue => task.due.is_some(),
            Atom::NoDue => task.due.is_none(),
        }
    }
}

proof fn lemma_exprs_view_at(s: Seq<Expr>)
    ensures
        exprs_view(s).len() == s.len(),
        forall|i: int| 0 <= i < s.len() ==> #[trigger] exprs_view(s)[i] == expr_view(s[i]),
    decreases s.len(),
{
    if s.len() > 0 {
        lemma_exprs_view_at(s.drop_last());
        assert forall|i: int| 0 <= i < s.len() implies #[trigger] exprs_view(s)[i] == expr_view(s[i]) by {
            if i < s.len() - 1 {
                assert(s.drop_last()[i] == s[i]);
            }
        }
    }
}

proof fn lemma_all_hold_take(ps: Seq<ExprSpec>, t: TaskSpec, k: int)
    requires
        0 <= k < ps.len(),
    ensures
        all_hold(ps.take(k + 1), t) == (all_hold(ps.take(k), t) && expr_holds(ps[k], t)),
        any_holds(ps.take(k + 1), t) == (any_holds(ps.take(k), t) || expr_holds(ps[k], t)),
{
    assert(ps.take(k + 1).drop_last() =~= ps.take(k));
}

impl Expr {
    /// `task` satisfies this expression (see [`expr_holds`]).
    pub fn matches(&self, task: &Task) -> (r: bool)
        ensures
            r == expr_holds(expr_view(*self), task@),
        decreases self,
    {
        match self {
            Expr::Atom(a) => a.matches(task),
            Expr::And(parts) => {
                let ghost ps = exprs_view(parts@);
                proof {
                    lemma_exprs_view_at(parts@);
                    assert(ps.take(0) =~= Seq::<ExprSpec>::empty());
                }
                let mut ok = true;
                let mut i: usize = 0;
                while i < parts.len()
                    invariant
                        i <= parts@.len() == ps.len(),
                        ps == exprs_view(parts@),
                        *self == Expr::And(*parts),
                        forall|j: int| 0 <= j < parts@.len() ==> #[trigger] ps[j] == expr_view(parts@[j]),
                        ok == all_hold(ps.take(i as int), task@),
                    decreases parts@.len() - i,
                {
                    proof {
                        lemma_all_hold_take(ps, task@, i as int);
                    }
                    proof {
                        assert(decreases_to!(*self => (*self)->And_0));
                        assert(decreases_to!(*parts => parts@));
                        assert(decreases_to!(parts@ => parts@[i as int]));
                    }
                    let m = parts[i].matches(task);
                    ok = ok && m;
                    i += 1;
                }
                proof {
                    assert(ps.take(i as int) =~= ps);
                }
                ok
            },
            Expr::Or(parts) => {
                let ghost ps = exprs_view(parts@);
                proof {
                    lemma_exprs_view_at(parts@);
                    assert(ps.take(0) =~= Seq::<ExprSpec>::empty());
                }
                let mut any = false;
                let mut i: usize = 0;
                while i < parts.len()
                    invariant
                        i <= parts@.len() == ps.len(),
                        ps == exprs_view(parts@),
                        *self == Expr::Or(*parts),
                        forall|j: int| 0 <= j < parts@.len() ==> #[trigger] ps[j] == expr_view(parts@[j]),
                        any == any_holds(ps.take(i as int), task@),
                    decreases parts@.len() - i,
                {
                    proof {
                        lemma_all_hold_take(ps, task@, i as int);
                    }
                    proof {
                        assert(decreases_to!(*self => (*self)->Or_0));
                        assert(decreases_to!(*parts => parts@));
                        assert(decreases_to!(parts@ => parts@[i as int]));
                    }
                    let m = parts[i].matches(task);
                    any = any || m;
                    i += 1;
                }
                proof {
                    assert(ps.take(i as int) =~= ps);
                }
                any
            },
            Expr::Not(inner) => !inner.matches(task),
        }
    }
}


/// `a` comes before `b` on the calendar: an earlier year, or the same year
/// and an earlier month, or the same month and an earlier day.
pub open spec fn earlier(a: Date, b: Date) -> bool {
    a.year < b.year || (a.year == b.year && a.month < b.month) || (a.year == b.year && a.month == b.month && a.day
        < b.day)
}

/// What each atom asks of a task. A date comparison holds only for a task
/// that has that date: "before" when the task's date is earlier, "after"
/// when it is later, "on" when it is the same day; for a task that has the
/// date exactly one of the three holds. "done" is the done status, "not
/// done" open or in progress, and the rest compare the field they name.
pub proof fn lemma_atom_meaning(t: TaskSpec, d: Date)
    ensures
        atom_holds(AtomSpec::CompletedBefore(d), t) <==> (t.done matches Some(x) && earlier(x, d)),
        atom_holds(AtomSpec::CompletedAfter(d), t) <==> (t.done matches Some(x) && earlier(d, x)),
        atom_holds(AtomSpec::CompletedOn(d), t) <==> t.done == Some(d),
        atom_holds(AtomSpec::DueBefore(d), t) <==> (t.due matches Some(x) && earlier(x, d)),
        atom_holds(AtomSpec::DueAfter(d), t) <==> (t.due matches Some(x) && earlier(d, x)),
        atom_holds(AtomSpec::DueOn(d), t) <==> t.due == Some(d),
        atom_holds(AtomSpec::ScheduledBefore(d), t) <==> (t.scheduled matches Some(x) && earlier(x, d)),
        atom_holds(AtomSpec::ScheduledAfter(d), t) <==> (t.scheduled matches Some(x) && earlier(d, x)),
        atom_holds(AtomSpec::ScheduledOn(d), t) <==> t.scheduled == Some(d),
        t.done is Some ==> (atom_holds(AtomSpec::CompletedBefore(d), t) || atom_holds(AtomSpec::CompletedOn(d), t)
            || atom_holds(AtomSpec::CompletedAfter(d), t)),
        !(atom_holds(AtomSpec::CompletedBefore(d), t) && atom_holds(AtomSpec::CompletedAfter(d), t)),
        !(atom_holds(AtomSpec::CompletedBefore(d), t) && atom_holds(AtomSpec::CompletedOn(d), t)),
        !(atom_holds(AtomSpec::DueBefore(d), t) && atom_holds(AtomSpec::DueAfter(d), t)),
        !(atom_holds(AtomSpec::ScheduledBefore(d), t) && atom_holds(AtomSpec::ScheduledAfter(d), t)),
        atom_holds(AtomSpec::Done, t) <==> t.status == Status::Done,
        atom_holds(AtomSpec::NotDone, t) <==> (t.status == Status::Open || t.status == Status::InProgress),
        atom_holds(AtomSpec::HasDue, t) <==> t.due is Some,
        atom_holds(AtomSpec::NoDue, t) <==> t.due is None,
        forall|s: Status| #[trigger] atom_holds(AtomSpec::Status(s), t) <==> t.status == s,
        forall|p: Priority| #[trigger] atom_holds(AtomSpec::Priority(p), t) <==> t.priority == Some(p),
        forall|g: Seq<char>| #[trigger] atom_holds(AtomSpec::HasTag(g), t) <==> t.tags.contains(g),
        forall|n: Seq<char>| #[trigger] atom_holds(AtomSpec::PathIncludes(n), t) <==> contains(t.source_file, n),
{
}

} // verus!
