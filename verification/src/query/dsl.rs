//! Tokenizer and recursive-descent parser for the supported subset of the
//! Obsidian Tasks query language.

use vstd::prelude::*;

use crate::date::{add_days, chrono_add_days, chrono_parse_date, parse_iso_date, valid_date, Date, MAX_YEAR, MIN_YEAR};
use crate::markdown::{count_run, run_len};
use crate::query::expr::Atom;
use crate::query::expr::{expr_view, exprs_view, AtomSpec, Expr, ExprSpec};
use crate::query::sort::{SortKey, SortOrder};
use crate::task::{Priority, Status};
use crate::text::{is_ws, join_spaces, lower, lower_eq, lower_vec, parse_unsigned, parse_unsigned_exec, push_all, push_char, push_str, string_of_all, to_chars, vec_eq_str};

verus! {

/// Errors of the query language, each naming the offending text.
#[derive(Debug, Clone, PartialEq, Eq)]
pub enum DslError {
    UnexpectedToken { found: String, expected: String },
    UnknownIdentifier(String),
    InvalidDate(String),
    InvalidNumber(String),
    UnterminatedString,
    UnsupportedFeature(String),
    EmptyInput,
    TrailingTokens(String),
}

/// The text of a query-language error.
pub open spec fn dsl_error_text(e: DslError) -> Seq<char> {
    match e {
        DslError::UnexpectedToken { found, expected } => "expected "@ + expected@ + ", found `"@ + found@ + "`"@,
        DslError::UnknownIdentifier(s) => "unknown identifier `"@ + s@ + "`"@,
        DslError::InvalidDate(s) => "invalid date `"@ + s@ + "` (expected YYYY-MM-DD or today/tomorrow/yesterday)"@,
        DslError::InvalidNumber(s) => "invalid number `"@ + s@ + "`"@,
        DslError::UnterminatedString => "unterminated string literal"@,
        DslError::UnsupportedFeature(s) => "unsupported query feature: `"@ + s@ + "` — see docs/query-dsl.md"@,
        DslError::EmptyInput => "empty query"@,
        DslError::TrailingTokens(s) => "unexpected trailing tokens after query: `"@ + s@ + "`"@,
    }
}

impl DslError {
    /// Human-readable rendering of the error (see [`dsl_error_text`]).
    pub fn message(&self) -> (r: String)
        ensures
            r@ == dsl_error_text(*self),
    {
        match self {
            DslError::UnexpectedToken { found, expected } => crate::text::concat5(
                "expected ",
                expected.as_str(),
                ", found `",
                found.as_str(),
                "`",
            ),
            DslError::UnknownIdentifier(s) => crate::text::concat3("unknown identifier `", s.as_str(), "`"),
            DslError::InvalidDate(s) => crate::text::concat3(
                "invalid date `",
                s.as_str(),
                "` (expected YYYY-MM-DD or today/tomorrow/yesterday)",
            ),
            DslError::InvalidNumber(s) => crate::text::concat3("invalid number `", s.as_str(), "`"),
            DslError::UnterminatedString => crate::text::owned("unterminated string literal"),
            DslError::UnsupportedFeature(s) => crate::text::concat3(
                "unsupported query feature: `",
                s.as_str(),
                "` — see docs/query-dsl.md",
            ),
            DslError::EmptyInput => crate::text::owned("empty query"),
            DslError::TrailingTokens(s) => crate::text::concat3(
                "unexpected trailing tokens after query: `",
                s.as_str(),
                "`",
            ),
        }
    }
}

/// The sort key named by `s` (case-insensitive).
pub open spec fn sort_key_named(s: Seq<char>) -> Option<SortKey> {
    let l = lower(s);
    if l == "due"@ {
        Some(SortKey::Due)
    } else if l == "scheduled"@ {
        Some(SortKey::Scheduled)
    } else if l == "priority"@ {
        Some(SortKey::Priority)
    } else if l == "path"@ {
        Some(SortKey::Path)
    } else if l == "description"@ {
        Some(SortKey::Description)
    } else if l == "status"@ {
        Some(SortKey::Status)
    } else {
        None
    }
}

/// Parse a sort key name, case-insensitively; an unknown name is an
/// `UnknownIdentifier` error naming it.
pub fn parse_sort_key(s: &str) -> (r: Result<SortKey, DslError>)
    ensures
        match (r, sort_key_named(s@)) {
            (Ok(k), Some(k2)) => k == k2,
            (Err(DslError::UnknownIdentifier(m)), None) => m@ == "sort key `"@ + lower(s@) + "`"@,
            _ => false,
        },
{
    let v = to_chars(s);
    if lower_eq(&v, "due") {
        Ok(SortKey::Due)
    } else if lower_eq(&v, "scheduled") {
        Ok(SortKey::Scheduled)
    } else if lower_eq(&v, "priority") {
        Ok(SortKey::Priority)
    } else if lower_eq(&v, "path") {
        Ok(SortKey::Path)
    } else if lower_eq(&v, "description") {
        Ok(SortKey::Description)
    } else if lower_eq(&v, "status") {
        Ok(SortKey::Status)
    } else {
        let mut m = String::new();
        push_str(&mut m, "sort key `");
        push_all(&mut m, &lower_vec(&v));
        push_str(&mut m, "`");
        Err(DslError::UnknownIdentifier(m))
    }
}

// ── the language, as specifications ──────────────────────────────────────────

/// Mathematical value of a [`DslError`].
pub enum DslErrorSpec {
    UnexpectedToken { found: Seq<char>, expected: Seq<char> },
    UnknownIdentifier(Seq<char>),
    InvalidDate(Seq<char>),
    InvalidNumber(Seq<char>),
    UnterminatedString,
    UnsupportedFeature(Seq<char>),
    EmptyInput,
    TrailingTokens(Seq<char>),
}

pub open spec fn dsl_error_view(e: DslError) -> DslErrorSpec {
    match e {
        DslError::UnexpectedToken { found, expected } => DslErrorSpec::UnexpectedToken {
            found: found@,
            expected: expected@,
        },
        DslError::UnknownIdentifier(s) => DslErrorSpec::UnknownIdentifier(s@),
        DslError::InvalidDate(s) => DslErrorSpec::InvalidDate(s@),
        DslError::InvalidNumber(s) => DslErrorSpec::InvalidNumber(s@),
        DslError::UnterminatedString => DslErrorSpec::UnterminatedString,
        DslError::UnsupportedFeature(s) => DslErrorSpec::UnsupportedFeature(s@),
        DslError::EmptyInput => DslErrorSpec::EmptyInput,
        DslError::TrailingTokens(s) => DslErrorSpec::TrailingTokens(s@),
    }
}

/// A token of a query.
pub enum TokenSpec {
    Word(Seq<char>),
    Quoted(Seq<char>),
    LParen,
    RParen,
    Comma,
}

/// A character that ends a bare word.
pub open spec fn word_stop(c: char) -> bool {
    is_ws(c) || c == '(' || c == ')' || c == ',' || c == '"'
}

/// The end of the bare word starting at `i`.
pub open spec fn bare_word_end(s: Seq<char>, i: int) -> int
    decreases s.len() - i,
{
    if i < 0 || i >= s.len() || word_stop(s[i]) {
        if i < 0 { 0 } else if i > s.len() { s.len() as int } else { i }
    } else {
        bare_word_end(s, i + 1)
    }
}

pub proof fn lemma_bare_word_end(s: Seq<char>, i: int)
    requires
        0 <= i <= s.len(),
    ensures
        i <= bare_word_end(s, i) <= s.len(),
        forall|k: int| i <= k < bare_word_end(s, i) ==> !word_stop(#[trigger] s[k]),
        bare_word_end(s, i) < s.len() ==> word_stop(s[bare_word_end(s, i)]),
    decreases s.len() - i,
{
    if i < s.len() && !word_stop(s[i]) {
        lemma_bare_word_end(s, i + 1);
    }
}

/// The tokens of `s` from index `i` on: whitespace separates, `(`, `)` and
/// `,` stand alone, `"…"` is a quoted string, and anything else runs to
/// the next separator as a bare word.
pub open spec fn tokens_from(s: Seq<char>, i: int) -> Result<Seq<TokenSpec>, DslErrorSpec>
    decreases s.len() - i,
{
    if i < 0 || i >= s.len() {
        Ok(Seq::empty())
    } else if is_ws(s[i]) {
        tokens_from(s, i + 1)
    } else if s[i] == '(' || s[i] == ')' || s[i] == ',' {
        let t = if s[i] == '(' {
            TokenSpec::LParen
        } else if s[i] == ')' {
            TokenSpec::RParen
        } else {
            TokenSpec::Comma
        };
        match tokens_from(s, i + 1) {
            Ok(ts) => Ok(seq![t] + ts),
            Err(e) => Err(e),
        }
    } else if s[i] == '"' {
        let q = crate::text::find_from(s, '"', i + 1);
        proof {
            crate::text::lemma_find_from_bounds(s, '"', i + 1);
        }
        if q >= s.len() {
            Err(DslErrorSpec::UnterminatedString)
        } else {
            match tokens_from(s, q + 1) {
                Ok(ts) => Ok(seq![TokenSpec::Quoted(s.subrange(i + 1, q))] + ts),
                Err(e) => Err(e),
            }
        }
    } else {
        let e = bare_word_end(s, i);
        proof {
            lemma_bare_word_end(s, i);
        }
        if e <= i {
            Err(DslErrorSpec::EmptyInput)
        } else {
            match tokens_from(s, e) {
                Ok(ts) => Ok(seq![TokenSpec::Word(s.subrange(i, e))] + ts),
                Err(err) => Err(err),
            }
        }
    }
}

/// The text a token stands for in messages.
pub open spec fn token_text(t: TokenSpec) -> Seq<char> {
    match t {
        TokenSpec::Word(s) => s,
        TokenSpec::Quoted(s) => s,
        TokenSpec::LParen => seq!['('],
        TokenSpec::RParen => seq![')'],
        TokenSpec::Comma => seq![','],
    }
}

/// The text of the token at `p`, or nothing past the end.
pub open spec fn found_at(toks: Seq<TokenSpec>, p: int) -> Seq<char> {
    if 0 <= p < toks.len() {
        token_text(toks[p])
    } else {
        Seq::empty()
    }
}

/// The bare word at `p`.
pub open spec fn word_at(toks: Seq<TokenSpec>, p: int) -> Option<Seq<char>> {
    if 0 <= p < toks.len() {
        match toks[p] {
            TokenSpec::Word(w) => Some(w),
            _ => None,
        }
    } else {
        None
    }
}

/// The bare word at `p` is `kw`, ignoring ASCII case (`kw` in lower case).
pub open spec fn kw_at(toks: Seq<TokenSpec>, p: int, kw: Seq<char>) -> bool {
    word_at(toks, p) matches Some(w) && lower(w) == kw
}

/// ``"`" + kw + "`"``.
pub open spec fn quoted_kw(kw: Seq<char>) -> Seq<char> {
    seq!['`'] + kw + seq!['`']
}

/// The word or quoted string at `p`, and the position after it.
pub open spec fn value_at(toks: Seq<TokenSpec>, p: int) -> Result<(Seq<char>, int), DslErrorSpec> {
    if 0 <= p < toks.len() {
        match toks[p] {
            TokenSpec::Word(s) => Ok((s, p + 1)),
            TokenSpec::Quoted(s) => Ok((s, p + 1)),
            _ => Err(DslErrorSpec::UnexpectedToken { found: found_at(toks, p), expected: "value"@ }),
        }
    } else {
        Err(DslErrorSpec::UnexpectedToken { found: Seq::empty(), expected: "value"@ })
    }
}

/// The status named by `s` (case-insensitive).
pub open spec fn status_named(s: Seq<char>) -> Option<Status> {
    let l = lower(s);
    if l == "open"@ || l == "todo"@ {
        Some(Status::Open)
    } else if l == "done"@ || l == "complete"@ || l == "completed"@ {
        Some(Status::Done)
    } else if l == "in-progress"@ || l == "in_progress"@ || l == "doing"@ {
        Some(Status::InProgress)
    } else if l == "cancelled"@ || l == "canceled"@ {
        Some(Status::Cancelled)
    } else {
        None
    }
}

/// The priority named by `s` (case-insensitive).
pub open spec fn priority_named(s: Seq<char>) -> Option<Priority> {
    let l = lower(s);
    if l == "highest"@ {
        Some(Priority::Highest)
    } else if l == "high"@ {
        Some(Priority::High)
    } else if l == "medium"@ || l == "normal"@ {
        Some(Priority::Medium)
    } else if l == "low"@ {
        Some(Priority::Low)
    } else if l == "lowest"@ {
        Some(Priority::Lowest)
    } else {
        None
    }
}

/// The date a value names: `today`, `tomorrow`, `yesterday`
/// (case-insensitive) relative to `today`, or a `YYYY-MM-DD` date as chrono
/// reads it.
pub open spec fn date_named(s: Seq<char>, today: Date) -> Result<Date, DslErrorSpec> {
    let l = lower(s);
    if l == "today"@ {
        Ok(today)
    } else if l == "tomorrow"@ {
        Ok(chrono_add_days(today, 1i64)->0)
    } else if l == "yesterday"@ {
        Ok(chrono_add_days(today, -1i64)->0)
    } else {
        match chrono_parse_date(s) {
            Some(d) => Ok(d),
            None => Err(DslErrorSpec::InvalidDate(s)),
        }
    }
}

/// A comparison word.
#[derive(PartialEq, Eq, Structural)]
pub enum DateRel {
    Before,
    After,
    On,
}

pub open spec fn rel_expected() -> Seq<char> {
    "`before`, `after`, or `on`"@
}

/// The comparison at `p`.
pub open spec fn rel_at(toks: Seq<TokenSpec>, p: int) -> Result<DateRel, DslErrorSpec> {
    match word_at(toks, p) {
        None => Err(DslErrorSpec::UnexpectedToken { found: found_at(toks, p), expected: rel_expected() }),
        Some(w) => {
            let l = lower(w);
            if l == "before"@ {
                Ok(DateRel::Before)
            } else if l == "after"@ {
                Ok(DateRel::After)
            } else if l == "on"@ {
                Ok(DateRel::On)
            } else {
                Err(DslErrorSpec::UnexpectedToken { found: l, expected: rel_expected() })
            }
        },
    }
}

/// A date comparison on the date field that `head` names.
pub open spec fn date_atom(head: Seq<char>, c: DateRel, d: Date) -> AtomSpec {
    if head == "due"@ {
        match c {
            DateRel::Before => AtomSpec::DueBefore(d),
            DateRel::After => AtomSpec::DueAfter(d),
            DateRel::On => AtomSpec::DueOn(d),
        }
    } else if head == "scheduled"@ {
        match c {
            DateRel::Before => AtomSpec::ScheduledBefore(d),
            DateRel::After => AtomSpec::ScheduledAfter(d),
            DateRel::On => AtomSpec::ScheduledOn(d),
        }
    } else {
        match c {
            DateRel::Before => AtomSpec::CompletedBefore(d),
            DateRel::After => AtomSpec::CompletedAfter(d),
            DateRel::On => AtomSpec::CompletedOn(d),
        }
    }
}

/// `s` without its leading `#`s.
pub open spec fn strip_hash(s: Seq<char>) -> Seq<char> {
    s.skip(run_len(s, '#', 0) as int)
}

/// A predicate whose value follows keyword `kw` at `p + 1`.
pub open spec fn after_kw(toks: Seq<TokenSpec>, p: int, kw: Seq<char>) -> Result<(Seq<char>, int), DslErrorSpec> {
    if kw_at(toks, p + 1, kw) {
        value_at(toks, p + 2)
    } else {
        Err(DslErrorSpec::UnexpectedToken { found: found_at(toks, p + 1), expected: quoted_kw(kw) })
    }
}

/// The keywords of features the language does not support.
pub open spec fn unsupported_head(h: Seq<char>) -> bool {
    h == "filter"@ || h == "group"@ || h == "hide"@ || h == "show"@ || h == "short"@ || h == "explain"@
        || h == "ignore"@
}

/// The atomic predicate at `p` and the position after it.
pub open spec fn predicate_at(toks: Seq<TokenSpec>, p: int, today: Date) -> Result<(AtomSpec, int), DslErrorSpec> {
    match word_at(toks, p) {
        None => Err(DslErrorSpec::UnexpectedToken { found: found_at(toks, p), expected: "predicate"@ }),
        Some(w) => {
            let head = lower(w);
            if head == "status"@ {
                match after_kw(toks, p, "is"@) {
                    Err(e) => Err(e),
                    Ok((v, q)) => match status_named(v) {
                        Some(st) => Ok((AtomSpec::Status(st), q)),
                        None => Err(DslErrorSpec::UnknownIdentifier("status `"@ + lower(v) + "`"@)),
                    },
                }
            } else if head == "priority"@ {
                match after_kw(toks, p, "is"@) {
                    Err(e) => Err(e),
                    Ok((v, q)) => match priority_named(v) {
                        Some(pr) => Ok((AtomSpec::Priority(pr), q)),
                        None => Err(DslErrorSpec::UnknownIdentifier("priority `"@ + lower(v) + "`"@)),
                    },
                }
            } else if head == "path"@ {
                match after_kw(toks, p, "includes"@) {
                    Err(e) => Err(e),
                    Ok((v, q)) => Ok((AtomSpec::PathIncludes(v), q)),
                }
            } else if head == "tag"@ {
                match after_kw(toks, p, "is"@) {
                    Err(e) => Err(e),
                    Ok((v, q)) => Ok((AtomSpec::HasTag(strip_hash(v)), q)),
                }
            } else if head == "has"@ {
                match word_at(toks, p + 1) {
                    None => Err(
                        DslErrorSpec::UnexpectedToken { found: found_at(toks, p + 1), expected: "`tag` or `due`"@ },
                    ),
                    Some(n) => {
                        let next = lower(n);
                        if next == "tag"@ {
                            match value_at(toks, p + 2) {
                                Err(e) => Err(e),
                                Ok((v, q)) => Ok((AtomSpec::HasTag(strip_hash(v)), q)),
                            }
                        } else if next == "due"@ {
                            Ok((AtomSpec::HasDue, if kw_at(toks, p + 2, "date"@) { p + 3 } else { p + 2 }))
                        } else {
                            Err(DslErrorSpec::UnexpectedToken { found: next, expected: "`tag` or `due`"@ })
                        }
                    },
                }
            } else if head == "no"@ {
                if !kw_at(toks, p + 1, "due"@) {
                    Err(DslErrorSpec::UnexpectedToken { found: found_at(toks, p + 1), expected: quoted_kw("due"@) })
                } else if !kw_at(toks, p + 2, "date"@) {
                    Err(DslErrorSpec::UnexpectedToken { found: found_at(toks, p + 2), expected: quoted_kw("date"@) })
                } else {
                    Ok((AtomSpec::NoDue, p + 3))
                }
            } else if head == "due"@ || head == "scheduled"@ || head == "completed"@ {
                match rel_at(toks, p + 1) {
                    Err(e) => Err(e),
                    Ok(c) => match value_at(toks, p + 2) {
                        Err(e) => Err(e),
                        Ok((v, q)) => match date_named(v, today) {
                            Err(e) => Err(e),
                            Ok(d) => Ok((date_atom(head, c, d), q)),
                        },
                    },
                }
            } else if head == "done"@ {
                Ok((AtomSpec::Done, p + 1))
            } else if head == "not"@ {
                if kw_at(toks, p + 1, "done"@) {
                    Ok((AtomSpec::NotDone, p + 2))
                } else {
                    Err(DslErrorSpec::UnexpectedToken { found: found_at(toks, p + 1), expected: quoted_kw("done"@) })
                }
            } else if unsupported_head(head) {
                Err(DslErrorSpec::UnsupportedFeature(head))
            } else {
                Err(DslErrorSpec::UnknownIdentifier(head))
            }
        },
    }
}

/// `parts` as one expression: the single part, or their disjunction.
pub open spec fn or_of(parts: Seq<ExprSpec>) -> ExprSpec {
    if parts.len() == 1 {
        parts[0]
    } else {
        ExprSpec::Or(parts)
    }
}

/// `parts` as one expression: the single part, or their conjunction.
pub open spec fn and_of(parts: Seq<ExprSpec>) -> ExprSpec {
    if parts.len() == 1 {
        parts[0]
    } else {
        ExprSpec::And(parts)
    }
}

/// `or_expr = and_expr ( "or" and_expr )*` at `p`. A sub-parse that does
/// not move forward cannot happen; it is refused to keep the recursion
/// well-founded.
pub open spec fn or_expr(toks: Seq<TokenSpec>, p: int, today: Date) -> Result<(ExprSpec, int), DslErrorSpec>
    decreases toks.len() - p, 4int,
{
    if p < 0 || p > toks.len() {
        Err(DslErrorSpec::EmptyInput)
    } else {
        match and_expr(toks, p, today) {
            Err(e) => Err(e),
            Ok((first, p1)) => if p1 <= p || p1 > toks.len() {
                Err(DslErrorSpec::EmptyInput)
            } else {
                match or_rest(toks, p1, seq![first], today) {
                    Err(e) => Err(e),
                    Ok((parts, p2)) => Ok((or_of(parts), p2)),
                }
            },
        }
    }
}

/// The `( "or" and_expr )*` tail at `p`, after `parts`.
pub open spec fn or_rest(toks: Seq<TokenSpec>, p: int, parts: Seq<ExprSpec>, today: Date) -> Result<
    (Seq<ExprSpec>, int),
    DslErrorSpec,
>
    decreases toks.len() - p, 5int,
{
    if p < 0 || p > toks.len() {
        Err(DslErrorSpec::EmptyInput)
    } else if kw_at(toks, p, "or"@) {
        match and_expr(toks, p + 1, today) {
            Err(e) => Err(e),
            Ok((e, p1)) => if p1 <= p || p1 > toks.len() {
                Err(DslErrorSpec::EmptyInput)
            } else {
                or_rest(toks, p1, parts.push(e), today)
            },
        }
    } else {
        Ok((parts, p))
    }
}

/// `and_expr = unary ( "and" unary )*` at `p`.
pub open spec fn and_expr(toks: Seq<TokenSpec>, p: int, today: Date) -> Result<(ExprSpec, int), DslErrorSpec>
    decreases toks.len() - p, 3int,
{
    if p < 0 || p > toks.len() {
        Err(DslErrorSpec::EmptyInput)
    } else {
        match unary(toks, p, today) {
            Err(e) => Err(e),
            Ok((first, p1)) => if p1 <= p || p1 > toks.len() {
                Err(DslErrorSpec::EmptyInput)
            } else {
                match and_rest(toks, p1, seq![first], today) {
                    Err(e) => Err(e),
                    Ok((parts, p2)) => Ok((and_of(parts), p2)),
                }
            },
        }
    }
}

/// The `( "and" unary )*` tail at `p`, after `parts`.
pub open spec fn and_rest(toks: Seq<TokenSpec>, p: int, parts: Seq<ExprSpec>, today: Date) -> Result<
    (Seq<ExprSpec>, int),
    DslErrorSpec,
>
    decreases toks.len() - p, 5int,
{
    if p < 0 || p > toks.len() {
        Err(DslErrorSpec::EmptyInput)
    } else if kw_at(toks, p, "and"@) {
        match unary(toks, p + 1, today) {
            Err(e) => Err(e),
            Ok((e, p1)) => if p1 <= p || p1 > toks.len() {
                Err(DslErrorSpec::EmptyInput)
            } else {
                and_rest(toks, p1, parts.push(e), today)
            },
        }
    } else {
        Ok((parts, p))
    }
}

/// `unary = "not" unary | atom` at `p`; `not done` is the predicate.
pub open spec fn unary(toks: Seq<TokenSpec>, p: int, today: Date) -> Result<(ExprSpec, int), DslErrorSpec>
    decreases toks.len() - p, 2int,
{
    if p < 0 || p >= toks.len() {
        atom_expr(toks, p, today)
    } else if kw_at(toks, p, "not"@) && !kw_at(toks, p + 1, "done"@) {
        match unary(toks, p + 1, today) {
            Err(e) => Err(e),
            Ok((e, p1)) => Ok((ExprSpec::Not(Box::new(e)), p1)),
        }
    } else {
        atom_expr(toks, p, today)
    }
}

/// `atom = "(" or_expr ")" | predicate` at `p`.
pub open spec fn atom_expr(toks: Seq<TokenSpec>, p: int, today: Date) -> Result<(ExprSpec, int), DslErrorSpec>
    decreases toks.len() - p, 1int,
{
    if 0 <= p < toks.len() && toks[p] is LParen {
        match or_expr(toks, p + 1, today) {
            Err(e) => Err(e),
            Ok((inner, p1)) => if 0 <= p1 < toks.len() && toks[p1] is RParen {
                Ok((inner, p1 + 1))
            } else {
                Err(DslErrorSpec::UnexpectedToken { found: found_at(toks, p1), expected: "`)`"@ })
            },
        }
    } else {
        match predicate_at(toks, p, today) {
            Err(e) => Err(e),
            Ok((a, q)) => Ok((ExprSpec::Atom(a), q)),
        }
    }
}

// ── tokenizer ────────────────────────────────────────────────────────────────

/// A token of a query.
#[derive(Debug)]
pub enum Token {
    Word(String),
    /// A quoted string, without its quotes.
    Quoted(String),
    LParen,
    RParen,
    Comma,
}

pub open spec fn token_view(t: Token) -> TokenSpec {
    match t {
        Token::Word(s) => TokenSpec::Word(s@),
        Token::Quoted(s) => TokenSpec::Quoted(s@),
        Token::LParen => TokenSpec::LParen,
        Token::RParen => TokenSpec::RParen,
        Token::Comma => TokenSpec::Comma,
    }
}

pub open spec fn tokens_view(ts: Seq<Token>) -> Seq<TokenSpec> {
    ts.map_values(|t: Token| token_view(t))
}

/// `r` with `pre` in front of its tokens.
pub open spec fn prefixed(pre: Seq<TokenSpec>, r: Result<Seq<TokenSpec>, DslErrorSpec>) -> Result<
    Seq<TokenSpec>,
    DslErrorSpec,
> {
    match r {
        Ok(ts) => Ok(pre + ts),
        Err(e) => Err(e),
    }
}

/// Split a query into tokens (see [`tokens_from`]).
pub fn tokenize(input: &str) -> (r: Result<Vec<Token>, DslError>)
    ensures
        match (r, tokens_from(input@, 0)) {
            (Ok(ts), Ok(ts2)) => tokens_view(ts@) == ts2,
            (Err(e), Err(e2)) => dsl_error_view(e) == e2,
            _ => false,
        },
{
    let s = to_chars(input);
    let n = s.len();
    let mut out: Vec<Token> = Vec::new();
    let mut i: usize = 0;
    proof {
        assert(tokens_view(out@) =~= Seq::<TokenSpec>::empty());
        assert(prefixed(Seq::empty(), tokens_from(s@, 0)) =~~= tokens_from(s@, 0));
    }
    while i < n
        invariant
            i <= n == s@.len(),
            s@ == input@,
            tokens_from(s@, 0) == prefixed(tokens_view(out@), tokens_from(s@, i as int)),
        decreases n - i,
    {
        let c = s[i];
        let ghost pre = tokens_view(out@);
        if crate::text::is_whitespace(c) {
            i += 1;
        } else if c == '(' || c == ')' || c == ',' {
            let t = if c == '(' {
                Token::LParen
            } else if c == ')' {
                Token::RParen
            } else {
                Token::Comma
            };
            out.push(t);
            proof {
                assert(tokens_view(out@) =~= pre + seq![token_view(t)]);
                match tokens_from(s@, i + 1) {
                    Ok(ts) => {
                        assert(pre + (seq![token_view(t)] + ts) =~= pre + seq![token_view(t)] + ts);
                    },
                    Err(_) => {},
                }
            }
            i += 1;
        } else if c == '"' {
            let q = crate::text::find_char_from(&s, '"', i + 1);
            if q >= n {
                return Err(DslError::UnterminatedString);
            }
            let body = crate::text::string_of(&s, i + 1, q);
            let ghost t = TokenSpec::Quoted(body@);
            out.push(Token::Quoted(body));
            proof {
                assert(tokens_view(out@) =~= pre + seq![t]);
                match tokens_from(s@, q + 1) {
                    Ok(ts) => {
                        assert(pre + (seq![t] + ts) =~= pre + seq![t] + ts);
                    },
                    Err(_) => {},
                }
            }
            i = q + 1;
        } else {
            let mut e = i;
            while e < n && !(crate::text::is_whitespace(s[e]) || s[e] == '(' || s[e] == ')' || s[e] == ','
                || s[e] == '"')
                invariant
                    i <= e <= n == s@.len(),
                    bare_word_end(s@, e as int) == bare_word_end(s@, i as int),
                decreases n - e,
            {
                e += 1;
            }
            proof {
                lemma_bare_word_end(s@, i as int);
            }
            let w = crate::text::string_of(&s, i, e);
            let ghost t = TokenSpec::Word(w@);
            out.push(Token::Word(w));
            proof {
                assert(tokens_view(out@) =~= pre + seq![t]);
                match tokens_from(s@, e as int) {
                    Ok(ts) => {
                        assert(pre + (seq![t] + ts) =~= pre + seq![t] + ts);
                    },
                    Err(_) => {},
                }
            }
            i = e;
        }
    }
    proof {
        assert(tokens_view(out@) + Seq::<TokenSpec>::empty() =~= tokens_view(out@));
    }
    Ok(out)
}

// ── parser ───────────────────────────────────────────────────────────────────

fn word_at_exec(toks: &Vec<Token>, p: usize) -> (r: Option<Vec<char>>)
    ensures
        match (r, word_at(tokens_view(toks@), p as int)) {
            (Some(w), Some(w2)) => w@ == w2,
            (None, None) => true,
            _ => false,
        },
{
    if p < toks.len() {
        match &toks[p] {
            Token::Word(w) => Some(to_chars(w.as_str())),
            _ => None,
        }
    } else {
        None
    }
}

fn kw_at_exec(toks: &Vec<Token>, p: usize, kw: &str) -> (r: bool)
    ensures
        r == kw_at(tokens_view(toks@), p as int, kw@),
{
    match word_at_exec(toks, p) {
        Some(w) => lower_eq(&w, kw),
        None => false,
    }
}

fn found_at_exec(toks: &Vec<Token>, p: usize) -> (r: String)
    ensures
        r@ == found_at(tokens_view(toks@), p as int),
{
    if p < toks.len() {
        match &toks[p] {
            Token::Word(w) => w.clone(),
            Token::Quoted(w) => w.clone(),
            Token::LParen => {
                proof {
                    reveal_strlit("(");
                }
                "(".to_string()
            },
            Token::RParen => {
                proof {
                    reveal_strlit(")");
                }
                ")".to_string()
            },
            Token::Comma => {
                proof {
                    reveal_strlit(",");
                }
                ",".to_string()
            },
        }
    } else {
        String::new()
    }
}

fn unexpected(found: String, expected: &str) -> (r: DslError)
    ensures
        dsl_error_view(r) == (DslErrorSpec::UnexpectedToken { found: found@, expected: expected@ }),
{
    DslError::UnexpectedToken { found, expected: expected.to_string() }
}

fn value_at_exec(toks: &Vec<Token>, p: usize) -> (r: Result<(String, usize), DslError>)
    ensures
        match (r, value_at(tokens_view(toks@), p as int)) {
            (Ok((v, q)), Ok((v2, q2))) => v@ == v2 && q == q2 && q == p + 1,
            (Err(e), Err(e2)) => dsl_error_view(e) == e2,
            _ => false,
        },
{
    if p < toks.len() {
        match &toks[p] {
            Token::Word(w) => Ok((w.clone(), p + 1)),
            Token::Quoted(w) => Ok((w.clone(), p + 1)),
            _ => Err(unexpected(found_at_exec(toks, p), "value")),
        }
    } else {
        Err(unexpected(String::new(), "value"))
    }
}

fn after_kw_exec(toks: &Vec<Token>, p: usize, kw: &str) -> (r: Result<(String, usize), DslError>)
    requires
        p < toks@.len() <= usize::MAX - 4,
    ensures
        match (r, after_kw(tokens_view(toks@), p as int, kw@)) {
            (Ok((v, q)), Ok((v2, q2))) => v@ == v2 && q == q2 && q == p + 3,
            (Err(e), Err(e2)) => dsl_error_view(e) == e2,
            _ => false,
        },
{
    if kw_at_exec(toks, p + 1, kw) {
        value_at_exec(toks, p + 2)
    } else {
        let mut m = String::new();
        push_str(&mut m, "`");
        push_str(&mut m, kw);
        push_str(&mut m, "`");
        proof {
            assert(m@ =~= quoted_kw(kw@)) by {
                reveal_strlit("`");
            }
        }
        Err(DslError::UnexpectedToken { found: found_at_exec(toks, p + 1), expected: m })
    }
}

fn expect_kw_err(toks: &Vec<Token>, p: usize, kw: &str) -> (r: DslError)
    ensures
        dsl_error_view(r) == (DslErrorSpec::UnexpectedToken { found: found_at(tokens_view(toks@), p as int), expected: quoted_kw(kw@) }),
{
    let mut m = String::new();
    push_str(&mut m, "`");
    push_str(&mut m, kw);
    push_str(&mut m, "`");
    proof {
        assert(m@ =~= quoted_kw(kw@)) by {
            reveal_strlit("`");
        }
    }
    DslError::UnexpectedToken { found: found_at_exec(toks, p), expected: m }
}

fn named_error(prefix: &str, v: &String) -> (r: DslError)
    ensures
        dsl_error_view(r) == DslErrorSpec::UnknownIdentifier(prefix@ + lower(v@) + "`"@),
{
    let mut m = String::new();
    push_str(&mut m, prefix);
    push_all(&mut m, &lower_vec(&to_chars(v.as_str())));
    push_str(&mut m, "`");
    DslError::UnknownIdentifier(m)
}

fn status_exec(v: &String) -> (r: Result<Status, DslError>)
    ensures
        match (r, status_named(v@)) {
            (Ok(s), Some(s2)) => s == s2,
            (Err(e), None) => dsl_error_view(e) == DslErrorSpec::UnknownIdentifier("status `"@ + lower(v@) + "`"@),
            _ => false,
        },
{
    let c = to_chars(v.as_str());
    if lower_eq(&c, "open") || lower_eq(&c, "todo") {
        Ok(Status::Open)
    } else if lower_eq(&c, "done") || lower_eq(&c, "complete") || lower_eq(&c, "completed") {
        Ok(Status::Done)
    } else if lower_eq(&c, "in-progress") || lower_eq(&c, "in_progress") || lower_eq(&c, "doing") {
        Ok(Status::InProgress)
    } else if lower_eq(&c, "cancelled") || lower_eq(&c, "canceled") {
        Ok(Status::Cancelled)
    } else {
        Err(named_error("status `", v))
    }
}

fn priority_exec(v: &String) -> (r: Result<Priority, DslError>)
    ensures
        match (r, priority_named(v@)) {
            (Ok(s), Some(s2)) => s == s2,
            (Err(e), None) => dsl_error_view(e) == DslErrorSpec::UnknownIdentifier("priority `"@ + lower(v@) + "`"@),
            _ => false,
        },
{
    let c = to_chars(v.as_str());
    if lower_eq(&c, "highest") {
        Ok(Priority::Highest)
    } else if lower_eq(&c, "high") {
        Ok(Priority::High)
    } else if lower_eq(&c, "medium") || lower_eq(&c, "normal") {
        Ok(Priority::Medium)
    } else if lower_eq(&c, "low") {
        Ok(Priority::Low)
    } else if lower_eq(&c, "lowest") {
        Ok(Priority::Lowest)
    } else {
        Err(named_error("priority `", v))
    }
}

fn date_exec(v: String, today: Date) -> (r: Result<Date, DslError>)
    requires
        valid_date(today),
        !crate::date::is_first_day(today) && !crate::date::is_last_day(today),
    ensures
        match (r, date_named(v@, today)) {
            (Ok(d), Ok(d2)) => d == d2,
            (Err(e), Err(e2)) => dsl_error_view(e) == e2,
            _ => false,
        },
{
    let c = to_chars(v.as_str());
    if lower_eq(&c, "today") {
        Ok(today)
    } else if lower_eq(&c, "tomorrow") {
        match add_days(today, 1) {
            Some(d) => Ok(d),
            None => Err(DslError::InvalidDate(v)),
        }
    } else if lower_eq(&c, "yesterday") {
        match add_days(today, -1) {
            Some(d) => Ok(d),
            None => Err(DslError::InvalidDate(v)),
        }
    } else {
        match parse_iso_date(v.as_str()) {
            Some(d) => Ok(d),
            None => Err(DslError::InvalidDate(v)),
        }
    }
}

fn strip_hash_exec(v: &String) -> (r: String)
    ensures
        r@ == strip_hash(v@),
{
    let c = to_chars(v.as_str());
    let h = count_run(&c, '#', 0);
    let r = crate::text::string_of(&c, h, c.len());
    proof {
        assert(r@ =~= strip_hash(v@));
    }
    r
}

fn date_atom_exec(head: &Vec<char>, c: DateRel, d: Date) -> (r: Atom)
    ensures
        r@ == date_atom(head@, c, d),
{
    if vec_eq_str(head, "due") {
        match c {
            DateRel::Before => Atom::DueBefore(d),
            DateRel::After => Atom::DueAfter(d),
            DateRel::On => Atom::DueOn(d),
        }
    } else if vec_eq_str(head, "scheduled") {
        match c {
            DateRel::Before => Atom::ScheduledBefore(d),
            DateRel::After => Atom::ScheduledAfter(d),
            DateRel::On => Atom::ScheduledOn(d),
        }
    } else {
        match c {
            DateRel::Before => Atom::CompletedBefore(d),
            DateRel::After => Atom::CompletedAfter(d),
            DateRel::On => Atom::CompletedOn(d),
        }
    }
}

fn rel_exec(toks: &Vec<Token>, p: usize) -> (r: Result<DateRel, DslError>)
    ensures
        match (r, rel_at(tokens_view(toks@), p as int)) {
            (Ok(c), Ok(c2)) => c == c2,
            (Err(e), Err(e2)) => dsl_error_view(e) == e2,
            _ => false,
        },
{
    match word_at_exec(toks, p) {
        None => Err(unexpected(found_at_exec(toks, p), "`before`, `after`, or `on`")),
        Some(w) => {
            let l = lower_vec(&w);
            if vec_eq_str(&l, "before") {
                Ok(DateRel::Before)
            } else if vec_eq_str(&l, "after") {
                Ok(DateRel::After)
            } else if vec_eq_str(&l, "on") {
                Ok(DateRel::On)
            } else {
                Err(unexpected(string_of_all(&l), "`before`, `after`, or `on`"))
            }
        },
    }
}

/// The ranges a parse at `p` may consume.
pub open spec fn moved_on(toks: Seq<TokenSpec>, p: int, q: int) -> bool {
    p < q <= toks.len()
}

fn predicate_exec(toks: &Vec<Token>, p: usize, today: Date) -> (r: Result<(Atom, usize), DslError>)
    requires
        p <= toks@.len() <= usize::MAX - 4,
        valid_date(today),
        !crate::date::is_first_day(today) && !crate::date::is_last_day(today),
    ensures
        match (r, predicate_at(tokens_view(toks@), p as int, today)) {
            (Ok((a, q)), Ok((a2, q2))) => a@ == a2 && q == q2 && moved_on(tokens_view(toks@), p as int, q as int),
            (Err(e), Err(e2)) => dsl_error_view(e) == e2,
            _ => false,
        },
{
    let ghost tv = tokens_view(toks@);
    let w = match word_at_exec(toks, p) {
        Some(w) => w,
        None => {
            return Err(unexpected(found_at_exec(toks, p), "predicate"));
        },
    };
    let head = lower_vec(&w);
    if vec_eq_str(&head, "status") {
        let (v, q) = after_kw_exec(toks, p, "is")?;
        let st = status_exec(&v)?;
        Ok((Atom::Status(st), q))
    } else if vec_eq_str(&head, "priority") {
        let (v, q) = after_kw_exec(toks, p, "is")?;
        let pr = priority_exec(&v)?;
        Ok((Atom::Priority(pr), q))
    } else if vec_eq_str(&head, "path") {
        let (v, q) = after_kw_exec(toks, p, "includes")?;
        Ok((Atom::PathIncludes(v), q))
    } else if vec_eq_str(&head, "tag") {
        let (v, q) = after_kw_exec(toks, p, "is")?;
        Ok((Atom::HasTag(strip_hash_exec(&v)), q))
    } else if vec_eq_str(&head, "has") {
        match word_at_exec(toks, p + 1) {
            None => Err(unexpected(found_at_exec(toks, p + 1), "`tag` or `due`")),
            Some(n) => {
                let next = lower_vec(&n);
                if vec_eq_str(&next, "tag") {
                    let (v, q) = value_at_exec(toks, p + 2)?;
                    Ok((Atom::HasTag(strip_hash_exec(&v)), q))
                } else if vec_eq_str(&next, "due") {
                    if kw_at_exec(toks, p + 2, "date") {
                        Ok((Atom::HasDue, p + 3))
                    } else {
                        Ok((Atom::HasDue, p + 2))
                    }
                } else {
                    Err(unexpected(string_of_all(&next), "`tag` or `due`"))
                }
            },
        }
    } else if vec_eq_str(&head, "no") {
        if !kw_at_exec(toks, p + 1, "due") {
            Err(expect_kw_err(toks, p + 1, "due"))
        } else if !kw_at_exec(toks, p + 2, "date") {
            Err(expect_kw_err(toks, p + 2, "date"))
        } else {
            Ok((Atom::NoDue, p + 3))
        }
    } else if vec_eq_str(&head, "due") || vec_eq_str(&head, "scheduled") || vec_eq_str(&head, "completed") {
        let c = rel_exec(toks, p + 1)?;
        let (v, q) = value_at_exec(toks, p + 2)?;
        let d = date_exec(v, today)?;
        Ok((date_atom_exec(&head, c, d), q))
    } else if vec_eq_str(&head, "done") {
        Ok((Atom::Done, p + 1))
    } else if vec_eq_str(&head, "not") {
        if kw_at_exec(toks, p + 1, "done") {
            Ok((Atom::NotDone, p + 2))
        } else {
            Err(expect_kw_err(toks, p + 1, "done"))
        }
    } else if vec_eq_str(&head, "filter") || vec_eq_str(&head, "group") || vec_eq_str(&head, "hide")
        || vec_eq_str(&head, "show") || vec_eq_str(&head, "short") || vec_eq_str(&head, "explain")
        || vec_eq_str(&head, "ignore") {
        Err(DslError::UnsupportedFeature(string_of_all(&head)))
    } else {
        Err(DslError::UnknownIdentifier(string_of_all(&head)))
    }
}

proof fn lemma_exprs_view_push(s: Seq<Expr>, e: Expr)
    ensures
        exprs_view(s.push(e)) == exprs_view(s).push(expr_view(e)),
{
    assert(s.push(e).drop_last() =~= s);
}

proof fn lemma_exprs_view_index(s: Seq<Expr>)
    ensures
        exprs_view(s).len() == s.len(),
        forall|i: int| 0 <= i < s.len() ==> #[trigger] exprs_view(s)[i] == expr_view(s[i]),
    decreases s.len(),
{
    if s.len() > 0 {
        lemma_exprs_view_index(s.drop_last());
        assert forall|i: int| 0 <= i < s.len() implies #[trigger] exprs_view(s)[i] == expr_view(s[i]) by {
            if i < s.len() - 1 {
                assert(s.drop_last()[i] == s[i]);
            }
        }
    }
}

fn combine(parts: Vec<Expr>, is_or: bool) -> (r: Expr)
    requires
        parts@.len() >= 1,
    ensures
        expr_view(r) == if is_or {
            or_of(exprs_view(parts@))
        } else {
            and_of(exprs_view(parts@))
        },
{
    proof {
        lemma_exprs_view_index(parts@);
    }
    if parts.len() == 1 {
        let mut parts = parts;
        parts.remove(0)
    } else if is_or {
        Expr::Or(parts)
    } else {
        Expr::And(parts)
    }
}

fn parse_or(toks: &Vec<Token>, p: usize, today: Date) -> (r: Result<(Expr, usize), DslError>)
    requires
        p <= toks@.len() <= usize::MAX - 4,
        valid_date(today),
        !crate::date::is_first_day(today) && !crate::date::is_last_day(today),
    ensures
        match (r, or_expr(tokens_view(toks@), p as int, today)) {
            (Ok((e, q)), Ok((e2, q2))) => expr_view(e) == e2 && q == q2 && moved_on(tokens_view(toks@), p as int, q as int),
            (Err(e), Err(e2)) => dsl_error_view(e) == e2,
            _ => false,
        },
    decreases toks@.len() - p, 4int,
{
    let ghost tv = tokens_view(toks@);
    let (first, p1) = parse_and(toks, p, today)?;
    let ghost fv = expr_view(first);
    let mut parts: Vec<Expr> = Vec::new();
    parts.push(first);
    proof {
        lemma_exprs_view_push(Seq::empty(), first);
        assert(Seq::<Expr>::empty().push(first) =~= parts@);
        assert(exprs_view(Seq::<Expr>::empty()) =~= Seq::<ExprSpec>::empty());
        assert(exprs_view(parts@) =~= seq![expr_view(first)]);
    }
    let mut q = p1;
    while kw_at_exec(toks, q, "or")
        invariant
            p < p1 <= q <= toks@.len() <= usize::MAX - 4,
            tv == tokens_view(toks@),
            valid_date(today),
            !crate::date::is_first_day(today) && !crate::date::is_last_day(today),
            parts@.len() >= 1,
            and_expr(tv, p as int, today) == Ok::<(ExprSpec, int), DslErrorSpec>((fv, p1 as int)),
            or_rest(tv, p1 as int, seq![fv], today) == or_rest(tv, q as int, exprs_view(parts@), today),
        decreases toks@.len() - q,
    {
        let (e, q2) = match parse_and(toks, q + 1, today) {
            Ok(x) => x,
            Err(err) => {
                proof {
                    assert(or_rest(tv, q as int, exprs_view(parts@), today) == Err::<(Seq<ExprSpec>, int), DslErrorSpec>(
                        dsl_error_view(err),
                    ));
                }
                return Err(err);
            },
        };
        proof {
            lemma_exprs_view_push(parts@, e);
        }
        parts.push(e);
        q = q2;
    }
    proof {
        assert(or_rest(tv, q as int, exprs_view(parts@), today) == Ok::<(Seq<ExprSpec>, int), DslErrorSpec>((exprs_view(parts@), q as int)));
    }
    Ok((combine(parts, true), q))
}

fn parse_and(toks: &Vec<Token>, p: usize, today: Date) -> (r: Result<(Expr, usize), DslError>)
    requires
        p <= toks@.len() <= usize::MAX - 4,
        valid_date(today),
        !crate::date::is_first_day(today) && !crate::date::is_last_day(today),
    ensures
        match (r, and_expr(tokens_view(toks@), p as int, today)) {
            (Ok((e, q)), Ok((e2, q2))) => expr_view(e) == e2 && q == q2 && moved_on(tokens_view(toks@), p as int, q as int),
            (Err(e), Err(e2)) => dsl_error_view(e) == e2,
            _ => false,
        },
    decreases toks@.len() - p, 3int,
{
    let ghost tv = tokens_view(toks@);
    let (first, p1) = parse_unary(toks, p, today)?;
    let ghost fv = expr_view(first);
    let mut parts: Vec<Expr> = Vec::new();
    parts.push(first);
    proof {
        lemma_exprs_view_push(Seq::empty(), first);
        assert(Seq::<Expr>::empty().push(first) =~= parts@);
        assert(exprs_view(Seq::<Expr>::empty()) =~= Seq::<ExprSpec>::empty());
        assert(exprs_view(parts@) =~= seq![expr_view(first)]);
    }
    let mut q = p1;
    while kw_at_exec(toks, q, "and")
        invariant
            p < p1 <= q <= toks@.len() <= usize::MAX - 4,
            tv == tokens_view(toks@),
            valid_date(today),
            !crate::date::is_first_day(today) && !crate::date::is_last_day(today),
            parts@.len() >= 1,
            unary(tv, p as int, today) == Ok::<(ExprSpec, int), DslErrorSpec>((fv, p1 as int)),
            and_rest(tv, p1 as int, seq![fv], today) == and_rest(tv, q as int, exprs_view(parts@), today),
        decreases toks@.len() - q,
    {
        let (e, q2) = match parse_unary(toks, q + 1, today) {
            Ok(x) => x,
            Err(err) => {
                proof {
                    assert(and_rest(tv, q as int, exprs_view(parts@), today) == Err::<(Seq<ExprSpec>, int), DslErrorSpec>(
                        dsl_error_view(err),
                    ));
                }
                return Err(err);
            },
        };
        proof {
            lemma_exprs_view_push(parts@, e);
        }
        parts.push(e);
        q = q2;
    }
    proof {
        assert(and_rest(tv, q as int, exprs_view(parts@), today) == Ok::<(Seq<ExprSpec>, int), DslErrorSpec>((exprs_view(parts@), q as int)));
    }
    Ok((combine(parts, false), q))
}

fn parse_unary(toks: &Vec<Token>, p: usize, today: Date) -> (r: Result<(Expr, usize), DslError>)
    requires
        p <= toks@.len() <= usize::MAX - 4,
        valid_date(today),
        !crate::date::is_first_day(today) && !crate::date::is_last_day(today),
    ensures
        match (r, unary(tokens_view(toks@), p as int, today)) {
            (Ok((e, q)), Ok((e2, q2))) => expr_view(e) == e2 && q == q2 && moved_on(tokens_view(toks@), p as int, q as int),
            (Err(e), Err(e2)) => dsl_error_view(e) == e2,
            _ => false,
        },
    decreases toks@.len() - p, 2int,
{
    if p < toks.len() && kw_at_exec(toks, p, "not") && !kw_at_exec(toks, p + 1, "done") {
        let (inner, q) = parse_unary(toks, p + 1, today)?;
        Ok((Expr::Not(Box::new(inner)), q))
    } else {
        parse_atom(toks, p, today)
    }
}

fn parse_atom(toks: &Vec<Token>, p: usize, today: Date) -> (r: Result<(Expr, usize), DslError>)
    requires
        p <= toks@.len() <= usize::MAX - 4,
        valid_date(today),
        !crate::date::is_first_day(today) && !crate::date::is_last_day(today),
    ensures
        match (r, atom_expr(tokens_view(toks@), p as int, today)) {
            (Ok((e, q)), Ok((e2, q2))) => expr_view(e) == e2 && q == q2 && moved_on(tokens_view(toks@), p as int, q as int),
            (Err(e), Err(e2)) => dsl_error_view(e) == e2,
            _ => false,
        },
    decreases toks@.len() - p, 1int,
{
    let is_open = p < toks.len() && match &toks[p] {
        Token::LParen => true,
        _ => false,
    };
    if is_open {
        let (inner, q) = parse_or(toks, p + 1, today)?;
        let is_close = q < toks.len() && match &toks[q] {
            Token::RParen => true,
            _ => false,
        };
        if is_close {
            Ok((inner, q + 1))
        } else {
            Err(unexpected(found_at_exec(toks, q), "`)`"))
        }
    } else {
        let (a, q) = predicate_exec(toks, p, today)?;
        Ok((Expr::Atom(a), q))
    }
}

// ── sort keys, limit, the whole query ────────────────────────────────────────

/// One sort key at `p`, with an optional `reverse`.
pub open spec fn one_key(toks: Seq<TokenSpec>, p: int) -> Result<((SortKey, SortOrder), int), DslErrorSpec> {
    match value_at(toks, p) {
        Err(e) => Err(e),
        Ok((v, q)) => match sort_key_named(v) {
            None => Err(DslErrorSpec::UnknownIdentifier("sort key `"@ + lower(v) + "`"@)),
            Some(k) => if kw_at(toks, q, "reverse"@) {
                Ok(((k, SortOrder::Desc), q + 1))
            } else {
                Ok(((k, SortOrder::Asc), q))
            },
        },
    }
}

/// The `( "," sort_key )*` tail at `p`, after `keys`.
pub open spec fn keys_rest(toks: Seq<TokenSpec>, p: int, keys: Seq<(SortKey, SortOrder)>) -> Result<
    (Seq<(SortKey, SortOrder)>, int),
    DslErrorSpec,
>
    decreases toks.len() - p,
{
    if 0 <= p < toks.len() && toks[p] is Comma {
        match one_key(toks, p + 1) {
            Err(e) => Err(e),
            Ok((k, q)) => if q <= p || q > toks.len() {
                Err(DslErrorSpec::EmptyInput)
            } else {
                keys_rest(toks, q, keys.push(k))
            },
        }
    } else {
        Ok((keys, p))
    }
}

/// The optional `sort by …` clause at `p`.
pub open spec fn sort_clause(toks: Seq<TokenSpec>, p: int) -> Result<(Seq<(SortKey, SortOrder)>, int), DslErrorSpec> {
    if kw_at(toks, p, "sort"@) {
        if kw_at(toks, p + 1, "by"@) {
            match one_key(toks, p + 2) {
                Err(e) => Err(e),
                Ok((k, q)) => keys_rest(toks, q, seq![k]),
            }
        } else {
            Err(DslErrorSpec::UnexpectedToken { found: found_at(toks, p + 1), expected: quoted_kw("by"@) })
        }
    } else {
        Ok((Seq::empty(), p))
    }
}

/// The optional `limit N` clause at `p`.
pub open spec fn limit_clause(toks: Seq<TokenSpec>, p: int) -> Result<(Option<nat>, int), DslErrorSpec> {
    if kw_at(toks, p, "limit"@) {
        match value_at(toks, p + 1) {
            Err(e) => Err(e),
            Ok((v, q)) => match parse_unsigned(v, usize::MAX as nat) {
                Some(n) => Ok((Some(n), q)),
                None => Err(DslErrorSpec::InvalidNumber(v)),
            },
        }
    } else {
        Ok((None, p))
    }
}

/// A compiled query, as values.
pub struct QuerySpec {
    pub expr: Option<ExprSpec>,
    pub sort_keys: Seq<(SortKey, SortOrder)>,
    pub limit: Option<nat>,
}

/// `query = or_expr [ "sort" "by" sort_keys ] [ "limit" integer ]` over all
/// the tokens of `input`, with dates relative to `today`; tokens left over
/// are an error naming them.
pub open spec fn query_of(input: Seq<char>, today: Date) -> Result<QuerySpec, DslErrorSpec> {
    match tokens_from(input, 0) {
        Err(e) => Err(e),
        Ok(toks) => if toks.len() == 0 {
            Err(DslErrorSpec::EmptyInput)
        } else {
            match or_expr(toks, 0, today) {
                Err(e) => Err(e),
                Ok((expr, p1)) => match sort_clause(toks, p1) {
                    Err(e) => Err(e),
                    Ok((keys, p2)) => match limit_clause(toks, p2) {
                        Err(e) => Err(e),
                        Ok((limit, p3)) => if p3 < toks.len() {
                            Err(DslErrorSpec::TrailingTokens(join_spaces(toks.skip(p3).map_values(|t: TokenSpec| token_text(t)))))
                        } else {
                            Ok(QuerySpec { expr: Some(expr), sort_keys: keys, limit })
                        },
                    },
                },
            }
        },
    }
}

/// A compiled query: a filter expression, sort keys and a limit.
#[derive(Debug)]
pub struct Query {
    pub expr: Option<Expr>,
    pub sort_keys: Vec<(SortKey, SortOrder)>,
    pub limit: Option<usize>,
}

/// `q` as values.
pub open spec fn query_view(q: Query) -> QuerySpec {
    QuerySpec {
        expr: match q.expr {
            Some(e) => Some(expr_view(e)),
            None => None,
        },
        sort_keys: q.sort_keys@,
        limit: match q.limit {
            Some(n) => Some(n as nat),
            None => None,
        },
    }
}

fn one_key_exec(toks: &Vec<Token>, p: usize) -> (r: Result<((SortKey, SortOrder), usize), DslError>)
    requires
        p <= toks@.len() <= usize::MAX - 4,
    ensures
        match (r, one_key(tokens_view(toks@), p as int)) {
            (Ok((k, q)), Ok((k2, q2))) => k == k2 && q == q2 && moved_on(tokens_view(toks@), p as int, q as int),
            (Err(e), Err(e2)) => dsl_error_view(e) == e2,
            _ => false,
        },
{
    let (v, q) = value_at_exec(toks, p)?;
    let key = match parse_sort_key(v.as_str()) {
        Ok(k) => k,
        Err(e) => {
            return Err(e);
        },
    };
    if kw_at_exec(toks, q, "reverse") {
        Ok(((key, SortOrder::Desc), q + 1))
    } else {
        Ok(((key, SortOrder::Asc), q))
    }
}

fn is_comma_at(toks: &Vec<Token>, q: usize) -> (r: bool)
    ensures
        r == (q < toks@.len() && tokens_view(toks@)[q as int] is Comma),
{
    if q < toks.len() {
        match &toks[q] {
            Token::Comma => true,
            _ => false,
        }
    } else {
        false
    }
}

fn sort_clause_exec(toks: &Vec<Token>, p: usize) -> (r: Result<(Vec<(SortKey, SortOrder)>, usize), DslError>)
    requires
        p <= toks@.len() <= usize::MAX - 4,
    ensures
        match (r, sort_clause(tokens_view(toks@), p as int)) {
            (Ok((k, q)), Ok((k2, q2))) => k@ == k2 && q == q2 && p <= q <= toks@.len(),
            (Err(e), Err(e2)) => dsl_error_view(e) == e2,
            _ => false,
        },
{
    let ghost tv = tokens_view(toks@);
    let mut keys: Vec<(SortKey, SortOrder)> = Vec::new();
    if !kw_at_exec(toks, p, "sort") {
        return Ok((keys, p));
    }
    if !kw_at_exec(toks, p + 1, "by") {
        return Err(expect_kw_err(toks, p + 1, "by"));
    }
    let (first, q0) = one_key_exec(toks, p + 2)?;
    keys.push(first);
    proof {
        assert(keys@ =~= seq![first]);
    }
    let mut q = q0;
    while is_comma_at(toks, q)
        invariant
            p < q0 <= q <= toks@.len() <= usize::MAX - 4,
            tv == tokens_view(toks@),
            sort_clause(tv, p as int) == keys_rest(tv, q0 as int, seq![first]),
            keys_rest(tv, q0 as int, seq![first]) == keys_rest(tv, q as int, keys@),
        decreases toks@.len() - q,
    {
        let (k, q2) = match one_key_exec(toks, q + 1) {
            Ok(x) => x,
            Err(err) => {
                proof {
                    assert(keys_rest(tv, q as int, keys@) == Err::<(Seq<(SortKey, SortOrder)>, int), DslErrorSpec>(
                        dsl_error_view(err),
                    ));
                }
                return Err(err);
            },
        };
        keys.push(k);
        q = q2;
    }
    Ok((keys, q))
}

fn limit_clause_exec(toks: &Vec<Token>, p: usize) -> (r: Result<(Option<usize>, usize), DslError>)
    requires
        p <= toks@.len() <= usize::MAX - 4,
    ensures
        match (r, limit_clause(tokens_view(toks@), p as int)) {
            (Ok((l, q)), Ok((l2, q2))) => q == q2 && p <= q <= toks@.len() && match (l, l2) {
                (Some(n), Some(n2)) => n == n2,
                (None, None) => true,
                _ => false,
            },
            (Err(e), Err(e2)) => dsl_error_view(e) == e2,
            _ => false,
        },
{
    if !kw_at_exec(toks, p, "limit") {
        return Ok((None, p));
    }
    let (v, q) = value_at_exec(toks, p + 1)?;
    let c = to_chars(v.as_str());
    match parse_unsigned_exec(&c, usize::MAX as u64) {
        Some(n) => Ok((Some(n as usize), q)),
        None => Err(DslError::InvalidNumber(v)),
    }
}

fn trailing_text(toks: &Vec<Token>, p: usize) -> (r: String)
    requires
        p <= toks@.len(),
    ensures
        r@ == join_spaces(tokens_view(toks@).skip(p as int).map_values(|t: TokenSpec| token_text(t))),
{
    let ghost v = tokens_view(toks@).skip(p as int).map_values(|t: TokenSpec| token_text(t));
    let mut out = String::new();
    let mut k = p;
    proof {
        assert(v.take(0) =~= Seq::<Seq<char>>::empty());
    }
    while k < toks.len()
        invariant
            p <= k <= toks@.len(),
            v == tokens_view(toks@).skip(p as int).map_values(|t: TokenSpec| token_text(t)),
            out@ == join_spaces(v.take(k - p)),
        decreases toks@.len() - k,
    {
        if k > p {
            push_char(&mut out, ' ');
        }
        let t = found_at_exec(toks, k);
        push_str(&mut out, t.as_str());
        proof {
            let w = v.take(k - p + 1);
            assert(w.drop_last() =~= v.take(k - p));
            assert(w.last() == t@);
            if k == p {
                assert(out@ =~= w[0]);
            } else {
                assert(out@ =~= join_spaces(v.take(k - p)) + seq![' '] + w.last());
            }
        }
        k += 1;
    }
    proof {
        assert(v.take(k - p) =~= v);
    }
    out
}

/// Compile a query string, with `today`, `tomorrow` and `yesterday`
/// relative to `today` (see [`query_of`]). `today` must leave a day on
/// either side within chrono's calendar (it is neither its first nor its
/// last day).
pub fn parse(input: &str, today: Date) -> (r: Result<Query, DslError>)
    requires
        valid_date(today),
        !crate::date::is_first_day(today) && !crate::date::is_last_day(today),
        input@.len() <= usize::MAX - 4,
    ensures
        match (r, query_of(input@, today)) {
            (Ok(q), Ok(q2)) => query_view(q) == q2,
            (Err(e), Err(e2)) => dsl_error_view(e) == e2,
            _ => false,
        },
{
    let tokens = tokenize(input)?;
    proof {
        lemma_tokens_len(input@, 0);
    }
    if tokens.len() == 0 {
        return Err(DslError::EmptyInput);
    }
    let (expr, p1) = parse_or(&tokens, 0, today)?;
    let (sort_keys, p2) = sort_clause_exec(&tokens, p1)?;
    let (limit, p3) = limit_clause_exec(&tokens, p2)?;
    if p3 < tokens.len() {
        return Err(DslError::TrailingTokens(trailing_text(&tokens, p3)));
    }
    Ok(Query { expr: Some(expr), sort_keys, limit })
}

proof fn lemma_tokens_len(s: Seq<char>, i: int)
    requires
        0 <= i <= s.len(),
    ensures
        tokens_from(s, i) matches Ok(ts) ==> ts.len() <= s.len() - i,
    decreases s.len() - i,
{
    if i < s.len() {
        if is_ws(s[i]) || s[i] == '(' || s[i] == ')' || s[i] == ',' {
            lemma_tokens_len(s, i + 1);
        } else if s[i] == '"' {
            crate::text::lemma_find_from_bounds(s, '"', i + 1);
            let q = crate::text::find_from(s, '"', i + 1);
            if q < s.len() {
                lemma_tokens_len(s, q + 1);
            }
        } else {
            lemma_bare_word_end(s, i);
            let e = bare_word_end(s, i);
            if e > i {
                lemma_tokens_len(s, e);
            }
        }
    }
}


// ── an empty query ───────────────────────────────────────────────────────────

/// `r` is no `EmptyInput` error.
pub open spec fn not_empty_err<T>(r: Result<T, DslErrorSpec>) -> bool {
    r matches Err(e) ==> !(e is EmptyInput)
}

proof fn lemma_tokens_progress(s: Seq<char>, i: int)
    requires
        0 <= i <= s.len(),
    ensures
        not_empty_err(tokens_from(s, i)),
        tokens_from(s, i) == Ok::<Seq<TokenSpec>, DslErrorSpec>(Seq::empty()) <==> forall|k: int|
            i <= k < s.len() ==> is_ws(#[trigger] s[k]),
    decreases s.len() - i,
{
    if i < s.len() {
        if is_ws(s[i]) {
            lemma_tokens_progress(s, i + 1);
            assert((forall|k: int| i <= k < s.len() ==> is_ws(#[trigger] s[k])) <==> (forall|k: int|
                i + 1 <= k < s.len() ==> is_ws(#[trigger] s[k])));
        } else if s[i] == '(' || s[i] == ')' || s[i] == ',' {
            lemma_tokens_progress(s, i + 1);
        } else if s[i] == '"' {
            crate::text::lemma_find_from_bounds(s, '"', i + 1);
            let q = crate::text::find_from(s, '"', i + 1);
            if q < s.len() {
                lemma_tokens_progress(s, q + 1);
            }
        } else {
            lemma_bare_word_end(s, i);
            let e = bare_word_end(s, i);
            assert(e > i);
            lemma_tokens_progress(s, e);
        }
    }
}

proof fn lemma_value_at(toks: Seq<TokenSpec>, p: int)
    ensures
        not_empty_err(value_at(toks, p)),
        value_at(toks, p) matches Ok((_, q)) ==> 0 <= p < q <= toks.len(),
{
}

proof fn lemma_predicate_progress(toks: Seq<TokenSpec>, p: int, today: Date)
    requires
        0 <= p,
    ensures
        not_empty_err(predicate_at(toks, p, today)),
        predicate_at(toks, p, today) matches Ok((_, q)) ==> p < q <= toks.len(),
{
    lemma_value_at(toks, p + 2);
    if let Some(w) = word_at(toks, p) {
        let head = lower(w);
        if head == "due"@ || head == "scheduled"@ || head == "completed"@ {
            if let Ok((v, q)) = value_at(toks, p + 2) {
                if let Err(e) = date_named(v, today) {
                    assert(e is InvalidDate);
                }
            }
        }
    }
}

proof fn lemma_or_progress(toks: Seq<TokenSpec>, p: int, today: Date)
    requires
        0 <= p <= toks.len(),
    ensures
        not_empty_err(or_expr(toks, p, today)),
        or_expr(toks, p, today) matches Ok((_, q)) ==> p < q <= toks.len(),
    decreases toks.len() - p, 4int,
{
    lemma_and_progress(toks, p, today);
    if let Ok((first, p1)) = and_expr(toks, p, today) {
        lemma_or_rest_progress(toks, p1, seq![first], today);
    }
}

proof fn lemma_or_rest_progress(toks: Seq<TokenSpec>, p: int, parts: Seq<ExprSpec>, today: Date)
    requires
        0 <= p <= toks.len(),
    ensures
        not_empty_err(or_rest(toks, p, parts, today)),
        or_rest(toks, p, parts, today) matches Ok((_, q)) ==> p <= q <= toks.len(),
    decreases toks.len() - p, 5int,
{
    if kw_at(toks, p, "or"@) {
        lemma_and_progress(toks, p + 1, today);
        if let Ok((e, p1)) = and_expr(toks, p + 1, today) {
            lemma_or_rest_progress(toks, p1, parts.push(e), today);
        }
    }
}

proof fn lemma_and_progress(toks: Seq<TokenSpec>, p: int, today: Date)
    requires
        0 <= p <= toks.len(),
    ensures
        not_empty_err(and_expr(toks, p, today)),
        and_expr(toks, p, today) matches Ok((_, q)) ==> p < q <= toks.len(),
    decreases toks.len() - p, 3int,
{
    lemma_unary_progress(toks, p, today);
    if let Ok((first, p1)) = unary(toks, p, today) {
        lemma_and_rest_progress(toks, p1, seq![first], today);
    }
}

proof fn lemma_and_rest_progress(toks: Seq<TokenSpec>, p: int, parts: Seq<ExprSpec>, today: Date)
    requires
        0 <= p <= toks.len(),
    ensures
        not_empty_err(and_rest(toks, p, parts, today)),
        and_rest(toks, p, parts, today) matches Ok((_, q)) ==> p <= q <= toks.len(),
    decreases toks.len() - p, 5int,
{
    if kw_at(toks, p, "and"@) {
        lemma_unary_progress(toks, p + 1, today);
        if let Ok((e, p1)) = unary(toks, p + 1, today) {
            lemma_and_rest_progress(toks, p1, parts.push(e), today);
        }
    }
}

proof fn lemma_unary_progress(toks: Seq<TokenSpec>, p: int, today: Date)
    requires
        0 <= p <= toks.len(),
    ensures
        not_empty_err(unary(toks, p, today)),
        unary(toks, p, today) matches Ok((_, q)) ==> p < q <= toks.len(),
    decreases toks.len() - p, 2int,
{
    if p < toks.len() && kw_at(toks, p, "not"@) && !kw_at(toks, p + 1, "done"@) {
        lemma_unary_progress(toks, p + 1, today);
    } else {
        lemma_atom_progress(toks, p, today);
    }
}

proof fn lemma_atom_progress(toks: Seq<TokenSpec>, p: int, today: Date)
    requires
        0 <= p <= toks.len(),
    ensures
        not_empty_err(atom_expr(toks, p, today)),
        atom_expr(toks, p, today) matches Ok((_, q)) ==> p < q <= toks.len(),
    decreases toks.len() - p, 1int,
{
    if 0 <= p < toks.len() && toks[p] is LParen {
        lemma_or_progress(toks, p + 1, today);
    } else {
        lemma_predicate_progress(toks, p, today);
    }
}

proof fn lemma_keys_progress(toks: Seq<TokenSpec>, p: int, keys: Seq<(SortKey, SortOrder)>)
    requires
        0 <= p <= toks.len(),
    ensures
        not_empty_err(keys_rest(toks, p, keys)),
    decreases toks.len() - p,
{
    if 0 <= p < toks.len() && toks[p] is Comma {
        lemma_value_at(toks, p + 1);
        if let Ok((k, q)) = one_key(toks, p + 1) {
            lemma_keys_progress(toks, q, keys.push(k));
        }
    }
}

/// A query is refused as empty exactly when it is blank: every character
/// is whitespace.
pub proof fn lemma_empty_query_is_blank(input: Seq<char>, today: Date)
    ensures
        query_of(input, today) == Err::<QuerySpec, DslErrorSpec>(DslErrorSpec::EmptyInput) <==> forall|k: int|
            0 <= k < input.len() ==> is_ws(#[trigger] input[k]),
{
    lemma_tokens_progress(input, 0);
    if let Ok(toks) = tokens_from(input, 0) {
        if toks.len() > 0 {
            assert(toks != Seq::<TokenSpec>::empty());
            lemma_or_progress(toks, 0, today);
            if let Ok((expr, p1)) = or_expr(toks, 0, today) {
                if kw_at(toks, p1, "sort"@) && kw_at(toks, p1 + 1, "by"@) {
                    lemma_value_at(toks, p1 + 2);
                    if let Ok((k, q)) = one_key(toks, p1 + 2) {
                        lemma_keys_progress(toks, q, seq![k]);
                    }
                }
                if let Ok((keys, p2)) = sort_clause(toks, p1) {
                    lemma_value_at(toks, p2 + 1);
                }
            }
        } else {
            assert(toks =~= Seq::<TokenSpec>::empty());
        }
    }
}


/// The priority names, any case: `highest`, `high`, `medium` or `normal`,
/// `low` and `lowest` name the five priorities, one each, and nothing else
/// names a priority; two names give the same priority only when they are
/// the same name (`medium` and `normal` aside).
pub proof fn lemma_priority_names(s: Seq<char>)
    ensures
        priority_named(s) == Some(Priority::Highest) <==> lower(s) == "highest"@,
        priority_named(s) == Some(Priority::High) <==> lower(s) == "high"@,
        priority_named(s) == Some(Priority::Medium) <==> (lower(s) == "medium"@ || lower(s) == "normal"@),
        priority_named(s) == Some(Priority::Low) <==> lower(s) == "low"@,
        priority_named(s) == Some(Priority::Lowest) <==> lower(s) == "lowest"@,
        priority_named(s) is None <==> !(lower(s) == "highest"@ || lower(s) == "high"@ || lower(s) == "medium"@
            || lower(s) == "normal"@ || lower(s) == "low"@ || lower(s) == "lowest"@),
{
    reveal_strlit("highest");
    reveal_strlit("high");
    reveal_strlit("medium");
    reveal_strlit("normal");
    reveal_strlit("low");
    reveal_strlit("lowest");
    assert("highest"@.len() == 7);
    assert("highest"@[0] == 'h');
    assert("high"@.len() == 4);
    assert("high"@[0] == 'h');
    assert("medium"@.len() == 6);
    assert("medium"@[0] == 'm');
    assert("normal"@.len() == 6);
    assert("normal"@[0] == 'n');
    assert("low"@.len() == 3);
    assert("low"@[0] == 'l');
    assert("lowest"@.len() == 6);
    assert("lowest"@[0] == 'l');
    assert("highest"@ != "high"@);
    assert("highest"@ != "medium"@);
    assert("highest"@ != "normal"@);
    assert("highest"@ != "low"@);
    assert("highest"@ != "lowest"@);
    assert("high"@ != "medium"@);
    assert("high"@ != "normal"@);
    assert("high"@ != "low"@);
    assert("high"@ != "lowest"@);
    assert("medium"@[0] != "normal"@[0]);
    assert("medium"@ != "normal"@);
    assert("medium"@ != "low"@);
    assert("medium"@[0] != "lowest"@[0]);
    assert("medium"@ != "lowest"@);
    assert("normal"@ != "low"@);
    assert("normal"@[0] != "lowest"@[0]);
    assert("normal"@ != "lowest"@);
    assert("low"@ != "lowest"@);
}

/// The status names, any case: `open` or `todo`; `done`, `complete` or
/// `completed`; `in-progress`, `in_progress` or `doing`; `cancelled` or
/// `canceled` — and nothing else names a status.
pub proof fn lemma_status_names(s: Seq<char>)
    ensures
        status_named(s) == Some(Status::Open) <==> (lower(s) == "open"@ || lower(s) == "todo"@),
        status_named(s) == Some(Status::Done) <==> (lower(s) == "done"@ || lower(s) == "complete"@ || lower(s)
            == "completed"@),
        status_named(s) == Some(Status::InProgress) <==> (lower(s) == "in-progress"@ || lower(s) == "in_progress"@
            || lower(s) == "doing"@),
        status_named(s) == Some(Status::Cancelled) <==> (lower(s) == "cancelled"@ || lower(s) == "canceled"@),
{
    reveal_strlit("open");
    reveal_strlit("todo");
    reveal_strlit("done");
    reveal_strlit("complete");
    reveal_strlit("completed");
    reveal_strlit("in-progress");
    reveal_strlit("in_progress");
    reveal_strlit("doing");
    reveal_strlit("cancelled");
    reveal_strlit("canceled");
    assert("open"@.len() == 4);
    assert("open"@[0] == 'o');
    assert("todo"@.len() == 4);
    assert("todo"@[0] == 't');
    assert("done"@.len() == 4);
    assert("done"@[0] == 'd');
    assert("complete"@.len() == 8);
    assert("complete"@[0] == 'c');
    assert("completed"@.len() == 9);
    assert("completed"@[0] == 'c');
    assert("in-progress"@.len() == 11);
    assert("in-progress"@[0] == 'i');
    assert("in_progress"@.len() == 11);
    assert("in_progress"@[0] == 'i');
    assert("doing"@.len() == 5);
    assert("doing"@[0] == 'd');
    assert("cancelled"@.len() == 9);
    assert("cancelled"@[0] == 'c');
    assert("canceled"@.len() == 8);
    assert("canceled"@[0] == 'c');
    assert("open"@[0] != "todo"@[0]);
    assert("open"@ != "todo"@);
    assert("open"@[0] != "done"@[0]);
    assert("open"@ != "done"@);
    assert("open"@ != "complete"@);
    assert("open"@ != "completed"@);
    assert("open"@ != "in-progress"@);
    assert("open"@ != "in_progress"@);
    assert("open"@ != "doing"@);
    assert("open"@ != "cancelled"@);
    assert("open"@ != "canceled"@);
    assert("todo"@[0] != "done"@[0]);
    assert("todo"@ != "done"@);
    assert("todo"@ != "complete"@);
    assert("todo"@ != "completed"@);
    assert("todo"@ != "in-progress"@);
    assert("todo"@ != "in_progress"@);
    assert("todo"@ != "doing"@);
    assert("todo"@ != "cancelled"@);
    assert("todo"@ != "canceled"@);
    assert("done"@ != "complete"@);
    assert("done"@ != "completed"@);
    assert("done"@ != "in-progress"@);
    assert("done"@ != "in_progress"@);
    assert("done"@ != "doing"@);
    assert("done"@ != "cancelled"@);
    assert("done"@ != "canceled"@);
    assert("complete"@ != "completed"@);
    assert("complete"@ != "in-progress"@);
    assert("complete"@ != "in_progress"@);
    assert("complete"@ != "doing"@);
    assert("complete"@ != "cancelled"@);
    assert("complete"@[1] != "canceled"@[1]);
    assert("complete"@ != "canceled"@);
    assert("completed"@ != "in-progress"@);
    assert("completed"@ != "in_progress"@);
    assert("completed"@ != "doing"@);
    assert("completed"@[1] != "cancelled"@[1]);
    assert("completed"@ != "cancelled"@);
    assert("completed"@ != "canceled"@);
    assert("in-progress"@[2] != "in_progress"@[2]);
    assert("in-progress"@ != "in_progress"@);
    assert("in-progress"@ != "doing"@);
    assert("in-progress"@ != "cancelled"@);
    assert("in-progress"@ != "canceled"@);
    assert("in_progress"@ != "doing"@);
    assert("in_progress"@ != "cancelled"@);
    assert("in_progress"@ != "canceled"@);
    assert("doing"@ != "cancelled"@);
    assert("doing"@ != "canceled"@);
    assert("cancelled"@ != "canceled"@);
}

} // verus!
