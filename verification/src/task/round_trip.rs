//! Serializing a task and parsing the line back.
//!
//! [`lemma_parse_serialized`] states that a task whose texts cannot be
//! mistaken for fields reads back from its own line unchanged, and
//! [`lemma_serialize_idempotent`] that serializing the parsed task gives
//! the same line again.

use vstd::prelude::*;

use crate::date::{chrono_parse_date, date_text, zero_pad, Date};
use crate::task::{priority_char, Priority, Status, TaskSpec};
use crate::task::emoji::{
    comma_ids, date_after, date_char, date_field_of, date_fields, date_part, field_starts_at, field_text, fields_boundary,
    is_block_link, leading_fields, no_fields, parse_task, split_block_link, status_char, status_of, tags_from,
    task_line, trailing_fields, depends_char, id_char, is_field_char, lemma_next_marker, next_marker,
    priority_of, read_fields, recurrence_char, set_date, text_value, DateField, Fields,
};
use crate::markdown::strip_trailing;
use crate::text::{
    bytes_prefix_end, char_width, decimal, first_non_ascii_ws, is_ascii_alnum, is_ascii_digit, is_ws, last_index,
    trim_end, trim_start,
};

verus! {

// ── dates ────────────────────────────────────────────────────────────────────

proof fn lemma_decimal(n: nat)
    ensures
        forall|i: int| 0 <= i < decimal(n).len() ==> is_ascii_digit(#[trigger] decimal(n)[i]),
        decimal(n).len() >= 1,
        n < 10 ==> decimal(n).len() == 1,
        n < 100 ==> decimal(n).len() <= 2,
        n < 1000 ==> decimal(n).len() <= 3,
        n < 10000 ==> decimal(n).len() <= 4,
    decreases n,
{
    if n >= 10 {
        lemma_decimal(n / 10);
    }
}

proof fn lemma_zero_pad(n: nat, w: nat)
    requires
        decimal(n).len() <= w,
    ensures
        zero_pad(decimal(n), w).len() == w,
        forall|i: int| 0 <= i < w ==> is_ascii_digit(#[trigger] zero_pad(decimal(n), w)[i]),
{
    lemma_decimal(n);
    let z = zero_pad(decimal(n), w);
    assert forall|i: int| 0 <= i < w implies is_ascii_digit(#[trigger] z[i]) by {
        if decimal(n).len() < w {
            let pad = Seq::new((w - decimal(n).len()) as nat, |j: int| '0');
            assert(z == pad + decimal(n));
            if i < pad.len() {
                assert(z[i] == '0');
            } else {
                assert(z[i] == decimal(n)[i - pad.len()]);
            }
        }
    }
}

/// A date chrono renders as ten ASCII characters `YYYY-MM-DD`.
pub open spec fn four_digit_year(d: Date) -> bool {
    0 <= d.year <= 9999 && 1 <= d.month <= 12 && 1 <= d.day <= 31
}

pub proof fn lemma_date_text_shape(d: Date)
    requires
        four_digit_year(d),
    ensures
        date_text(d).len() == 10,
        forall|i: int| 0 <= i < 10 ==> #[trigger] char_width(date_text(d)[i]) == 1,
        forall|i: int| 0 <= i < 10 ==> is_ascii_digit(#[trigger] date_text(d)[i]) || date_text(d)[i] == '-',
{
    lemma_decimal(d.year as nat);
    lemma_decimal(d.month as nat);
    lemma_decimal(d.day as nat);
    lemma_zero_pad(d.year as nat, 4);
    lemma_zero_pad(d.month as nat, 2);
    lemma_zero_pad(d.day as nat, 2);
    let y = zero_pad(decimal(d.year as nat), 4);
    let m = zero_pad(decimal(d.month as nat), 2);
    let dd = zero_pad(decimal(d.day as nat), 2);
    let t = date_text(d);
    assert(t == y + seq!['-'] + m + seq!['-'] + dd);
    assert forall|i: int| 0 <= i < 10 implies is_ascii_digit(#[trigger] t[i]) || t[i] == '-' by {
        if i < 4 {
            assert(t[i] == y[i]);
        } else if i == 4 {
        } else if i < 7 {
            assert(t[i] == m[i - 5]);
        } else if i == 7 {
        } else {
            assert(t[i] == dd[i - 8]);
        }
    }
    assert forall|i: int| 0 <= i < 10 implies #[trigger] char_width(t[i]) == 1 by {
        assert(is_ascii_digit(t[i]) || t[i] == '-');
    }
}

proof fn lemma_bytes_prefix_ascii(s: Seq<char>, n: int)
    requires
        0 <= n <= s.len(),
        forall|i: int| 0 <= i < n ==> #[trigger] char_width(s[i]) == 1,
    ensures
        bytes_prefix_end(s, n) == Some(n),
    decreases n,
{
    if n > 0 {
        let r = s.drop_first();
        assert forall|i: int| 0 <= i < n - 1 implies #[trigger] char_width(r[i]) == 1 by {
            assert(r[i] == s[i + 1]);
        }
        lemma_bytes_prefix_ascii(r, n - 1);
        assert(char_width(s[0]) == 1);
    }
}


// ── reading fields is local ──────────────────────────────────────────────────

proof fn lemma_next_marker_shift(s: Seq<char>, k: int, p: int)
    requires
        0 <= k <= p <= s.len(),
    ensures
        next_marker(s.skip(k), p - k) == next_marker(s, p) - k,
    decreases s.len() - p,
{
    if p < s.len() {
        assert(s.skip(k)[p - k] == s[p]);
    }
    if p < s.len() && !is_field_char(s[p]) {
        lemma_next_marker_shift(s, k, p + 1);
    }
}

/// `read_fields` at `pos` only looks at `s` from `pos` on.
proof fn lemma_read_fields_shift(s: Seq<char>, k: int, pos: int, f: Fields)
    requires
        0 <= k <= pos,
        k <= s.len(),
    ensures
        read_fields(s.skip(k), pos - k, f) == read_fields(s, pos, f),
    decreases s.len() - pos,
{
    let t = s.skip(k);
    let q = pos - k;
    if pos >= s.len() {
    } else {
        assert(t[q] == s[pos]);
        if pos + 2 <= s.len() {
            assert(t.skip(q + 2) =~= s.skip(pos + 2));
        }
        if s[pos] == ' ' {
            lemma_read_fields_shift(s, k, pos + 1, Fields {
                raw_trailing: match f.raw_trailing {
                    Some(r) => Some(r.push(' ')),
                    None => None,
                },
                ..f
            });
        } else if priority_of(s[pos]) is Some {
            lemma_read_fields_shift(s, k, pos + 1, if f.priority is None {
                Fields { priority: priority_of(s[pos]), ..f }
            } else {
                f
            });
        } else if date_field_of(s[pos]) is Some && pos + 1 < s.len() && s[pos + 1] == ' ' && date_after(
            s.skip(pos + 2),
        ) is Some {
            assert(t[q + 1] == s[pos + 1]);
            let kk = bytes_prefix_end(s.skip(pos + 2), 10)->0;
            crate::text::lemma_bytes_prefix_end(s.skip(pos + 2), 10);
            lemma_read_fields_shift(
                s,
                k,
                pos + 2 + kk,
                set_date(f, date_field_of(s[pos])->0, date_after(s.skip(pos + 2))->0),
            );
        } else if (s[pos] == recurrence_char() || s[pos] == id_char() || s[pos] == depends_char()) && pos
            + 1 < s.len() && s[pos + 1] == ' ' {
            assert(t[q + 1] == s[pos + 1]);
            lemma_next_marker_shift(s, k, pos + 2);
            lemma_next_marker(s, pos + 2);
            let e = next_marker(s, pos + 2);
            assert(t.subrange(q + 2, e - k) =~= s.subrange(pos + 2, e));
            assert(text_value(t, q + 2) == text_value(s, pos + 2));
            let v = text_value(s, pos + 2);
            let f2 = if s[pos] == recurrence_char() {
                Fields { recurrence: Some(v), ..f }
            } else if s[pos] == id_char() {
                Fields { id: Some(v), ..f }
            } else {
                Fields { depends_on: comma_ids(v), ..f }
            };
            lemma_read_fields_shift(s, k, e, f2);
        } else {
            if pos + 1 < s.len() {
                assert(t[q + 1] == s[pos + 1]);
            }
            lemma_read_fields_shift(s, k, pos + 1, Fields {
                raw_trailing: match f.raw_trailing {
                    Some(r) => Some(r.push(s[pos])),
                    None => Some(seq![s[pos]]),
                },
                ..f
            });
        }
    }
}


// ── reading one field ────────────────────────────────────────────────────────

/// A character of the texts that round-trip: ASCII letters and digits,
/// space, `,`, `.`, `:`, `(`, `)` and `/`.
pub open spec fn plain_char(c: char) -> bool {
    is_ascii_alnum(c) || c == ' ' || c == ',' || c == '.' || c == ':' || c == '(' || c == ')' || c == '/'
}

/// Every character of `s` is [`plain_char`].
pub open spec fn plain_text(s: Seq<char>) -> bool {
    forall|i: int| 0 <= i < s.len() ==> plain_char(#[trigger] s[i])
}

/// `s` is plain and does not end in a space.
pub open spec fn plain_trimmed(s: Seq<char>) -> bool {
    plain_text(s) && (s.len() > 0 ==> s.last() != ' ')
}

proof fn lemma_trim_end_plain(s: Seq<char>)
    requires
        plain_trimmed(s),
    ensures
        trim_end(s) == s,
        trim_end(s + seq![' ']) == s,
{
    if s.len() > 0 {
        assert(plain_char(s[s.len() - 1]));
    }
    let t = s + seq![' '];
    assert(t.drop_last() =~= s);
    assert(t.last() == ' ');
    assert(trim_end(t) == trim_end(t.drop_last()));
}

proof fn lemma_read_space(s: Seq<char>, pos: int, f: Fields)
    requires
        0 <= pos < s.len(),
        s[pos] == ' ',
        f.raw_trailing is None,
    ensures
        read_fields(s, pos, f) == read_fields(s, pos + 1, f),
{
    assert(Fields { raw_trailing: None, ..f } == f);
}

proof fn lemma_read_priority(p: Priority, rest: Seq<char>, f: Fields)
    requires
        f.priority is None,
        f.raw_trailing is None,
    ensures
        read_fields(seq![' ', priority_char(p)] + rest, 0, f) == read_fields(rest, 0, Fields { priority: Some(p), ..f }),
{
    let s = seq![' ', priority_char(p)] + rest;
    let f2 = Fields { priority: Some(p), ..f };
    assert(s[0] == ' ');
    assert(s[1] == priority_char(p));
    lemma_read_space(s, 0, f);
    assert(priority_of(priority_char(p)) == Some(p));
    assert(read_fields(s, 1, f) == read_fields(s, 2, f2));
    lemma_read_fields_shift(s, 2, 2, f2);
    assert(s.skip(2) =~= rest);
}

proof fn lemma_date_after_text(x: Date, rest: Seq<char>)
    requires
        four_digit_year(x),
        chrono_parse_date(date_text(x)) == Some(x),
    ensures
        date_after(date_text(x) + rest) == Some(x),
        bytes_prefix_end(date_text(x) + rest, 10) == Some(10int),
{
    let s = date_text(x) + rest;
    lemma_date_text_shape(x);
    assert forall|i: int| 0 <= i < 10 implies #[trigger] char_width(s[i]) == 1 by {
        assert(s[i] == date_text(x)[i]);
    }
    lemma_bytes_prefix_ascii(s, 10);
    assert(s.take(10) =~= date_text(x));
}

proof fn lemma_read_date(which: DateField, x: Date, rest: Seq<char>, f: Fields)
    requires
        four_digit_year(x),
        chrono_parse_date(date_text(x)) == Some(x),
        f.raw_trailing is None,
    ensures
        read_fields(seq![' ', date_char(which), ' '] + date_text(x) + rest, 0, f) == read_fields(
            rest,
            0,
            set_date(f, which, x),
        ),
{
    let s = seq![' ', date_char(which), ' '] + date_text(x) + rest;
    let f2 = set_date(f, which, x);
    lemma_date_text_shape(x);
    assert(s[0] == ' ');
    assert(s[1] == date_char(which));
    assert(s[2] == ' ');
    lemma_read_space(s, 0, f);
    assert(s.skip(3) =~= date_text(x) + rest);
    lemma_date_after_text(x, rest);
    assert(date_field_of(date_char(which)) == Some(which));
    assert(read_fields(s, 1, f) == read_fields(s, 13, f2));
    lemma_read_fields_shift(s, 13, 13, f2);
    assert(s.skip(13) =~= rest);
}

/// `e` is the first marker at or after `p`.
proof fn lemma_next_marker_at(s: Seq<char>, p: int, e: int)
    requires
        0 <= p <= e <= s.len(),
        forall|i: int| p <= i < e ==> !is_field_char(#[trigger] s[i]),
        e == s.len() || is_field_char(s[e]),
    ensures
        next_marker(s, p) == e,
    decreases e - p,
{
    if p < e {
        lemma_next_marker_at(s, p + 1, e);
    }
}

proof fn lemma_read_recurrence(r: Seq<char>, rest: Seq<char>, f: Fields)
    requires
        r.len() > 0,
        plain_trimmed(r),
        f.raw_trailing is None,
        rest.len() == 0 || (rest.len() > 1 && rest[0] == ' ' && is_field_char(rest[1])),
    ensures
        read_fields(seq![' ', recurrence_char(), ' '] + r + rest, 0, f) == read_fields(
            rest,
            0,
            Fields { recurrence: Some(r), ..f },
        ),
{
    let s = seq![' ', recurrence_char(), ' '] + r + rest;
    let f2 = Fields { recurrence: Some(r), ..f };
    let n = r.len() as int;
    assert(s[0] == ' ');
    assert(s[1] == recurrence_char());
    assert(s[2] == ' ');
    lemma_read_space(s, 0, f);
    let e = if rest.len() == 0 { 3 + n } else { 4 + n };
    assert forall|i: int| 3 <= i < e implies !is_field_char(#[trigger] s[i]) by {
        if i < 3 + n {
            assert(s[i] == r[i - 3]);
            assert(plain_char(r[i - 3]));
        } else {
            assert(s[i] == rest[0]);
        }
    }
    if rest.len() > 0 {
        assert(s[4 + n] == rest[1]);
    }
    lemma_next_marker_at(s, 3, e);
    lemma_trim_end_plain(r);
    if rest.len() == 0 {
        assert(s.subrange(3, e) =~= r);
    } else {
        assert(s.subrange(3, e) =~= r + seq![' ']);
    }
    assert(text_value(s, 3) == r);
    assert(read_fields(s, 1, f) == read_fields(s, e, f2));
    if rest.len() == 0 {
        assert(read_fields(s, e, f2) == f2);
    } else {
        lemma_read_fields_shift(s, 3 + n, e, f2);
        assert(s.skip(3 + n) =~= rest);
        lemma_read_space(rest, 0, f2);
    }
}


// ── the field section of a serialized task ───────────────────────────────────

/// A date that chrono renders as `YYYY-MM-DD` and parses back.
pub open spec fn round_trip_date(d: Option<Date>) -> bool {
    d matches Some(x) ==> four_digit_year(x) && chrono_parse_date(date_text(x)) == Some(x)
}

/// A task whose line reads back as the task: its description and
/// recurrence are plain text without a trailing space (a recurrence is
/// not empty), its dates round-trip through their text, and it has no id,
/// dependency, unknown text or block link.
pub open spec fn round_trip_task(t: TaskSpec) -> bool {
    &&& plain_trimmed(t.description)
    &&& t.recurrence matches Some(r) ==> r.len() > 0 && plain_trimmed(r)
    &&& round_trip_date(t.created)
    &&& round_trip_date(t.start)
    &&& round_trip_date(t.scheduled)
    &&& round_trip_date(t.due)
    &&& round_trip_date(t.done)
    &&& round_trip_date(t.cancelled)
    &&& t.id is None
    &&& t.depends_on.len() == 0
    &&& t.raw_trailing is None
    &&& t.block_link is None
}

/// The fields of `t`'s field section.
pub open spec fn task_fields(t: TaskSpec) -> Fields {
    Fields {
        priority: t.priority,
        recurrence: t.recurrence,
        created: t.created,
        start: t.start,
        scheduled: t.scheduled,
        due: t.due,
        done: t.done,
        cancelled: t.cancelled,
        id: None,
        depends_on: Seq::empty(),
        raw_trailing: None,
    }
}

/// No character of `s` is `^` or a line ending, and `s` does not end in
/// whitespace.
pub open spec fn tail_ok(s: Seq<char>) -> bool {
    &&& forall|i: int| 0 <= i < s.len() ==> #[trigger] s[i] != '^' && s[i] != '\n' && s[i] != '\r'
    &&& s.len() > 0 ==> !is_ws(s.last())
}

proof fn lemma_tail_ok_add(a: Seq<char>, b: Seq<char>)
    requires
        tail_ok(a),
        tail_ok(b),
    ensures
        tail_ok(a + b),
{
    let s = a + b;
    assert forall|i: int| 0 <= i < s.len() implies #[trigger] s[i] != '^' && s[i] != '\n' && s[i] != '\r' by {
        if i < a.len() {
            assert(s[i] == a[i]);
        } else {
            assert(s[i] == b[i - a.len()]);
        }
    }
    if b.len() > 0 {
        assert(s.last() == b.last());
    } else if a.len() > 0 {
        assert(s.last() == a.last());
    }
}

proof fn lemma_plain_tail_ok(s: Seq<char>)
    requires
        plain_trimmed(s),
    ensures
        tail_ok(s),
{
    assert forall|i: int| 0 <= i < s.len() implies #[trigger] s[i] != '^' && s[i] != '\n' && s[i] != '\r' by {
        assert(plain_char(s[i]));
    }
    if s.len() > 0 {
        assert(plain_char(s[s.len() - 1]));
    }
}

/// `s` opens with a space and then a field marker that starts the field
/// section.
pub open spec fn opens_field(s: Seq<char>) -> bool {
    s.len() > 1 && s[0] == ' ' && field_starts_at(s, 1)
}

proof fn lemma_date_part(which: DateField, d: Option<Date>, rest: Seq<char>, f: Fields)
    requires
        round_trip_date(d),
        f.raw_trailing is None,
    ensures
        read_fields(date_part(which, d) + rest, 0, f) == read_fields(
            rest,
            0,
            match d {
                Some(x) => set_date(f, which, x),
                None => f,
            },
        ),
        tail_ok(date_part(which, d)),
        d is None ==> date_part(which, d) + rest == rest,
        d is Some ==> opens_field(date_part(which, d) + rest),
        d is Some ==> (date_part(which, d) + rest).len() > 1 && (date_part(which, d) + rest)[0] == ' '
            && is_field_char((date_part(which, d) + rest)[1]),
{
    match d {
        Some(x) => {
            lemma_read_date(which, x, rest, f);
            lemma_date_text_shape(x);
            let p = date_part(which, d);
            let s = p + rest;
            assert(p == seq![' ', date_char(which), ' '] + date_text(x));
            assert forall|i: int| 0 <= i < p.len() implies #[trigger] p[i] != '^' && p[i] != '\n' && p[i] != '\r' by {
                if i >= 3 {
                    assert(p[i] == date_text(x)[i - 3]);
                }
            }
            assert(p.last() == date_text(x)[9]);
            assert(s[0] == ' ');
            assert(s[1] == date_char(which));
            assert(s[2] == ' ');
            assert(s.skip(3) =~= date_text(x) + rest);
            lemma_date_after_text(x, rest);
        },
        None => {
            assert(date_part(which, d) + rest =~= rest);
        },
    }
}


/// A date part before `rest`: reading it sets the date, it keeps `tail_ok`,
/// and the whole is empty or opens a field when `rest` is.
proof fn lemma_date_step(which: DateField, d: Option<Date>, rest: Seq<char>, f: Fields)
    requires
        round_trip_date(d),
        f.raw_trailing is None,
        tail_ok(rest),
        rest.len() == 0 || (opens_field(rest) && is_field_char(rest[1])),
    ensures
        read_fields(date_part(which, d) + rest, 0, f) == read_fields(
            rest,
            0,
            match d {
                Some(x) => set_date(f, which, x),
                None => f,
            },
        ),
        tail_ok(date_part(which, d) + rest),
        (date_part(which, d) + rest).len() == 0 || (opens_field(date_part(which, d) + rest) && is_field_char(
            (date_part(which, d) + rest)[1],
        )),
{
    lemma_date_part(which, d, rest, f);
    lemma_tail_ok_add(date_part(which, d), rest);
}

#[verifier::rlimit(40)]
proof fn lemma_date_fields(t: TaskSpec)
    requires
        round_trip_task(t),
    ensures
        ({
            let df = date_fields(t.created, t.start, t.scheduled, t.due, t.done, t.cancelled);
            let f0 = Fields { created: None, start: None, scheduled: None, due: None, done: None, cancelled: None, ..task_fields(t) };
            &&& read_fields(df, 0, f0) == task_fields(t)
            &&& tail_ok(df)
            &&& df.len() == 0 || (opens_field(df) && is_field_char(df[1]))
        }),
{
    let e = Seq::<char>::empty();
    let p1 = date_part(DateField::Created, t.created);
    let p2 = date_part(DateField::Start, t.start);
    let p3 = date_part(DateField::Scheduled, t.scheduled);
    let p4 = date_part(DateField::Due, t.due);
    let p5 = date_part(DateField::Done, t.done);
    let p6 = date_part(DateField::Cancelled, t.cancelled);
    let r6 = p6 + e;
    let r5 = p5 + r6;
    let r4 = p4 + r5;
    let r3 = p3 + r4;
    let r2 = p2 + r3;
    let r1 = p1 + r2;
    let df = date_fields(t.created, t.start, t.scheduled, t.due, t.done, t.cancelled);
    assert(df =~= r1);
    let f0 = Fields { created: None, start: None, scheduled: None, due: None, done: None, cancelled: None, ..task_fields(t) };
    let f1 = Fields { created: t.created, ..f0 };
    let f2 = Fields { start: t.start, ..f1 };
    let f3 = Fields { scheduled: t.scheduled, ..f2 };
    let f4 = Fields { due: t.due, ..f3 };
    let f5 = Fields { done: t.done, ..f4 };
    let f6 = Fields { cancelled: t.cancelled, ..f5 };
    assert(tail_ok(e));
    lemma_date_step(DateField::Cancelled, t.cancelled, e, f5);
    lemma_date_step(DateField::Done, t.done, r6, f4);
    lemma_date_step(DateField::Due, t.due, r5, f3);
    lemma_date_step(DateField::Scheduled, t.scheduled, r4, f2);
    lemma_date_step(DateField::Start, t.start, r3, f1);
    lemma_date_step(DateField::Created, t.created, r2, f0);
    assert(read_fields(e, 0, f6) == f6);
    assert(f6 == task_fields(t));
}

proof fn lemma_leading_fields(t: TaskSpec)
    requires
        round_trip_task(t),
    ensures
        read_fields(leading_fields(t), 0, no_fields()) == task_fields(t),
        tail_ok(leading_fields(t)),
        leading_fields(t).len() > 0 ==> opens_field(leading_fields(t)),
{
    let df = date_fields(t.created, t.start, t.scheduled, t.due, t.done, t.cancelled);
    lemma_date_fields(t);
    let pri = match t.priority {
        Some(p) => seq![' ', priority_char(p)],
        None => Seq::empty(),
    };
    let rec = match t.recurrence {
        Some(r) => field_text(recurrence_char(), r),
        None => Seq::empty(),
    };
    let lf = leading_fields(t);
    assert(lf == pri + rec + df);
    let x = rec + df;
    assert(lf =~= pri + x);
    let fd = Fields { created: None, start: None, scheduled: None, due: None, done: None, cancelled: None, ..task_fields(t) };
    let fr = Fields { recurrence: None, ..fd };
    let fp = Fields { priority: None, ..fr };
    assert(fp == no_fields());
    // the recurrence part
    match t.recurrence {
        Some(r) => {
            assert(rec == seq![' ', recurrence_char(), ' '] + r);
            lemma_read_recurrence(r, df, fr);
            lemma_plain_tail_ok(r);
            assert forall|i: int| 0 <= i < rec.len() implies #[trigger] rec[i] != '^' && rec[i] != '\n' && rec[i] != '\r' by {
                if i >= 3 {
                    assert(rec[i] == r[i - 3]);
                }
            }
            assert(rec.last() == r.last());
            assert(x[0] == ' ');
            assert(x[1] == recurrence_char());
            assert(x[2] == ' ');
        },
        None => {
            assert(x =~= df);
        },
    }
    assert(read_fields(x, 0, fr) == task_fields(t));
    assert(tail_ok(rec));
    lemma_tail_ok_add(rec, df);
    assert(x.len() == 0 || opens_field(x));
    // the priority part
    match t.priority {
        Some(p) => {
            lemma_read_priority(p, x, fp);
            assert(lf[0] == ' ');
            assert(lf[1] == priority_char(p));
            assert(priority_of(priority_char(p)) == Some(p));
            if x.len() > 0 {
                assert(lf[2] == x[0]);
            }
            assert(field_starts_at(lf, 1));
        },
        None => {
            assert(lf =~= x);
        },
    }
    assert(tail_ok(pri));
    lemma_tail_ok_add(pri, x);
}


// ── the whole line ───────────────────────────────────────────────────────────

proof fn lemma_boundary_skips_plain(c: Seq<char>, n: int, p: int)
    requires
        0 <= p <= n <= c.len(),
        forall|i: int| 0 <= i < n ==> plain_char(#[trigger] c[i]),
    ensures
        fields_boundary(c, p) == fields_boundary(c, n),
    decreases n - p,
{
    if p < n {
        assert(plain_char(c[p]));
        assert(!field_starts_at(c, p));
        lemma_boundary_skips_plain(c, n, p + 1);
    }
}

proof fn lemma_field_starts_at_shift(c: Seq<char>, k: int, q: int)
    requires
        0 <= k <= q < c.len(),
    ensures
        field_starts_at(c, q) == field_starts_at(c.skip(k), q - k),
{
    let t = c.skip(k);
    assert(t[q - k] == c[q]);
    if q + 1 < c.len() {
        assert(t[q - k + 1] == c[q + 1]);
        assert(t.skip(q - k + 2) =~= c.skip(q + 2));
    }
}

proof fn lemma_first_non_ascii_ws_at(s: Seq<char>, p: int, n: int)
    requires
        0 <= p <= n < s.len(),
        forall|i: int| p <= i < n ==> #[trigger] s[i] == ' ',
        s[n] == '-',
    ensures
        first_non_ascii_ws(s, p) == n,
    decreases n - p,
{
    if p < n {
        lemma_first_non_ascii_ws_at(s, p + 1, n);
    }
}

proof fn lemma_strip_trailing_none(s: Seq<char>, c: char)
    requires
        s.len() > 0,
        s.last() != c,
    ensures
        strip_trailing(s, c) == s,
{
}

/// The fields a parsed line of `t` has: those of `t`, its hashtags, and
/// where it was read.
pub open spec fn read_back(t: TaskSpec, file: Seq<char>, lineno: nat) -> TaskSpec {
    TaskSpec {
        tags: tags_from(t.description, 0),
        on_completion: None,
        source_file: file,
        source_line: lineno,
        parent: None,
        ..t
    }
}

proof fn lemma_no_block_link(body: Seq<char>)
    requires
        tail_ok(body),
    ensures
        split_block_link(body) == (body, Option::<Seq<char>>::None),
{
    assert(trim_end(body) == body);
    let sp = last_index(body, ' ', body.len() as int);
    if sp >= 0 {
        crate::text::lemma_last_index_bounds(body, ' ', body.len() as int);
        let cand = body.skip(sp + 1);
        if cand.len() > 1 {
            assert(cand[0] == body[sp + 1]);
        }
        assert(!is_block_link(cand));
    }
}

/// In the text after the checkbox, a plain description ends where a
/// field section `lf` begins.
proof fn lemma_body(desc: Seq<char>, lf: Seq<char>)
    requires
        plain_trimmed(desc),
        lf.len() > 0 ==> opens_field(lf),
    ensures
        ({
            let body = desc + lf;
            let b = fields_boundary(body, 0);
            &&& trim_end(body.take(b)) == desc
            &&& read_fields(trim_start(body.skip(b)), 0, no_fields()) == read_fields(lf, 0, no_fields())
        }),
{
    let body = desc + lf;
    assert forall|i: int| 0 <= i < desc.len() implies plain_char(#[trigger] body[i]) by {
        assert(body[i] == desc[i]);
    }
    lemma_boundary_skips_plain(body, desc.len() as int, 0);
    lemma_trim_end_plain(desc);
    if lf.len() > 0 {
        let q = desc.len() as int;
        assert(body[q] == ' ');
        assert(!field_starts_at(body, q));
        assert(body.skip(q) =~= lf);
        lemma_field_starts_at_shift(body, q, q + 1);
        assert(field_starts_at(body, q + 1));
        assert(fields_boundary(body, q + 1) == q + 1);
        assert(fields_boundary(body, q) == q + 1);
        assert(body.take(q + 1) =~= desc + seq![' ']);
        assert(body.skip(q + 1) =~= lf.skip(1));
        assert(trim_start(lf.skip(1)) == lf.skip(1)) by {
            assert(lf.skip(1)[0] == lf[1]);
        }
        lemma_read_space(lf, 0, no_fields());
        lemma_read_fields_shift(lf, 1, 1, no_fields());
    } else {
        assert(body =~= desc);
        assert(body.take(desc.len() as int) =~= desc);
        assert(body.skip(desc.len() as int) =~= lf);
        assert(trim_start(lf) == lf);
    }
}

/// How a line of indent, checkbox, plain description and field section
/// `lf` parses.
proof fn lemma_parse_shape(n: nat, st: Status, desc: Seq<char>, lf: Seq<char>, file: Seq<char>, lineno: nat)
    requires
        plain_trimmed(desc),
        tail_ok(lf),
        lf.len() > 0 ==> opens_field(lf),
    ensures
        ({
            let f = read_fields(lf, 0, no_fields());
            parse_task(
                Seq::new(n, |i: int| ' ') + seq!['-', ' ', '[', status_char(st), ']', ' '] + desc + lf,
                file,
                lineno,
            ) == Some(
                TaskSpec {
                    description: desc,
                    status: st,
                    priority: f.priority,
                    tags: tags_from(desc, 0),
                    created: f.created,
                    start: f.start,
                    scheduled: f.scheduled,
                    due: f.due,
                    done: f.done,
                    cancelled: f.cancelled,
                    recurrence: f.recurrence,
                    id: f.id,
                    depends_on: f.depends_on,
                    on_completion: None,
                    block_link: None,
                    raw_trailing: f.raw_trailing,
                    source_file: file,
                    source_line: lineno,
                    indent_level: n,
                    parent: None,
                },
            )
        }),
{
    lemma_plain_tail_ok(desc);
    lemma_tail_ok_add(desc, lf);
    lemma_body(desc, lf);
    let ind = Seq::new(n, |i: int| ' ');
    let head = seq!['-', ' ', '[', status_char(st), ']', ' '];
    let body = desc + lf;
    lemma_no_block_link(body);
    let line = ind + head + desc + lf;
    assert(line =~= ind + head + body);
    if body.len() > 0 {
        assert(line.last() == body.last());
    } else {
        assert(line.last() == ' ');
    }
    lemma_strip_trailing_none(line, '\n');
    lemma_strip_trailing_none(line, '\r');
    assert forall|i: int| 0 <= i < n implies #[trigger] line[i] == ' ' by {
        assert(line[i] == ind[i]);
    }
    assert(line[n as int] == '-');
    lemma_first_non_ascii_ws_at(line, 0, n as int);
    let sl = line.skip(n as int);
    assert(sl =~= head + body);
    assert(sl.skip(6) =~= body);
    assert(status_of(status_char(st)) == st);
}

/// A task whose description and recurrence are plain text (see
/// [`round_trip_task`]) parses back from its own line: every field of the
/// task comes back, with the description's hashtags as its tags.
pub proof fn lemma_parse_serialized(t: TaskSpec, file: Seq<char>, lineno: nat)
    requires
        round_trip_task(t),
    ensures
        parse_task(task_line(t), file, lineno) == Some(read_back(t, file, lineno)),
{
    let lf = leading_fields(t);
    lemma_leading_fields(t);
    assert(trailing_fields(t) =~= Seq::<char>::empty());
    let line = Seq::new(t.indent_level, |i: int| ' ') + seq!['-', ' ', '[', status_char(t.status), ']', ' ']
        + t.description + lf;
    assert(task_line(t) =~= line);
    lemma_parse_shape(t.indent_level, t.status, t.description, lf, file, lineno);
    assert(t.depends_on =~= Seq::<Seq<char>>::empty());
    let f = read_fields(lf, 0, no_fields());
    assert(f == task_fields(t));
    assert(parse_task(line, file, lineno) == Some(read_back(t, file, lineno)));
}

/// Serializing a parsed line of such a task gives the task's line again.
pub proof fn lemma_serialize_idempotent(t: TaskSpec, file: Seq<char>, lineno: nat)
    requires
        round_trip_task(t),
    ensures
        parse_task(task_line(t), file, lineno) matches Some(p) && task_line(p) == task_line(t),
{
    lemma_parse_serialized(t, file, lineno);
    let p = read_back(t, file, lineno);
    assert(leading_fields(p) == leading_fields(t));
    assert(trailing_fields(p) == trailing_fields(t));
}


/// Each priority has its own emoji, and a task line ending in a
/// priority's emoji reads back with that priority.
pub proof fn lemma_priority_emoji_reads_back(p: Priority, desc: Seq<char>, file: Seq<char>, lineno: nat)
    requires
        plain_trimmed(desc),
    ensures
        forall|q: Priority| priority_char(q) == priority_char(p) ==> q == p,
        parse_task(seq!['-', ' ', '[', ' ', ']', ' '] + desc + seq![' ', priority_char(p)], file, lineno) matches Some(
            t,
        ) && t.priority == Some(p),
{
    let t = TaskSpec {
        description: desc,
        status: Status::Open,
        priority: Some(p),
        tags: Seq::empty(),
        created: None,
        start: None,
        scheduled: None,
        due: None,
        done: None,
        cancelled: None,
        recurrence: None,
        id: None,
        depends_on: Seq::empty(),
        on_completion: None,
        block_link: None,
        raw_trailing: None,
        source_file: file,
        source_line: lineno,
        indent_level: 0,
        parent: None,
    };
    assert(trailing_fields(t) =~= Seq::<char>::empty());
    assert(leading_fields(t) =~= seq![' ', priority_char(p)]);
    assert(Seq::new(0, |i: int| ' ') =~= Seq::<char>::empty());
    assert(task_line(t) =~= seq!['-', ' ', '[', ' ', ']', ' '] + desc + seq![' ', priority_char(p)]);
    lemma_parse_serialized(t, file, lineno);
}

} // verus!
