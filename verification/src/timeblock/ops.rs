//! Adding, editing and deleting timeblocks of a [`Document`].
//!
//! Each operation changes the document's blocks and keeps them sorted by
//! start time and numbered from 1; rendering and writing the note is the
//! caller's.

use vstd::prelude::*;

use crate::error::Error;
use crate::text::{
    contains, contains_exec, debug_quoted, debug_str, decimal, is_ws, lower, lower_vec, push_char, push_str, push_usize, to_chars, words,
};
use crate::timeblock::doc::{blocks_valid, blocks_view, numbered, reindexed, sort_by_start, time_le, Document};
use crate::timeblock::{
    block_view, hhmm_text, join_slash, parse_tags, tag_view, tags_in, tags_view, valid_time, BlockSpec, Tag, Time,
    Timeblock,
};

verus! {

/// Options of [`add_block`].
#[derive(Debug, Clone)]
pub struct AddOptions {
    /// Skip the duplicate check (same start, end and description).
    pub force: bool,
}

impl Default for AddOptions {
    fn default() -> (r: AddOptions)
        ensures
            !r.force,
    {
        AddOptions { force: false }
    }
}

/// How to pick one block of a document.
#[derive(Debug, Clone)]
pub enum Selector {
    /// 1-indexed position in the block list.
    Line(usize),
    /// Exact start time.
    Time(Time),
    /// Case-insensitive (ASCII) substring of the description.
    Fuzzy(String),
}

/// What a [`Selector`] picked.
#[derive(Debug, Clone, PartialEq, Eq)]
pub enum SelectorResult {
    /// Exactly one block, at this index.
    Found(usize),
    /// No block.
    NoMatch,
    /// Several blocks, at these indices.
    Ambiguous(Vec<usize>),
}

/// Block `b` is picked by selector `s`.
pub open spec fn picks(s: Selector, b: BlockSpec) -> bool {
    match s {
        Selector::Line(n) => b.source_line == n,
        Selector::Time(t) => b.start == t,
        Selector::Fuzzy(n) => contains(lower(b.desc), lower(n@)),
    }
}

/// The indices of the blocks of `bs[..k]` that `s` picks, in order.
pub open spec fn picked_indices(s: Selector, bs: Seq<BlockSpec>, k: int) -> Seq<usize>
    decreases k,
{
    if k <= 0 || k > bs.len() {
        Seq::empty()
    } else if picks(s, bs[k - 1]) {
        picked_indices(s, bs, k - 1).push((k - 1) as usize)
    } else {
        picked_indices(s, bs, k - 1)
    }
}

/// What resolving `s` against `bs` gives: the one match, none, or all of
/// them.
pub open spec fn resolution(s: Selector, bs: Seq<BlockSpec>) -> (Option<usize>, Seq<usize>) {
    let m = picked_indices(s, bs, bs.len() as int);
    if m.len() == 1 {
        (Some(m[0]), m)
    } else {
        (None, m)
    }
}

impl Selector {
    fn picks_exec(&self, b: &Timeblock) -> (r: bool)
        ensures
            r == picks(*self, block_view(*b)),
    {
        match self {
            Selector::Line(n) => b.source_line == *n,
            Selector::Time(t) => b.start == *t,
            Selector::Fuzzy(n) => contains_exec(&lower_vec(&to_chars(b.desc.as_str())), &lower_vec(&to_chars(n.as_str()))),
        }
    }

    /// The blocks this selector picks: `Found` for exactly one, `None`
    /// for none, `Ambiguous` with all their indices otherwise.
    pub fn resolve(&self, blocks: &Vec<Timeblock>) -> (r: SelectorResult)
        ensures
            ({
                let m = picked_indices(*self, blocks_view(blocks@), blocks@.len() as int);
                match r {
                    SelectorResult::Found(i) => m.len() == 1 && i == m[0],
                    SelectorResult::NoMatch => m.len() == 0,
                    SelectorResult::Ambiguous(v) => m.len() > 1 && v@ == m,
                }
            }),
    {
        let ghost bv = blocks_view(blocks@);
        let mut matches: Vec<usize> = Vec::new();
        let mut i: usize = 0;
        while i < blocks.len()
            invariant
                i <= blocks@.len() == bv.len(),
                bv == blocks_view(blocks@),
                matches@ == picked_indices(*self, bv, i as int),
            decreases blocks@.len() - i,
        {
            if self.picks_exec(&blocks[i]) {
                matches.push(i);
            }
            i += 1;
        }
        if matches.len() == 0 {
            SelectorResult::NoMatch
        } else if matches.len() == 1 {
            SelectorResult::Found(matches[0])
        } else {
            SelectorResult::Ambiguous(matches)
        }
    }
}

// ── changing one block ───────────────────────────────────────────────────────

/// A change of a start or end time.
#[derive(Debug, Clone, Copy, PartialEq, Eq)]
pub enum TimeChange {
    /// Set the time.
    Absolute(Time),
    /// Move by this many minutes, clamped to `00:00`..=`23:59`.
    ShiftMinutes(i32),
}

/// A partial update of a block; `None` and empty lists leave it alone.
#[derive(Debug, Clone)]
pub struct EditMutation {
    pub start: Option<TimeChange>,
    pub end: Option<TimeChange>,
    pub desc: Option<String>,
    pub add_tags: Vec<Tag>,
    pub remove_tags: Vec<Tag>,
}

impl Default for EditMutation {
    fn default() -> (r: EditMutation)
        ensures
            r.start is None && r.end is None && r.desc is None,
            r.add_tags@.len() == 0 && r.remove_tags@.len() == 0,
    {
        EditMutation { start: None, end: None, desc: None, add_tags: Vec::new(), remove_tags: Vec::new() }
    }
}

/// `t` changed by `c`.
pub open spec fn changed_time(t: Time, c: TimeChange) -> Time {
    match c {
        TimeChange::Absolute(x) => x,
        TimeChange::ShiftMinutes(m) => {
            let v: int = t.hour * 60 + t.minute + m;
            let n: int = if v < 0 {
                0
            } else if v > 1439 {
                1439int
            } else {
                v
            };
            Time { hour: (n / 60) as u32, minute: (n % 60) as u32 }
        },
    }
}

/// Changing `t` by `c` stays within `i32` arithmetic.
pub open spec fn change_fits(t: Time, c: Option<TimeChange>) -> bool {
    c matches Some(TimeChange::ShiftMinutes(m)) ==> i32::MIN <= t.hour * 60 + t.minute + m <= i32::MAX
}

fn change_time(t: Time, c: TimeChange) -> (r: Time)
    requires
        valid_time(t),
        change_fits(t, Some(c)),
    ensures
        r == changed_time(t, c),
{
    match c {
        TimeChange::Absolute(x) => x,
        TimeChange::ShiftMinutes(m) => {
            let cur: i32 = (t.hour as i32) * 60 + (t.minute as i32);
            let v = cur + m;
            let n: i32 = if v < 0 {
                0
            } else if v > 23 * 60 + 59 {
                23 * 60 + 59
            } else {
                v
            };
            Time { hour: (n / 60) as u32, minute: (n % 60) as u32 }
        },
    }
}

/// `d` with every `tok` that ends at whitespace or the end removed, along
/// with the space before it; scanning from `i` with `out` written so far.
pub open spec fn strip_from(d: Seq<char>, tok: Seq<char>, i: int, out: Seq<char>) -> Seq<char>
    decreases d.len() - i,
{
    if i < 0 || i >= d.len() {
        out
    } else if i + tok.len() <= d.len() && d.subrange(i, i + tok.len()) == tok && (i + tok.len() == d.len()
        || is_ws(d[i + tok.len()])) {
        let out2 = if out.len() > 0 && out.last() == ' ' {
            out.drop_last()
        } else {
            out
        };
        strip_from(d, tok, if tok.len() > 0 { i + tok.len() } else { i + 1 }, out2)
    } else {
        strip_from(d, tok, i + 1, out.push(d[i]))
    }
}

fn strip_token(desc: &Vec<char>, tok: &Vec<char>) -> (r: Vec<char>)
    ensures
        r@ == strip_from(desc@, tok@, 0, Seq::empty()),
{
    let n = desc.len();
    let mut out: Vec<char> = Vec::new();
    let mut i: usize = 0;
    while i < n
        invariant
            i <= n == desc@.len(),
            strip_from(desc@, tok@, 0, Seq::empty()) == strip_from(desc@, tok@, i as int, out@),
        decreases n - i,
    {
        let at = crate::text::occurs_at_exec(desc, tok, i);
        if at && (i + tok.len() == n || crate::text::is_whitespace(desc[i + tok.len()])) {
            if out.len() > 0 && out[out.len() - 1] == ' ' {
                out.pop();
            }
            if tok.len() > 0 {
                i = i + tok.len();
            } else {
                i = i + 1;
            }
        } else {
            out.push(desc[i]);
            i += 1;
        }
    }
    out
}

/// `@a/b/c` for the levels of a tag.
pub open spec fn tag_token(t: Seq<Seq<char>>) -> Seq<char> {
    seq!['@'] + join_slash(t)
}

/// `desc` with each of `tags` appended after a space unless it already
/// is one of its words.
pub open spec fn add_tokens(desc: Seq<char>, tags: Seq<Seq<Seq<char>>>) -> Seq<char>
    decreases tags.len(),
{
    if tags.len() == 0 {
        desc
    } else {
        let d = add_tokens(desc, tags.drop_last());
        let tok = tag_token(tags.last());
        if words(d).contains(tok) {
            d
        } else if d.len() > 0 {
            d + seq![' '] + tok
        } else {
            tok
        }
    }
}

/// `desc` with each of `tags` stripped in turn.
pub open spec fn strip_tokens(desc: Seq<char>, tags: Seq<Seq<Seq<char>>>) -> Seq<char>
    decreases tags.len(),
{
    if tags.len() == 0 {
        desc
    } else {
        strip_from(strip_tokens(desc, tags.drop_last()), tag_token(tags.last()), 0, Seq::empty())
    }
}

/// The first occurrence of each tag of `s[..k]`, in order.
pub open spec fn dedup_tags(s: Seq<Seq<Seq<char>>>, k: int) -> Seq<Seq<Seq<char>>>
    decreases k,
{
    if k <= 0 || k > s.len() {
        Seq::empty()
    } else {
        let d = dedup_tags(s, k - 1);
        if d.contains(s[k - 1]) {
            d
        } else {
            d.push(s[k - 1])
        }
    }
}

/// "end E must be after start S".
pub open spec fn order_message(start: Time, end: Time) -> Seq<char> {
    "end "@ + hhmm_text(end) + " must be after start "@ + hhmm_text(start)
}

/// What applying `m` to block `b` gives: the new times (the end made
/// explicit when it changes), refused when the end is not after the
/// start; then a new description with its tags; then the added tags
/// appended as `@` tokens (tags deduplicated); then the removed tags
/// stripped.
pub open spec fn mutated(b: BlockSpec, m: EditMutation) -> Result<BlockSpec, Seq<char>> {
    let b1 = match m.start {
        Some(c) => BlockSpec { start: changed_time(b.start, c), ..b },
        None => b,
    };
    let b2 = match m.end {
        Some(c) => BlockSpec { end: changed_time(b1.end, c), end_explicit: true, ..b1 },
        None => b1,
    };
    if time_le(b2.end, b2.start) {
        Err(order_message(b2.start, b2.end))
    } else {
        let b3 = match m.desc {
            Some(d) => BlockSpec { desc: d@, tags: tags_in(d@), ..b2 },
            None => b2,
        };
        let b4 = if m.add_tags@.len() > 0 {
            let d = add_tokens(b3.desc, tags_view(m.add_tags@));
            BlockSpec { desc: d, tags: dedup_tags(tags_in(d), tags_in(d).len() as int), ..b3 }
        } else {
            b3
        };
        let b5 = if m.remove_tags@.len() > 0 {
            let d = strip_tokens(b4.desc, tags_view(m.remove_tags@));
            BlockSpec { desc: d, tags: tags_in(d), ..b4 }
        } else {
            b4
        };
        Ok(b5)
    }
}

fn tags_eq(a: &Tag, b: &Tag) -> (r: bool)
    ensures
        r == (tag_view(*a) == tag_view(*b)),
{
    if a.levels.len() != b.levels.len() {
        return false;
    }
    let mut i: usize = 0;
    while i < a.levels.len()
        invariant
            i <= a.levels@.len() == b.levels@.len(),
            forall|j: int| 0 <= j < i ==> a.levels@[j]@ == b.levels@[j]@,
        decreases a.levels@.len() - i,
    {
        if !crate::text::str_eq(a.levels[i].as_str(), b.levels[i].as_str()) {
            proof {
                assert(tag_view(*a)[i as int] != tag_view(*b)[i as int]);
            }
            return false;
        }
        i += 1;
    }
    proof {
        assert(tag_view(*a) =~= tag_view(*b));
    }
    true
}

fn dedup_exec(v: Vec<Tag>) -> (r: Vec<Tag>)
    ensures
        tags_view(r@) == dedup_tags(tags_view(v@), v@.len() as int),
{
    let ghost sv = tags_view(v@);
    let mut out: Vec<Tag> = Vec::new();
    let mut v = v;
    let ghost orig = v@;
    let mut k: usize = 0;
    let n = v.len();
    while k < n
        invariant
            k <= n == orig.len(),
            sv == tags_view(orig),
            v@.len() == n - k,
            forall|j: int| 0 <= j < v@.len() ==> #[trigger] v@[j] == orig[k + j],
            tags_view(out@) == dedup_tags(sv, k as int),
        decreases n - k,
    {
        let t = v.remove(0);
        proof {
            assert(t == orig[k as int]);
            assert(tag_view(t) == sv[k as int]);
        }
        let mut seen = false;
        let mut j: usize = 0;
        while j < out.len()
            invariant
                j <= out@.len(),
                seen == exists|q: int| 0 <= q < j && tag_view(out@[q]) == tag_view(t),
            decreases out@.len() - j,
        {
            if tags_eq(&out[j], &t) {
                seen = true;
            }
            j += 1;
        }
        proof {
            let d = dedup_tags(sv, k as int);
            assert(d == tags_view(out@));
            if seen {
                let q = choose|q: int| 0 <= q < j && tag_view(out@[q]) == tag_view(t);
                assert(d[q] == tag_view(t));
                assert(d.contains(sv[k as int]));
            } else {
                assert forall|q: int| 0 <= q < d.len() implies d[q] != sv[k as int] by {
                    assert(d[q] == tag_view(out@[q]));
                }
                assert(!d.contains(sv[k as int]));
            }
        }
        if !seen {
            let ghost prev = out@;
            out.push(t);
            proof {
                assert(tags_view(out@) =~= tags_view(prev).push(tag_view(t)));
            }
        }
        proof {
            assert forall|j2: int| 0 <= j2 < v@.len() implies #[trigger] v@[j2] == orig[k + 1 + j2] by {}
        }
        k += 1;
    }
    out
}

/// Absolute times in `c` are times of day.
pub open spec fn change_valid(c: Option<TimeChange>) -> bool {
    c matches Some(TimeChange::Absolute(x)) ==> valid_time(x)
}

/// `m` can be applied to a block `b` of valid times.
pub open spec fn mutation_fits(b: BlockSpec, m: EditMutation) -> bool {
    &&& change_valid(m.start)
    &&& change_valid(m.end)
    &&& change_fits(b.start, m.start)
    &&& change_fits(b.end, m.end)
}

fn add_tokens_exec(desc: String, tags: &Vec<Tag>) -> (r: String)
    ensures
        r@ == add_tokens(desc@, tags_view(tags@)),
{
    let ghost tv = tags_view(tags@);
    let mut d = desc;
    let mut i: usize = 0;
    proof {
        assert(tv.take(0) =~= Seq::<Seq<Seq<char>>>::empty());
    }
    while i < tags.len()
        invariant
            i <= tags@.len() == tv.len(),
            tv == tags_view(tags@),
            d@ == add_tokens(desc@, tv.take(i as int)),
        decreases tags@.len() - i,
    {
        let tok = tags[i].to_string_form();
        let tc = to_chars(tok.as_str());
        proof {
            let t = tv.take(i + 1);
            assert(t.drop_last() =~= tv.take(i as int));
            assert(t.last() == tag_view(tags@[i as int]));
        }
        if !crate::task::ops::has_word(&d, &tc) {
            if !d.as_str().is_empty() {
                push_char(&mut d, ' ');
            }
            push_str(&mut d, tok.as_str());
        }
        i += 1;
    }
    proof {
        assert(tv.take(i as int) =~= tv);
    }
    d
}

fn strip_tokens_exec(desc: String, tags: &Vec<Tag>) -> (r: String)
    ensures
        r@ == strip_tokens(desc@, tags_view(tags@)),
{
    let ghost tv = tags_view(tags@);
    let mut d = desc;
    let mut i: usize = 0;
    proof {
        assert(tv.take(0) =~= Seq::<Seq<Seq<char>>>::empty());
    }
    while i < tags.len()
        invariant
            i <= tags@.len() == tv.len(),
            tv == tags_view(tags@),
            d@ == strip_tokens(desc@, tv.take(i as int)),
        decreases tags@.len() - i,
    {
        let tok = tags[i].to_string_form();
        let stripped = strip_token(&to_chars(d.as_str()), &to_chars(tok.as_str()));
        proof {
            let t = tv.take(i + 1);
            assert(t.drop_last() =~= tv.take(i as int));
            assert(t.last() == tag_view(tags@[i as int]));
        }
        d = crate::text::string_of_all(&stripped);
        i += 1;
    }
    proof {
        assert(tv.take(i as int) =~= tv);
    }
    d
}

fn order_error(start: Time, end: Time) -> (r: Error)
    requires
        valid_time(start),
        valid_time(end),
    ensures
        r matches Error::Timeblock(m) && m@ == order_message(start, end),
{
    let mut m = String::new();
    push_str(&mut m, "end ");
    push_str(&mut m, end.to_hhmm().as_str());
    push_str(&mut m, " must be after start ");
    push_str(&mut m, start.to_hhmm().as_str());
    Error::Timeblock(m)
}

/// Apply `m` to `b` (see [`mutated`]).
fn apply_mutation(b: &mut Timeblock, m: EditMutation) -> (r: Result<(), Error>)
    requires
        valid_time(old(b).start),
        valid_time(old(b).end),
        mutation_fits(block_view(*old(b)), m),
    ensures
        match mutated(block_view(*old(b)), m) {
            Ok(nb) => r is Ok && block_view(*final(b)) == nb,
            Err(msg) => r matches Err(Error::Timeblock(s)) && s@ == msg,
        },
        valid_time(final(b).start),
        valid_time(final(b).end),
{
    match m.start {
        Some(c) => {
            b.start = change_time(b.start, c);
        },
        None => {},
    }
    match m.end {
        Some(c) => {
            b.end = change_time(b.end, c);
            b.end_explicit = true;
        },
        None => {},
    }
    if b.end.hour < b.start.hour || (b.end.hour == b.start.hour && b.end.minute <= b.start.minute) {
        return Err(order_error(b.start, b.end));
    }
    match m.desc {
        Some(d) => {
            b.tags = parse_tags(d.as_str());
            b.desc = d;
        },
        None => {},
    }
    if m.add_tags.len() > 0 {
        let mut d = String::new();
        std::mem::swap(&mut d, &mut b.desc);
        b.desc = add_tokens_exec(d, &m.add_tags);
        let tags = parse_tags(b.desc.as_str());
        b.tags = dedup_exec(tags);
    }
    if m.remove_tags.len() > 0 {
        let mut d = String::new();
        std::mem::swap(&mut d, &mut b.desc);
        b.desc = strip_tokens_exec(d, &m.remove_tags);
        b.tags = parse_tags(b.desc.as_str());
    }
    Ok(())
}

// ── document operations ──────────────────────────────────────────────────────

/// `H:MM - H:MM desc` of a block.
pub open spec fn block_summary(b: BlockSpec) -> Seq<char> {
    hhmm_text(b.start) + " - "@ + hhmm_text(b.end) + " "@ + b.desc
}

/// The error for a duplicate of block `b`.
pub open spec fn duplicate_message(b: BlockSpec) -> Seq<char> {
    "duplicate block at line "@ + decimal(b.source_line) + ": "@ + block_summary(b) + " (use --force to insert anyway)"@
}

/// The index of the first block of `bs[i..]` with the start, end and
/// description of `n`.
pub open spec fn first_duplicate(bs: Seq<BlockSpec>, n: BlockSpec, i: int) -> Option<int>
    decreases bs.len() - i,
{
    if i < 0 || i >= bs.len() {
        None
    } else if bs[i].start == n.start && bs[i].end == n.end && bs[i].desc == n.desc {
        Some(i)
    } else {
        first_duplicate(bs, n, i + 1)
    }
}

/// How a selector reads in messages.
pub open spec fn selector_text(s: Selector) -> Seq<char> {
    match s {
        Selector::Line(n) => "Line("@ + decimal(n as nat) + ")"@,
        Selector::Time(t) => "Time("@ + hhmm_text(t) + ":00)"@,
        Selector::Fuzzy(f) => "Fuzzy("@ + debug_quoted(f@) + ")"@,
    }
}

/// One candidate line of an ambiguity message.
pub open spec fn candidate_line(b: BlockSpec) -> Seq<char> {
    "  "@ + decimal(b.source_line) + ": "@ + block_summary(b)
}

/// The candidate lines for `idx` (at most five), joined with line endings.
pub open spec fn candidate_lines(bs: Seq<BlockSpec>, idx: Seq<usize>, k: int) -> Seq<char>
    decreases k,
{
    if k <= 0 {
        Seq::empty()
    } else if k == 1 {
        candidate_line(bs[idx[0] as int])
    } else {
        candidate_lines(bs, idx, k - 1) + "\n"@ + candidate_line(bs[idx[k - 1] as int])
    }
}

/// The error for a selector that picks the blocks `idx` of `bs`, when
/// that is not exactly one.
pub open spec fn selector_message(s: Selector, bs: Seq<BlockSpec>, idx: Seq<usize>) -> Seq<char> {
    if idx.len() == 0 {
        "no block matched "@ + selector_text(s)
    } else {
        let shown = if idx.len() > 5 { 5int } else { idx.len() as int };
        let more = if idx.len() > 5 {
            "\n  ... and "@ + decimal((idx.len() - 5) as nat) + " more"@
        } else {
            Seq::empty()
        };
        "ambiguous selector \u{2014} "@ + decimal(idx.len()) + " blocks matched:\n"@ + candidate_lines(bs, idx, shown) + more
    }
}

impl Selector {
    fn text(&self) -> (r: String)
        requires
            *self matches Selector::Time(t) ==> valid_time(t),
        ensures
            r@ == selector_text(*self),
    {
        let mut m = String::new();
        match self {
            Selector::Line(n) => {
                push_str(&mut m, "Line(");
                push_usize(&mut m, *n);
                push_str(&mut m, ")");
            },
            Selector::Time(t) => {
                push_str(&mut m, "Time(");
                push_str(&mut m, t.to_hhmm().as_str());
                push_str(&mut m, ":00)");
            },
            Selector::Fuzzy(f) => {
                push_str(&mut m, "Fuzzy(");
                push_str(&mut m, debug_str(f.as_str()).as_str());
                push_str(&mut m, ")");
            },
        }
        m
    }
}

fn push_summary(m: &mut String, b: &Timeblock)
    requires
        valid_time(b.start),
        valid_time(b.end),
    ensures
        final(m)@ == old(m)@ + block_summary(block_view(*b)),
{
    push_str(m, b.start.to_hhmm().as_str());
    push_str(m, " - ");
    push_str(m, b.end.to_hhmm().as_str());
    push_str(m, " ");
    push_str(m, b.desc.as_str());
    proof {
        assert(final(m)@ =~= old(m)@ + block_summary(block_view(*b)));
    }
}

/// The index of the one block `selector` picks, or the error naming the
/// selector (none) or the first five candidates (several).
fn resolve_or_err(selector: &Selector, blocks: &Vec<Timeblock>) -> (r: Result<usize, Error>)
    requires
        blocks_valid(blocks_view(blocks@)),
        *selector matches Selector::Time(t) ==> valid_time(t),
    ensures
        ({
            let m = picked_indices(*selector, blocks_view(blocks@), blocks@.len() as int);
            match r {
                Ok(i) => m.len() == 1 && i == m[0] && i < blocks@.len(),
                Err(Error::Timeblock(msg)) => m.len() != 1 && msg@ == selector_message(*selector, blocks_view(blocks@), m),
                Err(_) => false,
            }
        }),
{
    let ghost bv = blocks_view(blocks@);
    let ghost mv = picked_indices(*selector, bv, blocks@.len() as int);
    proof {
        lemma_picked_bounds(*selector, bv, bv.len() as int);
    }
    match selector.resolve(blocks) {
        SelectorResult::Found(i) => Ok(i),
        SelectorResult::NoMatch => {
            let mut m = String::new();
            push_str(&mut m, "no block matched ");
            push_str(&mut m, selector.text().as_str());
            Err(Error::Timeblock(m))
        },
        SelectorResult::Ambiguous(c) => {
            let mut m = String::new();
            push_str(&mut m, "ambiguous selector \u{2014} ");
            push_usize(&mut m, c.len());
            push_str(&mut m, " blocks matched:\n");
            let ghost head = m@;
            let shown: usize = if c.len() > 5 {
                5
            } else {
                c.len()
            };
            let mut k: usize = 0;
            while k < shown
                invariant
                    k <= shown <= c@.len(),
                    c@ == mv,
                    bv == blocks_view(blocks@),
                    blocks_valid(bv),
                    forall|j: int| 0 <= j < mv.len() ==> #[trigger] mv[j] < bv.len(),
                    m@ == head + candidate_lines(bv, mv, k as int),
                decreases shown - k,
            {
                if k > 0 {
                    push_str(&mut m, "\n");
                }
                let b = &blocks[c[k]];
                proof {
                    assert(bv[c@[k as int] as int] == block_view(*b));
                    assert(valid_time(bv[c@[k as int] as int].start));
                }
                push_str(&mut m, "  ");
                push_usize(&mut m, b.source_line);
                push_str(&mut m, ": ");
                push_summary(&mut m, b);
                proof {
                    if k == 0 {
                        assert(m@ =~= head + candidate_lines(bv, mv, 1));
                    } else {
                        assert(m@ =~= head + candidate_lines(bv, mv, k + 1));
                    }
                }
                k += 1;
            }
            if c.len() > 5 {
                push_str(&mut m, "\n  ... and ");
                push_usize(&mut m, c.len() - 5);
                push_str(&mut m, " more");
            }
            proof {
                assert(m@ =~= selector_message(*selector, bv, mv));
            }
            Err(Error::Timeblock(m))
        },
    }
}

proof fn lemma_picked_bounds(s: Selector, bs: Seq<BlockSpec>, k: int)
    requires
        0 <= k <= bs.len(),
    ensures
        forall|j: int| 0 <= j < picked_indices(s, bs, k).len() ==> #[trigger] picked_indices(s, bs, k)[j] < k,
        picked_indices(s, bs, k).len() <= k,
    decreases k,
{
    if k > 0 {
        lemma_picked_bounds(s, bs, k - 1);
    }
}

/// Add block `new`, unless (without `opts.force`) a block with the same
/// start, end and description exists; the blocks stay sorted by start
/// time and numbered from 1.
pub fn add_block(doc: Document, new: Timeblock, opts: AddOptions) -> (r: Result<Document, Error>)
    requires
        blocks_valid(blocks_view(doc.blocks@)),
    ensures
        ({
            let bs = blocks_view(doc.blocks@);
            let dup = if opts.force { None } else { first_duplicate(bs, block_view(new), 0) };
            match dup {
                Some(i) => r matches Err(Error::Timeblock(m)) && m@ == duplicate_message(bs[i]),
                None => r matches Ok(d) && blocks_view(d.blocks@) == numbered(sort_by_start(bs.push(block_view(new))))
                    && d.heading == doc.heading && d.source_path == doc.source_path && d.source_content
                    == doc.source_content && d.heading_level == doc.heading_level && d.heading_present
                    == doc.heading_present,
            }
        }),
{
    let ghost bs = blocks_view(doc.blocks@);
    if !opts.force {
        let mut i: usize = 0;
        while i < doc.blocks.len()
            invariant
                i <= doc.blocks@.len() == bs.len(),
                bs == blocks_view(doc.blocks@),
                first_duplicate(bs, block_view(new), i as int) == first_duplicate(bs, block_view(new), 0),
                blocks_valid(bs),
                !opts.force,
            decreases doc.blocks@.len() - i,
        {
            let b = &doc.blocks[i];
            if b.start == new.start && b.end == new.end && crate::text::str_eq(b.desc.as_str(), new.desc.as_str()) {
                proof {
                    assert(bs[i as int] == block_view(*b));
                    assert(valid_time(bs[i as int].start));
                    assert(first_duplicate(bs, block_view(new), i as int) == Some(i as int));
                }
                let mut m = String::new();
                push_str(&mut m, "duplicate block at line ");
                push_usize(&mut m, b.source_line);
                push_str(&mut m, ": ");
                push_summary(&mut m, b);
                push_str(&mut m, " (use --force to insert anyway)");
                proof {
                    assert(m@ =~= duplicate_message(bs[i as int]));
                }
                return Err(Error::Timeblock(m));
            }
            i += 1;
        }
    }
    let mut doc = doc;
    let mut blocks = Vec::new();
    std::mem::swap(&mut blocks, &mut doc.blocks);
    blocks.push(new);
    proof {
        assert(blocks_view(blocks@) =~= bs.push(block_view(new)));
    }
    doc.blocks = reindexed(&blocks);
    Ok(doc)
}

/// The other fields of `d` are those of `doc`.
pub open spec fn same_note(d: Document, doc: Document) -> bool {
    &&& d.heading == doc.heading
    &&& d.source_path == doc.source_path
    &&& d.source_content == doc.source_content
    &&& d.heading_level == doc.heading_level
    &&& d.heading_present == doc.heading_present
}

/// Apply `mutation` to the one block `selector` picks; the blocks stay
/// sorted by start time and numbered from 1. Fails when the selector does
/// not pick exactly one block, or when the end would not be after the
/// start.
pub fn edit_block(doc: Document, selector: &Selector, mutation: EditMutation) -> (r: Result<Document, Error>)
    requires
        blocks_valid(blocks_view(doc.blocks@)),
        *selector matches Selector::Time(t) ==> valid_time(t),
        ({
            let bs = blocks_view(doc.blocks@);
            let m = picked_indices(*selector, bs, bs.len() as int);
            m.len() == 1 ==> mutation_fits(bs[m[0] as int], mutation)
        }),
    ensures
        ({
            let bs = blocks_view(doc.blocks@);
            let m = picked_indices(*selector, bs, bs.len() as int);
            if m.len() != 1 {
                r matches Err(Error::Timeblock(msg)) && msg@ == selector_message(*selector, bs, m)
            } else {
                match mutated(bs[m[0] as int], mutation) {
                    Err(msg) => r matches Err(Error::Timeblock(e)) && e@ == msg,
                    Ok(nb) => r matches Ok(d) && blocks_view(d.blocks@) == numbered(
                        sort_by_start(bs.update(m[0] as int, nb)),
                    ) && same_note(d, doc),
                }
            }
        }),
{
    let ghost bs = blocks_view(doc.blocks@);
    let idx = resolve_or_err(selector, &doc.blocks)?;
    let mut doc = doc;
    let mut blocks = Vec::new();
    std::mem::swap(&mut blocks, &mut doc.blocks);
    proof {
        assert(bs[idx as int] == block_view(blocks@[idx as int]));
        assert(valid_time(bs[idx as int].start));
        assert(mutation_fits(bs[idx as int], mutation));
    }
    let mut b = blocks.remove(idx);
    apply_mutation(&mut b, mutation)?;
    blocks.insert(idx, b);
    proof {
        assert(blocks_view(blocks@) =~= bs.update(idx as int, block_view(b)));
    }
    doc.blocks = reindexed(&blocks);
    Ok(doc)
}

/// Remove the one block `selector` picks; the rest stay sorted by start
/// time and numbered from 1.
pub fn delete_block(doc: Document, selector: &Selector) -> (r: Result<Document, Error>)
    requires
        blocks_valid(blocks_view(doc.blocks@)),
        *selector matches Selector::Time(t) ==> valid_time(t),
    ensures
        ({
            let bs = blocks_view(doc.blocks@);
            let m = picked_indices(*selector, bs, bs.len() as int);
            if m.len() != 1 {
                r matches Err(Error::Timeblock(msg)) && msg@ == selector_message(*selector, bs, m)
            } else {
                r matches Ok(d) && blocks_view(d.blocks@) == numbered(sort_by_start(bs.remove(m[0] as int)))
                    && same_note(d, doc)
            }
        }),
{
    let ghost bs = blocks_view(doc.blocks@);
    let idx = resolve_or_err(selector, &doc.blocks)?;
    let mut doc = doc;
    let mut blocks = Vec::new();
    std::mem::swap(&mut blocks, &mut doc.blocks);
    blocks.remove(idx);
    proof {
        assert(blocks_view(blocks@) =~= bs.remove(idx as int));
    }
    doc.blocks = reindexed(&blocks);
    Ok(doc)
}

} // verus!
