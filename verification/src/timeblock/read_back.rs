//! Reading a note back after its timeblock section was rendered.
//!
//! [`lemma_read_after_render`]: rendering blocks into the section of a
//! note and reading that section again gives the blocks back, in start
//! order, each as its canonical line reads.

use vstd::prelude::*;

use crate::markdown::{leading_fence, parse_atx, run_len, skip_step, starts_with_indent, LineSkipState};
use crate::text::{is_ws, lines, one_line, trim, trim_start, unicode_lower, unlines};
use crate::timeblock::doc::{
    after_marker, blocks_text, body_blocks, kept_lines, render_lf_from, render_result, section_from, section_of,
    section_start, sort_by_start, time_le,
};
use crate::timeblock::{block_line, block_of, minute_of_day, parse_block, valid_time, BlockSpec};

verus! {

/// The state of the skip machine after lines `ls[i..k]`, from `st` at `i`.
pub open spec fn state_from(ls: Seq<Seq<char>>, i: int, st: LineSkipState, k: int) -> LineSkipState
    decreases k - i,
{
    if i < 0 || i >= k || i >= ls.len() {
        st
    } else {
        state_from(ls, i + 1, skip_step(st, ls[i]).0, k)
    }
}

/// Index of the line that closes the section opened at a level-`level`
/// heading, scanning from `i` in state `st`: the first line that is not
/// skipped and is a heading of level `level` or higher; `ls.len()` when
/// none is.
pub open spec fn section_end_from(ls: Seq<Seq<char>>, i: int, st: LineSkipState, level: u8) -> int
    decreases ls.len() - i,
{
    if i < 0 || i >= ls.len() {
        ls.len() as int
    } else {
        let (st2, skip) = skip_step(st, ls[i]);
        if !skip && (parse_atx(ls[i]) matches Some((lv, _)) && lv <= level) {
            i
        } else {
            section_end_from(ls, i + 1, st2, level)
        }
    }
}

proof fn lemma_section_end_bounds(ls: Seq<Seq<char>>, i: int, st: LineSkipState, level: u8)
    requires
        0 <= i <= ls.len(),
    ensures
        i <= section_end_from(ls, i, st, level) <= ls.len(),
    decreases ls.len() - i,
{
    if i < ls.len() {
        lemma_section_end_bounds(ls, i + 1, skip_step(st, ls[i]).0, level);
    }
}

proof fn lemma_kept_is_unlines(ls: Seq<Seq<char>>, i: int, e: int)
    requires
        0 <= i <= e <= ls.len(),
    ensures
        kept_lines(ls, i, e) == unlines(ls.subrange(i, e)),
    decreases e - i,
{
    if i < e {
        lemma_kept_is_unlines(ls, i + 1, e);
        crate::text::lemma_unlines_append(seq![ls[i]], ls.subrange(i + 1, e));
        assert(seq![ls[i]] + ls.subrange(i + 1, e) =~= ls.subrange(i, e));
        let one = seq![ls[i]];
        assert(one.drop_last() =~= Seq::<Seq<char>>::empty());
        assert(unlines(one.drop_last()) =~= Seq::<char>::empty());
        assert(one.last() == ls[i]);
        assert(unlines(one) =~= ls[i] + seq!['\n']);
    } else {
        assert(ls.subrange(i, e) =~= Seq::<Seq<char>>::empty());
    }
}

/// Past the section, rendering copies every line.
proof fn lemma_render_after(
    ls: Seq<Seq<char>>,
    i: int,
    st: LineSkipState,
    target: Seq<char>,
    level: u8,
    text: Seq<char>,
)
    requires
        0 <= i <= ls.len(),
    ensures
        render_lf_from(ls, i, st, true, true, target, level, text) == kept_lines(ls, i, ls.len() as int),
    decreases ls.len() - i,
{
    if i < ls.len() {
        lemma_render_after(ls, i + 1, skip_step(st, ls[i]).0, target, level, text);
    }
}

/// Inside the section, rendering drops lines up to the one that closes it
/// and copies the rest.
proof fn lemma_render_dropping(
    ls: Seq<Seq<char>>,
    i: int,
    st: LineSkipState,
    target: Seq<char>,
    level: u8,
    text: Seq<char>,
)
    requires
        0 <= i <= ls.len(),
    ensures
        render_lf_from(ls, i, st, true, false, target, level, text) == kept_lines(
            ls,
            section_end_from(ls, i, st, level),
            ls.len() as int,
        ),
    decreases ls.len() - i,
{
    if i < ls.len() {
        let (st2, skip) = skip_step(st, ls[i]);
        if !skip && (parse_atx(ls[i]) matches Some((lv, _)) && lv <= level) {
            lemma_render_after(ls, i + 1, st2, target, level, text);
        } else {
            lemma_render_dropping(ls, i + 1, st2, target, level, text);
        }
    }
}

/// Rendering a note whose section opens at line `h` (the first matching
/// heading): the lines up to the heading, a blank line, the blocks, a
/// blank line, and the lines from the one that closes the section on.
pub proof fn lemma_render_split(
    ls: Seq<Seq<char>>,
    i: int,
    st: LineSkipState,
    target: Seq<char>,
    level: u8,
    text: Seq<char>,
)
    requires
        0 <= i <= ls.len(),
        section_start(ls, i, st, target) < ls.len(),
    ensures
        ({
            let h = section_start(ls, i, st, target);
            let b = section_end_from(ls, h + 1, state_from(ls, i, st, h + 1), level);
            render_lf_from(ls, i, st, false, false, target, level, text) == kept_lines(ls, i, h + 1) + seq!['\n']
                + text + seq!['\n'] + kept_lines(ls, b, ls.len() as int)
        }),
    decreases ls.len() - i,
{
    let h = section_start(ls, i, st, target);
    let line = ls[i];
    let (st2, skip) = skip_step(st, line);
    if !skip && (parse_atx(line) matches Some((_, t)) && unicode_lower(trim(t)) == target) {
        assert(h == i);
        assert(state_from(ls, i, st, h + 1) == state_from(ls, i + 1, st2, h + 1));
        assert(state_from(ls, i + 1, st2, h + 1) == st2);
        lemma_render_dropping(ls, i + 1, st2, target, level, text);
        assert(kept_lines(ls, i + 1, i + 1) =~= Seq::<char>::empty());
        let b = section_end_from(ls, i + 1, st2, level);
        let (lv, t) = parse_atx(line)->Some_0;
        assert(render_lf_from(ls, i, st, false, false, target, level, text) == line + seq!['\n', '\n'] + text + seq!['\n']
            + render_lf_from(ls, i + 1, st2, true, false, target, level, text));
        assert(kept_lines(ls, i, h + 1) =~= line + seq!['\n']);
        assert(line + seq!['\n', '\n'] + text + seq!['\n'] + kept_lines(ls, b, ls.len() as int) =~= kept_lines(ls, i, h + 1)
            + seq!['\n'] + text + seq!['\n'] + kept_lines(ls, b, ls.len() as int));
    } else {
        assert(h == section_start(ls, i + 1, st2, target));
        lemma_render_split(ls, i + 1, st2, target, level, text);
        crate::timeblock::doc::lemma_section_start_bounds_pub(ls, i + 1, st2, target);
        assert(state_from(ls, i, st, h + 1) == state_from(ls, i + 1, st2, h + 1));
        let b = section_end_from(ls, h + 1, state_from(ls, i, st, h + 1), level);
        let rest = render_lf_from(ls, i + 1, st2, false, false, target, level, text);
        assert(render_lf_from(ls, i, st, false, false, target, level, text) == line + seq!['\n'] + rest);
        assert(kept_lines(ls, i, h + 1) == line + seq!['\n'] + kept_lines(ls, i + 1, h + 1));
        assert(line + seq!['\n'] + (kept_lines(ls, i + 1, h + 1) + seq!['\n'] + text + seq!['\n'] + kept_lines(
            ls,
            b,
            ls.len() as int,
        )) =~= kept_lines(ls, i, h + 1) + seq!['\n'] + text + seq!['\n'] + kept_lines(ls, b, ls.len() as int));
    }
}


// ── the skip machine on the rendered lines ───────────────────────────────────

/// A reachable skip state: frontmatter only once a line was seen.
pub open spec fn sane(st: LineSkipState) -> bool {
    st.in_frontmatter ==> st.started
}

/// Past any frontmatter and outside fenced code.
pub open spec fn plain_state(st: LineSkipState) -> bool {
    st.started && !st.in_frontmatter && st.fence is None
}

proof fn lemma_skip_sane(st: LineSkipState, line: Seq<char>)
    requires
        sane(st),
    ensures
        sane(skip_step(st, line).0),
{
}

proof fn lemma_state_from_sane(ls: Seq<Seq<char>>, i: int, st: LineSkipState, k: int)
    requires
        sane(st),
    ensures
        sane(state_from(ls, i, st, k)),
    decreases k - i,
{
    if !(i < 0 || i >= k || i >= ls.len()) {
        lemma_skip_sane(st, ls[i]);
        lemma_state_from_sane(ls, i + 1, skip_step(st, ls[i]).0, k);
    }
}

/// After a line that is not skipped, the state is plain.
proof fn lemma_after_unskipped(st: LineSkipState, line: Seq<char>)
    requires
        sane(st),
        !skip_step(st, line).1,
    ensures
        plain_state(skip_step(st, line).0),
{
}

/// A blank line or a list item keeps a plain state, is not skipped, and
/// is no heading.
proof fn lemma_item_line(st: LineSkipState, x: Seq<char>)
    requires
        plain_state(st),
        x.len() == 0 || x[0] == '-',
    ensures
        skip_step(st, x) == (st, false),
        parse_atx(x) is None,
{
    assert(trim_start(x) == x) by {
        if x.len() > 0 {
            assert(!is_ws(x[0]));
        }
    }
    assert(leading_fence(x) is None);
    assert(!starts_with_indent(x, 4));
    assert(run_len(x, '#', 0) == 0);
    assert(LineSkipState { started: true, ..st } == st);
}

/// A line the source kept as the end of the section (not skipped there)
/// is not skipped after the rendered blocks either.
proof fn lemma_boundary_kept(t: LineSkipState, s: LineSkipState, line: Seq<char>)
    requires
        sane(t),
        t.started,
        !skip_step(t, line).1,
        plain_state(s),
    ensures
        !skip_step(s, line).1,
{
}

/// While outside the section, reading only advances; at the first heading
/// that matches it enters the section with that heading's level.
proof fn lemma_section_from_start(ls: Seq<Seq<char>>, i: int, st: LineSkipState, target: Seq<char>)
    requires
        0 <= i <= ls.len(),
    ensures
        ({
            let h = section_start(ls, i, st, target);
            if h < ls.len() {
                section_from(ls, i, st, false, 0, Seq::empty(), target) == section_from(
                    ls,
                    h + 1,
                    state_from(ls, i, st, h + 1),
                    true,
                    parse_atx(ls[h])->Some_0.0,
                    Seq::empty(),
                    target,
                )
            } else {
                section_from(ls, i, st, false, 0, Seq::empty(), target) == (false, 0u8, Seq::<Seq<char>>::empty())
            }
        }),
    decreases ls.len() - i,
{
    if i < ls.len() {
        let (st2, skip) = skip_step(st, ls[i]);
        let h = section_start(ls, i, st, target);
        crate::timeblock::doc::lemma_section_start_bounds_pub(ls, i + 1, st2, target);
        if !skip && (parse_atx(ls[i]) matches Some((_, t)) && unicode_lower(trim(t)) == target) {
            assert(h == i);
            assert(state_from(ls, i, st, h + 1) == state_from(ls, i + 1, st2, h + 1));
        } else {
            lemma_section_from_start(ls, i + 1, st2, target);
            assert(h == section_start(ls, i + 1, st2, target));
            if h < ls.len() {
                assert(state_from(ls, i, st, h + 1) == state_from(ls, i + 1, st2, h + 1));
            }
        }
    }
}

/// `section_start` and the state it reaches depend only on the lines up
/// to the heading.
proof fn lemma_section_start_prefix(
    ls: Seq<Seq<char>>,
    xs: Seq<Seq<char>>,
    i: int,
    st: LineSkipState,
    target: Seq<char>,
)
    requires
        0 <= i <= ls.len(),
        section_start(ls, i, st, target) < ls.len(),
        section_start(ls, i, st, target) < xs.len(),
        forall|k: int| i <= k <= section_start(ls, i, st, target) ==> xs[k] == ls[k],
    ensures
        section_start(xs, i, st, target) == section_start(ls, i, st, target),
        state_from(xs, i, st, section_start(ls, i, st, target) + 1) == state_from(
            ls,
            i,
            st,
            section_start(ls, i, st, target) + 1,
        ),
        state_from(xs, i, st, section_start(ls, i, st, target)) == state_from(
            ls,
            i,
            st,
            section_start(ls, i, st, target),
        ),
    decreases ls.len() - i,
{
    let h = section_start(ls, i, st, target);
    crate::timeblock::doc::lemma_section_start_bounds_pub(ls, i, st, target);
    assert(xs[i] == ls[i]);
    let (st2, skip) = skip_step(st, ls[i]);
    if !skip && (parse_atx(ls[i]) matches Some((_, t)) && unicode_lower(trim(t)) == target) {
        assert(h == i);
        assert(state_from(xs, i + 1, st2, i + 1) == st2);
        assert(state_from(ls, i + 1, st2, i + 1) == st2);
        assert(state_from(xs, i, st, i + 1) == state_from(xs, i + 1, st2, i + 1));
        assert(state_from(ls, i, st, i + 1) == state_from(ls, i + 1, st2, i + 1));
    } else {
        crate::timeblock::doc::lemma_section_start_bounds_pub(ls, i + 1, st2, target);
        lemma_section_start_prefix(ls, xs, i + 1, st2, target);
        assert(state_from(xs, i, st, h + 1) == state_from(xs, i + 1, st2, h + 1));
        assert(state_from(ls, i, st, h + 1) == state_from(ls, i + 1, st2, h + 1));
        assert(state_from(xs, i, st, h) == state_from(xs, i + 1, st2, h));
        assert(state_from(ls, i, st, h) == state_from(ls, i + 1, st2, h));
    }
}

/// The state after `k + 1` lines is one step past the state after `k`.
proof fn lemma_state_step(ls: Seq<Seq<char>>, i: int, st: LineSkipState, k: int)
    requires
        0 <= i <= k < ls.len(),
    ensures
        state_from(ls, i, st, k + 1) == skip_step(state_from(ls, i, st, k), ls[k]).0,
    decreases k - i,
{
    if i < k {
        lemma_state_step(ls, i + 1, skip_step(st, ls[i]).0, k);
    } else {
        let st2 = skip_step(st, ls[k]).0;
        assert(state_from(ls, k + 1, st2, k + 1) == st2);
        assert(state_from(ls, k, st, k + 1) == state_from(ls, k + 1, st2, k + 1));
        assert(state_from(ls, k, st, k) == st);
    }
}


// ── reading the section of the rendered lines ────────────────────────────────

/// Inside the section, blank lines and list items are collected.
proof fn lemma_walk_items(
    xs: Seq<Seq<char>>,
    j: int,
    e: int,
    s: LineSkipState,
    lv: u8,
    body: Seq<Seq<char>>,
    target: Seq<char>,
)
    requires
        0 <= j <= e <= xs.len(),
        plain_state(s),
        forall|k: int| j <= k < e ==> (#[trigger] xs[k]).len() == 0 || xs[k][0] == '-',
    ensures
        section_from(xs, j, s, true, lv, body, target) == section_from(xs, e, s, true, lv, body + xs.subrange(j, e), target),
    decreases e - j,
{
    if j < e {
        lemma_item_line(s, xs[j]);
        lemma_walk_items(xs, j + 1, e, s, lv, body.push(xs[j]), target);
        assert(body.push(xs[j]) + xs.subrange(j + 1, e) =~= body + xs.subrange(j, e));
    } else {
        assert(body + xs.subrange(j, e) =~= body);
    }
}

// ── the block lines ──────────────────────────────────────────────────────────

/// The list items the blocks are written as.
pub open spec fn item_lines(bs: Seq<BlockSpec>) -> Seq<Seq<char>> {
    bs.map_values(|b: BlockSpec| seq!['-', ' '] + block_line(b))
}

/// A block as its canonical line reads back: explicit end, tags from the
/// description.
pub open spec fn canonical(b: BlockSpec) -> BlockSpec {
    block_of(b.start, b.end, true, b.desc)
}

/// A block that reads back from its line and stays one line.
pub open spec fn writable(b: BlockSpec) -> bool {
    &&& valid_time(b.start)
    &&& valid_time(b.end)
    &&& minute_of_day(b.start) < minute_of_day(b.end)
    &&& trim(b.desc) == b.desc
    &&& forall|i: int| 0 <= i < b.desc.len() ==> b.desc[i] != '\n'
}

proof fn lemma_blocks_text_unlines(bs: Seq<BlockSpec>)
    ensures
        blocks_text(bs) == unlines(item_lines(bs)),
    decreases bs.len(),
{
    if bs.len() > 0 {
        lemma_blocks_text_unlines(bs.drop_last());
        assert(item_lines(bs).drop_last() =~= item_lines(bs.drop_last()));
        assert(item_lines(bs).last() == seq!['-', ' '] + block_line(bs.last()));
        assert(blocks_text(bs) =~= unlines(item_lines(bs)));
    } else {
        assert(item_lines(bs) =~= Seq::<Seq<char>>::empty());
    }
}

proof fn lemma_body_blocks_concat(p: Seq<Seq<char>>, q: Seq<Seq<char>>)
    ensures
        body_blocks(p + q) == body_blocks(p) + body_blocks(q),
    decreases q.len(),
{
    if q.len() == 0 {
        assert(p + q =~= p);
        assert(body_blocks(p) + body_blocks(q) =~= body_blocks(p));
    } else {
        lemma_body_blocks_concat(p, q.drop_last());
        assert((p + q).drop_last() =~= p + q.drop_last());
        assert((p + q).last() == q.last());
        assert(body_blocks(p + q) =~= body_blocks(p) + body_blocks(q));
    }
}

proof fn lemma_block_line_chars(b: BlockSpec)
    requires
        writable(b),
    ensures
        crate::text::one_line(seq!['-', ' '] + block_line(b)),
{
    let hs = crate::timeblock::hhmm_text(b.start);
    let he = crate::timeblock::hhmm_text(b.end);
    crate::timeblock::round_trip::lemma_hhmm_digits(b.start);
    crate::timeblock::round_trip::lemma_hhmm_digits(b.end);
    let x = seq!['-', ' '] + block_line(b);
    let tail = if b.desc.len() == 0 { Seq::<char>::empty() } else { seq![' '] + b.desc };
    assert(x =~= seq!['-', ' '] + hs + seq![' ', '-', ' '] + he + tail);
    assert forall|i: int| 0 <= i < x.len() implies x[i] != '\n' by {
        if i >= 2 + 5 + 3 + 5 + 1 {
            assert(x[i] == b.desc[i - 16]);
        }
    }
    if b.desc.len() > 0 {
        assert(x.last() == b.desc.last());
        lemma_trimmed_last(b.desc);
    } else {
        assert(x.last() == he[4]);
    }
}

proof fn lemma_body_blocks_items(bs: Seq<BlockSpec>)
    requires
        forall|k: int| 0 <= k < bs.len() ==> writable(#[trigger] bs[k]),
    ensures
        body_blocks(item_lines(bs)) == bs.map_values(|b: BlockSpec| canonical(b)),
    decreases bs.len(),
{
    if bs.len() > 0 {
        let init = bs.drop_last();
        assert forall|k: int| 0 <= k < init.len() implies writable(#[trigger] init[k]) by {
            assert(init[k] == bs[k]);
        }
        lemma_body_blocks_items(init);
        let b = bs.last();
        assert(writable(bs[bs.len() - 1]));
        let x = seq!['-', ' '] + block_line(b);
        assert(trim_start(x) == x) by {
            assert(!is_ws(x[0]));
        }
        assert(x.skip(2) =~= block_line(b));
        assert(after_marker(x) == Some(block_line(b)));
        crate::timeblock::round_trip::lemma_block_round_trip(b);
        assert(item_lines(bs).drop_last() =~= item_lines(init));
        assert(item_lines(bs).last() == x);
        assert(body_blocks(item_lines(bs)) =~= bs.map_values(|b: BlockSpec| canonical(b)));
    } else {
        assert(item_lines(bs) =~= Seq::<Seq<char>>::empty());
    }
}

/// Sorting blocks already in start order leaves them as they are.
proof fn lemma_sort_sorted_identity(s: Seq<BlockSpec>)
    requires
        forall|i: int, j: int| 0 <= i < j < s.len() ==> time_le((#[trigger] s[i]).start, (#[trigger] s[j]).start),
    ensures
        sort_by_start(s) == s,
    decreases s.len(),
{
    if s.len() > 0 {
        let init = s.drop_last();
        assert forall|i: int, j: int| 0 <= i < j < init.len() implies time_le((#[trigger] init[i]).start, (#[trigger] init[j]).start) by {
            assert(init[i] == s[i] && init[j] == s[j]);
        }
        lemma_sort_sorted_identity(init);
        if init.len() > 0 {
            assert(time_le(s[init.len() - 1].start, s[s.len() - 1].start));
        }
        assert(crate::timeblock::doc::insert_pos(init, s.last()) == init.len());
        assert(init.insert(init.len() as int, s.last()) =~= s);
    }
}


proof fn lemma_trim_end_last(s: Seq<char>)
    ensures
        crate::text::trim_end(s).len() > 0 ==> !is_ws(crate::text::trim_end(s).last()),
    decreases s.len(),
{
    if s.len() > 0 && is_ws(s.last()) {
        lemma_trim_end_last(s.drop_last());
    }
}

proof fn lemma_trimmed_last(d: Seq<char>)
    requires
        trim(d) == d,
        d.len() > 0,
    ensures
        !is_ws(d.last()),
{
    lemma_trim_end_last(trim_start(d));
}


// ── facts about the scans ────────────────────────────────────────────────────

proof fn lemma_section_from_level(
    ls: Seq<Seq<char>>,
    j: int,
    s: LineSkipState,
    lv: u8,
    body: Seq<Seq<char>>,
    target: Seq<char>,
)
    ensures
        section_from(ls, j, s, true, lv, body, target).0,
        section_from(ls, j, s, true, lv, body, target).1 == lv,
    decreases ls.len() - j,
{
    if 0 <= j < ls.len() {
        let (s2, skip) = skip_step(s, ls[j]);
        lemma_section_from_level(ls, j + 1, s2, lv, body, target);
        lemma_section_from_level(ls, j + 1, s2, lv, body.push(ls[j]), target);
    }
}

proof fn lemma_section_start_at(ls: Seq<Seq<char>>, i: int, st: LineSkipState, target: Seq<char>)
    requires
        0 <= i <= ls.len(),
        section_start(ls, i, st, target) < ls.len(),
    ensures
        ({
            let h = section_start(ls, i, st, target);
            let t = state_from(ls, i, st, h);
            &&& !skip_step(t, ls[h]).1
            &&& parse_atx(ls[h]) matches Some((_, x)) && unicode_lower(trim(x)) == target
        }),
    decreases ls.len() - i,
{
    let (st2, skip) = skip_step(st, ls[i]);
    if !skip && (parse_atx(ls[i]) matches Some((_, t)) && unicode_lower(trim(t)) == target) {
        assert(state_from(ls, i, st, i) == st);
    } else {
        let h = section_start(ls, i, st, target);
        crate::timeblock::doc::lemma_section_start_bounds_pub(ls, i + 1, st2, target);
        lemma_section_start_at(ls, i + 1, st2, target);
        assert(state_from(ls, i, st, h) == state_from(ls, i + 1, st2, h));
    }
}

proof fn lemma_section_end_at(ls: Seq<Seq<char>>, i: int, st: LineSkipState, level: u8)
    requires
        0 <= i <= ls.len(),
        section_end_from(ls, i, st, level) < ls.len(),
    ensures
        ({
            let b = section_end_from(ls, i, st, level);
            let t = state_from(ls, i, st, b);
            &&& !skip_step(t, ls[b]).1
            &&& parse_atx(ls[b]) matches Some((lv, _)) && lv <= level
        }),
    decreases ls.len() - i,
{
    let (st2, skip) = skip_step(st, ls[i]);
    if !skip && (parse_atx(ls[i]) matches Some((lv, _)) && lv <= level) {
        assert(state_from(ls, i, st, i) == st);
    } else {
        let b = section_end_from(ls, i, st, level);
        lemma_section_end_bounds(ls, i + 1, st2, level);
        lemma_section_end_at(ls, i + 1, st2, level);
        assert(state_from(ls, i, st, b) == state_from(ls, i + 1, st2, b));
    }
}

proof fn lemma_started_kept(ls: Seq<Seq<char>>, i: int, st: LineSkipState, k: int)
    requires
        st.started,
    ensures
        state_from(ls, i, st, k).started,
    decreases k - i,
{
    if !(i < 0 || i >= k || i >= ls.len()) {
        lemma_started_kept(ls, i + 1, skip_step(st, ls[i]).0, k);
    }
}

proof fn lemma_sort_writable(s: Seq<BlockSpec>)
    requires
        forall|k: int| 0 <= k < s.len() ==> writable(#[trigger] s[k]),
    ensures
        forall|k: int| 0 <= k < sort_by_start(s).len() ==> writable(#[trigger] sort_by_start(s)[k]),
    decreases s.len(),
{
    if s.len() > 0 {
        let init = s.drop_last();
        assert forall|k: int| 0 <= k < init.len() implies writable(#[trigger] init[k]) by {
            assert(init[k] == s[k]);
        }
        lemma_sort_writable(init);
        let r = sort_by_start(init);
        crate::timeblock::doc::lemma_insert_pos(r, s.last());
        let p = crate::timeblock::doc::insert_pos(r, s.last()) as int;
        assert(writable(s[s.len() - 1]));
        assert forall|k: int| 0 <= k < sort_by_start(s).len() implies writable(#[trigger] sort_by_start(s)[k]) by {
            let o = r.insert(p, s.last());
            if k < p {
                assert(o[k] == r[k]);
            } else if k > p {
                assert(o[k] == r[k - 1]);
            }
        }
    }
}


// ── the law ──────────────────────────────────────────────────────────────────

/// Writing blocks into a note's section and reading the section again
/// gives the blocks back: the section is found again, under a heading of
/// the same level, and its blocks are the written ones in start order,
/// each as its canonical line reads (explicit end, tags from the
/// description). This is stated for a note that has the section, whose
/// lines end in `'\n'` alone and do not end in a stray `'\r'`, and for blocks whose lines read back
/// (times of day, end after start, a trimmed one-line description).
#[verifier::rlimit(100)]
pub proof fn lemma_read_after_render(source: Seq<char>, heading: Seq<char>, blocks: Seq<BlockSpec>)
    requires
        section_of(source, heading).0,
        crate::text::no_crlf(source),
        forall|k: int| 0 <= k < lines(source).len() ==> one_line(#[trigger] lines(source)[k]),
        forall|k: int| 0 <= k < blocks.len() ==> writable(#[trigger] blocks[k]),
    ensures
        ({
            let level = section_of(source, heading).1;
            let out = render_result(source, heading, level, true, blocks);
            let (present, level2, body) = section_of(out, heading);
            &&& present
            &&& level2 == level
            &&& sort_by_start(body_blocks(body)) == sort_by_start(blocks).map_values(|b: BlockSpec| canonical(b))
        }),
{
    crate::timeblock::doc::lemma_render_result_lf(source, heading, section_of(source, heading).1, true, blocks);
    let ls = lines(source);
    let target = unicode_lower(trim(heading));
    let init = crate::markdown::initial_skip_state();
    lemma_section_from_start(ls, 0, init, target);
    let h = section_start(ls, 0, init, target);
    crate::timeblock::doc::lemma_section_start_bounds_pub(ls, 0, init, target);
    assert(h < ls.len());
    let lv = parse_atx(ls[h])->Some_0.0;
    let sh1 = state_from(ls, 0, init, h + 1);
    lemma_section_from_level(ls, h + 1, sh1, lv, Seq::empty(), target);
    let level = section_of(source, heading).1;
    assert(level == lv);

    // the state after the heading line is plain
    lemma_section_start_at(ls, 0, init, target);
    lemma_state_from_sane(ls, 0, init, h);
    lemma_state_step(ls, 0, init, h);
    lemma_after_unskipped(state_from(ls, 0, init, h), ls[h]);
    assert(plain_state(sh1));

    // what rendering writes
    let sorted = sort_by_start(blocks);
    let text = blocks_text(sorted);
    lemma_render_split(ls, 0, init, target, level, text);
    let b = section_end_from(ls, h + 1, sh1, level);
    lemma_section_end_bounds(ls, h + 1, sh1, level);
    let out0 = render_lf_from(ls, 0, init, false, false, target, level, text);
    lemma_kept_is_unlines(ls, 0, h + 1);
    lemma_kept_is_unlines(ls, b, ls.len() as int);
    lemma_blocks_text_unlines(sorted);
    let items = item_lines(sorted);
    let blank = seq![Seq::<char>::empty()];
    let pre = ls.subrange(0, h + 1);
    let post = ls.subrange(b, ls.len() as int);
    let mid = blank + items + blank;
    let xs = pre + mid + post;
    assert(unlines(blank) =~= seq!['\n']) by {
        assert(blank.drop_last() =~= Seq::<Seq<char>>::empty());
        assert(unlines(blank.drop_last()) =~= Seq::<char>::empty());
    }
    crate::text::lemma_unlines_append(pre, mid);
    crate::text::lemma_unlines_append(pre + mid, post);
    crate::text::lemma_unlines_append(blank, items);
    crate::text::lemma_unlines_append(blank + items, blank);
    assert(unlines(xs) =~= out0);

    // every written line is one line
    lemma_sort_writable(blocks);
    crate::timeblock::doc::lemma_sort_len(blocks);
    assert forall|k: int| 0 <= k < xs.len() implies one_line(#[trigger] xs[k]) by {
        if k <= h {
            assert(xs[k] == ls[k]);
        } else if k == h + 1 || k == h + 2 + items.len() {
            assert(xs[k] == Seq::<char>::empty());
        } else if k < h + 2 + items.len() {
            assert(xs[k] == items[k - h - 2]);
            assert(writable(sorted[k - h - 2]));
            lemma_block_line_chars(sorted[k - h - 2]);
        } else {
            assert(xs[k] == ls[b + (k - (h + 3 + items.len()))]);
        }
    }

    // the rendered text and its lines
    let out = render_result(source, heading, level, true, blocks);
    let trailing = (source.len() > 0 && source.last() == '\n') || source.len() == 0;
    let dropped = !trailing && out0.len() > 0 && out0.last() == '\n';
    let ys = if dropped && b == ls.len() { xs.drop_last() } else { xs };
    let e = if dropped && b == ls.len() { h + 2 + items.len() } else { h + 3 + items.len() };
    assert(lines(out) == ys) by {
        if dropped {
            assert(out == out0.drop_last());
            crate::text::lemma_lines_unlines_drop(xs);
            if b < ls.len() {
                // the source's last line is not empty when it does not end in '\n'
                crate::text::lemma_find_from_bounds(source, '\n', 0);
                lemma_last_line_nonempty(source);
                assert(xs.last() == ls[ls.len() - 1]);
            } else {
                assert(xs.last() == Seq::<char>::empty());
            }
        } else {
            assert(out == out0);
            crate::text::lemma_lines_unlines(xs);
        }
    }

    // reading the section again
    assert forall|k: int| 0 <= k <= h implies ys[k] == ls[k] by {
        assert(xs[k] == ls[k]);
    }
    lemma_section_start_prefix(ls, ys, 0, init, target);
    lemma_section_from_start(ys, 0, init, target);
    assert(parse_atx(ys[h])->Some_0.0 == lv);
    assert forall|k: int| h + 1 <= k < e implies (#[trigger] ys[k]).len() == 0 || ys[k][0] == '-' by {
        assert(ys[k] == xs[k]);
        if k > h + 1 && k < h + 2 + items.len() {
            assert(xs[k] == items[k - h - 2]);
        }
    }
    lemma_walk_items(ys, h + 1, e, sh1, lv, Seq::empty(), target);
    let body = ys.subrange(h + 1, e);
    if e < ys.len() {
        assert(b < ls.len());
        assert(ys[e] == ls[b]);
        lemma_section_end_at(ls, h + 1, sh1, level);
        let t = state_from(ls, h + 1, sh1, b);
        lemma_state_from_sane(ls, h + 1, sh1, b);
        lemma_started_kept(ls, h + 1, sh1, b);
        lemma_boundary_kept(t, sh1, ls[b]);
        assert(section_from(ys, e, sh1, true, lv, body, target) == (true, lv, body));
    } else {
        assert(section_from(ys, e, sh1, true, lv, body, target) == (true, lv, body));
    }
    assert(Seq::<Seq<char>>::empty() + ys.subrange(h + 1, e) =~= body);

    // the blocks of the body
    if e == h + 3 + items.len() {
        assert(body =~= blank + items + blank);
    } else {
        assert(body =~= blank + items);
    }
    lemma_rendered_body_blocks(sorted, body, e == h + 3 + items.len());
    let back = sorted.map_values(|x: BlockSpec| canonical(x));
    assert(body_blocks(body) =~= back);
    crate::timeblock::doc::lemma_sort_by_start_sorted(blocks);
    assert forall|i: int, j: int| 0 <= i < j < back.len() implies time_le((#[trigger] back[i]).start, (#[trigger] back[j]).start) by {
        assert(back[i].start == sorted[i].start);
        assert(back[j].start == sorted[j].start);
    }
    lemma_sort_sorted_identity(back);
}

/// The blocks of a rendered section body: a blank line, the item lines and,
/// where the section is followed by more text, another blank line.
proof fn lemma_rendered_body_blocks(sorted: Seq<BlockSpec>, body: Seq<Seq<char>>, tail: bool)
    requires
        forall|k: int| 0 <= k < sorted.len() ==> writable(#[trigger] sorted[k]),
        body == (if tail {
            seq![Seq::<char>::empty()] + item_lines(sorted) + seq![Seq::<char>::empty()]
        } else {
            seq![Seq::<char>::empty()] + item_lines(sorted)
        }),
    ensures
        body_blocks(body) == sorted.map_values(|b: BlockSpec| canonical(b)),
{
    let blank = seq![Seq::<char>::empty()];
    let items = item_lines(sorted);
    lemma_body_blocks_items(sorted);
    assert(crate::text::trim_start(Seq::<char>::empty()) == Seq::<char>::empty());
    assert(after_marker(Seq::<char>::empty()).is_none());
    assert(body_blocks(blank) =~= Seq::<BlockSpec>::empty()) by {
        assert(blank.drop_last() =~= Seq::<Seq<char>>::empty());
        assert(blank.last() == Seq::<char>::empty());
        assert(body_blocks(blank.drop_last()) =~= Seq::<BlockSpec>::empty());
    }
    lemma_body_blocks_concat(blank, items);
    lemma_body_blocks_concat(blank + items, blank);
    assert(body_blocks(blank + items) =~= body_blocks(items));
    if tail {
        assert(body_blocks(blank + items + blank) =~= body_blocks(items));
    }
}

/// A text that does not end in `'\n'` has a non-empty last line.
proof fn lemma_last_line_nonempty(s: Seq<char>)
    requires
        s.len() > 0,
        s.last() != '\n',
    ensures
        lines(s).len() > 0,
        lines(s).last().len() > 0,
{
    lemma_last_line_from(s, 0);
}

proof fn lemma_last_line_from(s: Seq<char>, p: int)
    requires
        0 <= p < s.len(),
        s.last() != '\n',
    ensures
        crate::text::lines_from(s, p).len() > 0,
        crate::text::lines_from(s, p).last().len() > 0,
    decreases s.len() - p,
{
    let q = crate::text::find_from(s, '\n', p);
    crate::text::lemma_find_from_bounds(s, '\n', p);
    let rest = crate::text::lines_from(s, q + 1);
    assert(crate::text::lines_from(s, p) == seq![crate::text::line_body(s, p, q)] + rest);
    if q + 1 < s.len() {
        lemma_last_line_from(s, q + 1);
        assert(crate::text::lines_from(s, p).last() == rest.last());
    } else {
        assert(q != s.len() - 1);
        assert(q == s.len());
        assert(rest.len() == 0);
        assert(crate::text::line_body(s, p, q) =~= s.subrange(p, q));
    }
}

} // verus!
