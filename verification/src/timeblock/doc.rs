//! One day's timeblock section in a daily note.
//!
//! [`Document::read`] takes the blocks under the configured heading out of
//! a note's text; [`Document::render`] puts the (sorted) blocks back,
//! keeping everything outside the section as it was.

use vstd::prelude::*;

use crate::markdown::{parse_atx, parse_atx_line, skip_step, LineSkipState};
use crate::text::{crlfs, lines, push_char, push_str, split_lines, to_chars, to_lowercase, trim, unicode_lower};
use crate::timeblock::{block_line, block_view, serialize_line, valid_time, BlockSpec, Time, Timeblock};

verus! {

// ── ordering blocks ──────────────────────────────────────────────────────────

/// `a` is not later than `b` (hours, then minutes).
pub open spec fn time_le(a: Time, b: Time) -> bool {
    a.hour < b.hour || (a.hour == b.hour && a.minute <= b.minute)
}

/// Where a stable insertion puts `b` into the sorted `s`: after every
/// block that starts no later than it.
pub open spec fn insert_pos(s: Seq<BlockSpec>, b: BlockSpec) -> nat
    decreases s.len(),
{
    if s.len() == 0 {
        0
    } else if time_le(s.last().start, b.start) {
        s.len()
    } else {
        insert_pos(s.drop_last(), b)
    }
}

/// `s` stably sorted by start time.
pub open spec fn sort_by_start(s: Seq<BlockSpec>) -> Seq<BlockSpec>
    decreases s.len(),
{
    if s.len() == 0 {
        Seq::empty()
    } else {
        let r = sort_by_start(s.drop_last());
        r.insert(insert_pos(r, s.last()) as int, s.last())
    }
}

pub proof fn lemma_insert_pos(s: Seq<BlockSpec>, b: BlockSpec)
    ensures
        insert_pos(s, b) <= s.len(),
    decreases s.len(),
{
    if s.len() > 0 && !time_le(s.last().start, b.start) {
        lemma_insert_pos(s.drop_last(), b);
    }
}

proof fn lemma_insert_pos_split(s: Seq<BlockSpec>, b: BlockSpec)
    ensures
        forall|q: int| insert_pos(s, b) <= q < s.len() ==> !time_le(#[trigger] s[q].start, b.start),
        insert_pos(s, b) > 0 ==> time_le(s[insert_pos(s, b) - 1].start, b.start),
    decreases s.len(),
{
    if s.len() > 0 && !time_le(s.last().start, b.start) {
        lemma_insert_pos_split(s.drop_last(), b);
        lemma_insert_pos(s.drop_last(), b);
        assert forall|q: int| insert_pos(s, b) <= q < s.len() implies !time_le(#[trigger] s[q].start, b.start) by {
            if q < s.len() - 1 {
                assert(s[q] == s.drop_last()[q]);
            }
        }
        if insert_pos(s, b) > 0 {
            assert(s[insert_pos(s, b) - 1] == s.drop_last()[insert_pos(s, b) - 1]);
        }
    }
}

/// Sorting by start time gives every block in ascending start order.
pub proof fn lemma_sort_by_start_sorted(s: Seq<BlockSpec>)
    ensures
        sort_by_start(s).len() == s.len(),
        forall|i: int, j: int|
            0 <= i < j < sort_by_start(s).len() ==> time_le(
                (#[trigger] sort_by_start(s)[i]).start,
                (#[trigger] sort_by_start(s)[j]).start,
            ),
    decreases s.len(),
{
    lemma_sort_len(s);
    if s.len() > 0 {
        let r = sort_by_start(s.drop_last());
        let b = s.last();
        lemma_sort_by_start_sorted(s.drop_last());
        lemma_insert_pos(r, b);
        lemma_insert_pos_split(r, b);
        let p = insert_pos(r, b) as int;
        let out = r.insert(p, b);
        assert(out == sort_by_start(s));
        assert forall|i: int, j: int| 0 <= i < j < out.len() implies time_le((#[trigger] out[i]).start, (#[trigger] out[j]).start) by {
            if j < p {
                assert(out[i] == r[i] && out[j] == r[j]);
            } else if j == p {
                assert(out[i] == r[i]);
                assert(time_le(r[p - 1].start, b.start));
                if i < p - 1 {
                    assert(time_le(r[i].start, r[p - 1].start));
                }
            } else if i < p {
                assert(out[i] == r[i] && out[j] == r[j - 1]);
            } else if i == p {
                assert(out[j] == r[j - 1]);
                assert(!time_le(r[j - 1].start, b.start));
            } else {
                assert(out[i] == r[i - 1] && out[j] == r[j - 1]);
            }
        }
    }
}

pub proof fn lemma_sort_len(s: Seq<BlockSpec>)
    ensures
        sort_by_start(s).len() == s.len(),
    decreases s.len(),
{
    if s.len() > 0 {
        lemma_sort_len(s.drop_last());
        lemma_insert_pos(sort_by_start(s.drop_last()), s.last());
    }
}

pub open spec fn blocks_view(v: Seq<Timeblock>) -> Seq<BlockSpec> {
    v.map_values(|b: Timeblock| block_view(b))
}

/// The blocks of `v` picked in the order `idx`.
pub open spec fn picked(v: Seq<BlockSpec>, idx: Seq<usize>) -> Seq<BlockSpec> {
    idx.map_values(|k: usize| v[k as int])
}

/// The order in which `blocks` appear once stably sorted by start time.
fn sort_order(blocks: &Vec<Timeblock>) -> (r: Vec<usize>)
    ensures
        r@.len() == blocks@.len(),
        forall|k: int| 0 <= k < r@.len() ==> #[trigger] r@[k] < blocks@.len(),
        picked(blocks_view(blocks@), r@) == sort_by_start(blocks_view(blocks@)),
{
    let ghost bv = blocks_view(blocks@);
    let mut idx: Vec<usize> = Vec::new();
    let mut i: usize = 0;
    proof {
        assert(bv.take(0) =~= Seq::<BlockSpec>::empty());
        assert(picked(bv, idx@) =~= Seq::<BlockSpec>::empty());
    }
    while i < blocks.len()
        invariant
            i <= blocks@.len() == bv.len(),
            bv == blocks_view(blocks@),
            idx@.len() == i,
            forall|k: int| 0 <= k < idx@.len() ==> #[trigger] idx@[k] < i,
            picked(bv, idx@) == sort_by_start(bv.take(i as int)),
        decreases blocks@.len() - i,
    {
        let ghost sorted = picked(bv, idx@);
        let b = &blocks[i];
        let mut p = idx.len();
        proof {
            assert(sorted.take(p as int) =~= sorted);
        }
        while p > 0 && !(blocks[idx[p - 1]].start.hour < b.start.hour || (blocks[idx[p - 1]].start.hour
            == b.start.hour && blocks[idx[p - 1]].start.minute <= b.start.minute))
            invariant
                p <= idx@.len() == i < blocks@.len() == bv.len(),
                bv == blocks_view(blocks@),
                forall|k: int| 0 <= k < idx@.len() ==> #[trigger] idx@[k] < i,
                sorted == picked(bv, idx@),
                *b == blocks@[i as int],
                insert_pos(sorted, bv[i as int]) == insert_pos(sorted.take(p as int), bv[i as int]),
            decreases p,
        {
            proof {
                assert(sorted.take(p as int).drop_last() =~= sorted.take(p - 1));
                assert(sorted[p - 1] == bv[idx@[p - 1] as int]);
            }
            p -= 1;
        }
        proof {
            if p > 0 {
                assert(sorted[p - 1] == bv[idx@[p - 1] as int]);
            }
            assert(insert_pos(sorted, bv[i as int]) == p);
            assert(bv.take(i + 1).drop_last() =~= bv.take(i as int));
        }
        idx.insert(p, i);
        proof {
            assert(picked(bv, idx@) =~= sorted.insert(p as int, bv[i as int]));
        }
        i += 1;
    }
    proof {
        assert(bv.take(i as int) =~= bv);
    }
    idx
}

// ── rendering ────────────────────────────────────────────────────────────────

/// The lines of `bs`, each `- <block>` and a line ending.
pub open spec fn blocks_text(bs: Seq<BlockSpec>) -> Seq<char>
    decreases bs.len(),
{
    if bs.len() == 0 {
        Seq::empty()
    } else {
        blocks_text(bs.drop_last()) + seq!['-', ' '] + block_line(bs.last()) + seq!['\n']
    }
}

/// Every block of `v` holds times of day.
pub open spec fn blocks_valid(v: Seq<BlockSpec>) -> bool {
    forall|k: int| 0 <= k < v.len() ==> valid_time(#[trigger] v[k].start) && valid_time(v[k].end)
}

fn blocks_text_exec(blocks: &Vec<Timeblock>, order: &Vec<usize>) -> (r: String)
    requires
        forall|k: int| 0 <= k < order@.len() ==> #[trigger] order@[k] < blocks@.len(),
        blocks_valid(blocks_view(blocks@)),
    ensures
        r@ == blocks_text(picked(blocks_view(blocks@), order@)),
{
    let ghost ps = picked(blocks_view(blocks@), order@);
    let mut s = String::new();
    let mut k: usize = 0;
    proof {
        assert(ps.take(0) =~= Seq::<BlockSpec>::empty());
    }
    while k < order.len()
        invariant
            k <= order@.len() == ps.len(),
            ps == picked(blocks_view(blocks@), order@),
            forall|j: int| 0 <= j < order@.len() ==> #[trigger] order@[j] < blocks@.len(),
            blocks_valid(blocks_view(blocks@)),
            s@ == blocks_text(ps.take(k as int)),
        decreases order@.len() - k,
    {
        let b = &blocks[order[k]];
        proof {
            assert(blocks_view(blocks@)[order@[k as int] as int] == block_view(*b));
            assert(valid_time(blocks_view(blocks@)[order@[k as int] as int].start));
        }
        push_str(&mut s, "- ");
        push_str(&mut s, serialize_line(b).as_str());
        push_char(&mut s, '\n');
        proof {
            reveal_strlit("- ");
            let t = ps.take(k + 1);
            assert(t.drop_last() =~= ps.take(k as int));
            assert(t.last() == block_view(*b));
            assert(s@ =~= blocks_text(t));
        }
        k += 1;
    }
    proof {
        assert(ps.take(k as int) =~= ps);
    }
    s
}

/// [`render_from`] for a note whose lines all end in `"\n"`.
/// The text `render` writes for the lines `ls[i..]` of a note whose
/// section is present: lines outside the section are kept; the heading
/// (the first heading whose trimmed, lower-cased text is `target`) is
/// followed by an empty line, the block lines and another empty line; the
/// old body is dropped up to the next heading of level `level` or higher.
pub open spec fn render_lf_from(
    ls: Seq<Seq<char>>,
    i: int,
    st: LineSkipState,
    in_sec: bool,
    found: bool,
    target: Seq<char>,
    level: u8,
    text: Seq<char>,
) -> Seq<char>
    decreases ls.len() - i,
{
    if i < 0 || i >= ls.len() {
        Seq::empty()
    } else {
        let line = ls[i];
        let (st2, skip) = skip_step(st, line);
        let dropping = in_sec && !found;
        if skip {
            if dropping {
                render_lf_from(ls, i + 1, st2, in_sec, found, target, level, text)
            } else {
                line + seq!['\n'] + render_lf_from(ls, i + 1, st2, in_sec, found, target, level, text)
            }
        } else {
            match parse_atx(line) {
                Some((lv, t)) => if !in_sec && unicode_lower(trim(t)) == target {
                    line + seq!['\n', '\n'] + text + seq!['\n'] + render_lf_from(
                        ls,
                        i + 1,
                        st2,
                        true,
                        found,
                        target,
                        level,
                        text,
                    )
                } else if dropping && lv <= level {
                    line + seq!['\n'] + render_lf_from(ls, i + 1, st2, in_sec, true, target, level, text)
                } else if dropping {
                    render_lf_from(ls, i + 1, st2, in_sec, found, target, level, text)
                } else {
                    line + seq!['\n'] + render_lf_from(ls, i + 1, st2, in_sec, found, target, level, text)
                },
                None => if dropping {
                    render_lf_from(ls, i + 1, st2, in_sec, found, target, level, text)
                } else {
                    line + seq!['\n'] + render_lf_from(ls, i + 1, st2, in_sec, found, target, level, text)
                },
            }
        }
    }
}

/// The line ending `render` writes after a kept line: the line's own,
/// `"\r\n"` when `crlf`, else `"\n"`.
pub open spec fn eol(crlf: bool) -> Seq<char> {
    if crlf {
        seq!['\r', '\n']
    } else {
        seq!['\n']
    }
}

/// The text `render` writes for the lines `ls[i..]` of a note whose
/// section is present, `cr` telling which lines ended in `"\r\n"`: lines
/// outside the section are kept with their own line endings; the heading
/// (the first heading whose trimmed, lower-cased text is `target`) is
/// followed by an empty line, the block lines and another empty line; the
/// old body is dropped up to the next heading of level `level` or higher.
pub open spec fn render_from(
    ls: Seq<Seq<char>>,
    cr: Seq<bool>,
    i: int,
    st: LineSkipState,
    in_sec: bool,
    found: bool,
    target: Seq<char>,
    level: u8,
    text: Seq<char>,
) -> Seq<char>
    decreases ls.len() - i,
{
    if i < 0 || i >= ls.len() {
        Seq::empty()
    } else {
        let line = ls[i];
        let (st2, skip) = skip_step(st, line);
        let dropping = in_sec && !found;
        if skip {
            if dropping {
                render_from(ls, cr, i + 1, st2, in_sec, found, target, level, text)
            } else {
                line + eol(cr[i]) + render_from(ls, cr, i + 1, st2, in_sec, found, target, level, text)
            }
        } else {
            match parse_atx(line) {
                Some((lv, t)) => if !in_sec && unicode_lower(trim(t)) == target {
                    line + eol(cr[i]) + seq!['\n'] + text + seq!['\n'] + render_from(
                        ls,
                        cr,
                        i + 1,
                        st2,
                        true,
                        found,
                        target,
                        level,
                        text,
                    )
                } else if dropping && lv <= level {
                    line + eol(cr[i]) + render_from(ls, cr, i + 1, st2, in_sec, true, target, level, text)
                } else if dropping {
                    render_from(ls, cr, i + 1, st2, in_sec, found, target, level, text)
                } else {
                    line + eol(cr[i]) + render_from(ls, cr, i + 1, st2, in_sec, found, target, level, text)
                },
                None => if dropping {
                    render_from(ls, cr, i + 1, st2, in_sec, found, target, level, text)
                } else {
                    line + eol(cr[i]) + render_from(ls, cr, i + 1, st2, in_sec, found, target, level, text)
                },
            }
        }
    }
}

/// `n` `#` characters.
pub open spec fn hashes(n: nat) -> Seq<char> {
    Seq::new(n, |i: int| '#')
}

/// What [`Document::render`] gives: the source with the section under
/// `heading` replaced by the blocks sorted by start time, or, when the
/// heading is absent, the source with a new `heading_level` heading and
/// the blocks appended after an empty line. A source that did not end in
/// a line ending (and is not empty) keeps not ending in one.
pub open spec fn render_result(
    source: Seq<char>,
    heading: Seq<char>,
    heading_level: u8,
    heading_present: bool,
    blocks: Seq<BlockSpec>,
) -> Seq<char> {
    let text = blocks_text(sort_by_start(blocks));
    if !heading_present {
        let o1 = if source.len() > 0 && source.last() != '\n' {
            source.push('\n')
        } else {
            source
        };
        let o2 = if o1.len() > 0 && !(o1.len() >= 2 && o1[o1.len() - 2] == '\n' && o1.last() == '\n') {
            o1.push('\n')
        } else {
            o1
        };
        let o3 = o2 + hashes(heading_level as nat) + seq![' '] + heading + seq!['\n', '\n'] + text;
        if o3.last() != '\n' {
            o3.push('\n')
        } else {
            o3
        }
    } else {
        let out = render_from(
            lines(source),
            crlfs(source),
            0,
            crate::markdown::initial_skip_state(),
            false,
            false,
            unicode_lower(trim(heading)),
            heading_level,
            text,
        );
        let trailing_nl = (source.len() > 0 && source.last() == '\n') || source.len() == 0;
        if !trailing_nl && out.len() > 0 && out.last() == '\n' {
            out.drop_last()
        } else {
            out
        }
    }
}

/// [`render_result`] for a note whose lines all end in `"\n"`.
pub open spec fn render_result_lf(
    source: Seq<char>,
    heading: Seq<char>,
    heading_level: u8,
    heading_present: bool,
    blocks: Seq<BlockSpec>,
) -> Seq<char> {
    let text = blocks_text(sort_by_start(blocks));
    if !heading_present {
        let o1 = if source.len() > 0 && source.last() != '\n' {
            source.push('\n')
        } else {
            source
        };
        let o2 = if o1.len() > 0 && !(o1.len() >= 2 && o1[o1.len() - 2] == '\n' && o1.last() == '\n') {
            o1.push('\n')
        } else {
            o1
        };
        let o3 = o2 + hashes(heading_level as nat) + seq![' '] + heading + seq!['\n', '\n'] + text;
        if o3.last() != '\n' {
            o3.push('\n')
        } else {
            o3
        }
    } else {
        let out = render_lf_from(
            lines(source),
            0,
            crate::markdown::initial_skip_state(),
            false,
            false,
            unicode_lower(trim(heading)),
            heading_level,
            text,
        );
        let trailing_nl = (source.len() > 0 && source.last() == '\n') || source.len() == 0;
        if !trailing_nl && out.len() > 0 && out.last() == '\n' {
            out.drop_last()
        } else {
            out
        }
    }
}

/// Where no line ends in `"\r\n"`, [`render_from`] is [`render_lf_from`].
proof fn lemma_render_lf(
    ls: Seq<Seq<char>>,
    cr: Seq<bool>,
    i: int,
    st: LineSkipState,
    in_sec: bool,
    found: bool,
    target: Seq<char>,
    level: u8,
    text: Seq<char>,
)
    requires
        0 <= i,
        cr.len() >= ls.len(),
        forall|k: int| 0 <= k < cr.len() ==> !#[trigger] cr[k],
    ensures
        render_from(ls, cr, i, st, in_sec, found, target, level, text) == render_lf_from(
            ls,
            i,
            st,
            in_sec,
            found,
            target,
            level,
            text,
        ),
    decreases ls.len() - i,
{
    if i < ls.len() {
        assert(!cr[i]);
        assert(eol(cr[i]) == seq!['\n']);
        let (st2, skip) = skip_step(st, ls[i]);
        lemma_render_lf(ls, cr, i + 1, st2, in_sec, found, target, level, text);
        lemma_render_lf(ls, cr, i + 1, st2, true, found, target, level, text);
        lemma_render_lf(ls, cr, i + 1, st2, in_sec, true, target, level, text);
        assert(ls[i] + seq!['\n'] + seq!['\n'] =~= ls[i] + seq!['\n', '\n']);
    }
}

/// Where `source` has no `"\r\n"`, [`render_result`] is
/// [`render_result_lf`].
pub proof fn lemma_render_result_lf(
    source: Seq<char>,
    heading: Seq<char>,
    heading_level: u8,
    heading_present: bool,
    blocks: Seq<BlockSpec>,
)
    requires
        crate::text::no_crlf(source),
    ensures
        render_result(source, heading, heading_level, heading_present, blocks) == render_result_lf(
            source,
            heading,
            heading_level,
            heading_present,
            blocks,
        ),
{
    crate::text::lemma_crlf_from(source, 0);
    lemma_render_lf(
        lines(source),
        crlfs(source),
        0,
        crate::markdown::initial_skip_state(),
        false,
        false,
        unicode_lower(trim(heading)),
        heading_level,
        blocks_text(sort_by_start(blocks)),
    );
}

/// The lower-cased, trimmed text of `s`.
fn heading_key(s: &str) -> (r: String)
    ensures
        r@ == unicode_lower(trim(s@)),
{
    let t = crate::text::trim_vec(&to_chars(s));
    let ts = crate::text::string_of_all(&t);
    to_lowercase(ts.as_str())
}

/// Append the line ending [`eol`] of `crlf`.
fn push_eol(out: &mut String, crlf: bool)
    ensures
        final(out)@ == old(out)@ + eol(crlf),
{
    if crlf {
        push_char(out, '\r');
    }
    push_char(out, '\n');
    proof {
        if crlf {
            assert(final(out)@ =~= old(out)@ + eol(crlf));
        } else {
            assert(final(out)@ =~= old(out)@ + eol(crlf));
        }
    }
}

fn render_present(source: &str, heading: &str, heading_level: u8, text: &String) -> (r: String)
    ensures
        ({
            let out = render_from(
                lines(source@),
                crlfs(source@),
                0,
                crate::markdown::initial_skip_state(),
                false,
                false,
                unicode_lower(trim(heading@)),
                heading_level,
                text@,
            );
            let trailing_nl = (source@.len() > 0 && source@.last() == '\n') || source@.len() == 0;
            r@ == if !trailing_nl && out.len() > 0 && out.last() == '\n' {
                out.drop_last()
            } else {
                out
            }
        }),
{
    let cs = to_chars(source);
    let ls = split_lines(&cs);
    let cr = crate::text::line_crlf_flags(&cs);
    let ghost lsv = lines(source@);
    let ghost crv = crlfs(source@);
    proof {
        crate::text::lemma_crlf_from(source@, 0);
    }
    let target = heading_key(heading);
    let mut state = LineSkipState::new();
    let mut in_sec = false;
    let mut found = false;
    let mut out = String::new();
    let ghost whole = render_from(lsv, crv, 0, state, false, false, target@, heading_level, text@);
    let mut i: usize = 0;
    while i < ls.len()
        invariant
            i <= ls@.len() == lsv.len(),
            cs@ == source@,
            lsv == lines(cs@),
            cr@ == crv,
            crv.len() == lsv.len(),
            forall|k: int| 0 <= k < ls@.len() ==> #[trigger] ls@[k]@ == lsv[k],
            whole == out@ + render_from(lsv, crv, i as int, state, in_sec, found, target@, heading_level, text@),
        decreases ls@.len() - i,
    {
        let ghost st0 = state;
        let skip = state.skip_line(&ls[i]);
        let line = crate::text::string_of_all(&ls[i]);
        let dropping = in_sec && !found;
        let ghost rest_before = render_from(lsv, crv, i as int, st0, in_sec, found, target@, heading_level, text@);
        if skip {
            if !dropping {
                push_str(&mut out, line.as_str());
                push_eol(&mut out, cr[i]);
            }
        } else {
            match parse_atx_line(&ls[i], i + 1) {
                Some(h) => {
                    let key = heading_key(h.text.as_str());
                    if !in_sec && crate::text::str_eq(key.as_str(), target.as_str()) {
                        in_sec = true;
                        push_str(&mut out, line.as_str());
                        push_eol(&mut out, cr[i]);
                        push_char(&mut out, '\n');
                        push_str(&mut out, text.as_str());
                        push_char(&mut out, '\n');
                    } else if dropping && h.level <= heading_level {
                        found = true;
                        push_str(&mut out, line.as_str());
                        push_eol(&mut out, cr[i]);
                    } else if !dropping {
                        push_str(&mut out, line.as_str());
                        push_eol(&mut out, cr[i]);
                    }
                },
                None => {
                    if !dropping {
                        push_str(&mut out, line.as_str());
                        push_eol(&mut out, cr[i]);
                    }
                },
            }
        }
        proof {
            assert(whole == out@ + render_from(lsv, crv, i + 1, state, in_sec, found, target@, heading_level, text@));
        }
        i += 1;
    }
    proof {
        assert(out@ + Seq::<char>::empty() =~= out@);
    }
    let trailing_nl = source.is_empty() || {
        let n = cs.len();
        n > 0 && cs[n - 1] == '\n'
    };
    let ov = to_chars(out.as_str());
    if !trailing_nl && ov.len() > 0 && ov[ov.len() - 1] == '\n' {
        let r = crate::text::string_of(&ov, 0, ov.len() - 1);
        proof {
            assert(r@ =~= out@.drop_last());
        }
        r
    } else {
        out
    }
}

fn append(o: &mut Vec<char>, s: &Vec<char>)
    ensures
        final(o)@ == old(o)@ + s@,
{
    let mut i: usize = 0;
    while i < s.len()
        invariant
            i <= s@.len(),
            o@ == old(o)@ + s@.take(i as int),
        decreases s@.len() - i,
    {
        o.push(s[i]);
        i += 1;
        proof {
            assert(o@ =~= old(o)@ + s@.take(i as int));
        }
    }
    proof {
        assert(s@.take(i as int) =~= s@);
    }
}

fn render_absent(source: &str, heading: &str, heading_level: u8, text: &String) -> (r: String)
    ensures
        ({
            let o1 = if source@.len() > 0 && source@.last() != '\n' {
                source@.push('\n')
            } else {
                source@
            };
            let o2 = if o1.len() > 0 && !(o1.len() >= 2 && o1[o1.len() - 2] == '\n' && o1.last() == '\n') {
                o1.push('\n')
            } else {
                o1
            };
            let o3 = o2 + hashes(heading_level as nat) + seq![' '] + heading@ + seq!['\n', '\n'] + text@;
            r@ == if o3.last() != '\n' {
                o3.push('\n')
            } else {
                o3
            }
        }),
{
    let mut o = to_chars(source);
    if o.len() > 0 && o[o.len() - 1] != '\n' {
        o.push('\n');
    }
    if o.len() > 0 && !(o.len() >= 2 && o[o.len() - 2] == '\n' && o[o.len() - 1] == '\n') {
        o.push('\n');
    }
    let ghost o2 = o@;
    let mut k: u8 = 0;
    while k < heading_level
        invariant
            k <= heading_level,
            o@ == o2 + hashes(k as nat),
        decreases heading_level - k,
    {
        o.push('#');
        k += 1;
        proof {
            assert(o@ =~= o2 + hashes(k as nat));
        }
    }
    o.push(' ');
    append(&mut o, &to_chars(heading));
    o.push('\n');
    o.push('\n');
    append(&mut o, &to_chars(text.as_str()));
    if o[o.len() - 1] != '\n' {
        o.push('\n');
    }
    let r = crate::text::string_of_all(&o);
    proof {
        assert(r@ =~= o@);
    }
    r
}

/// The timeblock section of one daily note, as read from its text.
#[derive(Debug)]
pub struct Document {
    pub blocks: Vec<Timeblock>,
    /// Heading text the document was read under (without `#` markers).
    pub heading: String,
    /// Path of the daily note.
    pub source_path: String,
    /// The note's text when it was read; rendering splices into it.
    pub source_content: String,
    /// `#` count of the heading; 2 when the heading is absent.
    pub heading_level: u8,
    /// The heading was found in the note.
    pub heading_present: bool,
}

impl Document {
    /// The note's new text (see [`render_result`]).
    pub fn render(&self) -> (r: String)
        requires
            blocks_valid(blocks_view(self.blocks@)),
        ensures
            r@ == render_result(
                self.source_content@,
                self.heading@,
                self.heading_level,
                self.heading_present,
                blocks_view(self.blocks@),
            ),
    {
        let order = sort_order(&self.blocks);
        let text = blocks_text_exec(&self.blocks, &order);
        if self.heading_present {
            render_present(self.source_content.as_str(), self.heading.as_str(), self.heading_level, &text)
        } else {
            render_absent(self.source_content.as_str(), self.heading.as_str(), self.heading_level, &text)
        }
    }
}

// ── reading ──────────────────────────────────────────────────────────────────

/// The lines of the section under the heading whose trimmed, lower-cased
/// text is `target`, scanning `ls[i..]`: whether the heading was seen, its
/// level, and the body lines up to the next heading of that level or
/// higher (deeper headings are part of the body). Structural lines
/// (frontmatter, code) are skipped.
pub open spec fn section_from(
    ls: Seq<Seq<char>>,
    i: int,
    st: LineSkipState,
    in_sec: bool,
    level: u8,
    body: Seq<Seq<char>>,
    target: Seq<char>,
) -> (bool, u8, Seq<Seq<char>>)
    decreases ls.len() - i,
{
    if i < 0 || i >= ls.len() {
        (in_sec, level, body)
    } else {
        let (st2, skip) = skip_step(st, ls[i]);
        if skip {
            section_from(ls, i + 1, st2, in_sec, level, body, target)
        } else {
            match parse_atx(ls[i]) {
                Some((lv, t)) => if !in_sec {
                    if unicode_lower(trim(t)) == target {
                        section_from(ls, i + 1, st2, true, lv, body, target)
                    } else {
                        section_from(ls, i + 1, st2, false, level, body, target)
                    }
                } else if lv <= level {
                    (in_sec, level, body)
                } else {
                    section_from(ls, i + 1, st2, in_sec, level, body.push(ls[i]), target)
                },
                None => section_from(
                    ls,
                    i + 1,
                    st2,
                    in_sec,
                    level,
                    if in_sec {
                        body.push(ls[i])
                    } else {
                        body
                    },
                    target,
                ),
            }
        }
    }
}

/// The section under `heading` in `content` (see [`section_from`]).
pub open spec fn section_of(content: Seq<char>, heading: Seq<char>) -> (bool, u8, Seq<Seq<char>>) {
    section_from(lines(content), 0, crate::markdown::initial_skip_state(), false, 0, Seq::empty(), unicode_lower(trim(heading)))
}

/// A body line's text after its list marker (`- `, `* ` or `+ `, after
/// leading whitespace), if it has one.
pub open spec fn after_marker(line: Seq<char>) -> Option<Seq<char>> {
    let t = crate::text::trim_start(line);
    if t.len() >= 2 && (t[0] == '-' || t[0] == '*' || t[0] == '+') && t[1] == ' ' {
        Some(t.skip(2))
    } else {
        None
    }
}

/// The blocks of the body lines: each list item that parses as a block.
pub open spec fn body_blocks(body: Seq<Seq<char>>) -> Seq<BlockSpec>
    decreases body.len(),
{
    if body.len() == 0 {
        Seq::empty()
    } else {
        let prev = body_blocks(body.drop_last());
        match after_marker(body.last()) {
            Some(a) => match crate::timeblock::parse_block(a) {
                Ok(b) => prev.push(b),
                Err(_) => prev,
            },
            None => prev,
        }
    }
}

/// `bs` numbered from 1 in order.
pub open spec fn numbered(bs: Seq<BlockSpec>) -> Seq<BlockSpec> {
    Seq::new(bs.len(), |k: int| BlockSpec { source_line: (k + 1) as nat, ..bs[k] })
}

/// Every block list a document holds after reading or editing is in
/// ascending start order and numbered 1, 2, … in that order.
pub proof fn lemma_document_blocks_ordered(s: Seq<BlockSpec>)
    ensures
        numbered(sort_by_start(s)).len() == s.len(),
        forall|i: int, j: int|
            0 <= i < j < s.len() ==> time_le(
                (#[trigger] numbered(sort_by_start(s))[i]).start,
                (#[trigger] numbered(sort_by_start(s))[j]).start,
            ),
        forall|k: int| 0 <= k < s.len() ==> (#[trigger] numbered(sort_by_start(s))[k]).source_line == k + 1,
{
    lemma_sort_by_start_sorted(s);
    let r = sort_by_start(s);
    assert forall|i: int, j: int| 0 <= i < j < s.len() implies time_le(
        (#[trigger] numbered(r)[i]).start,
        (#[trigger] numbered(r)[j]).start,
    ) by {
        assert(time_le(r[i].start, r[j].start));
    }
}

/// `(present, level, body)` of the section and `body`'s lines collected so
/// far, with the skip state and whether we are inside the section.
fn locate_section(content: &str, heading: &str) -> (r: (bool, u8, Vec<String>))
    ensures
        ({
            let (p, l, b) = section_of(content@, heading@);
            r.0 == p && r.1 == l && crate::task::strings_view(r.2@) == b
        }),
{
    let cs = to_chars(content);
    let ls = split_lines(&cs);
    let ghost lsv = lines(content@);
    let target = heading_key(heading);
    let mut state = LineSkipState::new();
    let mut in_sec = false;
    let mut level: u8 = 0;
    let mut body: Vec<String> = Vec::new();
    let mut i: usize = 0;
    let mut stop = false;
    let ghost whole = section_of(content@, heading@);
    proof {
        assert(crate::task::strings_view(body@) =~= Seq::<Seq<char>>::empty());
    }
    while i < ls.len() && !stop
        invariant
            i <= ls@.len() == lsv.len(),
            cs@ == content@,
            lsv == lines(cs@),
            forall|k: int| 0 <= k < ls@.len() ==> #[trigger] ls@[k]@ == lsv[k],
            !stop ==> whole == section_from(lsv, i as int, state, in_sec, level, crate::task::strings_view(body@), target@),
            stop ==> whole == (in_sec, level, crate::task::strings_view(body@)),
            whole == section_from(lsv, 0, crate::markdown::initial_skip_state(), false, 0, Seq::empty(), target@),
        decreases ls@.len() - i,
    {
        let skip = state.skip_line(&ls[i]);
        if !skip {
            match parse_atx_line(&ls[i], i + 1) {
                Some(h) => {
                    if !in_sec {
                        let key = heading_key(h.text.as_str());
                        if crate::text::str_eq(key.as_str(), target.as_str()) {
                            in_sec = true;
                            level = h.level;
                        }
                    } else if h.level <= level {
                        stop = true;
                    } else {
                        let ghost prev = body@;
                        body.push(crate::text::string_of_all(&ls[i]));
                        proof {
                            assert(crate::task::strings_view(body@) =~= crate::task::strings_view(prev).push(lsv[i as int]));
                        }
                    }
                },
                None => {
                    if in_sec {
                        let ghost prev = body@;
                        body.push(crate::text::string_of_all(&ls[i]));
                        proof {
                            assert(crate::task::strings_view(body@) =~= crate::task::strings_view(prev).push(lsv[i as int]));
                        }
                    }
                },
            }
        }
        i += 1;
    }
    (in_sec, level, body)
}

#[verifier::rlimit(40)]
fn after_marker_exec(line: &String) -> (r: Option<String>)
    ensures
        match (r, after_marker(line@)) {
            (Some(a), Some(b)) => a@ == b,
            (None, None) => true,
            _ => false,
        },
{
    let cs = to_chars(line.as_str());
    let st = crate::text::skip_ws(&cs, 0, cs.len());
    proof {
        assert(cs@.subrange(0, cs@.len() as int) =~= cs@);
    }
    let n = cs.len();
    if n - st >= 2 && (cs[st] == '-' || cs[st] == '*' || cs[st] == '+') && cs[st + 1] == ' ' {
        let r = crate::text::string_of(&cs, st + 2, n);
        proof {
            assert(r@ =~= cs@.subrange(st as int, n as int).skip(2));
        }
        Some(r)
    } else {
        None
    }
}

fn copy_tags(v: &Vec<crate::timeblock::Tag>) -> (r: Vec<crate::timeblock::Tag>)
    ensures
        crate::timeblock::tags_view(r@) == crate::timeblock::tags_view(v@),
{
    let mut out: Vec<crate::timeblock::Tag> = Vec::new();
    let mut i: usize = 0;
    while i < v.len()
        invariant
            i <= v@.len(),
            crate::timeblock::tags_view(out@) == crate::timeblock::tags_view(v@).take(i as int),
        decreases v@.len() - i,
    {
        let mut levels: Vec<String> = Vec::new();
        let mut j: usize = 0;
        while j < v[i].levels.len()
            invariant
                i < v@.len(),
                j <= v@[i as int].levels@.len(),
                crate::task::strings_view(levels@) == crate::task::strings_view(v@[i as int].levels@).take(j as int),
            decreases v@[i as int].levels@.len() - j,
        {
            let c = v[i].levels[j].clone();
            let ghost prev = levels@;
            levels.push(c);
            proof {
                assert(crate::task::strings_view(levels@) =~= crate::task::strings_view(prev).push(c@));
                assert(crate::task::strings_view(v@[i as int].levels@).take(j + 1) =~= crate::task::strings_view(
                    v@[i as int].levels@,
                ).take(j as int).push(c@));
            }
            j += 1;
        }
        proof {
            assert(crate::task::strings_view(v@[i as int].levels@).take(j as int) =~= crate::task::strings_view(
                v@[i as int].levels@,
            ));
        }
        let t = crate::timeblock::Tag { levels };
        let ghost prev = out@;
        out.push(t);
        proof {
            assert(crate::timeblock::tags_view(out@) =~= crate::timeblock::tags_view(prev).push(
                crate::timeblock::tag_view(t),
            ));
            assert(crate::timeblock::tags_view(v@).take(i + 1) =~= crate::timeblock::tags_view(v@).take(i as int).push(
                crate::timeblock::tag_view(v@[i as int]),
            ));
        }
        i += 1;
    }
    proof {
        assert(crate::timeblock::tags_view(v@).take(i as int) =~= crate::timeblock::tags_view(v@));
    }
    out
}

/// A copy of `b` at position `line`.
pub(crate) fn copy_block(b: &Timeblock, line: usize) -> (r: Timeblock)
    ensures
        block_view(r) == (BlockSpec { source_line: line as nat, ..block_view(*b) }),
{
    Timeblock {
        start: b.start,
        end: b.end,
        end_explicit: b.end_explicit,
        desc: b.desc.clone(),
        tags: copy_tags(&b.tags),
        source_line: line,
    }
}

/// `blocks` sorted by start time and numbered from 1.
pub fn reindexed(blocks: &Vec<Timeblock>) -> (r: Vec<Timeblock>)
    ensures
        blocks_view(r@) == numbered(sort_by_start(blocks_view(blocks@))),
{
    let order = sort_order(blocks);
    let ghost sorted = picked(blocks_view(blocks@), order@);
    let mut out: Vec<Timeblock> = Vec::new();
    let mut k: usize = 0;
    proof {
        lemma_sort_len(blocks_view(blocks@));
    }
    while k < order.len()
        invariant
            k <= order@.len() == sorted.len(),
            sorted == picked(blocks_view(blocks@), order@),
            forall|j: int| 0 <= j < order@.len() ==> #[trigger] order@[j] < blocks@.len(),
            blocks_view(out@) == numbered(sorted).take(k as int),
        decreases order@.len() - k,
    {
        let b = copy_block(&blocks[order[k]], k + 1);
        let ghost prev = out@;
        out.push(b);
        proof {
            assert(blocks_view(blocks@)[order@[k as int] as int] == block_view(blocks@[order@[k as int] as int]));
            assert(blocks_view(out@) =~= blocks_view(prev).push(block_view(b)));
            assert(numbered(sorted).take(k + 1) =~= numbered(sorted).take(k as int).push(numbered(sorted)[k as int]));
        }
        k += 1;
    }
    proof {
        assert(numbered(sorted).take(k as int) =~= numbered(sorted));
    }
    out
}

impl Document {
    /// The timeblock section under `heading` (matched case-insensitively
    /// on its trimmed text, at any level) of the note at `daily_path`
    /// whose text is `source_content` (empty for a missing note): the list
    /// items of the section that parse as blocks, sorted by start time and
    /// numbered from 1. Other lines of the section are dropped on render.
    pub fn read(daily_path: &str, source_content: String, heading: &str) -> (r: Document)
        ensures
            ({
                let (present, level, body) = section_of(source_content@, heading@);
                &&& blocks_view(r.blocks@) == numbered(sort_by_start(body_blocks(body)))
                &&& r.heading@ == heading@
                &&& r.source_path@ == daily_path@
                &&& r.source_content@ == source_content@
                &&& r.heading_present == present
                &&& r.heading_level == if present { level } else { 2 }
            }),
    {
        let (present, level, body) = locate_section(source_content.as_str(), heading);
        let ghost bodyv = crate::task::strings_view(body@);
        let mut cands: Vec<Timeblock> = Vec::new();
        let mut i: usize = 0;
        proof {
            assert(blocks_view(cands@) =~= body_blocks(bodyv.take(0)));
        }
        while i < body.len()
            invariant
                i <= body@.len() == bodyv.len(),
                bodyv == crate::task::strings_view(body@),
                blocks_view(cands@) == body_blocks(bodyv.take(i as int)),
            decreases body@.len() - i,
        {
            proof {
                assert(bodyv.take(i + 1).drop_last() =~= bodyv.take(i as int));
                assert(bodyv.take(i + 1).last() == body@[i as int]@);
            }
            match after_marker_exec(&body[i]) {
                Some(a) => match crate::timeblock::parse_line(a.as_str()) {
                    Ok(b) => {
                        let ghost prev = cands@;
                        cands.push(b);
                        proof {
                            assert(blocks_view(cands@) =~= blocks_view(prev).push(block_view(b)));
                        }
                    },
                    Err(_) => {},
                },
                None => {},
            }
            i += 1;
        }
        proof {
            assert(bodyv.take(i as int) =~= bodyv);
        }
        let blocks = reindexed(&cands);
        Document {
            blocks,
            heading: heading.to_string(),
            source_path: daily_path.to_string(),
            source_content,
            heading_level: if present {
                level
            } else {
                2
            },
            heading_present: present,
        }
    }
}


// ── what rendering keeps ─────────────────────────────────────────────────────

/// The lines `ls[i..e]`, each followed by `'\n'`.
pub open spec fn kept_lines(ls: Seq<Seq<char>>, i: int, e: int) -> Seq<char>
    decreases e - i,
{
    if i >= e || i < 0 || i >= ls.len() {
        Seq::empty()
    } else {
        ls[i] + seq!['\n'] + kept_lines(ls, i + 1, e)
    }
}

/// Index of the line that opens the section whose lower-cased, trimmed
/// heading text is `target`, scanning from line `i` in skip state `st`;
/// `ls.len()` when no line does.
pub open spec fn section_start(ls: Seq<Seq<char>>, i: int, st: LineSkipState, target: Seq<char>) -> int
    decreases ls.len() - i,
{
    if i < 0 || i >= ls.len() {
        ls.len() as int
    } else {
        let (st2, skip) = skip_step(st, ls[i]);
        if !skip && (parse_atx(ls[i]) matches Some((_, t)) && unicode_lower(trim(t)) == target) {
            i
        } else {
            section_start(ls, i + 1, st2, target)
        }
    }
}

proof fn lemma_section_start_bounds(ls: Seq<Seq<char>>, i: int, st: LineSkipState, target: Seq<char>)
    requires
        0 <= i,
    ensures
        i <= ls.len() ==> i <= section_start(ls, i, st, target) <= ls.len(),
    decreases ls.len() - i,
{
    if i < ls.len() {
        let (st2, _) = skip_step(st, ls[i]);
        lemma_section_start_bounds(ls, i + 1, st2, target);
    }
}

pub proof fn lemma_section_start_bounds_pub(ls: Seq<Seq<char>>, i: int, st: LineSkipState, target: Seq<char>)
    requires
        0 <= i,
    ensures
        i <= ls.len() ==> i <= section_start(ls, i, st, target) <= ls.len(),
{
    lemma_section_start_bounds(ls, i, st, target);
}

proof fn lemma_render_before(
    ls: Seq<Seq<char>>,
    i: int,
    st: LineSkipState,
    target: Seq<char>,
    level: u8,
    text: Seq<char>,
)
    requires
        0 <= i <= ls.len(),
    ensures
        ({
            let h = section_start(ls, i, st, target);
            let e = if h < ls.len() { h + 1 } else { h };
            let out = render_lf_from(ls, i, st, false, false, target, level, text);
            let kept = kept_lines(ls, i, e);
            &&& kept.len() <= out.len()
            &&& out.take(kept.len() as int) == kept
            &&& h < ls.len() ==> kept.len() < out.len()
        }),
    decreases ls.len() - i,
{
    lemma_section_start_bounds(ls, i, st, target);
    if i < ls.len() {
        let line = ls[i];
        let (st2, skip) = skip_step(st, line);
        let h = section_start(ls, i, st, target);
        let e = if h < ls.len() { h + 1 } else { h };
        let out = render_lf_from(ls, i, st, false, false, target, level, text);
        if !skip && (parse_atx(line) matches Some((_, t)) && unicode_lower(trim(t)) == target) {
            assert(h == i);
            assert(kept_lines(ls, i + 1, i + 1) =~= Seq::<char>::empty());
            assert(kept_lines(ls, i, e) =~= line + seq!['\n']);
            let (lv, t) = parse_atx(line)->Some_0;
            let rest = text + seq!['\n'] + render_lf_from(ls, i + 1, st2, true, false, target, level, text);
            assert(out =~= (line + seq!['\n']) + (seq!['\n'] + rest));
            assert(out.take(kept_lines(ls, i, e).len() as int) =~= line + seq!['\n']);
        } else {
            lemma_render_before(ls, i + 1, st2, target, level, text);
            assert(h == section_start(ls, i + 1, st2, target));
            lemma_section_start_bounds(ls, i + 1, st2, target);
            let rest = render_lf_from(ls, i + 1, st2, false, false, target, level, text);
            let krest = kept_lines(ls, i + 1, e);
            assert(out =~= line + seq!['\n'] + rest);
            assert(kept_lines(ls, i, e) =~= line + seq!['\n'] + krest);
            assert(out.take(kept_lines(ls, i, e).len() as int) =~= line + seq!['\n'] + rest.take(krest.len() as int));
        }
    }
}

/// Rendering keeps the note's text before the section: every line up to
/// and including the section's heading comes out unchanged, each ended by
/// `'\n'`, at the start of the new text (for a note whose lines end in
/// `'\n'`; a `"\r\n"` ending is kept as it is).
pub proof fn lemma_render_keeps_lines_before_section(
    source: Seq<char>,
    heading: Seq<char>,
    heading_level: u8,
    blocks: Seq<BlockSpec>,
)
    requires
        section_start(lines(source), 0, crate::markdown::initial_skip_state(), unicode_lower(trim(heading)))
            < lines(source).len(),
        crate::text::no_crlf(source),
    ensures
        ({
            let ls = lines(source);
            let h = section_start(ls, 0, crate::markdown::initial_skip_state(), unicode_lower(trim(heading)));
            let kept = kept_lines(ls, 0, h + 1);
            let out = render_result(source, heading, heading_level, true, blocks);
            kept.len() <= out.len() && out.take(kept.len() as int) == kept
        }),
{
    lemma_render_result_lf(source, heading, heading_level, true, blocks);
    let ls = lines(source);
    let target = unicode_lower(trim(heading));
    let text = blocks_text(sort_by_start(blocks));
    lemma_render_before(ls, 0, crate::markdown::initial_skip_state(), target, heading_level, text);
    let out = render_lf_from(ls, 0, crate::markdown::initial_skip_state(), false, false, target, heading_level, text);
    let h = section_start(ls, 0, crate::markdown::initial_skip_state(), target);
    let kept = kept_lines(ls, 0, h + 1);
    if out.len() > 0 {
        assert(out.drop_last().take(kept.len() as int) =~= out.take(kept.len() as int));
    }
}

/// When the section is missing, rendering keeps the whole note and adds
/// the section after it.
pub proof fn lemma_render_appends_when_missing(
    source: Seq<char>,
    heading: Seq<char>,
    heading_level: u8,
    blocks: Seq<BlockSpec>,
)
    ensures
        ({
            let out = render_result(source, heading, heading_level, false, blocks);
            source.len() < out.len() && out.take(source.len() as int) == source
        }),
{
    let text = blocks_text(sort_by_start(blocks));
    let o1 = if source.len() > 0 && source.last() != '\n' {
        source.push('\n')
    } else {
        source
    };
    let o2 = if o1.len() > 0 && !(o1.len() >= 2 && o1[o1.len() - 2] == '\n' && o1.last() == '\n') {
        o1.push('\n')
    } else {
        o1
    };
    let o3 = o2 + hashes(heading_level as nat) + seq![' '] + heading + seq!['\n', '\n'] + text;
    assert(o1.take(source.len() as int) =~= source);
    assert(o2.take(source.len() as int) =~= source);
    assert(o3.take(source.len() as int) =~= source);
    let out = render_result(source, heading, heading_level, false, blocks);
    assert(out.take(source.len() as int) =~= source);
}

} // verus!
