//! Writing a block or a tag and reading it back.
//!
//! [`lemma_block_round_trip`]: a block with an explicit end after its
//! start and a trimmed description reads back from its canonical line,
//! so serializing again gives the same line. [`lemma_tag_round_trip`]: a
//! tag of one to three non-empty levels of tag characters reads back from
//! its `@a/b/c` form.

use vstd::prelude::*;

use crate::date::zero_pad;
use crate::text::{decimal, find_from, is_ws, trim, trim_end, trim_start};
use crate::timeblock::{
    block_line, block_of, dash_end, digit_at, first_bad_char, first_bad_level, hhmm_at, hhmm_text,
    is_tag_char, join_slash, level_end, minute_of_day, parse_block, parse_body, parse_tag, skip_blank,
    split_char, strip_list_marker, tag_text, valid_time, BlockSpec, Time,
};

verus! {

/// The digit character of `k < 10`.
pub open spec fn digit_char(k: nat) -> char {
    ((k + 48) as u32) as char
}

proof fn lemma_two_digits(n: nat)
    requires
        n < 100,
    ensures
        zero_pad(decimal(n), 2) == seq![digit_char(n / 10), digit_char(n % 10)],
{
    if n < 10 {
        assert(zero_pad(decimal(n), 2) =~= seq!['0', digit_char(n)]);
    } else {
        assert(decimal(n / 10) == seq![digit_char(n / 10)]);
        assert(zero_pad(decimal(n), 2) =~= seq![digit_char(n / 10), digit_char(n % 10)]);
    }
}

proof fn lemma_hhmm(t: Time, rest: Seq<char>)
    requires
        valid_time(t),
    ensures
        hhmm_text(t).len() == 5,
        hhmm_at(hhmm_text(t) + rest) == Some(t),
        !is_ws(hhmm_text(t)[0]),
        !is_ws(hhmm_text(t)[4]),
{
    lemma_two_digits(t.hour as nat);
    lemma_two_digits(t.minute as nat);
    let h = hhmm_text(t);
    assert(h =~= seq![digit_char((t.hour / 10) as nat), digit_char((t.hour % 10) as nat), ':', digit_char((t.minute / 10) as nat), digit_char((t.minute % 10) as nat)]);
    let s = h + rest;
    assert(s[0] == h[0] && s[1] == h[1] && s[2] == h[2] && s[3] == h[3] && s[4] == h[4]);
    assert(digit_at(s, 0) == t.hour / 10);
    assert(digit_at(s, 1) == t.hour % 10);
    assert(digit_at(s, 3) == t.minute / 10);
    assert(digit_at(s, 4) == t.minute % 10);
}

/// `HH:MM` of a time of day is five characters, none of them whitespace.
pub proof fn lemma_hhmm_digits(t: Time)
    requires
        valid_time(t),
    ensures
        hhmm_text(t).len() == 5,
        forall|i: int| 0 <= i < 5 ==> !is_ws(#[trigger] hhmm_text(t)[i]),
{
    lemma_two_digits(t.hour as nat);
    lemma_two_digits(t.minute as nat);
    lemma_hhmm(t, Seq::empty());
    let h = hhmm_text(t);
    assert(h =~= seq![digit_char((t.hour / 10) as nat), digit_char((t.hour % 10) as nat), ':', digit_char((t.minute / 10) as nat), digit_char((t.minute % 10) as nat)]);
    assert(h + Seq::<char>::empty() =~= h);
    let s = h + Seq::<char>::empty();
    assert(digit_at(s, 1) == t.hour % 10);
    assert(digit_at(s, 3) == t.minute / 10);
}

proof fn lemma_trim_same(s: Seq<char>)
    requires
        s.len() > 0,
        !is_ws(s[0]),
        !is_ws(s.last()),
    ensures
        trim(s) == s,
        trim_start(s) == s,
{
}

/// A block whose times are times of day, whose end comes after its start
/// and whose description has no surrounding whitespace reads back from
/// its canonical line as the same block with an explicit end; serializing
/// that block gives the same line.
pub proof fn lemma_block_round_trip(b: BlockSpec)
    requires
        valid_time(b.start),
        valid_time(b.end),
        minute_of_day(b.start) < minute_of_day(b.end),
        trim(b.desc) == b.desc,
    ensures
        parse_block(block_line(b)) == Ok::<BlockSpec, crate::timeblock::ParseErrorSpec>(
            block_of(b.start, b.end, true, b.desc),
        ),
        block_line(block_of(b.start, b.end, true, b.desc)) == block_line(b),
{
    let hs = hhmm_text(b.start);
    let he = hhmm_text(b.end);
    let tail = if b.desc.len() == 0 { Seq::<char>::empty() } else { seq![' '] + b.desc };
    let line = block_line(b);
    let rest = seq![' ', '-', ' '] + he + tail;
    assert(line =~= hs + rest);
    lemma_hhmm(b.start, rest);
    lemma_hhmm(b.end, tail);
    // the line has no surrounding whitespace
    assert(line[0] == hs[0]);
    if b.desc.len() > 0 {
        assert(line.last() == b.desc.last());
        assert(!is_ws(b.desc.last())) by {
            lemma_trim_end_len(trim_start(b.desc));
        }
    } else {
        assert(line.last() == he[4]);
    }
    lemma_trim_same(line);
    assert(strip_list_marker(line) == line);
    // the end
    assert(line.skip(5) =~= rest);
    assert(rest[0] == ' ' && rest[1] == '-' && rest[2] == ' ');
    assert(skip_blank(rest, 1) == 1);
    assert(skip_blank(rest, 0) == 1);
    assert(skip_blank(rest, 2) == 3) by {
        assert(rest[3] == he[0]);
        lemma_hhmm(b.end, Seq::empty());
        assert(skip_blank(rest, 3) == 3);
    }
    assert(rest.skip(3) =~= he + tail);
    assert(dash_end(rest) == Some((b.end, 8int)));
    assert(rest.skip(8) =~= tail);
    if b.desc.len() > 0 {
        assert(tail.drop_first() =~= b.desc);
        assert(trim_start(tail) == trim_start(b.desc));
    }
    assert(trim(tail) == b.desc);
}

proof fn lemma_trim_end_len(u: Seq<char>)
    ensures
        trim_end(u).len() <= u.len(),
        trim_end(u).len() > 0 ==> !is_ws(trim_end(u).last()),
    decreases u.len(),
{
    if u.len() > 0 && is_ws(u.last()) {
        lemma_trim_end_len(u.drop_last());
    }
}

// ── tags ─────────────────────────────────────────────────────────────────────

/// One to three levels, each a non-empty run of tag characters.
pub open spec fn valid_levels(ls: Seq<Seq<char>>) -> bool {
    &&& 1 <= ls.len() <= 3
    &&& forall|i: int| 0 <= i < ls.len() ==> #[trigger] ls[i].len() > 0
    &&& forall|i: int, j: int| 0 <= i < ls.len() && 0 <= j < ls[i].len() ==> is_tag_char(#[trigger] ls[i][j])
}

proof fn lemma_find_first(s: Seq<char>, c: char, p: int, q: int)
    requires
        0 <= p <= q <= s.len(),
        forall|k: int| p <= k < q ==> s[k] != c,
        q == s.len() || s[q] == c,
    ensures
        find_from(s, c, p) == q,
    decreases q - p,
{
    if p < q {
        lemma_find_first(s, c, p + 1, q);
    }
}

proof fn lemma_join_front(ls: Seq<Seq<char>>)
    requires
        ls.len() >= 2,
    ensures
        join_slash(ls) == ls[0] + seq!['/'] + join_slash(ls.drop_first()),
    decreases ls.len(),
{
    if ls.len() == 2 {
        assert(ls.drop_last() =~= seq![ls[0]]);
        assert(ls.drop_first() =~= seq![ls[1]]);
        assert(join_slash(seq![ls[0]]) == ls[0]);
        assert(join_slash(seq![ls[1]]) == ls[1]);
        assert(join_slash(ls) == join_slash(ls.drop_last()) + seq!['/'] + ls.last());
    } else {
        lemma_join_front(ls.drop_last());
        assert(ls.drop_last().drop_first() =~= ls.drop_first().drop_last());
        assert(ls.drop_last()[0] == ls[0]);
        assert(ls.drop_first().last() == ls.last());
        let a = join_slash(ls.drop_last().drop_first());
        assert(join_slash(ls) == join_slash(ls.drop_last()) + seq!['/'] + ls.last());
        assert(join_slash(ls.drop_last()) == ls[0] + seq!['/'] + a);
        assert(join_slash(ls.drop_first()) == a + seq!['/'] + ls.last());
        assert(join_slash(ls) =~= ls[0] + seq!['/'] + (a + seq!['/'] + ls.last()));
    }
}

proof fn lemma_split_join(ls: Seq<Seq<char>>)
    requires
        ls.len() >= 1,
        forall|i: int, j: int| 0 <= i < ls.len() && 0 <= j < ls[i].len() ==> #[trigger] ls[i][j] != '/',
    ensures
        split_char(join_slash(ls), '/') == ls,
    decreases ls.len(),
{
    let j = join_slash(ls);
    if ls.len() == 1 {
        lemma_find_first(j, '/', 0, j.len() as int);
        assert(split_char(j, '/') =~= seq![j]);
        assert(ls =~= seq![ls[0]]);
    } else {
        lemma_join_front(ls);
        let l0 = ls[0];
        let rest = ls.drop_first();
        assert forall|i: int, k: int| 0 <= i < rest.len() && 0 <= k < rest[i].len() implies #[trigger] rest[i][k] != '/' by {
            assert(rest[i] == ls[i + 1]);
        }
        lemma_split_join(rest);
        assert forall|k: int| 0 <= k < l0.len() implies j[k] != '/' by {
            assert(j[k] == l0[k]);
            assert(ls[0][k] != '/');
        }
        assert(j[l0.len() as int] == '/');
        lemma_find_first(j, '/', 0, l0.len() as int);
        assert(j.take(l0.len() as int) =~= l0);
        assert(j.skip(l0.len() + 1int) =~= join_slash(rest));
        assert(split_char(j, '/') == seq![l0] + split_char(join_slash(rest), '/'));
        assert(seq![l0] + rest =~= ls);
    }
}

proof fn lemma_level_end_all(s: Seq<char>, i: int)
    requires
        0 <= i <= s.len(),
        forall|k: int| 0 <= k < s.len() ==> is_tag_char(#[trigger] s[k]),
    ensures
        level_end(s, i) == s.len(),
    decreases s.len() - i,
{
    if i < s.len() {
        lemma_level_end_all(s, i + 1);
    }
}

proof fn lemma_no_bad_level(ls: Seq<Seq<char>>, k: int)
    requires
        0 <= k <= ls.len(),
        forall|i: int| 0 <= i < ls.len() ==> #[trigger] ls[i].len() > 0,
        forall|i: int, j: int| 0 <= i < ls.len() && 0 <= j < ls[i].len() ==> is_tag_char(#[trigger] ls[i][j]),
    ensures
        first_bad_level(ls, k) == ls.len(),
    decreases ls.len() - k,
{
    if k < ls.len() {
        assert forall|j: int| 0 <= j < ls[k].len() implies is_tag_char(#[trigger] ls[k][j]) by {}
        lemma_level_end_all(ls[k], 0);
        lemma_no_bad_level(ls, k + 1);
    }
}

proof fn lemma_join_last(ls: Seq<Seq<char>>)
    requires
        ls.len() >= 1,
        ls.last().len() > 0,
    ensures
        join_slash(ls).len() > 0,
        join_slash(ls).last() == ls.last().last(),
{
}

/// A tag of one to three non-empty levels of tag characters reads back
/// from its `@a/b/c` form.
pub proof fn lemma_tag_round_trip(ls: Seq<Seq<char>>)
    requires
        valid_levels(ls),
    ensures
        parse_tag(seq!['@'] + join_slash(ls)) == Ok::<Seq<Seq<char>>, crate::timeblock::ParseErrorSpec>(ls),
{
    let j = join_slash(ls);
    let s = seq!['@'] + j;
    assert(ls.last() == ls[ls.len() - 1]);
    lemma_join_last(ls);
    let lc = ls.last().last();
    assert(is_tag_char(ls[ls.len() - 1][ls.last().len() - 1]));
    assert(!is_ws(lc));
    assert(s.last() == lc);
    lemma_trim_same(s);
    assert(tag_text(s) =~= j);
    assert forall|i: int, k: int| 0 <= i < ls.len() && 0 <= k < ls[i].len() implies #[trigger] ls[i][k] != '/' by {
        assert(is_tag_char(ls[i][k]));
    }
    lemma_split_join(ls);
    lemma_no_bad_level(ls, 0);
}


// ── the tags of a description ────────────────────────────────────────────────

/// What `tag_body` has read of a tag so far: `@`, the levels joined with
/// `/`, and the `/` that opened the level being read.
pub open spec fn tag_prefix(levels: Seq<Seq<char>>) -> Seq<char> {
    if levels.len() == 0 {
        seq!['@']
    } else {
        seq!['@'] + join_slash(levels) + seq!['/']
    }
}

proof fn lemma_tag_body_some(s: Seq<char>, a: int, i: int, levels: Seq<Seq<char>>)
    requires
        0 <= a < i <= s.len(),
        levels.len() <= 2,
        forall|k: int| 0 <= k < levels.len() ==> #[trigger] levels[k].len() > 0,
        forall|k: int, m: int| 0 <= k < levels.len() && 0 <= m < levels[k].len() ==> is_tag_char(#[trigger] levels[k][m]),
        s.subrange(a, i) == tag_prefix(levels),
    ensures
        crate::timeblock::tag_body(s, i, levels).1 matches Some(l) ==> valid_levels(l) && crate::text::occurs_at(
            s,
            seq!['@'] + join_slash(l),
            a,
        ),
    decreases s.len() - i,
{
    let j = level_end(s, i);
    crate::timeblock::lemma_level_end(s, i);
    if !(j < s.len() && !crate::timeblock::ends_level(s[j])) && j != i {
        let x = s.subrange(i, j);
        let lv = levels.push(x);
        assert(lv.drop_last() =~= levels);
        assert forall|k: int| 0 <= k < lv.len() implies #[trigger] lv[k].len() > 0 by {
            if k < levels.len() {
                assert(lv[k] == levels[k]);
            }
        }
        assert forall|k: int, m: int| 0 <= k < lv.len() && 0 <= m < lv[k].len() implies is_tag_char(#[trigger] lv[k][m]) by {
            if k < levels.len() {
                assert(lv[k] == levels[k]);
            } else {
                assert(lv[k][m] == s[i + m]);
            }
        }
        let full = seq!['@'] + join_slash(lv);
        assert(s.subrange(a, j) =~= full) by {
            assert(s.subrange(a, j) =~= s.subrange(a, i) + x);
            if levels.len() == 0 {
                assert(join_slash(lv) == lv[0]);
            } else {
                assert(join_slash(lv) == join_slash(levels) + seq!['/'] + x);
            }
        }
        if j < s.len() && s[j] == '/' {
            if lv.len() < 3 {
                assert(s.subrange(a, j + 1) =~= s.subrange(a, j) + seq!['/']);
                lemma_tag_body_some(s, a, j + 1, lv);
            }
        } else {
            assert(crate::timeblock::tag_body(s, i, levels) == (j, Some(lv)));
            assert(crate::text::occurs_at(s, full, a)) by {
                assert(a + full.len() == j);
            }
        }
    }
}

proof fn lemma_tags_collect(s: Seq<char>, i: int)
    requires
        0 <= i,
    ensures
        forall|k: int|
            0 <= k < crate::timeblock::tags_collect(s, i).len() ==> (#[trigger] crate::timeblock::tags_collect(
                s,
                i,
            )[k] matches Some(l) ==> valid_levels(l) && crate::text::contains(s, seq!['@'] + join_slash(l))),
    decreases s.len() - i,
{
    if 0 <= i < s.len() {
        if s[i] != '@' {
            lemma_tags_collect(s, i + 1);
        } else {
            crate::timeblock::lemma_tag_body(s, i + 1, Seq::empty());
            let (i2, r) = crate::timeblock::tag_body(s, i + 1, Seq::empty());
            assert(s.subrange(i, i + 1) =~= tag_prefix(Seq::empty()));
            lemma_tag_body_some(s, i, i + 1, Seq::empty());
            lemma_tags_collect(s, i2);
            let c = crate::timeblock::tags_collect(s, i);
            let rest = crate::timeblock::tags_collect(s, i2);
            assert forall|k: int| 0 <= k < c.len() implies (#[trigger] c[k] matches Some(l) ==> valid_levels(l)
                && crate::text::contains(s, seq!['@'] + join_slash(l))) by {
                if k == 0 {
                    if let Some(l) = r {
                        assert(crate::text::occurs_at(s, seq!['@'] + join_slash(l), i));
                    }
                } else {
                    assert(c[k] == rest[k - 1]);
                }
            }
        }
    }
}

/// Every tag found in a description reads back from its `@a/b/c` form,
/// and that form occurs in the description; malformed `@` tokens give no
/// tag.
pub proof fn lemma_found_tags_read_back(d: Seq<char>)
    ensures
        forall|k: int|
            0 <= k < crate::timeblock::tags_in(d).len() ==> {
                let t = #[trigger] crate::timeblock::tags_in(d)[k];
                &&& parse_tag(seq!['@'] + join_slash(t)) == Ok::<Seq<Seq<char>>, crate::timeblock::ParseErrorSpec>(t)
                &&& crate::text::contains(d, seq!['@'] + join_slash(t))
            },
{
    let all = crate::timeblock::tags_collect(d, 0);
    let pred = |o: Option<Seq<Seq<char>>>| o is Some;
    let f = all.filter(pred);
    all.filter_lemma(pred);
    lemma_tags_collect(d, 0);
    assert forall|k: int| 0 <= k < crate::timeblock::tags_in(d).len() implies {
        let t = #[trigger] crate::timeblock::tags_in(d)[k];
        &&& parse_tag(seq!['@'] + join_slash(t)) == Ok::<Seq<Seq<char>>, crate::timeblock::ParseErrorSpec>(t)
        &&& crate::text::contains(d, seq!['@'] + join_slash(t))
    } by {
        assert(crate::timeblock::tags_in(d) == f.map_values(|o: Option<Seq<Seq<char>>>| o->0));
        let o = f[k];
        assert(f.contains(o));
        all.lemma_filter_contains_rev(pred, o);
        assert(all.contains(o));
        let idx = choose|idx: int| 0 <= idx < all.len() && all[idx] == o;
        assert(all[idx] matches Some(_));
        let t = o->0;
        assert(crate::timeblock::tags_in(d)[k] == t);
        lemma_tag_round_trip(t);
    }
}

} // verus!
