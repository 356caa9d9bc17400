//! Time-spent reporting for timeblocks.

use vstd::prelude::*;

use crate::text::{lemma_str_lt_irreflexive, lemma_str_lt_total, lemma_str_lt_transitive, str_eq, str_lt, str_lt_exec};
use crate::timeblock::doc::{blocks_valid, blocks_view};
use crate::timeblock::{block_view, valid_time, BlockSpec, Timeblock};

verus! {

/// `m` minutes as `(hours, minutes)`.
pub fn minutes_to_hours_minutes(m: u32) -> (r: (u32, u32))
    ensures
        r.0 == m / 60,
        r.1 == m % 60,
        r.0 * 60 + r.1 == m,
{
    (m / 60, m % 60)
}

/// Minutes from a block's start to its end, or 0 when the end is not
/// later.
pub open spec fn duration(b: BlockSpec) -> nat {
    let s = b.start.hour * 60 + b.start.minute;
    let e = b.end.hour * 60 + b.end.minute;
    if e > s {
        (e - s) as nat
    } else {
        0
    }
}

/// The block carries a tag whose first level is `break`.
pub open spec fn is_break(b: BlockSpec) -> bool {
    exists|i: int| 0 <= i < b.tags.len() && b.tags[i].len() > 0 && #[trigger] b.tags[i][0] == "break"@
}

/// Sum of the durations of the blocks of `bs` that are not breaks.
pub open spec fn worked(bs: Seq<BlockSpec>) -> nat
    decreases bs.len(),
{
    if bs.len() == 0 {
        0
    } else {
        worked(bs.drop_last()) + if is_break(bs.last()) {
            0
        } else {
            duration(bs.last())
        }
    }
}

fn duration_exec(b: &Timeblock) -> (r: u32)
    requires
        crate::timeblock::valid_time(b.start),
        crate::timeblock::valid_time(b.end),
    ensures
        r == duration(block_view(*b)),
{
    let s = b.start.hour * 60 + b.start.minute;
    let e = b.end.hour * 60 + b.end.minute;
    if e > s {
        e - s
    } else {
        0
    }
}

fn is_break_exec(b: &Timeblock) -> (r: bool)
    ensures
        r == is_break(block_view(*b)),
{
    let ghost bv = block_view(*b);
    let mut i: usize = 0;
    while i < b.tags.len()
        invariant
            i <= b.tags@.len() == bv.tags.len(),
            bv == block_view(*b),
            forall|j: int| 0 <= j < i ==> !(bv.tags[j].len() > 0 && #[trigger] bv.tags[j][0] == "break"@),
        decreases b.tags@.len() - i,
    {
        let t = &b.tags[i];
        if t.levels.len() > 0 && crate::text::str_eq(t.levels[0].as_str(), "break") {
            proof {
                assert(bv.tags[i as int] == crate::timeblock::tag_view(*t));
                assert(bv.tags[i as int][0] == "break"@);
            }
            return true;
        }
        proof {
            assert(bv.tags[i as int] == crate::timeblock::tag_view(*t));
            if t.levels@.len() > 0 {
                assert(bv.tags[i as int][0] == t.levels@[0]@);
            }
        }
        i += 1;
    }
    false
}

/// Minutes spent in `blocks`, leaving out blocks tagged `@break`.
pub fn total_minutes(blocks: &Vec<Timeblock>) -> (r: u32)
    requires
        crate::timeblock::doc::blocks_valid(blocks_view(blocks@)),
        worked(blocks_view(blocks@)) <= u32::MAX,
    ensures
        r == worked(blocks_view(blocks@)),
{
    let ghost bv = blocks_view(blocks@);
    let mut total: u32 = 0;
    let mut i: usize = 0;
    proof {
        assert(bv.take(0) =~= Seq::<BlockSpec>::empty());
    }
    while i < blocks.len()
        invariant
            i <= blocks@.len() == bv.len(),
            bv == blocks_view(blocks@),
            crate::timeblock::doc::blocks_valid(bv),
            worked(bv) <= u32::MAX,
            total == worked(bv.take(i as int)),
        decreases blocks@.len() - i,
    {
        let b = &blocks[i];
        proof {
            assert(bv[i as int] == block_view(*b));
            assert(crate::timeblock::valid_time(bv[i as int].start));
            assert(bv.take(i + 1).drop_last() =~= bv.take(i as int));
            lemma_worked_prefix(bv, i + 1);
        }
        if !is_break_exec(b) {
            total = total + duration_exec(b);
        }
        i += 1;
    }
    proof {
        assert(bv.take(i as int) =~= bv);
    }
    total
}

proof fn lemma_worked_prefix(bs: Seq<BlockSpec>, k: int)
    requires
        0 <= k <= bs.len(),
    ensures
        worked(bs.take(k)) <= worked(bs),
    decreases bs.len() - k,
{
    if k < bs.len() {
        lemma_worked_prefix(bs, k + 1);
        assert(bs.take(k + 1).drop_last() =~= bs.take(k));
    } else {
        assert(bs.take(k) =~= bs);
    }
}


// ── time per tag ─────────────────────────────────────────────────────────────

/// One row of the per-tag time summary.
#[derive(Debug, PartialEq, Eq)]
pub struct TagTime {
    /// A single level segment (e.g. `"work"` for `@work/meeting`).
    pub tag: String,
    pub minutes: u32,
    /// The rows of the next level, for the blocks counted in this row.
    pub children: Vec<TagTime>,
}

/// The tags of `tags` whose segment at `level` is `seg`, in order.
pub open spec fn tags_under(tags: Seq<Seq<Seq<char>>>, level: nat, seg: Seq<char>) -> Seq<Seq<Seq<char>>>
    decreases tags.len(),
{
    if tags.len() == 0 {
        Seq::empty()
    } else {
        let rest = tags_under(tags.drop_last(), level, seg);
        if level < tags.last().len() && tags.last()[level as int] == seg {
            rest.push(tags.last())
        } else {
            rest
        }
    }
}

/// Block `b` as it counts under the segment `seg` at `level`: only its tags
/// that run through that segment stay, so the next level sees only the
/// segments nested under it.
pub open spec fn narrow(b: BlockSpec, level: nat, seg: Seq<char>) -> BlockSpec {
    BlockSpec { tags: tags_under(b.tags, level, seg), ..b }
}

/// The segments at `level` of `tags` (the tags of block `b`), in order,
/// each paired with `b` narrowed to the tags under that segment; a tag
/// without that many levels gives none.
pub open spec fn block_segs(b: BlockSpec, tags: Seq<Seq<Seq<char>>>, level: nat) -> Seq<(Seq<char>, BlockSpec)>
    decreases tags.len(),
{
    if tags.len() == 0 {
        Seq::empty()
    } else {
        let rest = block_segs(b, tags.drop_last(), level);
        if level < tags.last().len() {
            rest.push((tags.last()[level as int], narrow(b, level, tags.last()[level as int])))
        } else {
            rest
        }
    }
}

/// Every (segment at `level`, block) pair of `bs`: blocks in order, and
/// within a block its tags in order.
pub open spec fn seg_pairs(bs: Seq<BlockSpec>, level: nat) -> Seq<(Seq<char>, BlockSpec)>
    decreases bs.len(),
{
    if bs.len() == 0 {
        Seq::empty()
    } else {
        seg_pairs(bs.drop_last(), level) + block_segs(bs.last(), bs.last().tags, level)
    }
}

/// The blocks paired with `seg` in `ps`, in order; a block appears once
/// per tag that gives it that segment.
pub open spec fn group_of(ps: Seq<(Seq<char>, BlockSpec)>, seg: Seq<char>) -> Seq<BlockSpec>
    decreases ps.len(),
{
    if ps.len() == 0 {
        Seq::empty()
    } else if ps.last().0 == seg {
        group_of(ps.drop_last(), seg).push(ps.last().1)
    } else {
        group_of(ps.drop_last(), seg)
    }
}

/// Sum of the durations of `g`.
pub open spec fn total_duration(g: Seq<BlockSpec>) -> nat
    decreases g.len(),
{
    if g.len() == 0 {
        0
    } else {
        total_duration(g.drop_last()) + duration(g.last())
    }
}

/// Row `a` comes before row `b`: more minutes, or as many and a smaller
/// tag.
pub open spec fn row_before(a: TagTime, b: TagTime) -> bool {
    a.minutes > b.minutes || (a.minutes == b.minutes && str_lt(a.tag@, b.tag@))
}

/// The rows are sorted: each comes before every later one.
pub open spec fn rows_sorted(rows: Seq<TagTime>) -> bool {
    forall|i: int, j: int| 0 <= i < j < rows.len() ==> row_before(#[trigger] rows[i], #[trigger] rows[j])
}

/// Every segment of `ps` has a row.
pub open spec fn rows_cover(rows: Seq<TagTime>, ps: Seq<(Seq<char>, BlockSpec)>) -> bool {
    forall|k: int| 0 <= k < ps.len() ==> has_row(rows, #[trigger] ps[k].0)
}

/// Some row of `rows` has tag `s`.
pub open spec fn has_row(rows: Seq<TagTime>, s: Seq<char>) -> bool {
    exists|i: int| 0 <= i < rows.len() && rows[i].tag@ == s
}

/// `rows` is the tag summary of `bs` at `level`: one row per distinct
/// segment, sorted by minutes descending then tag; a row's minutes are
/// the durations of its group summed, and below the third level its
/// children summarize its group at the next level.
pub open spec fn summary_ok(rows: Seq<TagTime>, bs: Seq<BlockSpec>, level: nat) -> bool
    decreases 3 - level, 2int,
{
    let ps = seg_pairs(bs, level);
    &&& rows_sorted(rows)
    &&& rows_cover(rows, ps)
    &&& rows_ok(rows, ps, level)
}

/// Every row of `rows` is right for its group in `ps`.
pub open spec fn rows_ok(rows: Seq<TagTime>, ps: Seq<(Seq<char>, BlockSpec)>, level: nat) -> bool
    decreases 3 - level, 1int,
{
    forall|i: int| 0 <= i < rows.len() ==> row_ok(#[trigger] rows[i], ps, level)
}

/// Row `t` is right for its group in `ps`: the group is not empty, the
/// minutes are its durations summed, and the children summarize it at
/// the next level (none at the third).
pub open spec fn row_ok(t: TagTime, ps: Seq<(Seq<char>, BlockSpec)>, level: nat) -> bool
    decreases 3 - level, 0int,
{
    let g = group_of(ps, t.tag@);
    &&& g.len() > 0
    &&& t.minutes == total_duration(g)
    &&& if level + 1 < 3 {
        summary_ok(t.children@, g, level + 1)
    } else {
        t.children@.len() == 0
    }
}

/// Every group sum of the summary of `bs` at `level`, at every level
/// below, fits in a `u32`.
pub open spec fn sums_fit(bs: Seq<BlockSpec>, level: nat) -> bool
    decreases 3 - level,
{
    let ps = seg_pairs(bs, level);
    forall|k: int|
        0 <= k < ps.len() ==> {
            let g = group_of(ps, #[trigger] ps[k].0);
            &&& total_duration(g) <= u32::MAX
            &&& (level + 1 < 3 ==> sums_fit(g, level + 1))
        }
}

/// `s` is a segment of `ps`.
pub open spec fn is_seg(ps: Seq<(Seq<char>, BlockSpec)>, s: Seq<char>) -> bool {
    exists|k: int| 0 <= k < ps.len() && ps[k].0 == s
}

proof fn lemma_total_duration_prefix(g: Seq<BlockSpec>, k: int)
    requires
        0 <= k <= g.len(),
    ensures
        total_duration(g.take(k)) <= total_duration(g),
    decreases g.len() - k,
{
    if k < g.len() {
        lemma_total_duration_prefix(g, k + 1);
        assert(g.take(k + 1).drop_last() =~= g.take(k));
    } else {
        assert(g.take(k) =~= g);
    }
}

proof fn lemma_group_nonempty(ps: Seq<(Seq<char>, BlockSpec)>, seg: Seq<char>)
    requires
        is_seg(ps, seg),
    ensures
        group_of(ps, seg).len() > 0,
    decreases ps.len(),
{
    if ps.last().0 != seg {
        let k = choose|k: int| 0 <= k < ps.len() && ps[k].0 == seg;
        assert(ps.drop_last()[k] == ps[k]);
        lemma_group_nonempty(ps.drop_last(), seg);
    }
}

proof fn lemma_row_before_trans(a: TagTime, b: TagTime, c: TagTime)
    requires
        row_before(a, b),
        row_before(b, c),
    ensures
        row_before(a, c),
{
    if a.minutes == b.minutes && b.minutes == c.minutes {
        lemma_str_lt_transitive(a.tag@, b.tag@, c.tag@);
    }
}

proof fn lemma_row_before_total(a: TagTime, b: TagTime)
    requires
        a.tag@ != b.tag@,
        !row_before(a, b),
    ensures
        row_before(b, a),
{
    if a.minutes == b.minutes {
        lemma_str_lt_total(a.tag@, b.tag@);
    }
}

fn row_before_exec(a: &TagTime, b: &TagTime) -> (r: bool)
    ensures
        r == row_before(*a, *b),
{
    a.minutes > b.minutes || (a.minutes == b.minutes && str_lt_exec(a.tag.as_str(), b.tag.as_str()))
}

fn clone_string(s: &String) -> (r: String)
    ensures
        r@ == s@,
{
    s.clone()
}

/// Group `blocks` by their tag segments at `level`: the distinct segments
/// in order of first appearance, and for each its group.
/// A copy of `t`.
fn copy_tag(t: &crate::timeblock::Tag) -> (r: crate::timeblock::Tag)
    ensures
        crate::timeblock::tag_view(r) == crate::timeblock::tag_view(*t),
{
    let mut levels: Vec<String> = Vec::new();
    let mut j: usize = 0;
    while j < t.levels.len()
        invariant
            j <= t.levels@.len(),
            crate::task::strings_view(levels@) == crate::task::strings_view(t.levels@).take(j as int),
        decreases t.levels@.len() - j,
    {
        let c = clone_string(&t.levels[j]);
        let ghost prev = levels@;
        levels.push(c);
        proof {
            assert(crate::task::strings_view(levels@) =~= crate::task::strings_view(prev).push(c@));
            assert(crate::task::strings_view(t.levels@).take(j + 1) =~= crate::task::strings_view(t.levels@).take(
                j as int,
            ).push(t.levels@[j as int]@));
        }
        j += 1;
    }
    proof {
        assert(crate::task::strings_view(t.levels@).take(j as int) =~= crate::task::strings_view(t.levels@));
    }
    crate::timeblock::Tag { levels }
}

/// A copy of `b` keeping only the tags whose segment at `level` is `seg`.
fn narrow_block(b: &Timeblock, level: usize, seg: &String) -> (r: Timeblock)
    ensures
        block_view(r) == narrow(block_view(*b), level as nat, seg@),
{
    let ghost tv = crate::timeblock::tags_view(b.tags@);
    let mut tags: Vec<crate::timeblock::Tag> = Vec::new();
    let mut i: usize = 0;
    proof {
        assert(tv.take(0) =~= Seq::<Seq<Seq<char>>>::empty());
        assert(crate::timeblock::tags_view(tags@) =~= Seq::<Seq<Seq<char>>>::empty());
    }
    while i < b.tags.len()
        invariant
            i <= b.tags@.len() == tv.len(),
            tv == crate::timeblock::tags_view(b.tags@),
            crate::timeblock::tags_view(tags@) == tags_under(tv.take(i as int), level as nat, seg@),
        decreases b.tags@.len() - i,
    {
        let t = &b.tags[i];
        let ghost prev = tags@;
        proof {
            assert(tv[i as int] == crate::timeblock::tag_view(*t));
            assert(tv.take(i + 1).drop_last() =~= tv.take(i as int));
            assert(tv.take(i + 1).last() == tv[i as int]);
        }
        if level < t.levels.len() && str_eq(t.levels[level].as_str(), seg.as_str()) {
            let c = copy_tag(t);
            tags.push(c);
            proof {
                assert(tv[i as int][level as int] == t.levels@[level as int]@);
                assert(crate::timeblock::tags_view(tags@) =~= crate::timeblock::tags_view(prev).push(
                    crate::timeblock::tag_view(c),
                ));
            }
        } else {
            proof {
                if level < t.levels@.len() {
                    assert(tv[i as int][level as int] == t.levels@[level as int]@);
                }
            }
        }
        i += 1;
    }
    proof {
        assert(tv.take(i as int) =~= tv);
    }
    Timeblock {
        start: b.start,
        end: b.end,
        end_explicit: b.end_explicit,
        desc: b.desc.clone(),
        tags,
        source_line: b.source_line,
    }
}

fn group_blocks(blocks: &Vec<Timeblock>, level: usize) -> (r: (Vec<String>, Vec<Vec<Timeblock>>))
    requires
        blocks_valid(blocks_view(blocks@)),
    ensures
        ({
            let ps = seg_pairs(blocks_view(blocks@), level as nat);
            let (keys, groups) = r;
            &&& keys@.len() == groups@.len()
            &&& forall|a: int, b: int| 0 <= a < b < keys@.len() ==> (#[trigger] keys@[a])@ != (#[trigger] keys@[b])@
            &&& forall|g: int| 0 <= g < keys@.len() ==> is_seg(ps, (#[trigger] keys@[g])@)
            &&& forall|g: int| 0 <= g < keys@.len() ==> blocks_view((#[trigger] groups@[g])@) == group_of(ps, keys@[g]@)
            &&& forall|g: int| 0 <= g < groups@.len() ==> blocks_valid(blocks_view((#[trigger] groups@[g])@))
            &&& forall|k: int| 0 <= k < ps.len() ==> has_key(keys@, #[trigger] ps[k].0)
        }),
{
    let ghost bv = blocks_view(blocks@);
    let ghost lv = level as nat;
    let mut keys: Vec<String> = Vec::new();
    let mut groups: Vec<Vec<Timeblock>> = Vec::new();
    // For each pair so far, the index of its key; for each key, a pair
    // that names it.
    let ghost mut idx: Seq<int> = Seq::empty();
    let ghost mut wit: Seq<int> = Seq::empty();
    let ghost mut cur: Seq<(Seq<char>, BlockSpec)> = Seq::empty();
    let mut i: usize = 0;
    proof {
        assert(seg_pairs(bv.take(0), lv) =~= Seq::<(Seq<char>, BlockSpec)>::empty());
    }
    while i < blocks.len()
        invariant
            i <= blocks@.len() == bv.len(),
            bv == blocks_view(blocks@),
            lv == level as nat,
            blocks_valid(bv),
            cur == seg_pairs(bv.take(i as int), lv),
            keys@.len() == groups@.len() == wit.len(),
            idx.len() == cur.len(),
            forall|a: int, b: int| 0 <= a < b < keys@.len() ==> (#[trigger] keys@[a])@ != (#[trigger] keys@[b])@,
            forall|g: int| 0 <= g < keys@.len() ==> 0 <= #[trigger] wit[g] < cur.len() && cur[wit[g]].0 == keys@[g]@,
            forall|k: int| 0 <= k < cur.len() ==> 0 <= #[trigger] idx[k] < keys@.len() && keys@[idx[k]]@ == cur[k].0,
            forall|g: int| 0 <= g < keys@.len() ==> blocks_view((#[trigger] groups@[g])@) == group_of(cur, keys@[g]@),
            forall|g: int| 0 <= g < groups@.len() ==> blocks_valid(blocks_view((#[trigger] groups@[g])@)),
        decreases blocks@.len() - i,
    {
        let b = &blocks[i];
        let ghost bb = bv[i as int];
        let ghost base = cur;
        proof {
            assert(bb == block_view(*b));
            assert(bb.tags.take(0) =~= Seq::<Seq<Seq<char>>>::empty());
            assert(base + block_segs(bb, bb.tags.take(0), lv) =~= base);
        }
        let mut j: usize = 0;
        while j < b.tags.len()
            invariant
                i < blocks@.len() == bv.len(),
                bv == blocks_view(blocks@),
                bb == bv[i as int],
                bb == block_view(*b),
                *b == blocks@[i as int],
                lv == level as nat,
                blocks_valid(bv),
                base == seg_pairs(bv.take(i as int), lv),
                j <= b.tags@.len() == bb.tags.len(),
                cur == base + block_segs(bb, bb.tags.take(j as int), lv),
                keys@.len() == groups@.len() == wit.len(),
                idx.len() == cur.len(),
                forall|a: int, c: int| 0 <= a < c < keys@.len() ==> (#[trigger] keys@[a])@ != (#[trigger] keys@[c])@,
                forall|g: int| 0 <= g < keys@.len() ==> 0 <= #[trigger] wit[g] < cur.len() && cur[wit[g]].0 == keys@[g]@,
                forall|k: int| 0 <= k < cur.len() ==> 0 <= #[trigger] idx[k] < keys@.len() && keys@[idx[k]]@ == cur[k].0,
                forall|g: int| 0 <= g < keys@.len() ==> blocks_view((#[trigger] groups@[g])@) == group_of(cur, keys@[g]@),
                forall|g: int| 0 <= g < groups@.len() ==> blocks_valid(blocks_view((#[trigger] groups@[g])@)),
            decreases b.tags@.len() - j,
        {
            let ghost nxt = base + block_segs(bb, bb.tags.take(j + 1), lv);
            proof {
                assert(bb.tags.take(j + 1).drop_last() =~= bb.tags.take(j as int));
                assert(bb.tags.take(j + 1).last() == bb.tags[j as int]);
                assert(bb.tags[j as int] == crate::timeblock::tag_view(b.tags@[j as int]));
            }
            if level < b.tags[j].levels.len() {
                let seg = &b.tags[j].levels[level];
                let ghost nb_v = narrow(bb, lv, seg@);
                let ghost p = (seg@, nb_v);
                proof {
                    assert(bb.tags[j as int][level as int] == seg@);
                    assert(nxt =~= cur.push(p));
                }
                let mut g: usize = 0;
                let mut found = false;
                while !found && g < keys.len()
                    invariant
                        g <= keys@.len(),
                        forall|h: int| 0 <= h < g ==> (#[trigger] keys@[h])@ != seg@,
                        found ==> g < keys@.len() && keys@[g as int]@ == seg@,
                    decreases keys@.len() - g + if found { 0int } else { 1int },
                {
                    if str_eq(keys[g].as_str(), seg.as_str()) {
                        found = true;
                    } else {
                        g += 1;
                    }
                }
                let nb = narrow_block(b, level, seg);
                let ghost old_groups = groups@;
                let ghost old_keys = keys@;
                proof {
                    assert(block_view(nb) == nb_v);
                    assert(nxt.drop_last() =~= cur);
                    assert(nxt.last() == p);
                }
                if found {
                    let mut grp = Vec::new();
                    std::mem::swap(&mut grp, &mut groups[g]);
                    grp.push(nb);
                    proof {
                        assert(blocks_view(grp@) =~= blocks_view(old_groups[g as int]@).push(nb_v));
                    }
                    groups.set(g, grp);
                    proof {
                        idx = idx.push(g as int);
                        assert forall|h: int| 0 <= h < keys@.len() implies blocks_view((#[trigger] groups@[h])@) == group_of(nxt, keys@[h]@) by {
                            if h != g {
                                assert(groups@[h] == old_groups[h]);
                            }
                        }
                        assert forall|h: int| 0 <= h < groups@.len() implies blocks_valid(blocks_view((#[trigger] groups@[h])@)) by {
                            if h != g {
                                assert(groups@[h] == old_groups[h]);
                            } else {
                                assert forall|t: int| 0 <= t < blocks_view(groups@[h]@).len() implies valid_time(#[trigger] blocks_view(groups@[h]@)[t].start) && valid_time(blocks_view(groups@[h]@)[t].end) by {
                                    if t < blocks_view(old_groups[h]@).len() {
                                        assert(blocks_view(groups@[h]@)[t] == blocks_view(old_groups[h]@)[t]);
                                        assert(blocks_valid(blocks_view(old_groups[h]@)));
                                    } else {
                                        assert(blocks_view(groups@[h]@)[t] == nb_v);
                                        assert(valid_time(bv[i as int].start));
                                    }
                                }
                            }
                        }
                    }
                } else {
                    let mut grp = Vec::new();
                    grp.push(nb);
                    proof {
                        assert(blocks_view(grp@) =~= seq![nb_v]);
                        assert(!is_seg(cur, seg@)) by {
                            if is_seg(cur, seg@) {
                                let k = choose|k: int| 0 <= k < cur.len() && cur[k].0 == seg@;
                                assert(keys@[idx[k]]@ == cur[k].0);
                            }
                        }
                        lemma_group_empty(cur, seg@);
                    }
                    groups.push(grp);
                    keys.push(clone_string(seg));
                    proof {
                        idx = idx.push(old_keys.len() as int);
                        wit = wit.push(cur.len() as int);
                        assert forall|h: int| 0 <= h < keys@.len() implies blocks_view((#[trigger] groups@[h])@) == group_of(nxt, keys@[h]@) by {
                            if h < old_keys.len() {
                                assert(groups@[h] == old_groups[h]);
                                assert(keys@[h] == old_keys[h]);
                            } else {
                                assert(group_of(nxt, seg@) =~= seq![nb_v]);
                            }
                        }
                        assert forall|h: int| 0 <= h < groups@.len() implies blocks_valid(blocks_view((#[trigger] groups@[h])@)) by {
                            if h < old_groups.len() {
                                assert(groups@[h] == old_groups[h]);
                            } else {
                                assert(blocks_view(groups@[h]@) =~= seq![nb_v]);
                            }
                        }
                        assert forall|a: int, c: int| 0 <= a < c < keys@.len() implies (#[trigger] keys@[a])@ != (#[trigger] keys@[c])@ by {
                            assert(keys@[a] == old_keys[a]);
                            if c < old_keys.len() {
                                assert(keys@[c] == old_keys[c]);
                            }
                        }
                    }
                }
                proof {
                    assert forall|h: int| 0 <= h < old_keys.len() implies keys@[h] == old_keys[h] by {}
                    assert forall|h: int| 0 <= h < keys@.len() implies 0 <= #[trigger] wit[h] < nxt.len() && nxt[wit[h]].0 == keys@[h]@ by {
                        if h < old_keys.len() {
                            assert(nxt[wit[h]] == cur[wit[h]]);
                        }
                    }
                    assert forall|k: int| 0 <= k < nxt.len() implies 0 <= #[trigger] idx[k] < keys@.len() && keys@[idx[k]]@ == nxt[k].0 by {
                        if k < cur.len() {
                            assert(nxt[k] == cur[k]);
                        }
                    }
                    cur = nxt;
                }
            } else {
                proof {
                    assert(nxt =~= cur);
                }
            }
            j += 1;
        }
        proof {
            assert(bb.tags.take(bb.tags.len() as int) =~= bb.tags);
            assert(bv.take(i + 1).drop_last() =~= bv.take(i as int));
            assert(bv.take(i + 1).last() == bb);
            assert(seg_pairs(bv.take(i + 1), lv) == base + block_segs(bb, bb.tags, lv));
        }
        i += 1;
    }
    proof {
        assert(bv.take(i as int) =~= bv);
        assert forall|g: int| 0 <= g < keys@.len() implies is_seg(cur, (#[trigger] keys@[g])@) by {
            assert(cur[wit[g]].0 == keys@[g]@);
        }
        assert forall|k: int| 0 <= k < cur.len() implies has_key(keys@, #[trigger] cur[k].0) by {
            assert(keys@[idx[k]]@ == cur[k].0);
        }
    }
    (keys, groups)
}

/// One of `keys` is `s`.
pub open spec fn has_key(keys: Seq<String>, s: Seq<char>) -> bool {
    exists|g: int| 0 <= g < keys.len() && keys[g]@ == s
}

proof fn lemma_group_empty(ps: Seq<(Seq<char>, BlockSpec)>, seg: Seq<char>)
    requires
        !is_seg(ps, seg),
    ensures
        group_of(ps, seg) =~= Seq::<BlockSpec>::empty(),
    decreases ps.len(),
{
    if ps.len() > 0 {
        assert(ps.last() == ps[ps.len() - 1]);
        assert(!is_seg(ps.drop_last(), seg)) by {
            if is_seg(ps.drop_last(), seg) {
                let k = choose|k: int| 0 <= k < ps.drop_last().len() && ps.drop_last()[k].0 == seg;
                assert(ps[k] == ps.drop_last()[k]);
            }
        }
        lemma_group_empty(ps.drop_last(), seg);
    }
}


/// Sum of the durations of `g`.
fn sum_group(g: &Vec<Timeblock>) -> (r: u32)
    requires
        blocks_valid(blocks_view(g@)),
        total_duration(blocks_view(g@)) <= u32::MAX,
    ensures
        r == total_duration(blocks_view(g@)),
{
    let ghost gv = blocks_view(g@);
    let mut total: u32 = 0;
    let mut t: usize = 0;
    proof {
        assert(gv.take(0) =~= Seq::<BlockSpec>::empty());
    }
    while t < g.len()
        invariant
            t <= g@.len() == gv.len(),
            gv == blocks_view(g@),
            blocks_valid(gv),
            total_duration(gv) <= u32::MAX,
            total == total_duration(gv.take(t as int)),
        decreases g@.len() - t,
    {
        proof {
            assert(gv[t as int] == block_view(g@[t as int]));
            assert(valid_time(gv[t as int].start));
            assert(gv.take(t + 1).drop_last() =~= gv.take(t as int));
            lemma_total_duration_prefix(gv, t + 1);
        }
        total = total + duration_exec(&g[t]);
        t += 1;
    }
    proof {
        assert(gv.take(t as int) =~= gv);
    }
    total
}

proof fn lemma_insert_sorted(s: Seq<TagTime>, p: int, x: TagTime)
    requires
        0 <= p <= s.len(),
        forall|i: int, j: int| 0 <= i < j < s.len() ==> row_before(#[trigger] s[i], #[trigger] s[j]),
        forall|q: int| 0 <= q < p ==> row_before(#[trigger] s[q], x),
        forall|q: int| p <= q < s.len() ==> row_before(x, #[trigger] s[q]),
    ensures
        forall|i: int, j: int| 0 <= i < j < s.insert(p, x).len() ==> row_before(#[trigger] s.insert(p, x)[i], #[trigger] s.insert(p, x)[j]),
{
    let t = s.insert(p, x);
    assert forall|i: int, j: int| 0 <= i < j < t.len() implies row_before(#[trigger] t[i], #[trigger] t[j]) by {
        if j < p {
            assert(t[i] == s[i] && t[j] == s[j]);
        } else if j == p {
            assert(t[i] == s[i] && t[j] == x);
        } else if i < p {
            assert(t[i] == s[i] && t[j] == s[j - 1]);
        } else if i == p {
            assert(t[i] == x && t[j] == s[j - 1]);
        } else {
            assert(t[i] == s[i - 1] && t[j] == s[j - 1]);
        }
    }
}

/// The tag summary of `blocks` at `level`.
fn summary_at(blocks: &Vec<Timeblock>, level: usize) -> (r: Vec<TagTime>)
    requires
        level < 3,
        blocks_valid(blocks_view(blocks@)),
        sums_fit(blocks_view(blocks@), level as nat),
    ensures
        summary_ok(r@, blocks_view(blocks@), level as nat),
    decreases 3 - level,
{
    let ghost ps = seg_pairs(blocks_view(blocks@), level as nat);
    let (keys, groups) = group_blocks(blocks, level);
    let mut out: Vec<TagTime> = Vec::new();
    let mut g: usize = 0;
    while g < keys.len()
        invariant
            level < 3,
            ps == seg_pairs(blocks_view(blocks@), level as nat),
            sums_fit(blocks_view(blocks@), level as nat),
            g <= keys@.len() == groups@.len(),
            forall|a: int, b: int| 0 <= a < b < keys@.len() ==> (#[trigger] keys@[a])@ != (#[trigger] keys@[b])@,
            forall|h: int| 0 <= h < keys@.len() ==> is_seg(ps, (#[trigger] keys@[h])@),
            forall|h: int| 0 <= h < keys@.len() ==> blocks_view((#[trigger] groups@[h])@) == group_of(ps, keys@[h]@),
            forall|h: int| 0 <= h < groups@.len() ==> blocks_valid(blocks_view((#[trigger] groups@[h])@)),
            forall|i: int, j: int| 0 <= i < j < out@.len() ==> row_before(#[trigger] out@[i], #[trigger] out@[j]),
            forall|i: int| 0 <= i < out@.len() ==> has_key(keys@.take(g as int), (#[trigger] out@[i]).tag@),
            forall|h: int| 0 <= h < g ==> has_row(out@, (#[trigger] keys@[h])@),
            forall|i: int| 0 <= i < out@.len() ==> row_ok(#[trigger] out@[i], ps, level as nat),
        decreases keys@.len() - g,
    {
        let ghost key = keys@[g as int]@;
        let ghost grp = group_of(ps, key);
        proof {
            assert(is_seg(ps, key));
            let k = choose|k: int| 0 <= k < ps.len() && ps[k].0 == key;
            assert(ps[k].0 == key);
            lemma_group_nonempty(ps, key);
        }
        let minutes = sum_group(&groups[g]);
        let children = if level + 1 < 3 {
            summary_at(&groups[g], level + 1)
        } else {
            Vec::new()
        };
        let row = TagTime { tag: clone_string(&keys[g]), minutes, children };
        proof {
            assert(row_ok(row, ps, level as nat));
            assert forall|i: int| 0 <= i < out@.len() implies (#[trigger] out@[i]).tag@ != row.tag@ by {
                assert(has_key(keys@.take(g as int), out@[i].tag@));
                let h = choose|h: int| 0 <= h < keys@.take(g as int).len() && keys@.take(g as int)[h]@ == out@[i].tag@;
                assert(keys@.take(g as int)[h] == keys@[h]);
            }
        }
        let mut p: usize = 0;
        while p < out.len() && row_before_exec(&out[p], &row)
            invariant
                p <= out@.len(),
                forall|q: int| 0 <= q < p ==> row_before(#[trigger] out@[q], row),
            decreases out@.len() - p,
        {
            p += 1;
        }
        let ghost before = out@;
        proof {
            if p < before.len() {
                assert(!row_before(before[p as int], row));
                lemma_row_before_total(before[p as int], row);
                assert forall|q: int| p <= q < before.len() implies row_before(row, #[trigger] before[q]) by {
                    if q > p {
                        lemma_row_before_trans(row, before[p as int], before[q]);
                    }
                }
            }
            lemma_insert_sorted(before, p as int, row);
        }
        out.insert(p, row);
        proof {
            assert(out@ == before.insert(p as int, row));
            assert forall|i: int| 0 <= i < out@.len() implies has_key(keys@.take(g + 1), (#[trigger] out@[i]).tag@) && row_ok(out@[i], ps, level as nat) by {
                if i < p {
                    assert(out@[i] == before[i]);
                } else if i == p {
                    assert(keys@.take(g + 1)[g as int] == keys@[g as int]);
                } else {
                    assert(out@[i] == before[i - 1]);
                }
                if i != p {
                    let o = out@[i];
                    assert(has_key(keys@.take(g as int), o.tag@));
                    let h = choose|h: int| 0 <= h < keys@.take(g as int).len() && keys@.take(g as int)[h]@ == o.tag@;
                    assert(keys@.take(g + 1)[h] == keys@[h]);
                }
            }
            assert forall|h: int| 0 <= h < g + 1 implies has_row(out@, (#[trigger] keys@[h])@) by {
                if h == g {
                    assert(out@[p as int] == row);
                } else {
                    assert(has_row(before, keys@[h]@));
                    let i = choose|i: int| 0 <= i < before.len() && before[i].tag@ == keys@[h]@;
                    if i < p {
                        assert(out@[i] == before[i]);
                    } else {
                        assert(out@[i + 1] == before[i]);
                    }
                }
            }
        }
        g += 1;
    }
    proof {
        assert forall|k: int| 0 <= k < ps.len() implies has_row(out@, #[trigger] ps[k].0) by {
            let h = choose|h: int| 0 <= h < keys@.len() && keys@[h]@ == ps[k].0;
            assert(has_row(out@, keys@[h]@));
        }
        assert(rows_ok(out@, ps, level as nat));
        assert(rows_sorted(out@));
    }
    out
}

/// Time per tag, as a tree: each level's segment of every tag of every
/// block, summed (a block counts once per tag naming the segment), sorted
/// by minutes descending then tag; rows of the first two levels carry the
/// rows of the next level, made from the tags nested under the row's
/// segment only. `@break` blocks count too.
pub fn time_per_tag(blocks: &Vec<Timeblock>) -> (r: Vec<TagTime>)
    requires
        blocks_valid(blocks_view(blocks@)),
        sums_fit(blocks_view(blocks@), 0),
    ensures
        summary_ok(r@, blocks_view(blocks@), 0),
{
    summary_at(blocks, 0)
}


/// Minutes worked leave out every block with a tag whose first level is
/// `break`, wherever that tag stands among the block's tags, and count
/// every other block's minutes from start to end (nothing when the end is
/// not later).
pub proof fn lemma_break_blocks_not_worked(bs: Seq<BlockSpec>, b: BlockSpec, k: int)
    requires
        0 <= k < b.tags.len(),
        b.tags[k].len() > 0,
        b.tags[k][0] == "break"@,
    ensures
        worked(bs.push(b)) == worked(bs),
{
    assert(bs.push(b).drop_last() =~= bs);
    assert(is_break(b));
}

/// A block with no tag whose first level is `break` adds its minutes, from
/// start to end, to the minutes worked.
pub proof fn lemma_other_blocks_worked(bs: Seq<BlockSpec>, b: BlockSpec)
    requires
        forall|k: int| 0 <= k < b.tags.len() ==> !(b.tags[k].len() > 0 && #[trigger] b.tags[k][0] == "break"@),
    ensures
        worked(bs.push(b)) == worked(bs) + (if b.end.hour * 60 + b.end.minute > b.start.hour * 60 + b.start.minute {
            (b.end.hour * 60 + b.end.minute) - (b.start.hour * 60 + b.start.minute)
        } else {
            0
        }),
{
    assert(bs.push(b).drop_last() =~= bs);
    assert(!is_break(b));
}

} // verus!
