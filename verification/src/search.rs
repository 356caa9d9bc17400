//! Fuzzy search over the file names and headings of a vault.
//!
//! A query is `file_part[#heading_part]`: the file part is matched against
//! vault-relative paths, the heading part against the headings of the
//! files that match. Scores come from `nucleo_matcher`; a level-1 heading
//! gets a small bonus. Results are ranked by total score, then by path.

use vstd::prelude::*;

use nucleo_matcher::pattern::{CaseMatching, Normalization, Pattern};

use crate::markdown::{Heading, HeadingSpec};
use crate::text::{to_chars, trim};

verus! {

/// A parsed query.
#[derive(Debug, Clone, PartialEq, Eq)]
pub struct Query {
    pub file_part: String,
    pub heading_part: Option<String>,
}

impl Default for Query {
    fn default() -> (r: Query)
        ensures
            r.file_part@.len() == 0,
            r.heading_part is None,
    {
        Query { file_part: String::new(), heading_part: None }
    }
}

/// What [`Query::parse`] gives for `s`: split at the first `#`, both sides
/// trimmed, an empty heading part dropped.
pub open spec fn query_parts(s: Seq<char>) -> (Seq<char>, Option<Seq<char>>) {
    let k = crate::text::find_from(s, '#', 0);
    if k < s.len() {
        let h = trim(s.skip(k + 1));
        (trim(s.take(k)), if h.len() > 0 { Some(h) } else { None })
    } else {
        (trim(s), None)
    }
}

impl Query {
    /// Split `input` at its first `#` into a file part and a heading part
    /// (see [`query_parts`]); inner whitespace is kept.
    pub fn parse(input: &str) -> (r: Query)
        ensures
            query_parts(input@) == (r.file_part@, match r.heading_part {
                Some(h) => Some(h@),
                None => None,
            }),
    {
        let cs = to_chars(input);
        let k = crate::text::find_char_from(&cs, '#', 0);
        if k < cs.len() {
            let f = crate::text::trim_vec(&crate::text::slice_vec(&cs, 0, k));
            let h = crate::text::trim_vec(&crate::text::slice_vec(&cs, k + 1, cs.len()));
            proof {
                assert(cs@.subrange(0, k as int) =~= cs@.take(k as int));
                assert(cs@.subrange(k + 1, cs@.len() as int) =~= cs@.skip(k + 1));
            }
            Query {
                file_part: crate::text::string_of_all(&f),
                heading_part: if h.len() > 0 {
                    Some(crate::text::string_of_all(&h))
                } else {
                    None
                },
            }
        } else {
            let f = crate::text::trim_vec(&cs);
            Query { file_part: crate::text::string_of_all(&f), heading_part: None }
        }
    }

    /// The query asks for nothing: no file part and no heading part.
    pub fn is_empty(&self) -> (r: bool)
        ensures
            r == (self.file_part@.len() == 0 && self.heading_part is None),
    {
        self.file_part.as_str().is_empty() && self.heading_part.is_none()
    }
}

/// One ranked result.
#[derive(Debug)]
pub struct Hit {
    /// Path relative to the vault root.
    pub path: String,
    pub file_score: u32,
    pub heading: Option<Heading>,
    pub heading_score: Option<u32>,
    /// The ranking key: file score plus heading score plus the heading's
    /// level bonus, saturating.
    pub total_score: u32,
}

/// Options of a search.
#[derive(Debug, Clone)]
pub struct SearchOptions {
    /// Most hits returned.
    pub limit: usize,
    /// Pair each file with a heading even when the query has no heading
    /// part.
    pub include_headings: bool,
}

impl Default for SearchOptions {
    fn default() -> (r: SearchOptions)
        ensures
            r.limit == 25,
            !r.include_headings,
    {
        SearchOptions { limit: 25, include_headings: false }
    }
}

/// A file of the vault as the search sees it: its vault-relative path and
/// its headings.
#[derive(Debug)]
pub struct SearchFile {
    pub path: String,
    pub headings: Vec<Heading>,
}

// ── scores ───────────────────────────────────────────────────────────────────

/// The score `nucleo_matcher` gives path `hay` for the pattern `pat`
/// (smart normalization, case ignored, path bonuses), if it matches.
pub uninterp spec fn nucleo_path_score(pat: Seq<char>, hay: Seq<char>) -> Option<u32>;

/// The score `nucleo_matcher` gives text `hay` for the pattern `pat`
/// (smart normalization, case ignored, default bonuses), if it matches.
pub uninterp spec fn nucleo_text_score(pat: Seq<char>, hay: Seq<char>) -> Option<u32>;

/// `Pattern::parse(pat, CaseMatching::Ignore, Normalization::Smart)`
/// scored against `hay` by a matcher with `Config::DEFAULT.match_paths()`.
/// The result is named by [`nucleo_path_score`].
#[verifier::external_body]
fn path_score(pat: &str, hay: &str) -> (r: Option<u32>)
    ensures
        r == nucleo_path_score(pat@, hay@),
{
    let mut matcher = nucleo_matcher::Matcher::new(nucleo_matcher::Config::DEFAULT.match_paths());
    let pattern = Pattern::parse(pat, CaseMatching::Ignore, Normalization::Smart);
    let mut buf: Vec<char> = Vec::new();
    pattern.score(nucleo_matcher::Utf32Str::new(hay, &mut buf), &mut matcher)
}

/// `Pattern::parse(pat, CaseMatching::Ignore, Normalization::Smart)`
/// scored against `hay` by a matcher with `Config::DEFAULT`. The result
/// is named by [`nucleo_text_score`].
#[verifier::external_body]
fn text_score(pat: &str, hay: &str) -> (r: Option<u32>)
    ensures
        r == nucleo_text_score(pat@, hay@),
{
    let mut matcher = nucleo_matcher::Matcher::new(nucleo_matcher::Config::DEFAULT);
    let pattern = Pattern::parse(pat, CaseMatching::Ignore, Normalization::Smart);
    let mut buf: Vec<char> = Vec::new();
    pattern.score(nucleo_matcher::Utf32Str::new(hay, &mut buf), &mut matcher)
}

/// Whether `Path::new(a) < Path::new(b)` (component-wise order).
pub uninterp spec fn path_lt(a: Seq<char>, b: Seq<char>) -> bool;

/// `Path` order of two paths. The result is named by [`path_lt`]; the
/// order is a total order, so a path that comes first does not also come
/// after.
#[verifier::external_body]
fn path_less(a: &str, b: &str) -> (r: bool)
    ensures
        r == path_lt(a@, b@),
        r ==> !path_lt(b@, a@),
{
    std::path::Path::new(a) < std::path::Path::new(b)
}

/// The bonus of a heading of level `level`.
pub open spec fn level_bonus(level: u8) -> u32 {
    if level == 1 {
        10
    } else if level == 2 {
        6
    } else if level == 3 {
        3
    } else {
        0
    }
}

fn level_bonus_exec(level: u8) -> (r: u32)
    ensures
        r == level_bonus(level),
{
    match level {
        1 => 10,
        2 => 6,
        3 => 3,
        _ => 0,
    }
}

/// The first heading of `hs[..k]` with the highest score for `pat`, and
/// that score, among those that match.
pub open spec fn best_heading(pat: Seq<char>, hs: Seq<HeadingSpec>, k: int) -> Option<(HeadingSpec, u32)>
    decreases k,
{
    if k <= 0 || k > hs.len() {
        None
    } else {
        let prev = best_heading(pat, hs, k - 1);
        match nucleo_text_score(pat, hs[k - 1].text) {
            Some(s) => match prev {
                Some((h, cur)) => if cur >= s {
                    prev
                } else {
                    Some((hs[k - 1], s))
                },
                None => Some((hs[k - 1], s)),
            },
            None => prev,
        }
    }
}

fn best_heading_match(pat: &str, headings: &Vec<Heading>) -> (r: Option<(Heading, u32)>)
    ensures
        match (r, best_heading(pat@, crate::markdown::headings_view(headings@), headings@.len() as int)) {
            (Some((h, s)), Some((h2, s2))) => h@ == h2 && s == s2,
            (None, None) => true,
            _ => false,
        },
{
    let ghost hv = crate::markdown::headings_view(headings@);
    let mut best: Option<(Heading, u32)> = None;
    let mut i: usize = 0;
    while i < headings.len()
        invariant
            i <= headings@.len() == hv.len(),
            hv == crate::markdown::headings_view(headings@),
            match (best, best_heading(pat@, hv, i as int)) {
                (Some((h, s)), Some((h2, s2))) => h@ == h2 && s == s2,
                (None, None) => true,
                _ => false,
            },
        decreases headings@.len() - i,
    {
        let h = &headings[i];
        proof {
            assert(hv[i as int] == h@);
        }
        match text_score(pat, h.text.as_str()) {
            Some(score) => {
                let replace = match &best {
                    Some((_, cur)) => *cur < score,
                    None => true,
                };
                if replace {
                    best = Some((h.copy(), score));
                }
            },
            None => {},
        }
        i += 1;
    }
    best
}

// ── ranking ──────────────────────────────────────────────────────────────────

/// The values of a hit that ranking reads.
pub struct HitSpec {
    pub path: Seq<char>,
    pub file_score: u32,
    pub heading: Option<HeadingSpec>,
    pub heading_score: Option<u32>,
    pub total_score: u32,
}

pub open spec fn hit_view(h: Hit) -> HitSpec {
    HitSpec {
        path: h.path@,
        file_score: h.file_score,
        heading: match h.heading {
            Some(x) => Some(x@),
            None => None,
        },
        heading_score: h.heading_score,
        total_score: h.total_score,
    }
}

pub open spec fn hits_view(v: Seq<Hit>) -> Seq<HitSpec> {
    v.map_values(|h: Hit| hit_view(h))
}

/// `a` ranks before `b`: a higher total score, or an equal one and an
/// earlier path.
pub open spec fn ranks_before(a: HitSpec, b: HitSpec) -> bool {
    a.total_score > b.total_score || (a.total_score == b.total_score && path_lt(a.path, b.path))
}

/// Where a stable insertion puts `x` into the ranked `s`.
pub open spec fn rank_pos(s: Seq<HitSpec>, x: HitSpec) -> nat
    decreases s.len(),
{
    if s.len() == 0 {
        0
    } else if ranks_before(x, s.last()) {
        rank_pos(s.drop_last(), x)
    } else {
        s.len()
    }
}

/// `s` stably sorted by rank.
pub open spec fn ranked(s: Seq<HitSpec>) -> Seq<HitSpec>
    decreases s.len(),
{
    if s.len() == 0 {
        Seq::empty()
    } else {
        let r = ranked(s.drop_last());
        r.insert(rank_pos(r, s.last()) as int, s.last())
    }
}

proof fn lemma_rank_pos(s: Seq<HitSpec>, x: HitSpec)
    ensures
        rank_pos(s, x) <= s.len(),
    decreases s.len(),
{
    if s.len() > 0 && ranks_before(x, s.last()) {
        lemma_rank_pos(s.drop_last(), x);
    }
}

proof fn lemma_ranked_len(s: Seq<HitSpec>)
    ensures
        ranked(s).len() == s.len(),
    decreases s.len(),
{
    if s.len() > 0 {
        lemma_ranked_len(s.drop_last());
        lemma_rank_pos(ranked(s.drop_last()), s.last());
    }
}

/// The first `limit` hits of `s` ranked.
pub open spec fn top(s: Seq<HitSpec>, limit: usize) -> Seq<HitSpec> {
    let r = ranked(s);
    if limit < r.len() {
        r.take(limit as int)
    } else {
        r
    }
}

/// `s` is in rank order: total scores never rise, and no hit ranks
/// before the one just ahead of it (a tie is broken by path).
pub open spec fn in_rank_order(s: Seq<HitSpec>) -> bool {
    &&& forall|i: int, j: int| 0 <= i < j < s.len() ==> (#[trigger] s[i]).total_score >= (#[trigger] s[j]).total_score
    &&& forall|i: int| 0 <= i < s.len() - 1 ==> !ranks_before(s[i + 1], #[trigger] s[i])
}

fn hit_ranks_before(a: &Hit, b: &Hit) -> (r: bool)
    ensures
        r == ranks_before(hit_view(*a), hit_view(*b)),
        r ==> !ranks_before(hit_view(*b), hit_view(*a)),
{
    a.total_score > b.total_score || (a.total_score == b.total_score && path_less(a.path.as_str(), b.path.as_str()))
}

/// Inserting `xv` where a stable insertion puts it keeps rank order.
proof fn lemma_insert_rank_order(sorted: Seq<HitSpec>, p: int, xv: HitSpec)
    requires
        0 <= p <= sorted.len(),
        in_rank_order(sorted),
        p > 0 ==> !ranks_before(xv, sorted[p - 1]),
        forall|q: int| p <= q < sorted.len() ==> ranks_before(xv, #[trigger] sorted[q]),
        p < sorted.len() ==> !ranks_before(sorted[p], xv),
    ensures
        in_rank_order(sorted.insert(p, xv)),
{
    let t = sorted.insert(p, xv);
    assert forall|a: int, b: int| 0 <= a < b < t.len() implies (#[trigger] t[a]).total_score >= (#[trigger] t[b]).total_score by {
        if b < p {
            assert(t[a] == sorted[a] && t[b] == sorted[b]);
        } else if b == p {
            assert(t[a] == sorted[a] && t[b] == xv);
            assert(sorted[a].total_score >= sorted[p - 1].total_score);
        } else if a < p {
            assert(t[a] == sorted[a] && t[b] == sorted[b - 1]);
        } else if a == p {
            assert(t[a] == xv && t[b] == sorted[b - 1]);
            assert(ranks_before(xv, sorted[b - 1]));
        } else {
            assert(t[a] == sorted[a - 1] && t[b] == sorted[b - 1]);
        }
    }
    assert forall|a: int| 0 <= a < t.len() - 1 implies !ranks_before(t[a + 1], #[trigger] t[a]) by {
        if a + 1 < p {
            assert(t[a] == sorted[a] && t[a + 1] == sorted[a + 1]);
        } else if a + 1 == p {
            assert(t[a] == sorted[a] && t[a + 1] == xv);
        } else if a == p {
            assert(t[a] == xv && t[a + 1] == sorted[a]);
        } else {
            assert(t[a] == sorted[a - 1] && t[a + 1] == sorted[a]);
        }
    }
}

/// Rank `hits` (see [`ranked`]) and keep the first `limit`.
fn rank_and_truncate(hits: Vec<Hit>, limit: usize) -> (r: Vec<Hit>)
    ensures
        hits_view(r@) == top(hits_view(hits@), limit),
        in_rank_order(hits_view(r@)),
{
    let ghost hv = hits_view(hits@);
    let mut out: Vec<Hit> = Vec::new();
    let mut rest = hits;
    let ghost orig = rest@;
    let n = rest.len();
    let mut i: usize = 0;
    proof {
        assert(hv.take(0) =~= Seq::<HitSpec>::empty());
        assert(hits_view(out@) =~= Seq::<HitSpec>::empty());
    }
    while i < n
        invariant
            i <= n == orig.len() == hv.len(),
            hv == hits_view(orig),
            rest@.len() == n - i,
            forall|j: int| 0 <= j < rest@.len() ==> #[trigger] rest@[j] == orig[i + j],
            hits_view(out@) == ranked(hv.take(i as int)),
            in_rank_order(hits_view(out@)),
        decreases n - i,
    {
        let x = rest.remove(0);
        proof {
            assert(x == orig[i as int]);
            assert(hit_view(x) == hv[i as int]);
            assert forall|j: int| 0 <= j < rest@.len() implies #[trigger] rest@[j] == orig[(i + 1) + j] by {}
        }
        let ghost sorted = hits_view(out@);
        let mut p = out.len();
        proof {
            assert(sorted.take(p as int) =~= sorted);
        }
        while p > 0 && hit_ranks_before(&x, &out[p - 1])
            invariant
                p <= out@.len(),
                sorted == hits_view(out@),
                rank_pos(sorted, hit_view(x)) == rank_pos(sorted.take(p as int), hit_view(x)),
                forall|q: int| p <= q < sorted.len() ==> ranks_before(hit_view(x), #[trigger] sorted[q]),
                p < sorted.len() ==> !ranks_before(sorted[p as int], hit_view(x)),
            decreases p,
        {
            proof {
                assert(sorted.take(p as int).drop_last() =~= sorted.take(p - 1));
                assert(sorted[p - 1] == hit_view(out@[p - 1]));
            }
            p -= 1;
        }
        proof {
            if p > 0 {
                assert(sorted[p - 1] == hit_view(out@[p - 1]));
                assert(sorted.take(p as int).last() == sorted[p - 1]);
            }
            assert(rank_pos(sorted, hit_view(x)) == p);
            assert(hv.take(i + 1).drop_last() =~= hv.take(i as int));
            assert(hv.take(i + 1).last() == hit_view(x));
        }
        out.insert(p, x);
        proof {
            assert(hits_view(out@) =~= sorted.insert(p as int, hit_view(x)));
            if p > 0 {
                assert(!ranks_before(hit_view(x), sorted[p - 1]));
            }
            lemma_insert_rank_order(sorted, p as int, hit_view(x));
        }
        i += 1;
    }
    proof {
        assert(hv.take(i as int) =~= hv);
        lemma_ranked_len(hv);
    }
    if limit < out.len() {
        let ghost full = hits_view(out@);
        out.truncate(limit);
        proof {
            assert(hits_view(out@) =~= ranked(hv).take(limit as int));
            assert(hits_view(out@) =~= full.take(limit as int));
            assert forall|a: int| 0 <= a < hits_view(out@).len() - 1 implies !ranks_before(
                hits_view(out@)[a + 1],
                #[trigger] hits_view(out@)[a],
            ) by {
                assert(hits_view(out@)[a] == full[a]);
                assert(hits_view(out@)[a + 1] == full[a + 1]);
            }
        }
    }
    out
}

// ── the search ───────────────────────────────────────────────────────────────

/// `a + b`, or `u32::MAX` when that overflows.
pub open spec fn sat_add(a: u32, b: u32) -> u32 {
    if a + b > u32::MAX {
        u32::MAX
    } else {
        (a + b) as u32
    }
}

/// The values of a file the search reads.
pub struct SearchFileSpec {
    pub path: Seq<char>,
    pub headings: Seq<HeadingSpec>,
}

pub open spec fn files_view(v: Seq<SearchFile>) -> Seq<SearchFileSpec> {
    v.map_values(|f: SearchFile| SearchFileSpec { path: f.path@, headings: crate::markdown::headings_view(f.headings@) })
}

/// The hit for file `f` with file score `fs`: with a heading pattern, the
/// best-scoring heading (no hit when none matches); without one, the
/// first heading, scored 0, if any.
pub open spec fn heading_hit(f: SearchFileSpec, fs: u32, pat: Option<Seq<char>>) -> Option<HitSpec> {
    let best = match pat {
        Some(p) => best_heading(p, f.headings, f.headings.len() as int),
        None => if f.headings.len() > 0 {
            Some((f.headings[0], 0u32))
        } else {
            None
        },
    };
    if pat is Some && best is None {
        None
    } else {
        match best {
            Some((h, hs)) => Some(
                HitSpec {
                    path: f.path,
                    file_score: fs,
                    heading: Some(h),
                    heading_score: Some(hs),
                    total_score: sat_add(sat_add(fs, hs), level_bonus(h.level)),
                },
            ),
            None => Some(
                HitSpec { path: f.path, file_score: fs, heading: None, heading_score: None, total_score: fs },
            ),
        }
    }
}

/// The hits of `files[..k]`, before ranking: files whose path matches the
/// file part (every file, scored 0, when it is empty), each with its
/// heading when headings are wanted.
pub open spec fn raw_hits(
    files: Seq<SearchFileSpec>,
    fp: Seq<char>,
    want: bool,
    pat: Option<Seq<char>>,
    k: int,
) -> Seq<HitSpec>
    decreases k,
{
    if k <= 0 || k > files.len() {
        Seq::empty()
    } else {
        let prev = raw_hits(files, fp, want, pat, k - 1);
        let f = files[k - 1];
        let fs = if fp.len() == 0 {
            Some(0u32)
        } else {
            nucleo_path_score(fp, f.path)
        };
        match fs {
            None => prev,
            Some(s) => if !want {
                prev.push(
                    HitSpec { path: f.path, file_score: s, heading: None, heading_score: None, total_score: s },
                )
            } else {
                match heading_hit(f, s, pat) {
                    Some(h) => prev.push(h),
                    None => prev,
                }
            },
        }
    }
}

/// What [`fuzzy_find`] returns: nothing for an empty query; otherwise the
/// hits of every file (see [`raw_hits`]), headings wanted when asked for
/// or when the query has a heading part, ranked, the first `limit`.
pub open spec fn search_result(
    files: Seq<SearchFileSpec>,
    fp: Seq<char>,
    hp: Option<Seq<char>>,
    include_headings: bool,
    limit: usize,
) -> Seq<HitSpec> {
    if fp.len() == 0 && hp is None {
        Seq::empty()
    } else {
        let want = include_headings || hp is Some;
        let pat = match hp {
            Some(h) => if h.len() > 0 {
                Some(h)
            } else {
                None
            },
            None => None,
        };
        top(raw_hits(files, fp, want, pat, files.len() as int), limit)
    }
}

fn heading_hit_exec(f: &SearchFile, fs: u32, pat: &Option<String>) -> (r: Option<Hit>)
    ensures
        match (r, heading_hit(files_view(seq![*f])[0], fs, match *pat {
            Some(p) => Some(p@),
            None => None,
        })) {
            (Some(h), Some(h2)) => hit_view(h) == h2,
            (None, None) => true,
            _ => false,
        },
{
    let ghost fv = files_view(seq![*f])[0];
    let best: Option<(Heading, u32)> = match pat {
        Some(p) => best_heading_match(p.as_str(), &f.headings),
        None => if f.headings.len() > 0 {
            proof {
                assert(fv.headings[0] == f.headings@[0]@);
            }
            Some((f.headings[0].copy(), 0u32))
        } else {
            None
        },
    };
    if pat.is_some() && best.is_none() {
        return None;
    }
    match best {
        Some((h, hs)) => {
            let t1 = fs.saturating_add(hs);
            let total = t1.saturating_add(level_bonus_exec(h.level));
            Some(
                Hit {
                    path: f.path.clone(),
                    file_score: fs,
                    heading: Some(h),
                    heading_score: Some(hs),
                    total_score: total,
                },
            )
        },
        None => Some(Hit { path: f.path.clone(), file_score: fs, heading: None, heading_score: None, total_score: fs }),
    }
}

/// Search `files` (vault-relative paths and their headings) for `query`,
/// rank the hits and keep the first `opts.limit` (see [`search_result`]).
/// The hits come in rank order: scores never rise, and of two neighbours
/// with one score the later path never comes first.
pub fn fuzzy_find(files: &Vec<SearchFile>, query: &Query, opts: SearchOptions) -> (r: Vec<Hit>)
    ensures
        in_rank_order(hits_view(r@)),
        hits_view(r@) == search_result(
            files_view(files@),
            query.file_part@,
            match query.heading_part {
                Some(h) => Some(h@),
                None => None,
            },
            opts.include_headings,
            opts.limit,
        ),
{
    if query.is_empty() {
        return Vec::new();
    }
    let ghost fv = files_view(files@);
    let want = opts.include_headings || query.heading_part.is_some();
    let pat: Option<String> = match &query.heading_part {
        Some(h) => if h.as_str().is_empty() {
            None
        } else {
            Some(h.clone())
        },
        None => None,
    };
    let ghost patv = crate::task::opt_view(pat);
    let fp_empty = query.file_part.as_str().is_empty();
    let mut hits: Vec<Hit> = Vec::new();
    let mut i: usize = 0;
    proof {
        assert(hits_view(hits@) =~= Seq::<HitSpec>::empty());
    }
    while i < files.len()
        invariant
            i <= files@.len() == fv.len(),
            fv == files_view(files@),
            want == (opts.include_headings || query.heading_part is Some),
            fp_empty == (query.file_part@.len() == 0),
            patv == crate::task::opt_view(pat),
            hits_view(hits@) == raw_hits(fv, query.file_part@, want, patv, i as int),
        decreases files@.len() - i,
    {
        let f = &files[i];
        proof {
            assert(fv[i as int] == files_view(seq![*f])[0]);
        }
        let fs: Option<u32> = if fp_empty {
            Some(0)
        } else {
            path_score(query.file_part.as_str(), f.path.as_str())
        };
        match fs {
            None => {},
            Some(s) => {
                if !want {
                    let h = Hit { path: f.path.clone(), file_score: s, heading: None, heading_score: None, total_score: s };
                    let ghost prev = hits@;
                    hits.push(h);
                    proof {
                        assert(hits_view(hits@) =~= hits_view(prev).push(hit_view(h)));
                    }
                } else {
                    match heading_hit_exec(f, s, &pat) {
                        Some(h) => {
                            let ghost prev = hits@;
                            hits.push(h);
                            proof {
                                assert(hits_view(hits@) =~= hits_view(prev).push(hit_view(h)));
                            }
                        },
                        None => {},
                    }
                }
            },
        }
        i += 1;
    }
    rank_and_truncate(hits, opts.limit)
}

// ── recently opened files ────────────────────────────────────────────────────

/// `a` comes before `b` in the tail of the picker list: newer, or as new
/// and an earlier path.
pub open spec fn newer_before(a: (Seq<char>, i128), b: (Seq<char>, i128)) -> bool {
    a.1 > b.1 || (a.1 == b.1 && path_lt(a.0, b.0))
}

pub open spec fn newer_pos(s: Seq<(Seq<char>, i128)>, x: (Seq<char>, i128)) -> nat
    decreases s.len(),
{
    if s.len() == 0 {
        0
    } else if newer_before(x, s.last()) {
        newer_pos(s.drop_last(), x)
    } else {
        s.len()
    }
}

/// `s` stably sorted newest first, then by path.
pub open spec fn by_mtime(s: Seq<(Seq<char>, i128)>) -> Seq<(Seq<char>, i128)>
    decreases s.len(),
{
    if s.len() == 0 {
        Seq::empty()
    } else {
        let r = by_mtime(s.drop_last());
        r.insert(newer_pos(r, s.last()) as int, s.last())
    }
}

/// The files of `files` whose path equals (as a path) none of `taken`, in order.
pub open spec fn not_taken(files: Seq<(Seq<char>, i128)>, taken: Seq<Seq<char>>) -> Seq<(Seq<char>, i128)>
    decreases files.len(),
{
    if files.len() == 0 {
        Seq::empty()
    } else {
        let prev = not_taken(files.drop_last(), taken);
        if crate::selector::has_path(taken, files.last().0) {
            prev
        } else {
            prev.push(files.last())
        }
    }
}

/// The paths of `files`.
pub open spec fn file_paths(files: Seq<(Seq<char>, i128)>) -> Seq<Seq<char>> {
    files.map_values(|f: (Seq<char>, i128)| f.0)
}

/// Walking `opens[k..]`, the paths that equal (as paths) a file of the vault and none yet
/// in `acc`, appended until `acc` holds `limit`.
pub open spec fn opens_from(opens: Seq<Seq<char>>, files: Seq<Seq<char>>, k: int, acc: Seq<Seq<char>>, limit: nat) -> Seq<Seq<char>>
    decreases opens.len() - k,
{
    if k < 0 || k >= opens.len() || acc.len() >= limit {
        acc
    } else if crate::selector::has_path(files, opens[k]) && !crate::selector::has_path(acc, opens[k]) {
        opens_from(opens, files, k + 1, acc.push(opens[k]), limit)
    } else {
        opens_from(opens, files, k + 1, acc, limit)
    }
}

/// The picker list for an empty query: up to `limit` paths, first the
/// recently opened ones still in the vault (most recent first), then the
/// other files newest first.
pub open spec fn recent_list(
    files: Seq<(Seq<char>, i128)>,
    entries: Seq<Seq<char>>,
    limit: usize,
) -> Seq<Seq<char>> {
    if limit == 0 {
        Seq::empty()
    } else {
        let twice = if limit * 2 > usize::MAX { usize::MAX as nat } else { (limit * 2) as nat };
        let opens = crate::recents::recent_unique(entries, twice);
        let first = opens_from(opens, file_paths(files), 0, Seq::empty(), limit as nat);
        let tail = file_paths(by_mtime(not_taken(files, first)));
        let all = first + tail;
        if all.len() > limit {
            all.take(limit as int)
        } else {
            all
        }
    }
}

fn contains_path(v: &Vec<String>, p: &String) -> (r: bool)
    ensures
        r == crate::selector::has_path(crate::task::strings_view(v@), p@),
{
    let mut i: usize = 0;
    while i < v.len()
        invariant
            i <= v@.len(),
            forall|j: int| 0 <= j < i ==> !crate::selector::same_path(#[trigger] v@[j]@, p@),
        decreases v@.len() - i,
    {
        if crate::selector::path_eq(v[i].as_str(), p.as_str()) {
            proof {
                assert(crate::task::strings_view(v@)[i as int] == v@[i as int]@);
            }
            return true;
        }
        i += 1;
    }
    proof {
        assert forall|j: int| 0 <= j < crate::task::strings_view(v@).len() implies !crate::selector::same_path(
            #[trigger] crate::task::strings_view(v@)[j],
            p@,
        ) by {
            assert(crate::task::strings_view(v@)[j] == v@[j]@);
        }
    }
    false
}

pub open spec fn files_spec(files: Seq<(String, i128)>) -> Seq<(Seq<char>, i128)> {
    files.map_values(|f: (String, i128)| (f.0@, f.1))
}

fn files_contain(files: &Vec<(String, i128)>, p: &String) -> (r: bool)
    ensures
        r == crate::selector::has_path(file_paths(files_spec(files@)), p@),
{
    let ghost fp = file_paths(files_spec(files@));
    let mut i: usize = 0;
    while i < files.len()
        invariant
            i <= files@.len() == fp.len(),
            fp == file_paths(files_spec(files@)),
            forall|j: int| 0 <= j < i ==> !crate::selector::same_path(#[trigger] fp[j], p@),
        decreases files@.len() - i,
    {
        proof {
            assert(fp[i as int] == files@[i as int].0@);
        }
        if crate::selector::path_eq(files[i].0.as_str(), p.as_str()) {
            return true;
        }
        i += 1;
    }
    false
}

fn recent_hit(path: String) -> (r: Hit)
    ensures
        hit_view(r) == (HitSpec { path: path@, file_score: 0, heading: None, heading_score: None, total_score: 0 }),
{
    Hit { path, file_score: 0, heading: None, heading_score: None, total_score: 0 }
}

/// The paths of a list of zero-scored hits.
pub open spec fn hit_paths(v: Seq<HitSpec>) -> Seq<Seq<char>> {
    v.map_values(|h: HitSpec| h.path)
}

/// The picker list for an empty query (see [`recent_list`]): `files` are
/// the vault's markdown files (vault-relative) with their modification
/// times, `entries` the open events of `recents`' log, oldest first. Every
/// hit has zero scores and no heading.
pub fn recent_hits(
    files: &Vec<(String, i128)>,
    recents: &crate::recents::RecentsLog,
    entries: &Vec<String>,
    limit: usize,
) -> (r: Vec<Hit>)
    ensures
        hit_paths(hits_view(r@)) == recent_list(files_spec(files@), crate::task::strings_view(entries@), limit),
        forall|k: int| 0 <= k < r@.len() ==> (#[trigger] r@[k]).file_score == 0 && r@[k].total_score == 0
            && r@[k].heading is None && r@[k].heading_score is None,
{
    let mut out: Vec<Hit> = Vec::new();
    if limit == 0 {
        proof {
            assert(hit_paths(hits_view(out@)) =~= Seq::<Seq<char>>::empty());
        }
        return out;
    }
    let twice: usize = if limit > usize::MAX / 2 {
        usize::MAX
    } else {
        limit * 2
    };
    let opens = recents.load_recent(twice, entries);
    let ghost ov = crate::task::strings_view(opens@);
    let ghost fv = files_spec(files@);
    let mut seen: Vec<String> = Vec::new();
    let mut k: usize = 0;
    let ghost whole = opens_from(ov, file_paths(fv), 0, Seq::empty(), limit as nat);
    proof {
        assert(crate::task::strings_view(seen@) =~= Seq::<Seq<char>>::empty());
        assert(hit_paths(hits_view(out@)) =~= Seq::<Seq<char>>::empty());
    }
    while k < opens.len() && out.len() < limit
        invariant
            k <= opens@.len() == ov.len(),
            ov == crate::task::strings_view(opens@),
            fv == files_spec(files@),
            limit > 0,
            hit_paths(hits_view(out@)) == crate::task::strings_view(seen@),
            out@.len() <= limit,
            whole == opens_from(ov, file_paths(fv), k as int, crate::task::strings_view(seen@), limit as nat),
            forall|j: int| 0 <= j < out@.len() ==> (#[trigger] out@[j]).file_score == 0 && out@[j].total_score == 0
                && out@[j].heading is None && out@[j].heading_score is None,
        decreases opens@.len() - k,
    {
        let p = &opens[k];
        proof {
            assert(ov[k as int] == p@);
        }
        if files_contain(files, p) && !contains_path(&seen, p) {
            let ghost prev_s = seen@;
            let ghost prev_o = out@;
            seen.push(p.clone());
            out.push(recent_hit(p.clone()));
            proof {
                assert(crate::task::strings_view(seen@) =~= crate::task::strings_view(prev_s).push(p@));
                assert(hits_view(out@) =~= hits_view(prev_o).push(hit_view(out@.last())));
                assert(hit_paths(hits_view(out@)) =~= hit_paths(hits_view(prev_o)).push(p@));
            }
        }
        k += 1;
    }
    proof {
        assert(whole == crate::task::strings_view(seen@));
    }
    // the other files, newest first
    let ghost first = crate::task::strings_view(seen@);
    let mut tail: Vec<(String, i128)> = Vec::new();
    let mut i: usize = 0;
    proof {
        assert(not_taken(fv.take(0), first) =~= Seq::<(Seq<char>, i128)>::empty());
        assert(by_mtime(Seq::<(Seq<char>, i128)>::empty()) =~= files_spec(tail@));
    }
    while i < files.len()
        invariant
            i <= files@.len() == fv.len(),
            fv == files_spec(files@),
            first == crate::task::strings_view(seen@),
            files_spec(tail@) == by_mtime(not_taken(fv.take(i as int), first)),
        decreases files@.len() - i,
    {
        proof {
            assert(fv.take(i + 1).drop_last() =~= fv.take(i as int));
            assert(fv.take(i + 1).last() == fv[i as int]);
            assert(fv[i as int] == (files@[i as int].0@, files@[i as int].1));
        }
        let taken = contains_path(&seen, &files[i].0);
        proof {
            let nt = not_taken(fv.take(i + 1), first);
            assert(fv.take(i + 1).last().0 == files@[i as int].0@);
            if taken {
                assert(nt == not_taken(fv.take(i as int), first));
            } else {
                assert(nt == not_taken(fv.take(i as int), first).push(fv[i as int]));
                assert(nt.drop_last() =~= not_taken(fv.take(i as int), first));
            }
        }
        if !taken {
            let x = (files[i].0.clone(), files[i].1);
            let ghost sorted = files_spec(tail@);
            let mut p = tail.len();
            proof {
                assert(sorted.take(p as int) =~= sorted);
            }
            while p > 0 && (x.1 > tail[p - 1].1 || (x.1 == tail[p - 1].1 && path_less(x.0.as_str(), tail[p - 1].0.as_str())))
                invariant
                    p <= tail@.len(),
                    sorted == files_spec(tail@),
                    newer_pos(sorted, (x.0@, x.1)) == newer_pos(sorted.take(p as int), (x.0@, x.1)),
                decreases p,
            {
                proof {
                    assert(sorted.take(p as int).drop_last() =~= sorted.take(p - 1));
                    assert(sorted[p - 1] == (tail@[p - 1].0@, tail@[p - 1].1));
                }
                p -= 1;
            }
            proof {
                if p > 0 {
                    assert(sorted[p - 1] == (tail@[p - 1].0@, tail@[p - 1].1));
                    assert(sorted.take(p as int).last() == sorted[p - 1]);
                }
                assert(newer_pos(sorted, (x.0@, x.1)) == p);
            }
            tail.insert(p, x);
            proof {
                assert(files_spec(tail@) =~= sorted.insert(p as int, (x.0@, x.1)));
            }
        }
        i += 1;
    }
    proof {
        assert(fv.take(i as int) =~= fv);
    }
    let ghost tl = file_paths(files_spec(tail@));
    let mut j: usize = 0;
    let ghost base = hit_paths(hits_view(out@));
    proof {
        assert(tl.take(0) =~= Seq::<Seq<char>>::empty());
        assert(base + tl.take(0) =~= base);
    }
    while j < tail.len() && out.len() < limit
        invariant
            j <= tail@.len() == tl.len(),
            tl == file_paths(files_spec(tail@)),
            hit_paths(hits_view(out@)) == base + tl.take(j as int),
            out@.len() <= limit,
            base.len() + j == out@.len(),
            forall|q: int| 0 <= q < out@.len() ==> (#[trigger] out@[q]).file_score == 0 && out@[q].total_score == 0
                && out@[q].heading is None && out@[q].heading_score is None,
        decreases tail@.len() - j,
    {
        let ghost prev_o = out@;
        let h = recent_hit(tail[j].0.clone());
        proof {
            assert(tl[j as int] == tail@[j as int].0@);
            assert(hit_view(h).path == tl[j as int]);
        }
        out.push(h);
        proof {
            assert(hits_view(out@) =~= hits_view(prev_o).push(hit_view(h)));
            assert(hit_paths(hits_view(prev_o).push(hit_view(h))) =~= hit_paths(hits_view(prev_o)).push(tl[j as int]));
            assert((base + tl.take(j as int)).push(tl[j as int]) =~= base + tl.take(j + 1));
        }
        j += 1;
    }
    proof {
        let all = base + tl;
        if out@.len() < limit {
            assert(tl.take(j as int) =~= tl);
            assert(hit_paths(hits_view(out@)) =~= all);
        } else {
            assert(hit_paths(hits_view(out@)) =~= all.take(limit as int));
        }
    }
    out
}


// ── laws of the query language ───────────────────────────────────────────────

/// A trailing `#` changes nothing: `text#` is read as `text`, so typing a
/// heading separator never surfaces a different result mid-keystroke.
pub proof fn lemma_trailing_hash_is_noop(s: Seq<char>)
    requires
        forall|i: int| 0 <= i < s.len() ==> s[i] != '#',
    ensures
        query_parts(s + seq!['#']) == query_parts(s),
{
    let t = s + seq!['#'];
    crate::text::lemma_find_from_bounds(s, '#', 0);
    crate::text::lemma_find_from_bounds(t, '#', 0);
    let k = crate::text::find_from(t, '#', 0);
    assert(t[s.len() as int] == '#');
    if k > s.len() {
        assert(t[s.len() as int] != '#');
    }
    if k < s.len() {
        assert(t[k] == s[k]);
    }
    assert(k == s.len());
    assert(t.take(k) =~= s);
    assert(t.skip(k + 1) =~= Seq::<char>::empty());
    assert(trim(Seq::<char>::empty()) =~= Seq::<char>::empty());
}

/// An empty query finds nothing, whatever the files and options.
pub proof fn lemma_empty_query_finds_nothing(files: Seq<SearchFileSpec>, include_headings: bool, limit: usize)
    ensures
        search_result(files, query_parts(Seq::empty()).0, query_parts(Seq::empty()).1, include_headings, limit).len() == 0,
{
    assert(trim(Seq::<char>::empty()) =~= Seq::<char>::empty());
}

} // verus!
