//! Link target resolution, as Obsidian does it by default.
//!
//! - A wikilink target with `/` is a vault-relative path: it resolves to
//!   the note at that path, or at that path plus `.md` when it has no
//!   extension.
//! - A wikilink target without `/` is a title (file stem): among the notes
//!   with that stem the one with the fewest path names wins, ties broken
//!   by the smaller path.
//! - A markdown href is read relative to the linker's directory, `.` and
//!   `..` collapsed, then looked up as a path.
//!
//! The notes of the vault are given as their vault-relative paths; a
//! resolved link names the index of its note.

use vstd::prelude::*;

use crate::graph::paths::{file_stem, file_stem_exec, has_extension, has_extension_exec, join_slash, segs};
use crate::selector::{path_eq, same_path};
use crate::text::{str_lt, trim};

verus! {

/// Where a link leads.
#[derive(Debug)]
pub enum Resolution {
    /// The note at this index of the vault's notes.
    Resolved(usize),
    /// No note; the key names the missing target (the trimmed wikilink
    /// target, or the normalized path of a markdown href).
    Unresolved(String),
    /// An empty target.
    NotALink,
}

/// Mathematical value of a [`Resolution`].
pub enum ResolutionSpec {
    Resolved(nat),
    Unresolved(Seq<char>),
    NotALink,
}

pub open spec fn resolution_view(r: Resolution) -> ResolutionSpec {
    match r {
        Resolution::Resolved(i) => ResolutionSpec::Resolved(i as nat),
        Resolution::Unresolved(k) => ResolutionSpec::Unresolved(k@),
        Resolution::NotALink => ResolutionSpec::NotALink,
    }
}

/// The index of the first of `notes[k..]` that is path `p`.
pub open spec fn find_path(notes: Seq<Seq<char>>, p: Seq<char>, k: int) -> Option<nat>
    decreases notes.len() - k,
{
    if k < 0 || k >= notes.len() {
        None
    } else if same_path(notes[k], p) {
        Some(k as nat)
    } else {
        find_path(notes, p, k + 1)
    }
}

/// The note at path `p`, or, when `p` has no extension, at `p` + `.md`.
pub open spec fn lookup_md(notes: Seq<Seq<char>>, p: Seq<char>) -> Option<nat> {
    match find_path(notes, p, 0) {
        Some(i) => Some(i),
        None => if !has_extension(p) {
            find_path(notes, p + ".md"@, 0)
        } else {
            None
        },
    }
}

/// The number of names of path `p`.
pub open spec fn depth(p: Seq<char>) -> nat {
    segs(p).len()
}

/// Walking `notes[k..]`, the best note titled `t` so far: fewer names win,
/// then the smaller path; the first of equals stays.
pub open spec fn best_titled(notes: Seq<Seq<char>>, t: Seq<char>, k: int, best: Option<nat>) -> Option<nat>
    decreases notes.len() - k,
{
    if k < 0 || k >= notes.len() {
        best
    } else if file_stem(notes[k]) == Some(t) {
        let better = match best {
            None => true,
            Some(b) => depth(notes[k]) < depth(notes[b as int]) || (depth(notes[k]) == depth(notes[b as int])
                && str_lt(notes[k], notes[b as int])),
        };
        best_titled(notes, t, k + 1, if better { Some(k as nat) } else { best })
    } else {
        best_titled(notes, t, k + 1, best)
    }
}

/// `s` holds a `'/'`.
pub open spec fn has_slash(s: Seq<char>) -> bool {
    exists|i: int| 0 <= i < s.len() && s[i] == '/'
}

/// Where wikilink target `target` leads among `notes`.
pub open spec fn wiki_resolution(target: Seq<char>, notes: Seq<Seq<char>>) -> ResolutionSpec {
    let t = trim(target);
    if t.len() == 0 {
        ResolutionSpec::NotALink
    } else if has_slash(t) {
        match lookup_md(notes, t) {
            Some(i) => ResolutionSpec::Resolved(i),
            None => ResolutionSpec::Unresolved(t),
        }
    } else {
        match best_titled(notes, t, 0, None) {
            Some(i) => ResolutionSpec::Resolved(i),
            None => ResolutionSpec::Unresolved(t),
        }
    }
}

fn find_path_exec(notes: &Vec<String>, p: &str) -> (r: Option<usize>)
    ensures
        match r {
            Some(i) => find_path(notes@.map_values(|s: String| s@), p@, 0) == Some(i as nat) && i < notes@.len(),
            None => find_path(notes@.map_values(|s: String| s@), p@, 0) is None,
        },
{
    let ghost nv = notes@.map_values(|s: String| s@);
    let mut k: usize = 0;
    while k < notes.len()
        invariant
            k <= notes@.len() == nv.len(),
            nv == notes@.map_values(|s: String| s@),
            find_path(nv, p@, 0) == find_path(nv, p@, k as int),
        decreases notes@.len() - k,
    {
        proof {
            assert(nv[k as int] == notes@[k as int]@);
        }
        if path_eq(notes[k].as_str(), p) {
            return Some(k);
        }
        k += 1;
    }
    None
}

fn lookup_md_exec(notes: &Vec<String>, p: &str) -> (r: Option<usize>)
    ensures
        match r {
            Some(i) => lookup_md(notes@.map_values(|s: String| s@), p@) == Some(i as nat) && i < notes@.len(),
            None => lookup_md(notes@.map_values(|s: String| s@), p@) is None,
        },
{
    match find_path_exec(notes, p) {
        Some(i) => Some(i),
        None => {
            if !has_extension_exec(p) {
                let q = crate::text::concat2(p, ".md");
                find_path_exec(notes, q.as_str())
            } else {
                None
            }
        },
    }
}

fn depth_exec(p: &str) -> (r: usize)
    ensures
        r == depth(p@),
{
    let ss = crate::graph::paths::path_segments(p);
    ss.len()
}

/// Resolve a wikilink target against the vault's note paths (see
/// [`wiki_resolution`]).
pub fn resolve_wiki(target: &str, note_paths: &Vec<String>) -> (r: Resolution)
    ensures
        resolution_view(r) == wiki_resolution(target@, note_paths@.map_values(|s: String| s@)),
{
    let ghost nv = note_paths@.map_values(|s: String| s@);
    let tc = crate::text::to_chars(target);
    let tv = crate::text::trim_vec(&tc);
    let t = crate::text::string_of_all(&tv);
    if t.as_str().is_empty() {
        return Resolution::NotALink;
    }
    let mut slash = false;
    let mut i: usize = 0;
    while i < tv.len()
        invariant
            i <= tv@.len(),
            slash == exists|j: int| 0 <= j < i && tv@[j] == '/',
        decreases tv@.len() - i,
    {
        if tv[i] == '/' {
            slash = true;
        }
        i += 1;
    }
    proof {
        assert(t@ == trim(target@));
        assert(slash == has_slash(t@));
    }
    if slash {
        return match lookup_md_exec(note_paths, t.as_str()) {
            Some(i) => Resolution::Resolved(i),
            None => Resolution::Unresolved(t),
        };
    }
    let mut best: Option<usize> = None;
    let mut best_depth: usize = 0;
    let mut k: usize = 0;
    while k < note_paths.len()
        invariant
            k <= note_paths@.len() == nv.len(),
            nv == note_paths@.map_values(|s: String| s@),
            best_titled(nv, t@, 0, None) == best_titled(
                nv,
                t@,
                k as int,
                match best {
                    Some(b) => Some(b as nat),
                    None => None,
                },
            ),
            best matches Some(b) ==> b < note_paths@.len() && best_depth == depth(nv[b as int]),
        decreases note_paths@.len() - k,
    {
        let p = note_paths[k].as_str();
        proof {
            assert(nv[k as int] == p@);
        }
        let st = file_stem_exec(p);
        let titled = match &st {
            Some(s) => crate::text::str_eq(s.as_str(), t.as_str()),
            None => false,
        };
        proof {
            assert(titled == (file_stem(nv[k as int]) == Some(t@)));
        }
        if titled {
            let d = depth_exec(p);
            let better = match best {
                None => true,
                Some(b) => d < best_depth || (d == best_depth && crate::text::str_lt_exec(p, note_paths[b].as_str())),
            };
            proof {
                if let Some(b) = best {
                    assert(nv[b as int] == note_paths@[b as int]@);
                }
            }
            if better {
                best = Some(k);
                best_depth = d;
            }
        }
        k += 1;
    }
    match best {
        Some(b) => Resolution::Resolved(b),
        None => Resolution::Unresolved(t),
    }
}

// ── markdown links ───────────────────────────────────────────────────────────

/// `..` as a name.
pub open spec fn dotdot() -> Seq<char> {
    seq!['.', '.']
}

/// The names `xs` pushed one by one onto `acc`, a `..` taking back the
/// last name unless there is none or it is `..` itself.
pub open spec fn collapse(xs: Seq<Seq<char>>, acc: Seq<Seq<char>>) -> Seq<Seq<char>>
    decreases xs.len(),
{
    if xs.len() == 0 {
        acc
    } else {
        let x = xs[0];
        let next = if x == dotdot() {
            if acc.len() > 0 && acc.last() != dotdot() {
                acc.drop_last()
            } else {
                acc.push(dotdot())
            }
        } else {
            acc.push(x)
        };
        collapse(xs.drop_first(), next)
    }
}

/// `href` (trimmed) read from the directory of `from_rel`: its names,
/// `.` and `..` collapsed, joined with `'/'`; an href starting with `/`
/// keeps its root and ignores the directory.
pub open spec fn md_target_path(href: Seq<char>, from_rel: Seq<char>) -> Seq<char> {
    let h = trim(href);
    let dir = if segs(from_rel).len() > 0 {
        segs(from_rel).drop_last()
    } else {
        Seq::empty()
    };
    if h.len() > 0 && h[0] == '/' {
        seq!['/'] + join_slash(collapse(segs(h), Seq::empty()))
    } else {
        join_slash(collapse(dir + segs(h), Seq::empty()))
    }
}

/// Where markdown href `href`, written in the note at `from_rel`, leads
/// among `notes`.
pub open spec fn md_resolution(href: Seq<char>, from_rel: Seq<char>, notes: Seq<Seq<char>>) -> ResolutionSpec {
    if trim(href).len() == 0 {
        ResolutionSpec::NotALink
    } else {
        let p = md_target_path(href, from_rel);
        match lookup_md(notes, p) {
            Some(i) => ResolutionSpec::Resolved(i),
            None => ResolutionSpec::Unresolved(p),
        }
    }
}

fn collapse_exec(xs: &Vec<Vec<char>>) -> (r: Vec<Vec<char>>)
    ensures
        r@.map_values(|v: Vec<char>| v@) == collapse(xs@.map_values(|v: Vec<char>| v@), Seq::empty()),
{
    let ghost xv = xs@.map_values(|v: Vec<char>| v@);
    let mut acc: Vec<Vec<char>> = Vec::new();
    let mut i: usize = 0;
    proof {
        assert(xv.skip(0) =~= xv);
        assert(acc@.map_values(|v: Vec<char>| v@) =~= Seq::<Seq<char>>::empty());
    }
    while i < xs.len()
        invariant
            i <= xs@.len() == xv.len(),
            xv == xs@.map_values(|v: Vec<char>| v@),
            collapse(xv, Seq::empty()) == collapse(xv.skip(i as int), acc@.map_values(|v: Vec<char>| v@)),
        decreases xs@.len() - i,
    {
        let x = &xs[i];
        let ghost av = acc@.map_values(|v: Vec<char>| v@);
        proof {
            assert(xv.skip(i as int)[0] == x@);
            assert(xv.skip(i as int).drop_first() =~= xv.skip(i + 1));
        }
        let is_up = x.len() == 2 && x[0] == '.' && x[1] == '.';
        proof {
            if x@.len() == 2 {
                if is_up {
                    assert(x@ =~= dotdot());
                } else {
                    assert(x@ != dotdot()) by {
                        if x@ == dotdot() {
                            assert(x@[0] == '.' && x@[1] == '.');
                        }
                    }
                }
            } else {
                assert(x@.len() != dotdot().len());
            }
        }
        if is_up {
            let n = acc.len();
            let last_up = n > 0 && acc[n - 1].len() == 2 && acc[n - 1][0] == '.' && acc[n - 1][1] == '.';
            proof {
                if n > 0 {
                    let l = acc@[n - 1]@;
                    assert(av.last() == l);
                    if l.len() == 2 {
                        if last_up {
                            assert(l =~= dotdot());
                        } else {
                            assert(l != dotdot()) by {
                                if l == dotdot() {
                                    assert(l[0] == '.' && l[1] == '.');
                                }
                            }
                        }
                    } else {
                        assert(l.len() != dotdot().len());
                    }
                }
            }
            if n > 0 && !last_up {
                acc.pop();
                proof {
                    assert(acc@.map_values(|v: Vec<char>| v@) =~= av.drop_last());
                }
            } else {
                acc.push(vec!['.', '.']);
                proof {
                    assert(acc@.map_values(|v: Vec<char>| v@) =~= av.push(dotdot()));
                }
            }
        } else {
            acc.push(x.clone());
            proof {
                assert(acc@.map_values(|v: Vec<char>| v@) =~= av.push(x@));
            }
        }
        i += 1;
    }
    proof {
        assert(xv.skip(i as int) =~= Seq::<Seq<char>>::empty());
    }
    acc
}

/// The path markdown href `href` in the note at `from_rel` names (see
/// [`md_target_path`]).
pub fn md_target(href: &str, from_rel: &str) -> (r: String)
    ensures
        r@ == md_target_path(href@, from_rel@),
{
    let hc = crate::text::to_chars(href);
    let hv = crate::text::trim_vec(&hc);
    let h = crate::text::string_of_all(&hv);
    let hs = crate::graph::paths::path_segments(h.as_str());
    let ghost hsv = hs@.map_values(|v: Vec<char>| v@);
    if hv.len() > 0 && hv[0] == '/' {
        let c = collapse_exec(&hs);
        let mut out = String::new();
        crate::text::push_char(&mut out, '/');
        let j = crate::graph::paths::join_names(&c);
        crate::text::push_str(&mut out, j.as_str());
        return out;
    }
    let mut all = crate::graph::paths::path_segments(from_rel);
    let ghost fv = all@.map_values(|v: Vec<char>| v@);
    if all.len() > 0 {
        all.pop();
    }
    let ghost dir = all@.map_values(|v: Vec<char>| v@);
    proof {
        if fv.len() > 0 {
            assert(dir =~= fv.drop_last());
        } else {
            assert(dir =~= Seq::<Seq<char>>::empty());
        }
    }
    let mut i: usize = 0;
    while i < hs.len()
        invariant
            i <= hs@.len(),
            hsv == hs@.map_values(|v: Vec<char>| v@),
            all@.map_values(|v: Vec<char>| v@) == dir + hsv.take(i as int),
        decreases hs@.len() - i,
    {
        let ghost prev = all@.map_values(|v: Vec<char>| v@);
        all.push(hs[i].clone());
        proof {
            assert(hsv.take(i + 1) =~= hsv.take(i as int).push(hs@[i as int]@));
            assert(all@.map_values(|v: Vec<char>| v@) =~= prev.push(hs@[i as int]@));
        }
        i += 1;
    }
    proof {
        assert(hsv.take(i as int) =~= hsv);
    }
    let c = collapse_exec(&all);
    crate::graph::paths::join_names(&c)
}

/// Resolve a markdown-link href written in the note at `from_rel` (see
/// [`md_resolution`]).
pub fn resolve_md(href: &str, from_rel: &str, note_paths: &Vec<String>) -> (r: Resolution)
    ensures
        resolution_view(r) == md_resolution(href@, from_rel@, note_paths@.map_values(|s: String| s@)),
{
    let hc = crate::text::to_chars(href);
    let hv = crate::text::trim_vec(&hc);
    if hv.len() == 0 {
        return Resolution::NotALink;
    }
    let p = md_target(href, from_rel);
    match lookup_md_exec(note_paths, p.as_str()) {
        Some(i) => Resolution::Resolved(i),
        None => Resolution::Unresolved(p),
    }
}

} // verus!
