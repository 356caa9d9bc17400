//! Note rename: a pure planner and the text edits it makes.
//!
//! [`plan_rename`] turns the incoming links of the note being renamed
//! into a [`RenamePlan`]: the file move (when the note exists) and one
//! text edit per link, pointing at the new title or path and keeping each
//! link's form, anchor, alias and embed marker. [`apply_edits`] applies
//! the edits of one file from the end of the file backwards, so that
//! each replacement only shifts text already done; overlapping edits are
//! refused. Reading, writing, the freshness check's file stats and the
//! move itself belong to the caller.

use vstd::prelude::*;

use crate::error::Error;
use crate::graph::parser::{RawLink, RawLinkSpec};
use crate::graph::paths::{extension_of, file_name, join_slash, segs, stem_of, url_encoded};
use crate::graph::LinkForm;
use crate::selector::{has_path, path_eq, same_path};
use crate::text::{ends_with, push_char, push_str};

verus! {

// ── paths ────────────────────────────────────────────────────────────────────

/// `p` without a final `.md` extension: its directory joined with the
/// file stem; `p` itself when its extension is not `md`.
pub open spec fn strip_md_path(p: Seq<char>) -> Seq<char> {
    match file_name(p) {
        Some(n) => if extension_of(n) == Some("md"@) {
            let dir = segs(p).drop_last();
            if dir.len() == 0 {
                stem_of(n)
            } else {
                join_slash(dir) + seq!['/'] + stem_of(n)
            }
        } else {
            p
        },
        None => p,
    }
}

/// `s` without a trailing `.md`.
pub open spec fn strip_md_suffix(s: Seq<char>) -> Seq<char> {
    if ends_with(s, ".md"@) {
        s.take(s.len() - 3)
    } else {
        s
    }
}

/// How many leading names `a` and `b` share.
pub open spec fn common_len(a: Seq<Seq<char>>, b: Seq<Seq<char>>, k: int) -> int
    decreases a.len() - k,
{
    if k < 0 || k >= a.len() || k >= b.len() || a[k] != b[k] {
        k
    } else {
        common_len(a, b, k + 1)
    }
}

/// The names of the directory of `p` (none when `p` has no names).
pub open spec fn dir_names(p: Seq<char>) -> Seq<Seq<char>> {
    if segs(p).len() > 0 {
        segs(p).drop_last()
    } else {
        Seq::empty()
    }
}

/// `n` copies of `..`.
pub open spec fn ups(n: nat) -> Seq<Seq<char>>
    decreases n,
{
    if n == 0 {
        Seq::empty()
    } else {
        ups((n - 1) as nat).push(seq!['.', '.'])
    }
}

/// The names of `xs` other than `..`, each percent-encoded.
pub open spec fn encoded_names(xs: Seq<Seq<char>>) -> Seq<Seq<char>>
    decreases xs.len(),
{
    if xs.len() == 0 {
        Seq::empty()
    } else if xs.last() == seq!['.', '.'] {
        encoded_names(xs.drop_last())
    } else {
        encoded_names(xs.drop_last()).push(url_encoded(vstd::utf8::encode_utf8(xs.last())))
    }
}

/// The URL of `target` as written in the note at `linker`: up out of the
/// linker's directory to the names it shares with the target, then down
/// the target's other names, percent-encoded, joined with `'/'`.
pub open spec fn relative_url(linker: Seq<char>, target: Seq<char>) -> Seq<char> {
    let ld = dir_names(linker);
    let tg = segs(target);
    let c = common_len(ld, tg, 0);
    join_slash(ups((ld.len() - c) as nat) + encoded_names(tg.skip(c)))
}

proof fn lemma_common_len(a: Seq<Seq<char>>, b: Seq<Seq<char>>, k: int)
    requires
        0 <= k <= a.len(),
        k <= b.len(),
    ensures
        k <= common_len(a, b, k) <= a.len(),
        common_len(a, b, k) <= b.len(),
    decreases a.len() - k,
{
    if k < a.len() && k < b.len() && a[k] == b[k] {
        lemma_common_len(a, b, k + 1);
    }
}

// ── the replacement text ─────────────────────────────────────────────────────

/// `c` and `o`'s text, or nothing when `o` is `None`.
pub open spec fn opt_part(c: char, o: Option<Seq<char>>) -> Seq<char> {
    match o {
        Some(s) => seq![c] + s,
        None => Seq::empty(),
    }
}

/// `s` holds a `'/'`.
pub open spec fn has_slash(s: Seq<char>) -> bool {
    exists|i: int| 0 <= i < s.len() && s[i] == '/'
}

/// The text that replaces `link` (an embed when `embed`), written in the
/// note at `linker`, once its target moves to `new_path` with title
/// `new_title`. A wikilink keeps its form: a path-form target becomes
/// the new path without `.md` (with it when the old target had it), a
/// title becomes the new title; anchor and alias stay. A markdown link
/// gets the new path relative to the linker, percent-encoded, with `.md`
/// only when the old href had it; anchor and display text stay.
pub open spec fn replacement(
    link: RawLinkSpec,
    embed: bool,
    linker: Seq<char>,
    new_path: Seq<char>,
    new_title: Seq<char>,
) -> Seq<char> {
    let bang = if embed { seq!['!'] } else { Seq::empty() };
    match link.form {
        LinkForm::WikiLink => bang + seq!['[', '['] + wiki_target(link.target_text, new_path, new_title) + opt_part(
            '#',
            link.anchor,
        ) + opt_part('|', link.display) + seq![']', ']'],
        LinkForm::MdLink => {
            let display = match link.display {
                Some(d) => d,
                None => Seq::empty(),
            };
            bang + seq!['['] + display + seq![']', '('] + md_href(link.target_text, linker, new_path) + opt_part(
                '#',
                link.anchor,
            ) + seq![')']
        },
    }
}

/// The new target of a wikilink whose old target is `old`.
pub open spec fn wiki_target(old: Seq<char>, new_path: Seq<char>, new_title: Seq<char>) -> Seq<char> {
    if has_slash(old) {
        if ends_with(old, ".md"@) {
            strip_md_path(new_path) + ".md"@
        } else {
            strip_md_path(new_path)
        }
    } else {
        new_title
    }
}

/// The new href of a markdown link whose old target is `old`.
pub open spec fn md_href(old: Seq<char>, linker: Seq<char>, new_path: Seq<char>) -> Seq<char> {
    let url = relative_url(linker, new_path);
    if ends_with(old, ".md"@) {
        url
    } else {
        strip_md_suffix(url)
    }
}

fn wiki_target_exec(tt: &Vec<char>, new_path: &str, new_title: &str) -> (r: String)
    ensures
        r@ == wiki_target(tt@, new_path@, new_title@),
{
    let mut slash = false;
    let mut i: usize = 0;
    while i < tt.len()
        invariant
            i <= tt@.len(),
            slash == exists|j: int| 0 <= j < i && tt@[j] == '/',
        decreases tt@.len() - i,
    {
        if tt[i] == '/' {
            slash = true;
        }
        i += 1;
    }
    if slash {
        let mut sp = strip_md_path_exec(new_path);
        if crate::text::vec_ends_with(tt, ".md") {
            push_str(&mut sp, ".md");
        }
        sp
    } else {
        crate::text::owned(new_title)
    }
}

fn md_href_exec(tt: &Vec<char>, linker: &str, new_path: &str) -> (r: String)
    ensures
        r@ == md_href(tt@, linker@, new_path@),
{
    let url = relative_url_from(linker, new_path);
    let uc = crate::text::to_chars(url.as_str());
    if crate::text::vec_ends_with(tt, ".md") || !crate::text::vec_ends_with(&uc, ".md") {
        url
    } else {
        proof {
            reveal_strlit(".md");
        }
        let r = crate::text::string_of(&uc, 0, uc.len() - 3);
        proof {
            assert(uc@.subrange(0, uc@.len() - 3) =~= uc@.take(uc@.len() - 3));
        }
        r
    }
}

fn strip_md_path_exec(p: &str) -> (r: String)
    ensures
        r@ == strip_md_path(p@),
{
    match crate::graph::paths::file_name_exec(p) {
        Some(n) => {
            let k = crate::text::rfind_char(&n, '.');
            let is_md = match k {
                Some(k) => k > 0 && n.len() - k == 3 && n[k + 1] == 'm' && n[k + 2] == 'd',
                None => false,
            };
            proof {
                match k {
                    Some(k) => {
                        if k > 0 {
                            let e = n@.skip(k + 1);
                            if n@.len() == k + 3 {
                                if is_md {
                                    assert(e =~= "md"@) by {
                                        reveal_strlit("md");
                                    }
                                } else {
                                    assert(e != "md"@) by {
                                        reveal_strlit("md");
                                        if e == "md"@ {
                                            assert(e[0] == 'm' && e[1] == 'd');
                                        }
                                    }
                                }
                            } else {
                                assert(e != "md"@) by {
                                    reveal_strlit("md");
                                    assert(e.len() != 2);
                                }
                            }
                        }
                    },
                    None => {},
                }
            }
            if !is_md {
                return crate::text::owned(p);
            }
            let kk = k.unwrap();
            let mut ss = crate::graph::paths::path_segments(p);
            let ghost sv = ss@.map_values(|v: Vec<char>| v@);
            ss.pop();
            proof {
                assert(ss@.map_values(|v: Vec<char>| v@) =~= sv.drop_last());
            }
            let stem = crate::text::string_of(&n, 0, kk);
            if ss.len() == 0 {
                stem
            } else {
                let mut out = crate::graph::paths::join_names(&ss);
                push_char(&mut out, '/');
                push_str(&mut out, stem.as_str());
                out
            }
        },
        None => crate::text::owned(p),
    }
}

/// Append `c` and the text of `o` when `o` is some.
fn push_opt(out: &mut String, c: char, o: &Option<String>)
    ensures
        final(out)@ == old(out)@ + opt_part(c, crate::graph::parser::opt_string(*o)),
{
    match o {
        Some(s) => {
            push_char(out, c);
            push_str(out, s.as_str());
        },
        None => {
            proof {
                assert(old(out)@ + Seq::<char>::empty() =~= old(out)@);
            }
        },
    }
}

/// The URL of `target` relative to the note at `linker` (see
/// [`relative_url`]).
pub fn relative_url_from(linker: &str, target: &str) -> (r: String)
    ensures
        r@ == relative_url(linker@, target@),
{
    let mut ld = crate::graph::paths::path_segments(linker);
    let ghost lall = ld@.map_values(|v: Vec<char>| v@);
    if ld.len() > 0 {
        ld.pop();
    }
    let ghost ldv = ld@.map_values(|v: Vec<char>| v@);
    proof {
        if lall.len() > 0 {
            assert(ldv =~= lall.drop_last());
        } else {
            assert(ldv =~= Seq::<Seq<char>>::empty());
        }
        assert(ldv == dir_names(linker@));
    }
    let tg = crate::graph::paths::path_segments(target);
    let ghost tgv = tg@.map_values(|v: Vec<char>| v@);
    let mut c: usize = 0;
    while c < ld.len() && c < tg.len() && crate::text::chars_eq(&ld[c], &tg[c])
        invariant
            c <= ld@.len(),
            c <= tg@.len(),
            ldv == ld@.map_values(|v: Vec<char>| v@),
            tgv == tg@.map_values(|v: Vec<char>| v@),
            common_len(ldv, tgv, 0) == common_len(ldv, tgv, c as int),
        decreases ld@.len() - c,
    {
        proof {
            assert(ldv[c as int] == ld@[c as int]@);
            assert(tgv[c as int] == tg@[c as int]@);
        }
        c += 1;
    }
    proof {
        if c < ld@.len() && c < tg@.len() {
            assert(ldv[c as int] == ld@[c as int]@);
            assert(tgv[c as int] == tg@[c as int]@);
        }
        assert(common_len(ldv, tgv, c as int) == c);
    }
    let mut parts: Vec<String> = Vec::new();
    let up = ld.len() - c;
    let mut u: usize = 0;
    proof {
        assert(parts@.map_values(|v: String| v@) =~= ups(0));
    }
    while u < up
        invariant
            u <= up,
            parts@.map_values(|v: String| v@) == ups(u as nat),
        decreases up - u,
    {
        let ghost prev = parts@.map_values(|v: String| v@);
        let dd = crate::text::owned("..");
        parts.push(dd);
        proof {
            reveal_strlit("..");
            assert(dd@ =~= seq!['.', '.']);
            assert(parts@.map_values(|v: String| v@) =~= prev.push(seq!['.', '.']));
        }
        u += 1;
    }
    let ghost base = parts@.map_values(|v: String| v@);
    let ghost rest = tgv.skip(c as int);
    let mut k = c;
    proof {
        assert(tgv.skip(c as int).take(0) =~= Seq::<Seq<char>>::empty());
        assert(base + encoded_names(rest.take(0)) =~= base);
    }
    while k < tg.len()
        invariant
            c <= k <= tg@.len(),
            tgv == tg@.map_values(|v: Vec<char>| v@),
            rest == tgv.skip(c as int),
            parts@.map_values(|v: String| v@) == base + encoded_names(rest.take(k - c)),
        decreases tg@.len() - k,
    {
        let x = &tg[k];
        let ghost prev = parts@.map_values(|v: String| v@);
        proof {
            assert(rest.take(k - c + 1).drop_last() =~= rest.take(k - c));
            assert(rest.take(k - c + 1).last() == x@);
        }
        let is_up = x.len() == 2 && x[0] == '.' && x[1] == '.';
        if is_up {
            proof {
                assert(x@ =~= seq!['.', '.']);
            }
        } else {
            proof {
                assert(x@ != seq!['.', '.']) by {
                    if x@ == seq!['.', '.'] {
                        assert(x@.len() == 2 && x@[0] == '.' && x@[1] == '.');
                    }
                }
            }
            let name = crate::text::string_of_all(x);
            let e = crate::graph::paths::url_encode(name.as_str());
            parts.push(e);
            proof {
                assert(parts@.map_values(|v: String| v@) =~= prev.push(e@));
            }
        }
        k += 1;
    }
    proof {
        assert(rest.take(k - c) =~= rest);
    }
    let mut out = String::new();
    crate::graph::paths::push_joined(&mut out, &parts);
    proof {
        assert(out@ =~= join_slash(parts@.map_values(|v: String| v@)));
    }
    out
}

/// The text that replaces `link` once its target moves to `new_path`
/// (see [`replacement`]).
pub fn build_replacement(link: &RawLink, embed: bool, linker: &str, new_path: &str, new_title: &str) -> (r: String)
    ensures
        r@ == replacement(link@, embed, linker@, new_path@, new_title@),
{
    let mut out = String::new();
    if embed {
        push_char(&mut out, '!');
    }
    let ghost bang = out@;
    proof {
        if embed {
            assert(bang =~= seq!['!']);
        } else {
            assert(bang =~= Seq::<char>::empty());
        }
    }
    let tt = crate::text::to_chars(link.target_text.as_str());
    match link.form {
        LinkForm::WikiLink => {
            push_char(&mut out, '[');
            push_char(&mut out, '[');
            let t = wiki_target_exec(&tt, new_path, new_title);
            push_str(&mut out, t.as_str());
            push_opt(&mut out, '#', &link.anchor);
            push_opt(&mut out, '|', &link.display);
            push_char(&mut out, ']');
            push_char(&mut out, ']');
            proof {
                assert(out@ =~= replacement(link@, embed, linker@, new_path@, new_title@));
            }
        },
        LinkForm::MdLink => {
            push_char(&mut out, '[');
            match &link.display {
                Some(d) => push_str(&mut out, d.as_str()),
                None => {},
            }
            push_char(&mut out, ']');
            push_char(&mut out, '(');
            let h = md_href_exec(&tt, linker, new_path);
            push_str(&mut out, h.as_str());
            push_opt(&mut out, '#', &link.anchor);
            push_char(&mut out, ')');
            proof {
                assert(out@ =~= replacement(link@, embed, linker@, new_path@, new_title@));
            }
        },
    }
    out
}

// ── the plan ─────────────────────────────────────────────────────────────────

/// One link into the note being renamed: the vault-relative path of the
/// note holding it, the link, and whether it embeds.
pub struct Incoming {
    pub linker: String,
    pub link: RawLink,
    pub embed: bool,
}

/// The file move of a rename: `from` goes to `to` after every linker has
/// been edited.
pub struct FileRename {
    pub from: String,
    pub to: String,
}

/// One edit in one file: `byte_range` of the file's text as it was when
/// the plan was made becomes `replacement`.
pub struct FileEdit {
    /// Vault-relative path of the file to edit.
    pub path: String,
    pub byte_range: std::ops::Range<usize>,
    pub replacement: String,
}

/// What a rename does: the file move (none when the note does not exist
/// and only its linkers change), the edits, and the files whose state the
/// caller snapshots before applying (the renamed note first, then each
/// linker once).
pub struct RenamePlan {
    pub rename: Option<FileRename>,
    pub edits: Vec<FileEdit>,
    pub snapshot_paths: Vec<String>,
}

/// Mathematical value of a [`FileEdit`].
pub struct EditSpec {
    pub path: Seq<char>,
    pub start: int,
    pub end: int,
    pub replacement: Seq<char>,
}

pub open spec fn edit_view(e: FileEdit) -> EditSpec {
    EditSpec {
        path: e.path@,
        start: e.byte_range.start as int,
        end: e.byte_range.end as int,
        replacement: e.replacement@,
    }
}

pub open spec fn edits_view(v: Seq<FileEdit>) -> Seq<EditSpec> {
    v.map_values(|e: FileEdit| edit_view(e))
}

/// Mathematical value of an [`Incoming`].
pub struct IncomingSpec {
    pub linker: Seq<char>,
    pub link: RawLinkSpec,
    pub embed: bool,
}

pub open spec fn incomings_view(v: Seq<Incoming>) -> Seq<IncomingSpec> {
    v.map_values(|i: Incoming| IncomingSpec { linker: i.linker@, link: i.link@, embed: i.embed })
}

/// Mathematical value of a [`RenamePlan`].
pub struct PlanSpec {
    pub rename: Option<(Seq<char>, Seq<char>)>,
    pub edits: Seq<EditSpec>,
    pub snapshots: Seq<Seq<char>>,
}

pub open spec fn plan_view(p: RenamePlan) -> PlanSpec {
    PlanSpec {
        rename: match p.rename {
            Some(r) => Some((r.from@, r.to@)),
            None => None,
        },
        edits: edits_view(p.edits@),
        snapshots: p.snapshot_paths@.map_values(|s: String| s@),
    }
}

/// The edit that rewrites incoming link `inc`.
pub open spec fn incoming_edit(inc: IncomingSpec, new_path: Seq<char>, new_title: Seq<char>) -> EditSpec {
    EditSpec {
        path: inc.linker,
        start: inc.link.byte_start,
        end: inc.link.byte_end,
        replacement: replacement(inc.link, inc.embed, inc.linker, new_path, new_title),
    }
}

/// `acc` followed by the paths of `xs` that are not (as paths) already
/// there, each once, in order.
pub open spec fn distinct_from(xs: Seq<Seq<char>>, acc: Seq<Seq<char>>) -> Seq<Seq<char>>
    decreases xs.len(),
{
    if xs.len() == 0 {
        acc
    } else {
        let next = if has_path(acc, xs[0]) {
            acc
        } else {
            acc.push(xs[0])
        };
        distinct_from(xs.drop_first(), next)
    }
}

/// The plan for renaming the note at `src` (`None`: a note that does not
/// exist yet, known only from links) to `new_path`, or the error text. It
/// fails when the new path has no file stem or an empty one, and when a
/// different file already exists at the new path; renaming to the same
/// path plans nothing but a snapshot of the note.
pub open spec fn rename_plan(
    src: Option<Seq<char>>,
    incoming: Seq<IncomingSpec>,
    new_path: Seq<char>,
    target_exists: bool,
) -> Result<PlanSpec, Seq<char>> {
    match crate::graph::paths::file_stem(new_path) {
        None => Err("new path has no file stem: "@ + new_path),
        Some(title) => if title.len() == 0 {
            Err("new path has an empty filename stem: "@ + new_path)
        } else {
            let edits = incoming.map_values(|i: IncomingSpec| incoming_edit(i, new_path, title));
            let linkers = incoming.map_values(|i: IncomingSpec| i.linker);
            match src {
                Some(from) => if same_path(from, new_path) {
                    Ok(PlanSpec { rename: None, edits: Seq::empty(), snapshots: seq![from] })
                } else if target_exists {
                    Err("target already exists: "@ + new_path + " \u{2014} refusing to overwrite"@)
                } else {
                    Ok(PlanSpec { rename: Some((from, new_path)), edits, snapshots: distinct_from(linkers, seq![from]) })
                },
                None => Ok(PlanSpec { rename: None, edits, snapshots: distinct_from(linkers, Seq::empty()) }),
            }
        },
    }
}

fn copy_edit(e: &FileEdit) -> (r: FileEdit)
    ensures
        edit_view(r) == edit_view(*e),
{
    FileEdit {
        path: e.path.clone(),
        byte_range: std::ops::Range { start: e.byte_range.start, end: e.byte_range.end },
        replacement: e.replacement.clone(),
    }
}

/// `acc` extended by the paths of `xs` not already there (see
/// [`distinct_from`]).
fn push_distinct(acc: &mut Vec<String>, xs: &Vec<String>)
    ensures
        final(acc)@.map_values(|s: String| s@) == distinct_from(
            xs@.map_values(|s: String| s@),
            old(acc)@.map_values(|s: String| s@),
        ),
{
    let ghost xv = xs@.map_values(|s: String| s@);
    let mut i: usize = 0;
    proof {
        assert(xv.skip(0) =~= xv);
    }
    while i < xs.len()
        invariant
            i <= xs@.len() == xv.len(),
            xv == xs@.map_values(|s: String| s@),
            distinct_from(xv, old(acc)@.map_values(|s: String| s@)) == distinct_from(
                xv.skip(i as int),
                acc@.map_values(|s: String| s@),
            ),
        decreases xs@.len() - i,
    {
        let ghost av = acc@.map_values(|s: String| s@);
        proof {
            assert(xv.skip(i as int)[0] == xs@[i as int]@);
            assert(xv.skip(i as int).drop_first() =~= xv.skip(i + 1));
        }
        let mut seen = false;
        let mut j: usize = 0;
        while j < acc.len()
            invariant
                j <= acc@.len(),
                av == acc@.map_values(|s: String| s@),
                i < xs@.len(),
                seen == exists|q: int| 0 <= q < j && same_path(#[trigger] av[q], xs@[i as int]@),
            decreases acc@.len() - j,
        {
            proof {
                assert(av[j as int] == acc@[j as int]@);
            }
            if path_eq(acc[j].as_str(), xs[i].as_str()) {
                seen = true;
            }
            j += 1;
        }
        if !seen {
            acc.push(xs[i].clone());
            proof {
                assert(acc@.map_values(|s: String| s@) =~= av.push(xs@[i as int]@));
            }
        }
        i += 1;
    }
    proof {
        assert(xv.skip(i as int) =~= Seq::<Seq<char>>::empty());
    }
}

/// Plan renaming the note at `src_path` (`None` for a note known only
/// from links) to the vault-relative `new_path`, given the links into it
/// and whether a file already exists at `new_path` (see [`rename_plan`]).
pub fn plan_rename(src_path: Option<&str>, incoming: &Vec<Incoming>, new_path: &str, target_exists: bool) -> (r:
    Result<RenamePlan, Error>)
    ensures
        match r {
            Ok(p) => rename_plan(
                match src_path {
                    Some(s) => Some(s@),
                    None => None,
                },
                incomings_view(incoming@),
                new_path@,
                target_exists,
            ) == Ok::<PlanSpec, Seq<char>>(plan_view(p)),
            Err(e) => e matches Error::Notes(m) && rename_plan(
                match src_path {
                    Some(s) => Some(s@),
                    None => None,
                },
                incomings_view(incoming@),
                new_path@,
                target_exists,
            ) == Err::<PlanSpec, Seq<char>>(m@),
        },
{
    let ghost srcv = match src_path {
        Some(s) => Some(s@),
        None => None,
    };
    let ghost iv = incomings_view(incoming@);
    let title = match crate::graph::paths::file_stem_exec(new_path) {
        Some(t) => t,
        None => {
            return Err(Error::Notes(crate::text::concat2("new path has no file stem: ", new_path)));
        },
    };
    if title.as_str().is_empty() {
        return Err(Error::Notes(crate::text::concat2("new path has an empty filename stem: ", new_path)));
    }
    let mut rename: Option<FileRename> = None;
    let mut snaps: Vec<String> = Vec::new();
    match src_path {
        Some(from) => {
            if path_eq(from, new_path) {
                snaps.push(crate::text::owned(from));
                let none: Vec<FileEdit> = Vec::new();
                proof {
                    assert(snaps@.map_values(|s: String| s@) =~= seq![from@]);
                    assert(edits_view(none@) =~= Seq::<EditSpec>::empty());
                }
                return Ok(RenamePlan { rename: None, edits: none, snapshot_paths: snaps });
            }
            if target_exists {
                return Err(
                    Error::Notes(crate::text::concat3("target already exists: ", new_path, " \u{2014} refusing to overwrite")),
                );
            }
            rename = Some(FileRename { from: crate::text::owned(from), to: crate::text::owned(new_path) });
            snaps.push(crate::text::owned(from));
            proof {
                assert(snaps@.map_values(|s: String| s@) =~= seq![from@]);
            }
        },
        None => {
            proof {
                assert(snaps@.map_values(|s: String| s@) =~= Seq::<Seq<char>>::empty());
            }
        },
    }
    let ghost edits_spec = iv.map_values(|i: IncomingSpec| incoming_edit(i, new_path@, title@));
    let ghost linkers_spec = iv.map_values(|i: IncomingSpec| i.linker);
    let mut edits: Vec<FileEdit> = Vec::new();
    let mut linkers: Vec<String> = Vec::new();
    let mut k: usize = 0;
    while k < incoming.len()
        invariant
            k <= incoming@.len() == iv.len(),
            iv == incomings_view(incoming@),
            edits_spec == iv.map_values(|i: IncomingSpec| incoming_edit(i, new_path@, title@)),
            linkers_spec == iv.map_values(|i: IncomingSpec| i.linker),
            edits_view(edits@) == edits_spec.take(k as int),
            linkers@.map_values(|s: String| s@) == linkers_spec.take(k as int),
        decreases incoming@.len() - k,
    {
        let inc = &incoming[k];
        let rep = build_replacement(&inc.link, inc.embed, inc.linker.as_str(), new_path, title.as_str());
        let e = FileEdit {
            path: inc.linker.clone(),
            byte_range: std::ops::Range { start: inc.link.byte_range.start, end: inc.link.byte_range.end },
            replacement: rep,
        };
        let ghost pe = edits_view(edits@);
        let ghost pl = linkers@.map_values(|s: String| s@);
        edits.push(e);
        linkers.push(inc.linker.clone());
        proof {
            assert(iv[k as int] == IncomingSpec { linker: inc.linker@, link: inc.link@, embed: inc.embed });
            assert(edits_view(edits@) =~= pe.push(edit_view(e)));
            assert(edits_spec.take(k + 1) =~= edits_spec.take(k as int).push(edits_spec[k as int]));
            assert(linkers@.map_values(|s: String| s@) =~= pl.push(inc.linker@));
            assert(linkers_spec.take(k + 1) =~= linkers_spec.take(k as int).push(linkers_spec[k as int]));
        }
        k += 1;
    }
    proof {
        assert(edits_spec.take(k as int) =~= edits_spec);
        assert(linkers_spec.take(k as int) =~= linkers_spec);
    }
    push_distinct(&mut snaps, &linkers);
    Ok(RenamePlan { rename, edits, snapshot_paths: snaps })
}

impl RenamePlan {
    /// The number of distinct files the plan writes: the edited files and
    /// the renamed note.
    pub fn touched_files(&self) -> (r: usize)
        ensures
            r == distinct_from(
                edits_view(self.edits@).map_values(|e: EditSpec| e.path) + match self.rename {
                    Some(m) => seq![m.from@],
                    None => Seq::empty(),
                },
                Seq::empty(),
            ).len(),
    {
        let mut paths: Vec<String> = Vec::new();
        let ghost ev = edits_view(self.edits@).map_values(|e: EditSpec| e.path);
        let mut i: usize = 0;
        while i < self.edits.len()
            invariant
                i <= self.edits@.len() == ev.len(),
                ev == edits_view(self.edits@).map_values(|e: EditSpec| e.path),
                paths@.map_values(|s: String| s@) == ev.take(i as int),
            decreases self.edits@.len() - i,
        {
            let ghost prev = paths@.map_values(|s: String| s@);
            paths.push(self.edits[i].path.clone());
            proof {
                assert(paths@.map_values(|s: String| s@) =~= prev.push(ev[i as int]));
                assert(ev.take(i + 1) =~= ev.take(i as int).push(ev[i as int]));
            }
            i += 1;
        }
        proof {
            assert(ev.take(i as int) =~= ev);
        }
        let ghost prev = paths@.map_values(|s: String| s@);
        match &self.rename {
            Some(m) => {
                paths.push(m.from.clone());
                proof {
                    assert(paths@.map_values(|s: String| s@) =~= ev + seq![m.from@]);
                }
            },
            None => {
                proof {
                    assert(ev.take(i as int) =~= ev);
                    assert(paths@.map_values(|s: String| s@) =~= ev + Seq::<Seq<char>>::empty());
                }
            },
        }
        proof {
            assert(ev.take(i as int) =~= ev);
        }
        let mut acc: Vec<String> = Vec::new();
        proof {
            assert(acc@.map_values(|s: String| s@) =~= Seq::<Seq<char>>::empty());
        }
        push_distinct(&mut acc, &paths);
        acc.len()
    }
}

/// The files the edits touch, each once, in the order they first appear.
pub fn edited_files(edits: &Vec<FileEdit>) -> (r: Vec<String>)
    ensures
        r@.map_values(|s: String| s@) == distinct_from(
            edits_view(edits@).map_values(|e: EditSpec| e.path),
            Seq::empty(),
        ),
{
    let ghost ev = edits_view(edits@).map_values(|e: EditSpec| e.path);
    let mut paths: Vec<String> = Vec::new();
    let mut i: usize = 0;
    while i < edits.len()
        invariant
            i <= edits@.len() == ev.len(),
            ev == edits_view(edits@).map_values(|e: EditSpec| e.path),
            paths@.map_values(|s: String| s@) == ev.take(i as int),
        decreases edits@.len() - i,
    {
        let ghost prev = paths@.map_values(|s: String| s@);
        paths.push(edits[i].path.clone());
        proof {
            assert(paths@.map_values(|s: String| s@) =~= prev.push(ev[i as int]));
            assert(ev.take(i + 1) =~= ev.take(i as int).push(ev[i as int]));
        }
        i += 1;
    }
    proof {
        assert(ev.take(i as int) =~= ev);
    }
    let mut acc: Vec<String> = Vec::new();
    proof {
        assert(acc@.map_values(|s: String| s@) =~= Seq::<Seq<char>>::empty());
    }
    push_distinct(&mut acc, &paths);
    acc
}

/// The edits of `edits` in the file at `path`, in order.
pub fn edits_for(edits: &Vec<FileEdit>, path: &str) -> (r: Vec<FileEdit>)
    ensures
        edits_view(r@) == edits_in(edits_view(edits@), path@),
{
    let ghost ev = edits_view(edits@);
    let mut out: Vec<FileEdit> = Vec::new();
    let mut i: usize = 0;
    proof {
        assert(edits_view(out@) =~= edits_in(ev.take(0), path@));
    }
    while i < edits.len()
        invariant
            i <= edits@.len() == ev.len(),
            ev == edits_view(edits@),
            edits_view(out@) == edits_in(ev.take(i as int), path@),
        decreases edits@.len() - i,
    {
        proof {
            assert(ev.take(i + 1).drop_last() =~= ev.take(i as int));
            assert(ev.take(i + 1).last() == edit_view(edits@[i as int]));
        }
        if path_eq(edits[i].path.as_str(), path) {
            let ghost prev = edits_view(out@);
            let e = copy_edit(&edits[i]);
            out.push(e);
            proof {
                assert(edits_view(out@) =~= prev.push(edit_view(e)));
            }
        }
        i += 1;
    }
    proof {
        assert(ev.take(i as int) =~= ev);
    }
    out
}

/// The edits of `es` whose file is (as a path) `path`, in order.
pub open spec fn edits_in(es: Seq<EditSpec>, path: Seq<char>) -> Seq<EditSpec>
    decreases es.len(),
{
    if es.len() == 0 {
        Seq::empty()
    } else if same_path(es.last().path, path) {
        edits_in(es.drop_last(), path).push(es.last())
    } else {
        edits_in(es.drop_last(), path)
    }
}


/// A rename rewrites every link into the note: unless the note keeps its
/// path, the plan has one edit per incoming link, in the linker's file,
/// over the link's bytes, holding the link rewritten for the new path; a
/// note that exists is moved, and each linker (or a path equal to it) is
/// among the snapshots.
pub proof fn lemma_plan_rewrites_every_link(
    src: Option<Seq<char>>,
    incoming: Seq<IncomingSpec>,
    new_path: Seq<char>,
    target_exists: bool,
)
    ensures
        rename_plan(src, incoming, new_path, target_exists) matches Ok(p) ==> {
            ||| (src matches Some(from) && same_path(from, new_path) && p.edits.len() == 0 && p.rename is None)
            ||| {
                &&& p.edits.len() == incoming.len()
                &&& forall|k: int|
                    0 <= k < incoming.len() ==> {
                        let e = #[trigger] p.edits[k];
                        let i = incoming[k];
                        &&& e.path == i.linker
                        &&& e.start == i.link.byte_start
                        &&& e.end == i.link.byte_end
                        &&& e.replacement == replacement(
                            i.link,
                            i.embed,
                            i.linker,
                            new_path,
                            crate::graph::paths::file_stem(new_path)->0,
                        )
                    }
                &&& p.rename == (match src {
                    Some(from) => Some((from, new_path)),
                    None => None,
                })
                &&& forall|k: int| 0 <= k < incoming.len() ==> covered(p.snapshots, #[trigger] incoming[k].linker)
            }
        },
{
    if let Ok(p) = rename_plan(src, incoming, new_path, target_exists) {
        if !(src matches Some(from) && same_path(from, new_path)) {
            let linkers = incoming.map_values(|i: IncomingSpec| i.linker);
            let init = match src {
                Some(from) => seq![from],
                None => Seq::<Seq<char>>::empty(),
            };
            lemma_distinct_from_covers(linkers, init);
            assert forall|k: int| 0 <= k < incoming.len() implies covered(p.snapshots, #[trigger] incoming[k].linker) by {
                assert(linkers[k] == incoming[k].linker);
            }
        }
    }
}

/// `x` is one of `xs`, or the same path as one of them.
pub open spec fn covered(xs: Seq<Seq<char>>, x: Seq<char>) -> bool {
    xs.contains(x) || has_path(xs, x)
}

proof fn lemma_covered_push(xs: Seq<Seq<char>>, y: Seq<char>, x: Seq<char>)
    requires
        covered(xs, x),
    ensures
        covered(xs.push(y), x),
{
    if xs.contains(x) {
        let i = choose|i: int| 0 <= i < xs.len() && xs[i] == x;
        assert(xs.push(y)[i] == x);
    } else {
        let i = choose|i: int| 0 <= i < xs.len() && same_path(#[trigger] xs[i], x);
        assert(xs.push(y)[i] == xs[i]);
    }
}

/// [`distinct_from`] keeps `acc` and covers every path it is given.
proof fn lemma_distinct_from_covers(xs: Seq<Seq<char>>, acc: Seq<Seq<char>>)
    ensures
        forall|y: Seq<char>| covered(acc, y) ==> #[trigger] covered(distinct_from(xs, acc), y),
        forall|k: int| 0 <= k < xs.len() ==> covered(distinct_from(xs, acc), #[trigger] xs[k]),
    decreases xs.len(),
{
    if xs.len() > 0 {
        let next = if has_path(acc, xs[0]) {
            acc
        } else {
            acc.push(xs[0])
        };
        lemma_distinct_from_covers(xs.drop_first(), next);
        let r = distinct_from(xs, acc);
        assert(r == distinct_from(xs.drop_first(), next));
        assert forall|y: Seq<char>| covered(acc, y) implies #[trigger] covered(r, y) by {
            if !has_path(acc, xs[0]) {
                lemma_covered_push(acc, xs[0], y);
            }
        }
        assert(covered(next, xs[0])) by {
            if !has_path(acc, xs[0]) {
                assert(next[acc.len() as int] == xs[0]);
            }
        }
        assert forall|k: int| 0 <= k < xs.len() implies covered(r, #[trigger] xs[k]) by {
            if k > 0 {
                assert(xs[k] == xs.drop_first()[k - 1]);
            }
        }
    }
}

// ── applying the edits of one file ───────────────────────────────────────────

/// Where a stable insertion puts `x` into `s`, which runs by descending
/// start: after every edit starting at or after `x`.
pub open spec fn desc_pos(s: Seq<EditSpec>, x: EditSpec) -> nat
    decreases s.len(),
{
    if s.len() == 0 {
        0
    } else if s.last().start < x.start {
        desc_pos(s.drop_last(), x)
    } else {
        s.len()
    }
}

/// `es` stably sorted by descending start: the order the edits are
/// applied in.
pub open spec fn desc_sorted(es: Seq<EditSpec>) -> Seq<EditSpec>
    decreases es.len(),
{
    if es.len() == 0 {
        Seq::empty()
    } else {
        let r = desc_sorted(es.drop_last());
        r.insert(desc_pos(r, es.last()) as int, es.last())
    }
}

proof fn lemma_desc_pos(s: Seq<EditSpec>, x: EditSpec)
    ensures
        desc_pos(s, x) <= s.len(),
    decreases s.len(),
{
    if s.len() > 0 && s.last().start < x.start {
        lemma_desc_pos(s.drop_last(), x);
    }
}

proof fn lemma_desc_sorted_len(es: Seq<EditSpec>)
    ensures
        desc_sorted(es).len() == es.len(),
    decreases es.len(),
{
    if es.len() > 0 {
        lemma_desc_sorted_len(es.drop_last());
        lemma_desc_pos(desc_sorted(es.drop_last()), es.last());
    }
}

/// The first `j` from `j` on where edit `asc[j]` ends after the next one
/// starts.
pub open spec fn first_overlap(asc: Seq<EditSpec>, j: int) -> Option<int>
    decreases asc.len() - j,
{
    if j < 0 || j + 1 >= asc.len() {
        None
    } else if asc[j].end > asc[j + 1].start {
        Some(j)
    } else {
        first_overlap(asc, j + 1)
    }
}

/// The edits `ds[k..]` applied in turn to `s`, each range read in bytes
/// of the text as it stands; `Err(k)` names the first edit whose range
/// does not fit (past the end, off a character boundary, or backwards).
pub open spec fn apply_from(s: Seq<char>, ds: Seq<EditSpec>, k: int) -> Result<Seq<char>, int>
    decreases ds.len() - k,
{
    if k < 0 || k >= ds.len() {
        Ok(s)
    } else {
        let e = ds[k];
        match (crate::text::bytes_prefix_end(s, e.start), crate::text::bytes_prefix_end(s, e.end)) {
            (Some(a), Some(b)) => if a <= b {
                apply_from(s.take(a) + e.replacement + s.skip(b), ds, k + 1)
            } else {
                Err(k)
            },
            _ => Err(k),
        }
    }
}

/// `a..b` as `Debug` writes a range.
pub open spec fn range_text(e: EditSpec) -> Seq<char> {
    crate::text::decimal(e.start as nat) + ".."@ + crate::text::decimal(e.end as nat)
}

/// `content` of the file at `path` with `edits` applied from the end
/// backwards, or the error text: overlapping edits (the first pair by
/// ascending start) are refused before anything is applied, and an edit
/// whose range does not fit the text is refused.
pub open spec fn edits_outcome(path: Seq<char>, content: Seq<char>, edits: Seq<EditSpec>) -> Result<Seq<char>, Seq<char>> {
    let ds = desc_sorted(edits);
    let asc = ds.reverse();
    match first_overlap(asc, 0) {
        Some(j) => Err(
            "planner produced overlapping edits for "@ + path + " ("@ + range_text(asc[j]) + " vs "@ + range_text(
                asc[j + 1],
            ) + ")"@,
        ),
        None => match apply_from(content, ds, 0) {
            Ok(t) => Ok(t),
            Err(k) => Err("edit "@ + range_text(ds[k]) + " does not fit "@ + path),
        },
    }
}

fn push_range_text(out: &mut String, e: &FileEdit)
    ensures
        final(out)@ == old(out)@ + range_text(edit_view(*e)),
{
    let a = crate::text::usize_to_string(e.byte_range.start);
    let b = crate::text::usize_to_string(e.byte_range.end);
    push_str(out, a.as_str());
    push_str(out, "..");
    push_str(out, b.as_str());
}

/// Apply the edits of the file at `path` to its `content` (see
/// [`edits_outcome`]).
pub fn apply_edits(path: &str, content: &str, edits: &Vec<FileEdit>) -> (r: Result<String, Error>)
    ensures
        match r {
            Ok(t) => edits_outcome(path@, content@, edits_view(edits@)) == Ok::<Seq<char>, Seq<char>>(t@),
            Err(e) => e matches Error::Notes(m) && edits_outcome(path@, content@, edits_view(edits@)) == Err::<
                Seq<char>,
                Seq<char>,
            >(m@),
        },
{
    let ghost ev = edits_view(edits@);
    // the application order, as indices into `edits`
    let mut order: Vec<usize> = Vec::new();
    let mut i: usize = 0;
    proof {
        assert(ev.take(0) =~= Seq::<EditSpec>::empty());
        assert(order@.map_values(|k: usize| ev[k as int]) =~= Seq::<EditSpec>::empty());
    }
    while i < edits.len()
        invariant
            i <= edits@.len() == ev.len(),
            ev == edits_view(edits@),
            forall|j: int| 0 <= j < order@.len() ==> #[trigger] order@[j] < edits@.len(),
            order@.map_values(|k: usize| ev[k as int]) == desc_sorted(ev.take(i as int)),
        decreases edits@.len() - i,
    {
        let ghost sorted = order@.map_values(|k: usize| ev[k as int]);
        let x = edits[i].byte_range.start;
        let mut p = order.len();
        proof {
            assert(sorted.take(p as int) =~= sorted);
            assert(ev[i as int] == edit_view(edits@[i as int]));
        }
        while p > 0 && edits[order[p - 1]].byte_range.start < x
            invariant
                p <= order@.len(),
                sorted == order@.map_values(|k: usize| ev[k as int]),
                forall|j: int| 0 <= j < order@.len() ==> #[trigger] order@[j] < edits@.len(),
                ev == edits_view(edits@),
                i < edits@.len(),
                x == ev[i as int].start,
                desc_pos(sorted, ev[i as int]) == desc_pos(sorted.take(p as int), ev[i as int]),
            decreases p,
        {
            proof {
                assert(sorted.take(p as int).drop_last() =~= sorted.take(p - 1));
                assert(sorted[p - 1] == ev[order@[p - 1] as int]);
                assert(ev[order@[p - 1] as int] == edit_view(edits@[order@[p - 1] as int]));
            }
            p -= 1;
        }
        proof {
            if p > 0 {
                assert(sorted[p - 1] == ev[order@[p - 1] as int]);
                assert(ev[order@[p - 1] as int] == edit_view(edits@[order@[p - 1] as int]));
                assert(sorted.take(p as int).last() == sorted[p - 1]);
            }
            assert(desc_pos(sorted, ev[i as int]) == p);
            assert(ev.take(i + 1).drop_last() =~= ev.take(i as int));
            assert(ev.take(i + 1).last() == ev[i as int]);
        }
        let ghost before = order@;
        order.insert(p, i);
        proof {
            assert(order@ == before.insert(p as int, i));
            assert(order@.map_values(|k: usize| ev[k as int]) =~= sorted.insert(p as int, ev[i as int]));
            assert forall|j: int| 0 <= j < order@.len() implies #[trigger] order@[j] < edits@.len() by {
                if j < p {
                    assert(order@[j] == before[j]);
                } else if j > p {
                    assert(order@[j] == before[j - 1]);
                }
            }
        }
        i += 1;
    }
    let ghost ds = order@.map_values(|k: usize| ev[k as int]);
    proof {
        assert(ev.take(i as int) =~= ev);
        assert(ds == desc_sorted(ev));
        lemma_desc_sorted_len(ev);
    }
    let n = order.len();
    let ghost asc = ds.reverse();
    // overlap check in ascending order
    let mut j: usize = 0;
    while n >= 2 && j <= n - 2
        invariant
            n == order@.len() == ds.len() == asc.len(),
            ds == order@.map_values(|k: usize| ev[k as int]),
            ds == desc_sorted(ev),
            asc == ds.reverse(),
            ev == edits_view(edits@),
            forall|q: int| 0 <= q < order@.len() ==> #[trigger] order@[q] < edits@.len(),
            j < n || n == 0,
            first_overlap(asc, 0) == first_overlap(asc, j as int),
        decreases n - j,
    {
        let a = &edits[order[n - 1 - j]];
        let b = &edits[order[n - 2 - j]];
        proof {
            assert(asc[j as int] == ds[n - 1 - j]);
            assert(asc[j + 1] == ds[n - 2 - j]);
            assert(ds[n - 1 - j] == edit_view(edits@[order@[n - 1 - j] as int]));
            assert(ds[n - 2 - j] == edit_view(edits@[order@[n - 2 - j] as int]));
        }
        if a.byte_range.end > b.byte_range.start {
            let mut msg = crate::text::owned("planner produced overlapping edits for ");
            push_str(&mut msg, path);
            push_str(&mut msg, " (");
            push_range_text(&mut msg, a);
            push_str(&mut msg, " vs ");
            push_range_text(&mut msg, b);
            push_str(&mut msg, ")");
            proof {
                assert(first_overlap(asc, j as int) == Some(j as int));
                assert(msg@ =~= "planner produced overlapping edits for "@ + path@ + " ("@ + range_text(asc[j as int])
                    + " vs "@ + range_text(asc[j + 1]) + ")"@);
                assert(edits_outcome(path@, content@, ev) == Err::<Seq<char>, Seq<char>>(msg@));
            }
            return Err(Error::Notes(msg));
        }
        j += 1;
    }
    proof {
        assert(first_overlap(asc, j as int) is None);
    }
    // apply from the end backwards
    let mut cur = crate::text::to_chars(content);
    let mut k: usize = 0;
    while k < n
        invariant
            k <= n == order@.len() == ds.len(),
            ds == order@.map_values(|q: usize| ev[q as int]),
            ds == desc_sorted(ev),
            first_overlap(ds.reverse(), 0) is None,
            ev == edits_view(edits@),
            forall|q: int| 0 <= q < order@.len() ==> #[trigger] order@[q] < edits@.len(),
            apply_from(content@, ds, 0) == apply_from(cur@, ds, k as int),
        decreases n - k,
    {
        let e = &edits[order[k]];
        proof {
            assert(ds[k as int] == edit_view(edits@[order@[k as int] as int]));
            assert(cur@.skip(0) =~= cur@);
        }
        let a = crate::text::prefix_bytes_end(&cur, 0, e.byte_range.start);
        let b = crate::text::prefix_bytes_end(&cur, 0, e.byte_range.end);
        let fits = match (a, b) {
            (Some(a), Some(b)) => a <= b,
            _ => false,
        };
        if !fits {
            let mut msg = crate::text::owned("edit ");
            push_range_text(&mut msg, e);
            push_str(&mut msg, " does not fit ");
            push_str(&mut msg, path);
            proof {
                assert(apply_from(cur@, ds, k as int) == Err::<Seq<char>, int>(k as int));
                assert(msg@ =~= "edit "@ + range_text(ds[k as int]) + " does not fit "@ + path@);
                assert(edits_outcome(path@, content@, ev) == Err::<Seq<char>, Seq<char>>(msg@));
            }
            return Err(Error::Notes(msg));
        }
        let a = a.unwrap();
        let b = b.unwrap();
        let mut next: Vec<char> = Vec::new();
        let mut t: usize = 0;
        while t < a
            invariant
                t <= a <= cur@.len(),
                next@ == cur@.take(t as int),
            decreases a - t,
        {
            next.push(cur[t]);
            t += 1;
            proof {
                assert(next@ =~= cur@.take(t as int));
            }
        }
        let rc = crate::text::to_chars(e.replacement.as_str());
        let ghost mid = next@;
        let mut t: usize = 0;
        while t < rc.len()
            invariant
                t <= rc@.len(),
                next@ == mid + rc@.take(t as int),
            decreases rc@.len() - t,
        {
            next.push(rc[t]);
            t += 1;
            proof {
                assert(next@ =~= mid + rc@.take(t as int));
            }
        }
        let ghost mid2 = next@;
        let mut t: usize = b;
        proof {
            assert(rc@.take(rc@.len() as int) =~= rc@);
        }
        while t < cur.len()
            invariant
                b <= t <= cur@.len(),
                next@ == mid2 + cur@.subrange(b as int, t as int),
            decreases cur@.len() - t,
        {
            next.push(cur[t]);
            t += 1;
            proof {
                assert(next@ =~= mid2 + cur@.subrange(b as int, t as int));
            }
        }
        proof {
            assert(cur@.subrange(b as int, cur@.len() as int) =~= cur@.skip(b as int));
            assert(next@ =~= cur@.take(a as int) + e.replacement@ + cur@.skip(b as int));
        }
        cur = next;
        k += 1;
    }
    Ok(crate::text::string_of_all(&cur))
}

// ── the edits land in place ──────────────────────────────────────────────────

/// Edit `e`'s byte range runs forwards and falls on character boundaries
/// of `s`.
pub open spec fn fits(s: Seq<char>, e: EditSpec) -> bool {
    &&& e.start <= e.end
    &&& crate::text::bytes_prefix_end(s, e.start) is Some
    &&& crate::text::bytes_prefix_end(s, e.end) is Some
}

/// Character index of byte offset `n` of `s`.
pub open spec fn char_at(s: Seq<char>, n: int) -> int {
    crate::text::bytes_prefix_end(s, n)->0
}

/// `s` from character `pos` on, with the edits `asc[j..]` (ascending, not
/// overlapping) each replacing its range: the text between the ranges
/// kept, each range's text replaced.
pub open spec fn spliced(s: Seq<char>, asc: Seq<EditSpec>, j: int, pos: int) -> Seq<char>
    decreases asc.len() - j,
{
    if j < 0 || j >= asc.len() {
        s.skip(pos)
    } else {
        s.subrange(pos, char_at(s, asc[j].start)) + asc[j].replacement + spliced(s, asc, j + 1, char_at(s, asc[j].end))
    }
}

proof fn lemma_bpe_mono(s: Seq<char>, n1: int, n2: int)
    requires
        n1 <= n2,
        crate::text::bytes_prefix_end(s, n1) is Some,
        crate::text::bytes_prefix_end(s, n2) is Some,
    ensures
        char_at(s, n1) <= char_at(s, n2),
    decreases s.len(),
{
    crate::text::lemma_bytes_prefix_end(s, n1);
    crate::text::lemma_bytes_prefix_end(s, n2);
    if n1 != 0 {
        let w = crate::text::char_width(s[0]);
        lemma_bpe_mono(s.drop_first(), n1 - w, n2 - w);
    }
}

proof fn lemma_bpe_append(x: Seq<char>, y: Seq<char>, n: int)
    requires
        crate::text::bytes_prefix_end(x, n) is Some,
    ensures
        crate::text::bytes_prefix_end(x + y, n) == crate::text::bytes_prefix_end(x, n),
    decreases x.len(),
{
    if n != 0 {
        assert((x + y).drop_first() =~= x.drop_first() + y);
        assert((x + y)[0] == x[0]);
        lemma_bpe_append(x.drop_first(), y, n - crate::text::char_width(x[0]));
    }
}

proof fn lemma_bpe_take(s: Seq<char>, kk: int, n: int)
    requires
        crate::text::bytes_prefix_end(s, n) is Some,
        char_at(s, n) <= kk <= s.len(),
    ensures
        crate::text::bytes_prefix_end(s.take(kk), n) == crate::text::bytes_prefix_end(s, n),
    decreases s.len(),
{
    if n != 0 {
        crate::text::lemma_bytes_prefix_end(s.drop_first(), n - crate::text::char_width(s[0]));
        assert(s.take(kk).drop_first() =~= s.drop_first().take(kk - 1));
        assert(s.take(kk)[0] == s[0]);
        lemma_bpe_take(s.drop_first(), kk - 1, n - crate::text::char_width(s[0]));
    }
}

proof fn lemma_apply_shift(t: Seq<char>, x: EditSpec, l: Seq<EditSpec>, k: int)
    requires
        0 <= k,
    ensures
        apply_from(t, seq![x] + l, k + 1) == match apply_from(t, l, k) {
            Ok(v) => Ok::<Seq<char>, int>(v),
            Err(i) => Err(i + 1),
        },
    decreases l.len() - k,
{
    let xl = seq![x] + l;
    if k < l.len() {
        assert(xl[k + 1] == l[k]);
        let e = l[k];
        match (crate::text::bytes_prefix_end(t, e.start), crate::text::bytes_prefix_end(t, e.end)) {
            (Some(a), Some(b)) => if a <= b {
                lemma_apply_shift(t.take(a) + e.replacement + t.skip(b), x, l, k + 1);
            },
            _ => {},
        }
    }
}

/// The byte offsets below `m` of the edited text `s1` are those of `s`.
proof fn lemma_prefix_positions(s: Seq<char>, a: int, b: int, r: Seq<char>, n: int)
    requires
        0 <= a <= b <= s.len(),
        crate::text::bytes_prefix_end(s, n) is Some,
        char_at(s, n) <= a,
    ensures
        crate::text::bytes_prefix_end(s.take(a) + r + s.skip(b), n) == crate::text::bytes_prefix_end(s, n),
{
    lemma_bpe_take(s, a, n);
    lemma_bpe_append(s.take(a), r + s.skip(b), n);
    assert(s.take(a) + r + s.skip(b) =~= s.take(a) + (r + s.skip(b)));
}

/// Edits `asc[..m]`, in order and not overlapping, applied from the last
/// backwards, give the spliced text.
proof fn lemma_apply_splices(s: Seq<char>, asc: Seq<EditSpec>, m: int)
    requires
        0 <= m <= asc.len(),
        forall|j: int| 0 <= j < m ==> fits(s, #[trigger] asc[j]),
        forall|j: int| 0 <= j < m - 1 ==> (#[trigger] asc[j]).end <= asc[j + 1].start,
    ensures
        apply_from(s, asc.take(m).reverse(), 0) == Ok::<Seq<char>, int>(spliced(s, asc.take(m), 0, 0)),
    decreases m,
{
    if m == 0 {
        assert(asc.take(0).reverse() =~= Seq::<EditSpec>::empty());
        assert(s.skip(0) =~= s);
    } else {
        let x = asc[m - 1];
        let a = char_at(s, x.start);
        let b = char_at(s, x.end);
        crate::text::lemma_bytes_prefix_end(s, x.start);
        crate::text::lemma_bytes_prefix_end(s, x.end);
        lemma_bpe_mono(s, x.start, x.end);
        let s1 = s.take(a) + x.replacement + s.skip(b);
        let prev = asc.take(m - 1);
        assert(asc.take(m).reverse() =~= seq![x] + prev.reverse());
        lemma_apply_shift(s1, x, prev.reverse(), 0);
        // the earlier edits sit before `a`, where `s1` is `s`
        assert forall|j: int| 0 <= j < m - 1 implies crate::text::bytes_prefix_end(s1, (#[trigger] asc[j]).start)
            == crate::text::bytes_prefix_end(s, asc[j].start) && crate::text::bytes_prefix_end(s1, asc[j].end)
            == crate::text::bytes_prefix_end(s, asc[j].end) && char_at(s, asc[j].end) <= a by {
            lemma_chain_before(s, asc, j, m - 1);
            lemma_bpe_mono(s, asc[j].start, asc[j].end);
            lemma_prefix_positions(s, a, b, x.replacement, asc[j].start);
            lemma_prefix_positions(s, a, b, x.replacement, asc[j].end);
        }
        assert forall|j: int| 0 <= j < m - 1 implies fits(s1, #[trigger] prev[j]) by {
            assert(prev[j] == asc[j]);
        }
        assert forall|j: int| 0 <= j < m - 2 implies (#[trigger] prev[j]).end <= prev[j + 1].start by {
            assert(prev[j] == asc[j] && prev[j + 1] == asc[j + 1]);
        }
        lemma_apply_splices(s1, prev, m - 1);
        assert(prev.take(m - 1) =~= prev);
        crate::text::lemma_bytes_prefix_end(s, asc[0].start);
        lemma_splice_extend(s, asc, m, 0, 0);
        let q = asc.take(m);
        assert(q.reverse()[0] == x);
        assert(q.reverse() == seq![x] + prev.reverse());
        assert(apply_from(s1, prev.reverse(), 0) == Ok::<Seq<char>, int>(spliced(s1, prev, 0, 0)));
        assert(apply_from(s1, q.reverse(), 1) == Ok::<Seq<char>, int>(spliced(s1, prev, 0, 0)));
        assert(spliced(s1, prev, 0, 0) == spliced(s, q, 0, 0));
        assert(apply_from(s, q.reverse(), 0) == apply_from(s1, q.reverse(), 1));
    }
}

/// Edit `asc[j]` ends, in characters, no later than `asc[k]` starts.
proof fn lemma_chain_before(s: Seq<char>, asc: Seq<EditSpec>, j: int, k: int)
    requires
        0 <= j < k < asc.len(),
        forall|i: int| 0 <= i <= k ==> fits(s, #[trigger] asc[i]),
        forall|i: int| 0 <= i < k ==> (#[trigger] asc[i]).end <= asc[i + 1].start,
    ensures
        asc[j].end <= asc[k].start,
        char_at(s, asc[j].end) <= char_at(s, asc[k].start),
    decreases k - j,
{
    if j + 1 < k {
        lemma_chain_before(s, asc, j + 1, k);
        assert(fits(s, asc[j + 1]));
    }
    assert(fits(s, asc[j]));
    assert(fits(s, asc[k]));
    lemma_bpe_mono(s, asc[j].end, asc[k].start);
}

/// Splicing the first `m - 1` edits into `s` with edit `m - 1` already
/// applied is splicing all `m` into `s`.
proof fn lemma_splice_extend(s: Seq<char>, asc: Seq<EditSpec>, m: int, j: int, pos: int)
    requires
        1 <= m <= asc.len(),
        0 <= j <= m - 1,
        forall|i: int| 0 <= i < m ==> fits(s, #[trigger] asc[i]),
        forall|i: int| 0 <= i < m - 1 ==> (#[trigger] asc[i]).end <= asc[i + 1].start,
        0 <= pos <= char_at(s, (if j < m - 1 { asc[j] } else { asc[m - 1] }).start),
    ensures
        ({
            let x = asc[m - 1];
            let s1 = s.take(char_at(s, x.start)) + x.replacement + s.skip(char_at(s, x.end));
            spliced(s1, asc.take(m - 1), j, pos) == spliced(s, asc.take(m), j, pos)
        }),
    decreases m - j,
{
    let x = asc[m - 1];
    let a = char_at(s, x.start);
    let b = char_at(s, x.end);
    crate::text::lemma_bytes_prefix_end(s, x.start);
    crate::text::lemma_bytes_prefix_end(s, x.end);
    lemma_bpe_mono(s, x.start, x.end);
    let s1 = s.take(a) + x.replacement + s.skip(b);
    let p = asc.take(m - 1);
    let q = asc.take(m);
    if j == m - 1 {
        assert(q[j] == x);
        assert(s1.skip(pos) =~= s.subrange(pos, a) + x.replacement + s.skip(b));
        assert(spliced(s, q, j + 1, b) == s.skip(b));
        assert(spliced(s, q, j, pos) =~= s.subrange(pos, a) + x.replacement + s.skip(b));
    } else {
        let e = asc[j];
        assert(p[j] == e && q[j] == e);
        lemma_chain_before(s, asc, j, m - 1);
        lemma_bpe_mono(s, e.start, e.end);
        lemma_prefix_positions(s, a, b, x.replacement, e.start);
        lemma_prefix_positions(s, a, b, x.replacement, e.end);
        let ea = char_at(s, e.start);
        let eb = char_at(s, e.end);
        crate::text::lemma_bytes_prefix_end(s, e.start);
        if j + 1 < m - 1 {
            lemma_chain_before(s, asc, j, j + 1);
        }
        lemma_splice_extend(s, asc, m, j + 1, eb);
        assert(s1.subrange(pos, ea) =~= s.subrange(pos, ea));
    }
}

/// Applying the edits of a file puts each replacement where its range
/// was and keeps the text between the ranges, whatever order the edits
/// were given in, when no two overlap and each range falls on character
/// boundaries of the text.
pub proof fn lemma_edits_land_in_place(path: Seq<char>, content: Seq<char>, edits: Seq<EditSpec>)
    requires
        first_overlap(desc_sorted(edits).reverse(), 0) is None,
        forall|k: int| 0 <= k < edits.len() ==> fits(content, #[trigger] edits[k]),
    ensures
        edits_outcome(path, content, edits) == Ok::<Seq<char>, Seq<char>>(
            spliced(content, desc_sorted(edits).reverse(), 0, 0),
        ),
{
    let ds = desc_sorted(edits);
    let asc = ds.reverse();
    lemma_desc_sorted_len(edits);
    lemma_desc_sorted_members(edits);
    assert forall|j: int| 0 <= j < asc.len() implies fits(content, #[trigger] asc[j]) by {
        assert(asc[j] == ds[ds.len() - 1 - j]);
        let k = choose|k: int| 0 <= k < edits.len() && edits[k] == ds[ds.len() - 1 - j];
        assert(fits(content, edits[k]));
    }
    lemma_no_overlap_chain(asc, 0);
    lemma_apply_splices(content, asc, asc.len() as int);
    assert(asc.take(asc.len() as int) =~= asc);
    assert(asc.reverse() =~= ds);
}

proof fn lemma_no_overlap_chain(asc: Seq<EditSpec>, j: int)
    requires
        0 <= j,
        first_overlap(asc, j) is None,
    ensures
        forall|i: int| j <= i < asc.len() - 1 ==> (#[trigger] asc[i]).end <= asc[i + 1].start,
    decreases asc.len() - j,
{
    if j + 1 < asc.len() {
        lemma_no_overlap_chain(asc, j + 1);
    }
}

proof fn lemma_desc_sorted_members(es: Seq<EditSpec>)
    ensures
        forall|i: int| 0 <= i < desc_sorted(es).len() ==> es.contains(#[trigger] desc_sorted(es)[i]),
    decreases es.len(),
{
    if es.len() > 0 {
        let init = es.drop_last();
        lemma_desc_sorted_members(init);
        let r = desc_sorted(init);
        let p = desc_pos(r, es.last()) as int;
        lemma_desc_pos(r, es.last());
        lemma_desc_sorted_len(init);
        let t = r.insert(p, es.last());
        assert forall|i: int| 0 <= i < t.len() implies es.contains(#[trigger] t[i]) by {
            if i < p {
                assert(t[i] == r[i]);
                let k = choose|k: int| 0 <= k < init.len() && init[k] == r[i];
                assert(es[k] == init[k]);
            } else if i == p {
                assert(es[es.len() - 1] == es.last());
            } else {
                assert(t[i] == r[i - 1]);
                let k = choose|k: int| 0 <= k < init.len() && init[k] == r[i - 1];
                assert(es[k] == init[k]);
            }
        }
    }
}

// ── freshness ────────────────────────────────────────────────────────────────

/// The state of a touched file when the plan was made: its modification
/// time (nanoseconds since the epoch) and length.
pub struct FileSnapshot {
    pub path: String,
    pub mtime: i128,
    pub len: u64,
}

/// The first `k` from `k` on whose file has changed: `now[k]` (length,
/// modification time) differs from the snapshot, or no state is given.
pub open spec fn stale_from(snaps: Seq<(u64, i128)>, now: Seq<(u64, i128)>, k: int) -> Option<int>
    decreases snaps.len() - k,
{
    if k < 0 || k >= snaps.len() {
        None
    } else if k >= now.len() || now[k] != snaps[k] {
        Some(k)
    } else {
        stale_from(snaps, now, k + 1)
    }
}

/// The index of the first snapshot whose file has changed since, given
/// each file's state now (length, modification time) in snapshot order;
/// `None` when all are fresh.
pub fn first_stale(snapshots: &Vec<FileSnapshot>, now: &Vec<(u64, i128)>) -> (r: Option<usize>)
    ensures
        r matches Some(k) ==> k < snapshots@.len(),
        (match r {
            Some(k) => Some(k as int),
            None => None,
        }) == stale_from(snapshots@.map_values(|s: FileSnapshot| (s.len, s.mtime)), now@, 0),
{
    let ghost sv = snapshots@.map_values(|s: FileSnapshot| (s.len, s.mtime));
    let mut k: usize = 0;
    while k < snapshots.len()
        invariant
            k <= snapshots@.len() == sv.len(),
            sv == snapshots@.map_values(|s: FileSnapshot| (s.len, s.mtime)),
            stale_from(sv, now@, 0) == stale_from(sv, now@, k as int),
        decreases snapshots@.len() - k,
    {
        proof {
            assert(sv[k as int] == (snapshots@[k as int].len, snapshots@[k as int].mtime));
        }
        if k >= now.len() || now[k].0 != snapshots[k].len || now[k].1 != snapshots[k].mtime {
            return Some(k);
        }
        k += 1;
    }
    None
}

} // verus!
