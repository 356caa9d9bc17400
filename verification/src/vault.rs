//! The vault: locating it, choosing which files to scan, and reading the
//! tasks of one file.
//!
//! Walking the file system, reading files and probing for `.obsidian/`
//! are the caller's; this module decides from what the caller found.

use vstd::prelude::*;

use crate::error::Error;
use crate::task::emoji::{parse_line, parse_task};
use crate::task::format::ParseContext;
use crate::task::hierarchy::resolve_hierarchy;
use crate::task::{Task, TaskSpec};
use crate::text::{lines, push_str, split_lines, string_of_all, to_chars};

verus! {

/// Folders excluded from scanning by default, besides `.gitignore` and
/// the configured `ignored_paths`.
pub open spec fn default_ignored() -> Seq<Seq<char>> {
    seq![".obsidian"@, ".git"@, "attachments"@]
}

/// The override pattern that excludes the configured path `p`: a folder
/// (ending in `/`) excludes everything below it.
pub open spec fn exclude_pattern(p: Seq<char>) -> Seq<char> {
    if p.len() > 0 && p.last() == '/' {
        seq!['!'] + p + seq!['*', '*']
    } else {
        seq!['!'] + p
    }
}

/// The override patterns of a scan: the default folders, then each
/// configured path, in order.
pub open spec fn scan_overrides(ignored: Seq<Seq<char>>) -> Seq<Seq<char>> {
    default_ignored().map_values(|d: Seq<char>| seq!['!'] + d + seq!['/', '*', '*']) + ignored.map_values(
        |p: Seq<char>| exclude_pattern(p),
    )
}

fn push_default_override(out: &mut Vec<String>, d: &str)
    ensures
        final(out)@.len() == old(out)@.len() + 1,
        forall|k: int| 0 <= k < old(out)@.len() ==> final(out)@[k] == old(out)@[k],
        final(out)@[old(out)@.len() as int]@ == seq!['!'] + d@ + seq!['/', '*', '*'],
{
    let mut s = String::new();
    push_str(&mut s, "!");
    push_str(&mut s, d);
    push_str(&mut s, "/**");
    proof {
        reveal_strlit("!");
        reveal_strlit("/**");
        assert(s@ =~= seq!['!'] + d@ + seq!['/', '*', '*']);
    }
    out.push(s);
}

/// The ignore-override patterns for scanning a vault whose configuration
/// excludes `ignored_paths` (see [`scan_overrides`]).
pub fn scan_override_patterns(ignored_paths: &Vec<String>) -> (r: Vec<String>)
    ensures
        crate::task::strings_view(r@) == scan_overrides(crate::task::strings_view(ignored_paths@)),
{
    let ghost iv = crate::task::strings_view(ignored_paths@);
    let ghost target = scan_overrides(iv);
    let mut out: Vec<String> = Vec::new();
    push_default_override(&mut out, ".obsidian");
    push_default_override(&mut out, ".git");
    push_default_override(&mut out, "attachments");
    proof {
        reveal_strlit(".obsidian");
        reveal_strlit(".git");
        reveal_strlit("attachments");
        assert(crate::task::strings_view(out@) =~= target.take(3));
    }
    let mut i: usize = 0;
    while i < ignored_paths.len()
        invariant
            i <= ignored_paths@.len() == iv.len(),
            iv == crate::task::strings_view(ignored_paths@),
            target == scan_overrides(iv),
            target.len() == 3 + iv.len(),
            crate::task::strings_view(out@) == target.take(3 + i),
        decreases ignored_paths@.len() - i,
    {
        let p = ignored_paths[i].as_str();
        let mut s = String::new();
        push_str(&mut s, "!");
        push_str(&mut s, p);
        let cs = to_chars(p);
        if cs.len() > 0 && cs[cs.len() - 1] == '/' {
            push_str(&mut s, "**");
        }
        proof {
            reveal_strlit("!");
            reveal_strlit("**");
            assert(iv[i as int] == p@);
            assert(s@ =~= exclude_pattern(p@));
            assert(target[3 + i] == exclude_pattern(iv[i as int]));
        }
        let ghost before = crate::task::strings_view(out@);
        out.push(s);
        proof {
            assert(crate::task::strings_view(out@) =~= before.push(exclude_pattern(p@)));
            assert(target.take(3 + i + 1) =~= target.take(3 + i).push(target[3 + i]));
        }
        i += 1;
    }
    proof {
        assert(target.take(3 + i) =~= target);
    }
    out
}

// ── the tasks of one file ────────────────────────────────────────────────────

/// The tasks of lines `ls[..k]` of the file at `rel`, each with its
/// 1-indexed line, before parent links are set.
pub open spec fn file_tasks(ls: Seq<Seq<char>>, rel: Seq<char>, k: int) -> Seq<TaskSpec>
    decreases k,
{
    if k <= 0 {
        Seq::empty()
    } else {
        let prev = file_tasks(ls, rel, k - 1);
        match parse_task(ls[k - 1], rel, k as nat) {
            Some(t) => prev.push(t),
            None => prev,
        }
    }
}

/// The index of the nearest task before `j` whose indent is smaller than
/// `indent`.
pub open spec fn nearest_smaller(ts: Seq<TaskSpec>, indent: nat, j: int) -> Option<int>
    decreases j,
{
    if j <= 0 {
        None
    } else if ts[j - 1].indent_level < indent {
        Some(j - 1)
    } else {
        nearest_smaller(ts, indent, j - 1)
    }
}

/// `ts` with each task's parent set to the line of its nearest preceding
/// task of smaller indent (`None` when there is none).
pub open spec fn with_parents(ts: Seq<TaskSpec>) -> Seq<TaskSpec> {
    Seq::new(
        ts.len(),
        |i: int|
            TaskSpec {
                parent: match nearest_smaller(ts, ts[i].indent_level, i) {
                    Some(k) => Some(ts[k].source_line as usize),
                    None => None,
                },
                ..ts[i]
            },
    )
}

/// The tasks of the file at `rel` whose text is `content`.
pub open spec fn tasks_of_file(content: Seq<char>, rel: Seq<char>) -> Seq<TaskSpec> {
    let ls = lines(content);
    with_parents(file_tasks(ls, rel, ls.len() as int))
}

pub open spec fn task_views(v: Seq<Task>) -> Seq<TaskSpec> {
    v.map_values(|t: Task| t@)
}

proof fn lemma_nearest_views(ts: Seq<Task>, indent: usize, j: int)
    requires
        j <= ts.len(),
    ensures
        crate::task::hierarchy::nearest_parent(ts, indent, j) == nearest_smaller(task_views(ts), indent as nat, j),
    decreases j,
{
    if j > 0 {
        assert(task_views(ts)[j - 1] == ts[j - 1]@);
        lemma_nearest_views(ts, indent, j - 1);
    }
}

fn clone_str(s: &String) -> (r: String)
    ensures
        r@ == s@,
{
    s.clone()
}

/// The tasks of a file, in line order, with parent links between them:
/// `rel` is the file's vault-relative path and `content` its text.
pub fn parse_file_content(rel: &String, content: &str) -> (r: Vec<Task>)
    ensures
        task_views(r@) == tasks_of_file(content@, rel@),
{
    let cs = to_chars(content);
    let ls = split_lines(&cs);
    let ghost lv = lines(content@);
    let mut tasks: Vec<Task> = Vec::new();
    let mut i: usize = 0;
    proof {
        assert(task_views(tasks@) =~= file_tasks(lv, rel@, 0));
    }
    while i < ls.len()
        invariant
            cs@ == content@,
            lv == lines(content@),
            ls@.len() == lv.len(),
            forall|k: int| 0 <= k < ls@.len() ==> #[trigger] ls@[k]@ == lv[k],
            i <= ls@.len(),
            task_views(tasks@) == file_tasks(lv, rel@, i as int),
        decreases ls@.len() - i,
    {
        let line = string_of_all(&ls[i]);
        let ctx = ParseContext { source_file: clone_str(rel), source_line: i + 1 };
        let parsed = parse_line(line.as_str(), ctx);
        let ghost before = task_views(tasks@);
        proof {
            assert(line@ == lv[i as int]);
        }
        match parsed {
            Some(t) => {
                tasks.push(t);
                proof {
                    assert(task_views(tasks@) =~= before.push(t@));
                }
            },
            None => {},
        }
        i += 1;
    }
    let ghost raw = tasks@;
    resolve_hierarchy(&mut tasks);
    proof {
        let rv = task_views(raw);
        assert(rv == file_tasks(lv, rel@, lv.len() as int));
        assert forall|k: int| 0 <= k < tasks@.len() implies task_views(tasks@)[k] == with_parents(rv)[k] by {
            lemma_nearest_views(raw, raw[k].indent_level, k);
            assert(rv[k] == raw[k]@);
            let n = crate::task::hierarchy::nearest_parent(raw, raw[k].indent_level, k);
            if n is Some {
                lemma_nearest_in_range(rv, rv[k].indent_level, k);
                assert(rv[n->0] == raw[n->0]@);
            }
        }
        assert(task_views(tasks@) =~= with_parents(rv));
    }
    tasks
}

proof fn lemma_nearest_in_range(ts: Seq<TaskSpec>, indent: nat, j: int)
    ensures
        nearest_smaller(ts, indent, j) matches Some(k) ==> 0 <= k < j,
    decreases j,
{
    if j > 0 && !(ts[j - 1].indent_level < indent) {
        lemma_nearest_in_range(ts, indent, j - 1);
    }
}


// ── locating the vault ───────────────────────────────────────────────────────

/// What the caller found about one place the vault may be.
pub struct Candidate {
    /// The place as it was given (shown in messages).
    pub given: String,
    /// The place made canonical, or as given when that failed.
    pub canonical: String,
    /// `canonical` holds an `.obsidian/` folder.
    pub has_obsidian: bool,
}

/// Outcome of the vault search: the vault's path, or every place tried,
/// one message each.
pub open spec fn vault_search(
    flag: Option<(Seq<char>, Seq<char>, bool)>,
    env: Option<(Seq<char>, Seq<char>, bool)>,
    cwd: Seq<char>,
    walk_found: Option<Seq<char>>,
    user_config: Seq<char>,
    default_vault: Option<(Seq<char>, Seq<char>, bool)>,
) -> Result<Seq<char>, Seq<Seq<char>>> {
    let m1 = match flag {
        Some((g, _, _)) => "  --vault "@ + g + ": no .obsidian/ found"@,
        None => "  --vault: not provided"@,
    };
    let m2 = match env {
        Some((g, _, _)) => "  $FT_VAULT="@ + g + ": no .obsidian/ found"@,
        None => "  $FT_VAULT: not set"@,
    };
    let m3 = "  CWD walk from "@ + cwd + ": no ancestor contains .obsidian/"@;
    let m4 = match default_vault {
        Some((g, _, _)) => "  "@ + user_config + ": default_vault="@ + g + ": no .obsidian/ found"@,
        None => "  "@ + user_config + ": default_vault not set"@,
    };
    if holds_vault(flag) {
        Ok(canonical_of(flag))
    } else if holds_vault(env) {
        Ok(canonical_of(env))
    } else if walk_found is Some {
        Ok(walk_found->0)
    } else if holds_vault(default_vault) {
        Ok(canonical_of(default_vault))
    } else {
        Err(seq![m1, m2, m3, m4])
    }
}

pub open spec fn opt_view(o: Option<String>) -> Option<Seq<char>> {
    match o {
        Some(w) => Some(w@),
        None => None,
    }
}

/// The candidate was given and holds `.obsidian/`.
pub open spec fn holds_vault(c: Option<(Seq<char>, Seq<char>, bool)>) -> bool {
    match c {
        Some((_, _, h)) => h,
        None => false,
    }
}

/// The canonical path of a given candidate.
pub open spec fn canonical_of(c: Option<(Seq<char>, Seq<char>, bool)>) -> Seq<char> {
    match c {
        Some((_, p, _)) => p,
        None => Seq::empty(),
    }
}

pub open spec fn candidate_view(c: Option<Candidate>) -> Option<(Seq<char>, Seq<char>, bool)> {
    match c {
        Some(x) => Some((x.given@, x.canonical@, x.has_obsidian)),
        None => None,
    }
}

fn message3(a: &str, b: &str, c: &str) -> (r: String)
    ensures
        r@ == a@ + b@ + c@,
{
    let mut s = String::new();
    push_str(&mut s, a);
    push_str(&mut s, b);
    push_str(&mut s, c);
    proof {
        assert(s@ =~= a@ + b@ + c@);
    }
    s
}

fn message_default_vault(user_config: &str, given: &str) -> (r: String)
    ensures
        r@ == "  "@ + user_config@ + ": default_vault="@ + given@ + ": no .obsidian/ found"@,
{
    let mut s = String::new();
    push_str(&mut s, "  ");
    push_str(&mut s, user_config);
    push_str(&mut s, ": default_vault=");
    push_str(&mut s, given);
    push_str(&mut s, ": no .obsidian/ found");
    proof {
        assert(s@ =~= "  "@ + user_config@ + ": default_vault="@ + given@ + ": no .obsidian/ found"@);
    }
    s
}

/// Pick the vault from what the caller found, in order of precedence: the
/// `--vault` flag, `$FT_VAULT` (when set and not empty), the nearest
/// ancestor of the working directory `cwd` holding `.obsidian/`
/// (`walk_found`), and `default_vault` of the user configuration at
/// `user_config`. A candidate counts only when it holds `.obsidian/`;
/// when none does, the error lists every place tried.
pub fn find_vault(
    flag: Option<Candidate>,
    env: Option<Candidate>,
    cwd: &str,
    walk_found: Option<String>,
    user_config: &str,
    default_vault: Option<Candidate>,
) -> (r: Result<String, Error>)
    ensures
        match (r, vault_search(candidate_view(flag), candidate_view(env), cwd@, opt_view(walk_found), user_config@, candidate_view(default_vault))) {
            (Ok(p), Ok(q)) => p@ == q,
            (Err(Error::VaultNotFound { tried }), Err(t)) => crate::task::strings_view(tried@) == t,
            _ => false,
        },
{
    let ghost fv = candidate_view(flag);
    let ghost ev = candidate_view(env);
    let ghost dv = candidate_view(default_vault);
    let ghost wv = opt_view(walk_found);
    let ghost spec_r = vault_search(fv, ev, cwd@, wv, user_config@, dv);
    let mut tried: Vec<String> = Vec::new();
    let m1 = match flag {
        Some(c) => {
            if c.has_obsidian {
                return Ok(c.canonical);
            }
            message3("  --vault ", c.given.as_str(), ": no .obsidian/ found")
        },
        None => message3("  --vault: not provided", "", ""),
    };
    let m2 = match env {
        Some(c) => {
            if c.has_obsidian {
                return Ok(c.canonical);
            }
            message3("  $FT_VAULT=", c.given.as_str(), ": no .obsidian/ found")
        },
        None => message3("  $FT_VAULT: not set", "", ""),
    };
    match walk_found {
        Some(w) => {
            return Ok(w);
        },
        None => {},
    }
    let m3 = message3("  CWD walk from ", cwd, ": no ancestor contains .obsidian/");
    let m4 = match default_vault {
        Some(c) => {
            if c.has_obsidian {
                return Ok(c.canonical);
            }
            message_default_vault(user_config, c.given.as_str())
        },
        None => message3("  ", user_config, ": default_vault not set"),
    };
    proof {
        reveal_strlit("");
        assert("  --vault: not provided"@ + ""@ + ""@ =~= "  --vault: not provided"@);
        assert("  $FT_VAULT: not set"@ + ""@ + ""@ =~= "  $FT_VAULT: not set"@);
    }
    tried.push(m1);
    tried.push(m2);
    tried.push(m3);
    tried.push(m4);
    proof {
        assert(crate::task::strings_view(tried@) =~= spec_r->Err_0);
    }
    Err(Error::VaultNotFound { tried })
}

/// What `Path::parent` gives for the path `p`: the path without its final
/// component, or `None` for a root or an empty path.
pub uninterp spec fn path_parent(p: Seq<char>) -> Option<Seq<char>>;

/// `Path::parent`. The result is named by [`path_parent`]; as the
/// documentation says it drops the final component, it is shorter than
/// `p`. Which component that is (separators, roots, prefixes) is not
/// written out here.
#[verifier::external_body]
fn parent_of(p: &str) -> (r: Option<String>)
    ensures
        r matches Some(q) ==> path_parent(p@) == Some(q@) && q@.len() < p@.len(),
        r is None ==> path_parent(p@) is None,
{
    std::path::Path::new(p).parent().map(|q| q.to_string_lossy().into_owned())
}

/// `p` and its ancestors, nearest first.
pub open spec fn ancestors_from(p: Seq<char>, fuel: nat) -> Seq<Seq<char>>
    decreases fuel,
{
    if fuel == 0 {
        seq![p]
    } else {
        match path_parent(p) {
            Some(q) => seq![p] + ancestors_from(q, (fuel - 1) as nat),
            None => seq![p],
        }
    }
}

/// The folders searched for `.obsidian/` when walking up from `start`:
/// `start`, its parent, and so on to the root. The caller takes the first
/// that holds `.obsidian/`.
pub fn walk_up_candidates(start: &str) -> (r: Vec<String>)
    ensures
        crate::task::strings_view(r@) == ancestors_from(start@, start@.len() as nat),
{
    let mut out: Vec<String> = Vec::new();
    let mut cur = String::new();
    push_str(&mut cur, start);
    let ghost mut k: nat = 0;
    loop
        invariant
            cur@.len() + k <= start@.len(),
            ancestors_from(start@, start@.len() as nat) == crate::task::strings_view(out@) + ancestors_from(cur@, (start@.len() - k) as nat),
        decreases cur@.len(),
    {
        let next = parent_of(cur.as_str());
        let ghost before = crate::task::strings_view(out@);
        let ghost cv = cur@;
        let ghost fuel = (start@.len() - k) as nat;
        match next {
            Some(q) => {
                proof {
                    assert(fuel > 0);
                    assert(ancestors_from(cv, fuel) == seq![cv] + ancestors_from(q@, (fuel - 1) as nat));
                }
                out.push(cur);
                cur = q;
                proof {
                    k = k + 1;
                    assert(crate::task::strings_view(out@) =~= before.push(cv));
                    assert(before + (seq![cv] + ancestors_from(cur@, (fuel - 1) as nat)) =~= before.push(cv) + ancestors_from(cur@, (fuel - 1) as nat));
                }
            },
            None => {
                proof {
                    assert(ancestors_from(cv, fuel) == seq![cv]);
                }
                out.push(cur);
                proof {
                    assert(crate::task::strings_view(out@) =~= before + seq![cv]);
                }
                return out;
            },
        }
    }
}

} // verus!
