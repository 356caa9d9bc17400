//! Vault-relative paths as the link graph reads them: a path is its
//! `'/'`-separated names, with empty names and `.` dropped.

use vstd::prelude::*;

use crate::text::{push_char, push_str};

verus! {

/// The `'/'`-separated pieces of `s`, empty ones included.
pub open spec fn slash_pieces(s: Seq<char>) -> Seq<Seq<char>>
    decreases s.len(),
{
    if s.len() == 0 {
        seq![Seq::empty()]
    } else {
        let r = slash_pieces(s.drop_last());
        if s.last() == '/' {
            r.push(Seq::empty())
        } else {
            r.update(r.len() - 1, r.last().push(s.last()))
        }
    }
}

proof fn lemma_slash_pieces_len(s: Seq<char>)
    ensures
        slash_pieces(s).len() >= 1,
    decreases s.len(),
{
    if s.len() > 0 {
        lemma_slash_pieces_len(s.drop_last());
    }
}

/// A piece that names something: not empty and not `.`.
pub open spec fn is_name(x: Seq<char>) -> bool {
    x.len() > 0 && x != seq!['.']
}

/// The names among `xs`, in order.
pub open spec fn names_of(xs: Seq<Seq<char>>) -> Seq<Seq<char>>
    decreases xs.len(),
{
    if xs.len() == 0 {
        Seq::empty()
    } else if is_name(xs.last()) {
        names_of(xs.drop_last()).push(xs.last())
    } else {
        names_of(xs.drop_last())
    }
}

/// The names of path `s`.
pub open spec fn segs(s: Seq<char>) -> Seq<Seq<char>> {
    names_of(slash_pieces(s))
}

/// `xs` joined with `'/'`.
pub open spec fn join_slash(xs: Seq<Seq<char>>) -> Seq<char>
    decreases xs.len(),
{
    if xs.len() == 0 {
        Seq::empty()
    } else if xs.len() == 1 {
        xs[0]
    } else {
        join_slash(xs.drop_last()) + seq!['/'] + xs.last()
    }
}

fn is_name_exec(x: &Vec<char>) -> (r: bool)
    ensures
        r == is_name(x@),
{
    let r = x.len() > 0 && !(x.len() == 1 && x[0] == '.');
    proof {
        if x@.len() == 1 {
            if x@[0] == '.' {
                assert(x@ =~= seq!['.']);
            } else {
                assert(x@ != seq!['.']) by {
                    assert(x@[0] != seq!['.'][0]);
                }
            }
        } else {
            assert(x@.len() != seq!['.'].len() ==> x@ != seq!['.']);
        }
    }
    r
}

/// The names of path `s` (see [`segs`]).
pub fn path_segments(s: &str) -> (r: Vec<Vec<char>>)
    ensures
        r@.map_values(|v: Vec<char>| v@) == segs(s@),
{
    let cs = crate::text::to_chars(s);
    let mut out: Vec<Vec<char>> = Vec::new();
    let mut cur: Vec<char> = Vec::new();
    let mut i: usize = 0;
    proof {
        assert(cs@.take(0) =~= Seq::<char>::empty());
        assert(slash_pieces(cs@.take(0)).drop_last() =~= Seq::<Seq<char>>::empty());
        assert(out@.map_values(|v: Vec<char>| v@) =~= Seq::<Seq<char>>::empty());
    }
    while i < cs.len()
        invariant
            i <= cs@.len(),
            cs@ == s@,
            out@.map_values(|v: Vec<char>| v@) == names_of(slash_pieces(cs@.take(i as int)).drop_last()),
            cur@ == slash_pieces(cs@.take(i as int)).last(),
        decreases cs@.len() - i,
    {
        let c = cs[i];
        let ghost pre = cs@.take(i as int);
        let ghost post = cs@.take(i + 1);
        proof {
            assert(post.drop_last() =~= pre);
            assert(post.last() == c);
            lemma_slash_pieces_len(pre);
        }
        if c == '/' {
            let ghost before = out@.map_values(|v: Vec<char>| v@);
            let ghost pp = slash_pieces(pre);
            proof {
                assert(slash_pieces(post) == pp.push(Seq::empty()));
                assert(slash_pieces(post).drop_last() =~= pp);
                assert(pp.drop_last().push(pp.last()) =~= pp);
            }
            if is_name_exec(&cur) {
                let mut fresh: Vec<char> = Vec::new();
                std::mem::swap(&mut fresh, &mut cur);
                out.push(fresh);
                proof {
                    assert(out@.map_values(|v: Vec<char>| v@) =~= before.push(pp.last()));
                }
            }
            cur = Vec::new();
            proof {
                assert(cur@ =~= slash_pieces(post).last());
            }
        } else {
            let ghost pp = slash_pieces(pre);
            proof {
                assert(slash_pieces(post) == pp.update(pp.len() - 1, pp.last().push(c)));
                assert(slash_pieces(post).drop_last() =~= pp.drop_last());
            }
            cur.push(c);
            proof {
                assert(cur@ =~= slash_pieces(post).last());
            }
        }
        i += 1;
    }
    proof {
        assert(cs@.take(i as int) =~= s@);
        lemma_slash_pieces_len(s@);
        assert(slash_pieces(s@).drop_last().push(slash_pieces(s@).last()) =~= slash_pieces(s@));
    }
    let ghost before = out@.map_values(|v: Vec<char>| v@);
    if is_name_exec(&cur) {
        out.push(cur);
        proof {
            assert(out@.map_values(|v: Vec<char>| v@) =~= before.push(slash_pieces(s@).last()));
        }
    }
    out
}

/// `xs` joined with `'/'` (see [`join_slash`]).
pub fn join_names(xs: &Vec<Vec<char>>) -> (r: String)
    ensures
        r@ == join_slash(xs@.map_values(|v: Vec<char>| v@)),
{
    let ghost xv = xs@.map_values(|v: Vec<char>| v@);
    let mut out = String::new();
    let mut i: usize = 0;
    proof {
        assert(out@ =~= Seq::<char>::empty());
        assert(xv.take(0) =~= Seq::<Seq<char>>::empty());
    }
    while i < xs.len()
        invariant
            i <= xs@.len() == xv.len(),
            xv == xs@.map_values(|v: Vec<char>| v@),
            out@ == join_slash(xv.take(i as int)),
        decreases xs@.len() - i,
    {
        let ghost prev = out@;
        proof {
            assert(xv.take(i + 1).drop_last() =~= xv.take(i as int));
            assert(xv.take(i + 1).last() == xs@[i as int]@);
        }
        if i > 0 {
            push_char(&mut out, '/');
        }
        crate::text::push_all(&mut out, &xs[i]);
        proof {
            if i == 0 {
                assert(xv.take(1) =~= seq![xs@[0]@]);
                assert(out@ =~= xs@[0]@);
            } else {
                assert(out@ =~= prev + seq!['/'] + xs@[i as int]@);
            }
        }
        i += 1;
    }
    proof {
        assert(xv.take(i as int) =~= xv);
    }
    out
}

// ── file names ───────────────────────────────────────────────────────────────

/// The last name of `p`, unless there is none or it is `..`.
pub open spec fn file_name(p: Seq<char>) -> Option<Seq<char>> {
    let ss = segs(p);
    if ss.len() == 0 || ss.last() == seq!['.', '.'] {
        None
    } else {
        Some(ss.last())
    }
}

/// `name` without its extension: the part before its last `.`, unless
/// that dot is the first character or there is none.
pub open spec fn stem_of(name: Seq<char>) -> Seq<char> {
    let k = crate::text::last_index(name, '.', name.len() as int);
    if k <= 0 {
        name
    } else {
        name.take(k)
    }
}

/// The extension of `name`: after its last `.`, unless that dot is the
/// first character or there is none.
pub open spec fn extension_of(name: Seq<char>) -> Option<Seq<char>> {
    let k = crate::text::last_index(name, '.', name.len() as int);
    if k <= 0 {
        None
    } else {
        Some(name.skip(k + 1))
    }
}

/// `Path::file_stem` of `p`.
pub open spec fn file_stem(p: Seq<char>) -> Option<Seq<char>> {
    match file_name(p) {
        Some(n) => Some(stem_of(n)),
        None => None,
    }
}

/// `Path::extension` of `p` is some.
pub open spec fn has_extension(p: Seq<char>) -> bool {
    match file_name(p) {
        Some(n) => extension_of(n) is Some,
        None => false,
    }
}

/// The last name of `p` as characters, if it is a file name.
pub fn file_name_exec(p: &str) -> (r: Option<Vec<char>>)
    ensures
        match r {
            Some(v) => file_name(p@) == Some(v@),
            None => file_name(p@) is None,
        },
{
    let mut ss = path_segments(p);
    let ghost sv = ss@.map_values(|v: Vec<char>| v@);
    if ss.len() == 0 {
        return None;
    }
    let last = ss.pop().unwrap();
    proof {
        assert(sv.last() == last@);
    }
    if last.len() == 2 && last[0] == '.' && last[1] == '.' {
        proof {
            assert(last@ =~= seq!['.', '.']);
        }
        None
    } else {
        proof {
            if last@.len() == 2 {
                assert(last@ != seq!['.', '.']) by {
                    if last@ == seq!['.', '.'] {
                        assert(last@[0] == '.' && last@[1] == '.');
                    }
                }
            } else {
                assert(last@.len() != seq!['.', '.'].len());
            }
        }
        Some(last)
    }
}

/// `Path::file_stem` of `p`.
pub fn file_stem_exec(p: &str) -> (r: Option<String>)
    ensures
        match r {
            Some(v) => file_stem(p@) == Some(v@),
            None => file_stem(p@) is None,
        },
{
    match file_name_exec(p) {
        Some(n) => {
            let k = crate::text::rfind_char(&n, '.');
            match k {
                Some(k) => if k == 0 {
                    Some(crate::text::string_of_all(&n))
                } else {
                    Some(crate::text::string_of(&n, 0, k))
                },
                None => Some(crate::text::string_of_all(&n)),
            }
        },
        None => None,
    }
}

/// Whether `Path::extension` of `p` is some.
pub fn has_extension_exec(p: &str) -> (r: bool)
    ensures
        r == has_extension(p@),
{
    match file_name_exec(p) {
        Some(n) => {
            let k = crate::text::rfind_char(&n, '.');
            match k {
                Some(k) => k > 0,
                None => false,
            }
        },
        None => false,
    }
}

// ── percent-encoding ─────────────────────────────────────────────────────────

/// A byte that `urlencoding::encode` writes as it is: an ASCII letter or
/// digit, `-`, `.`, `_` or `~`.
pub open spec fn url_safe(b: u8) -> bool {
    (48 <= b <= 57) || (65 <= b <= 90) || (97 <= b <= 122) || b == 45 || b == 46 || b == 95 || b == 126
}

/// An upper-case hex digit of `d < 16`.
pub open spec fn hex_upper(d: u8) -> char {
    if d < 10 {
        ((d + 48) as u32) as char
    } else {
        ((d + 55) as u32) as char
    }
}

/// `bytes` percent-encoded: every byte but the safe ones as `%XX`.
pub open spec fn url_encoded(bytes: Seq<u8>) -> Seq<char>
    decreases bytes.len(),
{
    if bytes.len() == 0 {
        Seq::empty()
    } else {
        let b = bytes.last();
        url_encoded(bytes.drop_last()) + if url_safe(b) {
            seq![(b as u32) as char]
        } else {
            seq!['%', hex_upper(b / 16), hex_upper(b % 16)]
        }
    }
}

/// `urlencoding::encode`: every byte of the UTF-8 text except ASCII
/// letters, digits and `-` `.` `_` `~` becomes `%` and two upper-case hex
/// digits.
#[verifier::external_body]
pub fn url_encode(s: &str) -> (r: String)
    ensures
        r@ == url_encoded(vstd::utf8::encode_utf8(s@)),
{
    urlencoding::encode(s).into_owned()
}

/// Append `xs` joined with `'/'` after `out`.
pub fn push_joined(out: &mut String, xs: &Vec<String>)
    ensures
        final(out)@ == old(out)@ + join_slash(xs@.map_values(|v: String| v@)),
{
    let ghost xv = xs@.map_values(|v: String| v@);
    let ghost base = out@;
    let mut i: usize = 0;
    proof {
        assert(xv.take(0) =~= Seq::<Seq<char>>::empty());
        assert(out@ =~= base + join_slash(xv.take(0)));
    }
    while i < xs.len()
        invariant
            i <= xs@.len() == xv.len(),
            xv == xs@.map_values(|v: String| v@),
            out@ == base + join_slash(xv.take(i as int)),
        decreases xs@.len() - i,
    {
        let ghost prev = out@;
        proof {
            assert(xv.take(i + 1).drop_last() =~= xv.take(i as int));
            assert(xv.take(i + 1).last() == xs@[i as int]@);
        }
        if i > 0 {
            push_char(out, '/');
        }
        push_str(out, xs[i].as_str());
        proof {
            if i == 0 {
                assert(xv.take(1) =~= seq![xs@[0]@]);
                assert(out@ =~= base + xs@[0]@);
            } else {
                assert(out@ =~= prev + seq!['/'] + xs@[i as int]@);
            }
        }
        i += 1;
    }
    proof {
        assert(xv.take(i as int) =~= xv);
    }
}

} // verus!
