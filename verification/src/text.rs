//! Character-level string helpers shared by every parser in the crate.
//!
//! All text is handled as sequences of Unicode scalar values; the views of
//! `str` and `String` in Verus are `Seq<char>`.

use vstd::prelude::*;

verus! {

// ── specifications ───────────────────────────────────────────────────────────

/// `char::is_whitespace`: the Unicode `White_Space` property.
pub open spec fn is_ws(c: char) -> bool {
    ||| ('\t' <= c && c <= '\r')
    ||| c == ' '
    ||| c == '\u{85}'
    ||| c == '\u{a0}'
    ||| c == '\u{1680}'
    ||| ('\u{2000}' <= c && c <= '\u{200a}')
    ||| c == '\u{2028}'
    ||| c == '\u{2029}'
    ||| c == '\u{202f}'
    ||| c == '\u{205f}'
    ||| c == '\u{3000}'
}

/// `char::is_ascii_whitespace`.
pub open spec fn is_ascii_ws(c: char) -> bool {
    c == ' ' || c == '\t' || c == '\n' || c == '\x0C' || c == '\r'
}

pub open spec fn is_ascii_digit(c: char) -> bool {
    '0' <= c && c <= '9'
}

pub open spec fn is_ascii_alnum(c: char) -> bool {
    ('0' <= c && c <= '9') || ('a' <= c && c <= 'z') || ('A' <= c && c <= 'Z')
}

/// `char::to_ascii_lowercase`.
pub open spec fn lower_char(c: char) -> char {
    if 'A' <= c && c <= 'Z' {
        ((c as u32) + 32) as char
    } else {
        c
    }
}

/// `str::to_ascii_lowercase`.
pub open spec fn lower(s: Seq<char>) -> Seq<char> {
    s.map_values(|c: char| lower_char(c))
}

/// `str::trim_start`.
pub open spec fn trim_start(s: Seq<char>) -> Seq<char>
    decreases s.len(),
{
    if s.len() > 0 && is_ws(s[0]) {
        trim_start(s.drop_first())
    } else {
        s
    }
}

/// `str::trim_end`.
pub open spec fn trim_end(s: Seq<char>) -> Seq<char>
    decreases s.len(),
{
    if s.len() > 0 && is_ws(s.last()) {
        trim_end(s.drop_last())
    } else {
        s
    }
}

/// `str::trim`.
pub open spec fn trim(s: Seq<char>) -> Seq<char> {
    trim_end(trim_start(s))
}

/// `s` begins with `p`.
pub open spec fn starts_with(s: Seq<char>, p: Seq<char>) -> bool {
    p.len() <= s.len() && s.subrange(0, p.len() as int) == p
}

/// `s` ends with `p`.
pub open spec fn ends_with(s: Seq<char>, p: Seq<char>) -> bool {
    p.len() <= s.len() && s.subrange(s.len() - p.len(), s.len() as int) == p
}

/// `p` occurs in `s` at index `i`.
pub open spec fn occurs_at(s: Seq<char>, p: Seq<char>, i: int) -> bool {
    0 <= i && i + p.len() <= s.len() && s.subrange(i, i + p.len()) == p
}

/// `str::contains`.
pub open spec fn contains(s: Seq<char>, p: Seq<char>) -> bool {
    exists|i: int| occurs_at(s, p, i)
}

/// Index of the first `c` at or after `p`, or `s.len()` when there is none.
pub open spec fn find_from(s: Seq<char>, c: char, p: int) -> int
    decreases s.len() - p,
{
    if p < 0 || p >= s.len() {
        s.len() as int
    } else if s[p] == c {
        p
    } else {
        find_from(s, c, p + 1)
    }
}

/// The line starting at `p` and ending at `q` (the index of its `'\n'`, or
/// the end of the text), without the line ending; a `'\r'` is dropped only
/// when it stands right before a `'\n'`.
pub open spec fn line_body(s: Seq<char>, p: int, q: int) -> Seq<char> {
    if q < s.len() && q > p && s[q - 1] == '\r' {
        s.subrange(p, q - 1)
    } else {
        s.subrange(p, q)
    }
}

/// The lines of `s` from index `p` on, as `str::lines` yields them.
pub open spec fn lines_from(s: Seq<char>, p: int) -> Seq<Seq<char>>
    decreases s.len() + 1 - p,
{
    if p < 0 || p >= s.len() {
        Seq::empty()
    } else {
        let q = find_from(s, '\n', p);
        proof {
            lemma_find_from_bounds(s, '\n', p);
        }
        seq![line_body(s, p, q)] + lines_from(s, q + 1)
    }
}

/// `str::lines`.
pub open spec fn lines(s: Seq<char>) -> Seq<Seq<char>> {
    lines_from(s, 0)
}

/// For each line of `s` from index `p` on (as [`lines_from`] gives them),
/// whether it ended in `"\r\n"`.
pub open spec fn crlf_from(s: Seq<char>, p: int) -> Seq<bool>
    decreases s.len() + 1 - p,
{
    if p < 0 || p >= s.len() {
        Seq::empty()
    } else {
        let q = find_from(s, '\n', p);
        proof {
            lemma_find_from_bounds(s, '\n', p);
        }
        seq![q < s.len() && q > p && s[q - 1] == '\r'] + crlf_from(s, q + 1)
    }
}

/// For each line of `s`, whether it ended in `"\r\n"`.
pub open spec fn crlfs(s: Seq<char>) -> Seq<bool> {
    crlf_from(s, 0)
}

/// No `"\r\n"` in `s`.
pub open spec fn no_crlf(s: Seq<char>) -> bool {
    forall|i: int| 0 <= i < s.len() - 1 ==> !(s[i] == '\r' && #[trigger] s[i + 1] == '\n')
}

pub proof fn lemma_crlf_from(s: Seq<char>, p: int)
    requires
        0 <= p,
    ensures
        crlf_from(s, p).len() == lines_from(s, p).len(),
        no_crlf(s) ==> forall|k: int| 0 <= k < crlf_from(s, p).len() ==> !#[trigger] crlf_from(s, p)[k],
    decreases s.len() + 1 - p,
{
    if p < s.len() {
        let q = find_from(s, '\n', p);
        lemma_find_from_bounds(s, '\n', p);
        lemma_crlf_from(s, q + 1);
        if no_crlf(s) && q < s.len() && q > p {
            assert(!(s[q - 1] == '\r' && s[(q - 1) + 1] == '\n'));
        }
        let c = crlf_from(s, p);
        let r = crlf_from(s, q + 1);
        assert forall|k: int| 0 <= k < c.len() && no_crlf(s) implies !#[trigger] c[k] by {
            if k > 0 {
                assert(c[k] == r[k - 1]);
            }
        }
    }
}

/// For each line of `s`, whether it ended in `"\r\n"` (see [`crlfs`]).
pub fn line_crlf_flags(s: &Vec<char>) -> (r: Vec<bool>)
    ensures
        r@ == crlfs(s@),
{
    let mut out: Vec<bool> = Vec::new();
    let mut p: usize = 0;
    proof {
        assert(crlfs(s@) =~= out@ + crlf_from(s@, 0));
    }
    while p < s.len()
        invariant
            p <= s@.len(),
            crlfs(s@) == out@ + crlf_from(s@, p as int),
        decreases s@.len() - p,
    {
        let q = find_char_from(s, '\n', p);
        let f = q < s.len() && q > p && s[q - 1] == '\r';
        proof {
            assert(crlf_from(s@, p as int) == seq![f] + crlf_from(s@, q + 1));
            assert(out@ + crlf_from(s@, p as int) =~= out@.push(f) + crlf_from(s@, q + 1));
        }
        out.push(f);
        if q < s.len() {
            p = q + 1;
        } else {
            p = s.len();
            proof {
                assert(crlf_from(s@, q + 1) =~= Seq::<bool>::empty());
            }
        }
    }
    proof {
        assert(crlf_from(s@, p as int) =~= Seq::<bool>::empty());
        assert(out@ + Seq::<bool>::empty() =~= out@);
    }
    out
}

/// Start index of each piece of `s.split_inclusive('\n')` from `p` on.
pub open spec fn line_starts_from(s: Seq<char>, p: int) -> Seq<int>
    decreases s.len() + 1 - p,
{
    if p < 0 || p >= s.len() {
        Seq::empty()
    } else {
        proof {
            lemma_find_from_bounds(s, '\n', p);
        }
        seq![p] + line_starts_from(s, find_from(s, '\n', p) + 1)
    }
}

// ── lemmas ───────────────────────────────────────────────────────────────────

pub proof fn lemma_find_from_bounds(s: Seq<char>, c: char, p: int)
    requires
        0 <= p,
    ensures
        p <= s.len() ==> p <= find_from(s, c, p) <= s.len(),
        p > s.len() ==> find_from(s, c, p) == s.len(),
        find_from(s, c, p) < s.len() ==> s[find_from(s, c, p)] == c,
        forall|k: int| p <= k < find_from(s, c, p) ==> s[k] != c,
    decreases s.len() - p,
{
    if p < s.len() && s[p] != c {
        lemma_find_from_bounds(s, c, p + 1);
    }
}

// ── executable helpers ───────────────────────────────────────────────────────

/// Copy the characters of `s` into a vector.
pub fn to_chars(s: &str) -> (r: Vec<char>)
    ensures
        r@ == s@,
{
    let mut v: Vec<char> = Vec::new();
    for c in it: s.chars()
        invariant
            v@ == it.seq().take(it.index()),
    {
        v.push(c);
    }
    proof {
        assert(v@ =~= s@);
    }
    v
}

/// `String::push`.
#[verifier::external_body]
pub fn push_char(s: &mut String, c: char)
    ensures
        final(s)@ == old(s)@.push(c),
{
    s.push(c);
}

/// Append `s[lo..hi]` to `out`.
pub fn push_range(out: &mut String, s: &Vec<char>, lo: usize, hi: usize)
    requires
        lo <= hi <= s@.len(),
    ensures
        final(out)@ == old(out)@ + s@.subrange(lo as int, hi as int),
{
    let mut i = lo;
    while i < hi
        invariant
            lo <= i <= hi <= s@.len(),
            out@ == old(out)@ + s@.subrange(lo as int, i as int),
        decreases hi - i,
    {
        push_char(out, s[i]);
        i += 1;
        proof {
            assert(out@ =~= old(out)@ + s@.subrange(lo as int, i as int));
        }
    }
}

/// Append the whole of `s` to `out`.
pub fn push_all(out: &mut String, s: &Vec<char>)
    ensures
        final(out)@ == old(out)@ + s@,
{
    push_range(out, s, 0, s.len());
    proof {
        assert(s@.subrange(0, s@.len() as int) =~= s@);
    }
}

/// Append the characters of `s` to `out`.
pub fn push_str(out: &mut String, s: &str)
    ensures
        final(out)@ == old(out)@ + s@,
{
    let v = to_chars(s);
    push_all(out, &v);
}

/// `s[lo..hi]` as a `String`.
pub fn string_of(s: &Vec<char>, lo: usize, hi: usize) -> (r: String)
    requires
        lo <= hi <= s@.len(),
    ensures
        r@ == s@.subrange(lo as int, hi as int),
{
    let mut r = String::new();
    push_range(&mut r, s, lo, hi);
    proof {
        assert(r@ =~= s@.subrange(lo as int, hi as int));
    }
    r
}

/// `s` as a `String`.
pub fn string_of_all(s: &Vec<char>) -> (r: String)
    ensures
        r@ == s@,
{
    let r = string_of(s, 0, s.len());
    proof {
        assert(s@.subrange(0, s@.len() as int) =~= s@);
    }
    r
}

/// `char::is_whitespace`.
pub fn is_whitespace(c: char) -> (r: bool)
    ensures
        r == is_ws(c),
{
    ('\t' <= c && c <= '\r') || c == ' ' || c == '\u{85}' || c == '\u{a0}' || c == '\u{1680}'
        || ('\u{2000}' <= c && c <= '\u{200a}') || c == '\u{2028}' || c == '\u{2029}' || c
        == '\u{202f}' || c == '\u{205f}' || c == '\u{3000}'
}

/// `char::is_ascii_whitespace`.
pub fn is_ascii_whitespace(c: char) -> (r: bool)
    ensures
        r == is_ascii_ws(c),
{
    c == ' ' || c == '\t' || c == '\n' || c == '\x0C' || c == '\r'
}

/// `char::to_ascii_lowercase`.
pub fn lower_ascii(c: char) -> (r: char)
    ensures
        r == lower_char(c),
{
    if 'A' <= c && c <= 'Z' {
        let u: u32 = c as u32 + 32;
        proof {
            assert(('a' as u32) <= u <= ('z' as u32));
        }
        char_from_ascii_range(u)
    } else {
        c
    }
}

fn char_from_ascii_range(u: u32) -> (r: char)
    requires
        u < 128,
    ensures
        r == u as char,
{
    let b: u8 = u as u8;
    b as char
}

/// Index of the first character of `s[lo..hi]` that is not whitespace
/// (`hi` when there is none): `s[r..hi]` is `trim_start(s[lo..hi])`.
pub fn skip_ws(s: &Vec<char>, lo: usize, hi: usize) -> (r: usize)
    requires
        lo <= hi <= s@.len(),
    ensures
        lo <= r <= hi,
        s@.subrange(r as int, hi as int) == trim_start(s@.subrange(lo as int, hi as int)),
        forall|k: int| lo <= k < r ==> is_ws(#[trigger] s@[k]),
        r < hi ==> !is_ws(s@[r as int]),
{
    let mut i = lo;
    while i < hi && is_whitespace(s[i])
        invariant
            lo <= i <= hi <= s@.len(),
            trim_start(s@.subrange(i as int, hi as int)) == trim_start(
                s@.subrange(lo as int, hi as int),
            ),
            forall|k: int| lo <= k < i ==> is_ws(#[trigger] s@[k]),
        decreases hi - i,
    {
        proof {
            let t = s@.subrange(i as int, hi as int);
            assert(t.drop_first() =~= s@.subrange(i + 1, hi as int));
        }
        i += 1;
    }
    i
}

/// One past the last non-whitespace character of `s[lo..hi]` (`lo` when
/// there is none): `s[lo..r]` is `trim_end(s[lo..hi])`.
pub fn skip_ws_back(s: &Vec<char>, lo: usize, hi: usize) -> (r: usize)
    requires
        lo <= hi <= s@.len(),
    ensures
        lo <= r <= hi,
        s@.subrange(lo as int, r as int) == trim_end(s@.subrange(lo as int, hi as int)),
        forall|k: int| r <= k < hi ==> is_ws(#[trigger] s@[k]),
        r > lo ==> !is_ws(s@[r - 1]),
{
    let mut j = hi;
    while j > lo && is_whitespace(s[j - 1])
        invariant
            lo <= j <= hi <= s@.len(),
            trim_end(s@.subrange(lo as int, j as int)) == trim_end(
                s@.subrange(lo as int, hi as int),
            ),
            forall|k: int| j <= k < hi ==> is_ws(#[trigger] s@[k]),
        decreases j - lo,
    {
        proof {
            let t = s@.subrange(lo as int, j as int);
            assert(t.drop_last() =~= s@.subrange(lo as int, j - 1));
        }
        j -= 1;
    }
    j
}

/// Index of the first `c` in `s` at or after `p` (`s.len()` if none).
pub fn find_char_from(s: &Vec<char>, c: char, p: usize) -> (r: usize)
    requires
        p <= s@.len(),
    ensures
        r as int == find_from(s@, c, p as int),
        p <= r <= s@.len(),
        r < s@.len() ==> s@[r as int] == c,
        forall|k: int| p <= k < r ==> s@[k] != c,
{
    proof {
        lemma_find_from_bounds(s@, c, p as int);
    }
    let mut i = p;
    while i < s.len() && s[i] != c
        invariant
            p <= i <= s@.len(),
            find_from(s@, c, i as int) == find_from(s@, c, p as int),
            forall|k: int| p <= k < i ==> s@[k] != c,
        decreases s@.len() - i,
    {
        i += 1;
    }
    i
}

/// The lines of `s` as `str::lines` yields them.
pub fn split_lines(s: &Vec<char>) -> (r: Vec<Vec<char>>)
    ensures
        r@.len() == lines(s@).len(),
        forall|i: int| 0 <= i < r@.len() ==> #[trigger] r@[i]@ == lines(s@)[i],
{
    let mut out: Vec<Vec<char>> = Vec::new();
    let mut p: usize = 0;
    let ghost mut done: Seq<Seq<char>> = Seq::empty();
    while p < s.len()
        invariant
            p <= s@.len(),
            lines(s@) == done + lines_from(s@, p as int),
            out@.len() == done.len(),
            forall|i: int| 0 <= i < out@.len() ==> #[trigger] out@[i]@ == done[i],
        decreases s@.len() - p,
    {
        let q = find_char_from(s, '\n', p);
        let end = if q < s.len() && q > p && s[q - 1] == '\r' {
            q - 1
        } else {
            q
        };
        let mut line: Vec<char> = Vec::new();
        let mut k = p;
        while k < end
            invariant
                p <= k <= end <= s@.len(),
                line@ == s@.subrange(p as int, k as int),
            decreases end - k,
        {
            line.push(s[k]);
            k += 1;
            proof {
                assert(line@ =~= s@.subrange(p as int, k as int));
            }
        }
        proof {
            assert(line@ == line_body(s@, p as int, q as int));
            let rest = lines_from(s@, q + 1);
            assert(lines_from(s@, p as int) == seq![line@] + rest);
            assert(done + lines_from(s@, p as int) =~= done.push(line@) + rest);
            done = done.push(line@);
        }
        out.push(line);
        if q < s.len() {
            p = q + 1;
        } else {
            p = s.len();
        }
    }
    proof {
        assert(lines_from(s@, p as int) =~= Seq::<Seq<char>>::empty());
        assert(done + Seq::<Seq<char>>::empty() =~= done);
    }
    out
}

} // verus!

verus! {

/// Decimal digits of `n` (no sign, no padding).
pub open spec fn decimal(n: nat) -> Seq<char>
    decreases n,
{
    if n < 10 {
        seq![((n + 48) as u32) as char]
    } else {
        decimal(n / 10) + seq![(((n % 10) + 48) as u32) as char]
    }
}

fn digit_char(d: usize) -> (r: char)
    requires
        d < 10,
    ensures
        r == ((d + 48) as u32) as char,
{
    let b: u8 = (d as u8) + 48;
    b as char
}

/// Append the decimal digits of `n` to `out`.
pub fn push_usize(out: &mut String, n: usize)
    ensures
        final(out)@ == old(out)@ + decimal(n as nat),
    decreases n,
{
    if n < 10 {
        let c = digit_char(n);
        push_char(out, c);
        proof {
            assert(old(out)@.push(c) =~= old(out)@ + decimal(n as nat));
        }
    } else {
        push_usize(out, n / 10);
        push_char(out, digit_char(n % 10));
        proof {
            assert(final(out)@ =~= old(out)@ + decimal(n as nat)) by {
                assert(decimal(n as nat) == decimal((n / 10) as nat) + seq![(((n % 10) + 48) as u32) as char]);
            }
        }
    }
}

/// The decimal digits of `n` as a `String`.
pub fn usize_to_string(n: usize) -> (r: String)
    ensures
        r@ == decimal(n as nat),
{
    let mut s = String::new();
    push_usize(&mut s, n);
    proof {
        assert(s@ =~= decimal(n as nat));
    }
    s
}

} // verus!

verus! {

/// End of the piece of `s.split_inclusive('\n')` starting at `p`.
pub open spec fn piece_end(s: Seq<char>, p: int) -> int {
    let q = find_from(s, '\n', p);
    if q < s.len() { q + 1 } else { s.len() as int }
}

/// The pieces of `s.split_inclusive('\n')` from index `p` on: each line
/// with its `'\n'`, the last one without when `s` does not end in `'\n'`.
pub open spec fn pieces_from(s: Seq<char>, p: int) -> Seq<Seq<char>>
    decreases s.len() + 1 - p,
{
    if p < 0 || p >= s.len() {
        Seq::empty()
    } else {
        proof {
            lemma_find_from_bounds(s, '\n', p);
        }
        seq![s.subrange(p, piece_end(s, p))] + pieces_from(s, piece_end(s, p))
    }
}

/// `s.split_inclusive('\n')`.
pub open spec fn pieces(s: Seq<char>) -> Seq<Seq<char>> {
    pieces_from(s, 0)
}

/// The pieces of `s.split_inclusive('\n')`.
pub fn split_inclusive_lines(s: &Vec<char>) -> (r: Vec<Vec<char>>)
    ensures
        r@.len() == pieces(s@).len(),
        forall|i: int| 0 <= i < r@.len() ==> #[trigger] r@[i]@ == pieces(s@)[i],
{
    let mut out: Vec<Vec<char>> = Vec::new();
    let mut p: usize = 0;
    let ghost mut done: Seq<Seq<char>> = Seq::empty();
    while p < s.len()
        invariant
            p <= s@.len(),
            pieces(s@) == done + pieces_from(s@, p as int),
            out@.len() == done.len(),
            forall|i: int| 0 <= i < out@.len() ==> #[trigger] out@[i]@ == done[i],
        decreases s@.len() - p,
    {
        let q = find_char_from(s, '\n', p);
        let end = if q < s.len() {
            q + 1
        } else {
            q
        };
        let mut piece: Vec<char> = Vec::new();
        let mut k = p;
        while k < end
            invariant
                p <= k <= end <= s@.len(),
                piece@ == s@.subrange(p as int, k as int),
            decreases end - k,
        {
            piece.push(s[k]);
            k += 1;
            proof {
                assert(piece@ =~= s@.subrange(p as int, k as int));
            }
        }
        proof {
            let rest = pieces_from(s@, end as int);
            assert(pieces_from(s@, p as int) == seq![piece@] + rest);
            assert(done + pieces_from(s@, p as int) =~= done.push(piece@) + rest);
            done = done.push(piece@);
        }
        out.push(piece);
        p = end;
    }
    proof {
        assert(done + Seq::<Seq<char>>::empty() =~= done);
    }
    out
}

} // verus!

verus! {

/// `s` without one trailing `'\n'`.
pub open spec fn strip_nl(p: Seq<char>) -> Seq<char> {
    if p.len() > 0 && p.last() == '\n' {
        p.drop_last()
    } else {
        p
    }
}

/// Number of bytes in the UTF-8 encoding of `c`.
pub open spec fn char_width(c: char) -> nat {
    if (c as u32) < 0x80 {
        1
    } else if (c as u32) < 0x800 {
        2
    } else if (c as u32) < 0x10000 {
        3
    } else {
        4
    }
}

/// Number of bytes in the UTF-8 encoding of `s`.
pub open spec fn utf8_len(s: Seq<char>) -> nat
    decreases s.len(),
{
    if s.len() == 0 {
        0
    } else {
        char_width(s[0]) + utf8_len(s.drop_first())
    }
}

pub proof fn lemma_utf8_len_add(a: Seq<char>, b: Seq<char>)
    ensures
        utf8_len(a + b) == utf8_len(a) + utf8_len(b),
    decreases a.len(),
{
    if a.len() > 0 {
        assert((a + b).drop_first() =~= a.drop_first() + b);
        lemma_utf8_len_add(a.drop_first(), b);
    } else {
        assert(a + b =~= b);
    }
}

/// The byte length of a prefix grows by the width of each added character,
/// and never exceeds the byte length of the whole.
pub proof fn lemma_utf8_len_take(s: Seq<char>, k: int)
    requires
        0 <= k < s.len(),
    ensures
        utf8_len(s.take(k + 1)) == utf8_len(s.take(k)) + char_width(s[k]),
        utf8_len(s.take(k + 1)) <= utf8_len(s),
{
    assert(s.take(k + 1) =~= s.take(k) + seq![s[k]]);
    lemma_utf8_len_add(s.take(k), seq![s[k]]);
    let one = seq![s[k]];
    assert(one.drop_first() =~= Seq::<char>::empty());
    assert(utf8_len(one.drop_first()) == 0);
    assert(utf8_len(one) == char_width(s[k]));
    assert(s =~= s.take(k + 1) + s.skip(k + 1));
    lemma_utf8_len_add(s.take(k + 1), s.skip(k + 1));
}

/// `utf8_len` is the length of vstd's UTF-8 encoding, which is what
/// `str::len` returns.
pub proof fn lemma_utf8_len_encode(s: Seq<char>)
    ensures
        utf8_len(s) == vstd::utf8::encode_utf8(s).len(),
    decreases s.len(),
{
    if s.len() > 0 {
        lemma_utf8_len_encode(s.drop_first());
        let c = s[0] as u32;
        vstd::utf8::char_is_scalar(s[0]);
        assert(vstd::utf8::encode_scalar(c).len() == char_width(s[0]));
    }
}

/// Bytes in the UTF-8 encoding of `c`.
pub fn char_width_exec(c: char) -> (r: usize)
    ensures
        r == char_width(c),
        1 <= r <= 4,
{
    let u = c as u32;
    if u < 0x80 {
        1
    } else if u < 0x800 {
        2
    } else if u < 0x10000 {
        3
    } else {
        4
    }
}

/// Byte offset of character index `k` of `s`, added to `base`.
pub fn byte_offset(s: &Vec<char>, k: usize, base: usize, Ghost(limit): Ghost<nat>) -> (r: usize)
    requires
        k <= s@.len(),
        base + utf8_len(s@) <= limit <= usize::MAX,
    ensures
        r == base + utf8_len(s@.take(k as int)),
{
    let mut i: usize = 0;
    let mut b = base;
    proof {
        assert(s@.take(0) =~= Seq::<char>::empty());
    }
    while i < k
        invariant
            i <= k <= s@.len(),
            base + utf8_len(s@) <= limit <= usize::MAX,
            b == base + utf8_len(s@.take(i as int)),
        decreases k - i,
    {
        proof {
            lemma_utf8_len_take(s@, i as int);
        }
        b = b + char_width_exec(s[i]);
        i += 1;
    }
    b
}

} // verus!

verus! {

/// Byte lengths of the pieces of `s` split at `p` and `q` add up, and a
/// prefix is never longer in bytes than the whole.
pub proof fn lemma_utf8_split(s: Seq<char>, p: int, q: int)
    requires
        0 <= p <= q <= s.len(),
    ensures
        utf8_len(s.take(q)) == utf8_len(s.take(p)) + utf8_len(s.subrange(p, q)),
        utf8_len(s.take(q)) <= utf8_len(s),
{
    assert(s.take(q) =~= s.take(p) + s.subrange(p, q));
    lemma_utf8_len_add(s.take(p), s.subrange(p, q));
    assert(s =~= s.take(q) + s.skip(q));
    lemma_utf8_len_add(s.take(q), s.skip(q));
}

/// `s[lo..hi]` as a new vector.
pub fn slice_vec(s: &Vec<char>, lo: usize, hi: usize) -> (r: Vec<char>)
    requires
        lo <= hi <= s@.len(),
    ensures
        r@ == s@.subrange(lo as int, hi as int),
{
    let mut v: Vec<char> = Vec::new();
    let mut k = lo;
    while k < hi
        invariant
            lo <= k <= hi <= s@.len(),
            v@ == s@.subrange(lo as int, k as int),
        decreases hi - k,
    {
        v.push(s[k]);
        k += 1;
        proof {
            assert(v@ =~= s@.subrange(lo as int, k as int));
        }
    }
    v
}

/// `str::trim` over a character vector.
pub fn trim_vec(s: &Vec<char>) -> (r: Vec<char>)
    ensures
        r@ == trim(s@),
{
    let n = s.len();
    let a = skip_ws(s, 0, n);
    let b = skip_ws_back(s, a, n);
    proof {
        assert(s@.subrange(0, n as int) =~= s@);
    }
    slice_vec(s, a, b)
}

} // verus!

verus! {

pub proof fn lemma_encode_utf8_add(a: Seq<char>, b: Seq<char>)
    ensures
        vstd::utf8::encode_utf8(a + b) == vstd::utf8::encode_utf8(a) + vstd::utf8::encode_utf8(b),
    decreases a.len(),
{
    if a.len() == 0 {
        assert(a + b =~= b);
        assert(vstd::utf8::encode_utf8(a) =~= Seq::<u8>::empty());
        assert(Seq::<u8>::empty() + vstd::utf8::encode_utf8(b) =~= vstd::utf8::encode_utf8(b));
    } else {
        assert((a + b).drop_first() =~= a.drop_first() + b);
        assert((a + b)[0] == a[0]);
        lemma_encode_utf8_add(a.drop_first(), b);
        let ea = vstd::utf8::encode_scalar(a[0] as u32);
        assert(vstd::utf8::encode_utf8(a + b) =~= ea + (vstd::utf8::encode_utf8(a.drop_first())
            + vstd::utf8::encode_utf8(b)));
    }
}

/// The UTF-8 bytes of `s[a..b]` are the bytes of `s` between the byte
/// offsets of `a` and `b`.
pub proof fn lemma_encode_utf8_slice(s: Seq<char>, a: int, b: int)
    requires
        0 <= a <= b <= s.len(),
    ensures
        vstd::utf8::encode_utf8(s).subrange(utf8_len(s.take(a)) as int, utf8_len(s.take(b)) as int)
            == vstd::utf8::encode_utf8(s.subrange(a, b)),
{
    let x = s.take(a);
    let y = s.subrange(a, b);
    let z = s.skip(b);
    assert(s =~= x + y + z);
    lemma_encode_utf8_add(x + y, z);
    lemma_encode_utf8_add(x, y);
    lemma_utf8_len_encode(x);
    lemma_utf8_len_encode(y);
    lemma_utf8_split(s, a, b);
    let ex = vstd::utf8::encode_utf8(x);
    let ey = vstd::utf8::encode_utf8(y);
    let ez = vstd::utf8::encode_utf8(z);
    assert((ex + ey + ez).subrange(ex.len() as int, (ex.len() + ey.len()) as int) =~= ey);
}

} // verus!

verus! {

/// What `char::is_alphanumeric` gives for `c` (Unicode `Alphabetic` or
/// `Numeric`).
pub uninterp spec fn unicode_alnum(c: char) -> bool;

/// `char::is_alphanumeric`. The result is named by [`unicode_alnum`]; on
/// ASCII characters it is true exactly for letters and digits.
#[verifier::external_body]
pub fn is_alphanumeric(c: char) -> (r: bool)
    ensures
        r == unicode_alnum(c),
        (c as u32) < 128 ==> (r == is_ascii_alnum(c)),
{
    c.is_alphanumeric()
}

/// Index of the first character of `s` that is not ASCII whitespace, or
/// `s.len()`.
pub open spec fn first_non_ascii_ws(s: Seq<char>, p: int) -> int
    decreases s.len() - p,
{
    if p < 0 || p >= s.len() {
        s.len() as int
    } else if is_ascii_ws(s[p]) {
        first_non_ascii_ws(s, p + 1)
    } else {
        p
    }
}

pub fn first_non_ascii_ws_exec(s: &Vec<char>) -> (r: usize)
    ensures
        r as int == first_non_ascii_ws(s@, 0),
        r <= s@.len(),
{
    let mut p: usize = 0;
    while p < s.len() && is_ascii_whitespace(s[p])
        invariant
            p <= s@.len(),
            first_non_ascii_ws(s@, p as int) == first_non_ascii_ws(s@, 0),
        decreases s@.len() - p,
    {
        p += 1;
    }
    p
}

/// Index of the last `c` in `s[..p]`, or `-1`.
pub open spec fn last_index(s: Seq<char>, c: char, p: int) -> int
    decreases p,
{
    if p <= 0 || p > s.len() {
        -1
    } else if s[p - 1] == c {
        p - 1
    } else {
        last_index(s, c, p - 1)
    }
}

pub proof fn lemma_last_index_bounds(s: Seq<char>, c: char, p: int)
    requires
        0 <= p <= s.len(),
    ensures
        -1 <= last_index(s, c, p) < p,
        last_index(s, c, p) >= 0 ==> s[last_index(s, c, p)] == c,
    decreases p,
{
    if p > 0 && s[p - 1] != c {
        lemma_last_index_bounds(s, c, p - 1);
    }
}

/// `str::rfind` of one character.
pub fn rfind_char(s: &Vec<char>, c: char) -> (r: Option<usize>)
    ensures
        match r {
            Some(i) => i as int == last_index(s@, c, s@.len() as int) && i < s@.len() && s@[i as int]
                == c,
            None => last_index(s@, c, s@.len() as int) == -1,
        },
{
    let mut p = s.len();
    while p > 0
        invariant
            p <= s@.len(),
            last_index(s@, c, p as int) == last_index(s@, c, s@.len() as int),
        decreases p,
    {
        if s[p - 1] == c {
            return Some(p - 1);
        }
        p -= 1;
    }
    None
}

/// The number of leading characters of `s` whose UTF-8 encoding takes
/// exactly `n` bytes, if there is such a prefix.
pub open spec fn bytes_prefix_end(s: Seq<char>, n: int) -> Option<int>
    decreases s.len(),
{
    if n == 0 {
        Some(0)
    } else if n < 0 || s.len() == 0 {
        None
    } else {
        match bytes_prefix_end(s.drop_first(), n - char_width(s[0])) {
            Some(k) => Some(k + 1),
            None => None,
        }
    }
}

pub proof fn lemma_bytes_prefix_end(s: Seq<char>, n: int)
    ensures
        bytes_prefix_end(s, n) matches Some(k) ==> 0 <= k <= s.len(),
    decreases s.len(),
{
    if n != 0 && n >= 0 && s.len() > 0 {
        lemma_bytes_prefix_end(s.drop_first(), n - char_width(s[0]));
    }
}

/// `s[lo..].get(..n)` by bytes: the end index of the prefix of `s[lo..]`
/// that is exactly `n` bytes long, if it ends on a character boundary.
pub fn prefix_bytes_end(s: &Vec<char>, lo: usize, n: usize) -> (r: Option<usize>)
    requires
        lo <= s@.len(),
    ensures
        match r {
            Some(k) => lo <= k <= s@.len() && bytes_prefix_end(s@.skip(lo as int), n as int) == Some(
                k - lo,
            ),
            None => bytes_prefix_end(s@.skip(lo as int), n as int) is None,
        },
{
    let mut k = lo;
    let mut left = n;
    while left > 0 && k < s.len()
        invariant
            lo <= k <= s@.len(),
            left <= n,
            bytes_prefix_end(s@.skip(lo as int), n as int) == match bytes_prefix_end(s@.skip(k as int), left as int) {
                Some(j) => Some(j + (k - lo)),
                None => None::<int>,
            },
        decreases s@.len() - k,
    {
        let w = char_width_exec(s[k]);
        proof {
            assert(s@.skip(k as int).drop_first() =~= s@.skip(k + 1));
        }
        if w > left {
            proof {
                assert(bytes_prefix_end(s@.skip(k + 1), left - w) is None) by {
                    lemma_bytes_prefix_end_neg(s@.skip(k + 1), left - w);
                }
            }
            return None;
        }
        left = left - w;
        k += 1;
    }
    if left == 0 {
        Some(k)
    } else {
        None
    }
}

proof fn lemma_bytes_prefix_end_neg(s: Seq<char>, n: int)
    requires
        n < 0,
    ensures
        bytes_prefix_end(s, n) is None,
{
}

} // verus!

verus! {

/// `a` and `b` hold the same characters.
pub fn str_eq(a: &str, b: &str) -> (r: bool)
    ensures
        r == (a@ == b@),
{
    let av = to_chars(a);
    let bv = to_chars(b);
    chars_eq(&av, &bv)
}

/// `a` and `b` hold the same characters.
pub fn chars_eq(a: &Vec<char>, b: &Vec<char>) -> (r: bool)
    ensures
        r == (a@ == b@),
{
    if a.len() != b.len() {
        return false;
    }
    let mut i: usize = 0;
    while i < a.len()
        invariant
            i <= a@.len() == b@.len(),
            forall|j: int| 0 <= j < i ==> a@[j] == b@[j],
        decreases a@.len() - i,
    {
        if a[i] != b[i] {
            return false;
        }
        i += 1;
    }
    proof {
        assert(a@ =~= b@);
    }
    true
}

/// `str::to_ascii_lowercase` over characters.
pub fn lower_vec(s: &Vec<char>) -> (r: Vec<char>)
    ensures
        r@ == lower(s@),
{
    let mut v: Vec<char> = Vec::new();
    let mut i: usize = 0;
    while i < s.len()
        invariant
            i <= s@.len(),
            v@ == lower(s@.take(i as int)),
        decreases s@.len() - i,
    {
        v.push(lower_ascii(s[i]));
        i += 1;
        proof {
            assert(v@ =~= lower(s@.take(i as int)));
        }
    }
    proof {
        assert(s@.take(i as int) =~= s@);
    }
    v
}

/// `lower(a)` holds the characters of `b`.
pub fn lower_eq(a: &Vec<char>, b: &str) -> (r: bool)
    ensures
        r == (lower(a@) == b@),
{
    let l = lower_vec(a);
    let bv = to_chars(b);
    chars_eq(&l, &bv)
}

} // verus!

verus! {

/// First offset at or after `i` holding whitespace, or `s.len()`.
pub open spec fn word_end(s: Seq<char>, i: int) -> int
    decreases s.len() - i,
{
    if i < 0 || i >= s.len() {
        s.len() as int
    } else if is_ws(s[i]) {
        i
    } else {
        word_end(s, i + 1)
    }
}

pub proof fn lemma_word_end(s: Seq<char>, i: int)
    requires
        0 <= i <= s.len(),
    ensures
        i <= word_end(s, i) <= s.len(),
        forall|k: int| i <= k < word_end(s, i) ==> !is_ws(#[trigger] s[k]),
    decreases s.len() - i,
{
    if i < s.len() && !is_ws(s[i]) {
        lemma_word_end(s, i + 1);
    }
}

/// The whitespace-separated words of `s[i..]` (`str::split_whitespace`).
pub open spec fn words_from(s: Seq<char>, i: int) -> Seq<Seq<char>>
    decreases s.len() - i,
{
    if i < 0 || i >= s.len() {
        Seq::empty()
    } else if is_ws(s[i]) {
        words_from(s, i + 1)
    } else {
        proof {
            lemma_word_end(s, i);
            lemma_word_end(s, i + 1);
        }
        seq![s.subrange(i, word_end(s, i))] + words_from(s, word_end(s, i))
    }
}

pub open spec fn words(s: Seq<char>) -> Seq<Seq<char>> {
    words_from(s, 0)
}

/// The whitespace-separated words of `s`.
pub fn split_words(s: &Vec<char>) -> (r: Vec<Vec<char>>)
    ensures
        r@.len() == words(s@).len(),
        forall|k: int| 0 <= k < r@.len() ==> #[trigger] r@[k]@ == words(s@)[k],
{
    let n = s.len();
    let mut out: Vec<Vec<char>> = Vec::new();
    let mut i: usize = 0;
    let ghost mut acc: Seq<Seq<char>> = Seq::empty();
    while i < n
        invariant
            i <= n == s@.len(),
            words(s@) == acc + words_from(s@, i as int),
            out@.len() == acc.len(),
            forall|k: int| 0 <= k < acc.len() ==> #[trigger] out@[k]@ == acc[k],
        decreases n - i,
    {
        if is_whitespace(s[i]) {
            i += 1;
        } else {
            let mut e = i;
            while e < n && !is_whitespace(s[e])
                invariant
                    i <= e <= n == s@.len(),
                    word_end(s@, e as int) == word_end(s@, i as int),
                decreases n - e,
            {
                e += 1;
            }
            let w = slice_vec(s, i, e);
            proof {
                assert(acc + words_from(s@, i as int) =~= acc.push(w@) + words_from(s@, e as int));
                acc = acc.push(w@);
            }
            out.push(w);
            i = e;
        }
    }
    proof {
        assert(acc + Seq::<Seq<char>>::empty() =~= acc);
    }
    out
}

/// `ws` joined with single spaces.
pub open spec fn join_spaces(ws: Seq<Seq<char>>) -> Seq<char>
    decreases ws.len(),
{
    if ws.len() == 0 {
        Seq::empty()
    } else if ws.len() == 1 {
        ws[0]
    } else {
        join_spaces(ws.drop_last()) + seq![' '] + ws.last()
    }
}

/// `ws[lo..]` joined with single spaces.
pub fn join_words_from(ws: &Vec<Vec<char>>, lo: usize) -> (r: String)
    requires
        lo <= ws@.len(),
    ensures
        r@ == join_spaces(ws@.skip(lo as int).map_values(|w: Vec<char>| w@)),
{
    let ghost v = ws@.skip(lo as int).map_values(|w: Vec<char>| w@);
    let mut out = String::new();
    let mut k = lo;
    proof {
        assert(v.take(0) =~= Seq::<Seq<char>>::empty());
    }
    while k < ws.len()
        invariant
            lo <= k <= ws@.len(),
            v == ws@.skip(lo as int).map_values(|w: Vec<char>| w@),
            out@ == join_spaces(v.take(k - lo)),
        decreases ws@.len() - k,
    {
        if k > lo {
            push_char(&mut out, ' ');
        }
        push_all(&mut out, &ws[k]);
        proof {
            let t = v.take(k - lo + 1);
            assert(t.drop_last() =~= v.take(k - lo));
            assert(t.last() == ws@[k as int]@);
            if k == lo {
                assert(out@ =~= t[0]);
            } else {
                assert(out@ =~= join_spaces(v.take(k - lo)) + seq![' '] + t.last());
            }
        }
        k += 1;
    }
    proof {
        assert(v.take(k - lo) =~= v);
    }
    out
}

/// Value of the decimal digits `s`.
pub open spec fn digits_value(s: Seq<char>) -> nat
    decreases s.len(),
{
    if s.len() == 0 {
        0
    } else {
        digits_value(s.drop_last()) * 10 + (s.last() as nat - '0' as nat) as nat
    }
}

pub open spec fn all_digits(s: Seq<char>) -> bool {
    forall|i: int| 0 <= i < s.len() ==> is_ascii_digit(#[trigger] s[i])
}

/// What `str::parse` gives for an unsigned integer type whose largest value
/// is `max`: an optional `+`, then at least one digit, the value at most
/// `max`.
pub open spec fn parse_unsigned(s: Seq<char>, max: nat) -> Option<nat> {
    let d = if s.len() > 0 && s[0] == '+' { s.drop_first() } else { s };
    if d.len() > 0 && all_digits(d) && digits_value(d) <= max {
        Some(digits_value(d))
    } else {
        None
    }
}

/// `str::parse::<u64>`-style parsing, with the bound `max`.
pub fn parse_unsigned_exec(s: &Vec<char>, max: u64) -> (r: Option<u64>)
    ensures
        match r {
            Some(v) => parse_unsigned(s@, max as nat) == Some(v as nat),
            None => parse_unsigned(s@, max as nat) is None,
        },
{
    let n = s.len();
    let lo: usize = if n > 0 && s[0] == '+' {
        1
    } else {
        0
    };
    let ghost d = s@.skip(lo as int);
    proof {
        if lo == 1 {
            assert(d =~= s@.drop_first());
        } else {
            assert(d =~= s@);
        }
    }
    if n - lo == 0 {
        return None;
    }
    let mut v: u64 = 0;
    let mut i = lo;
    proof {
        assert(d.take(0) =~= Seq::<char>::empty());
    }
    while i < n
        invariant
            lo <= i <= n == s@.len(),
            d == s@.skip(lo as int),
            d == (if s@.len() > 0 && s@[0] == '+' { s@.drop_first() } else { s@ }),
            d.len() > 0,
            v as nat == digits_value(d.take(i - lo)),
            v <= max,
            all_digits(d.take(i - lo)),
        decreases n - i,
    {
        let c = s[i];
        if !('0' <= c && c <= '9') {
            proof {
                assert(d[i - lo] == c);
                assert(!all_digits(d));
            }
            return None;
        }
        let dg = (c as u32 - '0' as u32) as u64;
        proof {
            let t = d.take(i - lo + 1);
            assert(t.drop_last() =~= d.take(i - lo));
            assert(t.last() == c);
        }
        if dg > max || v > (max - dg) / 10 {
            proof {
                assert(v * 10 + dg > max) by (nonlinear_arith)
                    requires
                        dg > max || v > (max - dg) / 10,
                ;
                if all_digits(d) {
                    lemma_digits_value_prefix_le(d, i - lo + 1);
                }
            }
            return None;
        }
        proof {
            assert(v * 10 + dg <= max) by (nonlinear_arith)
                requires
                    v <= (max - dg) / 10,
            ;
        }
        v = v * 10 + dg;
        i += 1;
        proof {
            assert(all_digits(d.take(i - lo)));
        }
    }
    proof {
        assert(d.take(i - lo) =~= d);
    }
    Some(v)
}

pub proof fn lemma_digits_value_prefix_le(d: Seq<char>, k: int)
    requires
        0 <= k <= d.len(),
        all_digits(d),
    ensures
        digits_value(d.take(k)) <= digits_value(d),
    decreases d.len() - k,
{
    if k < d.len() {
        lemma_digits_value_prefix_le(d, k + 1);
        let t = d.take(k + 1);
        assert(t.drop_last() =~= d.take(k));
    } else {
        assert(d.take(k) =~= d);
    }
}

} // verus!

verus! {

/// `v` holds the characters of `s`.
pub fn vec_eq_str(v: &Vec<char>, s: &str) -> (r: bool)
    ensures
        r == (v@ == s@),
{
    let sv = to_chars(s);
    chars_eq(v, &sv)
}

/// `s` ends with the characters of `p`.
pub fn vec_ends_with(s: &Vec<char>, p: &str) -> (r: bool)
    ensures
        r == ends_with(s@, p@),
{
    let pv = to_chars(p);
    if pv.len() > s.len() {
        return false;
    }
    let off = s.len() - pv.len();
    let tail = slice_vec(s, off, s.len());
    proof {
        assert(tail@ =~= s@.subrange(s@.len() - pv@.len(), s@.len() as int));
    }
    chars_eq(&tail, &pv)
}


/// `p` occurs in `s` at index `i` (`s[i..i + p.len()] == p`).
pub fn occurs_at_exec(s: &Vec<char>, p: &Vec<char>, i: usize) -> (r: bool)
    ensures
        r == occurs_at(s@, p@, i as int),
{
    if i > s.len() || p.len() > s.len() - i {
        return false;
    }
    let mut k: usize = 0;
    while k < p.len()
        invariant
            k <= p@.len(),
            i + p@.len() <= s@.len() <= usize::MAX,
            forall|j: int| 0 <= j < k ==> s@[i + j] == p@[j],
        decreases p@.len() - k,
    {
        if s[i + k] != p[k] {
            proof {
                assert(s@.subrange(i as int, i + p@.len())[k as int] != p@[k as int]);
            }
            return false;
        }
        k += 1;
    }
    proof {
        assert(s@.subrange(i as int, i + p@.len()) =~= p@);
    }
    true
}

/// `str::contains` of a string.
pub fn contains_exec(s: &Vec<char>, p: &Vec<char>) -> (r: bool)
    ensures
        r == contains(s@, p@),
{
    if p.len() > s.len() {
        proof {
            assert forall|i: int| !occurs_at(s@, p@, i) by {}
        }
        return false;
    }
    let last = s.len() - p.len();
    let mut i: usize = 0;
    while i < last
        invariant
            last == s@.len() - p@.len(),
            i <= last,
            forall|j: int| 0 <= j < i ==> !occurs_at(s@, p@, j),
        decreases last - i,
    {
        if occurs_at_exec(s, p, i) {
            return true;
        }
        i += 1;
    }
    let r = occurs_at_exec(s, p, last);
    proof {
        if !r {
            assert forall|j: int| !occurs_at(s@, p@, j) by {
                if 0 <= j < i {
                }
            }
        }
    }
    r
}


/// What `str::to_lowercase` gives for `s` (Unicode lower-casing).
pub uninterp spec fn unicode_lower(s: Seq<char>) -> Seq<char>;

/// `str::to_lowercase`. The result is named by [`unicode_lower`]; the
/// Unicode case mapping is not written out here.
#[verifier::external_body]
pub fn to_lowercase(s: &str) -> (r: String)
    ensures
        r@ == unicode_lower(s@),
{
    s.to_lowercase()
}


/// What `format!("{:?}", s)` gives for a string: `s` quoted, with
/// characters escaped as `str::escape_debug` does.
pub uninterp spec fn debug_quoted(s: Seq<char>) -> Seq<char>;

/// The `Debug` rendering of a string. The result is named by
/// [`debug_quoted`]; the escaping rules are not written out here.
#[verifier::external_body]
pub fn debug_str(s: &str) -> (r: String)
    ensures
        r@ == debug_quoted(s@),
{
    format!("{:?}", s)
}


// ── messages ─────────────────────────────────────────────────────────────────

/// `a` as an owned string.
pub fn owned(a: &str) -> (r: String)
    ensures
        r@ == a@,
{
    let mut s = String::new();
    push_str(&mut s, a);
    s
}

/// `a` then `b`.
pub fn concat2(a: &str, b: &str) -> (r: String)
    ensures
        r@ == a@ + b@,
{
    let mut s = String::new();
    push_str(&mut s, a);
    push_str(&mut s, b);
    proof {
        assert(s@ =~= a@ + b@);
    }
    s
}

/// `a`, `b` and `c` one after the other.
pub fn concat3(a: &str, b: &str, c: &str) -> (r: String)
    ensures
        r@ == a@ + b@ + c@,
{
    let mut s = concat2(a, b);
    push_str(&mut s, c);
    s
}

/// Four pieces one after the other.
pub fn concat4(a: &str, b: &str, c: &str, d: &str) -> (r: String)
    ensures
        r@ == a@ + b@ + c@ + d@,
{
    let mut s = concat3(a, b, c);
    push_str(&mut s, d);
    s
}

/// Five pieces one after the other.
pub fn concat5(a: &str, b: &str, c: &str, d: &str, e: &str) -> (r: String)
    ensures
        r@ == a@ + b@ + c@ + d@ + e@,
{
    let mut s = concat3(a, b, c);
    push_str(&mut s, d);
    push_str(&mut s, e);
    s
}

/// Seven pieces one after the other.
pub fn concat7(a: &str, b: &str, c: &str, d: &str, e: &str, f: &str, g: &str) -> (r: String)
    ensures
        r@ == a@ + b@ + c@ + d@ + e@ + f@ + g@,
{
    let mut s = concat5(a, b, c, d, e);
    push_str(&mut s, f);
    push_str(&mut s, g);
    s
}

/// What `format!("{:?}", c)` gives for a character: `c` in single quotes,
/// escaped as `char::escape_debug` does.
pub uninterp spec fn char_debug(c: char) -> Seq<char>;

/// The `Debug` rendering of a character. The result is named by
/// [`char_debug`]; the escaping rules are not written out here.
#[verifier::external_body]
pub fn debug_char(c: char) -> (r: String)
    ensures
        r@ == char_debug(c),
{
    format!("{:?}", c)
}

// ── pieces of concatenated text ──────────────────────────────────────────────

proof fn lemma_find_from_append(a: Seq<char>, b: Seq<char>, c: char, p: int)
    requires
        0 <= p,
        find_from(a, c, p) < a.len(),
    ensures
        find_from(a + b, c, p) == find_from(a, c, p),
    decreases a.len() - p,
{
    if p < a.len() && a[p] != c {
        assert((a + b)[p] == a[p]);
        lemma_find_from_append(a, b, c, p + 1);
    } else if p < a.len() {
        assert((a + b)[p] == a[p]);
    }
}

proof fn lemma_find_from_shift(a: Seq<char>, b: Seq<char>, c: char, q: int)
    requires
        0 <= q,
    ensures
        find_from(a + b, c, a.len() + q) == a.len() + find_from(b, c, q),
    decreases b.len() - q,
{
    if q < b.len() {
        assert((a + b)[a.len() + q] == b[q]);
        if b[q] != c {
            lemma_find_from_shift(a, b, c, q + 1);
        }
    }
}

proof fn lemma_pieces_shift(a: Seq<char>, b: Seq<char>, q: int)
    requires
        0 <= q,
    ensures
        pieces_from(a + b, a.len() + q) == pieces_from(b, q),
    decreases b.len() - q,
{
    if q < b.len() {
        lemma_find_from_shift(a, b, '\n', q);
        lemma_find_from_bounds(b, '\n', q);
        let e = piece_end(b, q);
        assert(piece_end(a + b, a.len() + q) == a.len() + e);
        assert((a + b).subrange(a.len() + q, a.len() + e) =~= b.subrange(q, e));
        lemma_pieces_shift(a, b, e);
    }
}

/// Splitting text that ends a line and more text: the pieces of the first,
/// then those of the second.
pub proof fn lemma_pieces_concat(a: Seq<char>, b: Seq<char>, p: int)
    requires
        0 <= p <= a.len(),
        a.len() == 0 || a.last() == '\n',
    ensures
        pieces_from(a + b, p) == pieces_from(a, p) + pieces(b),
    decreases a.len() - p,
{
    if p == a.len() {
        lemma_pieces_shift(a, b, 0);
        assert(pieces_from(a, p) =~= Seq::<Seq<char>>::empty());
        assert(pieces_from(a + b, p) =~= pieces_from(a, p) + pieces(b));
    } else {
        lemma_find_from_bounds(a, '\n', p);
        let f = find_from(a, '\n', p);
        if f >= a.len() {
            assert(a[a.len() - 1] != '\n');
        }
        lemma_find_from_append(a, b, '\n', p);
        let e = piece_end(a, p);
        assert(piece_end(a + b, p) == e);
        let sub = a.subrange(p, e);
        assert((a + b).subrange(p, e) =~= sub);
        lemma_pieces_concat(a, b, e);
        assert(seq![sub] + (pieces_from(a, e) + pieces(b)) =~= (seq![sub] + pieces_from(a, e)) + pieces(b));
    }
}

/// A line without `'\n'`, ended by one, is a single piece.
pub proof fn lemma_pieces_one_line(l: Seq<char>)
    requires
        forall|i: int| 0 <= i < l.len() ==> l[i] != '\n',
    ensures
        pieces(l + seq!['\n']) == seq![l + seq!['\n']],
{
    let s = l + seq!['\n'];
    lemma_find_from_bounds(s, '\n', 0);
    let f = find_from(s, '\n', 0);
    assert(s[l.len() as int] == '\n');
    if f > l.len() {
        assert(s[l.len() as int] != '\n');
    }
    if f < l.len() {
        assert(s[f] == l[f]);
    }
    assert(f == l.len());
    assert(s.subrange(0, s.len() as int) =~= s);
    assert(pieces_from(s, s.len() as int) =~= Seq::<Seq<char>>::empty());
    assert(pieces(s) =~= seq![s]);
}

/// Every piece has `'\n'` at most as its last character.
pub proof fn lemma_pieces_newlines(s: Seq<char>, p: int)
    requires
        0 <= p,
    ensures
        forall|k: int, i: int|
            0 <= k < pieces_from(s, p).len() && 0 <= i < pieces_from(s, p)[k].len() - 1 ==> #[trigger] pieces_from(s, p)[k][i] != '\n',
    decreases s.len() + 1 - p,
{
    if p < s.len() {
        lemma_find_from_bounds(s, '\n', p);
        let e = piece_end(s, p);
        lemma_pieces_newlines(s, e);
        let ps = pieces_from(s, p);
        let sub = s.subrange(p, e);
        assert forall|k: int, i: int| 0 <= k < ps.len() && 0 <= i < ps[k].len() - 1 implies #[trigger] ps[k][i] != '\n' by {
            if k == 0 {
                assert(ps[0] == sub);
                assert(sub[i] == s[p + i]);
            } else {
                assert(ps[k] == pieces_from(s, e)[k - 1]);
            }
        }
    }
}

// ── lines of joined text ─────────────────────────────────────────────────────

/// `xs`, each followed by `'\n'`.
pub open spec fn unlines(xs: Seq<Seq<char>>) -> Seq<char>
    decreases xs.len(),
{
    if xs.len() == 0 {
        Seq::empty()
    } else {
        unlines(xs.drop_last()) + xs.last() + seq!['\n']
    }
}

/// `x` reads back as one line: no `'\n'` in it, no `'\r'` at its end.
pub open spec fn one_line(x: Seq<char>) -> bool {
    &&& forall|i: int| 0 <= i < x.len() ==> x[i] != '\n'
    &&& (x.len() > 0 ==> x.last() != '\r')
}

proof fn lemma_lines_shift(a: Seq<char>, b: Seq<char>, q: int)
    requires
        0 <= q,
    ensures
        lines_from(a + b, a.len() + q) == lines_from(b, q),
    decreases b.len() - q,
{
    if q < b.len() {
        lemma_find_from_shift(a, b, '\n', q);
        lemma_find_from_bounds(b, '\n', q);
        let f = find_from(b, '\n', q);
        let s = a + b;
        assert(find_from(s, '\n', a.len() + q) == a.len() + f);
        if f < b.len() && f > q {
            assert(s[a.len() + f - 1] == b[f - 1]);
        }
        assert(line_body(s, a.len() + q, a.len() + f) =~= line_body(b, q, f));
        if f < b.len() {
            lemma_lines_shift(a, b, f + 1);
        } else {
            assert(lines_from(b, f + 1) =~= Seq::<Seq<char>>::empty());
            assert(lines_from(s, a.len() + f + 1) =~= Seq::<Seq<char>>::empty());
        }
        assert(lines_from(s, a.len() + q) == seq![line_body(s, a.len() + q, a.len() + f)] + lines_from(s, a.len() + f + 1));
    }
}

/// Splitting text that ends a line and more text into lines: the lines of
/// the first, then those of the second.
pub proof fn lemma_lines_concat(a: Seq<char>, b: Seq<char>, p: int)
    requires
        0 <= p <= a.len(),
        a.len() == 0 || a.last() == '\n',
    ensures
        lines_from(a + b, p) == lines_from(a, p) + lines(b),
    decreases a.len() - p,
{
    if p == a.len() {
        lemma_lines_shift(a, b, 0);
        assert(lines_from(a, p) =~= Seq::<Seq<char>>::empty());
        assert(lines_from(a + b, p) =~= lines_from(a, p) + lines(b));
    } else {
        lemma_find_from_bounds(a, '\n', p);
        let f = find_from(a, '\n', p);
        if f >= a.len() {
            assert(a[a.len() - 1] != '\n');
        }
        lemma_find_from_append(a, b, '\n', p);
        let s = a + b;
        if f > p {
            assert(s[f - 1] == a[f - 1]);
        }
        assert(line_body(s, p, f) =~= line_body(a, p, f));
        lemma_lines_concat(a, b, f + 1);
        let l = line_body(a, p, f);
        assert(seq![l] + (lines_from(a, f + 1) + lines(b)) =~= (seq![l] + lines_from(a, f + 1)) + lines(b));
    }
}

/// Text without `'\n'` is one line, or none when empty.
pub proof fn lemma_lines_no_newline(x: Seq<char>)
    requires
        forall|i: int| 0 <= i < x.len() ==> x[i] != '\n',
    ensures
        lines(x) == (if x.len() == 0 { Seq::<Seq<char>>::empty() } else { seq![x] }),
{
    if x.len() > 0 {
        lemma_find_from_bounds(x, '\n', 0);
        let f = find_from(x, '\n', 0);
        if f < x.len() {
            assert(x[f] == '\n');
        }
        assert(x.subrange(0, x.len() as int) =~= x);
        assert(lines_from(x, x.len() as int + 1) =~= Seq::<Seq<char>>::empty());
        assert(lines(x) =~= seq![x]);
    }
}

/// A line ended by `'\n'` reads back as that line.
pub proof fn lemma_lines_one(x: Seq<char>)
    requires
        one_line(x),
    ensures
        lines(x + seq!['\n']) == seq![x],
{
    let s = x + seq!['\n'];
    lemma_find_from_bounds(s, '\n', 0);
    let f = find_from(s, '\n', 0);
    assert(s[x.len() as int] == '\n');
    if f > x.len() {
        assert(s[x.len() as int] != '\n');
    }
    if f < x.len() {
        assert(s[f] == x[f]);
    }
    assert(f == x.len());
    if x.len() > 0 {
        assert(s[x.len() - 1] == x.last());
    }
    assert(line_body(s, 0, f) =~= x);
    assert(lines_from(s, f + 1) =~= Seq::<Seq<char>>::empty());
    assert(lines(s) =~= seq![x]);
}

/// Lines joined with `'\n'` endings read back as themselves.
pub proof fn lemma_lines_unlines(xs: Seq<Seq<char>>)
    requires
        forall|k: int| 0 <= k < xs.len() ==> one_line(#[trigger] xs[k]),
    ensures
        lines(unlines(xs)) == xs,
    decreases xs.len(),
{
    if xs.len() == 0 {
        assert(lines(Seq::<char>::empty()) =~= Seq::<Seq<char>>::empty());
    } else {
        let init = xs.drop_last();
        assert forall|k: int| 0 <= k < init.len() implies one_line(#[trigger] init[k]) by {
            assert(init[k] == xs[k]);
        }
        lemma_lines_unlines(init);
        lemma_unlines_ends(init);
        let a = unlines(init);
        let b = xs.last() + seq!['\n'];
        assert(unlines(xs) =~= a + b);
        lemma_lines_concat(a, b, 0);
        assert(one_line(xs[xs.len() - 1]));
        lemma_lines_one(xs.last());
        assert(lines(unlines(xs)) =~= xs);
    }
}

/// Dropping the final `'\n'` of joined lines loses at most a last empty
/// line.
pub proof fn lemma_lines_unlines_drop(xs: Seq<Seq<char>>)
    requires
        xs.len() > 0,
        forall|k: int| 0 <= k < xs.len() ==> one_line(#[trigger] xs[k]),
    ensures
        lines(unlines(xs).drop_last()) == (if xs.last().len() == 0 { xs.drop_last() } else { xs }),
{
    let init = xs.drop_last();
    assert forall|k: int| 0 <= k < init.len() implies one_line(#[trigger] init[k]) by {
        assert(init[k] == xs[k]);
    }
    lemma_lines_unlines(init);
    lemma_unlines_ends(init);
    let a = unlines(init);
    let b = xs.last();
    assert(unlines(xs).drop_last() =~= a + b);
    lemma_lines_concat(a, b, 0);
    assert(one_line(xs[xs.len() - 1]));
    lemma_lines_no_newline(b);
    if b.len() == 0 {
        assert(lines(unlines(xs).drop_last()) =~= xs.drop_last());
    } else {
        assert(lines(unlines(xs).drop_last()) =~= xs);
    }
}

pub proof fn lemma_unlines_ends(xs: Seq<Seq<char>>)
    ensures
        unlines(xs).len() == 0 || unlines(xs).last() == '\n',
        xs.len() > 0 ==> unlines(xs).len() > 0,
{
}

pub proof fn lemma_unlines_append(xs: Seq<Seq<char>>, ys: Seq<Seq<char>>)
    ensures
        unlines(xs + ys) == unlines(xs) + unlines(ys),
    decreases ys.len(),
{
    if ys.len() == 0 {
        assert(xs + ys =~= xs);
        assert(unlines(xs) + unlines(ys) =~= unlines(xs));
    } else {
        lemma_unlines_append(xs, ys.drop_last());
        assert((xs + ys).drop_last() =~= xs + ys.drop_last());
        assert((xs + ys).last() == ys.last());
        assert(unlines(xs + ys) =~= unlines(xs) + unlines(ys));
    }
}

// ── string order ─────────────────────────────────────────────────────────────

/// `a` sorts strictly before `b` in `str`'s order: by characters (UTF-8
/// byte order is code point order), a proper prefix first.
pub open spec fn str_lt(a: Seq<char>, b: Seq<char>) -> bool
    decreases a.len(),
{
    if a.len() == 0 {
        b.len() > 0
    } else if b.len() == 0 {
        false
    } else if a[0] != b[0] {
        (a[0] as u32) < (b[0] as u32)
    } else {
        str_lt(a.skip(1), b.skip(1))
    }
}

pub proof fn lemma_str_lt_irreflexive(a: Seq<char>)
    ensures
        !str_lt(a, a),
    decreases a.len(),
{
    if a.len() > 0 {
        lemma_str_lt_irreflexive(a.skip(1));
    }
}

pub proof fn lemma_str_lt_total(a: Seq<char>, b: Seq<char>)
    requires
        a != b,
    ensures
        str_lt(a, b) || str_lt(b, a),
    decreases a.len(),
{
    if a.len() == 0 && b.len() == 0 {
        assert(a =~= b);
    }
    if a.len() > 0 && b.len() > 0 && a[0] != b[0] {
        vstd::utf8::char_u32_cast(a[0], a[0] as u32);
        vstd::utf8::char_u32_cast(b[0], b[0] as u32);
    }
    if a.len() > 0 && b.len() > 0 && a[0] == b[0] {
        if a.skip(1) == b.skip(1) {
            assert(a =~= seq![a[0]] + a.skip(1));
            assert(b =~= seq![b[0]] + b.skip(1));
        }
        lemma_str_lt_total(a.skip(1), b.skip(1));
    }
}

pub proof fn lemma_str_lt_transitive(a: Seq<char>, b: Seq<char>, c: Seq<char>)
    requires
        str_lt(a, b),
        str_lt(b, c),
    ensures
        str_lt(a, c),
    decreases a.len(),
{
    if a.len() > 0 && a[0] == b[0] && b[0] == c[0] {
        lemma_str_lt_transitive(a.skip(1), b.skip(1), c.skip(1));
    }
}

/// `a < b` for strings.
pub fn str_lt_exec(a: &str, b: &str) -> (r: bool)
    ensures
        r == str_lt(a@, b@),
{
    let ca = to_chars(a);
    let cb = to_chars(b);
    let mut i: usize = 0;
    proof {
        assert(a@.skip(0) =~= a@);
        assert(b@.skip(0) =~= b@);
    }
    while i < ca.len() && i < cb.len() && ca[i] == cb[i]
        invariant
            i <= ca@.len(),
            i <= cb@.len(),
            ca@ == a@,
            cb@ == b@,
            str_lt(a@, b@) == str_lt(a@.skip(i as int), b@.skip(i as int)),
        decreases ca@.len() - i,
    {
        proof {
            assert(a@.skip(i as int).skip(1) =~= a@.skip(i + 1));
            assert(b@.skip(i as int).skip(1) =~= b@.skip(i + 1));
        }
        i += 1;
    }
    if i == ca.len() {
        i < cb.len()
    } else if i == cb.len() {
        false
    } else {
        (ca[i] as u32) < (cb[i] as u32)
    }
}

} // verus!
