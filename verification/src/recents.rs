//! Per-vault log of recently-opened notes.
//!
//! The log is an append-only file of open events, oldest first, stored
//! under a directory named by a hash of the vault's path. Reading and
//! writing the file is the caller's; this module decides what the file
//! shows and where it lives.

use vstd::prelude::*;

use crate::selector::{has_path, path_eq, same_path};
use crate::text::push_char;

verus! {

/// Rewrite the log when it exceeds this many raw lines.
pub const TRIM_THRESHOLD: usize = 250;

/// Keep this many newest entries on each rewrite.
pub const TRIM_KEEP: usize = 200;

/// "Recently opened" log of one vault.
pub struct RecentsLog {
    /// Canonical vault root.
    vault_root: String,
    /// Path of the log file.
    log_path: String,
}

impl RecentsLog {
    pub closed spec fn spec_vault_root(&self) -> Seq<char> {
        self.vault_root@
    }

    pub closed spec fn spec_log_path(&self) -> Seq<char> {
        self.log_path@
    }

    /// A log of vault `vault_root` stored at `log_path`.
    pub fn with_log_path(vault_root: String, log_path: String) -> (r: RecentsLog)
        ensures
            r.spec_vault_root() == vault_root@,
            r.spec_log_path() == log_path@,
    {
        RecentsLog { vault_root, log_path }
    }

    /// Path of the log file.
    pub fn log_path(&self) -> (r: &str)
        ensures
            r@ == self.spec_log_path(),
    {
        self.log_path.as_str()
    }

    /// `path` as the log stores it: an absolute path inside the vault
    /// without the vault root in front; any other path as it is.
    pub fn vault_relative(&self, path: &str) -> (r: String)
        ensures
            r@ == (if path_absolute(path@) {
                match path_strip_prefix(path@, self.spec_vault_root()) {
                    Some(rest) => rest,
                    None => path@,
                }
            } else {
                path@
            }),
    {
        if is_absolute(path) {
            match strip_prefix(path, self.vault_root.as_str()) {
                Some(rest) => rest,
                None => path.to_string(),
            }
        } else {
            path.to_string()
        }
    }

    /// The vault root the log belongs to.
    pub fn vault_root(&self) -> (r: &str)
        ensures
            r@ == self.spec_vault_root(),
    {
        self.vault_root.as_str()
    }

    /// Up to `limit` most-recently-opened distinct paths, newest first,
    /// from the logged paths `entries` (oldest first).
    pub fn load_recent(&self, limit: usize, entries: &Vec<String>) -> (r: Vec<String>)
        ensures
            crate::task::strings_view(r@) == recent_unique(crate::task::strings_view(entries@), limit as nat),
    {
        let ghost ev = crate::task::strings_view(entries@);
        let mut out: Vec<String> = Vec::new();
        if limit == 0 {
            proof {
                assert(crate::task::strings_view(out@) =~= Seq::<Seq<char>>::empty());
            }
            return out;
        }
        let mut k = entries.len();
        proof {
            assert(crate::task::strings_view(out@) =~= Seq::<Seq<char>>::empty());
        }
        while k > 0 && out.len() < limit
            invariant
                k <= entries@.len() == ev.len(),
                ev == crate::task::strings_view(entries@),
                limit > 0,
                out@.len() <= limit,
                recent_unique(ev, limit as nat) == recent_from(
                    ev,
                    k as int,
                    crate::task::strings_view(out@),
                    limit as nat,
                ),
            decreases k,
        {
            let p = &entries[k - 1];
            let mut seen = false;
            let mut j: usize = 0;
            while j < out.len()
                invariant
                    j <= out@.len(),
                    p@ == ev[k - 1],
                    ev == crate::task::strings_view(entries@),
                    k <= entries@.len(),
                    seen == exists|q: int| 0 <= q < j && same_path(#[trigger] out@[q]@, p@),
                decreases out@.len() - j,
            {
                if path_eq(out[j].as_str(), p.as_str()) {
                    seen = true;
                }
                j += 1;
            }
            let ghost before = crate::task::strings_view(out@);
            proof {
                assert(p@ == entries@[k - 1]@);
                assert(seen == has_path(before, ev[k - 1])) by {
                    if seen {
                        let q = choose|q: int| 0 <= q < out@.len() && same_path(#[trigger] out@[q]@, p@);
                        assert(before[q] == out@[q]@);
                    }
                    if has_path(before, ev[k - 1]) {
                        let q = choose|q: int| 0 <= q < before.len() && same_path(#[trigger] before[q], ev[k - 1]);
                        assert(out@[q]@ == before[q]);
                    }
                }
            }
            if !seen {
                let s = p.clone();
                out.push(s);
                proof {
                    assert(crate::task::strings_view(out@) =~= before.push(ev[k - 1]));
                }
            }
            k -= 1;
        }
        proof {
            if k > 0 {
                assert(out@.len() == limit);
            }
        }
        out
    }
}

/// Whether `std::path::Path::new(p).is_absolute()` on the running
/// platform.
pub uninterp spec fn path_absolute(p: Seq<char>) -> bool;

/// `std::path::Path::new(p).strip_prefix(base)`: the rest of `p` after
/// the components of `base`, or `None` when `p` does not start with them.
pub uninterp spec fn path_strip_prefix(p: Seq<char>, base: Seq<char>) -> Option<Seq<char>>;

/// `Path::is_absolute`. The result is named by [`path_absolute`].
#[verifier::external_body]
fn is_absolute(p: &str) -> (r: bool)
    ensures
        r == path_absolute(p@),
{
    std::path::Path::new(p).is_absolute()
}

/// `Path::strip_prefix`, the rest as text. The result is named by
/// [`path_strip_prefix`].
#[verifier::external_body]
fn strip_prefix(p: &str, base: &str) -> (r: Option<String>)
    ensures
        match r {
            Some(rest) => path_strip_prefix(p@, base@) == Some(rest@),
            None => path_strip_prefix(p@, base@) is None,
        },
{
    match std::path::Path::new(p).strip_prefix(base) {
        Ok(rest) => Some(rest.to_string_lossy().into_owned()),
        Err(_) => None,
    }
}

/// Walking `entries[..k]` from the newest, the paths not equal (as paths)
/// to one already in `acc`, appended to `acc` until it holds `limit` of them.
pub open spec fn recent_from(entries: Seq<Seq<char>>, k: int, acc: Seq<Seq<char>>, limit: nat) -> Seq<Seq<char>>
    decreases k,
{
    if k <= 0 || acc.len() >= limit {
        acc
    } else if has_path(acc, entries[k - 1]) {
        recent_from(entries, k - 1, acc, limit)
    } else {
        recent_from(entries, k - 1, acc.push(entries[k - 1]), limit)
    }
}

/// Up to `limit` paths of `entries`, newest first, each kept only where no
/// newer kept one is the same path.
pub open spec fn recent_unique(entries: Seq<Seq<char>>, limit: nat) -> Seq<Seq<char>> {
    recent_from(entries, entries.len() as int, Seq::empty(), limit)
}

/// Where to cut the log when it is rewritten: `None` when `line_count`
/// raw lines do not exceed [`TRIM_THRESHOLD`], else the index of the
/// first of the newest [`TRIM_KEEP`] of `entries_len` entries.
pub fn trim_keep_from(line_count: usize, entries_len: usize) -> (r: Option<usize>)
    ensures
        r == if line_count <= TRIM_THRESHOLD {
            None
        } else if entries_len >= TRIM_KEEP {
            Some((entries_len - TRIM_KEEP) as usize)
        } else {
            Some(0usize)
        },
{
    if line_count <= TRIM_THRESHOLD {
        None
    } else {
        Some(entries_len.saturating_sub(TRIM_KEEP))
    }
}

/// FNV-1a (64-bit) of `bytes`.
pub open spec fn fnv1a(bytes: Seq<u8>) -> u64
    decreases bytes.len(),
{
    if bytes.len() == 0 {
        0xcbf29ce484222325u64
    } else {
        let h = fnv1a(bytes.drop_last()) ^ (bytes.last() as u64);
        ((h as nat * 0x100000001b3nat) % 0x10000000000000000nat) as u64
    }
}

/// Lowercase hex digit of `d < 16`.
pub open spec fn hex_char(d: nat) -> char {
    if d < 10 {
        ((d + 48) as u32) as char
    } else {
        ((d + 87) as u32) as char
    }
}

/// The low `n` hex digits of `x`, most significant first.
pub open spec fn hex_digits(x: nat, n: nat) -> Seq<char>
    decreases n,
{
    if n == 0 {
        Seq::empty()
    } else {
        hex_digits(x / 16, (n - 1) as nat) + seq![hex_char(x % 16)]
    }
}

fn hex_char_exec(d: u64) -> (r: char)
    requires
        d < 16,
    ensures
        r == hex_char(d as nat),
{
    let b: u8 = if d < 10 {
        (d as u8) + 48
    } else {
        (d as u8) + 87
    };
    b as char
}

fn push_hex(out: &mut String, x: u64, n: usize)
    ensures
        final(out)@ == old(out)@ + hex_digits(x as nat, n as nat),
    decreases n,
{
    if n == 0 {
        proof {
            assert(old(out)@ + hex_digits(x as nat, 0) =~= old(out)@);
        }
        return;
    }
    push_hex(out, x / 16, n - 1);
    push_char(out, hex_char_exec(x % 16));
    proof {
        assert(final(out)@ =~= old(out)@ + hex_digits(x as nat, n as nat));
    }
}

/// The name of a vault's state directory: FNV-1a (64-bit) of the UTF-8
/// bytes of its path, as 16 lowercase hex digits. Stable across runs and
/// builds.
pub fn vault_path_hash(path: &str) -> (r: String)
    ensures
        r@ == hex_digits(fnv1a(vstd::utf8::encode_utf8(path@)) as nat, 16),
{
    let bytes = path.as_bytes();
    let ghost bv = bytes@;
    let mut h: u64 = 0xcbf29ce484222325u64;
    let mut i: usize = 0;
    proof {
        assert(bv.take(0) =~= Seq::<u8>::empty());
    }
    while i < bytes.len()
        invariant
            i <= bv.len(),
            bv == bytes@,
            h == fnv1a(bv.take(i as int)),
        decreases bv.len() - i,
    {
        proof {
            assert(bv.take(i + 1).drop_last() =~= bv.take(i as int));
            assert(bv.take(i + 1).last() == bv[i as int]);
        }
        h = (h ^ (bytes[i] as u64)).wrapping_mul(0x100000001b3u64);
        i += 1;
    }
    proof {
        assert(bv.take(i as int) =~= bv);
    }
    let mut s = String::new();
    push_hex(&mut s, h, 16);
    proof {
        assert(s@ =~= hex_digits(h as nat, 16));
    }
    s
}


/// No earlier path of `xs` is the same path as a later one.
pub open spec fn distinct_paths(xs: Seq<Seq<char>>) -> bool {
    forall|a: int, b: int| 0 <= a < b < xs.len() ==> !same_path(#[trigger] xs[a], #[trigger] xs[b])
}

/// A walk of the log never yields a path twice, yields at most `limit`
/// paths, and yields only logged paths.
proof fn lemma_recent_from_shape(entries: Seq<Seq<char>>, k: int, acc: Seq<Seq<char>>, limit: nat)
    requires
        k <= entries.len(),
        distinct_paths(acc),
        acc.len() <= limit || k <= 0,
    ensures
        distinct_paths(recent_from(entries, k, acc, limit)),
        acc.len() <= limit ==> recent_from(entries, k, acc, limit).len() <= limit,
        recent_from(entries, k, acc, limit).len() >= acc.len(),
        forall|i: int| 0 <= i < acc.len() ==> recent_from(entries, k, acc, limit)[i] == acc[i],
        forall|i: int|
            acc.len() <= i < recent_from(entries, k, acc, limit).len() ==> entries.contains(
                #[trigger] recent_from(entries, k, acc, limit)[i],
            ),
    decreases k,
{
    if k <= 0 || acc.len() >= limit {
    } else if has_path(acc, entries[k - 1]) {
        lemma_recent_from_shape(entries, k - 1, acc, limit);
    } else {
        let next = acc.push(entries[k - 1]);
        assert(distinct_paths(next)) by {
            assert forall|a: int, b: int| 0 <= a < b < next.len() implies !same_path(#[trigger] next[a], #[trigger] next[b]) by {
                if b == acc.len() {
                    assert(next[a] == acc[a]);
                    assert(next[b] == entries[k - 1]);
                } else {
                    assert(next[a] == acc[a] && next[b] == acc[b]);
                }
            }
        }
        lemma_recent_from_shape(entries, k - 1, next, limit);
        let r = recent_from(entries, k, acc, limit);
        assert forall|i: int| 0 <= i < acc.len() implies r[i] == acc[i] by {
            assert(r[i] == next[i]);
        }
        assert forall|i: int| acc.len() <= i < r.len() implies entries.contains(#[trigger] r[i]) by {
            if i == acc.len() {
                assert(r[i] == next[i]);
                assert(entries[k - 1] == r[i]);
            }
        }
    }
}

/// The recently opened paths are distinct as paths, at most `limit` of
/// them, and each was logged.
pub proof fn lemma_recent_unique_shape(entries: Seq<Seq<char>>, limit: nat)
    ensures
        distinct_paths(recent_unique(entries, limit)),
        recent_unique(entries, limit).len() <= limit,
        forall|i: int| 0 <= i < recent_unique(entries, limit).len() ==> entries.contains(#[trigger] recent_unique(entries, limit)[i]),
{
    lemma_recent_from_shape(entries, entries.len() as int, Seq::empty(), limit);
}

/// A lowercase hexadecimal digit.
pub open spec fn is_hex_char(c: char) -> bool {
    ('0' <= c && c <= '9') || ('a' <= c && c <= 'f')
}

proof fn lemma_hex_digits_shape(x: nat, n: nat)
    ensures
        hex_digits(x, n).len() == n,
        forall|i: int| 0 <= i < n ==> is_hex_char(#[trigger] hex_digits(x, n)[i]),
    decreases n,
{
    if n > 0 {
        lemma_hex_digits_shape(x / 16, (n - 1) as nat);
        let d = x % 16;
        assert(is_hex_char(hex_char(d))) by {
            if d < 10 {
                assert(hex_char(d) == ((d + 48) as u32) as char);
            } else {
                assert(hex_char(d) == ((d + 87) as u32) as char);
            }
        }
        let h = hex_digits(x, n);
        assert forall|i: int| 0 <= i < n implies is_hex_char(#[trigger] h[i]) by {
            if i < n - 1 {
                assert(h[i] == hex_digits(x / 16, (n - 1) as nat)[i]);
            }
        }
    }
}

/// A vault's state-directory name is always sixteen lowercase hex digits.
pub proof fn lemma_vault_hash_shape(path: Seq<char>)
    ensures
        hex_digits(fnv1a(vstd::utf8::encode_utf8(path)) as nat, 16).len() == 16,
        forall|i: int|
            0 <= i < 16 ==> is_hex_char(#[trigger] hex_digits(fnv1a(vstd::utf8::encode_utf8(path)) as nat, 16)[i]),
{
    lemma_hex_digits_shape(fnv1a(vstd::utf8::encode_utf8(path)) as nat, 16);
}

} // verus!
