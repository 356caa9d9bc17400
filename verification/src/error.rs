//! Error type shared by the library's fallible operations.

use vstd::prelude::*;

verus! {

/// Errors of the library. Outside errors (configuration parsing, I/O) are
/// carried as their rendered message.
#[derive(Debug)]
pub enum Error {
    /// No vault was found; `tried` lists every location attempted.
    VaultNotFound { tried: Vec<String> },
    /// A configuration file could not be read or parsed.
    Config { path: String, message: String },
    /// An I/O operation failed on `path`.
    Io { path: String, message: String },
    Notes(String),
    Periodic(String),
    Git(String),
    Timeblock(String),
}

/// `v` joined with `'\n'`.
pub open spec fn joined_lines(v: Seq<Seq<char>>) -> Seq<char>
    decreases v.len(),
{
    if v.len() == 0 {
        Seq::empty()
    } else if v.len() == 1 {
        v[0]
    } else {
        joined_lines(v.drop_last()) + seq!['\n'] + v.last()
    }
}

/// The text of an error.
pub open spec fn error_text(e: Error) -> Seq<char> {
    match e {
        Error::VaultNotFound { tried } => "vault not found; searched:\n"@ + joined_lines(
            tried@.map_values(|t: String| t@),
        ),
        Error::Config { path, message } => "config error in "@ + path@ + ": "@ + message@,
        Error::Io { path, message } => "I/O error at "@ + path@ + ": "@ + message@,
        Error::Notes(m) => "notes: "@ + m@,
        Error::Periodic(m) => "periodic notes: "@ + m@,
        Error::Git(m) => "git: "@ + m@,
        Error::Timeblock(m) => "timeblock: "@ + m@,
    }
}

fn prefixed(prefix: &str, m: &String) -> (r: String)
    ensures
        r@ == prefix@ + m@,
{
    let mut s = String::new();
    crate::text::push_str(&mut s, prefix);
    crate::text::push_str(&mut s, m.as_str());
    proof {
        assert(s@ =~= prefix@ + m@);
    }
    s
}

fn path_message(prefix: &str, path: &String, m: &String) -> (r: String)
    ensures
        r@ == prefix@ + path@ + ": "@ + m@,
{
    let mut s = String::new();
    crate::text::push_str(&mut s, prefix);
    crate::text::push_str(&mut s, path.as_str());
    crate::text::push_str(&mut s, ": ");
    crate::text::push_str(&mut s, m.as_str());
    proof {
        assert(s@ =~= prefix@ + path@ + ": "@ + m@);
    }
    s
}

impl Error {
    /// Human-readable rendering of the error (see [`error_text`]).
    pub fn message(&self) -> (r: String)
        ensures
            r@ == error_text(*self),
    {
        match self {
            Error::VaultNotFound { tried } => {
                let ghost tv = tried@.map_values(|t: String| t@);
                let mut s = String::new();
                crate::text::push_str(&mut s, "vault not found; searched:\n");
                let ghost head = s@;
                let mut i: usize = 0;
                proof {
                    assert(tv.take(0) =~= Seq::<Seq<char>>::empty());
                    assert(s@ =~= head + joined_lines(tv.take(0)));
                }
                while i < tried.len()
                    invariant
                        i <= tried@.len() == tv.len(),
                        tv == tried@.map_values(|t: String| t@),
                        s@ == head + joined_lines(tv.take(i as int)),
                    decreases tried.len() - i,
                {
                    if i > 0 {
                        crate::text::push_str(&mut s, "\n");
                    }
                    crate::text::push_str(&mut s, tried[i].as_str());
                    proof {
                        reveal_strlit("\n");
                        let t = tv.take(i + 1);
                        assert(t.drop_last() =~= tv.take(i as int));
                        assert(t.last() == tried@[i as int]@);
                        if i == 0 {
                            assert(s@ =~= head + t[0]);
                        } else {
                            assert(s@ =~= head + (joined_lines(tv.take(i as int)) + seq!['\n'] + t.last()));
                        }
                    }
                    i += 1;
                }
                proof {
                    assert(tv.take(i as int) =~= tv);
                }
                s
            },
            Error::Config { path, message } => path_message("config error in ", path, message),
            Error::Io { path, message } => path_message("I/O error at ", path, message),
            Error::Notes(m) => prefixed("notes: ", m),
            Error::Periodic(m) => prefixed("periodic notes: ", m),
            Error::Git(m) => prefixed("git: ", m),
            Error::Timeblock(m) => prefixed("timeblock: ", m),
        }
    }
}

/// A non-fatal error encountered while scanning one file.
#[derive(Debug)]
pub struct ScanError {
    /// Vault-relative path of the offending file.
    pub path: String,
    pub message: String,
}

impl ScanError {
    /// `"<path>: <message>"`.
    pub fn message(&self) -> (r: String)
        ensures
            r@ == self.path@ + seq![':', ' '] + self.message@,
    {
        let mut s = String::new();
        crate::text::push_str(&mut s, self.path.as_str());
        crate::text::push_char(&mut s, ':');
        crate::text::push_char(&mut s, ' ');
        crate::text::push_str(&mut s, self.message.as_str());
        proof {
            assert(s@ =~= self.path@ + seq![':', ' '] + self.message@);
        }
        s
    }
}

} // verus!
