//! Daily-note path patterns.
//!
//! Obsidian's daily-note plugins write moment.js patterns; paths are built
//! with chrono's strftime syntax. [`translate_format`] converts the first
//! into the second. Reading the plugins' settings and formatting a date
//! with the result is the caller's work.

use std::fmt::Write;

use vstd::prelude::*;

use crate::date::{valid_date, Date};
use crate::text::{find_char_from, find_from, push_char, push_range, push_str, starts_with, to_chars};

verus! {

/// Errors of daily-note path resolution.
#[derive(Debug)]
pub enum DailyError {
    /// The core plugin's settings file does not exist.
    CoreNotFound { path: String },
    /// The Periodic Notes plugin's settings file does not exist.
    PeriodicNotFound { path: String },
    /// The Periodic Notes plugin has daily notes switched off.
    PeriodicDailyDisabled { path: String },
    /// The explicit source was chosen without a `path`.
    ExplicitMissingPath,
    /// A settings file could not be read.
    Read { path: String, message: String },
    /// A settings file could not be parsed.
    Parse { path: String, message: String },
    /// The pattern holds a moment.js token that is not translated.
    UnsupportedToken { token: String },
}

/// The text of a daily-note error.
pub open spec fn daily_error_text(e: DailyError) -> Seq<char> {
    match e {
        DailyError::CoreNotFound { path } => "daily-notes config not found at "@ + path@ + core_hint(),
        DailyError::PeriodicNotFound { path } => "periodic-notes plugin config not found at "@ + path@ + periodic_hint(),
        DailyError::PeriodicDailyDisabled { path } => "periodic-notes plugin's daily notes are disabled (daily.enabled = false in "@
            + path@ + disabled_hint(),
        DailyError::ExplicitMissingPath => explicit_hint(),
        DailyError::Read { path, message } => "could not read "@ + path@ + ": "@ + message@,
        DailyError::Parse { path, message } => "could not parse "@ + path@ + ": "@ + message@,
        DailyError::UnsupportedToken { token } => "daily-notes format token `"@ + token@ + "` is not supported"@,
    }
}

pub open spec fn core_hint() -> Seq<char> {
    "\nhint: enable Obsidian's \"Daily notes\" core plugin, switch [daily_notes].source to \"periodic-notes\" or \"explicit\", or pass --file <PATH>"@
}

pub open spec fn periodic_hint() -> Seq<char> {
    "\nhint: install/enable the Periodic Notes community plugin, switch [daily_notes].source to \"core\" or \"explicit\", or pass --file <PATH>"@
}

pub open spec fn disabled_hint() -> Seq<char> {
    "). Enable it in Obsidian, or set [daily_notes].source = \"explicit\"."@
}

pub open spec fn explicit_hint() -> Seq<char> {
    "[daily_notes].source = \"explicit\" requires `path` to be set in ft's config"@
}

impl DailyError {
    /// Human-readable rendering of the error (see [`daily_error_text`]).
    pub fn message(&self) -> (r: String)
        ensures
            r@ == daily_error_text(*self),
    {
        match self {
            DailyError::CoreNotFound { path } => crate::text::concat3(
                "daily-notes config not found at ",
                path.as_str(),
                "\nhint: enable Obsidian's \"Daily notes\" core plugin, switch [daily_notes].source to \"periodic-notes\" or \"explicit\", or pass --file <PATH>",
            ),
            DailyError::PeriodicNotFound { path } => crate::text::concat3(
                "periodic-notes plugin config not found at ",
                path.as_str(),
                "\nhint: install/enable the Periodic Notes community plugin, switch [daily_notes].source to \"core\" or \"explicit\", or pass --file <PATH>",
            ),
            DailyError::PeriodicDailyDisabled { path } => crate::text::concat3(
                "periodic-notes plugin's daily notes are disabled (daily.enabled = false in ",
                path.as_str(),
                "). Enable it in Obsidian, or set [daily_notes].source = \"explicit\".",
            ),
            DailyError::ExplicitMissingPath => crate::text::owned(
                "[daily_notes].source = \"explicit\" requires `path` to be set in ft's config",
            ),
            DailyError::Read { path, message } => crate::text::concat4("could not read ", path.as_str(), ": ", message.as_str()),
            DailyError::Parse { path, message } => crate::text::concat4("could not parse ", path.as_str(), ": ", message.as_str()),
            DailyError::UnsupportedToken { token } => crate::text::concat3(
                "daily-notes format token `",
                token.as_str(),
                "` is not supported",
            ),
        }
    }
}

/// The moment.js token at the start of `rest`, with its strftime
/// replacement, trying longer tokens first.
pub open spec fn token_at(rest: Seq<char>) -> Option<(nat, Seq<char>)> {
    if starts_with(rest, "YYYY"@) {
        Some((4, "%Y"@))
    } else if starts_with(rest, "YY"@) {
        Some((2, "%y"@))
    } else if starts_with(rest, "MMMM"@) {
        Some((4, "%B"@))
    } else if starts_with(rest, "MMM"@) {
        Some((3, "%b"@))
    } else if starts_with(rest, "MM"@) {
        Some((2, "%m"@))
    } else if starts_with(rest, "M"@) {
        Some((1, "%-m"@))
    } else if starts_with(rest, "DDDD"@) {
        Some((4, "%j"@))
    } else if starts_with(rest, "DD"@) {
        Some((2, "%d"@))
    } else if starts_with(rest, "D"@) {
        Some((1, "%-d"@))
    } else if starts_with(rest, "dddd"@) {
        Some((4, "%A"@))
    } else if starts_with(rest, "ddd"@) {
        Some((3, "%a"@))
    } else if starts_with(rest, "HH"@) {
        Some((2, "%H"@))
    } else if starts_with(rest, "mm"@) {
        Some((2, "%M"@))
    } else if starts_with(rest, "ss"@) {
        Some((2, "%S"@))
    } else {
        None
    }
}

pub proof fn lemma_token_at(rest: Seq<char>)
    ensures
        token_at(rest) matches Some((n, r)) ==> 1 <= n <= rest.len(),
{
    reveal_strlit("YYYY");
    reveal_strlit("YY");
    reveal_strlit("MMMM");
    reveal_strlit("MMM");
    reveal_strlit("MM");
    reveal_strlit("M");
    reveal_strlit("DDDD");
    reveal_strlit("DD");
    reveal_strlit("D");
    reveal_strlit("dddd");
    reveal_strlit("ddd");
    reveal_strlit("HH");
    reveal_strlit("mm");
    reveal_strlit("ss");
}

/// The reserved (untranslated) moment.js token at the start of `rest`.
pub open spec fn reserved_at(rest: Seq<char>) -> Option<Seq<char>> {
    if starts_with(rest, "Qo"@) {
        Some("Qo"@)
    } else if starts_with(rest, "Q"@) {
        Some("Q"@)
    } else {
        None
    }
}

/// The translation of `m[i..]`: the strftime pattern, or the reserved
/// token met first.
pub open spec fn translate_from(m: Seq<char>, i: int) -> Result<Seq<char>, Seq<char>>
    decreases m.len() - i,
{
    if i < 0 || i >= m.len() {
        Ok(Seq::empty())
    } else if m[i] == '[' && find_from(m, ']', i + 1) < m.len() {
        let e = find_from(m, ']', i + 1);
        proof {
            crate::text::lemma_find_from_bounds(m, ']', i + 1);
        }
        prepend(m.subrange(i + 1, e), translate_from(m, e + 1))
    } else if reserved_at(m.skip(i)) is Some {
        Err(reserved_at(m.skip(i))->0)
    } else if token_at(m.skip(i)) is Some {
        let (n, repl) = token_at(m.skip(i))->0;
        proof {
            lemma_token_at(m.skip(i));
        }
        prepend(repl, translate_from(m, i + n))
    } else {
        let here = if m[i] == '%' { seq!['%', '%'] } else { seq![m[i]] };
        prepend(here, translate_from(m, i + 1))
    }
}

/// `r` with `p` put in front of its text.
pub open spec fn prepend(p: Seq<char>, r: Result<Seq<char>, Seq<char>>) -> Result<Seq<char>, Seq<char>> {
    match r {
        Ok(t) => Ok(p + t),
        Err(e) => Err(e),
    }
}

proof fn lemma_prepend_prepend(a: Seq<char>, b: Seq<char>, r: Result<Seq<char>, Seq<char>>)
    ensures
        prepend(a, prepend(b, r)) == prepend(a + b, r),
{
    if let Ok(t) = r {
        assert(a + (b + t) =~= a + b + t);
    }
}

proof fn lemma_prepend_empty(r: Result<Seq<char>, Seq<char>>)
    ensures
        prepend(Seq::empty(), r) == r,
{
    if let Ok(t) = r {
        assert(Seq::<char>::empty() + t =~= t);
    }
}

/// `m[i..]` starts with the characters of `t`.
fn starts_at(m: &Vec<char>, i: usize, t: &str) -> (r: bool)
    requires
        i <= m@.len(),
    ensures
        r == starts_with(m@.skip(i as int), t@),
{
    let tv = to_chars(t);
    if tv.len() > m.len() - i {
        return false;
    }
    let mut k: usize = 0;
    while k < tv.len()
        invariant
            k <= tv@.len() <= m@.len() - i,
            i <= m@.len() <= usize::MAX,
            tv@ == t@,
            forall|q: int| 0 <= q < k ==> m@[i + q] == tv@[q],
        decreases tv@.len() - k,
    {
        if m[i + k] != tv[k] {
            proof {
                assert(m@.skip(i as int).subrange(0, tv@.len() as int)[k as int] != tv@[k as int]);
            }
            return false;
        }
        k += 1;
    }
    proof {
        assert(m@.skip(i as int).subrange(0, tv@.len() as int) =~= tv@);
    }
    true
}

/// [`token_at`] at offset `i` of `m`: the token's length and replacement.
fn token_exec(m: &Vec<char>, i: usize) -> (r: Option<(usize, &'static str)>)
    requires
        i <= m@.len(),
    ensures
        match (r, token_at(m@.skip(i as int))) {
            (Some((n, s)), Some((n2, s2))) => n == n2 && s@ == s2,
            (None, None) => true,
            _ => false,
        },
{
    if starts_at(m, i, "YYYY") {
        Some((4, "%Y"))
    } else if starts_at(m, i, "YY") {
        Some((2, "%y"))
    } else if starts_at(m, i, "MMMM") {
        Some((4, "%B"))
    } else if starts_at(m, i, "MMM") {
        Some((3, "%b"))
    } else if starts_at(m, i, "MM") {
        Some((2, "%m"))
    } else if starts_at(m, i, "M") {
        Some((1, "%-m"))
    } else if starts_at(m, i, "DDDD") {
        Some((4, "%j"))
    } else if starts_at(m, i, "DD") {
        Some((2, "%d"))
    } else if starts_at(m, i, "D") {
        Some((1, "%-d"))
    } else if starts_at(m, i, "dddd") {
        Some((4, "%A"))
    } else if starts_at(m, i, "ddd") {
        Some((3, "%a"))
    } else if starts_at(m, i, "HH") {
        Some((2, "%H"))
    } else if starts_at(m, i, "mm") {
        Some((2, "%M"))
    } else if starts_at(m, i, "ss") {
        Some((2, "%S"))
    } else {
        None
    }
}

/// Translate the supported subset of moment.js format tokens to chrono's
/// strftime syntax.
///
/// Tokens are matched greedily, longest first: `YYYY` `%Y`, `YY` `%y`,
/// `MMMM` `%B`, `MMM` `%b`, `MM` `%m`, `M` `%-m`, `DDDD` `%j`, `DD` `%d`,
/// `D` `%-d`, `dddd` `%A`, `ddd` `%a`, `HH` `%H`, `mm` `%M`, `ss` `%S`.
/// Text inside `[...]` passes through verbatim, as does every other
/// character (a `%` is doubled so strftime prints it). The reserved
/// quarter tokens `Q` and `Qo` are rejected.
pub fn translate_format(moment: &str) -> (r: Result<String, DailyError>)
    ensures
        match (r, translate_from(moment@, 0)) {
            (Ok(s), Ok(t)) => s@ == t,
            (Err(DailyError::UnsupportedToken { token }), Err(t)) => token@ == t,
            _ => false,
        },
{
    let m = to_chars(moment);
    let n = m.len();
    let mut out = String::new();
    let mut i: usize = 0;
    proof {
        assert(Seq::<char>::empty() + Seq::<char>::empty() =~= Seq::<char>::empty());
        lemma_prepend_empty(translate_from(m@, 0));
    }
    while i < n
        invariant
            i <= n == m@.len(),
            m@ == moment@,
            translate_from(m@, 0) == prepend(out@, translate_from(m@, i as int)),
        decreases n - i,
    {
        let ghost before = out@;
        if m[i] == '[' {
            let e = find_char_from(&m, ']', i + 1);
            if e < n {
                push_range(&mut out, &m, i + 1, e);
                proof {
                    lemma_prepend_prepend(before, m@.subrange(i + 1, e as int), translate_from(m@, e + 1));
                }
                i = e + 1;
                continue;
            }
        }
        let q = starts_at(&m, i, "Qo");
        let q1 = starts_at(&m, i, "Q");
        if q || q1 {
            let mut tok = String::new();
            if q {
                push_str(&mut tok, "Qo");
            } else {
                push_str(&mut tok, "Q");
            }
            return Err(DailyError::UnsupportedToken { token: tok });
        }
        match token_exec(&m, i) {
            Some((len, repl)) => {
                proof {
                    lemma_token_at(m@.skip(i as int));
                }
                push_str(&mut out, repl);
                proof {
                    lemma_prepend_prepend(before, repl@, translate_from(m@, i + len));
                }
                i = i + len;
            },
            None => {
                let c = m[i];
                if c == '%' {
                    push_char(&mut out, '%');
                    push_char(&mut out, '%');
                } else {
                    push_char(&mut out, c);
                }
                proof {
                    let here = if c == '%' { seq!['%', '%'] } else { seq![c] };
                    assert(out@ =~= before + here);
                    lemma_prepend_prepend(before, here, translate_from(m@, i + 1));
                }
                i = i + 1;
            },
        }
    }
    proof {
        assert(out@ + Seq::<char>::empty() =~= out@);
    }
    Ok(out)
}


// ── where the daily note lives ───────────────────────────────────────────────

/// Which settings name the daily note.
#[derive(Debug, Clone, Copy, PartialEq, Eq, Structural)]
pub enum DailySource {
    /// Obsidian's core "Daily notes" plugin.
    Core,
    /// The Periodic Notes community plugin's `daily` block.
    PeriodicNotes,
    /// `path` and `format` of `ft`'s own `[daily_notes]` settings.
    Explicit,
}

/// `ft`'s `[daily_notes]` settings.
pub struct DailyNotes {
    pub source: DailySource,
    /// Folder pattern (moment.js tokens allowed), for the explicit source.
    pub path: Option<String>,
    /// File-name pattern (moment.js tokens), for the explicit source.
    pub format: Option<String>,
}

impl Default for DailyNotes {
    fn default() -> (r: DailyNotes)
        ensures
            r.source == DailySource::Core,
            r.path is None,
            r.format is None,
    {
        DailyNotes { source: DailySource::Core, path: None, format: None }
    }
}

/// A plugin's daily-note settings as read from its settings file.
pub struct PluginDaily {
    pub folder: Option<String>,
    pub format: Option<String>,
    /// Absent means enabled.
    pub enabled: bool,
}

/// Where a daily note lives: a folder below the vault root (empty for the
/// root itself) and a file name.
#[derive(Debug, PartialEq, Eq)]
pub struct DailyPath {
    pub folder: String,
    pub file_name: String,
}

/// The pattern used when none is configured.
pub open spec fn default_format() -> Seq<char> {
    "YYYY-MM-DD"@
}

/// What chrono renders for the date `year-month-day` with the strftime
/// pattern `fmt`, or `None` when the pattern holds an item chrono cannot
/// render for a date (an unknown `%` item, or a time of day).
pub uninterp spec fn chrono_format(year: i32, month: u32, day: u32, fmt: Seq<char>) -> Option<Seq<char>>;

/// `NaiveDate::format(fmt)` written to a string. The result is named by
/// [`chrono_format`]; chrono's formatting rules are not written out here.
#[verifier::external_body]
fn format_date(d: Date, fmt: &str) -> (r: Option<String>)
    requires
        valid_date(d),
    ensures
        match r {
            Some(s) => chrono_format(d.year, d.month, d.day, fmt@) == Some(s@),
            None => chrono_format(d.year, d.month, d.day, fmt@) is None,
        },
{
    let nd = chrono::NaiveDate::from_ymd_opt(d.year, d.month, d.day)?;
    let mut s = String::new();
    match write!(s, "{}", nd.format(fmt)) {
        Ok(()) => Some(s),
        Err(_) => None,
    }
}

/// The strftime form of the moment.js `pattern`, rendered for `d`: `Ok(None)`
/// when chrono cannot render it.
pub open spec fn rendered(pattern: Seq<char>, d: Date) -> Result<Option<Seq<char>>, Seq<char>> {
    match translate_from(pattern, 0) {
        Ok(f) => Ok(chrono_format(d.year, d.month, d.day, f)),
        Err(t) => Err(t),
    }
}

/// The daily note of `d` in `folder` (taken literally) named by the
/// moment.js `format`: `Ok(None)` when chrono cannot render the name.
pub open spec fn daily_in(folder: Seq<char>, format: Seq<char>, d: Date) -> Result<Option<(Seq<char>, Seq<char>)>, DailyErrorSpec> {
    match rendered(format, d) {
        Ok(Some(name)) => Ok(Some((folder, name + ".md"@))),
        Ok(None) => Ok(None),
        Err(t) => Err(DailyErrorSpec::UnsupportedToken(t)),
    }
}

/// The errors of daily-note resolution, as values.
pub enum DailyErrorSpec {
    CoreNotFound(Seq<char>),
    PeriodicNotFound(Seq<char>),
    PeriodicDailyDisabled(Seq<char>),
    ExplicitMissingPath,
    UnsupportedToken(Seq<char>),
}

/// `e` is the error `spec` describes.
pub open spec fn daily_error_is(e: DailyError, spec: DailyErrorSpec) -> bool {
    match (e, spec) {
        (DailyError::CoreNotFound { path }, DailyErrorSpec::CoreNotFound(p)) => path@ == p,
        (DailyError::PeriodicNotFound { path }, DailyErrorSpec::PeriodicNotFound(p)) => path@ == p,
        (DailyError::PeriodicDailyDisabled { path }, DailyErrorSpec::PeriodicDailyDisabled(p)) => path@ == p,
        (DailyError::ExplicitMissingPath, DailyErrorSpec::ExplicitMissingPath) => true,
        (DailyError::UnsupportedToken { token }, DailyErrorSpec::UnsupportedToken(t)) => token@ == t,
        _ => false,
    }
}

pub open spec fn opt_str(o: Option<String>) -> Option<Seq<char>> {
    match o {
        Some(s) => Some(s@),
        None => None,
    }
}

/// The format a plugin's settings give: theirs unless absent or empty.
pub open spec fn plugin_format(f: Option<Seq<char>>) -> Seq<char> {
    match f {
        Some(x) => if x.len() > 0 { x } else { default_format() },
        None => default_format(),
    }
}

/// Where the daily note of `d` lives. For the plugin sources, `plugin` is
/// what the plugin's settings file at `plugin_path` holds (`None` when
/// there is no such file); the folder is taken literally and the format
/// defaults to `YYYY-MM-DD`. For the explicit source, both `cfg.path`
/// (required) and `cfg.format` are moment.js patterns. `Ok(None)` when
/// chrono cannot render a pattern for the date.
pub open spec fn daily_location(
    cfg_source: DailySource,
    cfg_path: Option<Seq<char>>,
    cfg_format: Option<Seq<char>>,
    plugin_path: Seq<char>,
    plugin: Option<(Option<Seq<char>>, Option<Seq<char>>, bool)>,
    d: Date,
) -> Result<Option<(Seq<char>, Seq<char>)>, DailyErrorSpec> {
    match cfg_source {
        DailySource::Core => match plugin {
            None => Err(DailyErrorSpec::CoreNotFound(plugin_path)),
            Some((folder, format, _)) => daily_in(
                match folder { Some(f) => f, None => Seq::empty() },
                plugin_format(format),
                d,
            ),
        },
        DailySource::PeriodicNotes => match plugin {
            None => Err(DailyErrorSpec::PeriodicNotFound(plugin_path)),
            Some((folder, format, enabled)) => if !enabled {
                Err(DailyErrorSpec::PeriodicDailyDisabled(plugin_path))
            } else {
                daily_in(match folder { Some(f) => f, None => Seq::empty() }, plugin_format(format), d)
            },
        },
        DailySource::Explicit => match cfg_path {
            None => Err(DailyErrorSpec::ExplicitMissingPath),
            Some(p) => match rendered(p, d) {
                Err(t) => Err(DailyErrorSpec::UnsupportedToken(t)),
                Ok(None) => Ok(None),
                Ok(Some(folder)) => daily_in(
                    folder,
                    match cfg_format { Some(f) => f, None => default_format() },
                    d,
                ),
            },
        },
    }
}

pub open spec fn plugin_view(p: Option<PluginDaily>) -> Option<(Option<Seq<char>>, Option<Seq<char>>, bool)> {
    match p {
        Some(x) => Some((opt_str(x.folder), opt_str(x.format), x.enabled)),
        None => None,
    }
}

fn owned_or_default(f: &Option<String>) -> (r: String)
    ensures
        r@ == match *f { Some(x) => x@, None => default_format() },
{
    match f {
        Some(x) => crate::text::owned(x.as_str()),
        None => crate::text::owned("YYYY-MM-DD"),
    }
}

fn plugin_format_exec(f: &Option<String>) -> (r: String)
    ensures
        r@ == plugin_format(opt_str(*f)),
{
    match f {
        Some(x) => if x.as_str().is_empty() {
            crate::text::owned("YYYY-MM-DD")
        } else {
            crate::text::owned(x.as_str())
        },
        None => crate::text::owned("YYYY-MM-DD"),
    }
}

/// The moment.js `pattern` rendered for `d`.
fn render_pattern(pattern: &str, d: Date) -> (r: Result<Option<String>, DailyError>)
    requires
        valid_date(d),
    ensures
        match (r, rendered(pattern@, d)) {
            (Ok(Some(s)), Ok(Some(t))) => s@ == t,
            (Ok(None), Ok(None)) => true,
            (Err(e), Err(t)) => e matches DailyError::UnsupportedToken { token } && token@ == t,
            _ => false,
        },
{
    match translate_format(pattern) {
        Ok(f) => Ok(format_date(d, f.as_str())),
        Err(e) => Err(e),
    }
}

/// The daily note of `d` in `folder` named by the moment.js `format`.
fn daily_in_exec(folder: String, format: &str, d: Date) -> (r: Result<Option<DailyPath>, DailyError>)
    requires
        valid_date(d),
    ensures
        match (r, daily_in(folder@, format@, d)) {
            (Ok(Some(p)), Ok(Some((f, n)))) => p.folder@ == f && p.file_name@ == n,
            (Ok(None), Ok(None)) => true,
            (Err(e), Err(s)) => daily_error_is(e, s),
            _ => false,
        },
{
    match render_pattern(format, d) {
        Ok(Some(name)) => {
            let file_name = crate::text::concat2(name.as_str(), ".md");
            Ok(Some(DailyPath { folder, file_name }))
        },
        Ok(None) => Ok(None),
        Err(e) => Err(e),
    }
}

/// Where the daily note of `d` lives (see [`daily_location`]); `None`
/// when chrono cannot render one of the patterns for the date.
pub fn try_resolve_daily_path(
    cfg: &DailyNotes,
    plugin_path: &str,
    plugin: Option<PluginDaily>,
    d: Date,
) -> (r: Option<Result<DailyPath, DailyError>>)
    requires
        valid_date(d),
    ensures
        match (r, daily_location(cfg.source, opt_str(cfg.path), opt_str(cfg.format), plugin_path@, plugin_view(plugin), d)) {
            (Some(Ok(p)), Ok(Some((f, n)))) => p.folder@ == f && p.file_name@ == n,
            (None, Ok(None)) => true,
            (Some(Err(e)), Err(s)) => daily_error_is(e, s),
            _ => false,
        },
{
    let res = match cfg.source {
        DailySource::Core => match plugin {
            None => Err(DailyError::CoreNotFound { path: crate::text::owned(plugin_path) }),
            Some(pd) => {
                let folder = match &pd.folder {
                    Some(f) => crate::text::owned(f.as_str()),
                    None => String::new(),
                };
                daily_in_exec(folder, plugin_format_exec(&pd.format).as_str(), d)
            },
        },
        DailySource::PeriodicNotes => match plugin {
            None => Err(DailyError::PeriodicNotFound { path: crate::text::owned(plugin_path) }),
            Some(pd) => if !pd.enabled {
                Err(DailyError::PeriodicDailyDisabled { path: crate::text::owned(plugin_path) })
            } else {
                let folder = match &pd.folder {
                    Some(f) => crate::text::owned(f.as_str()),
                    None => String::new(),
                };
                daily_in_exec(folder, plugin_format_exec(&pd.format).as_str(), d)
            },
        },
        DailySource::Explicit => match &cfg.path {
            None => Err(DailyError::ExplicitMissingPath),
            Some(p) => match render_pattern(p.as_str(), d) {
                Err(e) => Err(e),
                Ok(None) => Ok(None),
                Ok(Some(folder)) => daily_in_exec(folder, owned_or_default(&cfg.format).as_str(), d),
            },
        },
    };
    match res {
        Ok(Some(p)) => Some(Ok(p)),
        Ok(None) => None,
        Err(e) => Some(Err(e)),
    }
}

} // verus!
