//! `ft` configuration values.
//!
//! Reading and merging the user-level and vault-level TOML files is done by
//! the caller; this module holds the merged values and the rules applied to
//! them.

use vstd::prelude::*;

verus! {

/// Top-level `ft` configuration.
pub struct Config {
    /// Default vault path (valid in user config only).
    pub default_vault: Option<String>,
    /// Default file for new tasks, relative to the vault root.
    pub default_task_location: Option<String>,
    /// Per-period configuration for periodic notes.
    pub periodic_notes: PeriodicNotes,
    /// Glob patterns (relative to the vault root) excluded from scanning.
    pub ignored_paths: Vec<String>,
    /// Named task queries: `(name, DSL string)` pairs, names distinct.
    pub presets: Vec<(String, String)>,
    /// Note-creation settings.
    pub notes: Notes,
    /// Editor handoff strategy and popup geometry.
    pub editor: Editor,
    /// Git-sync settings.
    pub git: Git,
    /// Timeblocks settings.
    pub timeblocks: Timeblocks,
}

/// The heading timeblocks live under when none is configured.
pub open spec fn default_timeblocks_heading() -> Seq<char> {
    "Time Blocks"@
}

impl Config {
    /// Heading under which timeblock entries live in each daily note:
    /// the configured one, else `"Time Blocks"`.
    pub fn timeblocks_heading(&self) -> (r: &str)
        ensures
            r@ == match self.timeblocks.heading {
                Some(h) => h@,
                None => default_timeblocks_heading(),
            },
    {
        match &self.timeblocks.heading {
            Some(h) => h.as_str(),
            None => "Time Blocks",
        }
    }
}

impl Default for Config {
    fn default() -> (r: Config)
        ensures
            r.default_vault is None,
            r.default_task_location is None,
            r.periodic_notes.daily is None,
            r.periodic_notes.weekly is None,
            r.periodic_notes.monthly is None,
            r.periodic_notes.quarterly is None,
            r.periodic_notes.yearly is None,
            r.ignored_paths@.len() == 0,
            r.presets@.len() == 0,
            r.notes.templates_dir is None,
            r.editor.strategy == EditorStrategy::TmuxPopup,
            r.editor.popup_width@ == default_popup_size(),
            r.editor.popup_height@ == default_popup_size(),
            r.git.pull_strategy == PullStrategy::Merge,
            r.timeblocks.heading is None,
    {
        Config {
            default_vault: None,
            default_task_location: None,
            periodic_notes: PeriodicNotes::default(),
            ignored_paths: Vec::new(),
            presets: Vec::new(),
            notes: Notes { templates_dir: None },
            editor: Editor::default(),
            git: Git { pull_strategy: PullStrategy::Merge },
            timeblocks: Timeblocks { heading: None },
        }
    }
}

/// `ft timeblocks` configuration.
pub struct Timeblocks {
    /// Heading under which timeblocks live. Defaults to `"Time Blocks"`.
    pub heading: Option<String>,
}

/// How `ft git sync` integrates upstream changes.
#[derive(Debug, Clone, Copy, PartialEq, Eq, Structural)]
pub enum PullStrategy {
    /// `git pull --no-rebase` (the default).
    Merge,
    /// `git pull --rebase`.
    Rebase,
}

/// `ft git sync` configuration.
pub struct Git {
    pub pull_strategy: PullStrategy,
}

/// Settings for note creation.
pub struct Notes {
    /// Folder (vault-relative) holding templates; `templates-ft` when unset.
    pub templates_dir: Option<String>,
}

/// Per-period configuration for periodic notes; unset periods are "not
/// configured".
pub struct PeriodicNotes {
    pub daily: Option<PeriodicPeriod>,
    pub weekly: Option<PeriodicPeriod>,
    pub monthly: Option<PeriodicPeriod>,
    pub quarterly: Option<PeriodicPeriod>,
    pub yearly: Option<PeriodicPeriod>,
}

impl Default for PeriodicNotes {
    fn default() -> (r: PeriodicNotes)
        ensures
            r.daily is None && r.weekly is None && r.monthly is None && r.quarterly is None
                && r.yearly is None,
    {
        PeriodicNotes { daily: None, weekly: None, monthly: None, quarterly: None, yearly: None }
    }
}

/// One period of periodic notes.
pub struct PeriodicPeriod {
    /// Folder pattern, vault-relative, with strftime tokens. Empty means the
    /// vault root.
    pub path: String,
    /// Filename pattern (without `.md`).
    pub format: String,
    /// Template name resolved under the templates folder.
    pub template: Option<String>,
}

/// Editor handoff configuration: how `$EDITOR` is launched.
pub struct Editor {
    pub strategy: EditorStrategy,
    /// Popup width for `tmux display-popup -w` (`"90%"`, `"120"`).
    pub popup_width: String,
    /// Popup height, same syntax as the width.
    pub popup_height: String,
}

/// The popup size used when none is configured.
pub open spec fn default_popup_size() -> Seq<char> {
    "90%"@
}

fn default_popup_width() -> (r: String)
    ensures
        r@ == default_popup_size(),
{
    let mut s = String::new();
    crate::text::push_str(&mut s, "90%");
    s
}

fn default_popup_height() -> (r: String)
    ensures
        r@ == default_popup_size(),
{
    let mut s = String::new();
    crate::text::push_str(&mut s, "90%");
    s
}

impl Default for Editor {
    fn default() -> (r: Editor)
        ensures
            r.strategy == EditorStrategy::TmuxPopup,
            r.popup_width@ == default_popup_size(),
            r.popup_height@ == default_popup_size(),
    {
        Editor {
            strategy: EditorStrategy::TmuxPopup,
            popup_width: default_popup_width(),
            popup_height: default_popup_height(),
        }
    }
}

/// How to launch `$EDITOR`.
#[derive(Debug, Clone, Copy, PartialEq, Eq, Structural)]
pub enum EditorStrategy {
    /// `tmux display-popup` (the default).
    TmuxPopup,
    /// `tmux new-window`.
    TmuxWindow,
    /// `tmux split-window`.
    TmuxSplit,
    /// Suspend the TUI and run the editor inline.
    Suspend,
}

impl EditorStrategy {
    /// The effective strategy: outside tmux every `tmux-*` strategy
    /// collapses to `Suspend`; inside tmux every strategy stands.
    pub fn resolve(self, in_tmux: bool) -> (r: EditorStrategy)
        ensures
            r == (if in_tmux { self } else { EditorStrategy::Suspend }),
    {
        match self {
            EditorStrategy::Suspend => EditorStrategy::Suspend,
            other => if in_tmux {
                other
            } else {
                EditorStrategy::Suspend
            },
        }
    }
}

/// Whether the value of `$TMUX` (if set) says `ft` runs inside tmux: set
/// and not empty.
pub fn in_tmux(tmux: Option<&str>) -> (r: bool)
    ensures
        r == (tmux matches Some(v) && v@.len() > 0),
{
    match tmux {
        Some(v) => !v.is_empty(),
        None => false,
    }
}

/// One configuration file that took part in a merge.
pub struct ConfigSource {
    /// Human-readable label: `"user"` or `"vault"`.
    pub label: String,
    pub path: String,
    /// Whether the file exists on disk.
    pub present: bool,
}

/// A merged configuration and the files it was merged from.
pub struct LayeredConfig {
    pub config: Config,
    /// Sources in order of increasing precedence.
    pub sources: Vec<ConfigSource>,
}

} // verus!
