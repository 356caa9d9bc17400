//! Tasks in the Obsidian Tasks plugin's emoji format.

pub mod emoji;
pub mod format;
pub mod hierarchy;
pub mod ops;
pub mod recurrence;
pub mod round_trip;

use vstd::prelude::*;

use crate::date::Date;

verus! {

/// Completion state of a task, from its checkbox.
#[derive(Debug, Clone, Copy, PartialEq, Eq, Structural)]
pub enum Status {
    Open,
    Done,
    InProgress,
    Cancelled,
}

/// Priority of a task, from its priority emoji.
#[derive(Debug, Clone, Copy, PartialEq, Eq, Structural)]
pub enum Priority {
    Highest,
    High,
    Medium,
    Low,
    Lowest,
}

/// The emoji that marks priority `p`.
pub open spec fn priority_char(p: Priority) -> char {
    match p {
        Priority::Highest => '\u{1F53A}',
        Priority::High => '\u{23EB}',
        Priority::Medium => '\u{1F53C}',
        Priority::Low => '\u{1F53D}',
        Priority::Lowest => '\u{23EC}',
    }
}

impl Priority {
    /// The emoji that marks this priority (`🔺 ⏫ 🔼 🔽 ⏬`).
    pub fn emoji(self) -> (r: &'static str)
        ensures
            r@ == seq![priority_char(self)],
    {
        match self {
            Priority::Highest => {
                proof {
                    reveal_strlit("\u{1F53A}");
                }
                "\u{1F53A}"
            },
            Priority::High => {
                proof {
                    reveal_strlit("\u{23EB}");
                }
                "\u{23EB}"
            },
            Priority::Medium => {
                proof {
                    reveal_strlit("\u{1F53C}");
                }
                "\u{1F53C}"
            },
            Priority::Low => {
                proof {
                    reveal_strlit("\u{1F53D}");
                }
                "\u{1F53D}"
            },
            Priority::Lowest => {
                proof {
                    reveal_strlit("\u{23EC}");
                }
                "\u{23EC}"
            },
        }
    }
}

/// A task line of a note.
#[derive(Debug, Clone, PartialEq, Eq)]
pub struct Task {
    pub description: String,
    pub status: Status,
    pub priority: Option<Priority>,
    /// Hashtags of the description (e.g. `work` for `#work`); they stay in
    /// the description too.
    pub tags: Vec<String>,
    pub created: Option<Date>,
    /// 🛫 start date.
    pub start: Option<Date>,
    /// ⏳ scheduled date.
    pub scheduled: Option<Date>,
    pub due: Option<Date>,
    pub done: Option<Date>,
    pub cancelled: Option<Date>,
    /// Recurrence rule, verbatim (e.g. `"every month on the 18th"`).
    pub recurrence: Option<String>,
    pub id: Option<String>,
    pub depends_on: Vec<String>,
    /// On-completion action, verbatim.
    pub on_completion: Option<String>,
    /// Obsidian block identifier (the part after `^`).
    pub block_link: Option<String>,
    /// Unrecognised field text, kept verbatim so a rewrite loses nothing.
    pub raw_trailing: Option<String>,
    pub source_file: String,
    /// 1-indexed line number within `source_file`.
    pub source_line: usize,
    /// Leading whitespace, in bytes.
    pub indent_level: usize,
    /// `source_line` of the nearest enclosing task.
    pub parent: Option<usize>,
}

/// Mathematical value of a [`Task`].
pub struct TaskSpec {
    pub description: Seq<char>,
    pub status: Status,
    pub priority: Option<Priority>,
    pub tags: Seq<Seq<char>>,
    pub created: Option<Date>,
    pub start: Option<Date>,
    pub scheduled: Option<Date>,
    pub due: Option<Date>,
    pub done: Option<Date>,
    pub cancelled: Option<Date>,
    pub recurrence: Option<Seq<char>>,
    pub id: Option<Seq<char>>,
    pub depends_on: Seq<Seq<char>>,
    pub on_completion: Option<Seq<char>>,
    pub block_link: Option<Seq<char>>,
    pub raw_trailing: Option<Seq<char>>,
    pub source_file: Seq<char>,
    pub source_line: nat,
    pub indent_level: nat,
    pub parent: Option<usize>,
}

/// Every date of `t` names a day of chrono's calendar.
pub open spec fn dates_valid(t: TaskSpec) -> bool {
    &&& crate::task::recurrence::opt_valid(t.created)
    &&& crate::task::recurrence::opt_valid(t.start)
    &&& crate::task::recurrence::opt_valid(t.scheduled)
    &&& crate::task::recurrence::opt_valid(t.due)
    &&& crate::task::recurrence::opt_valid(t.done)
    &&& crate::task::recurrence::opt_valid(t.cancelled)
}

/// `o` as an optional character sequence.
pub open spec fn opt_view(o: Option<String>) -> Option<Seq<char>> {
    match o {
        Some(s) => Some(s@),
        None => None,
    }
}

/// The character sequences of `v`.
pub open spec fn strings_view(v: Seq<String>) -> Seq<Seq<char>> {
    v.map_values(|s: String| s@)
}

impl View for Task {
    type V = TaskSpec;

    open spec fn view(&self) -> TaskSpec {
        TaskSpec {
            description: self.description@,
            status: self.status,
            priority: self.priority,
            tags: strings_view(self.tags@),
            created: self.created,
            start: self.start,
            scheduled: self.scheduled,
            due: self.due,
            done: self.done,
            cancelled: self.cancelled,
            recurrence: opt_view(self.recurrence),
            id: opt_view(self.id),
            depends_on: strings_view(self.depends_on@),
            on_completion: opt_view(self.on_completion),
            block_link: opt_view(self.block_link),
            raw_trailing: opt_view(self.raw_trailing),
            source_file: self.source_file@,
            source_line: self.source_line as nat,
            indent_level: self.indent_level as nat,
            parent: self.parent,
        }
    }
}

} // verus!
