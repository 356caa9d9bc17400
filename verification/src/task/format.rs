//! The interface of a single-line task format.

use vstd::prelude::*;

use crate::task::Task;

verus! {

/// Where a task line comes from.
pub struct ParseContext {
    pub source_file: String,
    pub source_line: usize,
}

/// A single-line task format.
pub trait TaskFormat {
    /// Parse one raw line into a task, or `None` when the line is not a
    /// task (prose, headings, blank lines).
    fn parse_line(&self, line: &str, ctx: ParseContext) -> Option<Task>;

    /// Serialize a task back to the single-line format.
    fn serialize_line(&self, task: &Task) -> String;
}

} // verus!
