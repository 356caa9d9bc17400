//! Sort keys of task lists.

use vstd::prelude::*;

verus! {

/// A field a task list can be sorted by.
#[derive(Debug, Clone, Copy, PartialEq, Eq, Structural)]
pub enum SortKey {
    Due,
    Scheduled,
    Priority,
    Path,
    Description,
    Status,
}

/// Direction of a sort.
#[derive(Debug, Clone, Copy, PartialEq, Eq, Structural)]
pub enum SortOrder {
    Asc,
    Desc,
}

} // verus!
