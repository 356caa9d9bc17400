//! Built-in query presets.
//!
//! User-defined presets shadow built-ins of the same name; that lookup is
//! the caller's. This module owns the built-in definitions as query
//! strings, so they go through the same parser as user queries.

use vstd::prelude::*;

use crate::text::str_eq;

verus! {

/// The query string of built-in preset `name`, if there is one.
pub open spec fn builtin_query(name: Seq<char>) -> Option<Seq<char>> {
    if name == "today"@ {
        Some("not done and (due on today or scheduled on today)"@)
    } else if name == "overdue"@ {
        Some("not done and due before today"@)
    } else if name == "upcoming"@ {
        Some("not done and due after today"@)
    } else if name == "done-today"@ {
        Some("done and completed on today"@)
    } else {
        None
    }
}

/// The query string of a built-in preset, or `None` for an unknown name.
pub fn builtin(name: &str) -> (r: Option<&'static str>)
    ensures
        match (r, builtin_query(name@)) {
            (Some(q), Some(s)) => q@ == s,
            (None, None) => true,
            _ => false,
        },
{
    if str_eq(name, "today") {
        Some("not done and (due on today or scheduled on today)")
    } else if str_eq(name, "overdue") {
        Some("not done and due before today")
    } else if str_eq(name, "upcoming") {
        Some("not done and due after today")
    } else if str_eq(name, "done-today") {
        Some("done and completed on today")
    } else {
        None
    }
}

/// The names of all built-in presets, sorted.
pub fn builtin_names() -> (r: &'static [&'static str])
    ensures
        r@.len() == 4,
        r@[0]@ == "done-today"@,
        r@[1]@ == "overdue"@,
        r@[2]@ == "today"@,
        r@[3]@ == "upcoming"@,
{
    &["done-today", "overdue", "today", "upcoming"]
}

} // verus!
