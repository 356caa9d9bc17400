//! Task queries: the query language, built-in presets and sort keys.

pub mod dsl;
pub mod expr;
pub mod preset;
pub mod sort;
