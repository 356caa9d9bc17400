//! Core library of `ft`: task, note, link and timeblock logic for an
//! Obsidian vault, with contracts proved by Verus.

pub mod config;
pub mod daily;
pub mod date;
pub mod error;
pub mod graph;
pub mod markdown;
pub mod notes;
pub mod query;
pub mod recents;
pub mod search;
pub mod selector;
pub mod task;
pub mod text;
pub mod timeblock;
pub mod vault;
