//! Links between notes: the link syntax of a vault's markdown files.

pub mod parser;
pub mod paths;
pub mod rename;
pub mod resolve;

use vstd::prelude::*;

verus! {

/// The syntax a link was written in.
#[derive(Debug, Clone, Copy, PartialEq, Eq, Structural)]
pub enum LinkForm {
    /// `[[Target]]`, `[[Target#Anchor|Display]]`, or an embed `![[...]]`.
    WikiLink,
    /// `[Display](href)` or an embed `![Display](href)`.
    MdLink,
}

} // verus!
