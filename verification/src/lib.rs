//! An incremental search-and-select engine: a keystroke-driven session that
//! narrows a list of named candidates by a typed query, ranks the matches,
//! paginates them, and lets the caller navigate and commit to one.

use vstd::prelude::*;

pub mod expand;
pub mod matcher;
pub mod session;

verus! {

/// Which matching strategy a session ranks candidates with.
#[derive(Clone, Copy, PartialEq, Eq, Structural, Debug)]
pub enum Strategy {
    /// Ordered-subsequence scoring: better ranks for tighter matches.
    Fuzzy,
    /// Case-insensitive containment: a binary rank, original order kept.
    Literal,
}

} // verus!
