//! Mining a git history for three-way merges and bug-fixing commits.
//!
//! The crate walks the commit graph reachable from a repository's head to
//! find the four commits that form a three-way merge (origin, the two sides,
//! and the merge commit), and to find descendants of a commit whose summary
//! suggests they fix a bug.  The graph analysis — descendant propagation over
//! a topological order, merge detection, and the candidate filter pipeline —
//! is verified over a plain in-memory model of the commit graph; the calls
//! into the underlying version-control library stand behind a small set of
//! trusted wrappers.

use vstd::prelude::*;

pub mod find_bug_fix;
pub mod git_utils;
pub mod history;
pub mod ids;
pub mod merge;
pub mod text;

verus! {

/// Failures surfaced by the graph analysis operations.
#[derive(Clone, Copy, Debug, PartialEq, Eq, Structural)]
pub enum CoreError {
    /// A referenced commit identifier does not resolve in the repository.
    NotFound,
    /// Two merge parents share no common history.
    NoCommonAncestor,
    /// The underlying repository cannot produce a usable traversal.
    TraversalError,
    /// A caller-supplied commit identifier is not syntactically valid.
    Malformed,
}

} // verus!
