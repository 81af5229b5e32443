//! Failures that end a run.

use vstd::prelude::*;

verus! {

/// Why a run was given up. Neither failure is retried, and nothing is
/// produced after one.
#[derive(Debug, Clone, Copy, PartialEq, Eq, Structural)]
pub enum EngineError {
    /// The oracle could not name a merge base for some pair of commits.
    Oracle,
    /// The graph does not have exactly one node without a parent.
    NoRoot,
}

impl EngineError {
    /// A sentence for the user.
    pub fn message(&self) -> (text: &'static str)
        ensures
            text@ == match *self {
                EngineError::Oracle => "Unable to determine the merge base of two commits"@,
                EngineError::NoRoot => "Unable to determine ultimate parent node"@,
            },
    {
        match self {
            EngineError::Oracle => "Unable to determine the merge base of two commits",
            EngineError::NoRoot => "Unable to determine ultimate parent node",
        }
    }
}

} // verus!
