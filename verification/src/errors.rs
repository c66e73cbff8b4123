//! Error taxonomy shared by the matcher and the process manager.
use vstd::prelude::*;

verus! {

/// Every way an operation of this library can fail.
#[derive(Debug, PartialEq, Eq)]
pub enum McliError {
    /// A malformed request, e.g. a catalog entry without an identifier.
    InvalidInput,
    /// The operating system refused to start a process; the cause is attached.
    SpawnFailure { cause: String },
    /// An operation was attempted on a process handle in an incompatible state.
    InvalidState,
    /// The referenced process handle or catalog entry does not exist.
    NotFound,
}

impl McliError {
    /// A short description of the error, for callers that want to print it.
    pub fn describe(&self) -> (r: String)
        ensures
            r@.len() > 0,
    {
        let s = match self {
            McliError::InvalidInput => "invalid input",
            McliError::SpawnFailure { cause: _ } => "spawn failure",
            McliError::InvalidState => "invalid state",
            McliError::NotFound => "not found",
        };
        let r = s.to_owned();
        proof {
            reveal_strlit("invalid input");
            reveal_strlit("spawn failure");
            reveal_strlit("invalid state");
            reveal_strlit("not found");
        }
        r
    }
}

} // verus!
