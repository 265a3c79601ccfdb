//! Failures reported by the collection manager.

use vstd::prelude::*;

verus! {

/// Why an operation on a trove was refused. A refused operation leaves the
/// trove as it was.
#[derive(Debug, Clone, Copy, PartialEq, Eq, Structural)]
pub enum TroveError {
    /// The record is structurally invalid and was not stored.
    InvalidCommand,
    /// No stored record matches the name or namespace that was asked for.
    NotFound,
}

impl TroveError {
    /// A short description of the failure, fit for showing to a user.
    pub fn message(&self) -> (text: &'static str)
        ensures
            text@ == match *self {
                TroveError::InvalidCommand => "cannot save invalid command"@,
                TroveError::NotFound => "no matching command found"@,
            },
    {
        match self {
            TroveError::InvalidCommand => "cannot save invalid command",
            TroveError::NotFound => "no matching command found",
        }
    }
}

} // verus!
