//! The settings that the collection manager reads.

use vstd::prelude::*;

verus! {

/// The markers that delimit a parameter in a command template.
#[derive(Debug)]
pub struct HoardConfig {
    /// Opens a parameter.
    pub parameter_token: Option<String>,
    /// Closes a named parameter.
    pub parameter_ending_token: Option<String>,
}

impl HoardConfig {
    /// Both markers are set.
    pub open spec fn has_tokens(&self) -> bool {
        self.parameter_token is Some && self.parameter_ending_token is Some
    }
}

} // verus!
