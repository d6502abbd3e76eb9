//! The error of a failed parse.

use vstd::prelude::*;

verus! {

/// Why an input was rejected.
#[derive(Debug, Clone, Copy, PartialEq, Eq, Structural)]
pub enum ParseError {
    /// A record is not of the form `key.path\nvalue`, or its key path runs
    /// through a key that already holds text.
    MalformedInput,
}

impl ParseError {
    /// What went wrong, in words.
    pub fn message(&self) -> (text: &'static str)
        ensures
            text@ == "malformed input: a record needs a key path, a newline and a value"@,
    {
        match self {
            ParseError::MalformedInput => {
                "malformed input: a record needs a key path, a newline and a value"
            },
        }
    }
}

} // verus!
