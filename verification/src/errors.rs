//! The error taxonomy of the renderer's boundaries.
//!
//! Inside the render path nothing allocates an error: numeric edge cases
//! are handled locally and contract violations are excluded by
//! preconditions. The one recoverable error kind belongs to the scene and
//! configuration boundary.

use vstd::prelude::*;

verus! {

/// A scene or configuration parse failure, carrying a human-readable
/// message that names the offending token or line.
#[derive(Clone, Debug)]
pub enum SpriosError {
    WorldParseError(String),
}

impl SpriosError {
    /// The message the error carries.
    pub open spec fn spec_message(&self) -> Seq<char> {
        match self {
            SpriosError::WorldParseError(s) => s@,
        }
    }

    pub fn message(&self) -> (r: &str)
        ensures
            r@ == self.spec_message(),
    {
        match self {
            SpriosError::WorldParseError(s) => s.as_str(),
        }
    }
}

} // verus!
