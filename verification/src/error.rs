//! Typed failures of the clustering core. Every failure is detected
//! synchronously and returned to the caller; nothing here is retried.

use vstd::prelude::*;

verus! {

/// Why a clustering run was refused before any work began.
#[derive(Clone, Copy, Debug, PartialEq, Eq, Structural)]
pub enum ClusterError {
    /// The requested palette size is zero or exceeds the number of points.
    InvalidConfiguration,
}

impl ClusterError {
    /// A short description for the caller's reporting.
    pub fn message(&self) -> (m: &'static str)
        ensures
            m@ == spec_message(*self),
    {
        proof {
            reveal_strlit("the number of colors must be at least 1 and at most the number of pixels");
        }
        match self {
            ClusterError::InvalidConfiguration => {
                "the number of colors must be at least 1 and at most the number of pixels"
            },
        }
    }
}

/// The description of each failure.
pub open spec fn spec_message(e: ClusterError) -> Seq<char> {
    "the number of colors must be at least 1 and at most the number of pixels"@
}

} // verus!
