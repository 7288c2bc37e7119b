use vstd::prelude::*;

verus! {

/// Failure of a comparison between search candidates.
#[derive(Debug)]
pub enum ComparisonError {
    /// The two candidates admit no ordering.
    InvalidOrdering(String),
}

impl ComparisonError {
    /// A short description of the failure.
    pub fn message(&self) -> (r: &str)
        ensures
            r@ == "ORDERING ERROR"@,
    {
        "ORDERING ERROR"
    }
}

} // verus!
