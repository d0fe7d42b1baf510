//! Errors that can arise while building a sampler.

use vstd::prelude::*;

verus! {

/// Why a sampler could not be built from a list of outcomes.
#[derive(Debug, Clone, Copy, PartialEq, Eq, Structural)]
pub enum SampleError {
    /// The output does not contain any outcomes.
    NoOutcomes,
    /// The output contains too many outcomes.
    TooManyOutcomes,
    /// The output contains only outcomes with weight of zero.
    NoWeight,
    /// The output contains weights that overflow.
    TooMuchWeight,
    /// The output contains an outcome with an invalid weight.
    /// This should not be possible using public methods.
    InvalidWeight,
}

impl SampleError {
    /// A descriptive message for reporting the failure.
    pub fn message(&self) -> (r: &'static str)
        ensures
            r@ == match self {
                SampleError::NoOutcomes => "The output does not contain any outcomes"@,
                SampleError::TooManyOutcomes => "The output contains too many outcomes"@,
                SampleError::NoWeight => "The output contains only outcomes with weight of zero"@,
                SampleError::TooMuchWeight => "The output contains weights that overflow"@,
                SampleError::InvalidWeight => "The output contains an outcome with an invalid weight"@,
            },
    {
        match self {
            SampleError::NoOutcomes => "The output does not contain any outcomes",
            SampleError::TooManyOutcomes => "The output contains too many outcomes",
            SampleError::NoWeight => "The output contains only outcomes with weight of zero",
            SampleError::TooMuchWeight => "The output contains weights that overflow",
            SampleError::InvalidWeight => "The output contains an outcome with an invalid weight",
        }
    }
}

} // verus!
