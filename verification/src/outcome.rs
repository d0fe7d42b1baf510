//! The canonical, exact representation of a distribution: integer
//! weights instead of fractions, ready for reporting or sampling.

use vstd::prelude::*;

verus! {

/// A value with a weight.
#[derive(Clone, Copy, Debug, PartialEq, Eq, Structural)]
pub struct Outcome {
    pub value: i32,
    pub weight: usize,
}

} // verus!
