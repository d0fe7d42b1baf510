//! Interpretation-side core: exact probabilities, dice algebra, and the
//! conversion of evaluated values into integer-weighted outcomes.

pub mod chance;
pub mod config;
pub mod dice;
pub mod env;
pub mod factor;
pub mod interpreter;
pub mod output;
pub mod value;

use vstd::prelude::*;

verus! {

/// Returned when an exact computation would exceed the machine word range.
#[derive(Clone, Copy, Debug, PartialEq, Eq, Structural)]
pub struct ArithmeticOverflow;

} // verus!
