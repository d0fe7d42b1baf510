//! Weighted pseudorandom sampling over canonical outcomes.

pub mod distribution;
pub mod error;
