//! An exact discrete probability engine for dice-rolling calculations,
//! together with a weighted pseudorandom sampling layer.
//!
//! Dice and numeric values are represented as finite probability
//! distributions over integers, combined by exact rational arithmetic,
//! canonicalized into minimal integer weights, and finally sampled
//! through a weighted index.

pub mod ast;
pub mod interpret;
pub mod outcome;
pub mod sample;


