//! Interpreter configuration and its defaults.

use vstd::prelude::*;

verus! {

/// Tunable interpreter behavior.
#[derive(Clone, Debug, PartialEq)]
pub struct Configuration {
    pub position_order: PositionOrder,
    pub maximum_function_depth: u8,
    pub explode_depth: u8,
}

impl Configuration {
    /// The default configuration: highest-first ordering, a function
    /// depth limit of 10, and an explode depth of 2.
    pub fn new() -> (r: Configuration)
        ensures
            r.position_order == PositionOrder::HighestFirst,
            r.maximum_function_depth == 10,
            r.explode_depth == 2,
    {
        Configuration {
            position_order: PositionOrder::HighestFirst,
            maximum_function_depth: 10,
            explode_depth: 2,
        }
    }
}

impl Default for Configuration {
    fn default() -> (r: Configuration)
        ensures
            r.position_order == PositionOrder::HighestFirst,
            r.maximum_function_depth == 10,
            r.explode_depth == 2,
    {
        Configuration::new()
    }
}

/// How positions are ordered when accessing rolls by index.
#[derive(Clone, Copy, Debug, PartialEq, Eq, Structural)]
pub enum PositionOrder {
    HighestFirst,
    LowestFirst,
}

} // verus!
