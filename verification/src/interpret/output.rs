//! Collected results of running output statements.

use crate::outcome::Outcome;
use vstd::prelude::*;

verus! {

/// All outputs produced by a run, in order.
#[derive(Clone, Debug, PartialEq)]
pub struct Outputs {
    outputs: Vec<Output>,
}

impl View for Outputs {
    type V = Seq<Output>;

    closed spec fn view(&self) -> Seq<Output> {
        self.outputs@
    }
}

impl Outputs {
    /// An empty collection of outputs.
    pub fn new() -> (r: Outputs)
        ensures
            r@ == Seq::<Output>::empty(),
    {
        let outputs: Vec<Output> = Vec::new();
        Outputs { outputs }
    }

    /// Appends one output.
    pub fn add_output(&mut self, output: Output)
        ensures
            final(self)@ == old(self)@.push(output),
    {
        self.outputs.push(output);
    }

    /// The collected outputs, in the order they were added.
    pub fn outcomes(&self) -> (r: &Vec<Output>)
        ensures
            r@ == self@,
    {
        &self.outputs
    }
}

impl Default for Outputs {
    fn default() -> (r: Outputs)
        ensures
            r@ == Seq::<Output>::empty(),
    {
        Outputs::new()
    }
}

/// One output: a canonical outcome list with an optional name.
#[derive(Clone, Debug, PartialEq)]
pub struct Output {
    outcomes: Vec<Outcome>,
    name: Option<String>,
}

impl Output {
    /// The outcomes this output holds.
    pub closed spec fn spec_outcomes(self) -> Seq<Outcome> {
        self.outcomes@
    }

    /// The optional name of this output.
    pub closed spec fn spec_name(self) -> Option<String> {
        self.name
    }

    /// Pairs an outcome list with an optional name.
    pub fn new(outcomes: Vec<Outcome>, name: Option<String>) -> (r: Output)
        ensures
            r.spec_outcomes() == outcomes@,
            r.spec_name() == name,
    {
        Output { outcomes, name }
    }

    /// The outcomes of this output.
    pub fn outcomes(&self) -> (r: &Vec<Outcome>)
        ensures
            r@ == self.spec_outcomes(),
    {
        &self.outcomes
    }
}

} // verus!
