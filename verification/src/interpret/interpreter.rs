//! The statement-level interpreter's state.
//!
//! The evaluation of programs, statements, and expressions on top of
//! this state is not implemented yet; the surrounding distribution
//! algebra is what this crate provides.

use crate::interpret::config::Configuration;
use crate::interpret::env::Environment;
use vstd::prelude::*;

verus! {

/// An interpreter for the dice language, holding its variable
/// environment and configuration.
#[derive(Clone, Debug, PartialEq)]
pub struct Interpreter {
    environment: Environment,
    configuration: Configuration,
}

impl Interpreter {
    /// The interpreter's variable environment.
    pub closed spec fn spec_environment(self) -> Environment {
        self.environment
    }

    /// The interpreter's configuration.
    pub closed spec fn spec_configuration(self) -> Configuration {
        self.configuration
    }

    /// A fresh interpreter: an empty environment and the default
    /// configuration.
    pub fn new() -> (r: Interpreter)
        ensures
            r.spec_environment().wf(),
            r.spec_environment().spec_names() == Seq::<Seq<char>>::empty(),
            r.spec_configuration().maximum_function_depth == 10,
            r.spec_configuration().explode_depth == 2,
    {
        Interpreter { environment: Environment::new(), configuration: Configuration::new() }
    }
}

impl Default for Interpreter {
    fn default() -> (r: Interpreter)
        ensures
            r.spec_environment().wf(),
            r.spec_environment().spec_names() == Seq::<Seq<char>>::empty(),
            r.spec_configuration().maximum_function_depth == 10,
            r.spec_configuration().explode_depth == 2,
    {
        Interpreter::new()
    }
}

} // verus!
