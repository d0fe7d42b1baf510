//! Helper functions that each create a single syntax-tree node.
//!
//! Because expressions are recursive, the output of one expression
//! helper must be boxed before being passed to another.

use crate::ast::{Expression, Program, SequenceEntry, Statement};
use vstd::prelude::*;

verus! {

/// Creates an integer literal expression.
pub fn integer(value: i32) -> (r: Expression)
    ensures
        r == (Expression::Integer { value }),
{
    Expression::Integer { value }
}

/// Creates a variable reference expression.
pub fn variable_reference(name: String) -> (r: Expression)
    ensures
        r == (Expression::VariableReference { name }),
{
    Expression::VariableReference { name }
}

/// Creates a single sequence entry.
pub fn single_entry(value: Expression, repetitions: Expression) -> (r: SequenceEntry)
    ensures
        r == (SequenceEntry::Single { value, repetitions }),
{
    SequenceEntry::Single { value, repetitions }
}

/// Creates a range sequence entry.
pub fn range_entry(start: Expression, end: Expression, repetitions: Expression) -> (r:
    SequenceEntry)
    ensures
        r == (SequenceEntry::Range { start, end, repetitions }),
{
    SequenceEntry::Range { start, end, repetitions }
}

/// Creates a sequence expression.
pub fn sequence(entries: Vec<SequenceEntry>) -> (r: Expression)
    ensures
        r == (Expression::Sequence { entries }),
{
    Expression::Sequence { entries }
}

/// Creates an output statement.
pub fn output(value: Expression, name: Option<String>) -> (r: Statement)
    ensures
        r == (Statement::Output { value, name }),
{
    Statement::Output { value, name }
}

/// Creates a configure statement with a string value.
pub fn configure_string(setting: String, value: String) -> (r: Statement)
    ensures
        r == (Statement::ConfigureString { setting, value }),
{
    Statement::ConfigureString { setting, value }
}

/// Creates a configure statement with an expression value.
pub fn configure_expression(setting: String, value: Expression) -> (r: Statement)
    ensures
        r == (Statement::ConfigureExpression { setting, value }),
{
    Statement::ConfigureExpression { setting, value }
}

/// Creates a program.
pub fn program(statements: Vec<Statement>) -> (r: Program)
    ensures
        r == (Program { statements }),
{
    Program { statements }
}

} // verus!
