//! Types representing the syntax tree of the dice-expression language.
//!
//! They are normally the output of a parser and are consumed by an
//! interpreter; the helpers in [`functional`] build them directly.

pub mod functional;

use vstd::prelude::*;

verus! {

/// Operators which have only one operand.
#[derive(Clone, Copy, Debug, PartialEq, Eq, Structural)]
pub enum UnaryOperator {
    /// Negation: `(-1) = -1`, `(--2) = 2`, `(-0) = 0`.
    Negate,
    /// Boolean not: `(!0) = 1`, `(!1) = 0`, `(!-2) = 0`.
    Not,
    /// Length of sequence, number of dice, digits in number.
    Length,
}

/// Operators with a left and right operand.
#[derive(Clone, Copy, Debug, PartialEq, Eq, Structural)]
pub enum BinaryOperator {
    /// Exponentiation: `(2 ^ 3) = 8`.
    Exponent,
    /// Multiplication: `(2 * 3) = 6`.
    Multiply,
    /// Integer division rounding toward zero: `5 / 3 = 1`, `-5 / 3 = -1`.
    Divide,
    /// Addition: `(1 + 2) = 3`.
    Add,
    /// Subtraction: `(3 - 2) = 1`.
    Subtract,
    /// Boolean and: `(1 & 1) = 1`, `(1 & 0) = 0`.
    And,
    /// Boolean or: `(0 | 1) = 1`, `(0 | 0) = 0`.
    Or,
    /// Is equal to: `(2 = 2) = 1`, `(2 = 1) = 0`.
    Equal,
    /// Is not equal to: `(2 != 1) = 1`, `(2 != 2) = 0`.
    NotEqual,
    /// Is less than: `(1 < 2) = 1`, `(2 < 2) = 0`.
    Less,
    /// Is greater than: `(3 > 2) = 1`, `(2 > 2) = 0`.
    Greater,
    /// Is less than or equal to: `(2 <= 2) = 1`, `(3 <= 2) = 0`.
    LessOrEqual,
    /// Is greater than or equal to: `(2 >= 2) = 1`, `(1 >= 2) = 0`.
    GreaterOrEqual,
    /// Create a collection of dice: the left operand is the number of
    /// dice and the right the description of each die.
    Dice,
    /// Get the value at an index (1-based); out-of-range indexes
    /// produce 0.
    Access,
}

/// An entry in a sequence expression.
#[derive(Debug)]
pub enum SequenceEntry {
    /// A single expression to include, with the number of repetitions.
    Single { value: Expression, repetitions: Expression },
    /// An inclusive range of expressions to include, with the number of
    /// repetitions.
    Range { start: Expression, end: Expression, repetitions: Expression },
}

/// An expression; it always evaluates to a single value.
#[derive(Debug)]
pub enum Expression {
    /// An integer literal, capped to `i32` to match the reference
    /// language's numeric range.
    Integer { value: i32 },
    /// The name of a variable to look up at runtime.
    VariableReference { name: String },
    /// An ordered sequence of possible values.
    Sequence { entries: Vec<SequenceEntry> },
    /// An operation with only one operand.
    UnaryOperation { operator: UnaryOperator, operand: Box<Expression> },
    /// An operation with a left and right operand.
    BinaryOperation { operator: BinaryOperator, left: Box<Expression>, right: Box<Expression> },
    /// A call to a user-defined or built-in function; positional
    /// arguments in the name are normalized to `?`.
    FunctionCall { name: String, arguments: Vec<Expression> },
}

/// An expected type for a function parameter.
#[derive(Clone, Copy, Debug, PartialEq, Eq, Structural)]
pub enum FunctionParameterExpectedType {
    Dice,
    Number,
    Sequence,
}

/// A named parameter of a function definition with an optional
/// expected type.
#[derive(Clone, Debug, PartialEq)]
pub struct FunctionParameter {
    name: String,
    expected_type: Option<FunctionParameterExpectedType>,
}

/// A statement alters the state of the interpreter but produces no
/// value.
#[derive(Debug)]
pub enum Statement {
    /// Output an expression with an optional name.
    Output { value: Expression, name: Option<String> },
    /// Configure the interpreter behavior with a string value.
    ConfigureString { setting: String, value: String },
    /// Configure the interpreter behavior with an expression value.
    ConfigureExpression { setting: String, value: Expression },
    /// Define a new or redefine an existing function; positional
    /// parameters in the name are normalized to `?`.
    FunctionDefinition { name: String, parameters: Vec<FunctionParameter> },
}

/// The root node: a full program to run.
#[derive(Debug)]
pub struct Program {
    /// All statements, to be run in order.
    pub statements: Vec<Statement>,
}

} // verus!
