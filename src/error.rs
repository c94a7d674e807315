use vstd::prelude::*;

use crate::token::Op;

verus! {

/// The coarse class of a token, as reported in errors.
#[derive(Clone, Copy, Debug, PartialEq, Eq, Structural)]
pub enum Kind {
    Number,
    Operator(Op),
    Open,
    Close,
}

/// How the parentheses of a text fail to balance.
#[derive(Clone, Copy, Debug, PartialEq, Eq, Structural)]
pub enum Imbalance {
    /// A closing parenthesis at this character position has no opening one.
    ClosingAt(usize),
    /// This many opening parentheses are never closed.
    Unclosed(usize),
}

/// A pair of neighbouring tokens that may not stand next to each other.
#[derive(Clone, Copy, Debug, PartialEq, Eq, Structural)]
pub enum Adjacency {
    NumberFollowedByNumber,
    OperatorFollowedByOperator,
    OperatorFollowedByClose,
    OpenFollowedByOperator,
    OpenFollowedByClose,
    CloseFollowedByNumber,
    CloseFollowedByOpen,
}

/// Why an expression could not be evaluated.
#[derive(Debug, PartialEq, Eq)]
pub enum Error {
    /// The text holds a character outside `0123456789.+-*/()`.
    InvalidCharacter,
    UnbalancedParenthesis(Imbalance),
    /// A lexeme that is neither a number, an operator nor a parenthesis.
    InvalidToken(String),
    EmptyExpression,
    CannotStartWith(Kind),
    CannotEndWith(Kind),
    IllegalAdjacency(Adjacency),
    /// Text that is not one of the operator symbols.
    UnknownOperator(String),
    /// The reduction met a token sequence that validation should have ruled out.
    Internal,
}

} // verus!
