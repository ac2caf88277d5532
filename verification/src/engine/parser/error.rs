//! Errors reported while parsing a pattern.

use vstd::prelude::*;

verus! {

/// A positioned syntax error in a pattern.  Positions count characters
/// of the pattern, starting at 0; errors raised at the end of the input
/// carry the pattern length as their position.
#[derive(Debug, Clone, Copy, PartialEq, Eq)]
pub enum ParseError {
    /// The character after a backslash is not one of `\ ( ) | + * ?`.
    InvalidEscape(usize, char),
    /// A closing parenthesis without an opening one.  The current parser
    /// tolerates that quirk, so this variant is never produced; it is kept
    /// for a future strict mode.
    InvalidRightParen(usize),
    /// A quantifier or an alternation operator with no operand.
    NoOperand(usize),
    /// An opening parenthesis left unclosed at the end of the pattern.
    NoRightParen,
    /// The pattern reduces to nothing.
    Empty,
}

} // verus!
