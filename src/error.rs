use vstd::prelude::*;

use crate::lexer::Token;

verus! {

/// What the parser was looking for when it met an unsuitable token.
#[derive(Clone, Copy, Debug, PartialEq, Eq)]
pub enum Expected {
    /// A number, an identifier, `(` or a prefix operator.
    Primary,
    /// A unary prefix operator (an operator character other than `-` was found).
    UnaryOperator,
    /// The `)` closing a group.
    CloseParen,
    /// The end of the input.
    End,
}

/// Why a text could not be parsed.
#[derive(Clone, Debug, PartialEq, Eq)]
pub enum ParseError {
    /// The byte at this offset starts no token, or starts a number too large for `u64`.
    Lex(u32),
    /// The token found where the expected construct should have stood; the
    /// token carries its own position.
    Syntax(Expected, Token),
    /// A group or prefix operator at this offset nests deeper than the
    /// parser allows.
    TooDeep(u32),
    /// The input is too long for its byte offsets to fit in `u32`.
    TooLong,
}

} // verus!
