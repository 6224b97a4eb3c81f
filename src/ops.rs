use vstd::prelude::*;

verus! {

/// An entry of the operator stack, with the byte offset of its token.
#[derive(Clone, Copy, Debug, PartialEq, Eq, Structural)]
pub enum Op {
    /// Bounds a parenthesised group, or the whole expression.
    Sentinel(u32),
    Binary(char, u32),
    Prefix(char, u32),
    /// Representable, but never built by the grammar.
    Postfix(char, u32),
}

/// Which way operators of equal precedence group.
#[derive(Clone, Copy, Debug, PartialEq, Eq, Structural)]
pub enum Assoc {
    Left,
    Right,
}

/// Whether `c` is one of the binary operator characters `+ - * / ^`.
pub open spec fn binary_char(c: char) -> bool {
    c == '+' || c == '-' || c == '*' || c == '/' || c == '^'
}

/// Whether `c` is a unary prefix operator character (only `-`).
pub open spec fn prefix_char(c: char) -> bool {
    c == '-'
}

/// The precedence of a binary operator character.
pub open spec fn char_prec(c: char) -> int {
    if c == '+' || c == '-' {
        1
    } else if c == '*' || c == '/' {
        2
    } else {
        4
    }
}

/// The operators that the precedence table knows.
pub open spec fn valid_op(op: Op) -> bool {
    match op {
        Op::Sentinel(_) => true,
        Op::Binary(c, _) => binary_char(c),
        Op::Prefix(c, _) => prefix_char(c),
        Op::Postfix(..) => false,
    }
}

/// Precedence table: sentinel 0, `+ -` 1, `* /` 2, prefix `-` 3, `^` 4.
pub open spec fn op_prec(op: Op) -> int {
    match op {
        Op::Sentinel(_) => 0,
        Op::Binary(c, _) => char_prec(c),
        Op::Prefix(..) => 3,
        Op::Postfix(..) => 0,
    }
}

/// Binary operators other than `^` group from the left.
pub open spec fn left_assoc(op: Op) -> bool {
    match op {
        Op::Binary(c, _) => c != '^',
        _ => false,
    }
}

/// Operator `a` on the stack is reduced before `b` is pushed: it binds
/// tighter, or as tight and groups from the left.
pub open spec fn greater(a: Op, b: Op) -> bool {
    op_prec(a) > op_prec(b) || (op_prec(a) == op_prec(b) && left_assoc(a))
}

/// Whether the stack top, if there is one, is a sentinel.
pub fn is_sentinel(op: &Option<&Op>) -> (r: bool)
    ensures
        r == (op is Some && op->0 is Sentinel),
{
    if let Some(Op::Sentinel(_)) = op {
        true
    } else {
        false
    }
}

/// Whether `op_char` is a binary operator.
pub fn is_binary(op_char: char) -> (r: bool)
    ensures
        r == binary_char(op_char),
{
    op_char == '+' || op_char == '-' || op_char == '*' || op_char == '/' || op_char == '^'
}

/// Whether `op_char` is a unary prefix operator.
pub fn is_prefix(op_char: char) -> (r: bool)
    ensures
        r == prefix_char(op_char),
{
    op_char == '-'
}

/// The associativity of a binary operator: `^` groups from the right, the
/// others from the left.
pub fn assoc(op: &Op) -> (r: Assoc)
    requires
        op is Binary,
        valid_op(*op),
    ensures
        r == (if left_assoc(*op) { Assoc::Left } else { Assoc::Right }),
{
    match op {
        Op::Binary('^', _) => Assoc::Right,
        _ => Assoc::Left,
    }
}

/// The precedence of an operator, by the table of `op_prec`.
pub fn prec(op: &Op) -> (r: i32)
    requires
        valid_op(*op),
    ensures
        r == op_prec(*op),
{
    match op {
        Op::Sentinel(_) => 0,
        Op::Binary('+', _) | Op::Binary('-', _) => 1,
        Op::Binary('*', _) | Op::Binary('/', _) => 2,
        Op::Prefix(..) => 3,
        _ => 4,
    }
}

/// Whether `op1`, on top of the stack, is reduced before `op2` is pushed.
/// Only binary operators have an associativity: a tie with a prefix
/// operator on top leaves it in place, so prefixes nest to the right.
pub fn has_greater_prec(op1: &Op, op2: &Op) -> (r: bool)
    requires
        valid_op(*op1),
        valid_op(*op2),
    ensures
        r == greater(*op1, *op2),
{
    let prec1 = prec(op1);
    let prec2 = prec(op2);
    prec1 > prec2 || (prec1 == prec2 && matches!(op1, Op::Binary(..)) && assoc(op1) == Assoc::Left)
}

} // verus!
