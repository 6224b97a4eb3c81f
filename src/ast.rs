use vstd::prelude::*;

use crate::lexer::TokenType;
use crate::ops::{binary_char, char_prec, prefix_char};

verus! {

/// A node of the expression tree and the byte offset it comes from.
#[derive(Debug, PartialEq, Eq)]
pub struct AstNode {
    pub typ: AstType,
    pub pos: u32,
}

/// The kinds of expression tree nodes.
#[derive(Debug, PartialEq, Eq)]
pub enum AstType {
    Number(u64),
    Ident(Vec<char>),
    Binary(char, Box<AstNode>, Box<AstNode>),
    Prefix(char, Box<AstNode>),
    /// Representable, but never built by the grammar.
    Postfix(char, Box<AstNode>),
    Parens(Box<AstNode>),
}

impl AstNode {
    /// A node of kind `typ` read at offset `pos`.
    pub fn new(typ: AstType, pos: u32) -> (r: AstNode)
        ensures
            r.typ == typ,
            r.pos == pos,
    {
        AstNode { typ, pos }
    }
}

} // verus!

verus! {

/// How tightly a node holds together: the precedence of its top operator;
/// a leaf or a group is never split.
pub open spec fn bind(t: AstNode) -> int {
    match t.typ {
        AstType::Binary(c, _, _) => char_prec(c),
        AstType::Prefix(..) => 3,
        _ => 5,
    }
}

/// `l` may stand as the left operand of `c` without parentheses.
pub open spec fn left_fits(c: char, l: AstNode) -> bool {
    bind(l) > char_prec(c) || (bind(l) == char_prec(c) && c != '^')
}

/// `r` may stand as the right operand of `c` without parentheses; a prefix
/// operation can always stand there, since it has no left side.
pub open spec fn right_fits(c: char, r: AstNode) -> bool {
    r.typ is Prefix || bind(r) > char_prec(c) || (bind(r) == char_prec(c) && c == '^')
}

/// The tree uses only the grammar's operators, and each operand sits where
/// precedence and associativity put it.
pub open spec fn well_built(t: AstNode) -> bool
    decreases t,
{
    match t.typ {
        AstType::Number(_) => true,
        AstType::Ident(_) => true,
        AstType::Binary(c, l, r) => binary_char(c) && left_fits(c, *l) && right_fits(c, *r)
            && well_built(*l) && well_built(*r),
        AstType::Prefix(c, x) => prefix_char(c) && bind(*x) >= 3 && well_built(*x),
        AstType::Postfix(..) => false,
        AstType::Parens(x) => well_built(*x),
    }
}

/// The tokens that the tree was read from, in order.
pub open spec fn yield_of(t: AstNode) -> Seq<TokenType>
    decreases t,
{
    match t.typ {
        AstType::Number(v) => seq![TokenType::Number(v)],
        AstType::Ident(n) => seq![TokenType::Ident(n)],
        AstType::Binary(c, l, r) => yield_of(*l) + seq![TokenType::OpSingle(c)] + yield_of(*r),
        AstType::Prefix(c, x) => seq![TokenType::OpSingle(c)] + yield_of(*x),
        AstType::Postfix(c, x) => yield_of(*x) + seq![TokenType::OpSingle(c)],
        AstType::Parens(x) => seq![TokenType::OpSingle('(')] + yield_of(*x) + seq![
            TokenType::OpSingle(')'),
        ],
    }
}

/// The offsets of the tokens that the tree was read from, in the order of
/// `yield_of`: each node's own offset for its token, and none for `)`.
pub open spec fn yield_pos(t: AstNode) -> Seq<Option<u32>>
    decreases t,
{
    match t.typ {
        AstType::Number(_) => seq![Some(t.pos)],
        AstType::Ident(_) => seq![Some(t.pos)],
        AstType::Binary(_, l, r) => yield_pos(*l) + seq![Some(t.pos)] + yield_pos(*r),
        AstType::Prefix(_, x) => seq![Some(t.pos)] + yield_pos(*x),
        AstType::Postfix(_, x) => yield_pos(*x) + seq![Some(t.pos)],
        AstType::Parens(x) => seq![Some(t.pos)] + yield_pos(*x) + seq![None],
    }
}

/// The operator at the top of a binary node.
pub open spec fn top_binary(t: AstNode) -> Option<char> {
    match t.typ {
        AstType::Binary(c, _, _) => Some(c),
        _ => None,
    }
}

/// Precedence: a binary operand of a binary operator never binds looser
/// than that operator, so `2+3*4` can only be `2+(3*4)`.
pub proof fn lemma_precedence(t: AstNode, c: char, l: AstNode, r: AstNode)
    requires
        well_built(t),
        t.typ == AstType::Binary(c, Box::new(l), Box::new(r)),
    ensures
        top_binary(l) matches Some(d) ==> char_prec(d) >= char_prec(c),
        top_binary(r) matches Some(d) ==> char_prec(d) >= char_prec(c),
{
}

/// Left associativity: the right operand of `+ - * /` is never a binary
/// node of the same precedence, so `8-3-2` can only be `(8-3)-2`.
pub proof fn lemma_left_assoc(t: AstNode, c: char, l: AstNode, r: AstNode)
    requires
        well_built(t),
        t.typ == AstType::Binary(c, Box::new(l), Box::new(r)),
        c != '^',
    ensures
        top_binary(r) matches Some(d) ==> char_prec(d) > char_prec(c),
{
}

/// Right associativity: the left operand of `^` is never a binary node,
/// so `2^3^2` can only be `2^(3^2)`.
pub proof fn lemma_right_assoc(t: AstNode, l: AstNode, r: AstNode)
    requires
        well_built(t),
        t.typ == AstType::Binary('^', Box::new(l), Box::new(r)),
    ensures
        top_binary(l) is None,
        !(l.typ is Prefix),
{
}

/// Prefix binding: the operand of prefix `-` is never a binary node other
/// than `^`, whose precedence is above its own; so `-2*3` is `(-2)*3` and
/// `-2^2` is `-(2^2)`.
pub proof fn lemma_prefix_binding(t: AstNode, x: AstNode)
    requires
        well_built(t),
        t.typ == AstType::Prefix('-', Box::new(x)),
    ensures
        top_binary(x) matches Some(d) ==> d == '^',
{
    assert(well_built(x));
    if let AstType::Binary(d, a, b) = x.typ {
        assert(binary_char(d));
    }
}

} // verus!
