use vstd::prelude::*;

use crate::ast::{bind, left_fits, right_fits, well_built, yield_of, yield_pos, AstNode, AstType};
use crate::error::{Expected, ParseError};
use crate::lexer::{lexed, lexes, pos_of, positions, types, Lexer, Token, TokenType};
use vstd::string::StringSliceAdditionalSpecFns;
use crate::ops::{binary_char, greater, has_greater_prec, is_binary, is_prefix, is_sentinel, op_prec, valid_op, Op};

verus! {

/// The number of binary operators in `s`.
pub open spec fn nbin(s: Seq<Op>) -> nat
    decreases s.len(),
{
    if s.len() == 0 {
        0
    } else {
        nbin(s.drop_last()) + if s.last() is Binary {
            1nat
        } else {
            0nat
        }
    }
}

pub open spec fn op_char(op: Op) -> char {
    match op {
        Op::Binary(c, _) => c,
        Op::Prefix(c, _) => c,
        Op::Postfix(c, _) => c,
        Op::Sentinel(_) => ' ',
    }
}

/// `e` may become the right operand (or the operand) of `op`.
pub open spec fn fits_right(op: Op, e: AstNode) -> bool {
    match op {
        Op::Binary(c, _) => right_fits(c, e),
        Op::Prefix(..) => bind(e) >= 3,
        _ => true,
    }
}

/// The operator stack: a sentinel at the bottom, known operators only, and
/// each binary operator pushed over one that does not bind tighter.
pub open spec fn ops_ok(ops: Seq<Op>) -> bool {
    &&& ops.len() >= 1
    &&& ops[0] is Sentinel
    &&& forall|i: int| 0 <= i < ops.len() ==> valid_op(#[trigger] ops[i])
    &&& forall|i: int|
        0 < i < ops.len() && (#[trigger] ops[i]) is Binary ==> !greater(ops[i - 1], ops[i])
}

/// The expression stack: well-built trees, and below each binary operator
/// its left operand, which fits there.
pub open spec fn exps_ok(ops: Seq<Op>, exps: Seq<AstNode>) -> bool {
    &&& forall|k: int| 0 <= k < exps.len() ==> well_built(#[trigger] exps[k])
    &&& forall|j: int|
        0 <= j < ops.len() && (#[trigger] ops[j]) is Binary ==> {
            &&& nbin(ops.take(j)) < exps.len()
            &&& left_fits(op_char(ops[j]), exps[nbin(ops.take(j)) as int])
        }
}

/// The stacks while a primary expression is awaited.
pub open spec fn expecting(ops: Seq<Op>, exps: Seq<AstNode>) -> bool {
    &&& ops_ok(ops)
    &&& exps_ok(ops, exps)
    &&& exps.len() == nbin(ops)
}

/// The stacks after a primary expression: one operand more than binary
/// operators, and the newest one fits under the operator on top.
pub open spec fn reduced(ops: Seq<Op>, exps: Seq<AstNode>) -> bool {
    &&& ops_ok(ops)
    &&& exps_ok(ops, exps)
    &&& exps.len() == nbin(ops) + 1
    &&& fits_right(ops.last(), exps.last())
}

/// The stacks extend those at the start of a scope, whose sentinel is on
/// top of `base`, with no sentinel above it.
pub open spec fn scoped(base: Seq<Op>, base_exps: Seq<AstNode>, ops: Seq<Op>, exps: Seq<AstNode>) -> bool {
    &&& base.len() >= 1
    &&& base.last() is Sentinel
    &&& base_exps.len() == nbin(base)
    &&& base.len() <= ops.len()
    &&& ops.take(base.len() as int) == base
    &&& forall|i: int| base.len() <= i < ops.len() ==> !(#[trigger] ops[i] is Sentinel)
    &&& base_exps.len() <= exps.len()
    &&& exps.take(base_exps.len() as int) == base_exps
}

/// `ops` is `base` with prefix operators pushed on it.
pub open spec fn prefixes_on(base: Seq<Op>, ops: Seq<Op>) -> bool {
    &&& base.len() <= ops.len()
    &&& ops.take(base.len() as int) == base
    &&& forall|i: int| base.len() <= i < ops.len() ==> #[trigger] ops[i] is Prefix
}

proof fn lemma_nbin_push(s: Seq<Op>, op: Op)
    ensures
        nbin(s.push(op)) == nbin(s) + if op is Binary {
            1nat
        } else {
            0nat
        },
{
    assert(s.push(op).drop_last() =~= s);
}

proof fn lemma_nbin_take_mono(s: Seq<Op>, j: int, k: int)
    requires
        0 <= j <= k <= s.len(),
    ensures
        nbin(s.take(j)) <= nbin(s.take(k)),
        j < k && s[j] is Binary ==> nbin(s.take(j)) + 1 <= nbin(s.take(k)),
    decreases k - j,
{
    if j < k {
        lemma_nbin_take_mono(s, j, k - 1);
        assert(s.take(k).drop_last() =~= s.take(k - 1));
        if k - 1 == j {
            assert(s.take(k).last() == s[j]);
        }
    }
}

/// What popping the top operator leaves: a state of the same kind, one
/// operator shorter.
proof fn lemma_pop(ops: Seq<Op>, exps: Seq<AstNode>, x: AstNode)
    requires
        reduced(ops, exps),
        ops.len() >= 2,
        ops.last() is Binary ==> x.typ == AstType::Binary(
            op_char(ops.last()),
            Box::new(exps[exps.len() - 2]),
            Box::new(exps.last()),
        ),
        ops.last() is Prefix ==> x.typ == AstType::Prefix(op_char(ops.last()), Box::new(exps.last())),
        ops.last() is Binary || ops.last() is Prefix,
    ensures
        ops.last() is Binary ==> exps.len() >= 2 && reduced(
            ops.drop_last(),
            exps.take(exps.len() - 2).push(x),
        ),
        ops.last() is Prefix ==> reduced(ops.drop_last(), exps.take(exps.len() - 1).push(x)),
        bind(x) == op_prec(ops.last()),
        ops.last() is Binary ==> pending(ops.drop_last(), exps.take(exps.len() - 2).push(x))
            + yield_of(x) == pending(ops, exps) + yield_of(exps.last()),
        ops.last() is Prefix ==> pending(ops.drop_last(), exps.take(exps.len() - 1).push(x))
            + yield_of(x) == pending(ops, exps) + yield_of(exps.last()),
        ops.last() matches Op::Binary(_, p) && x.pos == p ==> pending_pos(
            ops.drop_last(),
            exps.take(exps.len() - 2).push(x),
        ) + yield_pos(x) == pending_pos(ops, exps) + yield_pos(exps.last()),
        ops.last() matches Op::Prefix(_, p) && x.pos == p ==> pending_pos(
            ops.drop_last(),
            exps.take(exps.len() - 1).push(x),
        ) + yield_pos(x) == pending_pos(ops, exps) + yield_pos(exps.last()),
{
    let k = ops.len() - 1;
    let o = ops.drop_last();
    let m = exps.len() as int;
    lemma_nbin_push(o, ops.last());
    assert(o.push(ops.last()) =~= ops);
    assert(ops.take(k) =~= o);
    assert forall|j: int| 0 <= j < o.len() implies #[trigger] o.take(j) == ops.take(j) by {
        assert(o.take(j) =~= ops.take(j));
    }
    assert(valid_op(ops[k]));
    assert(valid_op(ops[k - 1]));
    if ops.last() is Binary {
        assert(exps[nbin(ops.take(k)) as int] == exps[m - 2]);
        let e = exps.take(m - 2).push(x);
        assert(well_built(exps[m - 2]));
        assert(well_built(exps[m - 1]));
        assert forall|j: int| 0 <= j < o.len() && (#[trigger] o[j]) is Binary implies {
            &&& nbin(o.take(j)) < e.len()
            &&& left_fits(op_char(o[j]), e[nbin(o.take(j)) as int])
        } by {
            lemma_nbin_take_mono(ops, j, k);
            assert(ops[j] == o[j]);
        }
        assert(!greater(ops[k - 1], ops[k]));
        lemma_pending_push(o, ops.last(), exps);
        lemma_pending_agree(o, exps, e);
        let l = exps[m - 2];
        let r = exps[m - 1];
        assert(yield_of(x) == yield_of(l) + seq![TokenType::OpSingle(op_char(ops.last()))] + yield_of(r));
        assert(pending(o, exps) + (yield_of(l) + seq![TokenType::OpSingle(op_char(ops.last()))])
            + yield_of(r) =~= pending(o, exps) + (yield_of(l) + seq![
            TokenType::OpSingle(op_char(ops.last())),
        ] + yield_of(r)));
        assert(pending_pos(o, exps) + (yield_pos(l) + seq![Some(x.pos)]) + yield_pos(r)
            =~= pending_pos(o, exps) + (yield_pos(l) + seq![Some(x.pos)] + yield_pos(r)));
    } else {
        let e = exps.take(m - 1).push(x);
        assert(well_built(exps[m - 1]));
        assert forall|j: int| 0 <= j < o.len() && (#[trigger] o[j]) is Binary implies {
            &&& nbin(o.take(j)) < e.len()
            &&& left_fits(op_char(o[j]), e[nbin(o.take(j)) as int])
        } by {
            lemma_nbin_take_mono(ops, j, k);
            assert(ops[j] == o[j]);
        }
        lemma_pending_push(o, ops.last(), exps);
        lemma_pending_agree(o, exps, e);
        let r = exps[m - 1];
        assert(yield_of(x) == seq![TokenType::OpSingle(op_char(ops.last()))] + yield_of(r));
        assert(pending(o, exps) + seq![TokenType::OpSingle(op_char(ops.last()))] + yield_of(r)
            =~= pending(o, exps) + (seq![TokenType::OpSingle(op_char(ops.last()))] + yield_of(
            r,
        )));
        assert(pending_pos(o, exps) + seq![Some(x.pos)] + yield_pos(r) =~= pending_pos(o, exps) + (
        seq![Some(x.pos)] + yield_pos(r)));
    }
}

/// A scope's stacks after one more pop stay within the scope.
proof fn lemma_pop_scoped(base: Seq<Op>, base_exps: Seq<AstNode>, ops: Seq<Op>, exps: Seq<AstNode>)
    requires
        scoped(base, base_exps, ops, exps),
        reduced(ops, exps),
        !(ops.last() is Sentinel),
    ensures
        ops.len() > base.len(),
        ops.len() >= 2,
        ops.last() is Binary ==> exps.len() >= base_exps.len() + 2,
        exps.len() >= base_exps.len() + 1,
{
    if ops.len() == base.len() {
        assert(ops.take(base.len() as int)[base.len() - 1] == ops.last());
    }
    let k = ops.len() - 1;
    lemma_nbin_take_mono(ops, base.len() as int, k);
    lemma_nbin_take_mono(ops, base.len() as int, ops.len() as int);
    assert(ops.take(ops.len() as int) =~= ops);
    assert(ops.take(k) =~= ops.drop_last());
    lemma_nbin_push(ops.drop_last(), ops.last());
    assert(ops.drop_last().push(ops.last()) =~= ops);
}

/// The tokens that the stacks stand for: each group's `(` and each prefix
/// operator, and each binary operator after its left operand. The outer
/// sentinel stands for nothing.
pub open spec fn pending(ops: Seq<Op>, exps: Seq<AstNode>) -> Seq<TokenType>
    decreases ops.len(),
{
    if ops.len() == 0 {
        seq![]
    } else {
        pending(ops.drop_last(), exps) + match ops.last() {
            Op::Binary(c, _) => yield_of(exps[nbin(ops.drop_last()) as int]) + seq![
                TokenType::OpSingle(c),
            ],
            Op::Prefix(c, _) => seq![TokenType::OpSingle(c)],
            Op::Sentinel(_) => if ops.len() == 1 {
                seq![]
            } else {
                seq![TokenType::OpSingle('(')]
            },
            Op::Postfix(..) => seq![],
        }
    }
}

/// The offsets of the tokens that `pending` lists, as `yield_pos` keeps them.
pub open spec fn pending_pos(ops: Seq<Op>, exps: Seq<AstNode>) -> Seq<Option<u32>>
    decreases ops.len(),
{
    if ops.len() == 0 {
        seq![]
    } else {
        pending_pos(ops.drop_last(), exps) + match ops.last() {
            Op::Binary(_, p) => yield_pos(exps[nbin(ops.drop_last()) as int]) + seq![Some(p)],
            Op::Prefix(_, p) => seq![Some(p)],
            Op::Sentinel(p) => if ops.len() == 1 {
                seq![]
            } else {
                seq![Some(p)]
            },
            Op::Postfix(..) => seq![],
        }
    }
}

/// `pending` reads no operand past the left operands of the binary operators.
proof fn lemma_pending_agree(ops: Seq<Op>, e1: Seq<AstNode>, e2: Seq<AstNode>)
    requires
        nbin(ops) <= e1.len(),
        nbin(ops) <= e2.len(),
        forall|i: int| 0 <= i < nbin(ops) ==> e1[i] == e2[i],
    ensures
        pending(ops, e1) == pending(ops, e2),
        pending_pos(ops, e1) == pending_pos(ops, e2),
    decreases ops.len(),
{
    if ops.len() > 0 {
        lemma_nbin_push(ops.drop_last(), ops.last());
        assert(ops.drop_last().push(ops.last()) =~= ops);
        lemma_pending_agree(ops.drop_last(), e1, e2);
    }
}

proof fn lemma_pending_push(ops: Seq<Op>, op: Op, exps: Seq<AstNode>)
    ensures
        pending(ops.push(op), exps) == pending(ops, exps) + match op {
            Op::Binary(c, _) => yield_of(exps[nbin(ops) as int]) + seq![TokenType::OpSingle(c)],
            Op::Prefix(c, _) => seq![TokenType::OpSingle(c)],
            Op::Sentinel(_) => if ops.len() == 0 {
                seq![]
            } else {
                seq![TokenType::OpSingle('(')]
            },
            Op::Postfix(..) => seq![],
        },
        pending_pos(ops.push(op), exps) == pending_pos(ops, exps) + match op {
            Op::Binary(_, p) => yield_pos(exps[nbin(ops) as int]) + seq![Some(p)],
            Op::Prefix(_, p) => seq![Some(p)],
            Op::Sentinel(p) => if ops.len() == 0 {
                seq![]
            } else {
                seq![Some(p)]
            },
            Op::Postfix(..) => seq![],
        },
{
    assert(ops.push(op).drop_last() =~= ops);
}

/// The groups and prefix operators pending on an operator stack: its
/// sentinels above the outer one, and its prefix operators.
pub open spec fn nest_ops(ops: Seq<Op>) -> nat
    decreases ops.len(),
{
    if ops.len() == 0 {
        0
    } else {
        nest_ops(ops.drop_last()) + if ops.last() is Prefix || (ops.last() is Sentinel && ops.len()
            > 1) {
            1nat
        } else {
            0nat
        }
    }
}

/// How deep groups and prefix operators may nest.
pub const MAX_DEPTH: u32 = 256;

pub open spec fn last_end(ends: Seq<int>) -> int {
    if ends.len() == 0 {
        0
    } else {
        ends.last()
    }
}

/// Token `tok`, which follows `toks`, is not what `exp` asks for. Where the
/// end was asked for, `toks` spell a whole expression.
pub open spec fn misfit(exp: Expected, toks: Seq<Token>, tok: Token) -> bool {
    match exp {
        Expected::End => !(tok.typ is End) && !binary_token(tok.typ) && (exists|t: AstNode|
            well_built(t) && types(toks) == yield_of(t)),
        Expected::CloseParen => tok.typ != TokenType::OpSingle(')') && !binary_token(tok.typ) && (
        exists|pre: Seq<TokenType>, t: AstNode|
            well_built(t) && types(toks) == pre + seq![TokenType::OpSingle('(')] + yield_of(t)),
        Expected::Primary => tok.typ is End && operand_due(types(toks)),
        Expected::UnaryOperator => (tok.typ matches TokenType::OpSingle(c) && c != '-' && c
            != '(') && operand_due(types(toks)),
    }
}

pub open spec fn binary_token(t: TokenType) -> bool {
    t matches TokenType::OpSingle(c) && binary_char(c)
}

/// After these tokens an operand must follow: nothing was read yet, or the
/// last token is an operator or `(`.
pub open spec fn operand_due(log: Seq<TokenType>) -> bool {
    log.len() == 0 || (log.last() matches TokenType::OpSingle(c) && (binary_char(c) || c == '('))
}

/// While an operand is awaited, the tokens read end with an operator or `(`.
proof fn lemma_operand_due(ops: Seq<Op>, exps: Seq<AstNode>)
    requires
        ops_ok(ops),
    ensures
        operand_due(pending(ops, exps)),
{
    let o = ops.drop_last();
    assert(valid_op(ops[ops.len() - 1]));
    lemma_pending_push(o, ops.last(), exps);
    assert(o.push(ops.last()) =~= ops);
    if ops.len() == 1 {
        assert(pending(o, exps) =~= Seq::<TokenType>::empty());
        assert(pending(ops, exps) =~= Seq::<TokenType>::empty());
    }
}

/// What an error says of the input bytes `s`; in each case the tokens read
/// before it can still be completed into an expression, so the error comes
/// at the first token where the input goes wrong. A lexical error comes right
/// after a run of tokens; a syntax error names a token of the input, read
/// after a run of tokens, that does not fit there; nesting too deep names
/// a `(` or prefix `-` where an operand was due, read when the stacks that
/// stand for the tokens before it hold `MAX_DEPTH` open groups and pending
/// prefix operators.
pub open spec fn failure(s: Seq<u8>, e: ParseError) -> bool {
    match e {
        ParseError::Lex(_) => exists|toks: Seq<Token>, ends: Seq<int>, q: int|
            lexes(s, toks, ends) && lexed(s, last_end(ends), q, Err(e)) && viable(types(toks)),
        ParseError::Syntax(exp, tok) => exists|toks: Seq<Token>, ends: Seq<int>|
            lexes(s, toks.push(tok), ends) && misfit(exp, toks, tok) && viable(types(toks)),
        ParseError::TooDeep(p) => exists|
            toks: Seq<Token>,
            ends: Seq<int>,
            tok: Token,
            ops: Seq<Op>,
            exps: Seq<AstNode>,
        |
            lexes(s, toks.push(tok), ends) && tok.pos == p && (tok.typ == TokenType::OpSingle('(')
                || tok.typ == TokenType::OpSingle('-')) && expecting(ops, exps) && types(toks)
                == pending(ops, exps) && nest_ops(ops) >= MAX_DEPTH && viable(types(toks)),
        ParseError::TooLong => false,
    }
}

/// The tokens `log` can still be continued into those of a well-built tree
/// followed by the end.
pub open spec fn viable(log: Seq<TokenType>) -> bool {
    exists|t: AstNode| well_built(t) && log.is_prefix_of(yield_of(t).push(TokenType::End))
}

proof fn lemma_viable_prefix(a: Seq<TokenType>, b: Seq<TokenType>)
    requires
        viable(a + b),
    ensures
        viable(a),
{
    let t = choose|t: AstNode| well_built(t) && (a + b).is_prefix_of(yield_of(t).push(TokenType::End));
    let y = yield_of(t).push(TokenType::End);
    assert(a =~= y.subrange(0, a.len() as int)) by {
        assert forall|i: int| 0 <= i < a.len() implies a[i] == y[i] by {
            assert((a + b)[i] == a[i]);
        }
    }
}

/// A leaf or group pushed while an operand is awaited completes a primary.
proof fn lemma_push_atom(ops: Seq<Op>, exps: Seq<AstNode>, a: AstNode)
    requires
        expecting(ops, exps),
        well_built(a),
        bind(a) == 5,
    ensures
        reduced(ops, exps.push(a)),
        pending(ops, exps.push(a)) == pending(ops, exps),
        pending_pos(ops, exps.push(a)) == pending_pos(ops, exps),
{
    lemma_pending_agree(ops, exps, exps.push(a));
    let e = exps.push(a);
    assert forall|k: int| 0 <= k < e.len() implies well_built(#[trigger] e[k]) by {
        if k < exps.len() {
            assert(e[k] == exps[k]);
        }
    }
    assert forall|j: int| 0 <= j < ops.len() && (#[trigger] ops[j]) is Binary implies {
        &&& nbin(ops.take(j)) < e.len()
        &&& left_fits(op_char(ops[j]), e[nbin(ops.take(j)) as int])
    } by {
        assert(e[nbin(ops.take(j)) as int] == exps[nbin(ops.take(j)) as int]);
    }
    assert(valid_op(ops[ops.len() - 1]));
}

/// Pushing a group's sentinel or a prefix operator keeps an operand awaited.
proof fn lemma_push_open(ops: Seq<Op>, exps: Seq<AstNode>, op: Op)
    requires
        expecting(ops, exps),
        valid_op(op),
        op is Sentinel || op is Prefix,
    ensures
        expecting(ops.push(op), exps),
{
    let o = ops.push(op);
    lemma_nbin_push(ops, op);
    assert forall|j: int| 0 <= j < ops.len() implies #[trigger] o.take(j) == ops.take(j) by {
        assert(o.take(j) =~= ops.take(j));
    }
    assert forall|i: int| 0 <= i < o.len() implies valid_op(#[trigger] o[i]) by {
        if i < ops.len() {
            assert(o[i] == ops[i]);
        }
    }
    assert forall|i: int| 0 < i < o.len() && (#[trigger] o[i]) is Binary implies !greater(
        o[i - 1],
        o[i],
    ) by {
        assert(o[i] == ops[i]);
        assert(o[i - 1] == ops[i - 1]);
    }
    assert forall|j: int| 0 <= j < o.len() && (#[trigger] o[j]) is Binary implies {
        &&& nbin(o.take(j)) < exps.len()
        &&& left_fits(op_char(o[j]), exps[nbin(o.take(j)) as int])
    } by {
        assert(o[j] == ops[j]);
    }
}

/// The tokens that a state after a primary stands for can be completed:
/// reducing the stacks, closing each open group, yields a well-built tree.
proof fn lemma_reduced_viable(ops: Seq<Op>, exps: Seq<AstNode>)
    requires
        reduced(ops, exps),
    ensures
        viable(pending(ops, exps) + yield_of(exps.last())),
    decreases ops.len(),
{
    let m = exps.len() as int;
    let o = ops.drop_last();
    assert(o.push(ops.last()) =~= ops);
    lemma_nbin_push(o, ops.last());
    lemma_pending_push(o, ops.last(), exps);
    assert(valid_op(ops[ops.len() - 1]));
    if ops.len() == 1 {
        let t = exps.last();
        assert(well_built(exps[m - 1]));
        assert(pending(o, exps) =~= Seq::<TokenType>::empty());
        assert(pending(ops, exps) + yield_of(t) =~= yield_of(t));
        assert(yield_of(t).is_prefix_of(yield_of(t).push(TokenType::End))) by {
            assert(yield_of(t) =~= yield_of(t).push(TokenType::End).subrange(0, yield_of(t).len() as int));
        }
    } else if ops.last() is Sentinel {
        let x = AstNode { typ: AstType::Parens(Box::new(exps.last())), pos: ops.last()->Sentinel_0 };
        let e = exps.take(m - 1).push(x);
        assert(well_built(exps[m - 1]));
        assert forall|k: int| 0 <= k < e.len() implies well_built(#[trigger] e[k]) by {
            if k < m - 1 {
                assert(e[k] == exps[k]);
            }
        }
        assert(ops.take(ops.len() - 1) =~= o);
        assert forall|j: int| 0 <= j < o.len() && (#[trigger] o[j]) is Binary implies {
            &&& nbin(o.take(j)) < e.len()
            &&& left_fits(op_char(o[j]), e[nbin(o.take(j)) as int])
        } by {
            assert(o[j] == ops[j]);
            assert(o.take(j) =~= ops.take(j));
            lemma_nbin_take_mono(ops, j, ops.len() - 1);
        }
        assert(valid_op(ops[ops.len() - 2]));
        assert forall|i: int| 0 <= i < o.len() implies valid_op(#[trigger] o[i]) by {
            assert(o[i] == ops[i]);
        }
        assert forall|i: int| 0 < i < o.len() && (#[trigger] o[i]) is Binary implies !greater(
            o[i - 1],
            o[i],
        ) by {
            assert(o[i] == ops[i]);
            assert(o[i - 1] == ops[i - 1]);
        }
        assert(reduced(o, e));
        lemma_reduced_viable(o, e);
        lemma_pending_agree(o, exps, e);
        let l = pending(ops, exps) + yield_of(exps.last());
        assert(pending(o, e) + yield_of(x) =~= l + seq![TokenType::OpSingle(')')]);
        lemma_viable_prefix(l, seq![TokenType::OpSingle(')')]);
    } else {
        let x = if ops.last() is Binary {
            AstNode {
                typ: AstType::Binary(
                    op_char(ops.last()),
                    Box::new(exps[m - 2]),
                    Box::new(exps.last()),
                ),
                pos: ops.last()->Binary_1,
            }
        } else {
            AstNode {
                typ: AstType::Prefix(op_char(ops.last()), Box::new(exps.last())),
                pos: ops.last()->Prefix_1,
            }
        };
        lemma_pop(ops, exps, x);
        if ops.last() is Binary {
            lemma_reduced_viable(o, exps.take(m - 2).push(x));
        } else {
            lemma_reduced_viable(o, exps.take(m - 1).push(x));
        }
    }
}

/// While an operand is awaited, the tokens read can still be completed.
proof fn lemma_expecting_viable(ops: Seq<Op>, exps: Seq<AstNode>)
    requires
        expecting(ops, exps),
    ensures
        viable(pending(ops, exps)),
{
    let a = AstNode { typ: AstType::Number(0), pos: 0 };
    lemma_push_atom(ops, exps, a);
    lemma_reduced_viable(ops, exps.push(a));
    lemma_viable_prefix(pending(ops, exps), yield_of(a));
}

/// A token that may end an operand: a number, an identifier or `)`.
pub open spec fn ends_operand(t: TokenType) -> bool {
    t is Number || t is Ident || t == TokenType::OpSingle(')')
}

/// A token that may start an operand other than by a prefix operator.
pub open spec fn starts_operand(t: TokenType) -> bool {
    t is Number || t is Ident || t == TokenType::OpSingle('(')
}

/// An operator token that needs an operand before it: any but `-` and `(`.
pub open spec fn needs_left(t: TokenType) -> bool {
    t matches TokenType::OpSingle(c) && c != '-' && c != '('
}

/// In the tokens of a well-built tree: there is at least one, none is
/// `End`, the last ends an operand, and each operator that needs a left
/// operand follows a token that ends one, and no token that starts an
/// operand does.
proof fn lemma_yield_shape(t: AstNode)
    requires
        well_built(t),
    ensures
        yield_of(t).len() > 0,
        ends_operand(yield_of(t).last()),
        forall|i: int| 0 <= i < yield_of(t).len() ==> !(#[trigger] yield_of(t)[i] is End),
        forall|i: int|
            0 <= i < yield_of(t).len() && needs_left(#[trigger] yield_of(t)[i]) ==> i > 0
                && ends_operand(yield_of(t)[i - 1]),
        forall|i: int|
            0 < i < yield_of(t).len() && starts_operand(#[trigger] yield_of(t)[i]) ==> !ends_operand(
                yield_of(t)[i - 1],
            ),
    decreases t,
{
    let y = yield_of(t);
    match t.typ {
        AstType::Binary(c, l, r) => {
            lemma_yield_shape(*l);
            lemma_yield_shape(*r);
            let yl = yield_of(*l);
            let yr = yield_of(*r);
            assert(y == yl + seq![TokenType::OpSingle(c)] + yr);
            assert forall|i: int| 0 <= i < y.len() implies !(#[trigger] y[i] is End) by {
                if i < yl.len() {
                    assert(y[i] == yl[i]);
                } else if i > yl.len() {
                    assert(y[i] == yr[i - yl.len() - 1]);
                }
            }
            assert forall|i: int| 0 <= i < y.len() && needs_left(#[trigger] y[i]) implies i > 0
                && ends_operand(y[i - 1]) by {
                if i < yl.len() {
                    assert(y[i] == yl[i]);
                    assert(y[i - 1] == yl[i - 1]);
                } else if i == yl.len() {
                    assert(y[i - 1] == yl[yl.len() - 1]);
                } else {
                    let j = i - yl.len() - 1;
                    assert(y[i] == yr[j]);
                    if j > 0 {
                        assert(y[i - 1] == yr[j - 1]);
                    }
                }
            }
            assert forall|i: int| 0 < i < y.len() && starts_operand(#[trigger] y[i]) implies !ends_operand(
                y[i - 1],
            ) by {
                if i < yl.len() {
                    assert(y[i] == yl[i]);
                    assert(y[i - 1] == yl[i - 1]);
                } else if i > yl.len() {
                    let j = i - yl.len() - 1;
                    assert(y[i] == yr[j]);
                    if j > 0 {
                        assert(y[i - 1] == yr[j - 1]);
                    }
                }
            }
            assert(y.last() == yr.last());
        },
        AstType::Prefix(c, x) => {
            lemma_yield_shape(*x);
            let yx = yield_of(*x);
            assert(y == seq![TokenType::OpSingle(c)] + yx);
            assert forall|i: int| 0 <= i < y.len() implies !(#[trigger] y[i] is End) by {
                if i > 0 {
                    assert(y[i] == yx[i - 1]);
                }
            }
            assert forall|i: int| 0 <= i < y.len() && needs_left(#[trigger] y[i]) implies i > 0
                && ends_operand(y[i - 1]) by {
                if i > 0 {
                    assert(y[i] == yx[i - 1]);
                    if i > 1 {
                        assert(y[i - 1] == yx[i - 2]);
                    }
                }
            }
            assert forall|i: int| 0 < i < y.len() && starts_operand(#[trigger] y[i]) implies !ends_operand(
                y[i - 1],
            ) by {
                assert(y[i] == yx[i - 1]);
                if i > 1 {
                    assert(y[i - 1] == yx[i - 2]);
                }
            }
            assert(y.last() == yx.last());
        },
        AstType::Parens(x) => {
            lemma_yield_shape(*x);
            let yx = yield_of(*x);
            assert(y == seq![TokenType::OpSingle('(')] + yx + seq![TokenType::OpSingle(')')]);
            assert forall|i: int| 0 <= i < y.len() implies !(#[trigger] y[i] is End) by {
                if 0 < i <= yx.len() {
                    assert(y[i] == yx[i - 1]);
                }
            }
            assert forall|i: int| 0 <= i < y.len() && needs_left(#[trigger] y[i]) implies i > 0
                && ends_operand(y[i - 1]) by {
                if 0 < i <= yx.len() {
                    assert(y[i] == yx[i - 1]);
                    if i > 1 {
                        assert(y[i - 1] == yx[i - 2]);
                    }
                } else if i == yx.len() + 1 {
                    assert(y[i - 1] == yx[yx.len() - 1]);
                }
            }
            assert forall|i: int| 0 < i < y.len() && starts_operand(#[trigger] y[i]) implies !ends_operand(
                y[i - 1],
            ) by {
                if 0 < i <= yx.len() {
                    assert(y[i] == yx[i - 1]);
                    if i > 1 {
                        assert(y[i - 1] == yx[i - 2]);
                    }
                }
            }
        },
        _ => {},
    }
}

/// An error raised where an operand was due is a true syntax error: after
/// tokens that leave an operand due, neither the end nor an operator that
/// needs a left operand can follow on the way to any well-built tree's
/// tokens and the end.
pub proof fn lemma_operand_due_is_error(toks: Seq<TokenType>, tok: TokenType, t: AstNode)
    requires
        well_built(t),
        operand_due(toks),
        tok is End || needs_left(tok),
    ensures
        !toks.push(tok).is_prefix_of(yield_of(t).push(TokenType::End)),
{
    lemma_yield_shape(t);
    let y = yield_of(t);
    let full = y.push(TokenType::End);
    let i = toks.len() as int;
    if toks.push(tok).is_prefix_of(full) {
        assert(full[i] == toks.push(tok)[i]);
        if i < y.len() {
            assert(full[i] == y[i]);
            if i > 0 {
                assert(full[i - 1] == toks.push(tok)[i - 1]);
                assert(full[i - 1] == y[i - 1]);
            }
        } else {
            assert(i == y.len());
            assert(full[i - 1] == toks.push(tok)[i - 1]);
            assert(full[i - 1] == y[i - 1]);
        }
    }
}

/// After a token that ends an operand, a token that starts one cannot
/// follow on the way to any well-built tree's tokens and the end: the
/// trailing tokens of `3+4 5` make it no expression, however it goes on.
pub proof fn lemma_operand_after_operand_is_error(toks: Seq<TokenType>, tok: TokenType, t: AstNode)
    requires
        well_built(t),
        toks.len() > 0,
        ends_operand(toks.last()),
        starts_operand(tok),
    ensures
        !toks.push(tok).is_prefix_of(yield_of(t).push(TokenType::End)),
{
    lemma_yield_shape(t);
    let y = yield_of(t);
    let full = y.push(TokenType::End);
    let i = toks.len() as int;
    if toks.push(tok).is_prefix_of(full) {
        assert(full[i] == toks.push(tok)[i]);
        assert(full[i - 1] == toks.push(tok)[i - 1]);
        if i < y.len() {
            assert(full[i] == y[i]);
            assert(full[i - 1] == y[i - 1]);
        }
    }
}

/// Open parentheses minus closed ones.
pub open spec fn depth(toks: Seq<TokenType>) -> int
    decreases toks.len(),
{
    if toks.len() == 0 {
        0
    } else {
        depth(toks.drop_last()) + if toks.last() == TokenType::OpSingle('(') {
            1int
        } else if toks.last() == TokenType::OpSingle(')') {
            -1int
        } else {
            0int
        }
    }
}

proof fn lemma_depth_single(x: TokenType)
    ensures
        depth(seq![x]) == if x == TokenType::OpSingle('(') {
            1int
        } else if x == TokenType::OpSingle(')') {
            -1int
        } else {
            0int
        },
{
    assert(seq![x].drop_last() =~= Seq::<TokenType>::empty());
    assert(depth(Seq::<TokenType>::empty()) == 0);
}

proof fn lemma_depth_concat(a: Seq<TokenType>, b: Seq<TokenType>)
    ensures
        depth(a + b) == depth(a) + depth(b),
    decreases b.len(),
{
    if b.len() > 0 {
        lemma_depth_concat(a, b.drop_last());
        assert((a + b).drop_last() =~= a + b.drop_last());
    } else {
        assert(a + b =~= a);
    }
}

/// The parentheses of a well-built tree's tokens balance, and no start of
/// them closes more than it opens.
proof fn lemma_yield_balanced(t: AstNode)
    requires
        well_built(t),
    ensures
        depth(yield_of(t)) == 0,
        forall|k: int| 0 <= k <= yield_of(t).len() ==> depth(#[trigger] yield_of(t).take(k)) >= 0,
    decreases t,
{
    let y = yield_of(t);
    let open = seq![TokenType::OpSingle('(')];
    let close = seq![TokenType::OpSingle(')')];
    match t.typ {
        AstType::Number(_) | AstType::Ident(_) => {
            assert(y.take(0) =~= Seq::<TokenType>::empty());
            assert(y.take(1) =~= y);
            assert(y.drop_last() =~= Seq::<TokenType>::empty());
            assert forall|k: int| 0 <= k <= y.len() implies depth(#[trigger] y.take(k)) >= 0 by {
                if k == 0 {
                    assert(y.take(k) =~= Seq::<TokenType>::empty());
                    assert(depth(Seq::<TokenType>::empty()) == 0);
                } else {
                    assert(y.take(k) =~= y);
                    lemma_depth_single(y[0]);
                    assert(y =~= seq![y[0]]);
                }
            }
            lemma_depth_single(y[0]);
            assert(y =~= seq![y[0]]);
        },
        AstType::Binary(c, l, r) => {
            lemma_yield_balanced(*l);
            lemma_yield_balanced(*r);
            let yl = yield_of(*l);
            let yr = yield_of(*r);
            let op = seq![TokenType::OpSingle(c)];
            assert(binary_char(c));
            lemma_depth_single(TokenType::OpSingle(c));
            lemma_depth_concat(yl, op);
            lemma_depth_concat(yl + op, yr);
            assert forall|k: int| 0 <= k <= y.len() implies depth(#[trigger] y.take(k)) >= 0 by {
                if k <= yl.len() {
                    assert(y.take(k) =~= yl.take(k));
                } else {
                    let j = k - yl.len() - 1;
                    assert(y.take(k) =~= (yl + op) + yr.take(j));
                    lemma_depth_concat(yl + op, yr.take(j));
                }
            }
        },
        AstType::Prefix(c, x) => {
            lemma_yield_balanced(*x);
            let yx = yield_of(*x);
            let op = seq![TokenType::OpSingle(c)];
            assert(c == '-');
            lemma_depth_single(TokenType::OpSingle(c));
            lemma_depth_concat(op, yx);
            assert forall|k: int| 0 <= k <= y.len() implies depth(#[trigger] y.take(k)) >= 0 by {
                if k == 0 {
                    assert(y.take(k) =~= Seq::<TokenType>::empty());
                    assert(depth(Seq::<TokenType>::empty()) == 0);
                } else {
                    assert(y.take(k) =~= op + yx.take(k - 1));
                    lemma_depth_concat(op, yx.take(k - 1));
                }
            }
        },
        AstType::Parens(x) => {
            lemma_yield_balanced(*x);
            let yx = yield_of(*x);
            lemma_depth_single(TokenType::OpSingle('('));
            lemma_depth_single(TokenType::OpSingle(')'));
            lemma_depth_concat(open, yx);
            lemma_depth_concat(open + yx, close);
            assert forall|k: int| 0 <= k <= y.len() implies depth(#[trigger] y.take(k)) >= 0 by {
                if k == 0 {
                    assert(y.take(k) =~= Seq::<TokenType>::empty());
                    assert(depth(Seq::<TokenType>::empty()) == 0);
                } else if k <= yx.len() + 1 {
                    assert(y.take(k) =~= open + yx.take(k - 1));
                    lemma_depth_concat(open, yx.take(k - 1));
                } else {
                    assert(y.take(k) =~= y);
                }
            }
        },
        _ => {},
    }
}

/// A token kind the lexer can give: its operators are `+ - * / ^ ( )`.
pub open spec fn lexable(t: TokenType) -> bool {
    t matches TokenType::OpSingle(c) ==> (binary_char(c) || c == '(' || c == ')')
}

/// Every syntax error is a true one: where `parse` fails on `s` naming a
/// token `tok` read after `toks`, those tokens begin no well-built tree's
/// tokens followed by the end, so no way of going on could have made the
/// input an expression.
pub proof fn lemma_syntax_error_is_genuine(
    s: Seq<u8>,
    ends: Seq<int>,
    exp: Expected,
    toks: Seq<Token>,
    tok: Token,
    t: AstNode,
)
    requires
        lexes(s, toks.push(tok), ends),
        misfit(exp, toks, tok),
        well_built(t),
    ensures
        !types(toks).push(tok.typ).is_prefix_of(yield_of(t).push(TokenType::End)),
{
    let k = toks.len() as int;
    assert(toks.push(tok)[k] == tok);
    assert(lexable(tok.typ));

    let read = types(toks);
    let y = yield_of(t);
    let full = y.push(TokenType::End);
    lemma_yield_shape(t);
    lemma_yield_balanced(t);
    match exp {
        Expected::Primary => {
            lemma_operand_due_is_error(read, tok.typ, t);
        },
        Expected::UnaryOperator => {
            lemma_operand_due_is_error(read, tok.typ, t);
        },
        Expected::End => {
            let t1 = choose|t1: AstNode| well_built(t1) && types(toks) == yield_of(t1);
            lemma_yield_shape(t1);
            lemma_yield_balanced(t1);
            if starts_operand(tok.typ) {
                lemma_operand_after_operand_is_error(read, tok.typ, t);
            } else if read.push(tok.typ).is_prefix_of(full) {
                let n = read.len() as int + 1;
                assert(tok.typ == TokenType::OpSingle(')'));
                assert(full[n - 1] == read.push(tok.typ)[n - 1]);
                assert(n <= y.len());
                assert(read.push(tok.typ) =~= y.take(n));
                lemma_depth_concat(read, seq![tok.typ]);
                lemma_depth_single(tok.typ);
                assert(read + seq![tok.typ] =~= read.push(tok.typ));
            }
        },
        Expected::CloseParen => {
            let (pre, t1) = choose|pre: Seq<TokenType>, t1: AstNode|
                well_built(t1) && types(toks) == pre + seq![TokenType::OpSingle('(')] + yield_of(t1);
            lemma_yield_shape(t1);
            lemma_yield_balanced(t1);
            let y1 = yield_of(t1);
            if starts_operand(tok.typ) {
                assert(read.last() == y1.last());
                lemma_operand_after_operand_is_error(read, tok.typ, t);
            } else if read.push(tok.typ).is_prefix_of(full) {
                let n = read.len() as int;
                assert(tok.typ is End);
                assert(full[n] == read.push(tok.typ)[n]);
                if n < y.len() {
                    assert(full[n] == y[n]);
                }
                assert(read =~= y) by {
                    assert forall|i: int| 0 <= i < n implies read[i] == y[i] by {
                        assert(full[i] == read.push(tok.typ)[i]);
                    }
                }
                assert(pre =~= y.take(pre.len() as int)) by {
                    assert forall|i: int| 0 <= i < pre.len() implies pre[i] == y[i] by {
                        assert(read[i] == pre[i]);
                    }
                }
                lemma_depth_single(TokenType::OpSingle('('));
                lemma_depth_concat(pre, seq![TokenType::OpSingle('(')]);
                lemma_depth_concat(pre + seq![TokenType::OpSingle('(')], y1);
            }
        },
    }
}

struct ShuntingYard<'a> {
    lexer: Lexer<'a>,
    next: Token,
    op_stack: Vec<Op>,
    exp_stack: Vec<AstNode>,
    /// The tokens stepped over so far.
    read: Ghost<Seq<Token>>,
    /// The offset at which each token read, and the lookahead, ends.
    ends: Ghost<Seq<int>>,
}

impl<'a> ShuntingYard<'a> {
    /// The tokens read, and the lookahead, are the start of the input's tokens.
    spec fn inv(&self) -> bool {
        &&& self.lexer.wf()
        &&& lexes(self.lexer.input(), self.read@.push(self.next), self.ends@)
        &&& self.ends@.last() == self.lexer.offset()
    }

    spec fn log(&self) -> Seq<TokenType> {
        types(self.read@)
    }

    spec fn logp(&self) -> Seq<Option<u32>> {
        positions(self.read@)
    }

    spec fn measure(&self) -> nat {
        (self.lexer.input().len() - self.lexer.offset() + if self.next.typ is End {
            0int
        } else {
            1int
        }) as nat
    }

    /// Steps over the lookahead token and returns it.
    fn consume(&mut self) -> (r: Result<Token, ParseError>)
        requires
            old(self).inv(),
            viable(old(self).log().push(old(self).next.typ)),
        ensures
            r is Err ==> r->Err_0 is Lex,
            r is Err ==> final(self).next == old(self).next,
            r is Err ==> exists|q: int|
                lexed(old(self).lexer.input(), old(self).lexer.offset() as int, q, r),
            r is Err ==> failure(old(self).lexer.input(), r->Err_0),
            final(self).lexer.input() == old(self).lexer.input(),
            r is Ok ==> r->Ok_0 == old(self).next && final(self).read@ == old(self).read@.push(
                old(self).next,
            ) && final(self).log() == old(self).log().push(old(self).next.typ) && final(self).logp()
                == old(self).logp().push(pos_of(old(self).next)),
            r is Err ==> final(self).read@ == old(self).read@,
            r is Ok ==> final(self).inv(),
            final(self).op_stack@ == old(self).op_stack@,
            final(self).exp_stack@ == old(self).exp_stack@,
            final(self).measure() <= old(self).measure(),
            r is Ok && !(old(self).next.typ is End) ==> final(self).measure() < old(self).measure(),
    {
        let ghost toks0 = self.read@.push(self.next);
        let ghost ends0 = self.ends@;
        let mut tok = match self.lexer.next_token() {
            Ok(t) => t,
            Err(e) => {
                proof {
                    assert(types(toks0) =~= types(self.read@).push(self.next.typ));
                    assert(lexes(self.lexer.input(), toks0, ends0) && lexed(
                        self.lexer.input(),
                        last_end(ends0),
                        self.lexer.offset() as int,
                        Err(e),
                    ) && viable(types(toks0)));
                }
                return Err(e);
            },
        };
        std::mem::swap(&mut self.next, &mut tok);
        proof {
            let old_read = self.read@;
            let old_ends = self.ends@;
            self.read@ = self.read@.push(tok);
            self.ends@ = self.ends@.push(self.lexer.offset() as int);
            assert(types(self.read@) =~= types(old_read).push(tok.typ));
            assert(positions(self.read@) =~= positions(old_read).push(pos_of(tok)));
            let toks = self.read@.push(self.next);
            assert forall|i: int| 0 <= i < toks.len() implies lexed(
                self.lexer.input(),
                if i == 0 {
                    0
                } else {
                    self.ends@[i - 1]
                },
                self.ends@[i],
                Ok(#[trigger] toks[i]),
            ) by {
                if i < toks.len() - 1 {
                    assert(toks[i] == old_read.push(tok)[i]);
                }
            }
        }
        Ok(tok)
    }

    /// The error for a group or prefix operator at the lookahead that nests
    /// too deep.
    fn too_deep(&self) -> (e: ParseError)
        requires
            self.inv(),
            self.next.typ == TokenType::OpSingle('(') || self.next.typ == TokenType::OpSingle('-'),
            expecting(self.op_stack@, self.exp_stack@),
            self.log() == pending(self.op_stack@, self.exp_stack@),
            nest_ops(self.op_stack@) >= MAX_DEPTH,
        ensures
            failure(self.lexer.input(), e),
            e == ParseError::TooDeep(self.next.pos),
    {
        proof {
            lemma_operand_due(self.op_stack@, self.exp_stack@);
            lemma_expecting_viable(self.op_stack@, self.exp_stack@);
            assert(lexes(self.lexer.input(), self.read@.push(self.next), self.ends@)
                && self.next.pos == self.next.pos && expecting(self.op_stack@, self.exp_stack@)
                && types(self.read@) == pending(self.op_stack@, self.exp_stack@) && nest_ops(
                self.op_stack@,
            ) >= MAX_DEPTH && viable(types(self.read@)));
        }
        ParseError::TooDeep(self.next.pos)
    }

    /// Whether the stack already holds `MAX_DEPTH` open groups and pending
    /// prefix operators. The parser recurses once for each of them, so this
    /// bounds its recursion.
    fn too_nested(&self) -> (b: bool)
        ensures
            b == (nest_ops(self.op_stack@) >= MAX_DEPTH),
    {
        let mut count: usize = 0;
        let mut i: usize = 0;
        while i < self.op_stack.len()
            invariant
                0 <= i <= self.op_stack@.len(),
                count == nest_ops(self.op_stack@.take(i as int)),
                count <= i,
            decreases self.op_stack@.len() - i,
        {
            proof {
                assert(self.op_stack@.take(i as int + 1).drop_last() =~= self.op_stack@.take(i as int));
            }
            match self.op_stack[i] {
                Op::Prefix(..) => count = count + 1,
                Op::Sentinel(_) => if i > 0 {
                    count = count + 1;
                },
                _ => {},
            }
            i = i + 1;
        }
        proof {
            assert(self.op_stack@.take(i as int) =~= self.op_stack@);
        }
        count >= MAX_DEPTH as usize
    }

    /// Hands out the lookahead token, leaving `End` in its place.
    fn take_next(&mut self) -> (t: Token)
        requires
            old(self).lexer.wf(),
        ensures
            t == old(self).next,
            final(self).next.typ is End,
            final(self).lexer == old(self).lexer,
            final(self).read == old(self).read,
            final(self).ends == old(self).ends,
            final(self).op_stack@ == old(self).op_stack@,
            final(self).exp_stack@ == old(self).exp_stack@,
            final(self).measure() <= old(self).measure(),
    {
        let mut t = Token { typ: TokenType::End, pos: 0 };
        std::mem::swap(&mut self.next, &mut t);
        t
    }

    /// Steps over the token that `e` names, or fails naming the token found.
    fn expect(&mut self, e: Expected) -> (r: Result<(), ParseError>)
        requires
            old(self).inv(),
            e is End || e is CloseParen,
            (e is End && old(self).next.typ is End || e is CloseParen && old(self).next.typ
                == TokenType::OpSingle(')')) ==> viable(old(self).log().push(old(self).next.typ)),
        ensures
            r is Err ==> r->Err_0 is Lex && failure(old(self).lexer.input(), r->Err_0) || r->Err_0
                == ParseError::Syntax(e, old(self).next) && (e is End ==> !(old(self).next.typ is End))
                && (e is CloseParen ==> old(self).next.typ != TokenType::OpSingle(')')),
            final(self).lexer.input() == old(self).lexer.input(),
            r is Ok ==> final(self).inv(),
            final(self).op_stack@ == old(self).op_stack@,
            final(self).exp_stack@ == old(self).exp_stack@,
            final(self).measure() <= old(self).measure(),
            r is Ok ==> (e is End ==> old(self).next.typ is End) && (e is CloseParen
                ==> old(self).next.typ == TokenType::OpSingle(')')),
            r is Ok ==> final(self).log() == old(self).log().push(old(self).next.typ),
            r is Ok ==> final(self).logp() == old(self).logp().push(pos_of(old(self).next)),
            r is Ok ==> final(self).read@ == old(self).read@.push(old(self).next),
            (e is End && old(self).next.typ is End || e is CloseParen && old(self).next.typ
                == TokenType::OpSingle(')')) ==> r is Ok || (r->Err_0 is Lex && exists|q: int|
                lexed(
                    old(self).lexer.input(),
                    old(self).lexer.offset() as int,
                    q,
                    Err::<Token, ParseError>(r->Err_0),
                )),
            !(e is End && old(self).next.typ is End || e is CloseParen && old(self).next.typ
                == TokenType::OpSingle(')')) ==> r == Err::<(), ParseError>(
                ParseError::Syntax(e, old(self).next),
            ) && final(self).lexer == old(self).lexer && final(self).read == old(self).read
                && final(self).ends == old(self).ends,
    {
        let found = match (&self.next.typ, e) {
            (TokenType::End, Expected::End) => true,
            (TokenType::OpSingle(')'), Expected::CloseParen) => true,
            _ => false,
        };
        if found {
            self.consume()?;
            Ok(())
        } else {
            Err(ParseError::Syntax(e, self.take_next()))
        }
    }

    /// Reduces the operator on top of the stack with its operands.
    fn pop_operator(&mut self)
        requires
            reduced(old(self).op_stack@, old(self).exp_stack@),
            old(self).op_stack@.len() >= 2,
            !(old(self).op_stack@.last() is Sentinel),
        ensures
            final(self).lexer == old(self).lexer,
            final(self).next == old(self).next,
            final(self).read == old(self).read,
            final(self).ends == old(self).ends,
            final(self).op_stack@ == old(self).op_stack@.drop_last(),
            reduced(final(self).op_stack@, final(self).exp_stack@),
            bind(final(self).exp_stack@.last()) == op_prec(old(self).op_stack@.last()),
            old(self).op_stack@.last() matches Op::Binary(c, p) ==> final(self).exp_stack@.last() == (
            AstNode {
                typ: AstType::Binary(
                    c,
                    Box::new(old(self).exp_stack@[old(self).exp_stack@.len() - 2]),
                    Box::new(old(self).exp_stack@.last()),
                ),
                pos: p,
            }),
            old(self).op_stack@.last() matches Op::Prefix(c, p) ==> final(self).exp_stack@.last() == (
            AstNode { typ: AstType::Prefix(c, Box::new(old(self).exp_stack@.last())), pos: p }),
            pending(final(self).op_stack@, final(self).exp_stack@) + yield_of(
                final(self).exp_stack@.last(),
            ) == pending(old(self).op_stack@, old(self).exp_stack@) + yield_of(
                old(self).exp_stack@.last(),
            ),
            pending_pos(final(self).op_stack@, final(self).exp_stack@) + yield_pos(
                final(self).exp_stack@.last(),
            ) == pending_pos(old(self).op_stack@, old(self).exp_stack@) + yield_pos(
                old(self).exp_stack@.last(),
            ),
            old(self).op_stack@.last() is Binary ==> old(self).exp_stack@.len() >= 2
                && final(self).exp_stack@ == old(self).exp_stack@.take(
                old(self).exp_stack@.len() - 2,
            ).push(final(self).exp_stack@.last()),
            old(self).op_stack@.last() is Prefix ==> final(self).exp_stack@ == old(
                self,
            ).exp_stack@.take(old(self).exp_stack@.len() - 1).push(final(self).exp_stack@.last()),
    {
        let ghost ops = self.op_stack@;
        let ghost exps = self.exp_stack@;
        proof {
            assert(valid_op(ops[ops.len() - 1]));
            lemma_nbin_push(ops.drop_last(), ops.last());
            assert(ops.drop_last().push(ops.last()) =~= ops);
        }
        let op = self.op_stack.pop().unwrap();
        let t = self.exp_stack.pop().unwrap();
        let x = match op {
            Op::Binary(ch, pos) => {
                let t0 = self.exp_stack.pop().unwrap();
                AstNode::new(AstType::Binary(ch, Box::new(t0), Box::new(t)), pos)
            },
            Op::Prefix(ch, pos) => AstNode::new(AstType::Prefix(ch, Box::new(t)), pos),
            Op::Postfix(ch, pos) => {
                // the grammar builds no postfix operator
                proof {
                    assert(false);
                }
                AstNode::new(AstType::Postfix(ch, Box::new(t)), pos)
            },
            Op::Sentinel(pos) => {
                // a sentinel on top ends reduction before this call
                proof {
                    assert(false);
                }
                AstNode::new(AstType::Parens(Box::new(t)), pos)
            },
        };
        proof {
            lemma_pop(ops, exps, x);
            if op is Binary {
                assert(exps.drop_last().drop_last() =~= exps.take(exps.len() - 2));
            } else {
                assert(exps.drop_last() =~= exps.take(exps.len() - 1));
            }
        }
        self.exp_stack.push(x);
    }

    /// Reduces the operators of the scope that bind tighter than the binary
    /// operator `op`, then pushes it.
    fn push_operator(&mut self, op: Op, Ghost(base): Ghost<Seq<Op>>, Ghost(base_exps): Ghost<Seq<AstNode>>)
        requires
            op is Binary ==> reduced(old(self).op_stack@, old(self).exp_stack@),
            op is Binary ==> scoped(base, base_exps, old(self).op_stack@, old(self).exp_stack@),
            op is Binary ==> bind(old(self).exp_stack@.last()) == 5,
            op is Prefix ==> expecting(old(self).op_stack@, old(self).exp_stack@),
            op is Binary || op is Prefix,
            valid_op(op),
        ensures
            final(self).lexer == old(self).lexer,
            final(self).next == old(self).next,
            final(self).read == old(self).read,
            final(self).ends == old(self).ends,
            expecting(final(self).op_stack@, final(self).exp_stack@),
            final(self).op_stack@.last() == op,
            op is Prefix ==> final(self).op_stack@ == old(self).op_stack@.push(op)
                && final(self).exp_stack@ == old(self).exp_stack@,
            op is Binary ==> scoped(base, base_exps, final(self).op_stack@, final(self).exp_stack@),
            op is Binary ==> pending(final(self).op_stack@, final(self).exp_stack@) == pending(
                old(self).op_stack@,
                old(self).exp_stack@,
            ) + yield_of(old(self).exp_stack@.last()) + seq![TokenType::OpSingle(op_char(op))],
            op is Binary ==> pending_pos(final(self).op_stack@, final(self).exp_stack@) == pending_pos(
                old(self).op_stack@,
                old(self).exp_stack@,
            ) + yield_pos(old(self).exp_stack@.last()) + seq![Some(op->Binary_1)],
            op is Binary ==> exists|k: int|
                1 <= k <= old(self).op_stack@.len() && final(self).op_stack@ == old(
                    self,
                ).op_stack@.take(k).push(op) && (forall|i: int|
                    k <= i < old(self).op_stack@.len() ==> greater(#[trigger] old(self).op_stack@[i], op))
                    && !greater(old(self).op_stack@[k - 1], op) && final(self).exp_stack@.take(
                    nbin(old(self).op_stack@.take(k)) as int,
                ) == old(self).exp_stack@.take(nbin(old(self).op_stack@.take(k)) as int),
    {
        if let Op::Prefix(..) = op {
            // A prefix operator has no left operand, so nothing on the stack
            // is due for reduction before it. The rule for binary operators
            // would reduce a `^` on top here, before its right operand exists.
            let ghost ops = self.op_stack@;
            self.op_stack.push(op);
            proof {
                let o = self.op_stack@;
                lemma_nbin_push(ops, op);
                assert forall|j: int| 0 <= j < ops.len() implies #[trigger] o.take(j) == ops.take(j) by {
                    assert(o.take(j) =~= ops.take(j));
                }
            }
            return;
        }
        loop
            invariant
                reduced(self.op_stack@, self.exp_stack@),
                scoped(base, base_exps, self.op_stack@, self.exp_stack@),
                self.lexer == old(self).lexer,
                self.next == old(self).next,
                self.read == old(self).read,
                self.ends == old(self).ends,
                op is Binary,
                valid_op(op),
                left_fits(op_char(op), self.exp_stack@.last()),
                pending(self.op_stack@, self.exp_stack@) + yield_of(self.exp_stack@.last()) == pending(
                    old(self).op_stack@,
                    old(self).exp_stack@,
                ) + yield_of(old(self).exp_stack@.last()),
                pending_pos(self.op_stack@, self.exp_stack@) + yield_pos(self.exp_stack@.last())
                    == pending_pos(old(self).op_stack@, old(self).exp_stack@) + yield_pos(
                    old(self).exp_stack@.last(),
                ),
                1 <= self.op_stack@.len() <= old(self).op_stack@.len(),
                old(self).exp_stack@.len() == nbin(old(self).op_stack@) + 1,
                self.op_stack@ == old(self).op_stack@.take(self.op_stack@.len() as int),
                forall|i: int|
                    self.op_stack@.len() <= i < old(self).op_stack@.len() ==> greater(
                        #[trigger] old(self).op_stack@[i],
                        op,
                    ),
                self.exp_stack@.take(nbin(self.op_stack@) as int) == old(self).exp_stack@.take(
                    nbin(self.op_stack@) as int,
                ),
            ensures
                reduced(self.op_stack@, self.exp_stack@),
                scoped(base, base_exps, self.op_stack@, self.exp_stack@),
                self.lexer == old(self).lexer,
                self.next == old(self).next,
                self.read == old(self).read,
                self.ends == old(self).ends,
                left_fits(op_char(op), self.exp_stack@.last()),
                !greater(self.op_stack@.last(), op),
                pending(self.op_stack@, self.exp_stack@) + yield_of(self.exp_stack@.last()) == pending(
                    old(self).op_stack@,
                    old(self).exp_stack@,
                ) + yield_of(old(self).exp_stack@.last()),
                pending_pos(self.op_stack@, self.exp_stack@) + yield_pos(self.exp_stack@.last())
                    == pending_pos(old(self).op_stack@, old(self).exp_stack@) + yield_pos(
                    old(self).exp_stack@.last(),
                ),
                1 <= self.op_stack@.len() <= old(self).op_stack@.len(),
                old(self).exp_stack@.len() == nbin(old(self).op_stack@) + 1,
                self.op_stack@ == old(self).op_stack@.take(self.op_stack@.len() as int),
                forall|i: int|
                    self.op_stack@.len() <= i < old(self).op_stack@.len() ==> greater(
                        #[trigger] old(self).op_stack@[i],
                        op,
                    ),
                self.exp_stack@.take(nbin(self.op_stack@) as int) == old(self).exp_stack@.take(
                    nbin(self.op_stack@) as int,
                ),
            decreases self.op_stack@.len(),
        {
            let ghost ops = self.op_stack@;
            let ghost exps = self.exp_stack@;
            let top = self.op_stack.len() - 1;
            proof {
                assert(valid_op(ops[top as int]));
            }
            if !has_greater_prec(&self.op_stack[top], &op) {
                break;
            }
            proof {
                lemma_pop_scoped(base, base_exps, ops, exps);
            }
            self.pop_operator();
            proof {
                let o = self.op_stack@;
                let e = self.exp_stack@;
                assert(o.take(base.len() as int) =~= ops.take(base.len() as int));
                assert(o =~= old(self).op_stack@.take(o.len() as int));
                lemma_nbin_push(o, ops.last());
                assert(o.push(ops.last()) =~= ops);
                assert(e.take(nbin(o) as int) =~= exps.take(nbin(o) as int));
                assert(exps.take(nbin(o) as int) =~= exps.take(nbin(ops) as int).take(nbin(o) as int));
                lemma_nbin_take_mono(old(self).op_stack@, ops.len() as int, old(self).op_stack@.len() as int);
                assert(old(self).op_stack@.take(old(self).op_stack@.len() as int) =~= old(self).op_stack@);
                assert(old(self).exp_stack@.take(nbin(o) as int) =~= old(self).exp_stack@.take(
                    nbin(ops) as int,
                ).take(nbin(o) as int));
                if ops.last() is Binary {
                    assert(e.take(base_exps.len() as int) =~= exps.take(base_exps.len() as int));
                } else {
                    assert(e.take(base_exps.len() as int) =~= exps.take(base_exps.len() as int));
                }
            }
        }
        let ghost ops = self.op_stack@;
        let ghost exps = self.exp_stack@;
        self.op_stack.push(op);
        proof {
            let o = self.op_stack@;
            let k = ops.len() as int;
            assert(ops =~= old(self).op_stack@.take(k));
            assert(ops[k - 1] == old(self).op_stack@[k - 1]);
            lemma_nbin_push(ops, op);
            lemma_pending_push(ops, op, exps);
            assert(o.take(base.len() as int) =~= ops.take(base.len() as int));
            assert(o.take(ops.len() as int) =~= ops);
            assert forall|j: int| 0 <= j < ops.len() implies #[trigger] o.take(j) == ops.take(j) by {
                assert(o.take(j) =~= ops.take(j));
            }
            assert(ops =~= ops.take(ops.len() as int));
        }
    }

    /// E --> P {B P}: leaves the scope's operators as they were and one
    /// more tree on the expression stack.
    fn parse_e(&mut self) -> (r: Result<(), ParseError>)
        requires
            old(self).inv(),
            expecting(old(self).op_stack@, old(self).exp_stack@),
            old(self).op_stack@.last() is Sentinel,
            old(self).log() == pending(old(self).op_stack@, old(self).exp_stack@),
            old(self).logp() == pending_pos(old(self).op_stack@, old(self).exp_stack@),
        ensures
            r is Err ==> failure(old(self).lexer.input(), r->Err_0),
            final(self).lexer.input() == old(self).lexer.input(),
            r is Ok ==> final(self).inv(),
            final(self).measure() <= old(self).measure(),
            r is Ok ==> {
                &&& final(self).op_stack@ == old(self).op_stack@
                &&& final(self).exp_stack@.len() == old(self).exp_stack@.len() + 1
                &&& final(self).exp_stack@.take(old(self).exp_stack@.len() as int) == old(
                    self,
                ).exp_stack@
                &&& well_built(final(self).exp_stack@.last())
                &&& final(self).log() == pending(old(self).op_stack@, old(self).exp_stack@)
                    + yield_of(final(self).exp_stack@.last())
                &&& final(self).logp() == pending_pos(old(self).op_stack@, old(self).exp_stack@)
                    + yield_pos(final(self).exp_stack@.last())
                &&& !binary_token(final(self).next.typ)
            },
        decreases old(self).measure(), 1int,
    {
        let ghost base = self.op_stack@;
        let ghost base_exps = self.exp_stack@;
        proof {
            assert(base.take(base.len() as int) =~= base);
            assert(base_exps.take(base_exps.len() as int) =~= base_exps);
        }
        self.parse_p()?;
        proof {
            self.lemma_after_p(base, base_exps, base, base_exps);
        }
        loop
            invariant
                self.inv(),
                self.lexer.input() == old(self).lexer.input(),
                self.measure() <= old(self).measure(),
                reduced(self.op_stack@, self.exp_stack@),
                scoped(base, base_exps, self.op_stack@, self.exp_stack@),
                bind(self.exp_stack@.last()) == 5,
                self.log() == pending(self.op_stack@, self.exp_stack@) + yield_of(self.exp_stack@.last()),
                self.logp() == pending_pos(self.op_stack@, self.exp_stack@) + yield_pos(self.exp_stack@.last()),
            ensures
                self.inv(),
                self.lexer.input() == old(self).lexer.input(),
                self.measure() <= old(self).measure(),
                reduced(self.op_stack@, self.exp_stack@),
                scoped(base, base_exps, self.op_stack@, self.exp_stack@),
                self.log() == pending(self.op_stack@, self.exp_stack@) + yield_of(self.exp_stack@.last()),
                self.logp() == pending_pos(self.op_stack@, self.exp_stack@) + yield_pos(self.exp_stack@.last()),
                !binary_token(self.next.typ),
            decreases self.measure(),
        {
            let (ch, pos) = match &self.next.typ {
                TokenType::OpSingle(c) => (*c, self.next.pos),
                _ => break,
            };
            if !is_binary(ch) {
                break;
            }
            let ghost log0 = self.log();
            let ghost logp0 = self.logp();
            self.push_operator(Op::Binary(ch, pos), Ghost(base), Ghost(base_exps));
            let ghost ops1 = self.op_stack@;
            let ghost exps1 = self.exp_stack@;
            proof {
                lemma_expecting_viable(ops1, exps1);
                assert(log0 + seq![TokenType::OpSingle(ch)] =~= self.log().push(self.next.typ));
            }
            self.consume()?;
            proof {
                assert(self.log() =~= log0 + seq![TokenType::OpSingle(ch)]);
                assert(self.logp() =~= logp0 + seq![Some(pos)]);
            }
            self.parse_p()?;
            proof {
                self.lemma_after_p(ops1, exps1, base, base_exps);
            }
        }
        while !is_sentinel(&self.op_stack.last())
            invariant
                self.inv(),
                self.lexer.input() == old(self).lexer.input(),
                self.measure() <= old(self).measure(),
                reduced(self.op_stack@, self.exp_stack@),
                scoped(base, base_exps, self.op_stack@, self.exp_stack@),
                self.log() == pending(self.op_stack@, self.exp_stack@) + yield_of(self.exp_stack@.last()),
                self.logp() == pending_pos(self.op_stack@, self.exp_stack@) + yield_pos(self.exp_stack@.last()),
                !binary_token(self.next.typ),
            decreases self.op_stack@.len(),
        {
            let ghost ops = self.op_stack@;
            let ghost exps = self.exp_stack@;
            proof {
                lemma_pop_scoped(base, base_exps, ops, exps);
            }
            self.pop_operator();
            proof {
                let o = self.op_stack@;
                let e = self.exp_stack@;
                assert(o.take(base.len() as int) =~= ops.take(base.len() as int));
                assert(e.take(base_exps.len() as int) =~= exps.take(base_exps.len() as int));
            }
        }
        proof {
            let ops = self.op_stack@;
            let exps = self.exp_stack@;
            if ops.len() > base.len() {
                assert(!(ops[ops.len() - 1] is Sentinel));
            }
            assert(ops =~= ops.take(base.len() as int));
            assert(exps.take(base_exps.len() as int) == base_exps);
            assert(well_built(exps[exps.len() - 1]));
            lemma_pending_agree(base, base_exps, exps);
        }
        Ok(())
    }

    /// What holds after a primary expression parsed on the stacks `ops`,
    /// `exps`, which were awaiting one within the scope of `base`.
    proof fn lemma_after_p(&self, ops: Seq<Op>, exps: Seq<AstNode>, base: Seq<Op>, base_exps: Seq<AstNode>)
        requires
            expecting(ops, exps),
            scoped(base, base_exps, ops, exps),
            prefixes_on(ops, self.op_stack@),
            self.exp_stack@.len() == exps.len() + 1,
            self.exp_stack@.take(exps.len() as int) == exps,
            reduced(self.op_stack@, self.exp_stack@),
        ensures
            scoped(base, base_exps, self.op_stack@, self.exp_stack@),
    {
        let o = self.op_stack@;
        let e = self.exp_stack@;
        assert(o.take(base.len() as int) =~= ops.take(base.len() as int));
        assert(e.take(base_exps.len() as int) =~= exps.take(base_exps.len() as int));
        assert forall|i: int| base.len() <= i < o.len() implies !(#[trigger] o[i] is Sentinel) by {
            if i < ops.len() {
                assert(o[i] == o.take(ops.len() as int)[i]);
            }
        }
    }

    /// P --> v | "(" E ")" | U P: pushes the prefix operators it meets and
    /// then one leaf or group.
    fn parse_p(&mut self) -> (r: Result<(), ParseError>)
        requires
            old(self).inv(),
            expecting(old(self).op_stack@, old(self).exp_stack@),
            old(self).log() == pending(old(self).op_stack@, old(self).exp_stack@),
            old(self).logp() == pending_pos(old(self).op_stack@, old(self).exp_stack@),
        ensures
            (old(self).next.typ == TokenType::OpSingle('(') || old(self).next.typ
                == TokenType::OpSingle('-')) && nest_ops(old(self).op_stack@) >= MAX_DEPTH ==> r
                == Err::<(), ParseError>(ParseError::TooDeep(old(self).next.pos)),
            old(self).next.typ matches TokenType::Number(v) ==> r is Ok ==> final(self).exp_stack@.last()
                == (AstNode { typ: AstType::Number(v), pos: old(self).next.pos }),
            old(self).next.typ matches TokenType::Ident(n) ==> r is Ok ==> final(self).exp_stack@.last()
                == (AstNode { typ: AstType::Ident(n), pos: old(self).next.pos }),
            old(self).next.typ == TokenType::OpSingle('(') ==> r is Ok ==> (final(self).exp_stack@.last().typ is Parens
                && final(self).exp_stack@.last().pos == old(self).next.pos),
            old(self).next.typ is End ==> r == Err::<(), ParseError>(
                ParseError::Syntax(Expected::Primary, old(self).next),
            ),
            (old(self).next.typ matches TokenType::OpSingle(c) && c != '(' && c != '-') ==> r == Err::<
                (),
                ParseError,
            >(ParseError::Syntax(Expected::UnaryOperator, old(self).next)),
            (old(self).next.typ is End || (old(self).next.typ matches TokenType::OpSingle(c) && c
                != '(' && c != '-')) ==> final(self).op_stack@ == old(self).op_stack@
                && final(self).exp_stack@ == old(self).exp_stack@ && final(self).read == old(self).read
                && final(self).ends == old(self).ends && final(self).lexer == old(self).lexer
                && final(self).next == old(self).next,
            (old(self).next.typ is Number || old(self).next.typ is Ident) ==> r is Ok || (
            r->Err_0 is Lex && exists|q: int|
                lexed(
                    old(self).lexer.input(),
                    old(self).lexer.offset() as int,
                    q,
                    Err::<Token, ParseError>(r->Err_0),
                )),
            r is Err ==> failure(old(self).lexer.input(), r->Err_0),
            final(self).lexer.input() == old(self).lexer.input(),
            r is Ok ==> final(self).inv(),
            final(self).measure() <= old(self).measure(),
            r is Ok ==> {
                &&& final(self).log() == pending(final(self).op_stack@, final(self).exp_stack@)
                    + yield_of(final(self).exp_stack@.last())
                &&& final(self).logp() == pending_pos(final(self).op_stack@, final(self).exp_stack@)
                    + yield_pos(final(self).exp_stack@.last())
                &&& prefixes_on(old(self).op_stack@, final(self).op_stack@)
                &&& final(self).exp_stack@.len() == old(self).exp_stack@.len() + 1
                &&& final(self).exp_stack@.take(old(self).exp_stack@.len() as int) == old(
                    self,
                ).exp_stack@
                &&& bind(final(self).exp_stack@.last()) == 5
                &&& reduced(final(self).op_stack@, final(self).exp_stack@)
            },
        decreases old(self).measure(), 0int,
    {
        let ghost ops = self.op_stack@;
        let ghost exps = self.exp_stack@;
        let pos = self.next.pos;
        let x = match &self.next.typ {
            TokenType::Number(v) => {
                let v = *v;
                proof {
                    let a = AstNode { typ: AstType::Number(v), pos };
                    lemma_push_atom(ops, exps, a);
                    lemma_reduced_viable(ops, exps.push(a));
                    assert(pending(ops, exps.push(a)) + yield_of(a) =~= self.log().push(self.next.typ));
                }
                self.consume()?;
                proof {
                    assert(self.logp() =~= pending_pos(ops, exps) + seq![Some(pos)]);
                }
                AstNode::new(AstType::Number(v), pos)
            },
            TokenType::Ident(_) => {
                proof {
                    let a = AstNode { typ: AstType::Ident(self.next.typ->Ident_0), pos };
                    lemma_push_atom(ops, exps, a);
                    lemma_reduced_viable(ops, exps.push(a));
                    assert(pending(ops, exps.push(a)) + yield_of(a) =~= self.log().push(self.next.typ));
                }
                let tok = self.consume()?;
                proof {
                    assert(self.logp() =~= pending_pos(ops, exps) + seq![Some(pos)]);
                }
                let name = match tok.typ {
                    TokenType::Ident(name) => name,
                    _ => {
                        proof {
                            assert(false);
                        }
                        Vec::new()
                    },
                };
                AstNode::new(AstType::Ident(name), pos)
            },
            TokenType::OpSingle('(') => {
                if self.too_nested() {
                    return Err(self.too_deep());
                }
                let ghost log0 = self.log();
                proof {
                    lemma_push_open(ops, exps, Op::Sentinel(pos));
                    lemma_pending_push(ops, Op::Sentinel(pos), exps);
                    lemma_expecting_viable(ops.push(Op::Sentinel(pos)), exps);
                    assert(pending(ops.push(Op::Sentinel(pos)), exps) =~= self.log().push(self.next.typ));
                }
                self.consume()?;
                proof {
                    assert(self.log() =~= log0 + seq![TokenType::OpSingle('(')]);
                    assert(self.logp() =~= pending_pos(ops, exps) + seq![Some(pos)]);
                }
                self.op_stack.push(Op::Sentinel(pos));
                proof {
                    assert(self.op_stack@.drop_last() =~= ops);
                    lemma_nbin_push(ops, Op::Sentinel(pos));
                    lemma_pending_push(ops, Op::Sentinel(pos), exps);
                    let o = self.op_stack@;
                    assert forall|j: int| 0 <= j < ops.len() implies #[trigger] o.take(j) == ops.take(j) by {
                        assert(o.take(j) =~= ops.take(j));
                    }
                }
                self.parse_e()?;
                let ghost toks1 = self.read@;
                let ghost ends1 = self.ends@;
                let ghost tok1 = self.next;
                let ghost inner = self.exp_stack@.last();
                proof {
                    let pa = AstNode { typ: AstType::Parens(Box::new(inner)), pos };
                    lemma_push_atom(ops, exps, pa);
                    lemma_reduced_viable(ops, exps.push(pa));
                    let l = self.log();
                    assert(l =~= pending(ops, exps) + seq![TokenType::OpSingle('(')] + yield_of(inner));
                    assert(pending(ops, exps.push(pa)) + yield_of(pa) =~= l + seq![TokenType::OpSingle(')')]);
                    lemma_viable_prefix(l, seq![TokenType::OpSingle(')')]);
                    assert(l + seq![TokenType::OpSingle(')')] =~= l.push(TokenType::OpSingle(')')));
                }
                match self.expect(Expected::CloseParen) {
                    Ok(()) => {},
                    Err(e) => {
                        proof {
                            if e is Syntax {
                                let pre = pending(ops, exps);
                                assert(well_built(inner) && types(toks1) == pre + seq![
                                    TokenType::OpSingle('('),
                                ] + yield_of(inner));
                                assert(lexes(self.lexer.input(), toks1.push(tok1), ends1) && misfit(
                                    Expected::CloseParen,
                                    toks1,
                                    tok1,
                                ));
                            }
                        }
                        return Err(e);
                    },
                }
                self.op_stack.pop();
                let t = self.exp_stack.pop().unwrap();
                proof {
                    assert(self.op_stack@ =~= ops);
                    assert(self.exp_stack@ =~= exps);
                    assert(self.log() =~= pending(ops, exps) + (seq![TokenType::OpSingle('(')]
                        + yield_of(t) + seq![TokenType::OpSingle(')')]));
                    assert(self.logp() =~= pending_pos(ops, exps) + (seq![Some(pos)] + yield_pos(t)
                        + seq![None]));
                }
                AstNode::new(AstType::Parens(Box::new(t)), pos)
            },
            TokenType::OpSingle(c) => {
                let ch = *c;
                proof {
                    lemma_operand_due(ops, exps);
                }
                if is_prefix(ch) && self.too_nested() {
                    return Err(self.too_deep());
                }
                if !is_prefix(ch) {
                    let tok = Token { typ: TokenType::OpSingle(ch), pos };
                    proof {
                        lemma_expecting_viable(ops, exps);
                        assert(tok == self.next);
                        assert(lexes(self.lexer.input(), self.read@.push(tok), self.ends@) && misfit(
                            Expected::UnaryOperator,
                            self.read@,
                            tok,
                        ));
                    }
                    return Err(ParseError::Syntax(Expected::UnaryOperator, tok));
                }
                self.push_operator(Op::Prefix(ch, pos), Ghost(ops), Ghost(exps));
                proof {
                    assert(self.op_stack@.drop_last() =~= ops);
                    lemma_nbin_push(ops, Op::Prefix(ch, pos));
                    lemma_pending_push(ops, Op::Prefix(ch, pos), exps);
                    let o = self.op_stack@;
                    assert forall|j: int| 0 <= j < ops.len() implies #[trigger] o.take(j) == ops.take(j) by {
                        assert(o.take(j) =~= ops.take(j));
                    }
                }
                let ghost ops1 = self.op_stack@;
                let ghost log0 = self.log();
                proof {
                    lemma_expecting_viable(ops1, exps);
                    assert(pending(ops1, exps) =~= self.log().push(self.next.typ));
                }
                self.consume()?;
                proof {
                    assert(self.log() =~= log0 + seq![TokenType::OpSingle(ch)]);
                    assert(self.logp() =~= pending_pos(ops, exps) + seq![Some(pos)]);
                }
                self.parse_p()?;
                proof {
                    let o = self.op_stack@;
                    assert(o.take(ops.len() as int) =~= ops1.take(ops.len() as int));
                    assert(ops1.take(ops.len() as int) =~= ops);
                    assert forall|i: int| ops.len() <= i < o.len() implies #[trigger] o[i] is Prefix by {
                        if i < ops1.len() {
                            assert(o[i] == o.take(ops1.len() as int)[i]);
                        }
                    }
                }
                return Ok(());
            },
            TokenType::End => {
                proof {
                    lemma_operand_due(ops, exps);
                }
                let tok = Token { typ: TokenType::End, pos };
                proof {
                    lemma_expecting_viable(ops, exps);
                    assert(tok == self.next);
                    assert(lexes(self.lexer.input(), self.read@.push(tok), self.ends@) && misfit(
                        Expected::Primary,
                        self.read@,
                        tok,
                    ));
                }
                return Err(ParseError::Syntax(Expected::Primary, tok));
            },
        };
        self.exp_stack.push(x);
        proof {
            let o = self.op_stack@;
            let e = self.exp_stack@;
            assert(o.take(ops.len() as int) =~= ops);
            assert(e.take(exps.len() as int) =~= exps);
            assert(o =~= ops);
            lemma_pending_agree(ops, exps, e);
        }
        Ok(())
    }

    /// Parses the whole input. On success the expression stack held exactly
    /// the returned tree, and the operator stack its outer sentinel alone.
    fn parse(&mut self) -> (r: Result<AstNode, ParseError>)
        requires
            old(self).inv(),
            old(self).op_stack@.len() == 1,
            old(self).op_stack@[0] is Sentinel,
            old(self).exp_stack@.len() == 0,
            old(self).read@ == Seq::<Token>::empty(),
        ensures
            r is Err ==> failure(old(self).lexer.input(), r->Err_0),
            final(self).lexer.input() == old(self).lexer.input(),
            r matches Ok(t) ==> {
                &&& well_built(t)
                &&& final(self).op_stack@ == old(self).op_stack@
                &&& final(self).exp_stack@.len() == 0
                &&& final(self).log() == yield_of(t).push(TokenType::End)
                &&& final(self).logp().drop_last() == yield_pos(t)
                &&& final(self).inv()
            },
    {
        proof {
            lemma_nbin_push(Seq::<Op>::empty(), self.op_stack@[0]);
            lemma_pending_push(Seq::<Op>::empty(), self.op_stack@[0], self.exp_stack@);
            assert(self.log() =~= Seq::<TokenType>::empty());
            assert(self.logp() =~= Seq::<Option<u32>>::empty());
            assert(Seq::<Op>::empty().push(self.op_stack@[0]) =~= self.op_stack@);
            assert(self.op_stack@.take(0) =~= Seq::<Op>::empty());
        }
        self.parse_e()?;
        proof {
            let t = self.exp_stack@.last();
            let l = self.log().push(TokenType::End);
            assert(self.log() =~= yield_of(t));
            assert(l.is_prefix_of(yield_of(t).push(TokenType::End))) by {
                assert(l =~= yield_of(t).push(TokenType::End).subrange(0, l.len() as int));
            }
            assert(self.log() + seq![TokenType::End] =~= l);
            lemma_viable_prefix(self.log(), seq![TokenType::End]);
        }
        self.expect(Expected::End)?;
        proof {
            assert(self.exp_stack@.len() == 1);
            assert(self.op_stack@.len() == 1);
            assert(well_built(self.exp_stack@[0]));
            assert(self.log() =~= yield_of(self.exp_stack@[0]).push(TokenType::End));
            assert(self.logp().drop_last() =~= yield_pos(self.exp_stack@[0]));
        }
        Ok(self.exp_stack.pop().unwrap())
    }
}

/// Parses `text` by the grammar
///   E --> P {B P},  P --> v | "(" E ")" | U P,
///   B --> "+" | "-" | "*" | "/" | "^",  U --> "-",
/// where `v` is a number or an identifier, with the shunting-yard
/// algorithm. On success the input's tokens are exactly those of the tree
/// and then the end; the tree holds only the grammar's operators, and each
/// operand stands where the precedence table and associativity put it.
/// An error says where the input went wrong (see `failure`); groups and
/// prefix operators may nest `MAX_DEPTH` deep.
pub fn parse(text: &str) -> (r: Result<AstNode, ParseError>)
    ensures
        r matches Ok(t) ==> {
            &&& well_built(t)
            &&& exists|toks: Seq<Token>, ends: Seq<int>|
                lexes(text.spec_bytes(), toks, ends) && types(toks) == yield_of(t).push(
                    TokenType::End,
                ) && positions(toks).drop_last() == yield_pos(t)
        },
        (r == Err::<AstNode, ParseError>(ParseError::TooLong)) <==> text.spec_bytes().len() > u32::MAX,
        r matches Err(e) ==> e is TooLong || failure(text.spec_bytes(), e),
{
    if text.as_bytes().len() > u32::MAX as usize {
        return Err(ParseError::TooLong);
    }
    let mut lexer = Lexer::new(text);
    let next = match lexer.next_token() {
        Ok(tok) => tok,
        Err(e) => {
            proof {
                let none = Seq::<Token>::empty();
                let no_ends = Seq::<int>::empty();
                let a = AstNode { typ: AstType::Number(0), pos: 0 };
                assert(types(none) =~= Seq::<TokenType>::empty());
                assert(types(none).is_prefix_of(yield_of(a).push(TokenType::End)));
                assert(well_built(a));
                assert(lexes(text.spec_bytes(), none, no_ends) && lexed(
                    text.spec_bytes(),
                    last_end(no_ends),
                    lexer.offset() as int,
                    Err(e),
                ) && viable(types(none)));
            }
            return Err(e);
        },
    };
    let mut op_stack: Vec<Op> = Vec::new();
    op_stack.push(Op::Sentinel(u32::MAX));
    let ghost_ends: Ghost<Seq<int>> = Ghost(Seq::empty().push(lexer.offset() as int));
    let mut yard = ShuntingYard {
        lexer,
        next,
        op_stack,
        exp_stack: Vec::new(),
        read: Ghost(Seq::empty()),
        ends: ghost_ends,
    };
    proof {
        let toks = yard.read@.push(yard.next);
        assert(toks[0] == yard.next);
    }
    let r = yard.parse();
    proof {
        if r is Ok {
            let toks = yard.read@;
            let ends = yard.ends@.drop_last();
            let all = yard.read@.push(yard.next);
            assert forall|i: int| 0 <= i < toks.len() implies lexed(
                text.spec_bytes(),
                if i == 0 {
                    0
                } else {
                    ends[i - 1]
                },
                ends[i],
                Ok(#[trigger] toks[i]),
            ) by {
                assert(all[i] == toks[i]);
            }
            assert(lexes(text.spec_bytes(), toks, ends));
        }
    }
    r
}

} // verus!
