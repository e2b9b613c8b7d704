//! That constant expressions fold to what they compute.
use vstd::prelude::*;

use crate::ast::BinaryOperatorExpression;
use crate::ast::Constant;
use crate::ast::Expression;
use crate::ast::Integer;
use crate::cterm::apply;
use crate::cterm::bool_to_bv;
use crate::cterm::bv_to_bool;
use crate::cterm::cast_to;
use crate::cterm::converted;
use crate::cterm::promoted;
use crate::cterm::resized;
use crate::cterm::term_operator;
use crate::cterm::truth;
use crate::cterm::value_i32;
use crate::cterm::COp;
use crate::cterm::CTerm;
use crate::cterm::CTermData;
use crate::error::CError;
use crate::ir::folded;
use crate::ir::lemma_constant_is_meaning;
use crate::ir::lemma_of;
use crate::ir::lit_bv;
use crate::ir::term_not;
use crate::ir::term_op;
use crate::ir::wrap;
use crate::ir::MAX_CONST_WIDTH;
use crate::ir::Node;
use crate::ir::Op;
use crate::ir::Term;
use crate::ir::Value;
use crate::kept::Env;
use crate::number::literal;
use crate::number::literal_width;
use crate::number::number;
use crate::runs::eval;
use crate::runs::keyword;
use crate::runs::law_expression_computes;
use crate::runs::lemma_keyword;
use crate::runs::lemma_literal_number;
use crate::runs::machine;
use crate::runs::sign;
use crate::runs::whole;
use crate::translate::binary;
use crate::translate::expr;
use crate::translate::folded_i32;
use crate::translate::operated;
use crate::translate::GenState;
use crate::types::Ty;
use crate::values::is_shift;
use crate::values::lemma_modulus;
use crate::values::Num;
use crate::wellformed::circ_wf;
use crate::wellformed::law_expression_keeps_well_formed;

verus! {

/// Whether an expression is made of literals, operators and casts alone.
pub open spec fn is_closed(e: Expression) -> bool
    decreases e,
{
    match e {
        Expression::Constant(_) => true,
        Expression::BinaryOperator(b) => is_closed(b.lhs) && is_closed(b.rhs),
        Expression::Cast(c) => is_closed(c.expression),
        _ => false,
    }
}

/// Whether a term carries a constant of the given width.
spec fn carries(t: Term, w: usize) -> bool {
    0 < w <= MAX_CONST_WIDTH && (t.constant() matches Some(Value::Bv(v, _)) && v == w)
}

/// Whether a term carries a truth value.
spec fn carries_truth(t: Term) -> bool {
    t.constant() matches Some(Value::Bool(_))
}

/// Whether the term of a number or truth value carries its constant.
spec fn is_constant(v: CTerm) -> bool {
    match v.term {
        CTermData::CBool(t) => carries_truth(t),
        CTermData::CInt(_, w, t) => carries(t, w),
        _ => false,
    }
}

/// A literal carries its number.
proof fn lemma_literal_carries(n: int, w: usize)
    requires
        0 < w <= MAX_CONST_WIDTH,
    ensures
        carries(lit_bv(n, w), w),
{
    lemma_of(Node::Const(Value::Bv(w, wrap(n, w))));
}

/// Whether an operator on terms gives a truth value.
spec fn compares(op: Op) -> bool {
    op == Op::BvUlt || op == Op::BvUle || op == Op::BvUgt || op == Op::BvUge || op == Op::Eq
}

proof fn lemma_op_carries(op: Op, x: Term, y: Term, w: usize)
    requires
        carries(x, w),
        carries(y, w),
        op != Op::And,
        op != Op::Or,
    ensures
        compares(op) ==> carries_truth(term_op(op, x, y)),
        !compares(op) ==> carries(term_op(op, x, y), w),
{
    lemma_of(Node::Op(op, x, y));
}

proof fn lemma_truth_op_carries(op: Op, x: Term, y: Term)
    requires
        carries_truth(x),
        carries_truth(y),
        op == Op::And || op == Op::Or || op == Op::Eq,
    ensures
        carries_truth(term_op(op, x, y)),
{
    lemma_of(Node::Op(op, x, y));
}

proof fn lemma_not_carries(x: Term)
    requires
        carries_truth(x),
    ensures
        carries_truth(term_not(x)),
{
    lemma_of(Node::Not(x));
}

proof fn lemma_bool_to_bv_carries(t: Term, w: usize)
    requires
        carries_truth(t),
        0 < w <= MAX_CONST_WIDTH,
    ensures
        carries(bool_to_bv(t, w), w),
{
    lemma_literal_carries(0, w);
    lemma_literal_carries(1, w);
    lemma_of(Node::Ite(t, lit_bv(1, w), lit_bv(0, w)));
}

proof fn lemma_bv_to_bool_carries(t: Term, w: usize)
    requires
        carries(t, w),
    ensures
        carries_truth(bv_to_bool(t, w)),
{
    lemma_literal_carries(0, w);
    lemma_op_carries(Op::Eq, lit_bv(0, w), t, w);
    lemma_not_carries(term_op(Op::Eq, lit_bv(0, w), t));
}

proof fn lemma_resized_carries(s: bool, w: usize, t: Term, v: usize)
    requires
        carries(t, w),
        0 < v <= MAX_CONST_WIDTH,
    ensures
        carries(resized(s, w, t, v), v),
{
    lemma_of(Node::SignExt(v, t));
    lemma_of(Node::ZeroExt(v, t));
    lemma_of(Node::Truncate(v, t));
}

proof fn lemma_converted_carries(a: CTerm, b: CTerm)
    requires
        is_constant(a),
        is_constant(b),
    ensures
        converted(a, b) matches Some((_, w, x, y)) && carries(x, w) && carries(y, w),
{
    match a.term {
        CTermData::CBool(t) => lemma_bool_to_bv_carries(t, 32),
        _ => {},
    }
    match b.term {
        CTermData::CBool(t) => lemma_bool_to_bv_carries(t, 32),
        _ => {},
    }
    let (s, w, x) = promoted(a)->0;
    let (t, v, y) = promoted(b)->0;
    let cw = if w > v {
        w
    } else {
        v
    };
    lemma_resized_carries(s, w, x, cw);
    lemma_resized_carries(t, v, y, cw);
}

proof fn lemma_truth_carries(a: CTerm)
    requires
        is_constant(a),
    ensures
        truth(a) matches Some(t) && carries_truth(t),
{
    match a.term {
        CTermData::CInt(_, w, t) => lemma_bv_to_bool_carries(t, w),
        _ => {},
    }
}

/// An operator on constants gives a constant.
#[verifier::spinoff_prover]
proof fn lemma_applied_carries(op: COp, a: CTerm, b: CTerm)
    requires
        is_constant(a),
        is_constant(b),
        !is_shift(op),
    ensures
        apply(op, a, b) matches Ok(r) && is_constant(r),
{
    lemma_converted_carries(a, b);
    let (_, w, x, y) = converted(a, b)->0;
    if op == COp::And || op == COp::Or {
        lemma_truth_carries(a);
        lemma_truth_carries(b);
        lemma_truth_op_carries(term_operator(op), truth(a)->0, truth(b)->0);
    } else {
        lemma_op_carries(term_operator(op), x, y, w);
        if op == COp::Eq || op == COp::Neq {
            match (a.term, b.term) {
                (CTermData::CBool(p), CTermData::CBool(q)) => {
                    lemma_truth_op_carries(Op::Eq, p, q);
                    lemma_not_carries(term_op(Op::Eq, p, q));
                },
                _ => lemma_not_carries(term_op(Op::Eq, x, y)),
            }
        }
    }
}

/// A shift of a constant by a constant gives a constant.
proof fn lemma_shifted_carries(op: COp, a: CTerm, b: CTerm)
    requires
        is_constant(a),
        is_constant(b),
        is_shift(op),
        b.term is CInt,
    ensures
        operated(op, a, b) matches Ok(r) && is_constant(r),
{
    let t = b.one_term()->Ok_0;
    lemma_of(Node::Const(t.constant()->0));
    match a.term {
        CTermData::CBool(p) => lemma_bool_to_bv_carries(p, 32),
        _ => {},
    }
    let (_, w, x) = promoted(a)->0;
    let k = value_i32(folded(t)).int_constant()->Ok_0;
    lemma_literal_carries(k, w);
    lemma_op_carries(term_operator(op), x, lit_bv(k, w), w);
}

proof fn lemma_cast_carries(to: Ty, v: CTerm)
    requires
        is_constant(v),
        to is Bool || (to matches Ty::Int(_, w) && 0 < w <= MAX_CONST_WIDTH),
    ensures
        cast_to(Some(to), v) matches Ok(r) && is_constant(r),
{
    match (v.term, to) {
        (CTermData::CBool(t), Ty::Int(_, w)) => lemma_bool_to_bv_carries(t, w),
        (CTermData::CInt(_, w, t), Ty::Bool) => lemma_bv_to_bool_carries(t, w),
        (CTermData::CInt(s, w, t), Ty::Int(_, u)) => lemma_resized_carries(s, w, t, u),
        _ => {},
    }
}

proof fn lemma_number_carries(i: Integer)
    requires
        literal(i) is Ok,
    ensures
        is_constant(literal(i)->Ok_0),
{
    let w = literal_width(i.size)->0;
    lemma_literal_carries(number(i.number@, !i.unsigned)->0, w);
}

proof fn lemma_binary(
    depth: nat,
    st: GenState,
    b: BinaryOperatorExpression,
    x: CTerm,
    y: CTerm,
)
    requires
        sign(b.operator) is Some,
        expr(depth, st, b.lhs) == Ok::<(CTerm, GenState), CError>((x, st)),
        expr(depth, st, b.rhs) == Ok::<(CTerm, GenState), CError>((y, st)),
    ensures
        binary(depth, st, b) == (match operated(sign(b.operator)->0, x, y) {
            Ok(r) => Ok::<(CTerm, GenState), CError>((r, st)),
            Err(e) => Err(e),
        }),
{
}

#[verifier::spinoff_prover]
proof fn lemma_closed_folds(env: Env, depth: nat, st: GenState, e: Expression)
    requires
        st.circ.frames.len() > 0,
        circ_wf(st.circ),
        is_closed(e),
        eval(machine(env, st.circ), e) is Some,
    ensures
        expr(depth, st, e) matches Ok((v, after)) && after == st && is_constant(v),
    decreases e,
{
    match e {
        Expression::Constant(Constant::Integer(i)) => {
            lemma_literal_number(env, i);
            lemma_number_carries(i);
            assert(expr(depth, st, e) == Ok::<(CTerm, GenState), CError>((literal(i)->Ok_0, st)));
        },
        Expression::BinaryOperator(b) => {
            lemma_closed_folds(env, depth, st, b.lhs);
            lemma_closed_folds(env, depth, st, b.rhs);
            law_expression_computes(env, depth, st, b.rhs);
            let (x, _) = expr(depth, st, b.lhs)->Ok_0;
            let (y, _) = expr(depth, st, b.rhs)->Ok_0;
            let op = sign(b.operator)->0;
            if is_shift(op) {
                lemma_shifted_carries(op, x, y);
            } else {
                lemma_applied_carries(op, x, y);
            }
            lemma_binary(depth, st, *b, x, y);
            assert(expr(depth, st, e) == binary(depth, st, *b));
        },
        Expression::Cast(c) => {
            lemma_closed_folds(env, depth, st, c.expression);
            let t = c.target.specifiers@[0]->TypeSpecifier_0;
            lemma_keyword(depth, st, c.target.specifiers@, t);
            lemma_cast_carries(keyword(t)->0, expr(depth, st, c.expression)->Ok_0.0);
        },
        _ => {},
    }
}

/// An expression made of literals, operators and casts is translated, and folds to the number that
/// it computes, wherever that is a 32-bit one: so it can be the size of an array, the amount of a
/// shift or a bound of a loop.
pub proof fn law_constant_expression_folds(env: Env, depth: nat, st: GenState, e: Expression)
    requires
        st.circ.frames.len() > 0,
        circ_wf(st.circ),
        is_closed(e),
        eval(machine(env, st.circ), e) is Some,
    ensures
        expr(depth, st, e) matches Ok((v, after)) && {
            &&& after == st
            &&& whole(eval(machine(env, st.circ), e)->0) matches Some(n) ==> (if i32::MIN <= n
                <= i32::MAX {
                folded_i32(v) == Ok::<int, CError>(n)
            } else {
                folded_i32(v) is Err
            })
        },
{
    lemma_closed_folds(env, depth, st, e);
    law_expression_computes(env, depth, st, e);
    law_expression_keeps_well_formed(depth, st, e);
    let (v, _) = expr(depth, st, e)->Ok_0;
    let t = v.one_term()->Ok_0;
    lemma_constant_is_meaning(t, env);
    match eval(machine(env, st.circ), e)->0 {
        Num::Number(_, w, x) => {
            assert(t.constant() == Some(Value::Bv(w, x as u64)));
            lemma_modulus(w);
            lemma_of(Node::Const(t.constant()->0));
        },
        _ => {},
    }
}

} // verus!
