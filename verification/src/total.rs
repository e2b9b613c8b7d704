//! That a program on numbers and truth values whose loops count by literals is translated.
use std::rc::Rc;

use vstd::arithmetic::power2::lemma2_to64;
use vstd::prelude::*;

use crate::ast::BinaryOperator;
use crate::ast::BinaryOperatorExpression;
use crate::ast::BlockItem;
use crate::ast::Constant;
use crate::ast::Declaration;
use crate::ast::Expression;
use crate::ast::ForInitializer;
use crate::ast::ForStatement;
use crate::ast::InitDeclarator;
use crate::ast::Initializer;
use crate::ast::Integer;
use crate::ast::IntegerSize;
use crate::ast::Statement;
use crate::ast::UnaryOperator;
use crate::circ::find;
use crate::circ::find_scopes;
use crate::circ::merge;
use crate::circ::set_scopes;
use crate::circ::set_var;
use crate::circ::CircState;
use crate::circ::Var;
use crate::cterm::apply;
use crate::cterm::cast_to;
use crate::cterm::value_i32;
use crate::cterm::COp;
use crate::cterm::CTerm;
use crate::cterm::CTermData;
use crate::error::CError;
use crate::ir::folded;
use crate::ir::law_new_term_is_wf;
use crate::ir::lemma_denote;
use crate::ir::lemma_of;
use crate::ir::lit_bv;
use crate::ir::term_not;
use crate::ir::wrap;
use crate::ir::Node;
use crate::ir::Sort;
use crate::ir::Term;
use crate::ir::Value;
use crate::kept::idle;
use crate::kept::is_true;
use crate::kept::kept;
use crate::kept::Env;
use crate::laws::law_expression_keeps_shape;
use crate::laws::law_statement_keeps_shape;
use crate::list::shared;
use crate::list::List;
use crate::number::constant;
use crate::number::literal;
use crate::number::number;
use crate::runs::declared_keyword;
use crate::runs::effect;
use crate::runs::eval;
use crate::runs::keyword;
use crate::runs::law_assignment_takes_effect;
use crate::runs::law_declaration_takes_effect;
use crate::runs::law_expression_computes;
use crate::runs::law_statement_means_its_run;
use crate::runs::lemma_assign;
use crate::runs::lemma_branch_run;
use crate::runs::lemma_declaration;
use crate::runs::lemma_declare;
use crate::runs::lemma_folded_expr;
use crate::runs::lemma_header;
use crate::runs::lemma_keyword;
use crate::runs::lemma_literal_number;
use crate::runs::lemma_live;
use crate::runs::lemma_look;
use crate::runs::lemma_merge_scalar;
use crate::runs::lemma_nesting;
use crate::runs::lemma_same_guard;
use crate::runs::machine;
use crate::runs::run;
use crate::runs::run_block;
use crate::runs::run_declaration;
use crate::runs::run_declarators;
use crate::runs::run_end;
use crate::runs::run_rounds;
use crate::runs::run_start;
use crate::runs::run_step;
use crate::runs::shifts_by_literals;
use crate::runs::sign;
use crate::runs::store_of;
use crate::runs::zero_number;
use crate::runs::Machine;
use crate::steps::sound_decl;
use crate::steps::sound_iterations;
use crate::steps::sound_rounds;
use crate::translate::binary;
use crate::translate::block;
use crate::translate::branch;
use crate::translate::decl;
use crate::translate::decl_name;
use crate::translate::expr;
use crate::translate::folded_expr;
use crate::translate::folded_i32;
use crate::translate::init;
use crate::translate::initial;
use crate::translate::iterations;
use crate::translate::loop_end;
use crate::translate::loop_start;
use crate::translate::loop_step;
use crate::translate::lval;
use crate::translate::one_round;
use crate::translate::operated;
use crate::translate::rounds;
use crate::translate::stmt;
use crate::translate::unary;
use crate::translate::variables_from;
use crate::translate::CLoc;
use crate::translate::DeclInfo;
use crate::translate::GenState;
use crate::translate::Loc;
use crate::types::Ty;
use crate::values::computed;
use crate::values::converted_to;
use crate::values::law_cast_converts;
use crate::values::law_operator_computes;
use crate::values::lemma_literal;
use crate::values::lemma_wrap;
use crate::values::scalar;
use crate::values::Num;
use crate::wellformed::circ_wf;
use crate::wellformed::fit_decl;
use crate::wellformed::fit_initial;
use crate::wellformed::law_expression_keeps_well_formed;
use crate::wellformed::law_statement_keeps_well_formed;
use crate::wellformed::wf_cast;
use crate::wellformed::wf_declared;
use crate::wellformed::wf_entered_condition;
use crate::wellformed::wf_entered_scope;
use crate::wellformed::wf_exited_scope;

verus! {

broadcast use crate::ir::lemma_of;

/// Whether the term of a truth value is of the sort of truth values.
pub open spec fn is_tidy(v: CTerm) -> bool {
    v.term matches CTermData::CBool(t) ==> t.sort() == Sort::Bool
}

/// Whether all variables are tidy.
pub open spec fn are_tidy(l: List<Var>) -> bool
    decreases l,
{
    match l {
        List::Nil => true,
        List::Cons(v, rest) => is_tidy(v.val) && are_tidy(*rest),
    }
}

/// Whether all variables of the scopes are tidy.
pub open spec fn scopes_are_tidy(l: List<Rc<List<Var>>>) -> bool
    decreases l,
{
    match l {
        List::Nil => true,
        List::Cons(s, rest) => are_tidy(*s) && scopes_are_tidy(*rest),
    }
}

/// Whether the terms of all truth values that can be seen are of the sort of truth values. What is
/// read from an array of truth values is not.
pub open spec fn sees_tidy(c: CircState) -> bool {
    &&& c.frames.len() > 0
    &&& scopes_are_tidy(*c.top().scopes)
    &&& are_tidy(c.globals)
}

/// Whether all shifts in an expression that may assign to a variable are by literals.
pub open spec fn is_fixed_expression(e: Expression) -> bool {
    match e {
        Expression::BinaryOperator(b) => if b.operator == BinaryOperator::Assign || b.operator
            == BinaryOperator::AssignPlus || b.operator == BinaryOperator::AssignDivide {
            shifts_by_literals(b.rhs)
        } else {
            shifts_by_literals(e)
        },
        _ => shifts_by_literals(e),
    }
}

/// Whether all shifts in the initializers of a declaration are by literals.
pub open spec fn is_fixed_declaration(d: Declaration) -> bool {
    forall|j: int|
        0 <= j < d.declarators@.len() ==> ((#[trigger] d.declarators@[j]).initializer matches Some(
            Initializer::Expression(e),
        ) ==> shifts_by_literals(*e))
}

/// Whether an expression is an integer literal without a suffix for its size.
pub open spec fn is_short_literal(e: Expression) -> bool {
    e matches Expression::Constant(Constant::Integer(i)) && i.size == IntegerSize::Int
}

/// Whether the header of a loop declares its variable and counts by literals.
pub open spec fn has_fixed_header(f: ForStatement) -> bool {
    &&& f.initializer matches ForInitializer::Declaration(d) && d.declarators@.len() == 1 && (
    d.declarators@[0].initializer matches Some(Initializer::Expression(e)) && is_short_literal(*e))
    &&& f.condition matches Some(Expression::BinaryOperator(b)) && is_short_literal(b.rhs)
    &&& match f.step {
        Some(Expression::BinaryOperator(b)) => b.operator == BinaryOperator::AssignPlus
            && is_short_literal(b.rhs),
        Some(Expression::UnaryOperator(_)) => true,
        _ => false,
    }
}

/// Whether in a statement all shifts are by literals and all loops count by literals.
pub open spec fn is_fixed(s: Statement) -> bool
    decreases s,
{
    match s {
        Statement::Compound(items) => forall|j: int|
            0 <= j < items@.len() ==> is_fixed_item(#[trigger] items@[j]),
        Statement::Expression(Some(e)) => is_fixed_expression(*e),
        Statement::If(i) => shifts_by_literals(i.condition) && is_fixed(i.then_statement) && (
        i.else_statement matches Some(e) ==> is_fixed(e)),
        Statement::Return(Some(e)) => shifts_by_literals(*e),
        Statement::For(f) => has_fixed_header(*f) && is_fixed(f.statement),
        _ => true,
    }
}

/// Whether in an item of a block all shifts are by literals and all loops count by literals.
pub open spec fn is_fixed_item(i: BlockItem) -> bool
    decreases i,
{
    match i {
        BlockItem::Declaration(d) => is_fixed_declaration(d),
        BlockItem::Statement(s) => is_fixed(s),
        BlockItem::StaticAssert => false,
    }
}

proof fn lemma_find_tidy(l: List<Var>, name: Seq<char>)
    requires
        are_tidy(l),
    ensures
        find(l, name) matches Some(v) ==> is_tidy(v.val),
    decreases l,
{
    match l {
        List::Nil => {},
        List::Cons(_, rest) => lemma_find_tidy(shared(rest), name),
    }
}

proof fn lemma_find_scopes_tidy(l: List<Rc<List<Var>>>, name: Seq<char>)
    requires
        scopes_are_tidy(l),
    ensures
        find_scopes(l, name) matches Some(v) ==> is_tidy(v.val),
    decreases l,
{
    match l {
        List::Nil => {},
        List::Cons(s, rest) => {
            lemma_find_tidy(shared(s), name);
            lemma_find_scopes_tidy(shared(rest), name);
        },
    }
}

proof fn lemma_set_tidy(l: List<Var>, name: Seq<char>, val: CTerm)
    requires
        are_tidy(l),
        is_tidy(val),
    ensures
        are_tidy(set_var(l, name, val)),
    decreases l,
{
    match l {
        List::Nil => {},
        List::Cons(_, rest) => lemma_set_tidy(shared(rest), name, val),
    }
}

proof fn lemma_set_scopes_tidy(l: List<Rc<List<Var>>>, name: Seq<char>, val: CTerm)
    requires
        scopes_are_tidy(l),
        is_tidy(val),
    ensures
        scopes_are_tidy(set_scopes(l, name, val)),
    decreases l,
{
    match l {
        List::Nil => {},
        List::Cons(s, rest) => {
            lemma_set_tidy(shared(s), name, val);
            lemma_set_scopes_tidy(shared(rest), name, val);
        },
    }
}

proof fn lemma_assigned_tidy(c: CircState, name: String, val: CTerm)
    requires
        sees_tidy(c),
        is_tidy(val),
    ensures
        c.assigned(name, val) matches Ok((v, d)) ==> is_tidy(v) && sees_tidy(d),
{
    match c.lookup(name@) {
        None => {},
        Some(v) => match merge(c.condition(), val, v.val) {
            Err(_) => {},
            Ok(m) => {
                assert(is_tidy(m));
                lemma_set_scopes_tidy(shared(c.top().scopes), name@, m);
                lemma_set_tidy(c.globals, name@, m);
            },
        },
    }
}

proof fn lemma_operated_tidy(op: COp, x: CTerm, y: CTerm)
    ensures
        operated(op, x, y) matches Ok(r) ==> is_tidy(r),
{
}

proof fn lemma_cast_tidy(to: Option<Ty>, v: CTerm)
    requires
        is_tidy(v),
    ensures
        cast_to(to, v) matches Ok(r) ==> is_tidy(r),
{
}

/// What an operator between two expressions gives comes from the operator on values.
proof fn lemma_binary_value(depth: nat, st: GenState, b: BinaryOperatorExpression)
    requires
        sign(b.operator) is Some,
    ensures
        binary(depth, st, b) matches Ok((v, _)) ==> exists|x: CTerm, y: CTerm|
            #![trigger operated(sign(b.operator)->0, x, y)]
            operated(sign(b.operator)->0, x, y) == Ok::<CTerm, CError>(v),
{
    match binary(depth, st, b) {
        Err(_) => {},
        Ok((v, _)) => {
            let (x, s) = expr(depth, st, b.lhs)->Ok_0;
            let (y, _) = expr(depth, s, b.rhs)->Ok_0;
            assert(operated(sign(b.operator)->0, x, y) == Ok::<CTerm, CError>(v));
        },
    }
}

#[verifier::spinoff_prover]
proof fn lemma_value_tidy(env: Env, depth: nat, st: GenState, e: Expression)
    requires
        sees_tidy(st.circ),
        eval(machine(env, st.circ), e) is Some,
        expr(depth, st, e) is Ok,
    ensures
        is_tidy(expr(depth, st, e)->Ok_0.0),
    decreases e,
{
    match e {
        Expression::Identifier(name) => {
            lemma_find_scopes_tidy(shared(st.circ.top().scopes), name@);
            lemma_find_tidy(st.circ.globals, name@);
        },
        Expression::BinaryOperator(b) => {
            assert(expr(depth, st, e) == binary(depth, st, *b));
            lemma_binary_value(depth, st, *b);
            let v = expr(depth, st, e)->Ok_0.0;
            let (x, y) = choose|x: CTerm, y: CTerm|
                #![trigger operated(sign(b.operator)->0, x, y)]
                operated(sign(b.operator)->0, x, y) == Ok::<CTerm, CError>(v);
            lemma_operated_tidy(sign(b.operator)->0, x, y);
        },
        Expression::Cast(c) => {
            let t = c.target.specifiers@[0]->TypeSpecifier_0;
            lemma_keyword(depth, st, c.target.specifiers@, t);
            lemma_value_tidy(env, depth, st, c.expression);
            lemma_cast_tidy(keyword(t), expr(depth, st, c.expression)->Ok_0.0);
        },
        _ => {},
    }
}

/// A compound assignment to a variable.
proof fn total_compound(
    env: Env,
    depth: nat,
    st: GenState,
    b: BinaryOperatorExpression,
    name: String,
    op: COp,
)
    requires
        sees_tidy(st.circ),
        circ_wf(st.circ),
        shifts_by_literals(b.rhs),
        b.lhs == Expression::Identifier(name),
        b.operator == BinaryOperator::AssignPlus && op == COp::Add || b.operator
            == BinaryOperator::AssignDivide && op == COp::Div,
        ({
            let m = machine(env, st.circ);
            &&& m.look(name@) is Some
            &&& eval(m, b.rhs) is Some
            &&& m.assign(
                name@,
                computed(op, m.look(name@)->0, eval(m, b.rhs)->0),
                is_true(st.circ.condition(), env),
            ) is Some
        }),
    ensures
        binary(depth, st, b) matches Ok((_, after)) && sees_tidy(after.circ),
{
    law_expression_computes(env, depth, st, b.rhs);
    lemma_look(env, st.circ, name@);
    let a = st.circ.lookup(name@)->0.val;
    assert(expr(depth, st, b.lhs) == Ok::<(CTerm, GenState), CError>((a, st)));
    let (y, _) = expr(depth, st, b.rhs)->Ok_0;
    law_operator_computes(env, op, a, y);
    let v = apply(op, a, y)->Ok_0;
    lemma_assign(env, st.circ, name, v, scalar(env, v)->0);
    lemma_assigned_tidy(st.circ, name, v);
}

/// An expression that may assign to a variable is translated.
proof fn total_effect(env: Env, depth: nat, st: GenState, e: Expression)
    requires
        sees_tidy(st.circ),
        circ_wf(st.circ),
        is_fixed_expression(e),
        effect(machine(env, st.circ), e, is_true(st.circ.condition(), env)) is Some,
    ensures
        expr(depth, st, e) matches Ok((_, after)) && sees_tidy(after.circ),
{
    let m = machine(env, st.circ);
    match e {
        Expression::BinaryOperator(b) => {
            assert(b.operator != BinaryOperator::Index ==> expr(depth, st, e) == binary(
                depth,
                st,
                *b,
            ));
            match (b.operator, b.lhs) {
                (BinaryOperator::Assign, Expression::Identifier(name)) => {
                    law_expression_computes(env, depth, st, b.rhs);
                    lemma_value_tidy(env, depth, st, b.rhs);
                    let (v, _) = expr(depth, st, b.rhs)->Ok_0;
                    lemma_assign(env, st.circ, name, v, eval(m, b.rhs)->0);
                    lemma_assigned_tidy(st.circ, name, v);
                    assert(lval(depth, st, b.lhs) == Ok::<(CLoc, GenState), CError>(
                        (CLoc::Var(Loc { name }), st),
                    ));
                },
                (BinaryOperator::AssignPlus, Expression::Identifier(name)) => {
                    total_compound(env, depth, st, *b, name, COp::Add);
                },
                (BinaryOperator::AssignDivide, Expression::Identifier(name)) => {
                    total_compound(env, depth, st, *b, name, COp::Div);
                },
                _ => law_expression_computes(env, depth, st, e),
            }
        },
        Expression::UnaryOperator(u) => {
            assert(expr(depth, st, e) == unary(depth, st, *u));
            match u.operand {
                Expression::Identifier(name) => {
                    let one = value_i32(lit_bv(1, 32));
                    lemma2_to64();
                    lemma_literal(env, 1, 32);
                    lemma_look(env, st.circ, name@);
                    let a = st.circ.lookup(name@)->0.val;
                    let op = if u.operator == UnaryOperator::PostIncrement {
                        COp::Add
                    } else {
                        COp::Sub
                    };
                    assert(expr(depth, st, u.operand) == Ok::<(CTerm, GenState), CError>((a, st)));
                    law_operator_computes(env, op, a, one);
                    let v = apply(op, a, one)->Ok_0;
                    lemma_assign(env, st.circ, name, v, scalar(env, v)->0);
                    lemma_assigned_tidy(st.circ, name, v);
                },
                _ => {},
            }
        },
        _ => law_expression_computes(env, depth, st, e),
    }
}

pub(crate) proof fn lemma_declared_tidy(env: Env, c: CircState, name: String, ty: Ty, val: CTerm)
    requires
        sees_tidy(c),
        is_tidy(val),
        machine(env, c).is_free(name@),
    ensures
        c.declared(name, ty, val) matches Ok((_, d)) && sees_tidy(d),
{
    match shared(c.top().scopes) {
        List::Nil => {},
        List::Cons(l, rest) => {
            let store = store_of(env, shared(l));
            assert(!store.dom().contains(name@));
            let d = c.declared(name, ty, val)->Ok_0.1;
            let k = List::Cons(Var { name, ty, val }, Rc::new(shared(l)));
            assert(shared(d.top().scopes) == List::Cons(Rc::new(k), rest));
        },
    }
}

proof fn total_variables(
    env: Env,
    depth: nat,
    st: GenState,
    ty: Ty,
    ds: Seq<InitDeclarator>,
    infos: Seq<DeclInfo>,
    i: nat,
    acc: Seq<CTerm>,
    ns: Seq<Num>,
)
    requires
        sees_tidy(st.circ),
        circ_wf(st.circ),
        ty is Bool || ty == Ty::Int(true, 32) || ty == Ty::Int(false, 32),
        infos.len() == ds.len(),
        forall|j: int|
            0 <= j < ds.len() ==> (#[trigger] infos[j]).ty == ty && decl_name(ds[j].declarator)
                == Ok::<String, CError>(infos[j].name),
        forall|j: int|
            0 <= j < ds.len() ==> ((#[trigger] ds[j]).initializer matches Some(
                Initializer::Expression(e),
            ) ==> shifts_by_literals(*e)),
        run_declarators(machine(env, st.circ), ty, ds, i, ns) is Some,
    ensures
        variables_from(depth, st, ds, infos, i, acc) matches Ok((vs, after)) && sees_tidy(
            after.circ,
        ) && (i == 0 && ds.len() == 1 && acc.len() == 0 ==> (initial(
            depth,
            st,
            ty,
            ds[0].initializer,
        ) matches Ok((v, _)) && vs == seq![v])),
    decreases ds.len() - i,
{
    if i < ds.len() {
        let d = ds[i as int];
        let info = infos[i as int];
        let m = machine(env, st.circ);
        let n = match d.initializer {
            None => Some(zero_number(ty)),
            Some(Initializer::Expression(e)) => eval(m, *e),
            _ => None,
        };
        match d.initializer {
            None => {
                lemma2_to64();
                lemma_literal(env, 0, 32);
                lemma_denote(Node::Const(Value::Bool(false)), env);
            },
            Some(Initializer::Expression(e)) => {
                assert(ds[i as int].initializer == Some(Initializer::Expression(e)));
                law_expression_computes(env, depth, st, *e);
                lemma_value_tidy(env, depth, st, *e);
            },
            _ => {},
        }
        assert(initial(depth, st, ty, d.initializer) is Ok);
        let (v, s1) = initial(depth, st, ty, d.initializer)->Ok_0;
        assert(s1 == st);
        assert(is_tidy(v));
        law_cast_converts(env, ty, v);
        lemma_cast_tidy(Some(ty), v);
        let w = cast_to(Some(ty), v)->Ok_0;
        let k = converted_to(ty, n->0)->0;
        lemma_declared_tidy(env, st.circ, info.name, ty, w);
        let c2 = st.circ.declared(info.name, ty, w)->Ok_0.1;
        lemma_declare(env, st.circ, info.name, ty, w, k);
        fit_initial(depth, st, ty, d.initializer);
        wf_cast(Some(ty), v);
        wf_declared(st.circ, info.name, ty, w);
        let next = st.with_circ(c2);
        total_variables(env, depth, next, ty, ds, infos, i + 1, acc.push(v), ns.push(n->0));
        if i == 0 && ds.len() == 1 && acc.len() == 0 {
            assert(variables_from(depth, next, ds, infos, 1, acc.push(v)) == Ok::<
                (Seq<CTerm>, GenState),
                CError,
            >((acc.push(v), next)));
            assert(acc.push(v) =~= seq![v]);
        }
    }
}

/// A declaration of numbers and truth values is translated.
proof fn total_declaration(env: Env, depth: nat, st: GenState, d: Declaration)
    requires
        sees_tidy(st.circ),
        circ_wf(st.circ),
        is_fixed_declaration(d),
        run_declaration(machine(env, st.circ), d) is Some,
    ensures
        decl(depth, st, d) matches Ok((vs, after)) && sees_tidy(after.circ) && (
        d.declarators@.len() == 1 ==> (initial(
            depth,
            st,
            declared_keyword(d)->0,
            d.declarators@[0].initializer,
        ) matches Ok((v, _)) && vs == seq![v])),
{
    let ty = declared_keyword(d)->0;
    let infos = lemma_declaration(env, depth, st, d);
    total_variables(env, depth, st, ty, d.declarators@, infos, 0, Seq::empty(), Seq::empty());
}

/// A short literal folds to its number.
proof fn lemma_short_literal(env: Env, depth: nat, st: GenState, e: Expression)
    requires
        is_short_literal(e),
        eval(machine(env, st.circ), e) is Some,
    ensures
        expr(depth, st, e) matches Ok((v, after)) && after == st && folded_i32(v) is Ok,
        folded_expr(depth, st, e) is Ok,
{
    let i = e->Constant_0->Integer_0;
    lemma2_to64();
    let n = number(i.number@, !i.unsigned)->0;
    let t = lit_bv(n, 32);
    lemma_literal_number(env, i);
    lemma_wrap(n, 32);
    assert(constant(Constant::Integer(i)) == Ok::<CTerm, CError>(literal(i)->Ok_0));
    assert(expr(depth, st, e) == Ok::<(CTerm, GenState), CError>((literal(i)->Ok_0, st)));
    assert(folded(t) == t);
    assert(wrap(n, 32) <= 0xffff_ffff);
}

proof fn total_start(env: Env, depth: nat, st: GenState, d: Declaration)
    requires
        sees_tidy(st.circ),
        circ_wf(st.circ),
        d.declarators@.len() == 1,
        d.declarators@[0].initializer matches Some(Initializer::Expression(e)) && is_short_literal(
            *e,
        ),
        run_declaration(machine(env, st.circ), d) is Some,
    ensures
        loop_start(depth, st, ForInitializer::Declaration(d)) matches Ok((Some(_), after))
            && sees_tidy(after.circ) && circ_wf(after.circ) && Some(machine(env, after.circ)) == (
        match run_declaration(machine(env, st.circ), d) {
            Some((_, m)) => Some(m),
            None => None,
        }),
{
    let i = d.declarators@[0].initializer;
    let e = i->0->Expression_0;
    lemma_first_value(machine(env, st.circ), d);
    assert(is_fixed_declaration(d));
    total_declaration(env, depth, st, d);
    lemma_short_literal(env, depth, st, *e);
    let ty = declared_keyword(d)->0;
    assert(initial(depth, st, ty, i) == expr(depth, st, *e)) by {
        assert(init(depth, st, ty, i->0) == expr(depth, st, *e));
    }
    law_declaration_takes_effect(env, depth, st, d);
    fit_decl(depth, st, d);
}

proof fn total_end(env: Env, depth: nat, st: GenState, c: Option<Expression>)
    requires
        sees_tidy(st.circ),
        circ_wf(st.circ),
        c matches Some(Expression::BinaryOperator(b)) && is_short_literal(b.rhs),
        run_end(machine(env, st.circ), c) is Some,
    ensures
        loop_end(depth, st, c) == Ok::<(Option<int>, GenState), CError>(
            (run_end(machine(env, st.circ), c), st),
        ),
{
    let b = c->0->BinaryOperator_0;
    lemma_short_literal(env, depth, st, b.rhs);
    lemma_folded_expr(env, depth, st, b.rhs);
}

proof fn total_step(env: Env, depth: nat, st: GenState, s: Option<Expression>)
    requires
        sees_tidy(st.circ),
        circ_wf(st.circ),
        s matches Some(Expression::BinaryOperator(b)) ==> is_short_literal(b.rhs),
        run_step(machine(env, st.circ), s) is Some,
    ensures
        loop_step(depth, st, s) == Ok::<(Option<int>, GenState), CError>(
            (run_step(machine(env, st.circ), s), st),
        ),
{
    match s {
        Some(Expression::BinaryOperator(b)) => {
            lemma_short_literal(env, depth, st, b.rhs);
            lemma_folded_expr(env, depth, st, b.rhs);
        },
        _ => {},
    }
}

/// The header of a loop that counts by literals is translated.
#[verifier::spinoff_prover]
proof fn total_header(env: Env, depth: nat, st: GenState, f: ForStatement)
    requires
        sees_tidy(st.circ),
        circ_wf(st.circ),
        has_fixed_header(f),
        ({
            let live = is_true(st.circ.condition(), env);
            match run_start(machine(env, st.circ), f.initializer, live) {
                Some((_, m)) => run_end(m, f.condition) is Some && run_step(m, f.step) is Some,
                None => false,
            }
        }),
    ensures
        iterations(depth, st, f) matches Ok((_, after)) && sees_tidy(after.circ),
{
    let d = f.initializer->Declaration_0;
    total_start(env, depth, st, d);
    let started = loop_start(depth, st, f.initializer)->Ok_0.1;
    total_end(env, depth, started, f.condition);
    total_step(env, depth, started, f.step);
}

/// The initial value of the one variable that a declaration declares has a meaning.
proof fn lemma_first_value(m: Machine, d: Declaration)
    requires
        run_declaration(m, d) is Some,
        d.declarators@.len() == 1,
    ensures
        d.declarators@[0].initializer matches Some(Initializer::Expression(e)) ==> eval(m, *e)
            is Some,
{
}

/// Entering and leaving scopes and branches keeps what is seen tidy.
proof fn lemma_nesting_tidy(c: CircState, t: Term)
    requires
        sees_tidy(c),
    ensures
        c.entered_scope() matches Ok((_, d)) && sees_tidy(d) && *d.top().scopes is Cons,
        c.exited_scope() matches Ok((_, d)) ==> sees_tidy(d),
        *c.top().scopes is Cons ==> c.exited_scope() is Ok,
        c.entered_condition(t) matches Ok((_, d)) ==> sees_tidy(d) && *d.top().guards is Cons,
        t.sort() == Sort::Bool ==> c.entered_condition(t) is Ok,
        c.exited_condition() matches Ok((_, d)) ==> sees_tidy(d),
        *c.top().guards is Cons ==> c.exited_condition() is Ok,
{
    let inner = c.entered_scope()->Ok_0.1;
    assert(are_tidy(List::<Var>::Nil));
    assert(shared(inner.top().scopes) == List::Cons(
        Rc::new(List::<Var>::Nil),
        c.top().scopes,
    ));
}

/// A statement on numbers and truth values in which all shifts are by literals and all loops count
/// by literals is translated: where it runs without fault, its translation succeeds.
pub proof fn law_statement_that_runs_is_translated(env: Env, depth: nat, st: GenState, s: Statement)
    requires
        sees_tidy(st.circ),
        circ_wf(st.circ),
        is_fixed(s),
        run(machine(env, st.circ), s, is_true(st.circ.guard(), env)) is Some,
    ensures
        stmt(depth, st, s) matches Ok((_, after)) && sees_tidy(after.circ),
    decreases s, 1nat,
{
    let m = machine(env, st.circ);
    lemma_live(env, st.circ);
    match s {
        Statement::Compound(items) => total_block(env, depth, st, items@, 0),
        Statement::Expression(None) => {},
        Statement::Expression(Some(e)) => total_effect(env, depth, st, *e),
        Statement::If(i) => {
            law_expression_computes(env, depth, st, i.condition);
            lemma_value_tidy(env, depth, st, i.condition);
            law_expression_keeps_well_formed(depth, st, i.condition);
            let (v, _) = expr(depth, st, i.condition)->Ok_0;
            let t = v.one_term()->Ok_0;
            assert(t.sort() == Sort::Bool);
            total_branch(env, depth, st, t, i.then_statement);
            let first = branch(depth, st, t, i.then_statement)->Ok_0.1;
            match i.else_statement {
                None => {},
                Some(e) => {
                    lemma_denote(Node::Not(t), env);
                    law_new_term_is_wf(Node::Not(t));
                    lemma_branch_run(env, depth, st, t, i.then_statement);
                    total_branch(env, depth, first, term_not(t), e);
                },
            }
        },
        Statement::Return(None) => {},
        Statement::Return(Some(e)) => {
            law_expression_computes(env, depth, st, *e);
            let (v, _) = expr(depth, st, *e)->Ok_0;
            lemma_merge_scalar(env, st.circ.condition(), v, st.circ.top().ret_val->0);
        },
        Statement::For(f) => total_for(env, depth, st, s, *f),
        Statement::Other => {},
    }
}

proof fn total_branch(env: Env, depth: nat, st: GenState, t: Term, s: Statement)
    requires
        sees_tidy(st.circ),
        circ_wf(st.circ),
        t.is_plain(),
        t.sort() == Sort::Bool,
        is_fixed(s),
        run(machine(env, st.circ), s, is_true(st.circ.guard(), env) && is_true(t, env)) is Some,
    ensures
        branch(depth, st, t, s) matches Ok((_, after)) && sees_tidy(after.circ),
    decreases s, 2nat,
{
    lemma_nesting(env, st.circ, t);
    lemma_nesting_tidy(st.circ, t);
    let entered = st.with_circ(st.circ.entered_condition(t)->Ok_0.1);
    wf_entered_condition(st.circ, t);
    law_statement_that_runs_is_translated(env, depth, entered, s);
    let ran = stmt(depth, entered, s)->Ok_0.1;
    law_statement_keeps_shape(env, depth, entered, s);
    lemma_nesting_tidy(ran.circ, t);
}

proof fn total_block(env: Env, depth: nat, st: GenState, items: Seq<BlockItem>, i: nat)
    requires
        sees_tidy(st.circ),
        circ_wf(st.circ),
        forall|j: int| 0 <= j < items.len() ==> is_fixed_item(#[trigger] items[j]),
        run_block(machine(env, st.circ), items, i, is_true(st.circ.guard(), env)) is Some,
    ensures
        block(depth, st, items, i) matches Ok((_, after)) && sees_tidy(after.circ),
    decreases items, items.len() - i,
{
    if i < items.len() {
        assert(is_fixed_item(items[i as int]));
        match items[i as int] {
            BlockItem::Declaration(d) => {
                total_declaration(env, depth, st, d);
                law_declaration_takes_effect(env, depth, st, d);
                let after = decl(depth, st, d)->Ok_0.1;
                fit_decl(depth, st, d);
                sound_decl(env, depth, st, d);
                reveal(kept);
                lemma_same_guard(env, idle(st.circ, env), st.circ, after.circ);
                total_block(env, depth, after, items, i + 1);
            },
            BlockItem::Statement(s) => {
                law_statement_that_runs_is_translated(env, depth, st, s);
                law_statement_means_its_run(env, depth, st, s);
                let after = stmt(depth, st, s)->Ok_0.1;
                law_statement_keeps_well_formed(depth, st, s);
                law_statement_keeps_shape(env, depth, st, s);
                lemma_same_guard(env, false, st.circ, after.circ);
                total_block(env, depth, after, items, i + 1);
            },
            BlockItem::StaticAssert => {},
        }
    }
}

proof fn lemma_step_fixed(f: ForStatement)
    requires
        has_fixed_header(f),
    ensures
        f.step matches Some(e) && is_fixed_expression(e),
{
}

/// One round of a loop is translated, and does what it does on the machine.
#[verifier::spinoff_prover]
proof fn total_round(env: Env, depth: nat, st: GenState, f: ForStatement, e: Expression, n: nat)
    requires
        sees_tidy(st.circ),
        circ_wf(st.circ),
        f.step == Some(e),
        is_fixed_expression(e),
        is_fixed(f.statement),
        n > 0,
        run_rounds(machine(env, st.circ), f, n, is_true(st.circ.guard(), env)) is Some,
    ensures
        one_round(depth, st, f) matches Ok((_, after)) && {
            &&& sees_tidy(after.circ)
            &&& circ_wf(after.circ)
            &&& after.circ.guard() == st.circ.guard()
            &&& run_rounds(machine(env, st.circ), f, n, is_true(st.circ.guard(), env))
                == run_rounds(
                machine(env, after.circ),
                f,
                (n - 1) as nat,
                is_true(st.circ.guard(), env),
            )
        },
    decreases f, n, 0nat,
{
    let taken = is_true(st.circ.guard(), env);
    lemma_nesting(env, st.circ, st.circ.guard());
    lemma_nesting_tidy(st.circ, st.circ.guard());
    let entered = st.with_circ(st.circ.entered_scope()->Ok_0.1);
    wf_entered_scope(st.circ);
    law_statement_that_runs_is_translated(env, depth, entered, f.statement);
    law_statement_means_its_run(env, depth, entered, f.statement);
    let ran = stmt(depth, entered, f.statement)->Ok_0.1;
    law_statement_keeps_well_formed(depth, entered, f.statement);
    law_statement_keeps_shape(env, depth, entered, f.statement);
    lemma_same_guard(env, false, entered.circ, ran.circ);
    lemma_nesting(env, ran.circ, st.circ.guard());
    lemma_nesting_tidy(ran.circ, st.circ.guard());
    let left = ran.with_circ(ran.circ.exited_scope()->Ok_0.1);
    wf_exited_scope(ran.circ);
    lemma_live(env, left.circ);
    total_effect(env, depth, left, e);
    law_assignment_takes_effect(env, depth, left, e);
    let stepped = expr(depth, left, e)->Ok_0.1;
    law_expression_keeps_well_formed(depth, left, e);
    law_expression_keeps_shape(env, depth, left, e);
    lemma_same_guard(env, false, left.circ, stepped.circ);
    assert(one_round(depth, st, f) == Ok::<((), GenState), CError>(((), stepped)));
}

proof fn total_rounds(
    env: Env,
    depth: nat,
    st: GenState,
    f: ForStatement,
    e: Expression,
    n: nat,
)
    requires
        sees_tidy(st.circ),
        circ_wf(st.circ),
        f.step == Some(e),
        is_fixed_expression(e),
        is_fixed(f.statement),
        run_rounds(machine(env, st.circ), f, n, is_true(st.circ.guard(), env)) is Some,
    ensures
        rounds(depth, st, f, n) matches Ok((_, after)) && sees_tidy(after.circ),
    decreases f, n, 1nat,
{
    if n > 0 {
        total_round(env, depth, st, f, e, n);
        let after = one_round(depth, st, f)->Ok_0.1;
        let k = (n - 1) as nat;
        total_rounds(env, depth, after, f, e, k);
        assert(rounds(depth, st, f, n) == rounds(depth, after, f, k));
    }
}

proof fn total_for(env: Env, depth: nat, st: GenState, s: Statement, f: ForStatement)
    requires
        s == Statement::For(Box::new(f)),
        sees_tidy(st.circ),
        circ_wf(st.circ),
        is_fixed(s),
        run(machine(env, st.circ), s, is_true(st.circ.guard(), env)) is Some,
    ensures
        stmt(depth, st, s) matches Ok((_, after)) && sees_tidy(after.circ),
    decreases s, 0nat,
{
    lemma_nesting(env, st.circ, st.circ.guard());
    lemma_nesting_tidy(st.circ, st.circ.guard());
    let entered = st.with_circ(st.circ.entered_scope()->Ok_0.1);
    wf_entered_scope(st.circ);
    lemma_live(env, st.circ);
    lemma_live(env, entered.circ);
    total_header(env, depth, entered, f);
    lemma_header(env, depth, entered, f);
    let (n, headed) = iterations(depth, entered, f)->Ok_0;
    let k = if n > 0 {
        n as nat
    } else {
        0
    };
    lemma_step_fixed(f);
    total_rounds(env, depth, headed, f, f.step->0, k);
    let ran = rounds(depth, headed, f, k)->Ok_0.1;
    sound_iterations(env, depth, entered, f);
    sound_rounds(env, depth, headed, f, k);
    reveal(kept);
    assert(shared(headed.circ.top().scopes) is Cons);
    assert(shared(ran.circ.top().scopes) is Cons);
    lemma_nesting_tidy(ran.circ, st.circ.guard());
}

} // verus!
