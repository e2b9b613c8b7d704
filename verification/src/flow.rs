//! What runs, how often, and what it sees: branches, loops, blocks and calls.
use std::rc::Rc;

use vstd::arithmetic::div_mod::lemma_add_mod_noop;
use vstd::arithmetic::div_mod::lemma_fundamental_div_mod_converse;
use vstd::arithmetic::div_mod::lemma_small_mod;
use vstd::arithmetic::power2::lemma2_to64;
use vstd::prelude::*;

use crate::ast::ArraySize;
use crate::ast::BinaryOperator;
use crate::ast::Constant;
use crate::ast::DeclarationSpecifier;
use crate::ast::DerivedDeclarator;
use crate::ast::Expression;
use crate::ast::ForInitializer;
use crate::ast::ForStatement;
use crate::ast::IfStatement;
use crate::ast::ParameterDeclaration;
use crate::ast::Statement;
use crate::ast::TypeSpecifier;
use crate::circ::find;
use crate::circ::find_scopes;
use crate::circ::unset;
use crate::circ::CircState;
use crate::circ::Frame;
use crate::circ::Var;
use crate::cterm::COp;
use crate::cterm::CTerm;
use crate::error::CError;
use crate::error::Reason;
use crate::ir::lemma_denote;
use crate::ir::lemma_of;
use crate::ir::term_not;
use crate::ir::MAX_CONST_WIDTH;
use crate::ir::Node;
use crate::ir::Op;
use crate::ir::Sort;
use crate::ir::Term;
use crate::ir::Value;
use crate::kept::idle;
use crate::kept::is_true;
use crate::kept::lemma_idle;
use crate::kept::Env;
use crate::laws::is_pure;
use crate::laws::law_callee_sees_globals_only;
use crate::laws::law_reading_changes_nothing;
use crate::laws::law_statement_keeps_shape;
use crate::list::shared;
use crate::list::List;
use crate::runs::changed;
use crate::runs::effect;
use crate::runs::law_statement_means_its_run;
use crate::runs::lemma_live;
use crate::runs::lemma_look;
use crate::runs::literal_number;
use crate::runs::machine;
use crate::runs::run;
use crate::runs::run_rounds;
use crate::runs::seen;
use crate::runs::store_of;
use crate::runs::zero_number;
use crate::runs::Machine;
use crate::runs::Store;
use crate::single::law_trips_are_the_rounds_of_the_loop;
use crate::single::trips;
use crate::single::SIGNIFICAND_END;
use crate::translate::bound;
use crate::translate::branch;
use crate::translate::called;
use crate::translate::d_type;
use crate::translate::d_types;
use crate::translate::derived;
use crate::translate::derived_once;
use crate::translate::expr;
use crate::translate::exprs;
use crate::translate::iterations;
use crate::translate::one_round;
use crate::translate::param;
use crate::translate::params;
use crate::translate::rounds;
use crate::translate::stmt;
use crate::translate::type_of;
use crate::translate::FnInfo;
use crate::translate::GenState;
use crate::types::Ty;
use crate::values::computed;
use crate::values::converted_to;
use crate::values::law_cast_converts;
use crate::values::lemma_literal;
use crate::values::lemma_modulus;
use crate::values::scalar;
use crate::values::signed;
use crate::values::Num;
use crate::wellformed::circ_wf;
use crate::wellformed::fit_bound;
use crate::wellformed::values_wf;
use crate::wellformed::wf_entered_fn;

verus! {

// ---------------------------------------------------------------------------------------------
// Branches, scopes and calls
// ---------------------------------------------------------------------------------------------

/// A statement within a branch runs just where the statement in front of the branch runs and the
/// condition of the branch is true, however deep branches are nested. Leaving the branch leads back
/// to where it was entered.
pub proof fn law_taken_branch_runs(env: Env, s: CircState, c: Term)
    requires
        s.frames.len() > 0,
        c.sort() == Sort::Bool,
    ensures
        s.entered_condition(c) is Ok,
        ({
            let t = s.entered_condition(c)->Ok_0.1;
            &&& is_true(t.condition(), env) <==> is_true(s.condition(), env) && is_true(c, env)
            &&& t.exited_condition() == Ok::<((), CircState), CError>(((), s))
            &&& forall|name: Seq<char>| #[trigger] t.lookup(name) == s.lookup(name)
            &&& t.allocs == s.allocs
        }),
{
    let t = s.entered_condition(c)->Ok_0.1;
    lemma_idle(s, env);
    lemma_idle(t, env);
    lemma_denote(Node::Op(Op::And, s.guard(), c), env);
    assert(t.exited_condition()->Ok_0.1 =~= s);
}

/// The two branches of a condition: of two statements that both run, one under the condition and
/// one under its negation, just one runs.
pub proof fn law_one_of_two_branches_runs(env: Env, s: CircState, c: Term)
    requires
        s.frames.len() > 0,
        c.sort() == Sort::Bool,
        is_true(s.condition(), env),
    ensures
        s.entered_condition(term_not(c)) is Ok,
        is_true(s.entered_condition(c)->Ok_0.1.condition(), env) != is_true(
            s.entered_condition(term_not(c))->Ok_0.1.condition(),
            env,
        ),
{
    lemma_of(Node::Not(c));
    law_taken_branch_runs(env, s, c);
    law_taken_branch_runs(env, s, term_not(c));
    lemma_denote(Node::Not(c), env);
}

/// The body of a function runs just where the call runs, and starts without local variables.
pub proof fn law_called_function_runs(
    env: Env,
    s: CircState,
    name: String,
    ret_ty: Option<Ty>,
    var: Seq<char>,
)
    ensures
        ({
            let t = s.entered_fn(name, ret_ty);
            &&& is_true(t.condition(), env) <==> is_true(s.condition(), env)
            &&& t.lookup(var) == find(s.globals, var)
            &&& t.allocs == s.allocs
            &&& t.exited_fn() is Ok
            &&& t.exited_fn()->Ok_0.1 == s
        }),
{
    let t = s.entered_fn(name, ret_ty);
    lemma_idle(t, env);
    lemma_denote(Node::Const(Value::Bool(false)), env);
    law_callee_sees_globals_only(s, name, ret_ty, var);
    assert(t.exited_fn()->Ok_0.1 =~= s);
}

/// Within a new scope the same runs, and every variable is seen as outside.
pub proof fn law_new_scope_sees_all(env: Env, s: CircState, name: Seq<char>)
    requires
        s.frames.len() > 0,
    ensures
        s.entered_scope() is Ok,
        ({
            let t = s.entered_scope()->Ok_0.1;
            &&& is_true(t.condition(), env) <==> is_true(s.condition(), env)
            &&& t.lookup(name) == s.lookup(name)
            &&& t.exited_scope() == Ok::<((), CircState), CError>(((), s))
        }),
{
    let t = s.entered_scope()->Ok_0.1;
    lemma_idle(s, env);
    lemma_idle(t, env);
    assert(find(List::<Var>::Nil, name) is None);
    assert(t.exited_scope()->Ok_0.1 =~= s);
}

/// A declared variable has the value that it is declared with and hides what had its name; the
/// others are as before. It is refused just where the innermost scope has a variable of the name.
pub proof fn law_declared_variable_is_seen(
    s: CircState,
    name: String,
    ty: Ty,
    val: CTerm,
    other: String,
)
    requires
        s.here() is Some,
    ensures
        s.declared(name, ty, val) is Ok <==> find(s.here()->0, name@) is None,
        s.declared(name, ty, val) matches Err(e) ==> e == CError::Reject(Reason::Redeclared(name)),
        s.declared(name, ty, val) matches Ok((_, t)) ==> {
            &&& t.get(name) == Ok::<CTerm, CError>(val)
            &&& t.lookup(name@) matches Some(v) && v.ty == ty
            &&& other@ != name@ ==> t.get(other) == s.get(other)
            &&& t.here() is Some
            &&& forall|n: Seq<char>|
                find(t.here()->0, n) is Some <==> n == name@ || #[trigger] find(
                    s.here()->0,
                    n,
                ) is Some
        },
{
    match s.declared(name, ty, val) {
        Err(_) => {},
        Ok((_, t)) => {
            let k = List::Cons(Var { name, ty, val }, Rc::new(s.here()->0));
            assert(t.here() == Some(k));
            if s.frames.len() > 0 {
                match shared(s.top().scopes) {
                    List::Nil => {},
                    List::Cons(_, rest) => {
                        assert(shared(t.top().scopes) == List::Cons(Rc::new(k), rest));
                    },
                }
            }
            assert(find(k, name@) is Some);
            assert(other@ != name@ ==> find(k, other@) == find(s.here()->0, other@));
        },
    }
}

/// Behind a return statement nothing runs. The function has returned where it had before or where
/// the statement runs, and nowhere else; its variables are as before.
pub proof fn law_return_ends_nothing_else(
    env: Env,
    s: CircState,
    val: Option<CTerm>,
    name: Seq<char>,
)
    requires
        s.frames.len() > 0,
        s.returned(val) is Ok,
    ensures
        ({
            let t = s.returned(val)->Ok_0.1;
            &&& is_true(t.top().returned, env) <==> is_true(s.top().returned, env) || is_true(
                s.condition(),
                env,
            )
            &&& t.guard() == s.guard()
            &&& t.lookup(name) == s.lookup(name)
            &&& idle(t, env)
        }),
{
    let t = s.returned(val)->Ok_0.1;
    lemma_denote(Node::Op(Op::Or, s.top().returned, s.condition()), env);
    lemma_idle(s, env);
    lemma_idle(t, env);
}

// ---------------------------------------------------------------------------------------------
// Calls
// ---------------------------------------------------------------------------------------------

/// Whether finding out a type evaluates nothing.
pub open spec fn is_settled(t: TypeSpecifier) -> bool {
    match t {
        TypeSpecifier::Struct(s) => s.declarations is None,
        _ => true,
    }
}

/// Whether a derivation evaluates nothing but expressions that only read.
pub open spec fn is_quiet(d: DerivedDeclarator) -> bool {
    match d {
        DerivedDeclarator::Array(ArraySize::VariableExpression(e)) => is_pure(*e),
        _ => true,
    }
}

/// Whether a parameter declaration changes no variable: it defines no structure, and the sizes of
/// its arrays are expressions that only read.
pub open spec fn changes_nothing(p: ParameterDeclaration) -> bool {
    &&& forall|j: int|
        0 <= j < p.specifiers@.len() ==> ((#[trigger] p.specifiers@[j]) matches
            DeclarationSpecifier::TypeSpecifier(t) ==> is_settled(t))
    &&& p.declarator matches Some(d) ==> forall|j: int|
        0 <= j < d.derived@.len() ==> is_quiet(#[trigger] d.derived@[j])
}

/// The name of a parameter.
pub open spec fn param_name(p: ParameterDeclaration) -> String {
    p.declarator->0.kind->Identifier_0
}

proof fn lemma_settled_types(
    depth: nat,
    st: GenState,
    ds: Seq<DeclarationSpecifier>,
    i: nat,
    acc: Seq<Option<Ty>>,
)
    requires
        forall|j: int|
            0 <= j < ds.len() ==> ((#[trigger] ds[j]) matches DeclarationSpecifier::TypeSpecifier(t)
                ==> is_settled(t)),
    ensures
        d_types(depth, st, ds, i, acc) matches Ok((_, after)) ==> after.circ == st.circ,
    decreases ds.len() - i,
{
    if i < ds.len() {
        match ds[i as int] {
            DeclarationSpecifier::TypeSpecifier(t) => {
                assert(type_of(depth, st, t) matches Ok((_, after)) ==> after.circ == st.circ);
                if type_of(depth, st, t) is Ok {
                    let (ty, after) = type_of(depth, st, t)->Ok_0;
                    lemma_settled_types(depth, after, ds, i + 1, acc.push(ty));
                }
            },
            _ => {},
        }
    }
}

proof fn lemma_quiet_derived(
    depth: nat,
    st: GenState,
    base: Ty,
    ds: Seq<DerivedDeclarator>,
    k: nat,
)
    requires
        forall|j: int| 0 <= j < ds.len() ==> is_quiet(#[trigger] ds[j]),
    ensures
        derived(depth, st, base, ds, k) matches Ok((_, after)) ==> after.circ == st.circ,
    decreases k,
{
    if 0 < k <= ds.len() {
        let d = ds[k - 1];
        assert(is_quiet(d));
        match d {
            DerivedDeclarator::Array(ArraySize::VariableExpression(e)) => {
                law_reading_changes_nothing(depth, st, *e);
            },
            _ => {},
        }
        assert(derived_once(depth, st, base, d) matches Ok((_, after)) ==> after.circ == st.circ);
        if derived_once(depth, st, base, d) is Ok {
            let (ty, after) = derived_once(depth, st, base, d)->Ok_0;
            lemma_quiet_derived(depth, after, ty, ds, (k - 1) as nat);
        }
    }
}

proof fn lemma_quiet_param(depth: nat, st: GenState, p: ParameterDeclaration)
    requires
        changes_nothing(p),
        param(depth, st, p, false) is Ok,
    ensures
        ({
            let (info, after) = param(depth, st, p, false)->Ok_0;
            &&& after.circ == st.circ
            &&& info.name == param_name(p)
            &&& p.declarator is Some
            &&& p.declarator->0.kind is Identifier
        }),
{
    lemma_settled_types(depth, st, p.specifiers@, 0, Seq::empty());
    let (base, typed) = d_type(depth, st, p.specifiers@, 0)->Ok_0;
    let d = p.declarator->0;
    lemma_quiet_derived(depth, typed, base->0, d.derived@, d.derived@.len());
}

proof fn lemma_bound(
    depth: nat,
    st: GenState,
    ps: Seq<ParameterDeclaration>,
    args: Seq<CTerm>,
    i: nat,
)
    requires
        st.circ.frames.len() > 0,
        st.circ.here() is Some,
        ps.len() == args.len(),
        i <= ps.len(),
        forall|j: int| 0 <= j < ps.len() ==> changes_nothing(#[trigger] ps[j]),
        bound(depth, st, ps, args, i) is Ok,
    ensures
        ({
            let after = bound(depth, st, ps, args, i)->Ok_0.1.circ;
            &&& after.frames.len() > 0
            &&& after.here() is Some
            &&& forall|name: Seq<char>|
                find(st.circ.here()->0, name) is Some ==> #[trigger] find(
                    after.here()->0,
                    name,
                ) == find(st.circ.here()->0, name)
            &&& forall|j: int|
                i <= j < ps.len() ==> (find(after.here()->0, param_name(#[trigger] ps[j])@) matches
                    Some(v) && v.val == args[j])
        }),
    decreases ps.len() - i,
{
    if i < ps.len() {
        let p = ps[i as int];
        lemma_quiet_param(depth, st, p);
        let (info, named) = param(depth, st, p, false)->Ok_0;
        let val = args[i as int];
        let next = named.circ.declared(info.name, info.ty, val)->Ok_0.1;
        let l = st.circ.here()->0;
        let k = List::Cons(Var { name: info.name, ty: info.ty, val }, Rc::new(l));
        assert(next.here() == Some(k));
        lemma_bound(depth, named.with_circ(next), ps, args, i + 1);
        let after = bound(depth, named.with_circ(next), ps, args, i + 1)->Ok_0.1.circ;
        assert(bound(depth, st, ps, args, i)->Ok_0.1.circ == after);
        assert(find(k, info.name@) matches Some(v) && v.val == val);
        assert(find(after.here()->0, param_name(p)@) == find(k, info.name@));
        assert forall|name: Seq<char>| find(l, name) is Some implies #[trigger] find(
            after.here()->0,
            name,
        ) == find(l, name) by {
            assert(name != info.name@);
            assert(find(k, name) == find(l, name));
        }
    }
}

/// When the body of a called function starts, the name of each parameter stands for the argument at
/// the same position. The sizes of array parameters have to be expressions that only read: they are
/// evaluated while the parameters in front are bound already, and could assign to them.
pub proof fn law_parameters_stand_for_their_arguments(
    depth: nat,
    st: GenState,
    f: FnInfo,
    args: Seq<CTerm>,
    i: int,
)
    requires
        forall|j: int| 0 <= j < params(f).len() ==> changes_nothing(#[trigger] params(f)[j]),
        called(depth, st, f, args) is Ok,
        0 <= i < params(f).len(),
    ensures
        ({
            let within = st.with_circ(st.circ.entered_fn(f.name, f.ret_ty));
            let starts = bound(depth, within, params(f), args, 0);
            &&& params(f).len() == args.len()
            &&& starts is Ok
            &&& starts->Ok_0.1.circ.get(param_name(params(f)[i])) == Ok::<CTerm, CError>(args[i])
        }),
{
    let within = st.with_circ(st.circ.entered_fn(f.name, f.ret_ty));
    lemma_bound(depth, within, params(f), args, 0);
    let p = params(f)[i];
    let after = bound(depth, within, params(f), args, 0)->Ok_0.1.circ;
    assert(find(after.here()->0, param_name(p)@) matches Some(v) && v.val == args[i]);
    assert(find_scopes(shared(after.top().scopes), param_name(p)@) == find(
        after.here()->0,
        param_name(p)@,
    ));
}

/// The zero of a type means zero.
pub(crate) proof fn lemma_unset(env: Env, ty: Ty)
    requires
        is_number_type(ty),
    ensures
        scalar(env, unset(ty)) == Some(zero_number(ty)),
{
    match ty {
        Ty::Int(_, w) => {
            lemma_modulus(w);
            lemma_literal(env, 0, w);
        },
        _ => lemma_denote(Node::Const(Value::Bool(false)), env),
    }
}

/// Whether a type is that of truth values or of numbers whose constants are computed.
pub open spec fn is_number_type(ty: Ty) -> bool {
    match ty {
        Ty::Bool => true,
        Ty::Int(_, w) => 0 < w <= MAX_CONST_WIDTH,
        _ => false,
    }
}

/// A call means what the body of the function does. The body starts with the parameters standing
/// for the arguments, the global variables of the caller, and zero to return; it runs where the
/// call runs. The value of the call is what the body returns, in the return type, and the caller's
/// own variables are as before.
pub proof fn law_call_means_its_body(
    env: Env,
    depth: nat,
    st: GenState,
    f: FnInfo,
    args: Seq<CTerm>,
    ty: Ty,
)
    requires
        circ_wf(st.circ),
        values_wf(args),
        f.ret_ty == Some(ty),
        is_number_type(ty),
        forall|j: int| 0 <= j < params(f).len() ==> changes_nothing(#[trigger] params(f)[j]),
        called(depth, st, f, args) is Ok,
    ensures
        ({
            let within = st.with_circ(st.circ.entered_fn(f.name, f.ret_ty));
            let starts = bound(depth, within, params(f), args, 0)->Ok_0.1;
            let m = machine(env, starts.circ);
            let (v, after) = called(depth, st, f, args)->Ok_0;
            &&& m.globals == store_of(env, st.circ.globals)
            &&& !m.gone
            &&& m.result == Some(Some(zero_number(ty)))
            &&& forall|i: int|
                0 <= i < args.len() ==> m.look(param_name(params(f)[i])@) == scalar(
                    env,
                    #[trigger] args[i],
                )
            &&& after.circ.frames == st.circ.frames
            &&& match run(m, *f.body, is_true(st.circ.condition(), env)) {
                Some(r) => {
                    &&& r.result matches Some(Some(n)) ==> scalar(env, v) == converted_to(ty, n)
                    &&& store_of(env, after.circ.globals) == r.globals
                },
                None => true,
            }
        }),
{
    let within = st.with_circ(st.circ.entered_fn(f.name, f.ret_ty));
    let r = bound(depth, within, params(f), args, 0);
    let starts = r->Ok_0.1;
    lemma_bound(depth, within, params(f), args, 0);
    lemma_quiet_bound(depth, within, params(f), args, 0);
    lemma_unset(env, ty);
    lemma_denote(Node::Const(Value::Bool(false)), env);
    let m = machine(env, starts.circ);
    assert forall|i: int| 0 <= i < args.len() implies m.look(param_name(params(f)[i])@) == scalar(
        env,
        #[trigger] args[i],
    ) by {
        law_parameters_stand_for_their_arguments(depth, st, f, args, i);
        lemma_look(env, starts.circ, param_name(params(f)[i])@);
    }
    wf_entered_fn(st.circ, f.name, f.ret_ty);
    fit_bound(depth, within, params(f), args, 0);
    let ran = stmt(depth, starts, shared(f.body))->Ok_0.1;
    law_statement_keeps_shape(env, depth, starts, shared(f.body));
    assert(ran.circ.frames.drop_last() == starts.circ.frames.drop_last());
    assert(within.circ.frames.drop_last() =~= st.circ.frames);
    if run(m, shared(f.body), is_true(st.circ.condition(), env)) is Some {
        law_statement_means_its_run(env, depth, starts, shared(f.body));
        let v = ran.circ.top().ret_val->0;
        let k = run(m, shared(f.body), is_true(st.circ.condition(), env))->0;
        if k.result matches Some(Some(_)) {
            law_cast_converts(env, ty, v);
        }
    }
}

/// Binding parameters changes nothing but the innermost scope.
proof fn lemma_quiet_bound(
    depth: nat,
    st: GenState,
    ps: Seq<ParameterDeclaration>,
    args: Seq<CTerm>,
    i: nat,
)
    requires
        st.circ.frames.len() > 0,
        forall|j: int| 0 <= j < ps.len() ==> changes_nothing(#[trigger] ps[j]),
        bound(depth, st, ps, args, i) is Ok,
    ensures
        ({
            let after = bound(depth, st, ps, args, i)->Ok_0.1.circ;
            &&& after.frames.len() > 0
            &&& after.frames.drop_last() == st.circ.frames.drop_last()
            &&& after.top() == Frame { scopes: after.top().scopes, ..st.circ.top() }
            &&& after.globals == st.circ.globals
            &&& after.allocs == st.circ.allocs
        }),
    decreases ps.len() - i,
{
    if i < ps.len() {
        let p = ps[i as int];
        lemma_quiet_param(depth, st, p);
        let (info, named) = param(depth, st, p, false)->Ok_0;
        let next = named.circ.declared(info.name, info.ty, args[i as int])->Ok_0.1;
        assert(next.frames.drop_last() =~= st.circ.frames.drop_last());
        lemma_quiet_bound(depth, named.with_circ(next), ps, args, i + 1);
    }
}

/// The arguments of a call are the values of the argument expressions, in order, where those only
/// read.
pub proof fn law_arguments_are_the_values(
    depth: nat,
    st: GenState,
    es: Seq<Expression>,
    i: nat,
    acc: Seq<CTerm>,
)
    requires
        forall|j: int| 0 <= j < es.len() ==> is_pure(#[trigger] es[j]),
        i <= es.len(),
    ensures
        exprs(depth, st, es, i, acc) is Ok <==> forall|j: int|
            i <= j < es.len() ==> expr(depth, st, #[trigger] es[j]) is Ok,
        exprs(depth, st, es, i, acc) matches Ok((vs, after)) ==> {
            &&& after == st
            &&& vs.len() == acc.len() + es.len() - i
            &&& vs.take(acc.len() as int) == acc
            &&& forall|j: int|
                i <= j < es.len() ==> expr(depth, st, #[trigger] es[j]) == Ok::<
                    (CTerm, GenState),
                    CError,
                >((vs[acc.len() + j - i], st))
        },
    decreases es.len() - i,
{
    if i < es.len() {
        let e = es[i as int];
        law_reading_changes_nothing(depth, st, e);
        match expr(depth, st, e) {
            Err(_) => {
                assert(expr(depth, st, es[i as int]) is Err);
            },
            Ok((v, _)) => {
                law_arguments_are_the_values(depth, st, es, i + 1, acc.push(v));
                assert(exprs(depth, st, es, i, acc) == exprs(depth, st, es, i + 1, acc.push(v)));
                if exprs(depth, st, es, i, acc) is Ok {
                    let vs = exprs(depth, st, es, i, acc)->Ok_0.0;
                    assert(vs[acc.len() as int] == vs.take(acc.len() as int + 1)[acc.len() as int]);
                    assert(vs.take(acc.len() as int) =~= vs.take(acc.len() as int + 1).take(
                        acc.len() as int,
                    ));
                    assert(acc =~= acc.push(v).take(acc.len() as int));
                }
            },
        }
    } else {
        assert(acc.take(acc.len() as int) =~= acc);
    }
}

// ---------------------------------------------------------------------------------------------
// Loops
// ---------------------------------------------------------------------------------------------

/// Whether a loop gets from one state to the other by running its body once, in a scope of its own,
/// and then its step.
pub open spec fn goes_round(depth: nat, f: ForStatement, a: GenState, b: GenState) -> bool {
    match a.circ.entered_scope() {
        Ok((_, inner)) => match stmt(depth, a.with_circ(inner), f.statement) {
            Ok((_, ran)) => match (ran.circ.exited_scope(), f.step) {
                (Ok((_, left)), Some(e)) => match expr(depth, ran.with_circ(left), e) {
                    Ok((_, t)) => t == b,
                    Err(_) => false,
                },
                _ => false,
            },
            Err(_) => false,
        },
        Err(_) => false,
    }
}

/// Whether the states are those behind ever more rounds of a loop.
pub open spec fn are_rounds(depth: nat, f: ForStatement, path: Seq<GenState>) -> bool {
    path.len() > 0 && forall|j: int|
        0 <= j < path.len() - 1 ==> #[trigger] goes_round(depth, f, path[j], path[j + 1])
}

proof fn lemma_rounds_of_path(depth: nat, f: ForStatement, path: Seq<GenState>)
    requires
        are_rounds(depth, f, path),
    ensures
        rounds(depth, path[0], f, (path.len() - 1) as nat) == Ok::<((), GenState), CError>(
            ((), path.last()),
        ),
    decreases path.len(),
{
    if path.len() > 1 {
        let rest = path.skip(1);
        assert forall|j: int| 0 <= j < rest.len() - 1 implies #[trigger] goes_round(
            depth,
            f,
            rest[j],
            rest[j + 1],
        ) by {
            assert(goes_round(depth, f, path[j + 1], path[j + 1 + 1]));
        }
        lemma_rounds_of_path(depth, f, rest);
        assert(goes_round(depth, f, path[0], path[0int + 1]));
        assert(one_round(depth, path[0], f) == Ok::<((), GenState), CError>(((), path[1])));
        assert(rest[0] == path[1]);
        assert(rest.last() == path.last());
    }
}

proof fn lemma_path_of_rounds(depth: nat, st: GenState, f: ForStatement, n: nat) -> (path: Seq<
    GenState,
>)
    requires
        rounds(depth, st, f, n) is Ok,
    ensures
        are_rounds(depth, f, path),
        path.len() == n + 1,
        path[0] == st,
        path.last() == rounds(depth, st, f, n)->Ok_0.1,
    decreases n,
{
    if n == 0 {
        seq![st]
    } else {
        let next = one_round(depth, st, f)->Ok_0.1;
        let rest = lemma_path_of_rounds(depth, next, f, (n - 1) as nat);
        let path = seq![st] + rest;
        assert forall|j: int| 0 <= j < path.len() - 1 implies #[trigger] goes_round(
            depth,
            f,
            path[j],
            path[j + 1],
        ) by {
            if j > 0 {
                assert(goes_round(depth, f, rest[j - 1], rest[j - 1 + 1]));
                assert(path[j] == rest[j - 1]);
                assert(path[j + 1] == rest[j]);
            } else {
                assert(path[1] == rest[0]);
            }
        }
        assert(path.last() == rest.last());
        path
    }
}

/// A loop whose header says that it runs `n` times runs just `n` times, each time its body and then
/// its step: the state behind it is the one behind that many rounds, without the scope of the loop.
/// It is translated where its header and each of the rounds are.
pub proof fn law_loop_runs_its_rounds(depth: nat, st: GenState, f: ForStatement, n: int)
    requires
        st.circ.frames.len() > 0,
        ({
            let within = st.with_circ(st.circ.entered_scope()->Ok_0.1);
            iterations(depth, within, f) matches Ok((k, _)) && k == n
        }),
    ensures
        ({
            let within = st.with_circ(st.circ.entered_scope()->Ok_0.1);
            let first = iterations(depth, within, f)->Ok_0.1;
            let count = if n > 0 {
                n
            } else {
                0
            };
            &&& forall|path: Seq<GenState>|
                #![trigger are_rounds(depth, f, path)]
                are_rounds(depth, f, path) && path[0] == first && path.len() == count + 1
                    ==> stmt(depth, st, Statement::For(Box::new(f))) == path.last().lift(
                    path.last().circ.exited_scope(),
                )
            &&& stmt(depth, st, Statement::For(Box::new(f))) is Ok ==> exists|
                path: Seq<GenState>,
            |
                #![trigger are_rounds(depth, f, path)]
                are_rounds(depth, f, path) && path[0] == first && path.len() == count + 1
        }),
{
    let within = st.with_circ(st.circ.entered_scope()->Ok_0.1);
    let first = iterations(depth, within, f)->Ok_0.1;
    let count: nat = if n > 0 {
        n as nat
    } else {
        0
    };
    let s = Statement::For(Box::new(f));
    assert forall|path: Seq<GenState>|
        #![trigger are_rounds(depth, f, path)]
        are_rounds(depth, f, path) && path[0] == first && path.len() == count + 1 implies stmt(
        depth,
        st,
        s,
    ) == path.last().lift(path.last().circ.exited_scope()) by {
        lemma_rounds_of_path(depth, f, path);
    }
    if stmt(depth, st, s) is Ok {
        let path = lemma_path_of_rounds(depth, first, f, count);
        assert(are_rounds(depth, f, path));
    }
}

/// Whether an expression is the literal of a 32-bit signed number.
pub open spec fn is_literal(e: Expression, n: int) -> bool {
    e matches Expression::Constant(Constant::Integer(i)) && literal_number(i) == Some(
        Num::Number(true, 32, n % 0x1_0000_0000),
    ) && -0x8000_0000 <= n < 0x8000_0000
}

/// Whether an expression is an operator between a variable and a literal.
pub open spec fn is_step(e: Expression, op: BinaryOperator, name: Seq<char>, n: int) -> bool {
    e matches Expression::BinaryOperator(b) && b.operator == op && (b.lhs matches
        Expression::Identifier(v) && v@ == name) && is_literal(b.rhs, n)
}

/// Whether a loop is `for (i = from; i < to; i += by) x += c`.
pub open spec fn is_counting_loop(
    f: ForStatement,
    i: Seq<char>,
    x: Seq<char>,
    from: int,
    to: int,
    by: int,
    c: int,
) -> bool {
    &&& f.initializer matches ForInitializer::Expression(e) && is_step(
        e,
        BinaryOperator::Assign,
        i,
        from,
    )
    &&& f.condition matches Some(e) && is_step(e, BinaryOperator::Less, i, to)
    &&& f.step matches Some(e) && is_step(e, BinaryOperator::AssignPlus, i, by)
    &&& f.statement matches Statement::Expression(Some(e)) && is_step(
        *e,
        BinaryOperator::AssignPlus,
        x,
        c,
    )
}

/// What an assignment on the machine does to what variables hold.
proof fn lemma_put(m: Machine, name: Seq<char>, n: Num, other: Seq<char>)
    requires
        m.look(name) is Some,
    ensures
        m.put(name, n).look(name) == Some(n),
        other != name ==> m.put(name, n).look(other) == m.look(other),
{
    lemma_changed(m.scopes, name, n, other);
}

proof fn lemma_changed(l: List<Store>, name: Seq<char>, n: Num, other: Seq<char>)
    ensures
        seen(l, name) is Some ==> seen(changed(l, name, n), name) == Some(Some(n)),
        other != name ==> seen(changed(l, name, n), other) == seen(l, other),
    decreases l,
{
    match l {
        List::Nil => {},
        List::Cons(_, rest) => lemma_changed(shared(rest), name, n, other),
    }
}

/// `x += c` on the machine.
proof fn lemma_step(m: Machine, e: Expression, name: Seq<char>, a: int, c: int, other: Seq<char>)
    requires
        is_step(e, BinaryOperator::AssignPlus, name, c),
        m.look(name) == Some(Num::Number(true, 32, a % 0x1_0000_0000)),
        other != name,
    ensures
        effect(m, e, true) matches Some((_, k)) && k.look(name) == Some(
            Num::Number(true, 32, (a + c) % 0x1_0000_0000),
        ) && k.look(other) == m.look(other) && k.gone == m.gone && (hollow(m) ==> hollow(k)),
{
    lemma2_to64();
    let o = m.look(name)->0;
    let n = Num::Number(true, 32, c % 0x1_0000_0000);
    let sum = computed(COp::Add, o, n);
    lemma_add_mod_noop(a, c, 0x1_0000_0000);
    assert(sum == Num::Number(true, 32, (a + c) % 0x1_0000_0000));
    lemma_put(m, name, sum, other);
}

/// Whether the innermost scope has no variable.
spec fn hollow(m: Machine) -> bool {
    m.scopes matches List::Cons(s, _) && s == Map::<Seq<char>, Option<Num>>::empty()
}

proof fn lemma_hollow(m: Machine, name: Seq<char>)
    requires
        hollow(m),
    ensures
        m.pop().look(name) == m.look(name),
{
}

/// A 32-bit number read with its sign is itself.
proof fn lemma_signed(n: int)
    requires
        -0x8000_0000 <= n < 0x8000_0000,
    ensures
        signed(32, n % 0x1_0000_0000) == n,
{
    lemma2_to64();
    if n >= 0 {
        lemma_small_mod(n as nat, 0x1_0000_0000);
    } else {
        lemma_fundamental_div_mod_converse(n, 0x1_0000_0000, -1, n + 0x1_0000_0000);
    }
}

proof fn lemma_push_look(m: Machine, name: Seq<char>)
    ensures
        m.push().look(name) == m.look(name),
        m.push().gone == m.gone,
{
}

proof fn lemma_pop_changed(m: Machine, name: Seq<char>, n: Num)
    requires
        m.look(name) is Some,
    ensures
        m.push().put(name, n).pop() == m.put(name, n),
{
    assert(changed(m.push().scopes, name, n) == List::Cons(
        Map::<Seq<char>, Option<Num>>::empty(),
        Rc::new(changed(m.scopes, name, n)),
    ));
}

/// One round of the loop on the machine.
#[verifier::spinoff_prover]
proof fn lemma_counting_round(
    m: Machine,
    f: ForStatement,
    body: Expression,
    step: Expression,
    i: Seq<char>,
    x: Seq<char>,
    by: int,
    c: int,
    a: int,
    b: int,
    n: nat,
) -> (next: Machine)
    requires
        f.statement == Statement::Expression(Some(Box::new(body))),
        f.step == Some(step),
        is_step(body, BinaryOperator::AssignPlus, x, c),
        is_step(step, BinaryOperator::AssignPlus, i, by),
        i != x,
        !m.gone,
        hollow(m),
        m.look(x) == Some(Num::Number(true, 32, a % 0x1_0000_0000)),
        m.look(i) == Some(Num::Number(true, 32, b % 0x1_0000_0000)),
        n > 0,
    ensures
        !next.gone,
        hollow(next),
        next.look(x) == Some(Num::Number(true, 32, (a + c) % 0x1_0000_0000)),
        next.look(i) == Some(Num::Number(true, 32, (b + by) % 0x1_0000_0000)),
        run_rounds(m, f, n, true) == run_rounds(next, f, (n - 1) as nat, true),
{
    lemma_push_look(m, x);
    lemma_push_look(m, i);
    lemma_step(m.push(), body, x, a, c, i);
    let (sum, inner) = effect(m.push(), body, true)->0;
    assert(inner == m.push().put(x, sum));
    lemma_pop_changed(m, x, sum);
    lemma_put(m.push(), x, sum, i);
    let left = m.put(x, sum);
    lemma_put(m, x, sum, i);
    assert(hollow(left));
    assert(run(m.push(), f.statement, true) == Some(inner));
    lemma_step(left, step, i, b, by, x);
    let (_, next) = effect(left, step, true)->0;
    next
}

proof fn lemma_counting_rounds(
    m: Machine,
    f: ForStatement,
    body: Expression,
    step: Expression,
    i: Seq<char>,
    x: Seq<char>,
    by: int,
    c: int,
    a: int,
    b: int,
    n: nat,
)
    requires
        f.statement == Statement::Expression(Some(Box::new(body))),
        f.step == Some(step),
        is_step(body, BinaryOperator::AssignPlus, x, c),
        is_step(step, BinaryOperator::AssignPlus, i, by),
        i != x,
        !m.gone,
        hollow(m),
        m.look(x) == Some(Num::Number(true, 32, a % 0x1_0000_0000)),
        m.look(i) == Some(Num::Number(true, 32, b % 0x1_0000_0000)),
    ensures
        run_rounds(m, f, n, true) matches Some(k) && k.look(x) == Some(
            Num::Number(true, 32, (a + n * c) % 0x1_0000_0000),
        ) && k.look(i) == Some(Num::Number(true, 32, (b + n * by) % 0x1_0000_0000)) && hollow(k),
    decreases n,
{
    if n == 0 {
        assert(0 * c == 0 && 0 * by == 0);
    } else {
        let next = lemma_counting_round(m, f, body, step, i, x, by, c, a, b, n);
        let k = (n - 1) as nat;
        lemma_counting_rounds(next, f, body, step, i, x, by, c, a + c, b + by, k);
        assert((a + c) + k * c == a + n * c) by (nonlinear_arith)
            requires
                k == n - 1,
        ;
        assert((b + by) + k * by == b + n * by) by (nonlinear_arith)
            requires
                k == n - 1,
        ;
    }
}

/// After `for (i = from; i < to; i += by) x += c`, where it runs, the variable `x` is its former
/// value plus `c` for each of the numbers `from`, `from + by`, and so on below `to`, and `i` is the
/// first of them that is not. `k` is how many there are below `to`. Beyond what single precision
/// holds exactly, the number of rounds is rounded.
pub proof fn law_counting_loop_adds(
    env: Env,
    depth: nat,
    st: GenState,
    f: ForStatement,
    i: String,
    x: String,
    from: int,
    to: int,
    by: int,
    c: int,
    a: int,
    k: nat,
)
    requires
        is_counting_loop(f, i@, x@, from, to, by, c),
        i@ != x@,
        -SIGNIFICAND_END <= from <= SIGNIFICAND_END,
        -SIGNIFICAND_END <= to <= SIGNIFICAND_END,
        0 < by <= SIGNIFICAND_END,
        -SIGNIFICAND_END < to - from < SIGNIFICAND_END,
        from + k * by >= to,
        k > 0 ==> from + (k - 1) * by < to,
        st.circ.frames.len() > 0,
        circ_wf(st.circ),
        is_true(st.circ.condition(), env),
        st.circ.get(x) matches Ok(v) && scalar(env, v) == Some(
            Num::Number(true, 32, a % 0x1_0000_0000),
        ),
        st.circ.get(i) matches Ok(v) && (scalar(env, v) matches Some(Num::Number(true, 32, _))),
        stmt(depth, st, Statement::For(Box::new(f))) is Ok,
    ensures
        ({
            let after = stmt(depth, st, Statement::For(Box::new(f)))->Ok_0.1;
            &&& after.circ.get(x) matches Ok(v) && scalar(env, v) == Some(
                Num::Number(true, 32, (a + k * c) % 0x1_0000_0000),
            )
            &&& after.circ.get(i) matches Ok(v) && scalar(env, v) == Some(
                Num::Number(true, 32, (from + k * by) % 0x1_0000_0000),
            )
        }),
{
    let s = Statement::For(Box::new(f));
    let m = machine(env, st.circ);
    lemma_look(env, st.circ, x@);
    lemma_look(env, st.circ, i@);
    lemma_live(env, st.circ);
    lemma2_to64();
    let p = m.push();
    lemma_push_look(m, x@);
    lemma_push_look(m, i@);
    let init = f.initializer->Expression_0;
    let first = Num::Number(true, 32, from % 0x1_0000_0000);
    lemma_put(m, i@, first, x@);
    let started = p.put(i@, first);
    assert(effect(p, init, true) == Some((first, started)));
    lemma_pop_changed(m, i@, first);
    lemma_put(p, i@, first, x@);
    lemma_signed(from);
    lemma_signed(to);
    lemma_signed(by);
    let n = trips(from, to, by);
    assert(n <= k && (k > 0 ==> n == k)) by {
        law_trips_are_the_rounds_of_the_loop(from, to, by, k as int);
        if k > 0 {
            law_trips_are_the_rounds_of_the_loop(from, to, by, k - 1);
        }
    }
    let body = *f.statement->Expression_0->0;
    lemma_counting_rounds(started, f, body, f.step->0, i@, x@, by, c, a, from, k);
    let last = run_rounds(started, f, k, true)->0;
    assert(run(m, s, true) == Some(last.pop()));
    lemma_hollow(last, x@);
    lemma_hollow(last, i@);
    law_statement_means_its_run(env, depth, st, s);
    law_statement_keeps_shape(env, depth, st, s);
    let after = stmt(depth, st, s)->Ok_0.1;
    lemma_look(env, after.circ, x@);
    lemma_look(env, after.circ, i@);
}

// ---------------------------------------------------------------------------------------------
// Statements
// ---------------------------------------------------------------------------------------------

/// A branch is entered where it can be, its statement is translated within, and then it is left
/// again: what comes out is what the statement makes, with the branches of before.
pub proof fn law_branch_is_its_statement(
    env: Env,
    depth: nat,
    st: GenState,
    c: Term,
    s: Statement,
)
    requires
        st.circ.frames.len() > 0,
        c.sort() == Sort::Bool,
    ensures
        ({
            let within = st.with_circ(st.circ.entered_condition(c)->Ok_0.1);
            &&& branch(depth, st, c, s) is Ok <==> stmt(depth, within, s) is Ok
            &&& branch(depth, st, c, s) matches Err(e) ==> stmt(depth, within, s) == Err::<
                ((), GenState),
                CError,
            >(e)
            &&& branch(depth, st, c, s) matches Ok((_, after)) ==> {
                let ran = stmt(depth, within, s)->Ok_0.1;
                &&& after.circ.top() == Frame { guards: st.circ.top().guards, ..ran.circ.top() }
                &&& after == ran.with_circ(after.circ)
                &&& after.circ == ran.circ.with_top(after.circ.top())
            }
        }),
{
    let within = st.with_circ(st.circ.entered_condition(c)->Ok_0.1);
    if stmt(depth, within, s) is Ok {
        law_statement_keeps_shape(env, depth, within, s);
    }
}

/// A conditional statement tests its condition, and is its first branch under the condition and
/// then its second branch, where it has one, under the negation.
pub proof fn law_if_is_its_branches(
    depth: nat,
    st: GenState,
    i: IfStatement,
    v: CTerm,
    tested: GenState,
    t: Term,
)
    requires
        expr(depth, st, i.condition) == Ok::<(CTerm, GenState), CError>((v, tested)),
        v.one_term() == Ok::<Term, CError>(t),
    ensures
        ({
            let r = stmt(depth, st, Statement::If(Box::new(i)));
            match branch(depth, tested, t, i.then_statement) {
                Err(e) => r == Err::<((), GenState), CError>(e),
                Ok((_, first)) => match i.else_statement {
                    None => r == Ok::<((), GenState), CError>(((), first)),
                    Some(e) => r == branch(depth, first, term_not(t), e),
                },
            }
        }),
{
    match branch(depth, tested, t, i.then_statement) {
        Ok((u, _)) => {
            assert(u == ());
        },
        Err(_) => {},
    }
}

/// A return statement with an expression evaluates it and returns its value; an expression as a
/// statement is evaluated for what it changes; an empty statement does nothing.
pub proof fn law_simple_statements(depth: nat, st: GenState, e: Expression)
    ensures
        match expr(depth, st, e) {
            Err(r) => {
                &&& stmt(depth, st, Statement::Return(Some(Box::new(e)))) == Err::<
                    ((), GenState),
                    CError,
                >(r)
                &&& stmt(depth, st, Statement::Expression(Some(Box::new(e)))) == Err::<
                    ((), GenState),
                    CError,
                >(r)
            },
            Ok((v, after)) => {
                &&& stmt(depth, st, Statement::Return(Some(Box::new(e)))) == after.lift(
                    after.circ.returned(Some(v)),
                )
                &&& stmt(depth, st, Statement::Expression(Some(Box::new(e)))) == Ok::<
                    ((), GenState),
                    CError,
                >(((), after))
            },
        },
        stmt(depth, st, Statement::Return(None)) == st.lift(st.circ.returned(None)),
        stmt(depth, st, Statement::Expression(None)) == Ok::<((), GenState), CError>(((), st)),
{
}

/// A variable that is not there can be neither read nor assigned to, and a function without a
/// return type returns no value.
pub proof fn law_what_is_not_there_is_refused(s: CircState, name: String, val: CTerm)
    ensures
        s.lookup(name@) is None ==> s.get(name) == Err::<CTerm, CError>(
            CError::Reject(Reason::NoVariable(name)),
        ) && s.assigned(name, val) == Err::<(CTerm, CircState), CError>(
            CError::Reject(Reason::NoVariable(name)),
        ),
        s.lookup(name@) matches Some(v) ==> s.get(name) == Ok::<CTerm, CError>(v.val),
        s.frames.len() > 0 && s.top().ret_val is None ==> s.returned(Some(val)) == Err::<
            ((), CircState),
            CError,
        >(CError::Reject(Reason::NoReturnType)),
        s.frames.len() > 0 ==> s.returned(None) is Ok,
{
}

} // verus!
