//! What whole functions and programs on numbers and truth values compute.
use std::rc::Rc;

use vstd::prelude::*;

use crate::ast::BlockItem;
use crate::ast::DeclarationSpecifier;
use crate::ast::DeclaratorKind;
use crate::ast::DerivedDeclarator;
use crate::ast::Expression;
use crate::ast::ExternalDeclaration;
use crate::ast::ForInitializer;
use crate::ast::ForStatement;
use crate::ast::FunctionDefinition;
use crate::ast::InitDeclarator;
use crate::ast::Initializer;
use crate::ast::ParameterDeclaration;
use crate::ast::Statement;
use crate::circ::CircState;
use crate::circ::Computation;
use crate::circ::Party;
use crate::circ::PartyId;
use crate::circ::Var;
use crate::cterm::cast_to;
use crate::cterm::value_false;
use crate::cterm::CTerm;
use crate::data::leaf_sort;
use crate::error::CError;
use crate::error::Reason;
use crate::flow::is_number_type;
use crate::flow::lemma_unset;
use crate::flow::param_name;
use crate::front::finished;
use crate::ir::denote;
use crate::ir::lemma_denote;
use crate::ir::lemma_of;
use crate::ir::Meaning;
use crate::ir::Node;
use crate::ir::Term;
use crate::ir::Value;
use crate::kept::is_true;
use crate::kept::Env;
use crate::laws::law_statement_keeps_shape;
use crate::list::shared;
use crate::list::List;
use crate::runs::declared_keyword;
use crate::runs::effect;
use crate::runs::eval;
use crate::runs::keyword;
use crate::runs::law_statement_means_its_run;
use crate::runs::lemma_declare;
use crate::runs::machine;
use crate::runs::run;
use crate::runs::run_block;
use crate::runs::run_declaration;
use crate::runs::run_declarators;
use crate::runs::run_end;
use crate::runs::run_rounds;
use crate::runs::run_start;
use crate::runs::run_step;
use crate::runs::store_of;
use crate::runs::stores_of;
use crate::runs::zero_number;
use crate::runs::Machine;
use crate::runs::Store;
use crate::shapes::followed;
use crate::single::trips;
use crate::total::are_tidy;
use crate::total::is_fixed;
use crate::total::law_statement_that_runs_is_translated;
use crate::total::lemma_declared_tidy;
use crate::total::scopes_are_tidy;
use crate::total::sees_tidy;
use crate::translate::bound;
use crate::translate::called;
use crate::translate::compressed;
use crate::translate::d_type;
use crate::translate::d_types;
use crate::translate::derived;
use crate::translate::entry;
use crate::translate::entry_params;
use crate::translate::fn_args;
use crate::translate::fn_info;
use crate::translate::param;
use crate::translate::params;
use crate::translate::program;
use crate::translate::published;
use crate::translate::start;
use crate::translate::stmt;
use crate::translate::visibility;
use crate::translate::visited;
use crate::translate::FnInfo;
use crate::translate::GenState;
use crate::translate::Mode;
use crate::translate::ParamInfo;
use crate::translate::Step;
use crate::types::Ty;
use crate::values::converted_to;
use crate::values::fits;
use crate::values::scalar;
use crate::values::Num;
use crate::wellformed::circ_wf;
use crate::wellformed::law_start_is_well_formed;
use crate::wellformed::wf_declared_input;
use crate::wellformed::wf_entered_fn;

verus! {

// ---------------------------------------------------------------------------------------------
// Calls
// ---------------------------------------------------------------------------------------------

/// A call is translated just where there are as many arguments as parameters, the parameters can be
/// bound, the body can then be translated, and what it returns can be converted to the return
/// type. Its value is what the body returns, in the return type; behind it the caller goes on, with
/// the types, global variables, memory and inputs that the body leaves.
pub proof fn law_call_gives_what_its_body_returns(
    depth: nat,
    st: GenState,
    f: FnInfo,
    args: Seq<CTerm>,
)
    ensures
        ({
            let within = st.with_circ(st.circ.entered_fn(f.name, f.ret_ty));
            let starts = bound(depth, within, params(f), args, 0);
            let ran = stmt(depth, starts->Ok_0.1, *f.body);
            let out = ran->Ok_0.1;
            let given = match out.circ.top().ret_val {
                Some(v) => v,
                None => value_false(),
            };
            let leaves = params(f).len() == args.len() && starts is Ok && ran is Ok
                && out.circ.frames.len() > 0;
            &&& called(depth, st, f, args) is Ok <==> leaves && (f.ret_ty is Some ==> cast_to(
                f.ret_ty,
                given,
            ) is Ok)
            &&& called(depth, st, f, args) matches Ok((v, after)) ==> {
                &&& f.ret_ty is None ==> v == given
                &&& f.ret_ty is Some ==> cast_to(f.ret_ty, given) == Ok::<CTerm, CError>(v)
                &&& after == out.with_circ(
                    CircState { frames: out.circ.frames.drop_last(), ..out.circ },
                )
            }
        }),
{
}

// ---------------------------------------------------------------------------------------------
// Programs
// ---------------------------------------------------------------------------------------------

/// The type of a parameter of the entry function that is declared by who knows it, a keyword and a
/// plain name.
pub open spec fn entry_type(p: ParameterDeclaration) -> Option<Ty> {
    if p.specifiers@.len() == 2 && (p.declarator matches Some(d) && d.kind is Identifier
        && d.derived@.len() == 0) {
        match p.specifiers@[1] {
            DeclarationSpecifier::TypeSpecifier(t) => keyword(t),
            _ => None,
        }
    } else {
        None
    }
}

/// The number or truth value that the `k`-th input is, where it is one of the type.
pub open spec fn input_number(env: Env, ty: Ty, k: int) -> Option<Num> {
    match (ty, env(k as usize)) {
        (Ty::Bool, Value::Bool(b)) => Some(Num::Truth(b)),
        (Ty::Int(s, w), Value::Bv(v, x)) => if v == w && fits(w, x as int) {
            Some(Num::Number(s, w, x as int))
        } else {
            None
        },
        _ => None,
    }
}

/// The machine with the parameters from the `i`-th on declared, each with the input of its number.
pub open spec fn with_inputs(env: Env, m: Machine, ps: Seq<ParameterDeclaration>, i: nat) -> Option<
    Machine,
>
    decreases ps.len() - i,
{
    if i >= ps.len() {
        Some(m)
    } else {
        let p = ps[i as int];
        match entry_type(p) {
            Some(ty) => match input_number(env, ty, i as int) {
                Some(n) => if m.is_free(param_name(p)@) {
                    with_inputs(env, m.declare(param_name(p)@, n), ps, i + 1)
                } else {
                    None
                },
                None => None,
            },
            None => None,
        }
    }
}

/// A machine without variables that returns zero of the type.
pub open spec fn fresh(ty: Ty) -> Machine {
    Machine {
        scopes: List::Cons(Map::empty(), Rc::new(List::Nil)),
        globals: Map::empty(),
        gone: false,
        result: Some(Some(zero_number(ty))),
    }
}

proof fn lemma_entry_param(depth: nat, st: GenState, p: ParameterDeclaration, vis: Option<PartyId>)
    requires
        entry_type(p) is Some,
        visibility(p.specifiers@[0], st.mode) == Ok::<Option<PartyId>, CError>(vis),
    ensures
        param(depth, st, p, true) == Ok::<(ParamInfo, GenState), CError>(
            (ParamInfo { name: param_name(p), ty: entry_type(p)->0, vis }, st),
        ),
{
    let ds = p.specifiers@;
    let t = ds[1]->TypeSpecifier_0;
    let ty = entry_type(p)->0;
    reveal_with_fuel(d_types, 3);
    let ts = Seq::<Option<Ty>>::empty().push(keyword(t));
    assert(d_types(depth, st, ds, 1, Seq::empty()) == Ok::<(Seq<Option<Ty>>, GenState), CError>(
        (ts, st),
    ));
    assert(compressed(ts) == Ok::<Option<Ty>, CError>(ts[0]));
    assert(d_type(depth, st, ds, 1) == Ok::<(Option<Ty>, GenState), CError>((Some(ty), st)));
    let d = p.declarator->0;
    assert(derived(depth, st, ty, d.derived@, 0) == Ok::<(Ty, GenState), CError>((ty, st)));
}

proof fn lemma_scalar_input(
    env: Env,
    c: CircState,
    name: String,
    ty: Ty,
    vis: Option<PartyId>,
    n: Num,
)
    requires
        sees_tidy(c),
        circ_wf(c),
        c.inputs.len() < usize::MAX,
        ty is Bool || ty is Int,
        input_number(env, ty, c.inputs.len() as int) == Some(n),
        machine(env, c).is_free(name@),
    ensures
        c.declared_input(name, ty, vis) matches Ok((_, d)) && {
            &&& machine(env, d) == machine(env, c).declare(name@, n)
            &&& sees_tidy(d)
            &&& circ_wf(d)
            &&& d.guard() == c.guard()
            &&& d.inputs.len() == c.inputs.len() + 1
            &&& d.inputs.last().name == name
            &&& d.inputs.last().vis == vis
            &&& d.outputs == c.outputs
            &&& d.frames.len() == c.frames.len()
        },
{
    wf_declared_input(c, name, ty, vis);
    let (v, u) = c.input(name, List::Nil, ty, vis)->Ok_0;
    let sort = leaf_sort(ty)->0;
    lemma_denote(Node::Input(c.inputs.len() as usize, sort), env);
    lemma_of(Node::Input(c.inputs.len() as usize, sort));
    assert(scalar(env, v) == Some(n));
    assert(machine(env, u) == machine(env, c));
    lemma_declared_tidy(env, u, name, ty, v);
    lemma_declare(env, u, name, ty, v, n);
    assert(u.here() == c.here());
    assert(c.declared_input(name, ty, vis) is Ok);
}

#[verifier::spinoff_prover]
proof fn lemma_entry_inputs(
    env: Env,
    depth: nat,
    st: GenState,
    ps: Seq<ParameterDeclaration>,
    i: nat,
)
    requires
        i <= ps.len(),
        sees_tidy(st.circ),
        circ_wf(st.circ),
        st.circ.inputs.len() == i,
        ps.len() <= usize::MAX,
        forall|j: int|
            0 <= j < ps.len() ==> visibility((#[trigger] ps[j]).specifiers@[0], st.mode) is Ok,
        with_inputs(env, machine(env, st.circ), ps, i) is Some,
    ensures
        entry_params(depth, st, ps, i) matches Ok((_, after)) && {
            &&& Some(machine(env, after.circ)) == with_inputs(env, machine(env, st.circ), ps, i)
            &&& sees_tidy(after.circ)
            &&& circ_wf(after.circ)
            &&& after.circ.guard() == st.circ.guard()
            &&& after.circ.inputs.len() == ps.len()
            &&& after.circ.outputs == st.circ.outputs
            &&& after.circ.frames.len() == st.circ.frames.len()
            &&& after.mode == st.mode
        },
    decreases ps.len() - i,
{
    if i < ps.len() {
        let p = ps[i as int];
        let vis = visibility(p.specifiers@[0], st.mode)->Ok_0;
        lemma_entry_param(depth, st, p, vis);
        let ty = entry_type(p)->0;
        let n = input_number(env, ty, i as int)->0;
        lemma_scalar_input(env, st.circ, param_name(p), ty, vis, n);
        let d = st.circ.declared_input(param_name(p), ty, vis)->Ok_0.1;
        let next = st.with_circ(d);
        lemma_entry_inputs(env, depth, next, ps, i + 1);
        assert(entry_params(depth, st, ps, i) == entry_params(depth, next, ps, i + 1));
    }
}

/// Whether a function definition is that of a function of the given name and return type, with the
/// given parameters.
pub open spec fn defines(
    f: FunctionDefinition,
    name: String,
    ty: Ty,
    ps: Seq<ParameterDeclaration>,
) -> bool {
    &&& f.declarator.kind == DeclaratorKind::Identifier(name)
    &&& f.declarator.derived@.len() == 1
    &&& f.declarator.derived@[0] matches DerivedDeclarator::Function(v) && v@ == ps
    &&& f.specifiers@.len() == 1
    &&& f.specifiers@[0] matches DeclarationSpecifier::TypeSpecifier(t) && keyword(t) == Some(ty)
}

/// The meaning of a number or truth value as an output.
pub open spec fn output_of(n: Num) -> Value {
    match n {
        Num::Truth(b) => Value::Bool(b),
        Num::Number(_, w, x) => Value::Bv(w, x as u64),
    }
}

proof fn lemma_definition(
    depth: nat,
    st: GenState,
    f: FunctionDefinition,
    name: String,
    ty: Ty,
    ps: Seq<ParameterDeclaration>,
)
    requires
        defines(f, name, ty, ps),
    ensures
        visited(depth, st, seq![ExternalDeclaration::FunctionDefinition(f)], 0) matches Ok(
            (_, after),
        ) && {
            &&& after.circ == st.circ
            &&& after.mode == st.mode
            &&& after.functions.dom().contains(name@)
            &&& after.functions[name@].name == name
            &&& after.functions[name@].ret_ty == Some(ty)
            &&& params(after.functions[name@]) == ps
            &&& after.functions[name@].body == f.statement
        },
{
    let e = ExternalDeclaration::FunctionDefinition(f);
    let ds = f.specifiers@;
    let t = ds[0]->TypeSpecifier_0;
    reveal_with_fuel(d_types, 3);
    let ts = Seq::<Option<Ty>>::empty().push(keyword(t));
    assert(d_types(depth, st, ds, 0, Seq::empty()) == Ok::<(Seq<Option<Ty>>, GenState), CError>(
        (ts, st),
    ));
    assert(compressed(ts) == Ok::<Option<Ty>, CError>(ts[0]));
    assert(d_type(depth, st, ds, 0) == Ok::<(Option<Ty>, GenState), CError>((Some(ty), st)));
    assert(fn_args(f.declarator.derived@, 0) is Some);
    let info = fn_info(depth, st, f)->Ok_0.0;
    let after = GenState { functions: st.functions.insert(info.name@, info), ..st };
    assert(visited(depth, after, seq![e], 1) == Ok::<((), GenState), CError>(((), after)));
    assert(seq![e][0] == e);
}

/// Whether a machine has a number or truth value to return.
spec fn returns_number(m: Machine) -> bool {
    m.result matches Some(Some(_))
}

proof fn lemma_effect_keeps_result(m: Machine, e: Expression, live: bool)
    ensures
        effect(m, e, live) matches Some((_, k)) ==> k.result == m.result,
{
}

proof fn lemma_declarators_keep_result(
    m: Machine,
    ty: Ty,
    ds: Seq<InitDeclarator>,
    i: nat,
    acc: Seq<Num>,
)
    ensures
        run_declarators(m, ty, ds, i, acc) matches Some((_, k)) ==> k.result == m.result,
    decreases ds.len() - i,
{
    if i < ds.len() && run_declarators(m, ty, ds, i, acc) is Some {
        let d = ds[i as int];
        let n = match d.initializer {
            None => Some(zero_number(ty)),
            Some(Initializer::Expression(e)) => eval(m, *e),
            _ => None,
        };
        let name = d.declarator.kind->Identifier_0;
        let v = converted_to(ty, n->0)->0;
        lemma_declarators_keep_result(m.declare(name@, v), ty, ds, i + 1, acc.push(n->0));
    }
}

proof fn lemma_run_keeps_result(m: Machine, s: Statement, taken: bool)
    requires
        returns_number(m),
        run(m, s, taken) is Some,
    ensures
        returns_number(run(m, s, taken)->0),
    decreases s, 1nat,
{
    let live = taken && !m.gone;
    match s {
        Statement::Compound(items) => lemma_block_keeps_result(m, items@, 0, taken),
        Statement::Expression(Some(e)) => lemma_effect_keeps_result(m, *e, live),
        Statement::If(i) => {
            let c = eval(m, i.condition)->0->Truth_0;
            lemma_run_keeps_result(m, i.then_statement, taken && c);
            match i.else_statement {
                None => {},
                Some(e) => {
                    let k = run(m, i.then_statement, taken && c)->0;
                    lemma_run_keeps_result(k, e, taken && !c);
                },
            }
        },
        Statement::For(f) => lemma_loop_keeps_result(m, s, *f, taken),
        _ => {},
    }
}

proof fn lemma_start_keeps_result(m: Machine, i: ForInitializer, live: bool)
    ensures
        run_start(m, i, live) matches Some((_, k)) ==> k.result == m.result,
{
    match i {
        ForInitializer::Declaration(d) => {
            let ty = declared_keyword(d)->0;
            lemma_declarators_keep_result(m, ty, d.declarators@, 0, Seq::empty());
        },
        ForInitializer::Expression(e) => lemma_effect_keeps_result(m, e, live),
        ForInitializer::Other => {},
    }
}

#[verifier::spinoff_prover]
proof fn lemma_loop_keeps_result(m: Machine, s: Statement, f: ForStatement, taken: bool)
    requires
        s == Statement::For(Box::new(f)),
        returns_number(m),
        run(m, s, taken) is Some,
    ensures
        returns_number(run(m, s, taken)->0),
    decreases s, 0nat,
{
    let live = taken && !m.gone;
    lemma_start_keeps_result(m.push(), f.initializer, live);
    let (from, k) = run_start(m.push(), f.initializer, live)->0;
    let n = trips(from, run_end(k, f.condition)->0, run_step(k, f.step)->0);
    let count = if n > 0 {
        n as nat
    } else {
        0
    };
    lemma_rounds_keep_result(k, f, count, taken);
}

proof fn lemma_block_keeps_result(m: Machine, items: Seq<BlockItem>, i: nat, taken: bool)
    requires
        returns_number(m),
        run_block(m, items, i, taken) is Some,
    ensures
        returns_number(run_block(m, items, i, taken)->0),
    decreases items, items.len() - i,
{
    if i < items.len() {
        match items[i as int] {
            BlockItem::Declaration(d) => {
                let ty = declared_keyword(d)->0;
                lemma_declarators_keep_result(m, ty, d.declarators@, 0, Seq::empty());
                let (_, k) = run_declaration(m, d)->0;
                lemma_block_keeps_result(k, items, i + 1, taken);
            },
            BlockItem::Statement(s) => {
                lemma_run_keeps_result(m, s, taken);
                lemma_block_keeps_result(run(m, s, taken)->0, items, i + 1, taken);
            },
            BlockItem::StaticAssert => {},
        }
    }
}

proof fn lemma_rounds_keep_result(m: Machine, f: ForStatement, n: nat, taken: bool)
    requires
        returns_number(m),
        run_rounds(m, f, n, taken) is Some,
    ensures
        returns_number(run_rounds(m, f, n, taken)->0),
    decreases f, n,
{
    if n > 0 {
        lemma_run_keeps_result(m.push(), f.statement, taken);
        let k = run(m.push(), f.statement, taken)->0.pop();
        let live = taken && !k.gone;
        lemma_effect_keeps_result(k, f.step->0, live);
        let (_, next) = effect(k, f.step->0, live)->0;
        lemma_rounds_keep_result(next, f, (n - 1) as nat, taken);
    }
}

proof fn lemma_inputs_keep_result(env: Env, m: Machine, ps: Seq<ParameterDeclaration>, i: nat)
    ensures
        with_inputs(env, m, ps, i) matches Some(k) ==> k.result == m.result,
    decreases ps.len() - i,
{
    if i < ps.len() && with_inputs(env, m, ps, i) is Some {
        let p = ps[i as int];
        let n = input_number(env, entry_type(p)->0, i as int)->0;
        lemma_inputs_keep_result(env, m.declare(param_name(p)@, n), ps, i + 1);
    }
}

/// The machine of the entry function before its parameters are declared.
proof fn lemma_fresh(env: Env, mode: Mode, name: String, ty: Ty)
    requires
        is_number_type(ty),
    ensures
        ({
            let c = start(mode).circ.entered_fn(name, Some(ty));
            &&& machine(env, c) == fresh(ty)
            &&& is_true(c.guard(), env)
            &&& sees_tidy(c)
            &&& circ_wf(c)
            &&& c.inputs.len() == 0
            &&& c.outputs.len() == 0
            &&& c.frames.len() == 1
        }),
{
    law_start_is_well_formed(mode);
    let s = start(mode).circ;
    let c = s.entered_fn(name, Some(ty));
    wf_entered_fn(s, name, Some(ty));
    lemma_unset(env, ty);
    lemma_denote(Node::Const(Value::Bool(true)), env);
    lemma_denote(Node::Const(Value::Bool(false)), env);
    let no_vars = List::<Var>::Nil;
    assert(store_of(env, no_vars) =~= Map::empty());
    assert(are_tidy(no_vars));
    let inner = List::<Rc<List<Var>>>::Nil;
    assert(scopes_are_tidy(inner));
    assert(stores_of(env, inner) == List::<Store>::Nil);
    assert(shared(c.top().scopes) == List::Cons(Rc::new(no_vars), Rc::new(inner)));
    assert(stores_of(env, shared(c.top().scopes)) == List::Cons(
        store_of(env, no_vars),
        Rc::new(stores_of(env, inner)),
    ));
}

/// The circuit of a program computes what the program computes. Of a multi-party computation whose
/// entry function takes and returns numbers or truth values, the circuit has one input for each
/// parameter, and one output: on inputs of the declared types, that output is what the function
/// returns when it runs on them. Where all shifts are by literals and all loops count by literals,
/// such a program has a circuit.
pub proof fn law_program_computes_its_result(
    env: Env,
    depth: nat,
    last: u8,
    f: FunctionDefinition,
    name: String,
    ty: Ty,
    ps: Seq<ParameterDeclaration>,
)
    requires
        defines(f, name, ty, ps),
        ps.len() <= usize::MAX,
        forall|j: int|
            0 <= j < ps.len() ==> visibility((#[trigger] ps[j]).specifiers@[0], Mode::Mpc(last))
                is Ok,
        with_inputs(env, fresh(ty), ps, 0) is Some,
        run(with_inputs(env, fresh(ty), ps, 0)->0, *f.statement, true) is Some,
    ensures
        ({
            let nodes = seq![ExternalDeclaration::FunctionDefinition(f)];
            let r = program(depth, Mode::Mpc(last), nodes, name);
            let m = run(with_inputs(env, fresh(ty), ps, 0)->0, *f.statement, true)->0;
            &&& is_fixed(*f.statement) ==> r is Ok
            &&& r matches Ok((_, after)) ==> {
                &&& after.circ.inputs.len() == ps.len()
                &&& m.result matches Some(Some(n)) ==> {
                    &&& after.circ.outputs.len() == 1
                    &&& denote(after.circ.outputs[0], env) == Meaning::Scalar(output_of(n))
                }
            }
        }),
{
    let mode = Mode::Mpc(last);
    let nodes = seq![ExternalDeclaration::FunctionDefinition(f)];
    lemma_definition(depth, start(mode), f, name, ty, ps);
    let known = visited(depth, start(mode), nodes, 0)->Ok_0.1;
    let info = known.functions[name@];
    let within = known.with_circ(known.circ.entered_fn(info.name, info.ret_ty));
    lemma_fresh(env, mode, info.name, ty);
    lemma_entry_inputs(env, depth, within, ps, 0);
    let starts = entry_params(depth, within, ps, 0)->Ok_0.1;
    if is_fixed(shared(f.statement)) {
        law_statement_that_runs_is_translated(env, depth, starts, shared(f.statement));
    }
    if stmt(depth, starts, shared(f.statement)) is Ok {
        law_statement_means_its_run(env, depth, starts, shared(f.statement));
        law_statement_keeps_shape(env, depth, starts, shared(f.statement));
        let ran = stmt(depth, starts, shared(f.statement))->Ok_0.1;
        let m = run(with_inputs(env, fresh(ty), ps, 0)->0, shared(f.statement), true)->0;
        assert(machine(env, ran.circ) == m);
        lemma_inputs_keep_result(env, fresh(ty), ps, 0);
        lemma_run_keeps_result(with_inputs(env, fresh(ty), ps, 0)->0, shared(f.statement), true);
        let v = ran.circ.top().ret_val->0;
        assert(scalar(env, v) == m.result->0);
        let left = CircState { frames: ran.circ.frames.drop_last(), ..ran.circ };
        assert(left.terms(v) == Ok::<Seq<Term>, CError>(seq![v.one_term()->Ok_0]));
        assert(left.outputs =~= Seq::empty());
    }
}

/// The entry function has its parameters as inputs, and what its body returns is published; a name
/// that stands for no function is refused.
pub proof fn law_entry_runs_its_function(depth: nat, st: GenState, name: String)
    ensures
        !st.functions.dom().contains(name@) ==> entry(depth, st, name) == Err::<
            ((), GenState),
            CError,
        >(CError::Fault(Reason::NoFunction(name))),
        st.functions.dom().contains(name@) ==> {
            let f = st.functions[name@];
            let within = st.with_circ(st.circ.entered_fn(f.name, f.ret_ty));
            entry(depth, st, name) matches Ok((_, after)) ==> {
                &&& entry_params(depth, within, params(f), 0) matches Ok((_, starts)) && (stmt(
                    depth,
                    starts,
                    *f.body,
                ) matches Ok((_, ran)) && {
                    let left = CircState { frames: ran.circ.frames.drop_last(), ..ran.circ };
                    match ran.circ.top().ret_val {
                        None => after == ran.with_circ(left),
                        Some(r) => published(ran.with_circ(left), r) == Ok::<
                            ((), GenState),
                            CError,
                        >(((), after)),
                    }
                })
            }
        },
{
}

/// A translation starts with nothing: no function that runs, no variable, memory, input or output,
/// no type and no function, and the parties that every circuit knows.
pub proof fn law_translation_starts_with_nothing(mode: Mode, name: Seq<char>)
    ensures
        ({
            let st = start(mode);
            &&& st.mode == mode
            &&& st.circ.frames.len() == 0
            &&& st.circ.lookup(name) is None
            &&& st.circ.allocs.len() == 0
            &&& st.circ.inputs.len() == 0
            &&& st.circ.outputs.len() == 0
            &&& st.circ.parties == seq![Party::Prover, Party::Verifier]
            &&& !st.functions.dom().contains(name)
            &&& !st.typedefs.dom().contains(name)
            &&& !st.structs.dom().contains(name)
        }),
{
}

/// A program is its declarations, in order, and then its entry function.
pub proof fn law_program_is_its_declarations_and_its_entry(
    depth: nat,
    mode: Mode,
    nodes: Seq<ExternalDeclaration>,
    name: String,
)
    ensures
        program(depth, mode, nodes, name) == followed(
            visited(depth, start(mode), nodes, 0),
            |v: (), st: GenState| entry(depth, st, name),
        ),
{
}

/// A finished circuit has the inputs, the outputs and the parties that the translation ends with,
/// and there is one just where the translation succeeds.
pub proof fn law_circuit_is_what_the_translation_makes(
    r: Result<Computation, CError>,
    want: Step<()>,
)
    requires
        finished(r, want),
    ensures
        r is Ok <==> want is Ok,
        want matches Ok((_, st)) ==> r matches Ok(c) ==> {
            &&& c.inputs@ == st.circ.inputs
            &&& c.outputs@ == st.circ.outputs
            &&& c.parties@ == st.circ.parties
        },
        want matches Err(e) ==> r matches Err(f) ==> f == e,
{
}

} // verus!
