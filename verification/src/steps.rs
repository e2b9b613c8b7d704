//! Every part of a translation keeps what [`crate::kept`] says, and gives the same where calls may
//! be nested more deeply, unless it stopped for that reason.
use vstd::prelude::*;

use crate::ast::ArraySize;
use crate::ast::BinaryOperator;
use crate::ast::BinaryOperatorExpression;
use crate::ast::BlockItem;
use crate::ast::CallExpression;
use crate::ast::Declaration;
use crate::ast::DeclarationSpecifier;
use crate::ast::DerivedDeclarator;
use crate::ast::Expression;
use crate::ast::ForInitializer;
use crate::ast::ForStatement;
use crate::ast::InitDeclarator;
use crate::ast::Initializer;
use crate::ast::ParameterDeclaration;
use crate::ast::SpecifierQualifier;
use crate::ast::Statement;
use crate::ast::StructDeclaration;
use crate::ast::StructDeclarator;
use crate::ast::StructType;
use crate::ast::TypeSpecifier;
use crate::ast::UnaryOperator;
use crate::ast::UnaryOperatorExpression;
use crate::circ::CircState;
use crate::cterm::apply;
use crate::cterm::cast_to;
use crate::cterm::value_i32;
use crate::cterm::AllocId;
use crate::cterm::CTerm;
use crate::cterm::CTermData;
use crate::ir::lit_bv;
use crate::ir::term_not;
use crate::ir::term_op;
use crate::ir::Op;
use crate::ir::Term;
use crate::kept::held;
use crate::kept::kept;
use crate::kept::lemma_allocated;
use crate::kept::lemma_assigned;
use crate::kept::lemma_branch;
use crate::kept::lemma_call;
use crate::kept::lemma_declared;
use crate::kept::lemma_kept_refl;
use crate::kept::lemma_kept_trans;
use crate::kept::lemma_lift;
use crate::kept::lemma_returned;
use crate::kept::lemma_scope;
use crate::kept::lemma_steady_refl;
use crate::kept::lemma_steady_trans;
use crate::kept::lemma_stored;
use crate::kept::lemma_zero;
use crate::kept::sound;
use crate::kept::stays;
use crate::kept::too_deep;
use crate::kept::Env;
use crate::list::shared;
use crate::translate::array_value;
use crate::translate::assigned;
use crate::translate::bin_op;
use crate::translate::binary;
use crate::translate::block;
use crate::translate::bound;
use crate::translate::branch;
use crate::translate::call;
use crate::translate::called;
use crate::translate::d_type;
use crate::translate::d_types;
use crate::translate::decl;
use crate::translate::decl_info;
use crate::translate::decl_name;
use crate::translate::declarators_info;
use crate::translate::declarators_type;
use crate::translate::declared_type;
use crate::translate::derived;
use crate::translate::derived_once;
use crate::translate::expr;
use crate::translate::expr_name;
use crate::translate::exprs;
use crate::translate::field_declarators;
use crate::translate::fields_of;
use crate::translate::folded_expr;
use crate::translate::index;
use crate::translate::indexed_array;
use crate::translate::init;
use crate::translate::initial;
use crate::translate::is_index;
use crate::translate::iterations;
use crate::translate::leaves;
use crate::translate::leaves_from;
use crate::translate::loop_end;
use crate::translate::loop_start;
use crate::translate::loop_step;
use crate::translate::lval;
use crate::translate::one_round;
use crate::translate::param;
use crate::translate::params;
use crate::translate::rebuilt;
use crate::translate::rounds;
use crate::translate::s_type;
use crate::translate::s_types;
use crate::translate::selected;
use crate::translate::selected_field;
use crate::translate::stmt;
use crate::translate::stored;
use crate::translate::stored_field;
use crate::translate::stored_terms;
use crate::translate::stored_values;
use crate::translate::struct_fields;
use crate::translate::struct_type;
use crate::translate::type_of;
use crate::translate::typedefs_from;
use crate::translate::u_op;
use crate::translate::unary;
use crate::translate::variables_from;
use crate::translate::with_struct;
use crate::translate::CLoc;
use crate::translate::DeclInfo;
use crate::translate::FnInfo;
use crate::translate::GenState;
use crate::translate::Step;
use crate::types::Field;
use crate::types::Ty;

verus! {

/// What a step gives.
spec fn got<T>(r: Step<T>) -> T {
    r->Ok_0.0
}

/// The state behind a step.
spec fn after<T>(r: Step<T>) -> GenState {
    r->Ok_0.1
}

broadcast use {lemma_kept_refl, lemma_kept_trans};

// ---------------------------------------------------------------------------------------------
// Values
// ---------------------------------------------------------------------------------------------

proof fn stays_terms(env: Env, c: CircState, id: AllocId, at: Term, ts: Seq<Term>, i: nat)
    ensures
        stays(env, c, stored_terms(c, id, at, ts, i)),
    decreases ts.len() - i,
{
    lemma_steady_refl(env, c);
    if i < ts.len() {
        let at_i = term_op(Op::BvAdd, at, lit_bv(i as int, 32));
        lemma_stored(env, c, id, at_i, ts[i as int]);
        match c.stored(id, at_i, ts[i as int]) {
            Err(_) => {},
            Ok((_, d)) => {
                stays_terms(env, d, id, at, ts, i + 1);
                match stored_terms(d, id, at, ts, i + 1) {
                    Err(_) => {},
                    Ok((_, e)) => lemma_steady_trans(env, c, d, e),
                }
            },
        }
    }
}

proof fn stays_stored(env: Env, c: CircState, array: CTerm, idx: CTerm, val: CTerm)
    ensures
        stays(env, c, stored(c, array, idx, val)),
{
    match c.terms(val) {
        Err(_) => {},
        Ok(ts) => match (array.term, idx.term) {
            (CTermData::CArray(_, Some(id)), CTermData::CInt(_, _, i)) => stays_terms(
                env,
                c,
                id,
                i,
                ts,
                0,
            ),
            (CTermData::CStackPtr(_, offset, Some(id)), CTermData::CInt(_, _, i)) => stays_terms(
                env,
                c,
                id,
                term_op(Op::BvAdd, i, offset),
                ts,
                0,
            ),
            _ => {},
        },
    }
}

proof fn stays_rebuilt(env: Env, c: CircState, base: CTerm, loc: CLoc, val: CTerm)
    ensures
        stays(env, c, rebuilt(c, base, loc, val)),
    decreases loc,
{
    lemma_steady_refl(env, c);
    match loc {
        CLoc::Var(_) => {},
        CLoc::Idx(inner, idx) => match selected(c, base, idx) {
            Err(_) => {},
            Ok(v) => {
                stays_rebuilt(env, c, v, *inner, val);
                match rebuilt(c, v, *inner, val) {
                    Err(_) => {},
                    Ok((w, d)) => {
                        stays_stored(env, d, base, idx, w);
                        match stored(d, base, idx, w) {
                            Err(_) => {},
                            Ok((_, e)) => lemma_steady_trans(env, c, d, e),
                        }
                    },
                }
            },
        },
        CLoc::Member(inner, field) => match selected_field(base, field) {
            Err(_) => {},
            Ok(v) => stays_rebuilt(env, c, v, *inner, val),
        },
    }
}

proof fn stays_assigned(env: Env, c: CircState, loc: CLoc, val: CTerm)
    ensures
        stays(env, c, assigned(c, loc, val)),
{
    match loc {
        CLoc::Var(l) => lemma_assigned(env, c, l.name, val),
        CLoc::Idx(l, idx) => match indexed_array(c, *l) {
            Err(_) => {},
            Ok(array) => stays_stored(env, c, array, idx, val),
        },
        CLoc::Member(l, field) => match c.get(l.root().name) {
            Err(_) => {},
            Ok(base) => match selected_field(base, field) {
                Err(_) => {},
                Ok(v) => {
                    stays_rebuilt(env, c, v, *l, val);
                    match rebuilt(c, v, *l, val) {
                        Err(_) => {},
                        Ok((w, d)) => match stored_field(base, field, w) {
                            Err(_) => {},
                            Ok(r) => {
                                lemma_assigned(env, d, l.root().name, r);
                                match d.assigned(l.root().name, r) {
                                    Err(_) => {},
                                    Ok((_, e)) => lemma_steady_trans(env, c, d, e),
                                }
                            },
                        },
                    }
                },
            },
        },
    }
}

proof fn stays_values(env: Env, c: CircState, id: AllocId, vs: Seq<CTerm>, i: nat)
    ensures
        stays(env, c, stored_values(c, id, vs, i)),
    decreases vs.len() - i,
{
    lemma_steady_refl(env, c);
    if i < vs.len() {
        match vs[i as int].one_term() {
            Err(_) => {},
            Ok(t) => {
                lemma_stored(env, c, id, lit_bv(i as int, 32), t);
                match c.stored(id, lit_bv(i as int, 32), t) {
                    Err(_) => {},
                    Ok((_, d)) => {
                        stays_values(env, d, id, vs, i + 1);
                        match stored_values(d, id, vs, i + 1) {
                            Err(_) => {},
                            Ok((_, e)) => lemma_steady_trans(env, c, d, e),
                        }
                    },
                }
            },
        }
    }
}

proof fn stays_array(env: Env, c: CircState, ty: Ty, n: usize, t: Ty, vs: Seq<CTerm>)
    ensures
        stays(env, c, array_value(c, ty, n, t, vs)),
{
    let (id, d) = c.allocated(n, t.bits() as usize);
    lemma_allocated(env, c, n, t.bits() as usize);
    stays_values(env, d, id, vs, 0);
    match stored_values(d, id, vs, 0) {
        Err(_) => {},
        Ok((_, e)) => lemma_steady_trans(env, c, d, e),
    }
}

proof fn held_assigned(env: Env, st: GenState, loc: CLoc, val: CTerm)
    ensures
        held(env, st, st.lift(assigned(st.circ, loc, val))),
{
    stays_assigned(env, st.circ, loc, val);
    lemma_lift(env, st, assigned(st.circ, loc, val));
}

proof fn held_declared(env: Env, st: GenState, name: String, ty: Ty, val: CTerm)
    ensures
        held(env, st, st.lift(st.circ.declared(name, ty, val))),
{
    lemma_declared(env, st.circ, name, ty, val);
    lemma_lift(env, st, st.circ.declared(name, ty, val));
}

proof fn held_zero(env: Env, st: GenState, ty: Ty)
    ensures
        held(env, st, st.lift(st.circ.zero(ty))),
{
    lemma_zero(env, st.circ, ty);
    lemma_lift(env, st, st.circ.zero(ty));
}

proof fn held_returned(env: Env, st: GenState, val: Option<CTerm>)
    ensures
        held(env, st, st.lift(st.circ.returned(val))),
{
    lemma_returned(env, st.circ, val);
    lemma_lift(env, st, st.circ.returned(val));
}

proof fn held_scope(env: Env, st: GenState, within: GenState)
    requires
        st.circ.entered_scope() is Ok,
        kept(env, st.with_circ(st.circ.entered_scope()->Ok_0.1), within),
    ensures
        held(env, st, within.lift(within.circ.exited_scope())),
{
    reveal(kept);
    lemma_scope(env, st.circ, within.circ);
}

proof fn held_branch(env: Env, st: GenState, c: Term, within: GenState)
    requires
        st.circ.entered_condition(c) is Ok,
        kept(env, st.with_circ(st.circ.entered_condition(c)->Ok_0.1), within),
    ensures
        held(env, st, within.lift(within.circ.exited_condition())),
{
    reveal(kept);
    lemma_branch(env, st.circ, c, within.circ);
}

proof fn held_call(
    env: Env,
    st: GenState,
    name: String,
    ret_ty: Option<Ty>,
    within: GenState,
)
    requires
        kept(env, st.with_circ(st.circ.entered_fn(name, ret_ty)), within),
    ensures
        held(env, st, within.lift(within.circ.exited_fn())),
{
    reveal(kept);
    lemma_call(env, st.circ, name, ret_ty, within.circ);
}

proof fn lemma_with_struct(env: Env, st: GenState, mid: GenState, name: Option<String>, ty: Ty)
    requires
        kept(env, st, mid),
        !(name matches Some(n) && n@.len() > 0 && st.structs.dom().contains(n@)),
    ensures
        kept(env, st, with_struct(mid, name, ty)),
{
    reveal(kept);
}

proof fn held_declarators_info(
    env: Env,
    st: GenState,
    ty: Ty,
    ds: Seq<InitDeclarator>,
    i: nat,
    acc: Seq<DeclInfo>,
)
    ensures
        held(env, st, declarators_info(st, ty, ds, i, acc)),
    decreases ds.len() - i,
{
    if i < ds.len() {
        match decl_name(ds[i as int].declarator) {
            Err(_) => {},
            Ok(name) => {
                let (t, s) = declared_type(st, name, ty);
                assert(kept(env, st, s)) by {
                    reveal(kept);
                    lemma_steady_refl(env, st.circ);
                }
                held_declarators_info(env, s, ty, ds, i + 1, acc.push(DeclInfo { name, ty: t }));
            },
        }
    }
}

proof fn held_typedefs(env: Env, st: GenState, infos: Seq<DeclInfo>, i: nat)
    ensures
        held(env, st, typedefs_from(st, infos, i)),
    decreases infos.len() - i,
{
    if i < infos.len() {
        let d = infos[i as int];
        if !st.typedefs.dom().contains(d.name@) {
            let s = GenState { typedefs: st.typedefs.insert(d.name@, d.ty), ..st };
            assert(kept(env, st, s)) by {
                reveal(kept);
                lemma_steady_refl(env, st.circ);
            }
            held_typedefs(env, s, infos, i + 1);
        }
    }
}

// ---------------------------------------------------------------------------------------------
// Constructs
// ---------------------------------------------------------------------------------------------

#[verifier::spinoff_prover]
pub(crate) proof fn sound_d_type(
    env: Env,
    depth: nat,
    st: GenState,
    ds: Seq<DeclarationSpecifier>,
    from: nat,
)
    ensures
        sound(env, st, d_type(depth, st, ds, from), d_type(depth + 1, st, ds, from)),
    decreases depth, 0nat, ds, ds.len() + 1,
{
    if from < ds.len() {
        let r = d_types(depth, st, ds, from, Seq::empty());
        let q = d_types(depth + 1, st, ds, from, Seq::empty());
        sound_d_types(env, depth, st, ds, from, Seq::empty());
        assert(too_deep(r) || q == r);
        assert(held(env, st, r));
    }
}

pub(crate) proof fn sound_d_types(
    env: Env,
    depth: nat,
    st: GenState,
    ds: Seq<DeclarationSpecifier>,
    i: nat,
    acc: Seq<Option<Ty>>,
)
    ensures
        sound(env, st, d_types(depth, st, ds, i, acc), d_types(depth + 1, st, ds, i, acc)),
    decreases depth, 0nat, ds, ds.len() - i,
{
    if i < ds.len() {
        match ds[i as int] {
            DeclarationSpecifier::TypeSpecifier(t) => {
                let r = type_of(depth, st, t);
                sound_type_of(env, depth, st, t);
                sound_d_types(env, depth, after(r), ds, i + 1, acc.push(got(r)));
            },
            _ => {},
        }
    }
}

pub(crate) proof fn sound_s_type(env: Env, depth: nat, st: GenState, ss: Seq<SpecifierQualifier>)
    ensures
        sound(env, st, s_type(depth, st, ss), s_type(depth + 1, st, ss)),
    decreases depth, 0nat, ss, ss.len() + 1,
{
    sound_s_types(env, depth, st, ss, 0, Seq::empty());
}

pub(crate) proof fn sound_s_types(
    env: Env,
    depth: nat,
    st: GenState,
    ss: Seq<SpecifierQualifier>,
    i: nat,
    acc: Seq<Option<Ty>>,
)
    ensures
        sound(env, st, s_types(depth, st, ss, i, acc), s_types(depth + 1, st, ss, i, acc)),
    decreases depth, 0nat, ss, ss.len() - i,
{
    if i < ss.len() {
        match ss[i as int] {
            SpecifierQualifier::TypeSpecifier(t) => {
                let r = type_of(depth, st, t);
                sound_type_of(env, depth, st, t);
                sound_s_types(env, depth, after(r), ss, i + 1, acc.push(got(r)));
            },
            _ => {},
        }
    }
}

pub(crate) proof fn sound_type_of(env: Env, depth: nat, st: GenState, t: TypeSpecifier)
    ensures
        sound(env, st, type_of(depth, st, t), type_of(depth + 1, st, t)),
    decreases depth, 0nat, t, 0nat,
{
    match t {
        TypeSpecifier::Struct(s) => sound_struct_type(env, depth, st, *s),
        _ => {},
    }
}

pub(crate) proof fn sound_struct_type(env: Env, depth: nat, st: GenState, s: StructType)
    ensures
        sound(env, st, struct_type(depth, st, s), struct_type(depth + 1, st, s)),
    decreases depth, 0nat, s, 0nat,
{
    match s.declarations {
        None => {
            let ty = Ty::Struct(s.identifier, fields_of(Seq::empty()));
            if !(s.identifier matches Some(n) && n@.len() > 0 && st.structs.dom().contains(n@)) {
                lemma_with_struct(env, st, st, s.identifier, ty);
            }
        },
        Some(ds) => {
            let r = struct_fields(depth, st, ds@, 0, Seq::empty());
            sound_struct_fields(env, depth, st, ds@, 0, Seq::empty());
            if r is Ok && !(s.identifier matches Some(n) && n@.len() > 0
                && st.structs.dom().contains(n@)) {
                let ty = Ty::Struct(s.identifier, fields_of(got(r)));
                lemma_with_struct(env, st, after(r), s.identifier, ty);
            }
        },
    }
}

pub(crate) proof fn sound_struct_fields(
    env: Env,
    depth: nat,
    st: GenState,
    ds: Seq<StructDeclaration>,
    i: nat,
    acc: Seq<Field<Ty>>,
)
    ensures
        sound(
            env,
            st,
            struct_fields(depth, st, ds, i, acc),
            struct_fields(depth + 1, st, ds, i, acc),
        ),
    decreases depth, 0nat, ds, ds.len() - i,
{
    if i < ds.len() {
        match ds[i as int] {
            StructDeclaration::Field(f) => {
                let r = s_type(depth, st, f.specifiers@);
                sound_s_type(env, depth, st, f.specifiers@);
                let base = got(r)->0;
                let q = field_declarators(depth, after(r), base, f.declarators@, 0, acc);
                sound_field_declarators(env, depth, after(r), base, f.declarators@, 0, acc);
                sound_struct_fields(env, depth, after(q), ds, i + 1, got(q));
            },
            StructDeclaration::StaticAssert => {},
        }
    }
}

pub(crate) proof fn sound_field_declarators(
    env: Env,
    depth: nat,
    st: GenState,
    base: Ty,
    ds: Seq<StructDeclarator>,
    i: nat,
    acc: Seq<Field<Ty>>,
)
    ensures
        sound(
            env,
            st,
            field_declarators(depth, st, base, ds, i, acc),
            field_declarators(depth + 1, st, base, ds, i, acc),
        ),
    decreases depth, 0nat, ds, ds.len() - i,
{
    if i < ds.len() {
        match ds[i as int].declarator {
            None => {},
            Some(d) => {
                let r = derived(depth, st, base, d.derived@, d.derived@.len());
                sound_derived(env, depth, st, base, d.derived@, d.derived@.len());
                let field = Field { name: decl_name(d)->Ok_0, value: got(r) };
                sound_field_declarators(
                    env,
                    depth,
                    after(r),
                    got(r),
                    ds,
                    i + 1,
                    acc.push(field),
                );
            },
        }
    }
}

pub(crate) proof fn sound_derived_once(
    env: Env,
    depth: nat,
    st: GenState,
    base: Ty,
    d: DerivedDeclarator,
)
    ensures
        sound(env, st, derived_once(depth, st, base, d), derived_once(depth + 1, st, base, d)),
    decreases depth, 0nat, d, 0nat,
{
    match d {
        DerivedDeclarator::Array(ArraySize::VariableExpression(e)) => sound_expr(
            env,
            depth,
            st,
            *e,
        ),
        _ => {},
    }
}

pub(crate) proof fn sound_derived(
    env: Env,
    depth: nat,
    st: GenState,
    base: Ty,
    ds: Seq<DerivedDeclarator>,
    k: nat,
)
    ensures
        sound(env, st, derived(depth, st, base, ds, k), derived(depth + 1, st, base, ds, k)),
    decreases depth, 0nat, ds, k,
{
    if 0 < k <= ds.len() {
        let r = derived_once(depth, st, base, ds[k - 1]);
        sound_derived_once(env, depth, st, base, ds[k - 1]);
        sound_derived(env, depth, after(r), got(r), ds, (k - 1) as nat);
    }
}

#[verifier::spinoff_prover]
pub(crate) proof fn sound_param(
    env: Env,
    depth: nat,
    st: GenState,
    p: ParameterDeclaration,
    entry: bool,
)
    ensures
        sound(env, st, param(depth, st, p, entry), param(depth + 1, st, p, entry)),
    decreases depth, 0nat, p, 0nat,
{
    let from: nat = if entry {
        1
    } else {
        0
    };
    let r = d_type(depth, st, p.specifiers@, from);
    sound_d_type(env, depth, st, p.specifiers@, from);
    match p.declarator {
        None => {},
        Some(d) => sound_derived(
            env,
            depth,
            after(r),
            got(r)->0,
            d.derived@,
            d.derived@.len(),
        ),
    }
}

pub(crate) proof fn sound_lval(env: Env, depth: nat, st: GenState, e: Expression)
    ensures
        sound(env, st, lval(depth, st, e), lval(depth + 1, st, e)),
    decreases depth, 0nat, e, 3nat,
{
    match e {
        Expression::BinaryOperator(b) => {
            if b.operator == BinaryOperator::Index {
                let r = lval(depth, st, b.lhs);
                sound_lval(env, depth, st, b.lhs);
                sound_index(env, depth, after(r), e);
            }
        },
        _ => {},
    }
}

pub(crate) proof fn sound_index(env: Env, depth: nat, st: GenState, e: Expression)
    ensures
        sound(env, st, index(depth, st, e), index(depth + 1, st, e)),
    decreases
            depth,
            0nat,
            e,
            if is_index(e) {
                0nat
            } else {
                2nat
            },
{
    match e {
        Expression::BinaryOperator(b) => {
            if b.operator == BinaryOperator::Index {
                let r = index(depth, st, b.lhs);
                sound_index(env, depth, st, b.lhs);
                sound_index(env, depth, after(r), b.rhs);
            } else {
                sound_expr(env, depth, st, e);
            }
        },
        _ => sound_expr(env, depth, st, e),
    }
}

#[verifier::spinoff_prover]
pub(crate) proof fn sound_expr(env: Env, depth: nat, st: GenState, e: Expression)
    ensures
        sound(env, st, expr(depth, st, e), expr(depth + 1, st, e)),
    decreases depth, 0nat, e, 1nat,
{
    match e {
        Expression::BinaryOperator(b) => {
            if b.operator == BinaryOperator::Index {
                sound_index(env, depth, st, e);
            } else {
                sound_binary(env, depth, st, *b);
            }
        },
        Expression::UnaryOperator(u) => sound_unary(env, depth, st, *u),
        Expression::Cast(c) => {
            let r = s_type(depth, st, c.target.specifiers@);
            sound_s_type(env, depth, st, c.target.specifiers@);
            sound_expr(env, depth, after(r), c.expression);
        },
        Expression::Call(c) => sound_call(env, depth, st, *c),
        Expression::Member(m) => sound_expr(env, depth, st, m.expression),
        Expression::SizeOf(t) => sound_s_type(env, depth, st, t.specifiers@),
        _ => {},
    }
}

#[verifier::spinoff_prover]
pub(crate) proof fn sound_binary(env: Env, depth: nat, st: GenState, b: BinaryOperatorExpression)
    ensures
        sound(env, st, binary(depth, st, b), binary(depth + 1, st, b)),
    decreases depth, 0nat, b, 0nat,
{
    match b.operator {
        BinaryOperator::Assign => {
            let r = lval(depth, st, b.lhs);
            sound_lval(env, depth, st, b.lhs);
            let q = expr(depth, after(r), b.rhs);
            sound_expr(env, depth, after(r), b.rhs);
            held_assigned(env, after(q), got(r), got(q));
        },
        BinaryOperator::AssignPlus | BinaryOperator::AssignDivide => {
            let r = expr(depth, st, b.lhs);
            sound_expr(env, depth, st, b.lhs);
            let q = expr(depth, after(r), b.rhs);
            sound_expr(env, depth, after(r), b.rhs);
            let p = lval(depth, after(q), b.lhs);
            sound_lval(env, depth, after(q), b.lhs);
            held_assigned(
                env,
                after(p),
                got(p),
                apply(bin_op(b.operator)->Ok_0, got(r), got(q))->Ok_0,
            );
        },
        _ => {
            let r = expr(depth, st, b.lhs);
            sound_expr(env, depth, st, b.lhs);
            sound_expr(env, depth, after(r), b.rhs);
        },
    }
}

pub(crate) proof fn sound_unary(env: Env, depth: nat, st: GenState, u: UnaryOperatorExpression)
    ensures
        sound(env, st, unary(depth, st, u), unary(depth + 1, st, u)),
    decreases depth, 0nat, u, 0nat,
{
    match u.operator {
        UnaryOperator::PostIncrement | UnaryOperator::PostDecrement => {
            let r = expr(depth, st, u.operand);
            sound_expr(env, depth, st, u.operand);
            let p = lval(depth, after(r), u.operand);
            sound_lval(env, depth, after(r), u.operand);
            held_assigned(
                env,
                after(p),
                got(p),
                apply(u_op(u.operator)->Ok_0, got(r), value_i32(lit_bv(1, 32)))->Ok_0,
            );
        },
        _ => {},
    }
}

pub(crate) proof fn sound_exprs(
    env: Env,
    depth: nat,
    st: GenState,
    es: Seq<Expression>,
    i: nat,
    acc: Seq<CTerm>,
)
    ensures
        sound(env, st, exprs(depth, st, es, i, acc), exprs(depth + 1, st, es, i, acc)),
    decreases depth, 0nat, es, es.len() - i,
{
    if i < es.len() {
        let r = expr(depth, st, es[i as int]);
        sound_expr(env, depth, st, es[i as int]);
        sound_exprs(env, depth, after(r), es, i + 1, acc.push(got(r)));
    }
}

pub(crate) proof fn sound_call(env: Env, depth: nat, st: GenState, c: CallExpression)
    ensures
        sound(env, st, call(depth, st, c), call(depth + 1, st, c)),
    decreases depth, 0nat, c, 0nat,
{
    match expr_name(c.callee) {
        Err(_) => {},
        Ok(name) => {
            let r = exprs(depth, st, c.arguments@, 0, Seq::empty());
            sound_exprs(env, depth, st, c.arguments@, 0, Seq::empty());
            if depth > 0 {
                sound_called(
                    env,
                    (depth - 1) as nat,
                    after(r),
                    st.functions[name@],
                    got(r),
                );
            }
        },
    }
}

#[verifier::spinoff_prover]
pub(crate) proof fn sound_called(env: Env, depth: nat, st: GenState, f: FnInfo, args: Seq<CTerm>)
    ensures
        sound(env, st, called(depth, st, f, args), called(depth + 1, st, f, args)),
    decreases depth, 9nat, f, 0nat,
{
    let entered = st.with_circ(st.circ.entered_fn(f.name, f.ret_ty));
    let r = bound(depth, entered, params(f), args, 0);
    sound_bound(env, depth, entered, params(f), args, 0);
    let q = stmt(depth, after(r), shared(f.body));
    sound_stmt(env, depth, after(r), shared(f.body));
    if r is Ok && q is Ok {
        held_call(env, st, f.name, f.ret_ty, after(q));
    }
}

pub(crate) proof fn sound_bound(
    env: Env,
    depth: nat,
    st: GenState,
    ps: Seq<ParameterDeclaration>,
    args: Seq<CTerm>,
    i: nat,
)
    ensures
        sound(env, st, bound(depth, st, ps, args, i), bound(depth + 1, st, ps, args, i)),
    decreases depth, 0nat, ps, ps.len() - i,
{
    if i < ps.len() {
        let r = param(depth, st, ps[i as int], false);
        sound_param(env, depth, st, ps[i as int], false);
        let p = got(r);
        let q = after(r).lift(after(r).circ.declared(p.name, p.ty, args[i as int]));
        held_declared(env, after(r), p.name, p.ty, args[i as int]);
        sound_bound(env, depth, after(q), ps, args, i + 1);
    }
}

pub(crate) proof fn sound_leaves(
    env: Env,
    depth: nat,
    st: GenState,
    i: Initializer,
    acc: Seq<CTerm>,
)
    ensures
        sound(env, st, leaves(depth, st, i, acc), leaves(depth + 1, st, i, acc)),
    decreases depth, 1nat, i, 0nat,
{
    match i {
        Initializer::Expression(e) => sound_expr(env, depth, st, *e),
        Initializer::List(l) => sound_leaves_from(env, depth, st, l@, 0, acc),
    }
}

pub(crate) proof fn sound_leaves_from(
    env: Env,
    depth: nat,
    st: GenState,
    l: Seq<Initializer>,
    i: nat,
    acc: Seq<CTerm>,
)
    ensures
        sound(env, st, leaves_from(depth, st, l, i, acc), leaves_from(depth + 1, st, l, i, acc)),
    decreases depth, 1nat, l, l.len() - i,
{
    if i < l.len() {
        let r = leaves(depth, st, l[i as int], acc);
        sound_leaves(env, depth, st, l[i as int], acc);
        sound_leaves_from(env, depth, after(r), l, i + 1, got(r));
    }
}

pub(crate) proof fn sound_init(env: Env, depth: nat, st: GenState, ty: Ty, i: Initializer)
    ensures
        sound(env, st, init(depth, st, ty, i), init(depth + 1, st, ty, i)),
    decreases depth, 1nat, i, 1nat,
{
    match i {
        Initializer::Expression(e) => sound_expr(env, depth, st, *e),
        Initializer::List(_) => match ty {
            Ty::Array(n, _, t) => {
                let r = leaves(depth, st, i, Seq::empty());
                sound_leaves(env, depth, st, i, Seq::empty());
                stays_array(env, after(r).circ, ty, n, shared(t), got(r));
                lemma_lift(env, after(r), array_value(after(r).circ, ty, n, shared(t), got(r)));
            },
            Ty::Struct(_, _) => held_zero(env, st, ty),
            _ => {},
        },
    }
}

pub(crate) proof fn sound_declarators_type(
    env: Env,
    depth: nat,
    st: GenState,
    ty: Ty,
    ds: Seq<InitDeclarator>,
    i: nat,
)
    ensures
        sound(
            env,
            st,
            declarators_type(depth, st, ty, ds, i),
            declarators_type(depth + 1, st, ty, ds, i),
        ),
    decreases depth, 2nat, ds, ds.len() - i,
{
    if i < ds.len() {
        let d = ds[i as int].declarator;
        let r = derived(depth, st, ty, d.derived@, d.derived@.len());
        sound_derived(env, depth, st, ty, d.derived@, d.derived@.len());
        sound_declarators_type(env, depth, after(r), got(r), ds, i + 1);
    }
}

pub(crate) proof fn sound_decl_info(env: Env, depth: nat, st: GenState, d: Declaration, from: nat)
    ensures
        sound(env, st, decl_info(depth, st, d, from), decl_info(depth + 1, st, d, from)),
    decreases depth, 3nat, d, 0nat,
{
    let r = d_type(depth, st, d.specifiers@, from);
    sound_d_type(env, depth, st, d.specifiers@, from);
    let q = declarators_type(depth, after(r), got(r)->0, d.declarators@, 0);
    sound_declarators_type(env, depth, after(r), got(r)->0, d.declarators@, 0);
    held_declarators_info(env, after(q), got(q), d.declarators@, 0, Seq::empty());
}

pub(crate) proof fn sound_initial(
    env: Env,
    depth: nat,
    st: GenState,
    ty: Ty,
    i: Option<Initializer>,
)
    ensures
        sound(env, st, initial(depth, st, ty, i), initial(depth + 1, st, ty, i)),
    decreases depth, 2nat, i, 0nat,
{
    match i {
        Some(i) => sound_init(env, depth, st, ty, i),
        None => held_zero(env, st, ty),
    }
}

pub(crate) proof fn sound_variables_from(
    env: Env,
    depth: nat,
    st: GenState,
    ds: Seq<InitDeclarator>,
    infos: Seq<DeclInfo>,
    i: nat,
    acc: Seq<CTerm>,
)
    ensures
        sound(
            env,
            st,
            variables_from(depth, st, ds, infos, i, acc),
            variables_from(depth + 1, st, ds, infos, i, acc),
        ),
    decreases depth, 3nat, ds, ds.len() - i,
{
    if i < ds.len() && i < infos.len() {
        let d = infos[i as int];
        let r = initial(depth, st, d.ty, ds[i as int].initializer);
        sound_initial(env, depth, st, d.ty, ds[i as int].initializer);
        let w = cast_to(Some(d.ty), got(r))->Ok_0;
        let q = after(r).lift(after(r).circ.declared(d.name, d.ty, w));
        held_declared(env, after(r), d.name, d.ty, w);
        sound_variables_from(env, depth, after(q), ds, infos, i + 1, acc.push(got(r)));
    }
}

pub(crate) proof fn sound_decl(env: Env, depth: nat, st: GenState, d: Declaration)
    ensures
        sound(env, st, decl(depth, st, d), decl(depth + 1, st, d)),
    decreases depth, 4nat, d, 0nat,
{
    if d.specifiers@.len() > 0 {
        if d.specifiers@[0] is StorageClass {
            let r = decl_info(depth, st, d, 1);
            sound_decl_info(env, depth, st, d, 1);
            held_typedefs(env, after(r), got(r), 0);
        } else {
            let r = decl_info(depth, st, d, 0);
            sound_decl_info(env, depth, st, d, 0);
            sound_variables_from(
                env,
                depth,
                after(r),
                d.declarators@,
                got(r),
                0,
                Seq::empty(),
            );
        }
    }
}

pub(crate) proof fn sound_folded_expr(env: Env, depth: nat, st: GenState, e: Expression)
    ensures
        sound(env, st, folded_expr(depth, st, e), folded_expr(depth + 1, st, e)),
    decreases depth, 1nat, e, 0nat,
{
    sound_expr(env, depth, st, e);
}

pub(crate) proof fn sound_loop_start(env: Env, depth: nat, st: GenState, i: ForInitializer)
    ensures
        sound(env, st, loop_start(depth, st, i), loop_start(depth + 1, st, i)),
    decreases depth, 5nat, i, 0nat,
{
    match i {
        ForInitializer::Declaration(d) => sound_decl(env, depth, st, d),
        ForInitializer::Expression(e) => sound_folded_expr(env, depth, st, e),
        ForInitializer::Other => {},
    }
}

pub(crate) proof fn sound_loop_end(env: Env, depth: nat, st: GenState, c: Option<Expression>)
    ensures
        sound(env, st, loop_end(depth, st, c), loop_end(depth + 1, st, c)),
    decreases depth, 5nat, c, 0nat,
{
    match c {
        Some(Expression::BinaryOperator(b)) => sound_folded_expr(env, depth, st, b.rhs),
        _ => {},
    }
}

pub(crate) proof fn sound_loop_step(env: Env, depth: nat, st: GenState, s: Option<Expression>)
    ensures
        sound(env, st, loop_step(depth, st, s), loop_step(depth + 1, st, s)),
    decreases depth, 5nat, s, 0nat,
{
    match s {
        Some(Expression::BinaryOperator(b)) => sound_folded_expr(env, depth, st, b.rhs),
        _ => {},
    }
}

pub(crate) proof fn sound_iterations(env: Env, depth: nat, st: GenState, f: ForStatement)
    ensures
        sound(env, st, iterations(depth, st, f), iterations(depth + 1, st, f)),
    decreases depth, 6nat, f, 0nat,
{
    let r = loop_start(depth, st, f.initializer);
    sound_loop_start(env, depth, st, f.initializer);
    let q = loop_end(depth, after(r), f.condition);
    sound_loop_end(env, depth, after(r), f.condition);
    sound_loop_step(env, depth, after(q), f.step);
}

pub(crate) proof fn sound_rounds(env: Env, depth: nat, st: GenState, f: ForStatement, n: nat)
    ensures
        sound(env, st, rounds(depth, st, f, n), rounds(depth + 1, st, f, n)),
    decreases depth, 8nat, f, n,
{
    if n > 0 {
        let r = one_round(depth, st, f);
        sound_one_round(env, depth, st, f);
        sound_rounds(env, depth, after(r), f, (n - 1) as nat);
    }
}

pub(crate) proof fn sound_one_round(env: Env, depth: nat, st: GenState, f: ForStatement)
    ensures
        sound(env, st, one_round(depth, st, f), one_round(depth + 1, st, f)),
    decreases depth, 8nat, f, 0nat,
{
    let entered = st.lift(st.circ.entered_scope());
    let r = stmt(depth, after(entered), f.statement);
    sound_stmt(env, depth, after(entered), f.statement);
    if entered is Ok && r is Ok {
        held_scope(env, st, after(r));
        let q = after(r).lift(after(r).circ.exited_scope());
        match f.step {
            None => {},
            Some(e) => sound_expr(env, depth, after(q), e),
        }
    }
}

pub(crate) proof fn sound_branch(env: Env, depth: nat, st: GenState, c: Term, s: Statement)
    ensures
        sound(env, st, branch(depth, st, c, s), branch(depth + 1, st, c, s)),
    decreases depth, 8nat, s, 1nat,
{
    let entered = st.lift(st.circ.entered_condition(c));
    let r = stmt(depth, after(entered), s);
    sound_stmt(env, depth, after(entered), s);
    if entered is Ok && r is Ok {
        held_branch(env, st, c, after(r));
    }
}

pub(crate) proof fn sound_block(env: Env, depth: nat, st: GenState, items: Seq<BlockItem>, i: nat)
    ensures
        sound(env, st, block(depth, st, items, i), block(depth + 1, st, items, i)),
    decreases depth, 8nat, items, items.len() - i,
{
    if i < items.len() {
        match items[i as int] {
            BlockItem::Declaration(d) => {
                let r = decl(depth, st, d);
                sound_decl(env, depth, st, d);
                sound_block(env, depth, after(r), items, i + 1);
            },
            BlockItem::Statement(s) => {
                let r = stmt(depth, st, s);
                sound_stmt(env, depth, st, s);
                sound_block(env, depth, after(r), items, i + 1);
            },
            BlockItem::StaticAssert => {},
        }
    }
}

#[verifier::spinoff_prover]
pub(crate) proof fn sound_stmt(env: Env, depth: nat, st: GenState, s: Statement)
    ensures
        sound(env, st, stmt(depth, st, s), stmt(depth + 1, st, s)),
    decreases depth, 8nat, s, 0nat,
{
    match s {
        Statement::Compound(items) => sound_block(env, depth, st, items@, 0),
        Statement::If(i) => {
            let r = expr(depth, st, i.condition);
            sound_expr(env, depth, st, i.condition);
            let t = got(r).one_term()->Ok_0;
            let q = branch(depth, after(r), t, i.then_statement);
            sound_branch(env, depth, after(r), t, i.then_statement);
            match i.else_statement {
                None => {},
                Some(s) => sound_branch(env, depth, after(q), term_not(t), s),
            }
        },
        Statement::Return(None) => held_returned(env, st, None),
        Statement::Return(Some(e)) => {
            let r = expr(depth, st, *e);
            sound_expr(env, depth, st, *e);
            held_returned(env, after(r), Some(got(r)));
        },
        Statement::Expression(Some(e)) => sound_expr(env, depth, st, *e),
        Statement::For(f) => {
            let entered = st.lift(st.circ.entered_scope());
            let r = iterations(depth, after(entered), *f);
            sound_iterations(env, depth, after(entered), *f);
            let n: nat = if got(r) > 0 {
                got(r) as nat
            } else {
                0
            };
            let q = rounds(depth, after(r), *f, n);
            sound_rounds(env, depth, after(r), *f, n);
            if entered is Ok && r is Ok && q is Ok {
                held_scope(env, st, after(q));
            }
        },
        _ => {},
    }
}

} // verus!
