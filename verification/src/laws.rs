//! What holds of the translation as a whole.
use std::rc::Rc;

use vstd::arithmetic::div_mod::lemma_add_mod_noop;
use vstd::arithmetic::div_mod::lemma_mod_bound;
use vstd::arithmetic::div_mod::lemma_mul_mod_noop_left;
use vstd::arithmetic::div_mod::lemma_small_mod;
use vstd::arithmetic::power2::lemma2_to64;
use vstd::arithmetic::power2::lemma2_to64_rest;
use vstd::arithmetic::power2::lemma_pow2_pos;
use vstd::arithmetic::power2::lemma_pow2_strictly_increases;
use vstd::arithmetic::power2::pow2;
use vstd::prelude::*;

use crate::ast::ArraySize;
use crate::ast::BinaryOperator;
use crate::ast::DerivedDeclarator;
use crate::ast::Expression;
use crate::ast::ExternalDeclaration;
use crate::ast::IfStatement;
use crate::ast::ParameterDeclaration;
use crate::ast::Statement;
use crate::circ::find;
use crate::circ::find_scopes;
use crate::circ::merge_fields;
use crate::circ::set_scopes;
use crate::circ::set_var;
use crate::circ::CircState;
use crate::circ::Party;
use crate::circ::PartyId;
use crate::circ::PathStep;
use crate::circ::Var;
use crate::circ::ADDR_WIDTH;
use crate::cterm::apply;
use crate::cterm::bv_to_bool;
use crate::cterm::cast_to;
use crate::cterm::term_operator;
use crate::cterm::value;
use crate::cterm::AllocId;
use crate::cterm::COp;
use crate::cterm::CTerm;
use crate::cterm::CTermData;
use crate::error::CError;
use crate::error::Reason;
use crate::ir::as_signed;
use crate::ir::bv_op;
use crate::ir::const_width;
use crate::ir::denote;
use crate::ir::lemma_constant_is_meaning;
use crate::ir::lemma_denote;
use crate::ir::lemma_kind;
use crate::ir::lit_bool;
use crate::ir::lit_bv;
use crate::ir::number_of;
use crate::ir::term_op;
use crate::ir::width_of;
use crate::ir::wrap;
use crate::ir::Meaning;
use crate::ir::Node;
use crate::ir::Op;
use crate::ir::Sort;
use crate::ir::Term;
use crate::ir::Value;
use crate::ir::MAX_CONST_WIDTH;
use crate::kept::circ_kept;
use crate::kept::grown;
use crate::kept::idle;
use crate::kept::is_false;
use crate::kept::is_true;
use crate::kept::kept;
use crate::kept::lemma_branch;
use crate::kept::lemma_circ_refl;
use crate::kept::lemma_circ_weaken;
use crate::kept::lemma_idle;
use crate::kept::lemma_merge;
use crate::kept::same_value;
use crate::kept::too_deep;
use crate::kept::Env;
use crate::list::lemma_push_seq;
use crate::list::lemma_without_last_seq;
use crate::list::shared;
use crate::list::List;
use crate::places::lemma_stored_changes_memory_only;
use crate::places::region;
use crate::steps::sound_d_type;
use crate::steps::sound_decl;
use crate::steps::sound_expr;
use crate::steps::sound_param;
use crate::steps::sound_stmt;
use crate::translate::array_of;
use crate::translate::as_size;
use crate::translate::assigned;
use crate::translate::binary;
use crate::translate::branch;
use crate::translate::compressed;
use crate::translate::decl;
use crate::translate::derived;
use crate::translate::derived_once;
use crate::translate::entry;
use crate::translate::entry_params;
use crate::translate::expr;
use crate::translate::fn_info;
use crate::translate::folded_i32;
use crate::translate::index;
use crate::translate::index_value;
use crate::translate::is_index;
use crate::translate::low_i32;
use crate::translate::offset;
use crate::translate::offset_from;
use crate::translate::param;
use crate::translate::params;
use crate::translate::program;
use crate::translate::rebuilt;
use crate::translate::selected;
use crate::translate::selected_field;
use crate::translate::start;
use crate::translate::stmt;
use crate::translate::stored;
use crate::translate::stored_field;
use crate::translate::stored_terms;
use crate::translate::visited;
use crate::translate::CLoc;
use crate::translate::GenState;
use crate::translate::Loc;
use crate::translate::Mode;
use crate::translate::Step;
use crate::types::lemma_set_keeps_others;
use crate::types::lemma_set_then_search;
use crate::types::search;
use crate::types::set_field;
use crate::types::Field;
use crate::types::Ty;
use crate::wellformed::value_wf;

verus! {

// ---------------------------------------------------------------------------------------------
// Control flow
// ---------------------------------------------------------------------------------------------

/// A statement leaves the translation where it was: in the same function, as deep in branches and
/// scopes, with all variables, memory regions, functions and types that there were, and the same
/// inputs, outputs and parties.
pub proof fn law_statement_keeps_shape(env: Env, depth: nat, st: GenState, s: Statement)
    requires
        stmt(depth, st, s) is Ok,
    ensures
        ({
            let after = stmt(depth, st, s)->Ok_0.1;
            &&& circ_kept(env, false, st.circ, after.circ)
            &&& st.mode == after.mode
            &&& st.functions == after.functions
            &&& grown(st.typedefs, after.typedefs)
            &&& grown(st.structs, after.structs)
        }),
{
    sound_stmt(env, depth, st, s);
    reveal(kept);
    lemma_circ_weaken(env, idle(st.circ, env), st.circ, stmt(depth, st, s)->Ok_0.1.circ);
}

/// An expression leaves the translation where it was, as a statement does.
pub proof fn law_expression_keeps_shape(env: Env, depth: nat, st: GenState, e: Expression)
    requires
        expr(depth, st, e) is Ok,
    ensures
        ({
            let after = expr(depth, st, e)->Ok_0.1;
            &&& circ_kept(env, false, st.circ, after.circ)
            &&& st.mode == after.mode
            &&& st.functions == after.functions
            &&& grown(st.typedefs, after.typedefs)
            &&& grown(st.structs, after.structs)
        }),
{
    sound_expr(env, depth, st, e);
    reveal(kept);
    lemma_circ_weaken(env, idle(st.circ, env), st.circ, expr(depth, st, e)->Ok_0.1.circ);
}

/// On inputs on which a statement does not run, because an enclosing branch is not taken or the
/// function has returned, it changes the meaning of no variable, no memory region and no return
/// value.
pub proof fn law_idle_statement_changes_nothing(env: Env, depth: nat, st: GenState, s: Statement)
    requires
        idle(st.circ, env),
        stmt(depth, st, s) is Ok,
    ensures
        circ_kept(env, true, st.circ, stmt(depth, st, s)->Ok_0.1.circ),
{
    sound_stmt(env, depth, st, s);
    reveal(kept);
}

/// On inputs on which an expression is not evaluated, its side effects do not happen.
pub proof fn law_idle_expression_changes_nothing(env: Env, depth: nat, st: GenState, e: Expression)
    requires
        idle(st.circ, env),
        expr(depth, st, e) is Ok,
    ensures
        circ_kept(env, true, st.circ, expr(depth, st, e)->Ok_0.1.circ),
{
    sound_expr(env, depth, st, e);
    reveal(kept);
}

/// On inputs on which the condition of a branch is false, the branch changes nothing.
pub proof fn law_untaken_branch_changes_nothing(
    env: Env,
    depth: nat,
    st: GenState,
    c: Term,
    s: Statement,
)
    requires
        is_false(c, env),
        branch(depth, st, c, s) is Ok,
    ensures
        circ_kept(env, true, st.circ, branch(depth, st, c, s)->Ok_0.1.circ),
{
    let entered = st.with_circ(st.circ.entered_condition(c)->Ok_0.1);
    sound_stmt(env, depth, entered, s);
    reveal(kept);
    lemma_branch(env, st.circ, c, stmt(depth, entered, s)->Ok_0.1.circ);
}

/// Of a conditional statement only one branch has an effect: on inputs on which the condition is
/// false the first has none, and on inputs on which it is true the second has none.
pub proof fn law_if_takes_one_branch(env: Env, depth: nat, st: GenState, i: IfStatement)
    requires
        stmt(depth, st, Statement::If(Box::new(i))) is Ok,
    ensures
        ({
            let (c, tested) = expr(depth, st, i.condition)->Ok_0;
            let t = c.one_term()->Ok_0;
            let first = branch(depth, tested, t, i.then_statement)->Ok_0.1;
            let second = stmt(depth, st, Statement::If(Box::new(i)))->Ok_0.1;
            &&& is_false(t, env) ==> circ_kept(env, true, tested.circ, first.circ)
            &&& is_true(t, env) ==> circ_kept(env, true, first.circ, second.circ)
        }),
{
    let (c, tested) = expr(depth, st, i.condition)->Ok_0;
    let t = c.one_term()->Ok_0;
    let first = branch(depth, tested, t, i.then_statement)->Ok_0.1;
    if is_false(t, env) {
        law_untaken_branch_changes_nothing(env, depth, tested, t, i.then_statement);
    }
    if is_true(t, env) {
        lemma_denote(Node::Not(t), env);
        match i.else_statement {
            None => lemma_circ_refl(env, true, first.circ),
            Some(s) => law_untaken_branch_changes_nothing(
                env,
                depth,
                first,
                Term::of(Node::Not(t)),
                s,
            ),
        }
    }
}

/// Where a statement is translated without nesting calls too deeply, allowing deeper nesting gives
/// the same.
#[verifier::spinoff_prover]
pub proof fn law_deeper_statement_is_the_same(
    env: Env,
    depth: nat,
    more: nat,
    st: GenState,
    s: Statement,
)
    requires
        !too_deep(stmt(depth, st, s)),
    ensures
        stmt(depth + more, st, s) == stmt(depth, st, s),
    decreases more,
{
    if more > 0 {
        law_deeper_statement_is_the_same(env, depth, (more - 1) as nat, st, s);
        sound_stmt(env, (depth + more - 1) as nat, st, s);
    }
}

/// A return statement that runs ends the function: nothing behind it runs, and what the function
/// returns means the given value.
pub proof fn law_return_ends_the_function(env: Env, s: CircState, val: Option<CTerm>)
    requires
        is_true(s.condition(), env),
        s.returned(val) is Ok,
    ensures
        ({
            let t = s.returned(val)->Ok_0.1;
            &&& idle(t, env)
            &&& val matches Some(v) ==> (t.top().ret_val matches Some(w) && same_value(env, v, w))
        }),
{
    let t = s.returned(val)->Ok_0.1;
    lemma_denote(Node::Op(Op::Or, s.top().returned, s.condition()), env);
    lemma_idle(t, env);
    if val is Some {
        lemma_merge(env, s.condition(), val->0, s.top().ret_val->0);
    }
}

/// A function sees no variable of its caller but the global ones.
pub proof fn law_callee_sees_globals_only(
    s: CircState,
    name: String,
    ret_ty: Option<Ty>,
    var: Seq<char>,
)
    ensures
        s.entered_fn(name, ret_ty).lookup(var) == find(s.globals, var),
{
    let t = s.entered_fn(name, ret_ty);
    assert(find_scopes(shared(t.top().scopes), var) is None) by {
        reveal_with_fuel(find_scopes, 3);
    }
}

/// Leaving a scope takes away what was declared in it and nothing else.
pub proof fn law_scope_takes_its_variables_away(s: CircState, name: String, ty: Ty, val: CTerm)
    requires
        s.frames.len() > 0,
    ensures
        s.entered_scope() is Ok,
        ({
            let inner = s.entered_scope()->Ok_0.1;
            &&& inner.declared(name, ty, val) is Ok
            &&& inner.declared(name, ty, val)->Ok_0.1.get(name) == Ok::<CTerm, CError>(val)
            &&& inner.declared(name, ty, val)->Ok_0.1.exited_scope() == Ok::<
                ((), CircState),
                CError,
            >(((), s))
        }),
{
    let inner = s.entered_scope()->Ok_0.1;
    let t = inner.declared(name, ty, val)->Ok_0.1;
    assert(t.exited_scope()->Ok_0.1 =~= s);
}

/// Whether an expression only reads variables, fields and elements and computes with them.
pub open spec fn is_pure(e: Expression) -> bool
    decreases e,
{
    match e {
        Expression::Identifier(_) => true,
        Expression::Constant(_) => true,
        Expression::Member(m) => is_pure(m.expression),
        Expression::BinaryOperator(b) => b.operator != BinaryOperator::Assign && b.operator
            != BinaryOperator::AssignPlus && b.operator != BinaryOperator::AssignDivide && is_pure(
            b.lhs,
        ) && is_pure(b.rhs),
        _ => false,
    }
}

pub(crate) proof fn lemma_pure_index(depth: nat, st: GenState, e: Expression)
    requires
        is_pure(e),
    ensures
        index(depth, st, e) matches Ok((_, after)) ==> after == st,
    decreases
            e,
            if is_index(e) {
                0nat
            } else {
                2nat
            },
{
    match e {
        Expression::BinaryOperator(b) => {
            if b.operator == BinaryOperator::Index {
                lemma_pure_index(depth, st, b.lhs);
                lemma_pure_index(depth, st, b.rhs);
            } else {
                law_reading_changes_nothing(depth, st, e);
            }
        },
        _ => law_reading_changes_nothing(depth, st, e),
    }
}

/// An expression that only reads changes nothing.
pub proof fn law_reading_changes_nothing(depth: nat, st: GenState, e: Expression)
    requires
        is_pure(e),
    ensures
        expr(depth, st, e) matches Ok((_, after)) ==> after == st,
    decreases e, 1nat,
{
    match e {
        Expression::Member(m) => law_reading_changes_nothing(depth, st, m.expression),
        Expression::BinaryOperator(b) => {
            if b.operator == BinaryOperator::Index {
                lemma_pure_index(depth, st, e);
            } else {
                law_reading_changes_nothing(depth, st, b.lhs);
                law_reading_changes_nothing(depth, st, b.rhs);
                assert(binary(depth, st, *b) matches Ok((_, after)) ==> after == st);
            }
        },
        _ => {},
    }
}

// ---------------------------------------------------------------------------------------------
// Variables, fields and memory
// ---------------------------------------------------------------------------------------------

/// Reading a field that was written gives what was written, and the other fields are as before.
pub proof fn law_field_store_then_select(t: CTerm, field: String, val: CTerm, other: String)
    requires
        stored_field(t, field, val) is Ok,
    ensures
        ({
            let r = stored_field(t, field, val)->Ok_0;
            &&& selected_field(r, field) == Ok::<CTerm, CError>(val)
            &&& other@ != field@ ==> selected_field(r, other) == selected_field(t, other)
            &&& r.term.ty() == t.term.ty()
        }),
{
    match t.term {
        CTermData::CStruct(_, fs) => {
            lemma_set_then_search(shared(fs.list), field@, val);
            if other@ != field@ {
                lemma_set_keeps_others(shared(fs.list), field@, val, other@);
            }
        },
        _ => {},
    }
}

proof fn lemma_find_set(l: List<Var>, name: Seq<char>, other: Seq<char>, val: CTerm)
    ensures
        find(l, name) matches Some(v) ==> find(set_var(l, name, val), name) == Some(
            (Var { val, ..v }),
        ),
        find(l, name) is None ==> find(set_var(l, name, val), name) is None,
        name != other ==> find(set_var(l, name, val), other) == find(l, other),
    decreases l,
{
    match l {
        List::Nil => {},
        List::Cons(_, rest) => lemma_find_set(shared(rest), name, other, val),
    }
}

proof fn lemma_find_set_scopes(
    l: List<Rc<List<Var>>>,
    name: Seq<char>,
    other: Seq<char>,
    val: CTerm,
)
    ensures
        find_scopes(l, name) matches Some(v) ==> find_scopes(set_scopes(l, name, val), name)
            == Some((Var { val, ..v })),
        name != other ==> find_scopes(set_scopes(l, name, val), other) == find_scopes(l, other),
    decreases l,
{
    match l {
        List::Nil => {},
        List::Cons(s, rest) => {
            lemma_find_set(shared(s), name, other, val);
            lemma_find_set_scopes(shared(rest), name, other, val);
        },
    }
}

/// After an assignment, the variable means the new value on inputs on which the assignment runs,
/// and its former value on inputs on which it does not; the other variables are as before.
pub proof fn law_assign_then_get(env: Env, s: CircState, name: String, val: CTerm, other: String)
    requires
        s.assigned(name, val) is Ok,
    ensures
        ({
            let (m, t) = s.assigned(name, val)->Ok_0;
            &&& t.get(name) == Ok::<CTerm, CError>(m)
            &&& is_true(s.condition(), env) ==> same_value(env, val, m)
            &&& is_false(s.condition(), env) ==> same_value(env, s.get(name)->Ok_0, m)
            &&& other@ != name@ ==> t.get(other) == s.get(other)
        }),
{
    let (m, t) = s.assigned(name, val)->Ok_0;
    lemma_merge(env, s.condition(), val, s.lookup(name@)->0.val);
    lemma_find_set(s.globals, name@, other@, m);
    if s.frames.len() > 0 {
        lemma_find_set_scopes(shared(s.top().scopes), name@, other@, m);
    }
}

/// What stands at a place in a value that is made of structures.
pub open spec fn read_at(base: CTerm, loc: CLoc) -> Result<CTerm, CError>
    decreases loc,
{
    match loc {
        CLoc::Var(_) => Ok(base),
        CLoc::Member(inner, field) => match selected_field(base, field) {
            Err(e) => Err(e),
            Ok(v) => read_at(v, *inner),
        },
        CLoc::Idx(_, _) => Err(CError::Fault(Reason::Unsupported)),
    }
}

/// Whether two values that are made of structures differ at the place at most: at each step of the
/// way to it the type and all other fields are the same.
pub open spec fn differ_only_at(a: CTerm, b: CTerm, loc: CLoc) -> bool
    decreases loc,
{
    match loc {
        CLoc::Var(_) => true,
        CLoc::Member(inner, field) => {
            &&& a.term.ty() == b.term.ty()
            &&& forall|other: String|
                other@ != field@ ==> #[trigger] selected_field(b, other) == selected_field(a, other)
            &&& selected_field(a, field) is Ok
            &&& selected_field(b, field) is Ok
            &&& differ_only_at(
                selected_field(a, field)->Ok_0,
                selected_field(b, field)->Ok_0,
                *inner,
            )
        },
        CLoc::Idx(_, _) => false,
    }
}

/// Rebuilding a value with a place in it set, where the place leads through fields, gives a value
/// with the new part at that place and every other field as it was, and leaves the circuit alone.
pub proof fn law_rebuild_then_read(c: CircState, base: CTerm, loc: CLoc, val: CTerm)
    requires
        read_at(base, loc) is Ok,
    ensures
        rebuilt(c, base, loc, val) is Ok,
        ({
            let (r, d) = rebuilt(c, base, loc, val)->Ok_0;
            &&& read_at(r, loc) == Ok::<CTerm, CError>(val)
            &&& differ_only_at(base, r, loc)
            &&& d == c
        }),
    decreases loc,
{
    match loc {
        CLoc::Member(inner, field) => {
            let v = selected_field(base, field)->Ok_0;
            law_rebuild_then_read(c, v, *inner, val);
            let (w, _) = rebuilt(c, v, *inner, val)->Ok_0;
            law_field_store_then_select(base, field, w, field);
            let r = stored_field(base, field, w)->Ok_0;
            assert forall|other: String| other@ != field@ implies #[trigger] selected_field(
                r,
                other,
            ) == selected_field(base, other) by {
                law_field_store_then_select(base, field, w, other);
            }
        },
        _ => {},
    }
}

/// Whether both have a field `key` that means the same, or neither has one.
spec fn same_field(env: Env, l: List<Field<CTerm>>, m: List<Field<CTerm>>, key: Seq<char>) -> bool {
    match (search(l, key), search(m, key)) {
        (Some(v), Some(w)) => same_value(env, v, w),
        (None, None) => true,
        _ => false,
    }
}

proof fn lemma_merge_self(env: Env, c: Term, l: List<Field<CTerm>>, key: Seq<char>)
    ensures
        merge_fields(c, l, l) matches Some(Ok(m)) ==> same_field(env, l, m, key),
    decreases l,
{
    match l {
        List::Nil => {},
        List::Cons(a, rest) => {
            lemma_merge(env, c, a.value, a.value);
            lemma_merge_self(env, c, shared(rest), key);
        },
    }
}

proof fn lemma_merge_set(
    env: Env,
    c: Term,
    l: List<Field<CTerm>>,
    field: Seq<char>,
    val: CTerm,
    key: Seq<char>,
)
    requires
        search(l, field) is Some,
    ensures
        merge_fields(c, set_field(l, field, val), l) matches Some(Ok(m)) ==> {
            &&& key != field ==> same_field(env, l, m, key)
            &&& search(m, field) matches Some(w)
            &&& is_true(c, env) ==> same_value(env, val, w)
            &&& is_false(c, env) ==> same_value(env, search(l, field)->0, w)
        },
    decreases l,
{
    match l {
        List::Nil => {},
        List::Cons(a, rest) => {
            if a.name@ == field {
                lemma_merge(env, c, val, a.value);
                lemma_merge_self(env, c, shared(rest), key);
            } else {
                lemma_merge(env, c, a.value, a.value);
                lemma_merge_set(env, c, shared(rest), field, val, key);
            }
        },
    }
}

/// After an assignment to a field of a variable, the field means the new value on inputs on which
/// the assignment runs, and its former value on inputs on which it does not. The other fields mean
/// what they meant, the other variables are as before, and so is memory.
pub proof fn law_member_assign_then_read(
    env: Env,
    c: CircState,
    name: Loc,
    field: String,
    val: CTerm,
    other_field: String,
    other_name: String,
)
    requires
        assigned(c, CLoc::Member(Box::new(CLoc::Var(name)), field), val) is Ok,
    ensures
        ({
            let place = CLoc::Member(Box::new(CLoc::Var(name)), field);
            let (m, d) = assigned(c, place, val)->Ok_0;
            let base = c.get(name.name)->Ok_0;
            &&& d.get(name.name) == Ok::<CTerm, CError>(m)
            &&& selected_field(m, field) is Ok
            &&& is_true(c.condition(), env) ==> same_value(
                env,
                val,
                selected_field(m, field)->Ok_0,
            )
            &&& is_false(c.condition(), env) ==> same_value(
                env,
                selected_field(base, field)->Ok_0,
                selected_field(m, field)->Ok_0,
            )
            &&& other_field@ != field@ ==> match (
                selected_field(base, other_field),
                selected_field(m, other_field),
            ) {
                (Ok(v), Ok(w)) => same_value(env, v, w),
                (Err(e), Err(f)) => e == f,
                _ => false,
            }
            &&& other_name@ != name.name@ ==> d.get(other_name) == c.get(other_name)
            &&& d.allocs == c.allocs
        }),
{
    let place = CLoc::Var(name);
    assert(place.root() == name);
    let base = c.get(name.name)->Ok_0;
    assert(rebuilt(c, selected_field(base, field)->Ok_0, place, val) == Ok::<
        (CTerm, CircState),
        CError,
    >((val, c)));
    let r = stored_field(base, field, val)->Ok_0;
    law_assign_then_get(env, c, name.name, r, other_name);
    match base.term {
        CTermData::CStruct(_, fs) => {
            lemma_merge_set(env, c.condition(), shared(fs.list), field@, val, other_field@);
        },
        _ => {},
    }
}

/// An assignment to a field of a variable that is not there, is no structure or has no such field
/// is turned down.
pub proof fn law_member_assign_is_refused(c: CircState, l: CLoc, field: String, val: CTerm)
    requires
        c.get(l.root().name) is Err || selected_field(c.get(l.root().name)->Ok_0, field) is Err,
    ensures
        assigned(c, CLoc::Member(Box::new(l), field), val) matches Err(CError::Reject(_)),
        c.get(l.root().name) is Err ==> assigned(c, CLoc::Member(Box::new(l), field), val) == Err::<
            (CTerm, CircState),
            CError,
        >(CError::Reject(Reason::NoVariable(l.root().name))),
        c.get(l.root().name) matches Ok(base) ==> assigned(
            c,
            CLoc::Member(Box::new(l), field),
            val,
        ) == Err::<(CTerm, CircState), CError>(
            if base.term is CStruct {
                CError::Reject(Reason::NoField(field))
            } else {
                CError::Reject(Reason::NotStruct(base))
            },
        ),
{
}

/// Assigning to an element of a variable does what storing to the array that the variable holds
/// does, errors included. Every variable, that one too, holds what it held, and only the region of
/// the array may have other contents.
pub proof fn law_element_assign_is_array_store(
    c: CircState,
    l: Loc,
    idx: CTerm,
    val: CTerm,
    other: String,
)
    requires
        c.get(l.name) is Ok,
    ensures
        assigned(c, CLoc::Idx(Box::new(CLoc::Var(l)), idx), val) == stored(
            c,
            c.get(l.name)->Ok_0,
            idx,
            val,
        ),
        assigned(c, CLoc::Idx(Box::new(CLoc::Var(l)), idx), val) matches Ok((_, d)) ==> {
            &&& d.get(l.name) == c.get(l.name)
            &&& d.get(other) == c.get(other)
            &&& d == (CircState { allocs: d.allocs, ..c })
            &&& d.allocs.len() == c.allocs.len()
            &&& forall|j: int|
                0 <= j < c.allocs.len() && j != region(c.get(l.name)->Ok_0)
                    ==> #[trigger] d.allocs[j] == c.allocs[j]
        },
{
    let array = c.get(l.name)->Ok_0;
    let place = CLoc::Var(l);
    assert(place.root() == l);
    lemma_stored_changes_memory_only(c, array, idx, val);
}

/// The region and the address in it that an array and an index name: behind the start of the array,
/// or of the part of it that a pointer points to, by as many elements as the index says.
pub open spec fn address(env: Env, array: CTerm, idx: CTerm) -> Option<(AllocId, u64)> {
    match (array.term, idx.term) {
        (CTermData::CArray(_, Some(id)), CTermData::CInt(_, _, i)) => match denote(i, env) {
            Meaning::Scalar(Value::Bv(w, x)) => if w <= MAX_CONST_WIDTH && x < pow2(w as nat) {
                Some((id, x))
            } else {
                None
            },
            _ => None,
        },
        (CTermData::CStackPtr(_, o, Some(id)), CTermData::CInt(_, _, i)) => match (
            denote(o, env),
            denote(i, env),
        ) {
            (Meaning::Scalar(Value::Bv(w, x)), Meaning::Scalar(Value::Bv(v, y))) => if w == v && w
                <= MAX_CONST_WIDTH {
                Some((id, wrap(x + y, w)))
            } else {
                None
            },
            _ => None,
        },
        _ => None,
    }
}

/// A constant index has an address, whatever the inputs are: in an array the index itself, and
/// behind a constant offset the sum of both.
pub proof fn law_constant_index_has_an_address(env: Env, array: CTerm, idx: CTerm, w: usize, x: u64)
    requires
        w <= MAX_CONST_WIDTH,
        x < pow2(w as nat),
        value_wf(array),
        value_wf(idx),
        idx.term matches CTermData::CInt(_, _, t) && t.constant() == Some(Value::Bv(w, x)),
    ensures
        array.term matches CTermData::CArray(_, Some(id)) ==> address(env, array, idx) == Some(
            (id, x),
        ),
        array.term matches CTermData::CStackPtr(_, o, Some(id)) ==> (o.constant() matches Some(
            Value::Bv(v, y),
        ) ==> (v == w ==> address(env, array, idx) == Some((id, wrap(y + x, w))))),
{
    match idx.term {
        CTermData::CInt(_, _, t) => lemma_constant_is_meaning(t, env),
        _ => {},
    }
    match array.term {
        CTermData::CStackPtr(_, o, _) => {
            if o.constant() is Some {
                lemma_constant_is_meaning(o, env);
            }
        },
        _ => {},
    }
}

/// Whether the elements of an array are numbers or truth values.
pub open spec fn holds_scalars(array: CTerm) -> bool {
    match array.term.ty().inner() {
        Some(Ty::Bool) => true,
        Some(Ty::Int(_, _)) => true,
        _ => false,
    }
}

/// The term at which an array is read, and at which it is written.
spec fn place_term(array: CTerm, idx: CTerm, writing: bool) -> Term {
    match (array.term, idx.term) {
        (CTermData::CStackPtr(_, o, _), CTermData::CInt(_, _, i)) => if writing {
            term_op(Op::BvAdd, i, o)
        } else {
            term_op(Op::BvAdd, o, i)
        },
        (_, CTermData::CInt(_, _, i)) => i,
        _ => lit_bv(0, 32),
    }
}

proof fn lemma_wrap_fits(n: int, w: usize)
    requires
        w <= MAX_CONST_WIDTH,
    ensures
        wrap(n, w) < pow2(w as nat),
        wrap(n, w) == n % (pow2(w as nat) as int),
{
    lemma_pow2_pos(w as nat);
    lemma2_to64();
    lemma2_to64_rest();
    if w < 64 {
        lemma_pow2_strictly_increases(w as nat, 64);
    }
    let m = pow2(w as nat) as int;
    lemma_mod_bound(n, m);
    assert(0 <= n % m < 0x1_0000_0000_0000_0000);
}

proof fn lemma_place(env: Env, array: CTerm, idx: CTerm)
    requires
        address(env, array, idx) is Some,
    ensures
        ({
            let (id, x) = address(env, array, idx)->0;
            let written = term_op(Op::BvAdd, place_term(array, idx, true), lit_bv(0, 32));
            &&& id == region(array)
            &&& number_of(denote(place_term(array, idx, false), env).value()) == x
            &&& number_of(denote(written, env).value()) == x
        }),
{
    let (_, x) = address(env, array, idx)->0;
    let at = place_term(array, idx, true);
    match (array.term, idx.term) {
        (CTermData::CStackPtr(_, o, _), CTermData::CInt(_, _, i)) => {
            lemma_denote(Node::Op(Op::BvAdd, i, o), env);
            lemma_denote(Node::Op(Op::BvAdd, o, i), env);
            let w = width_of(denote(o, env).value());
            let a = number_of(denote(o, env).value());
            let b = number_of(denote(i, env).value());
            lemma_wrap_fits(a + b, w);
        },
        _ => {},
    }
    let w = width_of(denote(at, env).value());
    assert(denote(at, env) == Meaning::Scalar(Value::Bv(w, x)));
    assert(w <= MAX_CONST_WIDTH && x < pow2(w as nat));
    lemma_zero_wraps(32);
    lemma_denote(Node::Const(Value::Bv(32, wrap(0, 32))), env);
    lemma_denote(Node::Op(Op::BvAdd, at, lit_bv(0, 32)), env);
    lemma_wrap_fits(x as int, w);
    lemma_small_mod(x as nat, pow2(w as nat));
}

/// What a store of a number or a truth value makes of the region.
proof fn lemma_stored_scalar(c: CircState, array: CTerm, idx: CTerm, val: CTerm)
    requires
        val.one_term() is Ok,
        stored(c, array, idx, val) is Ok,
    ensures
        ({
            let id = region(array);
            let v = val.one_term()->Ok_0;
            let at = term_op(Op::BvAdd, place_term(array, idx, true), lit_bv(0, 32));
            &&& id < c.allocs.len()
            &&& c.stored(id, at, v) is Ok
            &&& stored(c, array, idx, val) == Ok::<(CTerm, CircState), CError>(
                (val, c.stored(id, at, v)->Ok_0.1),
            )
        }),
{
    let id = region(array);
    let v = val.one_term()->Ok_0;
    let ts = seq![v];
    assert(c.terms(val) == Ok::<Seq<Term>, CError>(ts));
    assert(ts[0] == v);
    reveal_with_fuel(stored_terms, 2);
}

/// After a number or a truth value was written to an array, reading the same address gives what
/// was written, on inputs on which the assignment runs. Every other address, and on other inputs
/// every address, gives what it gave before.
pub proof fn law_array_store_then_select(
    env: Env,
    c: CircState,
    array: CTerm,
    idx: CTerm,
    val: CTerm,
    read_array: CTerm,
    read_idx: CTerm,
)
    requires
        address(env, array, idx) is Some,
        address(env, read_array, read_idx) is Some,
        val.one_term() is Ok,
        value_wf(val),
        stored(c, array, idx, val) is Ok,
        selected(c, read_array, read_idx) is Ok,
    ensures
        ({
            let (r, d) = stored(c, array, idx, val)->Ok_0;
            let before = selected(c, read_array, read_idx)->Ok_0;
            &&& r == val
            &&& selected(d, read_array, read_idx) is Ok
            &&& ({
                let after = selected(d, read_array, read_idx)->Ok_0;
                &&& after.term.ty() == before.term.ty()
                &&& denote(after.one_term()->Ok_0, env) == (if is_true(c.condition(), env)
                    && address(env, array, idx) == address(env, read_array, read_idx) {
                    denote(val.one_term()->Ok_0, env)
                } else {
                    denote(before.one_term()->Ok_0, env)
                })
            })
        }),
{
    lemma_place(env, array, idx);
    lemma_place(env, read_array, read_idx);
    lemma_stored_scalar(c, array, idx, val);
    let id = region(array);
    let v = val.one_term()->Ok_0;
    lemma_kind(v, env);
    let at = term_op(Op::BvAdd, place_term(array, idx, true), lit_bv(0, 32));
    let old_contents = c.allocs[id as int].contents;
    let store = Term::of(Node::Store(old_contents, at, v));
    lemma_denote(Node::Store(old_contents, at, v), env);
    lemma_denote(Node::Ite(c.condition(), store, old_contents), env);
    let d = stored(c, array, idx, val)->Ok_0.1;
    let read_id = region(read_array);
    let read_at = place_term(read_array, read_idx, false);
    lemma_denote(Node::Select(c.allocs[read_id as int].contents, read_at), env);
    lemma_denote(Node::Select(d.allocs[read_id as int].contents, read_at), env);
}

/// Where an assignment to an element runs, the element reads as what was written, and every element
/// at another index as what it read before. Both can be read; what is read has the element type of
/// the array.
pub proof fn law_element_written_is_read(
    env: Env,
    c: CircState,
    array: CTerm,
    i: CTerm,
    j: CTerm,
    val: CTerm,
)
    requires
        holds_scalars(array),
        is_true(c.condition(), env),
        address(env, array, i) is Some,
        address(env, array, j) is Some,
        val.one_term() is Ok,
        value_wf(val),
        stored(c, array, i, val) is Ok,
    ensures
        ({
            let d = stored(c, array, i, val)->Ok_0.1;
            &&& selected(d, array, i) is Ok
            &&& Some(selected(d, array, i)->Ok_0.term.ty()) == array.term.ty().inner()
            &&& denote(selected(d, array, i)->Ok_0.one_term()->Ok_0, env) == denote(
                val.one_term()->Ok_0,
                env,
            )
            &&& selected(c, array, j) is Ok
            &&& selected(d, array, j) is Ok
            &&& address(env, array, j) != address(env, array, i) ==> denote(
                selected(d, array, j)->Ok_0.one_term()->Ok_0,
                env,
            ) == denote(selected(c, array, j)->Ok_0.one_term()->Ok_0, env)
        }),
{
    lemma_stored_scalar(c, array, i, val);
    law_array_store_then_select(env, c, array, i, val, array, i);
    law_array_store_then_select(env, c, array, i, val, array, j);
}

// ---------------------------------------------------------------------------------------------
// Operators and conversions
// ---------------------------------------------------------------------------------------------

/// Whether the operator gives a number of the type of its operands.
pub open spec fn is_arithmetic(op: COp) -> bool {
    op == COp::Add || op == COp::Sub || op == COp::Mul || op == COp::Div || op == COp::Rem || op
        == COp::BitAnd || op == COp::BitOr || op == COp::BitXor
}

/// Whether the operator compares two numbers.
pub open spec fn is_comparison(op: COp) -> bool {
    op == COp::Eq || op == COp::Ugt || op == COp::Uge || op == COp::Ult || op == COp::Ule
}

/// An operator on two integers of one type means the operation on their values, wrapped to that
/// type, or the comparison of the values as unsigned numbers.
pub proof fn law_operator_meaning(
    env: Env,
    op: COp,
    signed: bool,
    w: usize,
    x: Term,
    y: Term,
    a: u64,
    b: u64,
)
    requires
        is_arithmetic(op) || is_comparison(op),
        w <= MAX_CONST_WIDTH,
        denote(x, env) == Meaning::Scalar(Value::Bv(w, a)),
        denote(y, env) == Meaning::Scalar(Value::Bv(w, b)),
    ensures
        ({
            let r = apply(
                op,
                value(CTermData::CInt(signed, w, x)),
                value(CTermData::CInt(signed, w, y)),
            );
            &&& r is Ok
            &&& r->Ok_0.term.ty() == (if is_arithmetic(op) {
                Ty::Int(signed, w)
            } else {
                Ty::Bool
            })
            &&& denote(r->Ok_0.one_term()->Ok_0, env) == Meaning::Scalar(
                bv_op(term_operator(op), w, a, b)->0,
            )
        }),
{
    lemma_denote(Node::Op(term_operator(op), x, y), env);
}

/// The logical operators mean conjunction and disjunction of whether the operands are not zero, and
/// `!=` means the contrary of `==`.
pub proof fn law_logical_operator_meaning(
    env: Env,
    signed: bool,
    w: usize,
    x: Term,
    y: Term,
    a: u64,
    b: u64,
)
    requires
        w <= MAX_CONST_WIDTH,
        denote(x, env) == Meaning::Scalar(Value::Bv(w, a)),
        denote(y, env) == Meaning::Scalar(Value::Bv(w, b)),
    ensures
        ({
            let l = value(CTermData::CInt(signed, w, x));
            let r = value(CTermData::CInt(signed, w, y));
            &&& denote(apply(COp::And, l, r)->Ok_0.one_term()->Ok_0, env) == Meaning::Scalar(
                Value::Bool(a != 0 && b != 0),
            )
            &&& denote(apply(COp::Or, l, r)->Ok_0.one_term()->Ok_0, env) == Meaning::Scalar(
                Value::Bool(a != 0 || b != 0),
            )
            &&& denote(apply(COp::Neq, l, r)->Ok_0.one_term()->Ok_0, env) == Meaning::Scalar(
                Value::Bool(a != b),
            )
        }),
{
    lemma_truth_meaning(env, w, x, a);
    lemma_truth_meaning(env, w, y, b);
    let p = bv_to_bool(x, w);
    let q = bv_to_bool(y, w);
    lemma_denote(Node::Op(Op::And, p, q), env);
    lemma_denote(Node::Op(Op::Or, p, q), env);
    lemma_denote(Node::Op(Op::Eq, x, y), env);
    lemma_denote(Node::Not(term_op(Op::Eq, x, y)), env);
}

proof fn lemma_truth_meaning(env: Env, w: usize, x: Term, a: u64)
    requires
        w <= MAX_CONST_WIDTH,
        denote(x, env) == Meaning::Scalar(Value::Bv(w, a)),
    ensures
        denote(bv_to_bool(x, w), env) == Meaning::Scalar(Value::Bool(a != 0)),
{
    lemma_zero_wraps(w);
    lemma_denote(Node::Const(Value::Bv(w, wrap(0, w))), env);
    lemma_denote(Node::Op(Op::Eq, lit_bv(0, w), x), env);
    lemma_denote(Node::Not(term_op(Op::Eq, lit_bv(0, w), x)), env);
}

proof fn lemma_zero_wraps(w: usize)
    ensures
        wrap(0, w) == 0,
{
    lemma_pow2_pos(const_width(w));
    lemma_small_mod(0, pow2(const_width(w)));
}

/// A conversion means: of a truth value to a number, one or zero; of a number to a truth value,
/// whether it is not zero; of a number to another width, the same number, with its sign or without,
/// wrapped to that width.
pub proof fn law_cast_meaning(
    env: Env,
    from_signed: bool,
    from: usize,
    to_signed: bool,
    to: usize,
    x: Term,
    a: u64,
    c: Term,
    holds: bool,
)
    requires
        0 < from <= MAX_CONST_WIDTH,
        0 < to <= MAX_CONST_WIDTH,
        denote(x, env) == Meaning::Scalar(Value::Bv(from, a)),
        a < pow2(from as nat),
        denote(c, env) == Meaning::Scalar(Value::Bool(holds)),
    ensures
        ({
            let number = value(CTermData::CInt(from_signed, from, x));
            let truth = value(CTermData::CBool(c));
            let to_ty = Some(Ty::Int(to_signed, to));
            &&& denote(cast_to(to_ty, truth)->Ok_0.one_term()->Ok_0, env) == Meaning::Scalar(
                Value::Bv(
                    to,
                    if holds {
                        1
                    } else {
                        0
                    },
                ),
            )
            &&& denote(cast_to(Some(Ty::Bool), number)->Ok_0.one_term()->Ok_0, env)
                == Meaning::Scalar(Value::Bool(a != 0))
            &&& denote(cast_to(to_ty, number)->Ok_0.one_term()->Ok_0, env) == Meaning::Scalar(
                Value::Bv(
                    to,
                    wrap(
                        if from_signed && to > from {
                            as_signed(from, a)
                        } else {
                            a as int
                        },
                        to,
                    ),
                ),
            )
        }),
{
    lemma_zero_wraps(to);
    lemma_truth_meaning(env, from, x, a);
    assert(wrap(1, to) == 1) by {
        lemma2_to64();
        if to > 1 {
            lemma_pow2_strictly_increases(1, to as nat);
        }
        lemma_small_mod(1, pow2(to as nat));
    }
    lemma_denote(Node::Const(Value::Bv(to, wrap(1, to))), env);
    lemma_denote(Node::Const(Value::Bv(to, wrap(0, to))), env);
    lemma_denote(Node::Ite(c, lit_bv(1, to), lit_bv(0, to)), env);
    lemma_denote(Node::SignExt(to, x), env);
    lemma_denote(Node::ZeroExt(to, x), env);
    lemma_denote(Node::Truncate(to, x), env);
    if to == from {
        lemma_small_mod(a as nat, pow2(from as nat));
    }
}

// ---------------------------------------------------------------------------------------------
// Types
// ---------------------------------------------------------------------------------------------

/// Whether the specifier stands for an integer type.
pub open spec fn is_integer(t: Option<Ty>) -> bool {
    t matches Some(Ty::Int(_, _))
}

/// Several specifiers make a type only where all of them are integer types. That type is signed
/// where all of them are, and as wide as the widest.
pub proof fn law_specifiers_make_an_integer(ts: Seq<Option<Ty>>)
    requires
        ts.len() > 1,
    ensures
        (forall|i: int| 0 <= i < ts.len() ==> is_integer(#[trigger] ts[i])) <==> compressed(
            ts,
        ) is Ok,
        compressed(ts) matches Ok(t) ==> is_integer(t) && {
            let signed = t->0->Int_0;
            let width = t->0->Int_1;
            &&& signed <==> forall|i: int|
                0 <= i < ts.len() ==> (#[trigger] ts[i])->0->Int_0
            &&& forall|i: int| 0 <= i < ts.len() ==> (#[trigger] ts[i])->0->Int_1 <= width
            &&& exists|i: int| 0 <= i < ts.len() && (#[trigger] ts[i])->0->Int_1 == width
        },
    decreases ts.len(),
{
    let front = ts.drop_last();
    let last = ts[ts.len() - 1];
    assert(forall|i: int| 0 <= i < front.len() ==> ts[i] == #[trigger] front[i]);
    assert(forall|i: int| 0 <= i < front.len() ==> front[i] == #[trigger] ts[i]);
    assert(last == ts.last());
    if front.len() == 1 {
        assert(compressed(front) == Ok::<Option<Ty>, CError>(front[0]));
        assert(ts[0] == front[0]);
        assert(ts.len() == 2);
    } else {
        law_specifiers_make_an_integer(front);
        if compressed(front) is Ok {
            let width = compressed(front)->Ok_0->0->Int_1;
            let k = choose|i: int| 0 <= i < front.len() && (#[trigger] front[i])->0->Int_1 == width;
            assert(ts[k] == front[k]);
        }
    }
    assert(ts[ts.len() - 1] == last);
}

// ---------------------------------------------------------------------------------------------
// Arrays
// ---------------------------------------------------------------------------------------------

/// The product of sizes.
pub open spec fn product(sizes: Seq<usize>) -> int
    decreases sizes.len(),
{
    if sizes.len() == 0 {
        1
    } else {
        product(sizes.drop_last()) * sizes.last()
    }
}

/// Whether no array within the type holds arrays, and each has as many elements as its dimensions
/// make.
pub open spec fn flat(ty: Ty) -> bool
    decreases ty,
{
    match ty {
        Ty::Bool => true,
        Ty::Int(_, _) => true,
        Ty::Array(n, sizes, t) => n == product(sizes.seq()) && !(*t is Array) && flat(*t),
        Ty::Ptr(_, t) => flat(*t),
        Ty::Struct(_, fs) => flat_fields(*fs.list),
    }
}

/// Whether the types of all fields are flat.
pub open spec fn flat_fields(l: List<Field<Ty>>) -> bool
    decreases l,
{
    match l {
        List::Nil => true,
        List::Cons(f, rest) => flat(f.value) && flat_fields(*rest),
    }
}

proof fn lemma_array_of_flat(base: Ty, n: usize)
    requires
        flat(base),
    ensures
        array_of(base, n) matches Ok(ty) ==> flat(ty),
{
    match base {
        Ty::Array(m, sizes, _) => {
            lemma_push_seq(shared(sizes), n);
            let all = shared(sizes).seq().push(n);
            assert(all.drop_last() == shared(sizes).seq());
            assert(product(all) == m * n);
            assert(m * n == n * m) by (nonlinear_arith);
        },
        _ => {
            let one = List::Cons(n, Rc::new(List::Nil));
            assert(one.seq() =~= seq![n]) by {
                reveal_with_fuel(List::seq, 2);
            }
            assert(seq![n].drop_last() =~= Seq::empty());
            assert(product(seq![n]) == n) by {
                reveal_with_fuel(product, 2);
            }
        },
    }
}

/// A type derived from a flat type is flat: arrays of arrays are one array.
pub proof fn law_derived_types_are_flat(
    depth: nat,
    st: GenState,
    base: Ty,
    ds: Seq<DerivedDeclarator>,
    k: nat,
)
    requires
        flat(base),
        derived(depth, st, base, ds, k) is Ok,
    ensures
        ({
            let (ty, _) = derived(depth, st, base, ds, k)->Ok_0;
            flat(ty)
        }),
    decreases k,
{
    if 0 < k <= ds.len() {
        match ds[k - 1] {
            DerivedDeclarator::Array(ArraySize::VariableExpression(e)) => {
                let (v, _) = expr(depth, st, *e)->Ok_0;
                lemma_array_of_flat(base, as_size(folded_i32(v)->Ok_0) as usize);
            },
            _ => {},
        }
        let (ty, s) = derived_once(depth, st, base, ds[k - 1])->Ok_0;
        law_derived_types_are_flat(depth, s, ty, ds, (k - 1) as nat);
    }
}

/// How many elements one step of the index passes that has `i` indices behind it.
pub open spec fn stride(sizes: Seq<usize>, i: nat) -> int
    decreases i,
{
    if i == 0 {
        1
    } else {
        stride(sizes, (i - 1) as nat) * sizes[i - 1]
    }
}

/// The position, in an array whose rows are stored one after the other, of the element with the
/// given indices: what the last `i` indices add to it.
pub open spec fn row_major(sizes: Seq<usize>, xs: Seq<u64>, i: nat) -> int
    decreases i,
{
    if i == 0 {
        0
    } else {
        row_major(sizes, xs, (i - 1) as nat) + stride(sizes, (i - 1) as nat) * xs[xs.len() - i]
    }
}

/// Whether each index means the given number.
pub open spec fn indices_mean(env: Env, indices: Seq<CTerm>, xs: Seq<u64>) -> bool {
    &&& indices.len() == xs.len()
    &&& forall|k: int|
        0 <= k < xs.len() ==> (#[trigger] indices[k]).one_term() is Ok && denote(
            indices[k].one_term()->Ok_0,
            env,
        ) == Meaning::Scalar(Value::Bv(32, xs[k]))
}

proof fn lemma_wrap_step(sum: int, total: int, x: u64)
    requires
        total >= 0,
    ensures
        wrap(wrap(wrap(total, 32) * x, 32) + wrap(sum, 32), 32) == wrap(sum + total * x, 32),
{
    lemma2_to64();
    let m = 0x1_0000_0000int;
    lemma_mul_mod_noop_left(total, x as int, m);
    lemma_add_mod_noop(total * x, sum, m);
    assert((total % m) * x % m == (total * x) % m);
}

proof fn lemma_wrap_first(sum: int, x: u64)
    requires
        sum == 0,
    ensures
        wrap(x + wrap(sum, 32), 32) == wrap(x as int, 32),
{
    lemma2_to64();
}

proof fn lemma_offset_from(
    env: Env,
    sizes: Seq<usize>,
    indices: Seq<CTerm>,
    xs: Seq<u64>,
    i: nat,
    acc: Term,
)
    requires
        indices_mean(env, indices, xs),
        forall|j: int|
            0 <= j < indices.len() && j < sizes.len() ==> (#[trigger] sizes[j]) <= i32::MAX,
        i <= xs.len(),
        i <= sizes.len(),
        stride(sizes, i) >= 0,
        denote(acc, env) == Meaning::Scalar(Value::Bv(32, wrap(row_major(sizes, xs, i), 32))),
    ensures
        offset_from(sizes, indices, i, stride(sizes, i), acc) matches Ok(t) ==> denote(t, env)
            == Meaning::Scalar(Value::Bv(32, wrap(row_major(sizes, xs, xs.len()), 32))),
    decreases xs.len() - i,
{
    if i < xs.len() && i < sizes.len() {
        let k = indices.len() - 1 - i;
        let t = indices[k].one_term()->Ok_0;
        let total = stride(sizes, i);
        assert(low_i32(sizes[i as int]) == sizes[i as int]);
        assert(total * sizes[i as int] >= 0) by (nonlinear_arith)
            requires
                total >= 0,
        ;
        lemma_denote(Node::Const(Value::Bv(32, wrap(total, 32))), env);
        lemma_denote(Node::Op(Op::BvMul, lit_bv(total, 32), t), env);
        let added = if i == 0 {
            t
        } else {
            term_op(Op::BvMul, lit_bv(total, 32), t)
        };
        let sum = row_major(sizes, xs, i);
        let x = xs[k];
        lemma_denote(Node::Op(Op::BvAdd, added, acc), env);
        assert(row_major(sizes, xs, i + 1) == sum + total * x);
        if i == 0 {
            lemma_wrap_first(sum, x);
            assert(total * x == x) by (nonlinear_arith)
                requires
                    total == 1,
            ;
        } else {
            lemma_wrap_step(sum, total, x);
        }
        assert(denote(term_op(Op::BvAdd, added, acc), env) == Meaning::Scalar(
            Value::Bv(32, wrap(row_major(sizes, xs, i + 1), 32)),
        ));
        lemma_offset_from(env, sizes, indices, xs, i + 1, term_op(Op::BvAdd, added, acc));
    }
}

/// The offset of an element of an array means its row-major position, wrapped to an address.
pub proof fn law_offset_is_row_major(env: Env, base: CTerm, indices: Seq<CTerm>, xs: Seq<u64>)
    requires
        base.term.ty() is Array,
        indices_mean(env, indices, xs),
        forall|j: int|
            0 <= j < indices.len() && j < dimensions(base).len() ==> (#[trigger] dimensions(
                base,
            )[j]) <= i32::MAX,
        offset(base, indices) is Ok,
    ensures
        denote(offset(base, indices)->Ok_0, env) == Meaning::Scalar(
            Value::Bv(32, wrap(row_major(dimensions(base), xs, xs.len()), 32)),
        ),
{
    lemma_denote(Node::Const(Value::Bv(32, wrap(0, 32))), env);
    lemma_offset_from(env, dimensions(base), indices, xs, 0, lit_bv(0, 32));
}

/// An array that is read with fewer indices than it has dimensions gives a place within it, with as
/// many of the inner dimensions as there are indices missing.
pub proof fn law_few_indices_give_a_place(c: CircState, base: CTerm, indices: Seq<CTerm>)
    requires
        base.term is CArray,
        base.term.ty() is Array,
        indices.len() < dimensions(base).len(),
        index_value(c, base, indices) is Ok,
    ensures
        ({
            let v = index_value(c, base, indices)->Ok_0;
            &&& v.term is CStackPtr
            &&& region(v) == region(base)
            &&& dimensions(v) == dimensions(base).take(dimensions(base).len() - indices.len())
            &&& v.term.ty().inner() == base.term.ty().inner()
        }),
{
    match base.term {
        CTermData::CArray(Ty::Array(_, sizes, _), _) => lemma_without_last_seq(
            shared(sizes),
            indices.len(),
        ),
        _ => {},
    }
}

/// The sizes of the dimensions of an array, from the innermost to the outermost.
pub open spec fn dimensions(base: CTerm) -> Seq<usize> {
    match base.term.ty() {
        Ty::Array(_, sizes, _) => sizes.seq(),
        _ => Seq::empty(),
    }
}

proof fn lemma_stride_is_product(sizes: Seq<usize>, i: nat)
    requires
        i <= sizes.len(),
    ensures
        stride(sizes, i) == product(sizes.take(i as int)),
    decreases i,
{
    if i > 0 {
        lemma_stride_is_product(sizes, (i - 1) as nat);
        assert(sizes.take(i as int).drop_last() =~= sizes.take(i - 1));
    }
}

proof fn lemma_row_major_in_bounds(sizes: Seq<usize>, xs: Seq<u64>, i: nat)
    requires
        i <= xs.len() <= sizes.len(),
        forall|j: int| 0 <= j < xs.len() ==> xs[xs.len() - 1 - j] < #[trigger] sizes[j],
    ensures
        0 <= row_major(sizes, xs, i) < stride(sizes, i),
    decreases i,
{
    if i > 0 {
        lemma_row_major_in_bounds(sizes, xs, (i - 1) as nat);
        let low = row_major(sizes, xs, (i - 1) as nat);
        let step = stride(sizes, (i - 1) as nat);
        let x = xs[xs.len() - i] as int;
        let n = sizes[i - 1] as int;
        assert(0 <= low + step * x < step * n) by (nonlinear_arith)
            requires
                0 <= low < step,
                0 <= x < n,
        ;
    }
}

/// Indices that are within the dimensions of an array name a position within the array.
pub proof fn law_row_major_is_in_bounds(sizes: Seq<usize>, xs: Seq<u64>)
    requires
        xs.len() == sizes.len(),
        forall|j: int| 0 <= j < xs.len() ==> xs[xs.len() - 1 - j] < #[trigger] sizes[j],
    ensures
        0 <= row_major(sizes, xs, xs.len()) < product(sizes),
{
    lemma_row_major_in_bounds(sizes, xs, xs.len());
    lemma_stride_is_product(sizes, xs.len());
    assert(sizes.take(sizes.len() as int) =~= sizes);
}

proof fn lemma_row_major_injective(sizes: Seq<usize>, xs: Seq<u64>, ys: Seq<u64>, i: nat)
    requires
        i <= xs.len() <= sizes.len(),
        xs.len() == ys.len(),
        forall|j: int| 0 <= j < xs.len() ==> xs[xs.len() - 1 - j] < #[trigger] sizes[j],
        forall|j: int| 0 <= j < ys.len() ==> ys[ys.len() - 1 - j] < #[trigger] sizes[j],
        row_major(sizes, xs, i) == row_major(sizes, ys, i),
    ensures
        forall|k: int| xs.len() - i <= k < xs.len() ==> xs[k] == ys[k],
    decreases i,
{
    if i > 0 {
        let before = (i - 1) as nat;
        lemma_row_major_in_bounds(sizes, xs, before);
        lemma_row_major_in_bounds(sizes, ys, before);
        let a = row_major(sizes, xs, before);
        let b = row_major(sizes, ys, before);
        let step = stride(sizes, before);
        let x = xs[xs.len() - i] as int;
        let y = ys[ys.len() - i] as int;
        assert(x == y && a == b) by (nonlinear_arith)
            requires
                0 <= a < step,
                0 <= b < step,
                a + step * x == b + step * y,
        {
            if x < y {
                assert(step * (y - x) >= step) by (nonlinear_arith)
                    requires
                        y - x >= 1,
                        step > 0,
                ;
                assert(step * (y - x) == step * y - step * x) by (nonlinear_arith);
            }
            if y < x {
                assert(step * (x - y) >= step) by (nonlinear_arith)
                    requires
                        x - y >= 1,
                        step > 0,
                ;
                assert(step * (x - y) == step * x - step * y) by (nonlinear_arith);
            }
        }
        lemma_row_major_injective(sizes, xs, ys, before);
    }
}

/// Different indices within the dimensions of an array name different positions.
pub proof fn law_row_major_is_injective(sizes: Seq<usize>, xs: Seq<u64>, ys: Seq<u64>)
    requires
        xs.len() == sizes.len(),
        ys.len() == sizes.len(),
        forall|j: int| 0 <= j < xs.len() ==> xs[xs.len() - 1 - j] < #[trigger] sizes[j],
        forall|j: int| 0 <= j < ys.len() ==> ys[ys.len() - 1 - j] < #[trigger] sizes[j],
        row_major(sizes, xs, xs.len()) == row_major(sizes, ys, ys.len()),
    ensures
        xs == ys,
{
    lemma_row_major_injective(sizes, xs, ys, xs.len());
    assert(xs =~= ys);
}

// ---------------------------------------------------------------------------------------------
// Programs
// ---------------------------------------------------------------------------------------------

/// The number of inputs that make up a value of the type.
pub open spec fn parts(ty: Ty) -> nat
    decreases ty,
{
    match ty {
        Ty::Bool => 1,
        Ty::Int(_, _) => 1,
        Ty::Array(n, _, t) => n as nat * parts(*t),
        Ty::Ptr(_, _) => 0,
        Ty::Struct(_, fs) => parts_of_fields(*fs.list),
    }
}

/// The number of inputs that make up the fields.
pub open spec fn parts_of_fields(l: List<Field<Ty>>) -> nat
    decreases l,
{
    match l {
        List::Nil => 0,
        List::Cons(f, rest) => parts(f.value) + parts_of_fields(*rest),
    }
}

/// Whether `t` is `s` with `n` more inputs that belong to the variable `name` and are known to
/// `vis`; memory apart, the rest is the same.
pub open spec fn gained(
    s: CircState,
    t: CircState,
    n: nat,
    name: String,
    vis: Option<PartyId>,
) -> bool {
    &&& t.frames == s.frames
    &&& t.globals == s.globals
    &&& t.outputs == s.outputs
    &&& t.parties == s.parties
    &&& t.inputs.len() == s.inputs.len() + n
    &&& t.inputs.take(s.inputs.len() as int) == s.inputs
    &&& forall|i: int|
        s.inputs.len() <= i < t.inputs.len() ==> (#[trigger] t.inputs[i]).name == name
            && t.inputs[i].vis == vis
}

proof fn lemma_gained_trans(
    s: CircState,
    t: CircState,
    u: CircState,
    n: nat,
    m: nat,
    name: String,
    vis: Option<PartyId>,
)
    requires
        gained(s, t, n, name, vis),
        gained(t, u, m, name, vis),
    ensures
        gained(s, u, n + m, name, vis),
{
    assert(u.inputs.take(s.inputs.len() as int) =~= u.inputs.take(t.inputs.len() as int).take(
        s.inputs.len() as int,
    ));
    assert forall|i: int| s.inputs.len() <= i < u.inputs.len() implies (
    #[trigger] u.inputs[i]).name == name && u.inputs[i].vis == vis by {
        if i < t.inputs.len() {
            assert(u.inputs.take(t.inputs.len() as int)[i] == t.inputs[i]);
        }
    }
}

proof fn lemma_stored_all_gains(
    s: CircState,
    c: Term,
    id: AllocId,
    ts: Seq<Term>,
    i: nat,
    name: String,
    vis: Option<PartyId>,
)
    ensures
        s.stored_all(c, id, ts, i) matches Ok((_, t)) ==> gained(s, t, 0, name, vis),
    decreases ts.len() - i,
{
    assert(s.inputs.take(s.inputs.len() as int) =~= s.inputs);
    if i < ts.len() {
        match s.stored_if(c, id, lit_bv(i as int, ADDR_WIDTH), ts[i as int]) {
            Err(_) => {},
            Ok((_, t)) => lemma_stored_all_gains(t, c, id, ts, i + 1, name, vis),
        }
    }
}

pub(crate) proof fn lemma_input_gains(
    s: CircState,
    name: String,
    path: List<PathStep>,
    ty: Ty,
    vis: Option<PartyId>,
)
    ensures
        s.input(name, path, ty, vis) matches Ok((_, t)) ==> gained(s, t, parts(ty), name, vis),
    decreases ty, 0nat,
{
    match ty {
        Ty::Bool | Ty::Int(_, _) => {
            let sort = match ty {
                Ty::Int(_, w) => Sort::Bv(w),
                _ => Sort::Bool,
            };
            let t = s.new_input(name, path, sort, vis).1;
            assert(t.inputs.take(s.inputs.len() as int) =~= s.inputs);
        },
        Ty::Array(n, _, t) => {
            lemma_elements_gain(s, name, path, shared(t), vis, 0, n as nat, Seq::empty());
            match s.input_elements(name, path, shared(t), vis, 0, n as nat, Seq::empty()) {
                Err(_) => {},
                Ok((ts, u)) => {
                    let (id, v) = u.allocated(n, shared(t).bits() as usize);
                    lemma_stored_all_gains(v, lit_bool(true), id, ts, 0, name, vis);
                    match v.stored_all(lit_bool(true), id, ts, 0) {
                        Err(_) => {},
                        Ok((_, w)) => {
                            assert(gained(u, w, 0, name, vis));
                            lemma_gained_trans(s, u, w, parts(ty), 0, name, vis);
                        },
                    }
                },
            }
        },
        Ty::Ptr(_, _) => {},
        Ty::Struct(_, fs) => lemma_fields_gain(s, name, path, shared(fs.list), vis),
    }
}

proof fn lemma_elements_gain(
    s: CircState,
    name: String,
    path: List<PathStep>,
    ty: Ty,
    vis: Option<PartyId>,
    i: nat,
    n: nat,
    acc: Seq<Term>,
)
    ensures
        i <= n ==> (s.input_elements(name, path, ty, vis, i, n, acc) matches Ok((_, t)) ==> gained(
            s,
            t,
            ((n - i) as nat) * parts(ty),
            name,
            vis,
        )),
    decreases ty, 1nat + n - i,
{
    assert(s.inputs.take(s.inputs.len() as int) =~= s.inputs);
    if i < n {
        let p = List::Cons(PathStep::Index(i as usize), Rc::new(path));
        lemma_input_gains(s, name, p, ty, vis);
        match s.input(name, p, ty, vis) {
            Err(_) => {},
            Ok((v, t)) => match v.one_term() {
                Err(_) => {},
                Ok(x) => {
                    lemma_elements_gain(t, name, path, ty, vis, i + 1, n, acc.push(x));
                    match t.input_elements(name, path, ty, vis, i + 1, n, acc.push(x)) {
                        Err(_) => {},
                        Ok((_, u)) => {
                            let rest = ((n - i - 1) as nat) * parts(ty);
                            lemma_gained_trans(s, t, u, parts(ty), rest, name, vis);
                            assert(parts(ty) + ((n - i - 1) as nat) * parts(ty) == ((n - i) as nat)
                                * parts(ty)) by (nonlinear_arith)
                                requires
                                    i < n,
                            ;
                        },
                    }
                },
            },
        }
    } else {
        assert(0 * parts(ty) == 0) by (nonlinear_arith);
    }
}

proof fn lemma_fields_gain(
    s: CircState,
    name: String,
    path: List<PathStep>,
    l: List<Field<Ty>>,
    vis: Option<PartyId>,
)
    ensures
        s.input_fields(name, path, l, vis) matches Ok((_, t)) ==> gained(
            s,
            t,
            parts_of_fields(l),
            name,
            vis,
        ),
    decreases l, 0nat,
{
    assert(s.inputs.take(s.inputs.len() as int) =~= s.inputs);
    match l {
        List::Nil => {},
        List::Cons(f, rest) => {
            let p = List::Cons(PathStep::Field(f.name), Rc::new(path));
            lemma_input_gains(s, name, p, f.value, vis);
            match s.input(name, p, f.value, vis) {
                Err(_) => {},
                Ok((_, t)) => {
                    lemma_fields_gain(t, name, path, shared(rest), vis);
                    match t.input_fields(name, path, shared(rest), vis) {
                        Err(_) => {},
                        Ok((_, u)) => lemma_gained_trans(
                            s,
                            t,
                            u,
                            parts(f.value),
                            parts_of_fields(shared(rest)),
                            name,
                            vis,
                        ),
                    }
                },
            }
        },
    }
}

/// Declaring a parameter of the entry function adds the inputs that its value is made of, one for
/// each number and truth value in it, all known to the party of the parameter.
pub proof fn law_declared_input_adds_its_parts(
    s: CircState,
    name: String,
    ty: Ty,
    vis: Option<PartyId>,
)
    requires
        s.declared_input(name, ty, vis) is Ok,
    ensures
        ({
            let t = s.declared_input(name, ty, vis)->Ok_0.1;
            &&& t.inputs.len() == s.inputs.len() + parts(ty)
            &&& t.inputs.take(s.inputs.len() as int) == s.inputs
            &&& forall|i: int|
                s.inputs.len() <= i < t.inputs.len() ==> (#[trigger] t.inputs[i]).name == name
                    && t.inputs[i].vis == vis
            &&& t.outputs == s.outputs
            &&& t.parties == s.parties
            &&& t.frames.len() == s.frames.len()
        }),
{
    lemma_input_gains(s, name, List::Nil, ty, vis);
}

proof fn lemma_entry_params(
    env: Env,
    depth: nat,
    st: GenState,
    ps: Seq<ParameterDeclaration>,
    i: nat,
)
    ensures
        entry_params(depth, st, ps, i) matches Ok((_, t)) ==> t.mode == st.mode
            && t.circ.frames.len() == st.circ.frames.len() && t.circ.outputs == st.circ.outputs
            && t.circ.parties == st.circ.parties,
        too_deep(entry_params(depth, st, ps, i)) || entry_params(depth + 1, st, ps, i)
            == entry_params(depth, st, ps, i),
    decreases ps.len() - i,
{
    if i < ps.len() {
        sound_param(env, depth, st, ps[i as int], true);
        match param(depth, st, ps[i as int], true) {
            Err(_) => {},
            Ok((p, s)) => {
                reveal(kept);
                match s.lift(s.circ.declared_input(p.name, p.ty, p.vis)) {
                    Err(_) => {},
                    Ok((_, t)) => {
                        law_declared_input_adds_its_parts(s.circ, p.name, p.ty, p.vis);
                        lemma_entry_params(env, depth, t, ps, i + 1);
                    },
                }
            },
        }
    }
}

#[verifier::spinoff_prover]
proof fn lemma_visited(
    env: Env,
    depth: nat,
    st: GenState,
    nodes: Seq<ExternalDeclaration>,
    i: nat,
)
    ensures
        visited(depth, st, nodes, i) matches Ok((_, t)) ==> t.mode == st.mode
            && t.circ.frames.len() == st.circ.frames.len() && t.circ.inputs == st.circ.inputs
            && t.circ.outputs == st.circ.outputs && t.circ.parties == st.circ.parties,
        too_deep(visited(depth, st, nodes, i)) || visited(depth + 1, st, nodes, i) == visited(
            depth,
            st,
            nodes,
            i,
        ),
    decreases nodes.len() - i,
{
    if i < nodes.len() {
        match nodes[i as int] {
            ExternalDeclaration::Declaration(d) => {
                sound_decl(env, depth, st, d);
                match decl(depth, st, d) {
                    Err(_) => {},
                    Ok((_, s)) => {
                        reveal(kept);
                        lemma_visited(env, depth, s, nodes, i + 1);
                    },
                }
            },
            ExternalDeclaration::FunctionDefinition(f) => {
                sound_d_type(env, depth, st, f.specifiers@, 0);
                match fn_info(depth, st, f) {
                    Err(_) => {},
                    Ok((info, s)) => {
                        reveal(kept);
                        let t = GenState { functions: s.functions.insert(info.name@, info), ..s };
                        lemma_visited(env, depth, t, nodes, i + 1);
                    },
                }
            },
            ExternalDeclaration::Other => {},
        }
    }
}

#[verifier::spinoff_prover]
proof fn lemma_entry(env: Env, depth: nat, st: GenState, name: String)
    ensures
        entry(depth, st, name) matches Ok((_, t)) ==> t.mode == st.mode && t.circ.frames.len()
            == st.circ.frames.len() && t.circ.parties == st.circ.parties && (t.circ.outputs
            == st.circ.outputs || st.mode is Mpc),
        too_deep(entry(depth, st, name)) || entry(depth + 1, st, name) == entry(depth, st, name),
{
    if st.functions.dom().contains(name@) {
        let f = st.functions[name@];
        let entered = st.with_circ(st.circ.entered_fn(f.name, f.ret_ty));
        lemma_entry_params(env, depth, entered, params(f), 0);
        match entry_params(depth, entered, params(f), 0) {
            Err(_) => {},
            Ok((_, s)) => {
                sound_stmt(env, depth, s, shared(f.body));
                reveal(kept);
            },
        }
    }
}

/// A translated program leaves no function open, has the two parties of a proof, and has outputs in
/// a multi-party computation only.
#[verifier::spinoff_prover]
pub proof fn law_program_is_closed(
    depth: nat,
    mode: Mode,
    nodes: Seq<ExternalDeclaration>,
    name: String,
)
    requires
        program(depth, mode, nodes, name) is Ok,
    ensures
        ({
            let st = program(depth, mode, nodes, name)->Ok_0.1;
            &&& st.mode == mode
            &&& st.circ.frames.len() == 0
            &&& st.circ.parties == seq![Party::Prover, Party::Verifier]
            &&& mode is Mpc || st.circ.outputs.len() == 0
        }),
{
    let env = |i: usize| Value::Bool(true);
    lemma_visited(env, depth, start(mode), nodes, 0);
    lemma_entry(env, depth, visited(depth, start(mode), nodes, 0)->Ok_0.1, name);
}

#[verifier::spinoff_prover]
proof fn lemma_program(
    depth: nat,
    mode: Mode,
    nodes: Seq<ExternalDeclaration>,
    name: String,
)
    ensures
        too_deep(program(depth, mode, nodes, name)) || program(depth + 1, mode, nodes, name)
            == program(depth, mode, nodes, name),
{
    let env = |i: usize| Value::Bool(true);
    let r = visited(depth, start(mode), nodes, 0);
    let q = visited(depth + 1, start(mode), nodes, 0);
    lemma_visited(env, depth, start(mode), nodes, 0);
    assert(too_deep(r) || q == r);
    match r {
        Err(_) => {},
        Ok((_, st)) => lemma_entry(env, depth, st, name),
    }
}

/// The translation of a program, as one thing.
#[verifier::opaque]
spec fn whole_program(
    depth: nat,
    mode: Mode,
    nodes: Seq<ExternalDeclaration>,
    name: String,
) -> Step<()> {
    program(depth, mode, nodes, name)
}

proof fn lemma_whole_program(
    depth: nat,
    more: nat,
    mode: Mode,
    nodes: Seq<ExternalDeclaration>,
    name: String,
)
    ensures
        too_deep(whole_program(depth, mode, nodes, name)) || whole_program(
            depth + more,
            mode,
            nodes,
            name,
        ) == whole_program(depth, mode, nodes, name),
    decreases more,
{
    if more > 0 {
        let before = (depth + more - 1) as nat;
        lemma_whole_program(depth, (more - 1) as nat, mode, nodes, name);
        assert(too_deep(whole_program(before, mode, nodes, name)) || whole_program(
            before + 1,
            mode,
            nodes,
            name,
        ) == whole_program(before, mode, nodes, name)) by {
            lemma_program(before, mode, nodes, name);
            reveal(whole_program);
        }
        assert(before + 1 == depth + more);
    }
}

/// Where a program is translated without nesting calls too deeply, allowing deeper nesting gives
/// the same.
#[verifier::spinoff_prover]
pub proof fn law_deeper_program_is_the_same(
    depth: nat,
    more: nat,
    mode: Mode,
    nodes: Seq<ExternalDeclaration>,
    name: String,
)
    requires
        !too_deep(program(depth, mode, nodes, name)),
    ensures
        program(depth + more, mode, nodes, name) == program(depth, mode, nodes, name),
{
    lemma_whole_program(depth, more, mode, nodes, name);
    assert(whole_program(depth, mode, nodes, name) == program(depth, mode, nodes, name)) by {
        reveal(whole_program);
    }
    assert(whole_program(depth + more, mode, nodes, name) == program(
        depth + more,
        mode,
        nodes,
        name,
    )) by {
        reveal(whole_program);
    }
}

} // verus!
