//! Every term that a translation makes is well formed: it carries the sort and the constant of its
//! head, all the way down, and has arrays where memory stands and nowhere else.
use std::rc::Rc;

use vstd::prelude::*;

use crate::ast::ArraySize;
use crate::ast::BinaryOperator;
use crate::ast::BinaryOperatorExpression;
use crate::ast::BlockItem;
use crate::ast::CallExpression;
use crate::ast::Declaration;
use crate::ast::DeclarationSpecifier;
use crate::ast::DerivedDeclarator;
use crate::ast::Expression;
use crate::ast::ExternalDeclaration;
use crate::ast::ForInitializer;
use crate::ast::ForStatement;
use crate::ast::InitDeclarator;
use crate::ast::Initializer;
use crate::ast::ParameterDeclaration;
use crate::ast::SpecifierQualifier;
use crate::ast::Statement;
use crate::ast::StructDeclaration;
use crate::ast::StructDeclarator;
use crate::ast::StructType;
use crate::ast::TypeSpecifier;
use crate::ast::UnaryOperator;
use crate::ast::UnaryOperatorExpression;
use crate::circ::elements;
use crate::circ::find;
use crate::circ::find_scopes;
use crate::circ::merge;
use crate::circ::merge_fields;
use crate::circ::set_scopes;
use crate::circ::set_var;
use crate::circ::unset;
use crate::circ::unset_fields;
use crate::circ::ADDR_WIDTH;
use crate::circ::CircState;
use crate::circ::Frame;
use crate::circ::PartyId;
use crate::circ::PathStep;
use crate::circ::Var;
use crate::cterm::apply;
use crate::cterm::cast_to;
use crate::cterm::common_type;
use crate::cterm::converted;
use crate::cterm::promoted;
use crate::cterm::resized;
use crate::cterm::value_false;
use crate::cterm::value_i32;
use crate::cterm::AllocId;
use crate::cterm::COp;
use crate::cterm::CTerm;
use crate::cterm::CTermData;
use crate::error::CError;
use crate::ir::as_signed;
use crate::ir::denote;
use crate::ir::folded;
use crate::ir::law_fold_keeps_meaning;
use crate::ir::law_new_term_is_wf;
use crate::ir::lemma_constant_is_meaning;
use crate::ir::lemma_denote;
use crate::ir::lemma_kind;
use crate::ir::lemma_of;
use crate::ir::lemma_wf_const;
use crate::ir::lit_bool;
use crate::ir::lit_bv;
use crate::ir::term_not;
use crate::ir::term_op;
use crate::ir::Meaning;
use crate::ir::Node;
use crate::ir::Op;
use crate::ir::Sort;
use crate::ir::Term;
use crate::ir::Value;
use crate::kept::Env;
use crate::list::shared;
use crate::list::List;
use crate::translate::array_value;
use crate::translate::assigned;
use crate::translate::bin_op;
use crate::translate::binary;
use crate::translate::block;
use crate::translate::bound;
use crate::translate::branch;
use crate::translate::call;
use crate::translate::called;
use crate::translate::d_type;
use crate::translate::d_types;
use crate::translate::decl;
use crate::translate::decl_info;
use crate::translate::decl_name;
use crate::translate::declarators_info;
use crate::translate::declarators_type;
use crate::translate::declared_type;
use crate::translate::derived;
use crate::translate::derived_once;
use crate::translate::entry;
use crate::translate::entry_params;
use crate::translate::expr;
use crate::translate::expr_name;
use crate::translate::exprs;
use crate::translate::field_declarators;
use crate::translate::fn_info;
use crate::translate::folded_expr;
use crate::translate::index;
use crate::translate::index_value;
use crate::translate::indexed_array;
use crate::translate::init;
use crate::translate::initial;
use crate::translate::is_index;
use crate::translate::iterations;
use crate::translate::leaves;
use crate::translate::leaves_from;
use crate::translate::loop_end;
use crate::translate::loop_start;
use crate::translate::loop_step;
use crate::translate::low_i32;
use crate::translate::lval;
use crate::translate::offset;
use crate::translate::offset_from;
use crate::translate::one_round;
use crate::translate::operated;
use crate::translate::param;
use crate::translate::params;
use crate::translate::program;
use crate::translate::rebuilt;
use crate::translate::rounds;
use crate::translate::s_type;
use crate::translate::s_types;
use crate::translate::selected;
use crate::translate::selected_field;
use crate::translate::start;
use crate::translate::stmt;
use crate::translate::stored;
use crate::translate::stored_field;
use crate::translate::stored_terms;
use crate::translate::stored_values;
use crate::translate::struct_fields;
use crate::translate::struct_type;
use crate::translate::type_of;
use crate::translate::typedefs_from;
use crate::translate::u_op;
use crate::translate::unary;
use crate::translate::variables_from;
use crate::translate::visited;
use crate::translate::CLoc;
use crate::translate::DeclInfo;
use crate::translate::FnInfo;
use crate::translate::GenState;
use crate::translate::Loc;
use crate::translate::Mode;
use crate::translate::Step;
use crate::types::search;
use crate::types::set_field;
use crate::types::Field;
use crate::types::Ty;

verus! {

/// Whether all terms of a value are well formed.
pub open spec fn value_wf(v: CTerm) -> bool
    decreases v,
{
    match v.term {
        CTermData::CBool(t) => t.is_plain(),
        CTermData::CInt(_, _, t) => t.is_plain(),
        CTermData::CArray(_, _) => true,
        CTermData::CStackPtr(_, o, _) => o.is_plain(),
        CTermData::CStruct(_, fs) => fields_wf(*fs.list),
    }
}

/// Whether all terms of fields are well formed.
pub open spec fn fields_wf(l: List<Field<CTerm>>) -> bool
    decreases l,
{
    match l {
        List::Nil => true,
        List::Cons(f, rest) => value_wf(f.value) && fields_wf(*rest),
    }
}

/// Whether all terms of variables are well formed.
pub open spec fn vars_wf(l: List<Var>) -> bool
    decreases l,
{
    match l {
        List::Nil => true,
        List::Cons(v, rest) => value_wf(v.val) && vars_wf(*rest),
    }
}

/// Whether all terms of the variables in scopes are well formed.
pub open spec fn scopes_wf(l: List<Rc<List<Var>>>) -> bool
    decreases l,
{
    match l {
        List::Nil => true,
        List::Cons(s, rest) => vars_wf(*s) && scopes_wf(*rest),
    }
}

/// Whether all conditions are well formed.
pub open spec fn guards_wf(l: List<Term>) -> bool
    decreases l,
{
    match l {
        List::Nil => true,
        List::Cons(t, rest) => t.is_plain() && guards_wf(*rest),
    }
}

/// Whether all terms of a function that is being translated are well formed.
pub open spec fn frame_wf(f: Frame) -> bool {
    &&& f.entry.is_plain()
    &&& f.returned.is_plain()
    &&& guards_wf(*f.guards)
    &&& scopes_wf(*f.scopes)
    &&& f.ret_val matches Some(v) ==> value_wf(v)
}

/// Whether all terms are well formed.
pub open spec fn terms_wf(ts: Seq<Term>) -> bool {
    forall|i: int| 0 <= i < ts.len() ==> (#[trigger] ts[i]).is_plain()
}

/// Whether all terms of values are well formed.
pub open spec fn values_wf(vs: Seq<CTerm>) -> bool {
    forall|i: int| 0 <= i < vs.len() ==> value_wf(#[trigger] vs[i])
}

/// Whether all terms of a place are well formed.
pub open spec fn loc_wf(l: CLoc) -> bool
    decreases l,
{
    match l {
        CLoc::Var(_) => true,
        CLoc::Member(inner, _) => loc_wf(*inner),
        CLoc::Idx(inner, idx) => loc_wf(*inner) && value_wf(idx),
    }
}

/// Whether all terms of a circuit under construction are well formed.
#[verifier::opaque]
pub open spec fn circ_wf(s: CircState) -> bool {
    &&& forall|i: int| 0 <= i < s.frames.len() ==> frame_wf(#[trigger] s.frames[i])
    &&& vars_wf(s.globals)
    &&& forall|i: int| 0 <= i < s.allocs.len() ==> (#[trigger] s.allocs[i]).contents.is_region()
    &&& terms_wf(s.outputs)
}

/// Whether an operation leaves a well-formed circuit.
pub open spec fn makes<T>(r: Result<(T, CircState), CError>) -> bool {
    r matches Ok((_, t)) ==> circ_wf(t)
}

/// Whether an operation gives a well-formed value and leaves a well-formed circuit.
pub open spec fn makes_value(r: Result<(CTerm, CircState), CError>) -> bool {
    r matches Ok((v, t)) ==> value_wf(v) && circ_wf(t)
}

/// Whether a step leaves a well-formed circuit.
pub open spec fn fit<T>(r: Step<T>) -> bool {
    r matches Ok((_, st)) ==> circ_wf(st.circ)
}

/// Whether a step gives a well-formed value and leaves a well-formed circuit.
pub open spec fn fit_value(r: Step<CTerm>) -> bool {
    r matches Ok((v, st)) ==> value_wf(v) && circ_wf(st.circ)
}

/// Whether a step gives well-formed values and leaves a well-formed circuit.
pub open spec fn fit_values(r: Step<Seq<CTerm>>) -> bool {
    r matches Ok((vs, st)) ==> values_wf(vs) && circ_wf(st.circ)
}

/// Whether a step gives a well-formed place and leaves a well-formed circuit.
pub open spec fn fit_loc(r: Step<CLoc>) -> bool {
    r matches Ok((l, st)) ==> loc_wf(l) && circ_wf(st.circ)
}

/// Whether a step gives a well-formed array and well-formed indices, and leaves a well-formed
/// circuit.
pub open spec fn fit_index(r: Step<(CTerm, Seq<CTerm>)>) -> bool {
    r matches Ok((p, st)) ==> value_wf(p.0) && values_wf(p.1) && circ_wf(st.circ)
}

/// What a step gives.
spec fn got<T>(r: Step<T>) -> T {
    r->Ok_0.0
}

/// The state behind a step.
spec fn after<T>(r: Step<T>) -> GenState {
    r->Ok_0.1
}

// ---------------------------------------------------------------------------------------------
// Terms and values
// ---------------------------------------------------------------------------------------------

broadcast proof fn wf_const(v: Value)
    ensures
        #[trigger] Term::of(Node::Const(v)).is_plain(),
{
    lemma_of(Node::Const(v));
    law_new_term_is_wf(Node::Const(v));
}

broadcast proof fn wf_not(a: Term)
    requires
        a.is_plain(),
    ensures
        #[trigger] Term::of(Node::Not(a)).is_plain(),
{
    lemma_of(Node::Not(a));
    law_new_term_is_wf(Node::Not(a));
}

broadcast proof fn wf_op(op: Op, a: Term, b: Term)
    requires
        a.is_plain(),
        b.is_plain(),
    ensures
        #[trigger] Term::of(Node::Op(op, a, b)).is_plain(),
{
    lemma_of(Node::Op(op, a, b));
    law_new_term_is_wf(Node::Op(op, a, b));
}

broadcast proof fn wf_ite(c: Term, a: Term, b: Term)
    requires
        c.is_plain(),
        a.is_plain(),
        b.is_plain(),
    ensures
        #[trigger] Term::of(Node::Ite(c, a, b)).is_plain(),
{
    lemma_of(Node::Ite(c, a, b));
    law_new_term_is_wf(Node::Ite(c, a, b));
}

broadcast group group_wf {
    wf_const,
    wf_not,
    wf_op,
    wf_ite,
    lemma_of,
}

proof fn wf_folded(t: Term)
    requires
        t.is_plain(),
    ensures
        folded(t).is_plain(),
{
    broadcast use group_wf;

}

proof fn wf_resized(s: bool, w: usize, t: Term, v: usize)
    requires
        t.is_plain(),
    ensures
        resized(s, w, t, v).is_plain(),
{
    law_new_term_is_wf(Node::SignExt(v, t));
    law_new_term_is_wf(Node::ZeroExt(v, t));
    law_new_term_is_wf(Node::Truncate(v, t));
}

pub(crate) proof fn wf_cast(to: Option<Ty>, v: CTerm)
    requires
        value_wf(v),
    ensures
        cast_to(to, v) matches Ok(r) ==> value_wf(r),
{
    broadcast use group_wf;

    match (v.term, to) {
        (CTermData::CInt(s, w, x), Some(Ty::Int(_, to_w))) => wf_resized(s, w, x, to_w),
        _ => {},
    }
}

proof fn wf_converted(a: CTerm, b: CTerm)
    requires
        value_wf(a),
        value_wf(b),
    ensures
        converted(a, b) matches Some((_, _, x, y)) ==> x.is_plain() && y.is_plain(),
{
    broadcast use group_wf;

    match (promoted(a), promoted(b)) {
        (Some((s, w, x)), Some((t, v, y))) => {
            let (_, cw) = common_type(s, w, t, v);
            wf_resized(s, w, x, cw);
            wf_resized(t, v, y, cw);
        },
        _ => {},
    }
}

proof fn wf_apply(op: COp, a: CTerm, b: CTerm)
    requires
        value_wf(a),
        value_wf(b),
    ensures
        apply(op, a, b) matches Ok(r) ==> value_wf(r),
{
    broadcast use group_wf;

    wf_converted(a, b);
}

proof fn wf_operated(op: COp, a: CTerm, b: CTerm)
    requires
        value_wf(a),
        value_wf(b),
    ensures
        operated(op, a, b) matches Ok(r) ==> value_wf(r),
{
    match b.one_term() {
        Err(_) => {},
        Ok(t) => {
            wf_folded(t);
            wf_apply(op, a, value_i32(folded(t)));
        },
    }
    wf_apply(op, a, b);
}

proof fn wf_search(l: List<Field<CTerm>>, key: Seq<char>)
    requires
        fields_wf(l),
    ensures
        search(l, key) matches Some(v) ==> value_wf(v),
    decreases l,
{
    match l {
        List::Nil => {},
        List::Cons(_, rest) => wf_search(shared(rest), key),
    }
}

proof fn wf_set_field(l: List<Field<CTerm>>, key: Seq<char>, v: CTerm)
    requires
        fields_wf(l),
        value_wf(v),
    ensures
        fields_wf(set_field(l, key, v)),
    decreases l,
{
    match l {
        List::Nil => {},
        List::Cons(_, rest) => wf_set_field(shared(rest), key, v),
    }
}

proof fn wf_selected_field(t: CTerm, field: String)
    requires
        value_wf(t),
    ensures
        selected_field(t, field) matches Ok(v) ==> value_wf(v),
{
    match t.term {
        CTermData::CStruct(_, fs) => wf_search(shared(fs.list), field@),
        _ => {},
    }
}

proof fn wf_stored_field(t: CTerm, field: String, val: CTerm)
    requires
        value_wf(t),
        value_wf(val),
    ensures
        stored_field(t, field, val) matches Ok(v) ==> value_wf(v),
{
    match t.term {
        CTermData::CStruct(_, fs) => wf_set_field(shared(fs.list), field@, val),
        _ => {},
    }
}

proof fn wf_merge(c: Term, t: CTerm, f: CTerm)
    requires
        c.is_plain(),
        value_wf(t),
        value_wf(f),
    ensures
        merge(c, t, f) matches Ok(m) ==> value_wf(m),
    decreases t,
{
    broadcast use group_wf;

    match (t.term, f.term) {
        (CTermData::CStruct(_, fs), CTermData::CStruct(_, gs)) => wf_merge_fields(
            c,
            shared(fs.list),
            shared(gs.list),
        ),
        _ => {},
    }
}

proof fn wf_merge_fields(c: Term, t: List<Field<CTerm>>, f: List<Field<CTerm>>)
    requires
        c.is_plain(),
        fields_wf(t),
        fields_wf(f),
    ensures
        merge_fields(c, t, f) matches Some(Ok(m)) ==> fields_wf(m),
    decreases t,
{
    match (t, f) {
        (List::Cons(a, r), List::Cons(b, s)) => {
            wf_merge(c, a.value, b.value);
            wf_merge_fields(c, shared(r), shared(s));
        },
        _ => {},
    }
}

proof fn wf_unset(ty: Ty)
    ensures
        value_wf(unset(ty)),
    decreases ty,
{
    broadcast use group_wf;

    match ty {
        Ty::Struct(_, fs) => wf_unset_fields(shared(fs.list)),
        _ => {},
    }
}

proof fn wf_unset_fields(l: List<Field<Ty>>)
    ensures
        fields_wf(unset_fields(l)),
    decreases l,
{
    match l {
        List::Nil => {},
        List::Cons(f, rest) => {
            wf_unset(f.value);
            wf_unset_fields(shared(rest));
        },
    }
}

// ---------------------------------------------------------------------------------------------
// The circuit
// ---------------------------------------------------------------------------------------------

proof fn wf_condition(s: CircState)
    requires
        circ_wf(s),
    ensures
        s.condition().is_plain(),
{
    broadcast use group_wf;

    reveal(circ_wf);
    if s.frames.len() > 0 {
        assert(frame_wf(s.frames[s.frames.len() - 1]));
    }
}

proof fn wf_find(l: List<Var>, name: Seq<char>)
    requires
        vars_wf(l),
    ensures
        find(l, name) matches Some(v) ==> value_wf(v.val),
    decreases l,
{
    match l {
        List::Nil => {},
        List::Cons(_, rest) => wf_find(shared(rest), name),
    }
}

proof fn wf_find_scopes(l: List<Rc<List<Var>>>, name: Seq<char>)
    requires
        scopes_wf(l),
    ensures
        find_scopes(l, name) matches Some(v) ==> value_wf(v.val),
    decreases l,
{
    match l {
        List::Nil => {},
        List::Cons(s, rest) => {
            wf_find(shared(s), name);
            wf_find_scopes(shared(rest), name);
        },
    }
}

proof fn wf_get(s: CircState, name: String)
    requires
        circ_wf(s),
    ensures
        s.get(name) matches Ok(v) ==> value_wf(v),
{
    reveal(circ_wf);
    wf_find(s.globals, name@);
    if s.frames.len() > 0 {
        assert(frame_wf(s.frames[s.frames.len() - 1]));
        wf_find_scopes(shared(s.top().scopes), name@);
    }
}

proof fn wf_set_var(l: List<Var>, name: Seq<char>, val: CTerm)
    requires
        vars_wf(l),
        value_wf(val),
    ensures
        vars_wf(set_var(l, name, val)),
    decreases l,
{
    match l {
        List::Nil => {},
        List::Cons(_, rest) => wf_set_var(shared(rest), name, val),
    }
}

proof fn wf_set_scopes(l: List<Rc<List<Var>>>, name: Seq<char>, val: CTerm)
    requires
        scopes_wf(l),
        value_wf(val),
    ensures
        scopes_wf(set_scopes(l, name, val)),
    decreases l,
{
    match l {
        List::Nil => {},
        List::Cons(s, rest) => {
            wf_set_var(shared(s), name, val);
            wf_set_scopes(shared(rest), name, val);
        },
    }
}

proof fn wf_with_top(s: CircState, f: Frame)
    requires
        circ_wf(s),
        s.frames.len() > 0,
        frame_wf(f),
    ensures
        circ_wf(s.with_top(f)),
{
    reveal(circ_wf);
    let t = s.with_top(f);
    assert forall|i: int| 0 <= i < t.frames.len() implies frame_wf(#[trigger] t.frames[i]) by {
        if i < s.frames.len() - 1 {
            assert(t.frames[i] == s.frames[i]);
        }
    }
}

proof fn wf_top(s: CircState)
    requires
        circ_wf(s),
        s.frames.len() > 0,
    ensures
        frame_wf(s.top()),
{
    reveal(circ_wf);
    assert(frame_wf(s.frames[s.frames.len() - 1]));
}

proof fn wf_circ_assigned(s: CircState, name: String, val: CTerm)
    requires
        circ_wf(s),
        value_wf(val),
    ensures
        makes_value(s.assigned(name, val)),
{
    wf_get(s, name);
    wf_condition(s);
    match s.lookup(name@) {
        None => {},
        Some(v) => {
            wf_merge(s.condition(), val, v.val);
            match merge(s.condition(), val, v.val) {
                Err(_) => {},
                Ok(m) => {
                    if s.frames.len() > 0 && find_scopes(shared(s.top().scopes), name@) is Some {
                        wf_top(s);
                        wf_set_scopes(shared(s.top().scopes), name@, m);
                        wf_with_top(
                            s,
                            Frame {
                                scopes: Rc::new(set_scopes(shared(s.top().scopes), name@, m)),
                                ..s.top()
                            },
                        );
                    } else {
                        reveal(circ_wf);
                        wf_set_var(s.globals, name@, m);
                    }
                },
            }
        },
    }
}

pub(crate) proof fn wf_declared(s: CircState, name: String, ty: Ty, val: CTerm)
    requires
        circ_wf(s),
        value_wf(val),
    ensures
        makes(s.declared(name, ty, val)),
{
    match s.declared(name, ty, val) {
        Err(_) => {},
        Ok((_, t)) => {
            let vars = List::Cons(Var { name, ty, val }, Rc::new(s.here()->0));
            if s.frames.len() > 0 {
                wf_top(s);
                match shared(s.top().scopes) {
                    List::Nil => {},
                    List::Cons(_, rest) => wf_with_top(
                        s,
                        Frame { scopes: Rc::new(List::Cons(Rc::new(vars), rest)), ..s.top() },
                    ),
                }
            } else {
                reveal(circ_wf);
            }
        },
    }
}

proof fn wf_loaded(s: CircState, id: AllocId, at: Term)
    requires
        circ_wf(s),
        at.is_plain(),
    ensures
        s.loaded(id, at) matches Ok(t) ==> t.is_plain(),
{
    reveal(circ_wf);
    if id < s.allocs.len() {
        assert(s.allocs[id as int].contents.is_region());
        law_new_term_is_wf(Node::Select(s.allocs[id as int].contents, at));
    }
}

proof fn wf_stored_if(s: CircState, c: Term, id: AllocId, at: Term, val: Term)
    requires
        circ_wf(s),
        c.is_plain(),
        at.is_plain(),
        val.is_plain(),
    ensures
        makes(s.stored_if(c, id, at, val)),
{
    broadcast use group_wf;

    reveal(circ_wf);
    if id < s.allocs.len() {
        let a = s.allocs[id as int].contents;
        let store = Term::of(Node::Store(a, at, val));
        assert(a.is_region());
        law_new_term_is_wf(Node::Store(a, at, val));
        law_new_term_is_wf(Node::Ite(c, store, a));
    }
}

proof fn wf_stored(s: CircState, id: AllocId, at: Term, val: Term)
    requires
        circ_wf(s),
        at.is_plain(),
        val.is_plain(),
    ensures
        makes(s.stored(id, at, val)),
{
    wf_condition(s);
    wf_stored_if(s, s.condition(), id, at, val);
}

proof fn wf_stored_all(s: CircState, c: Term, id: AllocId, ts: Seq<Term>, i: nat)
    requires
        circ_wf(s),
        c.is_plain(),
        terms_wf(ts),
    ensures
        makes(s.stored_all(c, id, ts, i)),
    decreases ts.len() - i,
{
    broadcast use group_wf;

    if i < ts.len() {
        let at = lit_bv(i as int, ADDR_WIDTH);
        wf_stored_if(s, c, id, at, ts[i as int]);
        match s.stored_if(c, id, at, ts[i as int]) {
            Err(_) => {},
            Ok((_, t)) => wf_stored_all(t, c, id, ts, i + 1),
        }
    }
}

proof fn wf_allocated(s: CircState, size: usize, val_width: usize)
    requires
        circ_wf(s),
    ensures
        circ_wf(s.allocated(size, val_width).1),
{
    reveal(circ_wf);
    law_new_term_is_wf(Node::ZeroArray(size, ADDR_WIDTH, val_width));
}

proof fn wf_zero(s: CircState, ty: Ty)
    requires
        circ_wf(s),
    ensures
        makes_value(s.zero(ty)),
    decreases ty,
{
    broadcast use group_wf;

    match ty {
        Ty::Array(n, _, t) => wf_allocated(s, n, shared(t).bits() as usize),
        Ty::Struct(_, fs) => wf_zero_fields(s, shared(fs.list)),
        _ => {},
    }
}

proof fn wf_zero_fields(s: CircState, l: List<Field<Ty>>)
    requires
        circ_wf(s),
    ensures
        s.zero_fields(l) matches Ok((m, t)) ==> fields_wf(m) && circ_wf(t),
    decreases l,
{
    match l {
        List::Nil => {},
        List::Cons(f, rest) => {
            wf_zero(s, f.value);
            match s.zero(f.value) {
                Err(_) => {},
                Ok((_, t)) => wf_zero_fields(t, shared(rest)),
            }
        },
    }
}

proof fn wf_new_input(
    s: CircState,
    name: String,
    path: List<PathStep>,
    sort: Sort,
    vis: Option<PartyId>,
)
    requires
        circ_wf(s),
        !(sort is Array),
    ensures
        ({
            let (t, u) = s.new_input(name, path, sort, vis);
            t.is_plain() && circ_wf(u)
        }),
{
    reveal(circ_wf);
    law_new_term_is_wf(Node::Input(s.inputs.len() as usize, sort));
}

proof fn wf_input(
    s: CircState,
    name: String,
    path: List<PathStep>,
    ty: Ty,
    vis: Option<PartyId>,
)
    requires
        circ_wf(s),
    ensures
        makes_value(s.input(name, path, ty, vis)),
    decreases ty, 0nat,
{
    broadcast use group_wf;

    match ty {
        Ty::Bool => wf_new_input(s, name, path, Sort::Bool, vis),
        Ty::Int(_, w) => wf_new_input(s, name, path, Sort::Bv(w), vis),
        Ty::Array(n, _, t) => {
            wf_input_elements(s, name, path, shared(t), vis, 0, n as nat, Seq::empty());
            match s.input_elements(name, path, shared(t), vis, 0, n as nat, Seq::empty()) {
                Err(_) => {},
                Ok((ts, u)) => {
                    let (id, v) = u.allocated(n, shared(t).bits() as usize);
                    wf_allocated(u, n, shared(t).bits() as usize);
                    wf_stored_all(v, lit_bool(true), id, ts, 0);
                },
            }
        },
        Ty::Ptr(_, _) => {},
        Ty::Struct(_, fs) => wf_input_fields(s, name, path, shared(fs.list), vis),
    }
}

proof fn wf_input_elements(
    s: CircState,
    name: String,
    path: List<PathStep>,
    ty: Ty,
    vis: Option<PartyId>,
    i: nat,
    n: nat,
    acc: Seq<Term>,
)
    requires
        circ_wf(s),
        terms_wf(acc),
    ensures
        s.input_elements(name, path, ty, vis, i, n, acc) matches Ok((ts, t)) ==> terms_wf(ts)
            && circ_wf(t),
    decreases ty, 1nat + n - i,
{
    if i < n {
        let p = List::Cons(PathStep::Index(i as usize), Rc::new(path));
        wf_input(s, name, p, ty, vis);
        match s.input(name, p, ty, vis) {
            Err(_) => {},
            Ok((v, t)) => match v.one_term() {
                Err(_) => {},
                Ok(x) => wf_input_elements(t, name, path, ty, vis, i + 1, n, acc.push(x)),
            },
        }
    }
}

proof fn wf_input_fields(
    s: CircState,
    name: String,
    path: List<PathStep>,
    l: List<Field<Ty>>,
    vis: Option<PartyId>,
)
    requires
        circ_wf(s),
    ensures
        s.input_fields(name, path, l, vis) matches Ok((m, t)) ==> fields_wf(m) && circ_wf(t),
    decreases l, 0nat,
{
    match l {
        List::Nil => {},
        List::Cons(f, rest) => {
            let p = List::Cons(PathStep::Field(f.name), Rc::new(path));
            wf_input(s, name, p, f.value, vis);
            match s.input(name, p, f.value, vis) {
                Err(_) => {},
                Ok((_, t)) => wf_input_fields(t, name, path, shared(rest), vis),
            }
        },
    }
}

pub(crate) proof fn wf_declared_input(s: CircState, name: String, ty: Ty, vis: Option<PartyId>)
    requires
        circ_wf(s),
    ensures
        makes_value(s.declared_input(name, ty, vis)),
{
    wf_input(s, name, List::Nil, ty, vis);
    match s.input(name, List::Nil, ty, vis) {
        Err(_) => {},
        Ok((v, t)) => wf_declared(t, name, ty, v),
    }
}

proof fn wf_elements(contents: Term, offset: Option<Term>, i: nat, n: nat)
    requires
        contents.is_region(),
        offset matches Some(o) ==> o.is_plain(),
    ensures
        terms_wf(elements(contents, offset, i, n)),
    decreases n - i,
{
    broadcast use group_wf;

    if i < n {
        let at = match offset {
            None => lit_bv(i as int, ADDR_WIDTH),
            Some(o) => term_op(Op::BvAdd, o, lit_bv(i as int, ADDR_WIDTH)),
        };
        assert(at.is_plain());
        law_new_term_is_wf(Node::Select(contents, at));
        wf_elements(contents, offset, i + 1, n);
    }
}

proof fn wf_terms(s: CircState, t: CTerm)
    requires
        circ_wf(s),
        value_wf(t),
    ensures
        s.terms(t) matches Ok(ts) ==> terms_wf(ts),
    decreases t,
{
    reveal(circ_wf);
    match t.term {
        CTermData::CArray(Ty::Array(n, _, _), Some(i)) => {
            if i < s.allocs.len() {
                assert(s.allocs[i as int].contents.is_region());
                wf_elements(s.allocs[i as int].contents, None, 0, n as nat);
            }
        },
        CTermData::CStackPtr(Ty::Array(n, _, _), o, Some(i)) => {
            if i < s.allocs.len() {
                assert(s.allocs[i as int].contents.is_region());
                wf_elements(s.allocs[i as int].contents, Some(o), 0, n as nat);
            }
        },
        CTermData::CStruct(_, fs) => wf_fields_terms(s, shared(fs.list)),
        _ => {},
    }
}

proof fn wf_fields_terms(s: CircState, l: List<Field<CTerm>>)
    requires
        circ_wf(s),
        fields_wf(l),
    ensures
        s.fields_terms(l) matches Ok(ts) ==> terms_wf(ts),
    decreases l,
{
    match l {
        List::Nil => {},
        List::Cons(f, rest) => {
            wf_terms(s, f.value);
            wf_fields_terms(s, shared(rest));
        },
    }
}

pub(crate) proof fn wf_entered_fn(s: CircState, name: String, ret_ty: Option<Ty>)
    requires
        circ_wf(s),
    ensures
        circ_wf(s.entered_fn(name, ret_ty)),
{
    broadcast use group_wf;

    wf_condition(s);
    if ret_ty is Some {
        wf_unset(ret_ty->0);
    }
    reveal(circ_wf);
    let t = s.entered_fn(name, ret_ty);
    let no_vars = List::<Var>::Nil;
    assert(vars_wf(no_vars));
    assert(scopes_wf(List::Nil));
    assert(scopes_wf(shared(t.top().scopes)));
    assert(frame_wf(t.top()));
    assert forall|i: int| 0 <= i < t.frames.len() implies frame_wf(#[trigger] t.frames[i]) by {
        if i < s.frames.len() {
            assert(t.frames[i] == s.frames[i]);
        }
    }
}

proof fn wf_exited_fn(s: CircState)
    requires
        circ_wf(s),
    ensures
        s.exited_fn() matches Ok((v, t)) ==> (v matches Some(r) ==> value_wf(r)) && circ_wf(t),
{
    if s.frames.len() > 0 {
        wf_top(s);
        reveal(circ_wf);
        let t = s.exited_fn()->Ok_0.1;
        assert forall|i: int| 0 <= i < t.frames.len() implies frame_wf(#[trigger] t.frames[i]) by {
            assert(t.frames[i] == s.frames[i]);
        }
    }
}

pub(crate) proof fn wf_entered_condition(s: CircState, c: Term)
    requires
        circ_wf(s),
        c.is_plain(),
    ensures
        makes(s.entered_condition(c)),
{
    broadcast use group_wf;

    if s.frames.len() > 0 {
        wf_top(s);
        wf_with_top(
            s,
            Frame {
                guards: Rc::new(List::Cons(term_op(Op::And, s.guard(), c), s.top().guards)),
                ..s.top()
            },
        );
    }
}

pub(crate) proof fn wf_exited_condition(s: CircState)
    requires
        circ_wf(s),
    ensures
        makes(s.exited_condition()),
{
    if s.frames.len() > 0 {
        wf_top(s);
        match shared(s.top().guards) {
            List::Nil => {},
            List::Cons(_, rest) => wf_with_top(s, Frame { guards: rest, ..s.top() }),
        }
    }
}

pub(crate) proof fn wf_entered_scope(s: CircState)
    requires
        circ_wf(s),
    ensures
        makes(s.entered_scope()),
{
    if s.frames.len() > 0 {
        wf_top(s);
        let no_vars = List::<Var>::Nil;
        assert(vars_wf(no_vars));
        wf_with_top(
            s,
            Frame { scopes: Rc::new(List::Cons(Rc::new(no_vars), s.top().scopes)), ..s.top() },
        );
    }
}

pub(crate) proof fn wf_exited_scope(s: CircState)
    requires
        circ_wf(s),
    ensures
        makes(s.exited_scope()),
{
    if s.frames.len() > 0 {
        wf_top(s);
        match shared(s.top().scopes) {
            List::Nil => {},
            List::Cons(_, rest) => wf_with_top(s, Frame { scopes: rest, ..s.top() }),
        }
    }
}

proof fn wf_returned(s: CircState, val: Option<CTerm>)
    requires
        circ_wf(s),
        val matches Some(v) ==> value_wf(v),
    ensures
        makes(s.returned(val)),
{
    broadcast use group_wf;

    wf_condition(s);
    if s.frames.len() > 0 {
        wf_top(s);
        let returned = term_op(Op::Or, s.top().returned, s.condition());
        match (val, s.top().ret_val) {
            (None, _) => wf_with_top(s, Frame { returned, ..s.top() }),
            (Some(_), None) => {},
            (Some(v), Some(old_val)) => {
                wf_merge(s.condition(), v, old_val);
                match merge(s.condition(), v, old_val) {
                    Err(_) => {},
                    Ok(m) => wf_with_top(s, Frame { returned, ret_val: Some(m), ..s.top() }),
                }
            },
        }
    }
}

// ---------------------------------------------------------------------------------------------
// Places and elements
// ---------------------------------------------------------------------------------------------

proof fn wf_selected(c: CircState, array: CTerm, idx: CTerm)
    requires
        circ_wf(c),
        value_wf(array),
        value_wf(idx),
    ensures
        selected(c, array, idx) matches Ok(v) ==> value_wf(v),
{
    broadcast use group_wf;

    match (array.term, idx.term) {
        (CTermData::CArray(_, Some(id)), CTermData::CInt(_, _, i)) => wf_loaded(c, id, i),
        (CTermData::CStackPtr(_, offset, Some(id)), CTermData::CInt(_, _, i)) => wf_loaded(
            c,
            id,
            term_op(Op::BvAdd, offset, i),
        ),
        _ => {},
    }
}

proof fn wf_stored_terms(c: CircState, id: AllocId, at: Term, ts: Seq<Term>, i: nat)
    requires
        circ_wf(c),
        at.is_plain(),
        terms_wf(ts),
    ensures
        makes(stored_terms(c, id, at, ts, i)),
    decreases ts.len() - i,
{
    broadcast use group_wf;

    if i < ts.len() {
        let at_i = term_op(Op::BvAdd, at, lit_bv(i as int, 32));
        wf_stored(c, id, at_i, ts[i as int]);
        match c.stored(id, at_i, ts[i as int]) {
            Err(_) => {},
            Ok((_, d)) => wf_stored_terms(d, id, at, ts, i + 1),
        }
    }
}

proof fn wf_array_stored(c: CircState, array: CTerm, idx: CTerm, val: CTerm)
    requires
        circ_wf(c),
        value_wf(array),
        value_wf(idx),
        value_wf(val),
    ensures
        makes_value(stored(c, array, idx, val)),
{
    broadcast use group_wf;

    wf_terms(c, val);
    match c.terms(val) {
        Err(_) => {},
        Ok(ts) => match (array.term, idx.term) {
            (CTermData::CArray(_, Some(id)), CTermData::CInt(_, _, i)) => wf_stored_terms(
                c,
                id,
                i,
                ts,
                0,
            ),
            (CTermData::CStackPtr(_, offset, Some(id)), CTermData::CInt(_, _, i)) => {
                wf_stored_terms(c, id, term_op(Op::BvAdd, i, offset), ts, 0);
            },
            _ => {},
        },
    }
}

proof fn wf_rebuilt(c: CircState, base: CTerm, loc: CLoc, val: CTerm)
    requires
        circ_wf(c),
        value_wf(base),
        loc_wf(loc),
        value_wf(val),
    ensures
        makes_value(rebuilt(c, base, loc, val)),
    decreases loc,
{
    match loc {
        CLoc::Var(_) => {},
        CLoc::Idx(inner, idx) => {
            wf_selected(c, base, idx);
            match selected(c, base, idx) {
                Err(_) => {},
                Ok(v) => {
                    wf_rebuilt(c, v, *inner, val);
                    match rebuilt(c, v, *inner, val) {
                        Err(_) => {},
                        Ok((w, d)) => wf_array_stored(d, base, idx, w),
                    }
                },
            }
        },
        CLoc::Member(inner, field) => {
            wf_selected_field(base, field);
            match selected_field(base, field) {
                Err(_) => {},
                Ok(v) => {
                    wf_rebuilt(c, v, *inner, val);
                    match rebuilt(c, v, *inner, val) {
                        Err(_) => {},
                        Ok((w, _)) => wf_stored_field(base, field, w),
                    }
                },
            }
        },
    }
}

proof fn wf_assigned(c: CircState, loc: CLoc, val: CTerm)
    requires
        circ_wf(c),
        loc_wf(loc),
        value_wf(val),
    ensures
        makes_value(assigned(c, loc, val)),
{
    match loc {
        CLoc::Var(l) => wf_circ_assigned(c, l.name, val),
        CLoc::Idx(l, idx) => {
            let place = *l;
            assert(loc_wf(place));
            wf_get(c, place.root().name);
            match c.get(place.root().name) {
                Err(_) => {},
                Ok(base) => {
                    match place {
                        CLoc::Var(_) => {},
                        CLoc::Member(_, field) => wf_selected_field(base, field),
                        CLoc::Idx(_, i) => wf_selected(c, base, i),
                    }
                    match indexed_array(c, place) {
                        Err(_) => {},
                        Ok(array) => wf_array_stored(c, array, idx, val),
                    }
                },
            }
        },
        CLoc::Member(l, field) => {
            let place = *l;
            wf_get(c, place.root().name);
            match c.get(place.root().name) {
                Err(_) => {},
                Ok(base) => {
                    wf_selected_field(base, field);
                    match selected_field(base, field) {
                        Err(_) => {},
                        Ok(v) => {
                            wf_rebuilt(c, v, place, val);
                            match rebuilt(c, v, place, val) {
                                Err(_) => {},
                                Ok((w, d)) => {
                                    wf_stored_field(base, field, w);
                                    match stored_field(base, field, w) {
                                        Err(_) => {},
                                        Ok(r) => wf_circ_assigned(d, place.root().name, r),
                                    }
                                },
                            }
                        },
                    }
                },
            }
        },
    }
}

proof fn wf_offset_from(
    sizes: Seq<usize>,
    indices: Seq<CTerm>,
    i: nat,
    total: int,
    acc: Term,
)
    requires
        values_wf(indices),
        acc.is_plain(),
    ensures
        offset_from(sizes, indices, i, total, acc) matches Ok(t) ==> t.is_plain(),
    decreases indices.len() - i,
{
    broadcast use group_wf;

    if i < indices.len() && i < sizes.len() {
        let v = indices[indices.len() - 1 - i];
        assert(value_wf(v));
        match v.one_term() {
            Err(_) => {},
            Ok(t) => {
                let added = if i == 0 {
                    t
                } else {
                    term_op(Op::BvMul, lit_bv(total, 32), t)
                };
                wf_offset_from(
                    sizes,
                    indices,
                    i + 1,
                    total * low_i32(sizes[i as int]),
                    term_op(Op::BvAdd, added, acc),
                );
            },
        }
    }
}

proof fn wf_offset(base: CTerm, indices: Seq<CTerm>)
    requires
        values_wf(indices),
    ensures
        offset(base, indices) matches Ok(t) ==> t.is_plain(),
{
    broadcast use group_wf;

    match base.term.ty() {
        Ty::Array(_, sizes, _) => wf_offset_from(
            shared(sizes).seq(),
            indices,
            0,
            1,
            lit_bv(0, 32),
        ),
        _ => {
            if indices.len() == 1 {
                assert(value_wf(indices[0]));
            }
        },
    }
}

proof fn wf_index_value(c: CircState, base: CTerm, indices: Seq<CTerm>)
    requires
        circ_wf(c),
        value_wf(base),
        values_wf(indices),
    ensures
        index_value(c, base, indices) matches Ok(v) ==> value_wf(v),
{
    wf_offset(base, indices);
    match offset(base, indices) {
        Err(_) => {},
        Ok(at) => wf_selected(c, base, value_i32(at)),
    }
}

proof fn wf_stored_values(c: CircState, id: AllocId, vs: Seq<CTerm>, i: nat)
    requires
        circ_wf(c),
        values_wf(vs),
    ensures
        makes(stored_values(c, id, vs, i)),
    decreases vs.len() - i,
{
    broadcast use group_wf;

    if i < vs.len() {
        assert(value_wf(vs[i as int]));
        match vs[i as int].one_term() {
            Err(_) => {},
            Ok(t) => {
                wf_stored(c, id, lit_bv(i as int, 32), t);
                match c.stored(id, lit_bv(i as int, 32), t) {
                    Err(_) => {},
                    Ok((_, d)) => wf_stored_values(d, id, vs, i + 1),
                }
            },
        }
    }
}

proof fn wf_array_value(c: CircState, ty: Ty, n: usize, t: Ty, vs: Seq<CTerm>)
    requires
        circ_wf(c),
        values_wf(vs),
    ensures
        makes_value(array_value(c, ty, n, t, vs)),
{
    let (id, d) = c.allocated(n, t.bits() as usize);
    wf_allocated(c, n, t.bits() as usize);
    wf_stored_values(d, id, vs, 0);
}

// ---------------------------------------------------------------------------------------------
// Constructs
// ---------------------------------------------------------------------------------------------

proof fn fit_declarators_info(
    st: GenState,
    ty: Ty,
    ds: Seq<InitDeclarator>,
    i: nat,
    acc: Seq<DeclInfo>,
)
    requires
        circ_wf(st.circ),
    ensures
        fit(declarators_info(st, ty, ds, i, acc)),
    decreases ds.len() - i,
{
    if i < ds.len() {
        match decl_name(ds[i as int].declarator) {
            Err(_) => {},
            Ok(name) => {
                let (t, s) = declared_type(st, name, ty);
                fit_declarators_info(s, ty, ds, i + 1, acc.push(DeclInfo { name, ty: t }));
            },
        }
    }
}

proof fn fit_typedefs(st: GenState, infos: Seq<DeclInfo>, i: nat)
    requires
        circ_wf(st.circ),
    ensures
        fit(typedefs_from(st, infos, i)),
    decreases infos.len() - i,
{
    if i < infos.len() {
        let d = infos[i as int];
        if !st.typedefs.dom().contains(d.name@) {
            let s = GenState { typedefs: st.typedefs.insert(d.name@, d.ty), ..st };
            fit_typedefs(s, infos, i + 1);
        }
    }
}

proof fn fit_d_type(depth: nat, st: GenState, ds: Seq<DeclarationSpecifier>, from: nat)
    requires
        circ_wf(st.circ),
    ensures
        fit(d_type(depth, st, ds, from)),
    decreases depth, 0nat, ds, ds.len() + 1,
{
    if from < ds.len() {
        fit_d_types(depth, st, ds, from, Seq::empty());
    }
}

proof fn fit_d_types(
    depth: nat,
    st: GenState,
    ds: Seq<DeclarationSpecifier>,
    i: nat,
    acc: Seq<Option<Ty>>,
)
    requires
        circ_wf(st.circ),
    ensures
        fit(d_types(depth, st, ds, i, acc)),
    decreases depth, 0nat, ds, ds.len() - i,
{
    if i < ds.len() {
        match ds[i as int] {
            DeclarationSpecifier::TypeSpecifier(t) => {
                let r = type_of(depth, st, t);
                fit_type_of(depth, st, t);
                if r is Ok {
                    fit_d_types(depth, after(r), ds, i + 1, acc.push(got(r)));
                }
            },
            _ => {},
        }
    }
}

proof fn fit_s_type(depth: nat, st: GenState, ss: Seq<SpecifierQualifier>)
    requires
        circ_wf(st.circ),
    ensures
        fit(s_type(depth, st, ss)),
    decreases depth, 0nat, ss, ss.len() + 1,
{
    fit_s_types(depth, st, ss, 0, Seq::empty());
}

proof fn fit_s_types(
    depth: nat,
    st: GenState,
    ss: Seq<SpecifierQualifier>,
    i: nat,
    acc: Seq<Option<Ty>>,
)
    requires
        circ_wf(st.circ),
    ensures
        fit(s_types(depth, st, ss, i, acc)),
    decreases depth, 0nat, ss, ss.len() - i,
{
    if i < ss.len() {
        match ss[i as int] {
            SpecifierQualifier::TypeSpecifier(t) => {
                let r = type_of(depth, st, t);
                fit_type_of(depth, st, t);
                if r is Ok {
                    fit_s_types(depth, after(r), ss, i + 1, acc.push(got(r)));
                }
            },
            _ => {},
        }
    }
}

proof fn fit_type_of(depth: nat, st: GenState, t: TypeSpecifier)
    requires
        circ_wf(st.circ),
    ensures
        fit(type_of(depth, st, t)),
    decreases depth, 0nat, t, 0nat,
{
    match t {
        TypeSpecifier::Struct(s) => fit_struct_type(depth, st, *s),
        _ => {},
    }
}

proof fn fit_struct_type(depth: nat, st: GenState, s: StructType)
    requires
        circ_wf(st.circ),
    ensures
        fit(struct_type(depth, st, s)),
    decreases depth, 0nat, s, 0nat,
{
    match s.declarations {
        None => {},
        Some(ds) => fit_struct_fields(depth, st, ds@, 0, Seq::empty()),
    }
}

proof fn fit_struct_fields(
    depth: nat,
    st: GenState,
    ds: Seq<StructDeclaration>,
    i: nat,
    acc: Seq<Field<Ty>>,
)
    requires
        circ_wf(st.circ),
    ensures
        fit(struct_fields(depth, st, ds, i, acc)),
    decreases depth, 0nat, ds, ds.len() - i,
{
    if i < ds.len() {
        match ds[i as int] {
            StructDeclaration::Field(f) => {
                let r = s_type(depth, st, f.specifiers@);
                fit_s_type(depth, st, f.specifiers@);
                if r is Ok {
                    let base = got(r)->0;
                    let q = field_declarators(depth, after(r), base, f.declarators@, 0, acc);
                    fit_field_declarators(depth, after(r), base, f.declarators@, 0, acc);
                    if q is Ok {
                        fit_struct_fields(depth, after(q), ds, i + 1, got(q));
                    }
                }
            },
            StructDeclaration::StaticAssert => {},
        }
    }
}

proof fn fit_field_declarators(
    depth: nat,
    st: GenState,
    base: Ty,
    ds: Seq<StructDeclarator>,
    i: nat,
    acc: Seq<Field<Ty>>,
)
    requires
        circ_wf(st.circ),
    ensures
        fit(field_declarators(depth, st, base, ds, i, acc)),
    decreases depth, 0nat, ds, ds.len() - i,
{
    if i < ds.len() {
        match ds[i as int].declarator {
            None => {},
            Some(d) => {
                let r = derived(depth, st, base, d.derived@, d.derived@.len());
                fit_derived(depth, st, base, d.derived@, d.derived@.len());
                if r is Ok {
                    let field = Field { name: decl_name(d)->Ok_0, value: got(r) };
                    fit_field_declarators(depth, after(r), got(r), ds, i + 1, acc.push(field));
                }
            },
        }
    }
}

proof fn fit_derived_once(depth: nat, st: GenState, base: Ty, d: DerivedDeclarator)
    requires
        circ_wf(st.circ),
    ensures
        fit(derived_once(depth, st, base, d)),
    decreases depth, 0nat, d, 0nat,
{
    match d {
        DerivedDeclarator::Array(ArraySize::VariableExpression(e)) => fit_expr(depth, st, *e),
        _ => {},
    }
}

proof fn fit_derived(depth: nat, st: GenState, base: Ty, ds: Seq<DerivedDeclarator>, k: nat)
    requires
        circ_wf(st.circ),
    ensures
        fit(derived(depth, st, base, ds, k)),
    decreases depth, 0nat, ds, k,
{
    if 0 < k <= ds.len() {
        let r = derived_once(depth, st, base, ds[k - 1]);
        fit_derived_once(depth, st, base, ds[k - 1]);
        if r is Ok {
            fit_derived(depth, after(r), got(r), ds, (k - 1) as nat);
        }
    }
}

proof fn fit_param(depth: nat, st: GenState, p: ParameterDeclaration, entry: bool)
    requires
        circ_wf(st.circ),
    ensures
        fit(param(depth, st, p, entry)),
    decreases depth, 0nat, p, 0nat,
{
    let from: nat = if entry {
        1
    } else {
        0
    };
    let r = d_type(depth, st, p.specifiers@, from);
    fit_d_type(depth, st, p.specifiers@, from);
    match p.declarator {
        None => {},
        Some(d) => {
            if r is Ok {
                fit_derived(depth, after(r), got(r)->0, d.derived@, d.derived@.len());
            }
        },
    }
}

proof fn fit_lval(depth: nat, st: GenState, e: Expression)
    requires
        circ_wf(st.circ),
    ensures
        fit_loc(lval(depth, st, e)),
    decreases depth, 0nat, e, 3nat,
{
    match e {
        Expression::BinaryOperator(b) => {
            if b.operator == BinaryOperator::Index {
                let r = lval(depth, st, b.lhs);
                fit_lval(depth, st, b.lhs);
                if r is Ok {
                    let q = index(depth, after(r), e);
                    fit_index_of(depth, after(r), e);
                    if q is Ok {
                        wf_offset(got(q).0, got(q).1);
                        if offset(got(q).0, got(q).1) is Ok {
                            let at = value_i32(offset(got(q).0, got(q).1)->Ok_0);
                            let place = if b.lhs is BinaryOperator {
                                CLoc::Var(got(r).root())
                            } else {
                                got(r)
                            };
                            assert(loc_wf(place));
                            assert(value_wf(at));
                            assert(loc_wf(CLoc::Idx(Box::new(place), at)));
                        }
                    }
                }
            }
        },
        Expression::Member(m) => {
            if expr_name(m.expression) is Ok {
                let place = CLoc::Var(Loc { name: expr_name(m.expression)->Ok_0 });
                assert(loc_wf(place));
            }
        },
        _ => {},
    }
}

proof fn fit_index_of(depth: nat, st: GenState, e: Expression)
    requires
        circ_wf(st.circ),
    ensures
        fit_index(index(depth, st, e)),
    decreases
            depth,
            0nat,
            e,
            if is_index(e) {
                0nat
            } else {
                2nat
            },
{
    match e {
        Expression::BinaryOperator(b) => {
            if b.operator == BinaryOperator::Index {
                let r = index(depth, st, b.lhs);
                fit_index_of(depth, st, b.lhs);
                if r is Ok {
                    fit_index_of(depth, after(r), b.rhs);
                }
            } else {
                fit_expr(depth, st, e);
            }
        },
        _ => fit_expr(depth, st, e),
    }
}

#[verifier::spinoff_prover]
proof fn fit_expr(depth: nat, st: GenState, e: Expression)
    requires
        circ_wf(st.circ),
    ensures
        fit_value(expr(depth, st, e)),
    decreases depth, 0nat, e, 1nat,
{
    broadcast use group_wf;

    match e {
        Expression::Identifier(name) => wf_get(st.circ, name),
        Expression::BinaryOperator(b) => {
            if b.operator == BinaryOperator::Index {
                let q = index(depth, st, e);
                fit_index_of(depth, st, e);
                if q is Ok {
                    wf_index_value(after(q).circ, got(q).0, got(q).1);
                }
            } else {
                fit_binary(depth, st, *b);
            }
        },
        Expression::UnaryOperator(u) => fit_unary(depth, st, *u),
        Expression::Cast(c) => {
            let r = s_type(depth, st, c.target.specifiers@);
            fit_s_type(depth, st, c.target.specifiers@);
            if r is Ok {
                let q = expr(depth, after(r), c.expression);
                fit_expr(depth, after(r), c.expression);
                if q is Ok {
                    wf_cast(got(r), got(q));
                }
            }
        },
        Expression::Call(c) => fit_call(depth, st, *c),
        Expression::Member(m) => {
            let r = expr(depth, st, m.expression);
            fit_expr(depth, st, m.expression);
            if r is Ok {
                wf_selected_field(got(r), m.identifier);
            }
        },
        Expression::SizeOf(t) => fit_s_type(depth, st, t.specifiers@),
        _ => {},
    }
}

#[verifier::spinoff_prover]
proof fn fit_binary(depth: nat, st: GenState, b: BinaryOperatorExpression)
    requires
        circ_wf(st.circ),
    ensures
        fit_value(binary(depth, st, b)),
    decreases depth, 0nat, b, 0nat,
{
    match b.operator {
        BinaryOperator::Assign => {
            let r = lval(depth, st, b.lhs);
            fit_lval(depth, st, b.lhs);
            if r is Ok {
                let q = expr(depth, after(r), b.rhs);
                fit_expr(depth, after(r), b.rhs);
                if q is Ok {
                    wf_assigned(after(q).circ, got(r), got(q));
                }
            }
        },
        BinaryOperator::AssignPlus | BinaryOperator::AssignDivide => {
            let r = expr(depth, st, b.lhs);
            fit_expr(depth, st, b.lhs);
            if r is Ok {
                let q = expr(depth, after(r), b.rhs);
                fit_expr(depth, after(r), b.rhs);
                if q is Ok {
                    let p = lval(depth, after(q), b.lhs);
                    fit_lval(depth, after(q), b.lhs);
                    let op = bin_op(b.operator)->Ok_0;
                    wf_apply(op, got(r), got(q));
                    if p is Ok && apply(op, got(r), got(q)) is Ok {
                        wf_assigned(after(p).circ, got(p), apply(op, got(r), got(q))->Ok_0);
                    }
                }
            }
        },
        _ => {
            let r = expr(depth, st, b.lhs);
            fit_expr(depth, st, b.lhs);
            if r is Ok {
                let q = expr(depth, after(r), b.rhs);
                fit_expr(depth, after(r), b.rhs);
                if q is Ok && bin_op(b.operator) is Ok {
                    wf_operated(bin_op(b.operator)->Ok_0, got(r), got(q));
                }
            }
        },
    }
}

proof fn fit_unary(depth: nat, st: GenState, u: UnaryOperatorExpression)
    requires
        circ_wf(st.circ),
    ensures
        fit_value(unary(depth, st, u)),
    decreases depth, 0nat, u, 0nat,
{
    broadcast use group_wf;

    match u.operator {
        UnaryOperator::PostIncrement | UnaryOperator::PostDecrement => {
            let r = expr(depth, st, u.operand);
            fit_expr(depth, st, u.operand);
            if r is Ok {
                let p = lval(depth, after(r), u.operand);
                fit_lval(depth, after(r), u.operand);
                let op = u_op(u.operator)->Ok_0;
                let one = value_i32(lit_bv(1, 32));
                wf_apply(op, got(r), one);
                if p is Ok && apply(op, got(r), one) is Ok {
                    wf_assigned(after(p).circ, got(p), apply(op, got(r), one)->Ok_0);
                }
            }
        },
        _ => {},
    }
}

proof fn fit_exprs(depth: nat, st: GenState, es: Seq<Expression>, i: nat, acc: Seq<CTerm>)
    requires
        circ_wf(st.circ),
        values_wf(acc),
    ensures
        fit_values(exprs(depth, st, es, i, acc)),
    decreases depth, 0nat, es, es.len() - i,
{
    if i < es.len() {
        let r = expr(depth, st, es[i as int]);
        fit_expr(depth, st, es[i as int]);
        if r is Ok {
            fit_exprs(depth, after(r), es, i + 1, acc.push(got(r)));
        }
    }
}

proof fn fit_call(depth: nat, st: GenState, c: CallExpression)
    requires
        circ_wf(st.circ),
    ensures
        fit_value(call(depth, st, c)),
    decreases depth, 0nat, c, 0nat,
{
    match expr_name(c.callee) {
        Err(_) => {},
        Ok(name) => {
            let r = exprs(depth, st, c.arguments@, 0, Seq::empty());
            fit_exprs(depth, st, c.arguments@, 0, Seq::empty());
            if depth > 0 && r is Ok {
                fit_called((depth - 1) as nat, after(r), st.functions[name@], got(r));
            }
        },
    }
}

#[verifier::spinoff_prover]
proof fn fit_called(depth: nat, st: GenState, f: FnInfo, args: Seq<CTerm>)
    requires
        circ_wf(st.circ),
        values_wf(args),
    ensures
        fit_value(called(depth, st, f, args)),
    decreases depth, 9nat, f, 0nat,
{
    broadcast use group_wf;

    let entered = st.with_circ(st.circ.entered_fn(f.name, f.ret_ty));
    wf_entered_fn(st.circ, f.name, f.ret_ty);
    let r = bound(depth, entered, params(f), args, 0);
    if params(f).len() == args.len() {
        fit_bound(depth, entered, params(f), args, 0);
        if r is Ok {
            let q = stmt(depth, after(r), shared(f.body));
            fit_stmt(depth, after(r), shared(f.body));
            if q is Ok {
                wf_exited_fn(after(q).circ);
                match after(q).circ.exited_fn() {
                    Err(_) => {},
                    Ok((None, _)) => wf_cast(f.ret_ty, value_false()),
                    Ok((Some(v), _)) => wf_cast(f.ret_ty, v),
                }
            }
        }
    }
}

#[verifier::spinoff_prover]
pub(crate) proof fn fit_bound(
    depth: nat,
    st: GenState,
    ps: Seq<ParameterDeclaration>,
    args: Seq<CTerm>,
    i: nat,
)
    requires
        circ_wf(st.circ),
        values_wf(args),
        ps.len() == args.len(),
    ensures
        fit(bound(depth, st, ps, args, i)),
    decreases depth, 0nat, ps, ps.len() - i,
{
    if i < ps.len() {
        let r = param(depth, st, ps[i as int], false);
        fit_param(depth, st, ps[i as int], false);
        if r is Ok {
            let p = got(r);
            let q = after(r).lift(after(r).circ.declared(p.name, p.ty, args[i as int]));
            assert(value_wf(args[i as int]));
            wf_declared(after(r).circ, p.name, p.ty, args[i as int]);
            if q is Ok {
                fit_bound(depth, after(q), ps, args, i + 1);
            }
        }
    }
}

proof fn fit_leaves(depth: nat, st: GenState, i: Initializer, acc: Seq<CTerm>)
    requires
        circ_wf(st.circ),
        values_wf(acc),
    ensures
        fit_values(leaves(depth, st, i, acc)),
    decreases depth, 1nat, i, 0nat,
{
    match i {
        Initializer::Expression(e) => fit_expr(depth, st, *e),
        Initializer::List(l) => fit_leaves_from(depth, st, l@, 0, acc),
    }
}

proof fn fit_leaves_from(depth: nat, st: GenState, l: Seq<Initializer>, i: nat, acc: Seq<CTerm>)
    requires
        circ_wf(st.circ),
        values_wf(acc),
    ensures
        fit_values(leaves_from(depth, st, l, i, acc)),
    decreases depth, 1nat, l, l.len() - i,
{
    if i < l.len() {
        let r = leaves(depth, st, l[i as int], acc);
        fit_leaves(depth, st, l[i as int], acc);
        if r is Ok {
            fit_leaves_from(depth, after(r), l, i + 1, got(r));
        }
    }
}

proof fn fit_init(depth: nat, st: GenState, ty: Ty, i: Initializer)
    requires
        circ_wf(st.circ),
    ensures
        fit_value(init(depth, st, ty, i)),
    decreases depth, 1nat, i, 1nat,
{
    match i {
        Initializer::Expression(e) => fit_expr(depth, st, *e),
        Initializer::List(_) => match ty {
            Ty::Array(n, _, t) => {
                let r = leaves(depth, st, i, Seq::empty());
                fit_leaves(depth, st, i, Seq::empty());
                if r is Ok {
                    wf_array_value(after(r).circ, ty, n, shared(t), got(r));
                }
            },
            Ty::Struct(_, _) => wf_zero(st.circ, ty),
            _ => {},
        },
    }
}

proof fn fit_declarators_type(depth: nat, st: GenState, ty: Ty, ds: Seq<InitDeclarator>, i: nat)
    requires
        circ_wf(st.circ),
    ensures
        fit(declarators_type(depth, st, ty, ds, i)),
    decreases depth, 2nat, ds, ds.len() - i,
{
    if i < ds.len() {
        let d = ds[i as int].declarator;
        let r = derived(depth, st, ty, d.derived@, d.derived@.len());
        fit_derived(depth, st, ty, d.derived@, d.derived@.len());
        if r is Ok {
            fit_declarators_type(depth, after(r), got(r), ds, i + 1);
        }
    }
}

proof fn fit_decl_info(depth: nat, st: GenState, d: Declaration, from: nat)
    requires
        circ_wf(st.circ),
    ensures
        fit(decl_info(depth, st, d, from)),
    decreases depth, 3nat, d, 0nat,
{
    let r = d_type(depth, st, d.specifiers@, from);
    fit_d_type(depth, st, d.specifiers@, from);
    if r is Ok {
        let q = declarators_type(depth, after(r), got(r)->0, d.declarators@, 0);
        fit_declarators_type(depth, after(r), got(r)->0, d.declarators@, 0);
        if q is Ok {
            fit_declarators_info(after(q), got(q), d.declarators@, 0, Seq::empty());
        }
    }
}

pub(crate) proof fn fit_initial(depth: nat, st: GenState, ty: Ty, i: Option<Initializer>)
    requires
        circ_wf(st.circ),
    ensures
        fit_value(initial(depth, st, ty, i)),
    decreases depth, 2nat, i, 0nat,
{
    match i {
        Some(i) => fit_init(depth, st, ty, i),
        None => wf_zero(st.circ, ty),
    }
}

proof fn fit_variables_from(
    depth: nat,
    st: GenState,
    ds: Seq<InitDeclarator>,
    infos: Seq<DeclInfo>,
    i: nat,
    acc: Seq<CTerm>,
)
    requires
        circ_wf(st.circ),
        values_wf(acc),
    ensures
        fit_values(variables_from(depth, st, ds, infos, i, acc)),
    decreases depth, 3nat, ds, ds.len() - i,
{
    if i < ds.len() && i < infos.len() {
        let d = infos[i as int];
        let r = initial(depth, st, d.ty, ds[i as int].initializer);
        fit_initial(depth, st, d.ty, ds[i as int].initializer);
        if r is Ok {
            wf_cast(Some(d.ty), got(r));
            match cast_to(Some(d.ty), got(r)) {
                Err(_) => {},
                Ok(w) => {
                    let q = after(r).lift(after(r).circ.declared(d.name, d.ty, w));
                    wf_declared(after(r).circ, d.name, d.ty, w);
                    if q is Ok {
                        fit_variables_from(depth, after(q), ds, infos, i + 1, acc.push(got(r)));
                    }
                },
            }
        }
    }
}

pub(crate) proof fn fit_decl(depth: nat, st: GenState, d: Declaration)
    requires
        circ_wf(st.circ),
    ensures
        fit_values(decl(depth, st, d)),
    decreases depth, 4nat, d, 0nat,
{
    if d.specifiers@.len() > 0 {
        if d.specifiers@[0] is StorageClass {
            let r = decl_info(depth, st, d, 1);
            fit_decl_info(depth, st, d, 1);
            if r is Ok {
                fit_typedefs(after(r), got(r), 0);
            }
        } else {
            let r = decl_info(depth, st, d, 0);
            fit_decl_info(depth, st, d, 0);
            if r is Ok {
                fit_variables_from(depth, after(r), d.declarators@, got(r), 0, Seq::empty());
            }
        }
    }
}

proof fn fit_folded_expr(depth: nat, st: GenState, e: Expression)
    requires
        circ_wf(st.circ),
    ensures
        fit(folded_expr(depth, st, e)),
    decreases depth, 1nat, e, 0nat,
{
    fit_expr(depth, st, e);
}

pub(crate) proof fn fit_loop_start(depth: nat, st: GenState, i: ForInitializer)
    requires
        circ_wf(st.circ),
    ensures
        fit(loop_start(depth, st, i)),
    decreases depth, 5nat, i, 0nat,
{
    match i {
        ForInitializer::Declaration(d) => fit_decl(depth, st, d),
        ForInitializer::Expression(e) => fit_folded_expr(depth, st, e),
        ForInitializer::Other => {},
    }
}

pub(crate) proof fn fit_loop_end(depth: nat, st: GenState, c: Option<Expression>)
    requires
        circ_wf(st.circ),
    ensures
        fit(loop_end(depth, st, c)),
    decreases depth, 5nat, c, 0nat,
{
    match c {
        Some(Expression::BinaryOperator(b)) => fit_folded_expr(depth, st, b.rhs),
        _ => {},
    }
}

pub(crate) proof fn fit_loop_step(depth: nat, st: GenState, s: Option<Expression>)
    requires
        circ_wf(st.circ),
    ensures
        fit(loop_step(depth, st, s)),
    decreases depth, 5nat, s, 0nat,
{
    match s {
        Some(Expression::BinaryOperator(b)) => fit_folded_expr(depth, st, b.rhs),
        _ => {},
    }
}

pub(crate) proof fn fit_iterations(depth: nat, st: GenState, f: ForStatement)
    requires
        circ_wf(st.circ),
    ensures
        fit(iterations(depth, st, f)),
    decreases depth, 6nat, f, 0nat,
{
    let r = loop_start(depth, st, f.initializer);
    fit_loop_start(depth, st, f.initializer);
    if r is Ok {
        let q = loop_end(depth, after(r), f.condition);
        fit_loop_end(depth, after(r), f.condition);
        if q is Ok {
            fit_loop_step(depth, after(q), f.step);
        }
    }
}

pub(crate) proof fn fit_rounds(depth: nat, st: GenState, f: ForStatement, n: nat)
    requires
        circ_wf(st.circ),
    ensures
        fit(rounds(depth, st, f, n)),
    decreases depth, 8nat, f, n,
{
    if n > 0 {
        let r = one_round(depth, st, f);
        fit_one_round(depth, st, f);
        if r is Ok {
            fit_rounds(depth, after(r), f, (n - 1) as nat);
        }
    }
}

pub(crate) proof fn fit_one_round(depth: nat, st: GenState, f: ForStatement)
    requires
        circ_wf(st.circ),
    ensures
        fit(one_round(depth, st, f)),
    decreases depth, 8nat, f, 0nat,
{
    let entered = st.lift(st.circ.entered_scope());
    wf_entered_scope(st.circ);
    if entered is Ok {
        let r = stmt(depth, after(entered), f.statement);
        fit_stmt(depth, after(entered), f.statement);
        if r is Ok {
            let q = after(r).lift(after(r).circ.exited_scope());
            wf_exited_scope(after(r).circ);
            match f.step {
                None => {},
                Some(e) => {
                    if q is Ok {
                        fit_expr(depth, after(q), e);
                    }
                },
            }
        }
    }
}

proof fn fit_branch(depth: nat, st: GenState, c: Term, s: Statement)
    requires
        circ_wf(st.circ),
        c.is_plain(),
    ensures
        fit(branch(depth, st, c, s)),
    decreases depth, 8nat, s, 1nat,
{
    let entered = st.lift(st.circ.entered_condition(c));
    wf_entered_condition(st.circ, c);
    if entered is Ok {
        let r = stmt(depth, after(entered), s);
        fit_stmt(depth, after(entered), s);
        if r is Ok {
            wf_exited_condition(after(r).circ);
        }
    }
}

proof fn fit_block(depth: nat, st: GenState, items: Seq<BlockItem>, i: nat)
    requires
        circ_wf(st.circ),
    ensures
        fit(block(depth, st, items, i)),
    decreases depth, 8nat, items, items.len() - i,
{
    if i < items.len() {
        match items[i as int] {
            BlockItem::Declaration(d) => {
                let r = decl(depth, st, d);
                fit_decl(depth, st, d);
                if r is Ok {
                    fit_block(depth, after(r), items, i + 1);
                }
            },
            BlockItem::Statement(s) => {
                let r = stmt(depth, st, s);
                fit_stmt(depth, st, s);
                if r is Ok {
                    fit_block(depth, after(r), items, i + 1);
                }
            },
            BlockItem::StaticAssert => {},
        }
    }
}

#[verifier::spinoff_prover]
pub(crate) proof fn fit_stmt(depth: nat, st: GenState, s: Statement)
    requires
        circ_wf(st.circ),
    ensures
        fit(stmt(depth, st, s)),
    decreases depth, 8nat, s, 0nat,
{
    broadcast use group_wf;

    match s {
        Statement::Compound(items) => fit_block(depth, st, items@, 0),
        Statement::If(i) => {
            let r = expr(depth, st, i.condition);
            fit_expr(depth, st, i.condition);
            if r is Ok && got(r).one_term() is Ok {
                let t = got(r).one_term()->Ok_0;
                let q = branch(depth, after(r), t, i.then_statement);
                fit_branch(depth, after(r), t, i.then_statement);
                match i.else_statement {
                    None => {},
                    Some(s) => {
                        if q is Ok {
                            fit_branch(depth, after(q), term_not(t), s);
                        }
                    },
                }
            }
        },
        Statement::Return(None) => wf_returned(st.circ, None),
        Statement::Return(Some(e)) => {
            let r = expr(depth, st, *e);
            fit_expr(depth, st, *e);
            if r is Ok {
                wf_returned(after(r).circ, Some(got(r)));
            }
        },
        Statement::Expression(Some(e)) => fit_expr(depth, st, *e),
        Statement::For(f) => {
            let entered = st.lift(st.circ.entered_scope());
            wf_entered_scope(st.circ);
            if entered is Ok {
                let r = iterations(depth, after(entered), *f);
                fit_iterations(depth, after(entered), *f);
                if r is Ok {
                    let n: nat = if got(r) > 0 {
                        got(r) as nat
                    } else {
                        0
                    };
                    let q = rounds(depth, after(r), *f, n);
                    fit_rounds(depth, after(r), *f, n);
                    if q is Ok {
                        wf_exited_scope(after(q).circ);
                    }
                }
            }
        },
        _ => {},
    }
}

// ---------------------------------------------------------------------------------------------
// Programs
// ---------------------------------------------------------------------------------------------

proof fn fit_visited(depth: nat, st: GenState, nodes: Seq<ExternalDeclaration>, i: nat)
    requires
        circ_wf(st.circ),
    ensures
        fit(visited(depth, st, nodes, i)),
    decreases nodes.len() - i,
{
    if i < nodes.len() {
        match nodes[i as int] {
            ExternalDeclaration::Declaration(d) => {
                fit_decl(depth, st, d);
                match decl(depth, st, d) {
                    Err(_) => {},
                    Ok((_, s)) => fit_visited(depth, s, nodes, i + 1),
                }
            },
            ExternalDeclaration::FunctionDefinition(f) => {
                fit_d_type(depth, st, f.specifiers@, 0);
                match fn_info(depth, st, f) {
                    Err(_) => {},
                    Ok((info, s)) => {
                        let t = GenState { functions: s.functions.insert(info.name@, info), ..s };
                        fit_visited(depth, t, nodes, i + 1);
                    },
                }
            },
            ExternalDeclaration::Other => {},
        }
    }
}

proof fn fit_entry_params(depth: nat, st: GenState, ps: Seq<ParameterDeclaration>, i: nat)
    requires
        circ_wf(st.circ),
    ensures
        fit(entry_params(depth, st, ps, i)),
    decreases ps.len() - i,
{
    if i < ps.len() {
        fit_param(depth, st, ps[i as int], true);
        match param(depth, st, ps[i as int], true) {
            Err(_) => {},
            Ok((p, s)) => {
                wf_declared_input(s.circ, p.name, p.ty, p.vis);
                match s.lift(s.circ.declared_input(p.name, p.ty, p.vis)) {
                    Err(_) => {},
                    Ok((_, t)) => fit_entry_params(depth, t, ps, i + 1),
                }
            },
        }
    }
}

proof fn fit_entry(depth: nat, st: GenState, name: String)
    requires
        circ_wf(st.circ),
    ensures
        fit(entry(depth, st, name)),
{
    if st.functions.dom().contains(name@) {
        let f = st.functions[name@];
        let entered = st.with_circ(st.circ.entered_fn(f.name, f.ret_ty));
        wf_entered_fn(st.circ, f.name, f.ret_ty);
        fit_entry_params(depth, entered, params(f), 0);
        match entry_params(depth, entered, params(f), 0) {
            Err(_) => {},
            Ok((_, s)) => {
                fit_stmt(depth, s, shared(f.body));
                match stmt(depth, s, shared(f.body)) {
                    Err(_) => {},
                    Ok((_, t)) => {
                        wf_exited_fn(t.circ);
                        match t.circ.exited_fn() {
                            Err(_) => {},
                            Ok((None, _)) => {},
                            Ok((Some(r), c)) => {
                                wf_terms(c, r);
                                reveal(circ_wf);
                            },
                        }
                    },
                }
            },
        }
    }
}

/// A statement makes well-formed terms from well-formed ones.
pub proof fn law_statement_keeps_well_formed(depth: nat, st: GenState, s: Statement)
    requires
        circ_wf(st.circ),
        stmt(depth, st, s) is Ok,
    ensures
        circ_wf(stmt(depth, st, s)->Ok_0.1.circ),
{
    fit_stmt(depth, st, s);
}

/// An expression makes well-formed terms from well-formed ones, and its value is well formed.
pub proof fn law_expression_keeps_well_formed(depth: nat, st: GenState, e: Expression)
    requires
        circ_wf(st.circ),
        expr(depth, st, e) is Ok,
    ensures
        ({
            let (v, after) = expr(depth, st, e)->Ok_0;
            value_wf(v) && circ_wf(after.circ)
        }),
{
    fit_expr(depth, st, e);
}

/// The state in which a translation starts is well formed.
pub proof fn law_start_is_well_formed(mode: Mode)
    ensures
        circ_wf(start(mode).circ),
{
    reveal(circ_wf);
}

/// Whatever the inputs are, every memory region means an array, every number and truth value of a
/// variable means a constant, and the condition under which the current statement runs means a
/// truth value.
pub proof fn law_well_formed_terms_have_meaning(
    env: Env,
    s: CircState,
    id: AllocId,
    name: String,
)
    requires
        circ_wf(s),
    ensures
        id < s.allocs.len() ==> denote(s.allocs[id as int].contents, env) is Array,
        s.get(name) matches Ok(v) ==> (v.one_term() matches Ok(t) ==> denote(t, env) is Scalar),
        denote(s.condition(), env) matches Meaning::Scalar(Value::Bool(_)),
{
    if id < s.allocs.len() {
        reveal(circ_wf);
        assert(s.allocs[id as int].contents.is_region());
        lemma_kind(s.allocs[id as int].contents, env);
    }
    wf_get(s, name);
    match s.get(name) {
        Err(_) => {},
        Ok(v) => match v.one_term() {
            Err(_) => {},
            Ok(t) => lemma_kind(t, env),
        },
    }
    lemma_denote(Node::Const(Value::Bool(true)), env);
    if s.frames.len() > 0 {
        lemma_denote(Node::Op(Op::And, s.guard(), term_not(s.top().returned)), env);
    }
}

/// Every term of the circuit that a program is translated to is well formed.
pub proof fn law_program_is_well_formed(
    depth: nat,
    mode: Mode,
    nodes: Seq<ExternalDeclaration>,
    name: String,
)
    requires
        program(depth, mode, nodes, name) is Ok,
    ensures
        circ_wf(program(depth, mode, nodes, name)->Ok_0.1.circ),
        terms_wf(program(depth, mode, nodes, name)->Ok_0.1.circ.outputs),
{
    assert(circ_wf(start(mode).circ)) by {
        reveal(circ_wf);
    }
    fit_visited(depth, start(mode), nodes, 0);
    match visited(depth, start(mode), nodes, 0) {
        Err(_) => {},
        Ok((_, st)) => fit_entry(depth, st, name),
    }
    reveal(circ_wf);
}

/// The number that an expression folds to, as the size of an array or the bound of a loop, is what
/// the expression means, whatever the inputs are.
pub proof fn law_folded_number_is_meaning(env: Env, depth: nat, st: GenState, e: Expression)
    requires
        circ_wf(st.circ),
        folded_expr(depth, st, e) is Ok,
    ensures
        ({
            let (v, _) = expr(depth, st, e)->Ok_0;
            let (n, _) = folded_expr(depth, st, e)->Ok_0;
            &&& denote(v.one_term()->Ok_0, env) matches Meaning::Scalar(Value::Bv(w, a))
            &&& Some(as_signed(w, a)) == n
        }),
{
    fit_expr(depth, st, e);
    let (v, _) = expr(depth, st, e)->Ok_0;
    let t = v.one_term()->Ok_0;
    law_fold_keeps_meaning(t, env);
    wf_folded(t);
    if t.constant() is Some {
        lemma_of(Node::Const(t.constant()->0));
        lemma_constant_is_meaning(t, env);
    } else {
        lemma_wf_const(t);
    }
}

} // verus!
