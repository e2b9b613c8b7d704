//! What inputs, zero values, arrays and outputs hold.
use std::rc::Rc;

use vstd::arithmetic::div_mod::lemma_small_mod;
use vstd::arithmetic::power2::lemma2_to64;
use vstd::arithmetic::power2::lemma_pow2_pos;
use vstd::arithmetic::power2::pow2;
use vstd::prelude::*;

use crate::circ::elements;
use crate::circ::merge;
use crate::circ::merge_fields;
use crate::circ::unset;
use crate::circ::unset_fields;
use crate::circ::ADDR_WIDTH;
use crate::circ::CircState;
use crate::circ::PartyId;
use crate::circ::PathStep;
use crate::cterm::value;
use crate::cterm::value_i32;
use crate::cterm::AllocId;
use crate::cterm::CTerm;
use crate::cterm::CTermData;
use crate::error::CError;
use crate::error::Reason;
use crate::flow::law_declared_variable_is_seen;
use crate::ir::const_width;
use crate::ir::denote;
use crate::ir::lemma_denote;
use crate::ir::lemma_kind;
use crate::ir::lemma_of;
use crate::ir::lit_bool;
use crate::ir::lit_bv;
use crate::ir::number_of;
use crate::ir::term_op;
use crate::ir::wrap;
use crate::ir::Meaning;
use crate::ir::Node;
use crate::ir::Op;
use crate::ir::Sort;
use crate::ir::Term;
use crate::ir::Value;
use crate::kept::is_true;
use crate::kept::Env;
use crate::laws::law_declared_input_adds_its_parts;
use crate::laws::lemma_input_gains;
use crate::laws::parts;
use crate::laws::parts_of_fields;
use crate::list::shared;
use crate::list::List;
use crate::translate::array_value;
use crate::translate::published;
use crate::translate::selected;
use crate::translate::stored;
use crate::translate::stored_terms;
use crate::translate::stored_values;
use crate::translate::GenState;
use crate::types::fields_bits;
use crate::types::Field;
use crate::types::Ty;
use crate::values::lemma_literal;
use crate::values::lemma_wrap;
use crate::wellformed::values_wf;

verus! {

// ---------------------------------------------------------------------------------------------
// Inputs
// ---------------------------------------------------------------------------------------------

/// The element `i` of an array.
pub open spec fn element_at(s: CircState, array: CTerm, i: int) -> Result<CTerm, CError> {
    selected(s, array, value_i32(lit_bv(i, 32)))
}

/// Whether a value is of the type `ty` and its term means `v`.
pub open spec fn is_scalar(env: Env, t: CTerm, ty: Ty, v: Value) -> bool {
    t.term.ty() == ty && (t.one_term() matches Ok(x) && denote(x, env) == Meaning::Scalar(v))
}

/// The sort of a truth value or a number.
pub open spec fn leaf_sort(ty: Ty) -> Option<Sort> {
    match ty {
        Ty::Bool => Some(Sort::Bool),
        Ty::Int(_, w) => Some(Sort::Bv(w)),
        _ => None,
    }
}

/// Whether the `k`-th input has the sort of the type and belongs to the place with the given path.
pub open spec fn is_input_of(s: CircState, k: nat, ty: Ty, path: List<PathStep>) -> bool {
    &&& k < s.inputs.len()
    &&& Some(s.inputs[k as int].sort) == leaf_sort(ty)
    &&& s.inputs[k as int].path == Rc::new(path)
}

/// Whether a value of the type is made of the inputs from the `k`-th on, in order: a number or a
/// truth value of one, an array of one for each element, a structure of those of its fields.
pub open spec fn is_made_of_inputs(
    env: Env,
    s: CircState,
    t: CTerm,
    ty: Ty,
    path: List<PathStep>,
    k: nat,
) -> bool
    decreases ty,
{
    match ty {
        Ty::Bool | Ty::Int(_, _) => is_scalar(env, t, ty, env(k as usize)) && is_input_of(
            s,
            k,
            ty,
            path,
        ),
        Ty::Array(n, _, e) => {
            &&& t.term.ty() == ty
            &&& forall|i: int|
                0 <= i < n ==> {
                    &&& (#[trigger] element_at(s, t, i)) is Ok
                    &&& is_scalar(env, element_at(s, t, i)->Ok_0, *e, env((k + i) as usize))
                    &&& is_input_of(
                        s,
                        (k + i) as nat,
                        *e,
                        List::Cons(PathStep::Index(i as usize), Rc::new(path)),
                    )
                }
        },
        Ty::Ptr(_, _) => false,
        Ty::Struct(_, fs) => t.term matches CTermData::CStruct(r, gs) && r == ty
            && are_made_of_inputs(env, s, *gs.list, *fs.list, path, k),
    }
}

/// Whether fields of the given types are made of the inputs from the `k`-th on, in order.
pub open spec fn are_made_of_inputs(
    env: Env,
    s: CircState,
    l: List<Field<CTerm>>,
    tys: List<Field<Ty>>,
    path: List<PathStep>,
    k: nat,
) -> bool
    decreases tys,
{
    match (l, tys) {
        (List::Nil, List::Nil) => true,
        (List::Cons(g, r), List::Cons(f, q)) => {
            &&& g.name == f.name
            &&& is_made_of_inputs(
                env,
                s,
                g.value,
                f.value,
                List::Cons(PathStep::Field(f.name), Rc::new(path)),
                k,
            )
            &&& are_made_of_inputs(env, s, *r, *q, path, k + parts(f.value))
        },
        _ => false,
    }
}

/// Whether every array within the type has no more elements than there are addresses.
pub open spec fn is_addressable(ty: Ty) -> bool
    decreases ty,
{
    match ty {
        Ty::Array(n, _, _) => n <= 0x1_0000_0000,
        Ty::Struct(_, fs) => are_addressable(*fs.list),
        _ => true,
    }
}

/// Whether every array within the fields has no more elements than there are addresses.
pub open spec fn are_addressable(l: List<Field<Ty>>) -> bool
    decreases l,
{
    match l {
        List::Nil => true,
        List::Cons(f, rest) => is_addressable(f.value) && are_addressable(*rest),
    }
}

/// The number of arrays within the type.
pub open spec fn regions(ty: Ty) -> nat
    decreases ty,
{
    match ty {
        Ty::Array(_, _, _) => 1,
        Ty::Struct(_, fs) => regions_of_fields(*fs.list),
        _ => 0,
    }
}

/// The number of arrays within the fields.
pub open spec fn regions_of_fields(l: List<Field<Ty>>) -> nat
    decreases l,
{
    match l {
        List::Nil => 0,
        List::Cons(f, rest) => regions(f.value) + regions_of_fields(*rest),
    }
}

/// Whether `t` has the memory regions and the inputs of `s`, and perhaps more.
pub open spec fn extends(s: CircState, t: CircState) -> bool {
    &&& s.allocs.len() <= t.allocs.len()
    &&& forall|i: int| 0 <= i < s.allocs.len() ==> #[trigger] t.allocs[i] == s.allocs[i]
    &&& s.inputs.len() <= t.inputs.len()
    &&& forall|i: int| 0 <= i < s.inputs.len() ==> #[trigger] t.inputs[i] == s.inputs[i]
}

/// What a literal address means.
proof fn lemma_address(env: Env, i: int)
    requires
        0 <= i < 0x1_0000_0000,
    ensures
        denote(lit_bv(i, 32), env) == Meaning::Scalar(Value::Bv(32, i as u64)),
{
    lemma2_to64();
    lemma_literal(env, i, 32);
}

/// After terms are stored at their positions in a region, each of these holds what its term means.
proof fn lemma_stored_all(env: Env, s: CircState, id: AllocId, ts: Seq<Term>, i: nat)
    requires
        id < s.allocs.len(),
        ts.len() <= 0x1_0000_0000,
        forall|j: int| 0 <= j < ts.len() ==> denote(#[trigger] ts[j], env) is Scalar,
    ensures
        s.stored_all(lit_bool(true), id, ts, i) is Ok,
        ({
            let t = s.stored_all(lit_bool(true), id, ts, i)->Ok_0.1;
            let was = denote(s.allocs[id as int].contents, env).contents();
            let is = denote(t.allocs[id as int].contents, env).contents();
            &&& t.inputs == s.inputs
            &&& t.allocs.len() == s.allocs.len()
            &&& forall|j: int|
                0 <= j < s.allocs.len() && j != id ==> #[trigger] t.allocs[j] == s.allocs[j]
            &&& forall|a: u64| #[trigger]
                is[a] == (if i <= a < ts.len() {
                    denote(ts[a as int], env).value()
                } else {
                    was[a]
                })
        }),
    decreases ts.len() - i,
{
    if i < ts.len() {
        let at = lit_bv(i as int, ADDR_WIDTH);
        lemma_address(env, i as int);
        let contents = s.allocs[id as int].contents;
        let x = ts[i as int];
        let store = Term::of(Node::Store(contents, at, x));
        lemma_denote(Node::Store(contents, at, x), env);
        lemma_denote(Node::Const(Value::Bool(true)), env);
        lemma_denote(Node::Ite(lit_bool(true), store, contents), env);
        let u = s.stored_if(lit_bool(true), id, at, x)->Ok_0.1;
        lemma_stored_all(env, u, id, ts, i + 1);
    }
}

/// The inputs that make up the elements of an array of numbers or truth values.
proof fn lemma_input_elements(
    env: Env,
    s: CircState,
    name: String,
    path: List<PathStep>,
    ty: Ty,
    vis: Option<PartyId>,
    i: nat,
    n: nat,
    acc: Seq<Term>,
)
    requires
        i <= n,
        acc.len() == i,
        s.inputs.len() + n - i <= usize::MAX,
        i < n ==> s.input_elements(name, path, ty, vis, i, n, acc) is Ok,
    ensures
        s.input_elements(name, path, ty, vis, i, n, acc) matches Ok((ts, t)) && {
            &&& i < n ==> leaf_sort(ty) is Some
            &&& t.allocs == s.allocs
            &&& extends(s, t)
            &&& ts.len() == n
            &&& t.inputs.len() == s.inputs.len() + n - i
            &&& forall|j: int| 0 <= j < i ==> ts[j] == #[trigger] acc[j]
            &&& forall|j: int|
                i <= j < n ==> {
                    &&& denote(#[trigger] ts[j], env) == Meaning::Scalar(
                        env((s.inputs.len() + j - i) as usize),
                    )
                    &&& is_input_of(
                        t,
                        (s.inputs.len() + j - i) as nat,
                        ty,
                        List::Cons(PathStep::Index(j as usize), Rc::new(path)),
                    )
                }
        },
    decreases n - i,
{
    if i < n {
        let p = List::Cons(PathStep::Index(i as usize), Rc::new(path));
        let (v, u) = s.input(name, p, ty, vis)->Ok_0;
        let x = v.one_term()->Ok_0;
        assert(leaf_sort(ty) is Some);
        let sort = leaf_sort(ty)->0;
        let k = s.inputs.len() as usize;
        assert(x == Term::of(Node::Input(k, sort)));
        lemma_denote(Node::Input(k, sort), env);
        lemma_input_elements(env, u, name, path, ty, vis, i + 1, n, acc.push(x));
        let (ts, t) = u.input_elements(name, path, ty, vis, i + 1, n, acc.push(x))->Ok_0;
        assert(s.input_elements(name, path, ty, vis, i, n, acc) == u.input_elements(
            name,
            path,
            ty,
            vis,
            i + 1,
            n,
            acc.push(x),
        ));
        assert(acc.push(x)[i as int] == x);
        assert(ts[i as int] == x);
        assert(u.inputs[k as int].path == Rc::new(p));
        assert(t.inputs[k as int] == u.inputs[k as int]);
        assert forall|j: int| 0 <= j < i implies ts[j] == #[trigger] acc[j] by {
            assert(acc.push(x)[j] == acc[j]);
        }
        assert forall|j: int| 0 <= j < s.inputs.len() implies #[trigger] t.inputs[j]
            == s.inputs[j] by {
            assert(u.inputs[j] == s.inputs[j]);
        }
    }
}

/// What a value is made of does not change where inputs and regions are added.
proof fn lemma_made_kept(
    env: Env,
    s: CircState,
    u: CircState,
    t: CTerm,
    ty: Ty,
    path: List<PathStep>,
    k: nat,
)
    requires
        extends(s, u),
        is_made_of_inputs(env, s, t, ty, path, k),
    ensures
        is_made_of_inputs(env, u, t, ty, path, k),
    decreases ty,
{
    match ty {
        Ty::Array(n, _, e) => {
            assert forall|i: int| 0 <= i < n implies (#[trigger] element_at(u, t, i)) is Ok
                && is_scalar(env, element_at(u, t, i)->Ok_0, *e, env((k + i) as usize))
                && is_input_of(
                u,
                (k + i) as nat,
                *e,
                List::Cons(PathStep::Index(i as usize), Rc::new(path)),
            ) by {
                assert(element_at(s, t, i) is Ok);
                assert(element_at(u, t, i) == element_at(s, t, i));
            }
        },
        Ty::Struct(_, fs) => match t.term {
            CTermData::CStruct(_, gs) => lemma_fields_made_kept(
                env,
                s,
                u,
                shared(gs.list),
                shared(fs.list),
                path,
                k,
            ),
            _ => {},
        },
        _ => {},
    }
}

proof fn lemma_fields_made_kept(
    env: Env,
    s: CircState,
    u: CircState,
    l: List<Field<CTerm>>,
    tys: List<Field<Ty>>,
    path: List<PathStep>,
    k: nat,
)
    requires
        extends(s, u),
        are_made_of_inputs(env, s, l, tys, path, k),
    ensures
        are_made_of_inputs(env, u, l, tys, path, k),
    decreases tys,
{
    match (l, tys) {
        (List::Cons(g, r), List::Cons(f, q)) => {
            let p = List::Cons(PathStep::Field(f.name), Rc::new(path));
            lemma_made_kept(env, s, u, g.value, f.value, p, k);
            lemma_fields_made_kept(
                env,
                s,
                u,
                shared(r),
                shared(q),
                path,
                k + parts(f.value),
            );
        },
        _ => {},
    }
}

proof fn lemma_input(
    env: Env,
    s: CircState,
    name: String,
    path: List<PathStep>,
    ty: Ty,
    vis: Option<PartyId>,
)
    requires
        is_addressable(ty),
        s.inputs.len() + parts(ty) <= usize::MAX,
        s.allocs.len() + regions(ty) <= usize::MAX,
        s.input(name, path, ty, vis) is Ok,
    ensures
        ({
            let (t, u) = s.input(name, path, ty, vis)->Ok_0;
            &&& is_made_of_inputs(env, u, t, ty, path, s.inputs.len())
            &&& extends(s, u)
            &&& u.inputs.len() == s.inputs.len() + parts(ty)
            &&& u.allocs.len() == s.allocs.len() + regions(ty)
        }),
    decreases ty,
{
    match ty {
        Ty::Bool | Ty::Int(_, _) => {
            let sort = leaf_sort(ty)->0;
            lemma_denote(Node::Input(s.inputs.len() as usize, sort), env);
        },
        Ty::Array(n, _, e) => {
            lemma_array_input(env, s, name, path, ty, n, shared(e), vis);
        },
        Ty::Ptr(_, _) => {},
        Ty::Struct(_, fs) => lemma_input_fields(env, s, name, path, shared(fs.list), vis),
    }
}

proof fn lemma_array_input(
    env: Env,
    s: CircState,
    name: String,
    path: List<PathStep>,
    ty: Ty,
    n: usize,
    e: Ty,
    vis: Option<PartyId>,
)
    requires
        ty matches Ty::Array(m, _, t) && m == n && *t == e,
        n <= 0x1_0000_0000,
        s.inputs.len() + parts(ty) <= usize::MAX,
        s.allocs.len() + 1 <= usize::MAX,
        s.input(name, path, ty, vis) is Ok,
    ensures
        ({
            let (t, u) = s.input(name, path, ty, vis)->Ok_0;
            &&& is_made_of_inputs(env, u, t, ty, path, s.inputs.len())
            &&& extends(s, u)
            &&& u.inputs.len() == s.inputs.len() + parts(ty)
            &&& u.allocs.len() == s.allocs.len() + 1
        }),
{
    let k = s.inputs.len();
    if n > 0 {
        assert(s.input_elements(name, path, e, vis, 0, n as nat, Seq::empty()) is Ok);
        let p = List::Cons(PathStep::Index(0), Rc::new(path));
        assert(s.input(name, p, e, vis) is Ok);
        assert(leaf_sort(e) is Some);
        assert(parts(e) == 1);
    }
    assert(parts(ty) == n) by (nonlinear_arith)
        requires
            parts(ty) == n as nat * parts(e),
            n > 0 ==> parts(e) == 1,
    ;
    lemma_input_elements(env, s, name, path, e, vis, 0, n as nat, Seq::empty());
    let (ts, u) = s.input_elements(name, path, e, vis, 0, n as nat, Seq::empty())->Ok_0;
    let (id, v) = u.allocated(n, e.bits() as usize);
    lemma_stored_all(env, v, id, ts, 0);
    let w = v.stored_all(lit_bool(true), id, ts, 0)->Ok_0.1;
    let (t, _) = s.input(name, path, ty, vis)->Ok_0;
    assert(s.input(name, path, ty, vis)->Ok_0.1 == w);
    assert(extends(s, w)) by {
        assert forall|i: int| 0 <= i < s.allocs.len() implies #[trigger] w.allocs[i]
            == s.allocs[i] by {
            assert(v.allocs[i] == s.allocs[i]);
        }
    }
    let contents = w.allocs[id as int].contents;
    assert forall|i: int| 0 <= i < n implies (#[trigger] element_at(w, t, i)) is Ok && is_scalar(
        env,
        element_at(w, t, i)->Ok_0,
        e,
        env((k + i) as usize),
    ) && is_input_of(
        w,
        (k + i) as nat,
        e,
        List::Cons(PathStep::Index(i as usize), Rc::new(path)),
    ) by {
        lemma_address(env, i);
        lemma_denote(Node::Select(contents, lit_bv(i, 32)), env);
        assert(denote(ts[i], env) == Meaning::Scalar(env((k + i) as usize)));
        assert(denote(contents, env).contents()[i as u64] == env((k + i) as usize));
        assert(is_input_of(
            u,
            (k + i) as nat,
            e,
            List::Cons(PathStep::Index(i as usize), Rc::new(path)),
        ));
    }
}

proof fn lemma_input_fields(
    env: Env,
    s: CircState,
    name: String,
    path: List<PathStep>,
    l: List<Field<Ty>>,
    vis: Option<PartyId>,
)
    requires
        are_addressable(l),
        s.inputs.len() + parts_of_fields(l) <= usize::MAX,
        s.allocs.len() + regions_of_fields(l) <= usize::MAX,
        s.input_fields(name, path, l, vis) is Ok,
    ensures
        ({
            let (fs, u) = s.input_fields(name, path, l, vis)->Ok_0;
            &&& are_made_of_inputs(env, u, fs, l, path, s.inputs.len())
            &&& extends(s, u)
            &&& u.inputs.len() == s.inputs.len() + parts_of_fields(l)
            &&& u.allocs.len() == s.allocs.len() + regions_of_fields(l)
        }),
    decreases l,
{
    match l {
        List::Nil => {},
        List::Cons(f, rest) => {
            let p = List::Cons(PathStep::Field(f.name), Rc::new(path));
            lemma_input(env, s, name, p, f.value, vis);
            let (v, u) = s.input(name, p, f.value, vis)->Ok_0;
            lemma_input_fields(env, u, name, path, shared(rest), vis);
            let (_, w) = u.input_fields(name, path, shared(rest), vis)->Ok_0;
            lemma_made_kept(env, u, w, v, f.value, p, s.inputs.len());
        },
    }
}

/// After a parameter of the entry function is declared, its value is made of the inputs that the
/// declaration added, in order: the element `i` of an array is the `i`-th of them, and the fields
/// of a structure follow one another. Each input is of the sort of what it stands for, and carries
/// the way to it.
pub proof fn law_declared_input_reads_its_inputs(
    env: Env,
    s: CircState,
    name: String,
    ty: Ty,
    vis: Option<PartyId>,
)
    requires
        is_addressable(ty),
        s.inputs.len() + parts(ty) <= usize::MAX,
        s.allocs.len() + regions(ty) <= usize::MAX,
        s.declared_input(name, ty, vis) is Ok,
    ensures
        ({
            let (v, t) = s.declared_input(name, ty, vis)->Ok_0;
            &&& t.get(name) == Ok::<CTerm, CError>(v)
            &&& is_made_of_inputs(env, t, v, ty, List::Nil, s.inputs.len())
            &&& extends(s, t)
        }),
{
    lemma_input(env, s, name, List::Nil, ty, vis);
    lemma_input_gains(s, name, List::Nil, ty, vis);
    let (v, u) = s.input(name, List::Nil, ty, vis)->Ok_0;
    law_declared_variable_is_seen(u, name, ty, v, name);
    let t = u.declared(name, ty, v)->Ok_0.1;
    lemma_made_kept(env, u, t, v, ty, List::Nil, s.inputs.len());
}

/// The element `i` of an array parameter of the entry function, for every `i` below its length, is
/// the `i`-th of the inputs that its declaration added.
pub proof fn law_array_input_element(
    env: Env,
    s: CircState,
    name: String,
    ty: Ty,
    vis: Option<PartyId>,
    i: int,
)
    requires
        ty matches Ty::Array(n, _, _) && 0 <= i < n <= 0x1_0000_0000,
        s.inputs.len() + parts(ty) <= usize::MAX,
        s.allocs.len() < usize::MAX,
        s.declared_input(name, ty, vis) is Ok,
    ensures
        ({
            let t = s.declared_input(name, ty, vis)->Ok_0.1;
            &&& t.get(name) matches Ok(v) && (element_at(t, v, i) matches Ok(e) && (e.one_term()
                matches Ok(x) && denote(x, env) == Meaning::Scalar(
                env((s.inputs.len() + i) as usize),
            )))
            &&& t.inputs[s.inputs.len() + i].name == name
            &&& t.inputs[s.inputs.len() + i].vis == vis
        }),
{
    law_declared_input_reads_its_inputs(env, s, name, ty, vis);
    law_declared_input_adds_its_parts(s, name, ty, vis);
    let (v, t) = s.declared_input(name, ty, vis)->Ok_0;
    assert(element_at(t, v, i) is Ok);
}

// ---------------------------------------------------------------------------------------------
// Zero values and initializers
// ---------------------------------------------------------------------------------------------

/// Whether a value of the type is zero, or false, in all its parts.
pub open spec fn is_zero(env: Env, s: CircState, t: CTerm, ty: Ty) -> bool
    decreases ty,
{
    match ty {
        Ty::Bool => is_scalar(env, t, ty, Value::Bool(false)),
        Ty::Int(_, w) => is_scalar(env, t, ty, Value::Bv(w, 0)),
        Ty::Array(_, _, e) => t.term.ty() == ty && (leaf_sort(*e) is Some ==> forall|i: int|
            0 <= i < 0x1_0000_0000 ==> {
                &&& (#[trigger] element_at(s, t, i)) is Ok
                &&& element_at(s, t, i)->Ok_0.term.ty() == *e
                &&& number_of(denote(element_at(s, t, i)->Ok_0.one_term()->Ok_0, env).value()) == 0
                &&& *e matches Ty::Int(_, w) ==> is_scalar(
                    env,
                    element_at(s, t, i)->Ok_0,
                    *e,
                    Value::Bv(w, 0),
                )
            }),
        Ty::Ptr(w, _) => t.term matches CTermData::CStackPtr(r, o, None) && r == ty && denote(
            o,
            env,
        ) == Meaning::Scalar(Value::Bv(w, 0)),
        Ty::Struct(_, fs) => t.term matches CTermData::CStruct(r, gs) && r == ty && are_zero(
            env,
            s,
            *gs.list,
            *fs.list,
        ),
    }
}

/// Whether fields of the given types are zero, or false, in all their parts.
pub open spec fn are_zero(
    env: Env,
    s: CircState,
    l: List<Field<CTerm>>,
    tys: List<Field<Ty>>,
) -> bool
    decreases tys,
{
    match (l, tys) {
        (List::Nil, List::Nil) => true,
        (List::Cons(g, r), List::Cons(f, q)) => g.name == f.name && is_zero(
            env,
            s,
            g.value,
            f.value,
        ) && are_zero(env, s, *r, *q),
        _ => false,
    }
}

proof fn lemma_zero_wraps(env: Env, w: usize)
    ensures
        denote(lit_bv(0, w), env) == Meaning::Scalar(Value::Bv(w, 0)),
{
    lemma_pow2_pos(const_width(w));
    lemma_small_mod(0, pow2(const_width(w)));
    lemma_denote(Node::Const(Value::Bv(w, wrap(0, w))), env);
}

proof fn lemma_zero_kept(env: Env, s: CircState, u: CircState, t: CTerm, ty: Ty)
    requires
        extends(s, u),
        is_zero(env, s, t, ty),
    ensures
        is_zero(env, u, t, ty),
    decreases ty,
{
    match ty {
        Ty::Array(_, _, e) => {
            if leaf_sort(shared(e)) is Some {
                assert forall|i: int| 0 <= i < 0x1_0000_0000 implies (#[trigger] element_at(
                    u,
                    t,
                    i,
                )) is Ok && element_at(u, t, i)->Ok_0.term.ty() == *e && number_of(
                    denote(element_at(u, t, i)->Ok_0.one_term()->Ok_0, env).value(),
                ) == 0 && (*e matches Ty::Int(_, w) ==> is_scalar(
                    env,
                    element_at(u, t, i)->Ok_0,
                    *e,
                    Value::Bv(w, 0),
                )) by {
                    assert(element_at(s, t, i) is Ok);
                    assert(element_at(u, t, i) == element_at(s, t, i));
                }
            }
        },
        Ty::Struct(_, fs) => match t.term {
            CTermData::CStruct(_, gs) => lemma_zeros_kept(
                env,
                s,
                u,
                shared(gs.list),
                shared(fs.list),
            ),
            _ => {},
        },
        _ => {},
    }
}

proof fn lemma_zeros_kept(
    env: Env,
    s: CircState,
    u: CircState,
    l: List<Field<CTerm>>,
    tys: List<Field<Ty>>,
)
    requires
        extends(s, u),
        are_zero(env, s, l, tys),
    ensures
        are_zero(env, u, l, tys),
    decreases tys,
{
    match (l, tys) {
        (List::Cons(g, r), List::Cons(f, q)) => {
            lemma_zero_kept(env, s, u, g.value, f.value);
            lemma_zeros_kept(env, s, u, shared(r), shared(q));
        },
        _ => {},
    }
}

/// A variable without an initializer is zero in all its parts, and what there was before is as it
/// was. Only a type too large for its bits to be counted has no zero.
pub proof fn law_zero_value_is_zero(env: Env, s: CircState, ty: Ty)
    requires
        s.allocs.len() + regions(ty) <= usize::MAX,
    ensures
        s.zero(ty) matches Ok((v, t)) ==> is_zero(env, t, v, ty) && extends(s, t)
            && t.allocs.len() == s.allocs.len() + regions(ty) && t.frames == s.frames && t.globals
            == s.globals && t.inputs == s.inputs,
        leaf_sort(ty) is Some ==> s.zero(ty) is Ok,
    decreases ty,
{
    match ty {
        Ty::Bool => lemma_denote(Node::Const(Value::Bool(false)), env),
        Ty::Int(_, w) => lemma_zero_wraps(env, w),
        Ty::Array(n, _, e) => {
            if s.zero(ty) is Ok {
                let bits = shared(e).bits() as usize;
                let (v, t) = s.zero(ty)->Ok_0;
                let zeros = Node::ZeroArray(n, ADDR_WIDTH, bits);
                lemma_denote(zeros, env);
                assert forall|i: int|
                    0 <= i < 0x1_0000_0000 && leaf_sort(*e) is Some implies (
                #[trigger] element_at(t, v, i)) is Ok && element_at(t, v, i)->Ok_0.term.ty() == *e
                    && number_of(denote(element_at(t, v, i)->Ok_0.one_term()->Ok_0, env).value())
                    == 0 && (*e matches Ty::Int(_, w) ==> is_scalar(
                    env,
                    element_at(t, v, i)->Ok_0,
                    *e,
                    Value::Bv(w, 0),
                )) by {
                    lemma_denote(Node::Select(Term::of(zeros), lit_bv(i, 32)), env);
                }
            }
        },
        Ty::Ptr(w, _) => lemma_zero_wraps(env, w),
        Ty::Struct(_, fs) => lemma_zero_fields(env, s, shared(fs.list)),
    }
}

proof fn lemma_zero_fields(env: Env, s: CircState, l: List<Field<Ty>>)
    requires
        s.allocs.len() + regions_of_fields(l) <= usize::MAX,
    ensures
        s.zero_fields(l) matches Ok((fs, t)) ==> are_zero(env, t, fs, l) && extends(s, t)
            && t.allocs.len() == s.allocs.len() + regions_of_fields(l) && t.frames == s.frames
            && t.globals == s.globals && t.inputs == s.inputs,
    decreases l,
{
    match l {
        List::Nil => {},
        List::Cons(f, rest) => {
            law_zero_value_is_zero(env, s, f.value);
            if s.zero_fields(l) is Ok {
                let (v, t) = s.zero(f.value)->Ok_0;
                lemma_zero_fields(env, t, shared(rest));
                let (_, u) = t.zero_fields(shared(rest))->Ok_0;
                lemma_zero_kept(env, t, u, v, f.value);
            }
        },
    }
}

/// After values are stored at their positions in a region, each of these holds what its value means
/// where the current statement runs, and what it held elsewhere.
proof fn lemma_stored_values(env: Env, c: CircState, id: AllocId, vs: Seq<CTerm>, i: nat)
    requires
        id < c.allocs.len(),
        vs.len() <= 0x1_0000_0000,
        forall|j: int|
            0 <= j < vs.len() ==> (#[trigger] vs[j]).one_term() is Ok && denote(
                vs[j].one_term()->Ok_0,
                env,
            ) is Scalar,
    ensures
        stored_values(c, id, vs, i) is Ok,
        ({
            let d = stored_values(c, id, vs, i)->Ok_0.1;
            let was = denote(c.allocs[id as int].contents, env).contents();
            let is = denote(d.allocs[id as int].contents, env).contents();
            &&& d.frames == c.frames
            &&& d.globals == c.globals
            &&& d.inputs == c.inputs
            &&& d.allocs.len() == c.allocs.len()
            &&& forall|j: int|
                0 <= j < c.allocs.len() && j != id ==> #[trigger] d.allocs[j] == c.allocs[j]
            &&& forall|a: u64| #[trigger]
                is[a] == (if i <= a < vs.len() && is_true(c.condition(), env) {
                    denote(vs[a as int].one_term()->Ok_0, env).value()
                } else {
                    was[a]
                })
        }),
    decreases vs.len() - i,
{
    if i < vs.len() {
        let at = lit_bv(i as int, 32);
        lemma_address(env, i as int);
        let contents = c.allocs[id as int].contents;
        let x = vs[i as int].one_term()->Ok_0;
        let store = Term::of(Node::Store(contents, at, x));
        lemma_denote(Node::Store(contents, at, x), env);
        lemma_denote(Node::Ite(c.condition(), store, contents), env);
        let d = c.stored(id, at, x)->Ok_0.1;
        assert(d.condition() == c.condition());
        lemma_stored_values(env, d, id, vs, i + 1);
    }
}

/// An array that is initialized with numbers or truth values has, where the declaration runs, at
/// each position what the list has there, and zero elsewhere. It is refused just where the numbers
/// of elements differ.
pub proof fn law_initialized_array_has_its_elements(
    env: Env,
    c: CircState,
    ty: Ty,
    n: usize,
    t: Ty,
    vs: Seq<CTerm>,
)
    requires
        ty matches Ty::Array(m, _, e) && m == n && *e == t,
        leaf_sort(t) is Some,
        n <= 0x1_0000_0000,
        c.allocs.len() < usize::MAX,
        values_wf(vs),
        forall|j: int| 0 <= j < vs.len() ==> (#[trigger] vs[j]).one_term() is Ok,
    ensures
        array_value(c, ty, n, t, vs) is Ok <==> n == vs.len(),
        array_value(c, ty, n, t, vs) matches Ok((v, d)) ==> {
            &&& extends(c, d)
            &&& d.frames == c.frames
            &&& d.globals == c.globals
            &&& forall|i: int|
                0 <= i < n ==> {
                    &&& (#[trigger] element_at(d, v, i)) is Ok
                    &&& element_at(d, v, i)->Ok_0.term.ty() == t
                    &&& denote(element_at(d, v, i)->Ok_0.one_term()->Ok_0, env) == (if is_true(
                        c.condition(),
                        env,
                    ) {
                        denote(vs[i].one_term()->Ok_0, env)
                    } else {
                        Meaning::Scalar(Value::Bv(t.bits() as usize, 0))
                    })
                }
        },
{
    if n == vs.len() {
        let bits = t.bits() as usize;
        let (id, d) = c.allocated(n, bits);
        assert forall|j: int| 0 <= j < vs.len() implies (#[trigger] vs[j]).one_term() is Ok
            && denote(vs[j].one_term()->Ok_0, env) is Scalar by {
            lemma_kind(vs[j].one_term()->Ok_0, env);
        }
        let zeros = Node::ZeroArray(n, ADDR_WIDTH, bits);
        lemma_denote(zeros, env);
        lemma_stored_values(env, d, id, vs, 0);
        assert(d.condition() == c.condition());
        let u = stored_values(d, id, vs, 0)->Ok_0.1;
        let v = array_value(c, ty, n, t, vs)->Ok_0.0;
        let contents = u.allocs[id as int].contents;
        assert forall|i: int| 0 <= i < n implies {
            &&& (#[trigger] element_at(u, v, i)) is Ok
            &&& element_at(u, v, i)->Ok_0.term.ty() == t
            &&& denote(element_at(u, v, i)->Ok_0.one_term()->Ok_0, env) == (if is_true(
                c.condition(),
                env,
            ) {
                denote(vs[i].one_term()->Ok_0, env)
            } else {
                Meaning::Scalar(Value::Bv(bits, 0))
            })
        } by {
            lemma_address(env, i);
            lemma_denote(Node::Select(contents, lit_bv(i, 32)), env);
            assert(denote(contents, env).contents()[i as u64] == if is_true(c.condition(), env) {
                denote(vs[i].one_term()->Ok_0, env).value()
            } else {
                Value::Bv(bits, 0)
            });
            assert(vs[i].one_term() is Ok);
        }
        assert(extends(c, u)) by {
            assert forall|i: int| 0 <= i < c.allocs.len() implies #[trigger] u.allocs[i]
                == c.allocs[i] by {
                assert(d.allocs[i] == c.allocs[i]);
            }
        }
    }
}

// ---------------------------------------------------------------------------------------------
// Outputs
// ---------------------------------------------------------------------------------------------

/// The number of terms that a value is made of.
pub open spec fn term_count(t: CTerm) -> nat
    decreases t,
{
    match t.term {
        CTermData::CBool(_) => 1,
        CTermData::CInt(_, _, _) => 1,
        CTermData::CArray(Ty::Array(n, _, _), _) => n as nat,
        CTermData::CStackPtr(Ty::Array(n, _, _), _, _) => n as nat,
        CTermData::CStruct(_, fs) => term_count_of_fields(*fs.list),
        _ => 0,
    }
}

/// The number of terms that fields are made of.
pub open spec fn term_count_of_fields(l: List<Field<CTerm>>) -> nat
    decreases l,
{
    match l {
        List::Nil => 0,
        List::Cons(f, rest) => term_count(f.value) + term_count_of_fields(*rest),
    }
}

/// Whether the terms are, in order, the numbers and truth values that a value is made of: the
/// elements of an array from the first on, and the fields of a structure one after the other.
pub open spec fn lists_parts(s: CircState, t: CTerm, ts: Seq<Term>) -> bool
    decreases t,
{
    &&& ts.len() == term_count(t)
    &&& match t.term {
        CTermData::CBool(x) => ts[0] == x,
        CTermData::CInt(_, _, x) => ts[0] == x,
        CTermData::CStruct(_, fs) => lists_fields(s, *fs.list, ts),
        _ => forall|i: int|
            0 <= i < ts.len() ==> ((#[trigger] element_at(s, t, i)) matches Ok(e) ==> e.one_term()
                == Ok::<Term, CError>(ts[i])),
    }
}

/// Whether the terms are, in order, the numbers and truth values that fields are made of.
pub open spec fn lists_fields(s: CircState, l: List<Field<CTerm>>, ts: Seq<Term>) -> bool
    decreases l,
{
    match l {
        List::Nil => ts.len() == 0,
        List::Cons(f, rest) => {
            let k = term_count(f.value) as int;
            &&& k <= ts.len()
            &&& lists_parts(s, f.value, ts.take(k))
            &&& lists_fields(s, *rest, ts.skip(k))
        },
    }
}

proof fn lemma_elements(contents: Term, offset: Option<Term>, i: nat, n: nat)
    requires
        i <= n,
    ensures
        ({
            let ts = elements(contents, offset, i, n);
            &&& ts.len() == n - i
            &&& forall|j: int|
                0 <= j < n - i ==> #[trigger] ts[j] == Term::of(
                    Node::Select(
                        contents,
                        match offset {
                            None => lit_bv(i + j, 32),
                            Some(o) => term_op(Op::BvAdd, o, lit_bv(i + j, 32)),
                        },
                    ),
                )
        }),
    decreases n - i,
{
    if i < n {
        lemma_elements(contents, offset, i + 1, n);
        let rest = elements(contents, offset, i + 1, n);
        let ts = elements(contents, offset, i, n);
        assert forall|j: int| 0 <= j < n - i implies #[trigger] ts[j] == Term::of(
            Node::Select(
                contents,
                match offset {
                    None => lit_bv(i + j, 32),
                    Some(o) => term_op(Op::BvAdd, o, lit_bv(i + j, 32)),
                },
            ),
        ) by {
            if j > 0 {
                assert(ts[j] == rest[j - 1]);
            }
        }
    }
}

/// The terms of a value are its numbers and truth values, in order.
pub proof fn law_terms_list_the_parts(s: CircState, t: CTerm)
    ensures
        s.terms(t) matches Ok(ts) ==> lists_parts(s, t, ts),
    decreases t,
{
    match t.term {
        CTermData::CStruct(_, fs) => lemma_fields_terms(s, shared(fs.list)),
        CTermData::CArray(Ty::Array(n, _, _), Some(id)) => {
            if id < s.allocs.len() {
                lemma_elements(s.allocs[id as int].contents, None, 0, n as nat);
            }
        },
        CTermData::CStackPtr(Ty::Array(n, _, _), o, Some(id)) => {
            if id < s.allocs.len() {
                lemma_elements(s.allocs[id as int].contents, Some(o), 0, n as nat);
            }
        },
        _ => {},
    }
}

proof fn lemma_fields_terms(s: CircState, l: List<Field<CTerm>>)
    ensures
        s.fields_terms(l) matches Ok(ts) ==> lists_fields(s, l, ts) && ts.len()
            == term_count_of_fields(l),
    decreases l,
{
    match l {
        List::Nil => {},
        List::Cons(f, rest) => {
            law_terms_list_the_parts(s, f.value);
            lemma_fields_terms(s, shared(rest));
            if s.fields_terms(l) is Ok {
                let a = s.terms(f.value)->Ok_0;
                let b = s.fields_terms(shared(rest))->Ok_0;
                assert((a + b).take(a.len() as int) =~= a);
                assert((a + b).skip(a.len() as int) =~= b);
            }
        },
    }
}

/// What the entry function returns becomes, in a multi-party computation, the outputs of the
/// circuit, behind those that there were; no other mode takes it.
pub proof fn law_result_becomes_the_outputs(st: GenState, r: CTerm)
    ensures
        published(st, r) is Ok <==> st.mode is Mpc && st.circ.terms(r) is Ok,
        published(st, r) matches Ok((_, after)) ==> exists|ts: Seq<Term>| #[trigger]
            lists_parts(st.circ, r, ts) && after.circ.outputs == st.circ.outputs + ts
                && after.circ.inputs == st.circ.inputs,
{
    law_terms_list_the_parts(st.circ, r);
    if published(st, r) is Ok {
        let ts = st.circ.terms(r)->Ok_0;
        assert(lists_parts(st.circ, r, ts));
    }
}

// ---------------------------------------------------------------------------------------------
// Merging and storing
// ---------------------------------------------------------------------------------------------

/// Whether one of two values can be taken by a condition: truth values, integers of one width,
/// arrays and places that are not in different regions, and structures with as many fields of which
/// this holds one by one.
pub open spec fn can_merge(t: CTerm, f: CTerm) -> bool
    decreases t,
{
    match (t.term, f.term) {
        (CTermData::CBool(_), CTermData::CBool(_)) => true,
        (CTermData::CInt(_, w, _), CTermData::CInt(_, v, _)) => w == v,
        (CTermData::CArray(_, a), CTermData::CArray(_, b)) => a is None || b is None || a == b,
        (CTermData::CStackPtr(_, _, a), CTermData::CStackPtr(_, _, b)) => a is None || b is None
            || a == b,
        (CTermData::CStruct(_, fs), CTermData::CStruct(_, gs)) => can_merge_fields(
            *fs.list,
            *gs.list,
        ),
        _ => false,
    }
}

/// Whether one of two lists of fields can be taken by a condition.
pub open spec fn can_merge_fields(t: List<Field<CTerm>>, f: List<Field<CTerm>>) -> bool
    decreases t,
{
    match (t, f) {
        (List::Nil, List::Nil) => true,
        (List::Cons(a, r), List::Cons(b, s)) => can_merge(a.value, b.value) && can_merge_fields(
            *r,
            *s,
        ),
        _ => false,
    }
}

/// A value can be taken by a condition from two just where they are alike, whatever the condition
/// is; it has the type of the first, but for the sign of an integer, which it has where both have
/// it.
pub proof fn law_values_that_are_alike_merge(c: Term, t: CTerm, f: CTerm)
    ensures
        merge(c, t, f) is Ok <==> can_merge(t, f),
        merge(c, t, f) matches Ok(m) ==> match (t.term.ty(), f.term.ty()) {
            (Ty::Int(s, w), Ty::Int(r, _)) => m.term is CInt ==> m.term.ty() == Ty::Int(s && r, w),
            _ => m.term.ty() == t.term.ty(),
        },
    decreases t,
{
    match (t.term, f.term) {
        (CTermData::CStruct(_, fs), CTermData::CStruct(_, gs)) => lemma_fields_merge(
            c,
            shared(fs.list),
            shared(gs.list),
        ),
        _ => {},
    }
}

proof fn lemma_fields_merge(c: Term, t: List<Field<CTerm>>, f: List<Field<CTerm>>)
    ensures
        (merge_fields(c, t, f) matches Some(Ok(_))) <==> can_merge_fields(t, f),
    decreases t,
{
    match (t, f) {
        (List::Cons(a, r), List::Cons(b, s)) => {
            law_values_that_are_alike_merge(c, a.value, b.value);
            lemma_fields_merge(c, shared(r), shared(s));
        },
        _ => {},
    }
}

/// Whether all arrays within a value have a region.
pub open spec fn is_readable(s: CircState, t: CTerm) -> bool
    decreases t,
{
    match t.term {
        CTermData::CBool(_) => true,
        CTermData::CInt(_, _, _) => true,
        CTermData::CArray(_, id) => id matches Some(i) && i < s.allocs.len(),
        CTermData::CStackPtr(_, _, id) => id matches Some(i) && i < s.allocs.len(),
        CTermData::CStruct(_, fs) => are_readable(s, *fs.list),
    }
}

/// Whether all arrays within fields have a region.
pub open spec fn are_readable(s: CircState, l: List<Field<CTerm>>) -> bool
    decreases l,
{
    match l {
        List::Nil => true,
        List::Cons(f, rest) => is_readable(s, f.value) && are_readable(s, *rest),
    }
}

/// A value has terms wherever all arrays within it have a region.
pub proof fn law_readable_value_has_terms(s: CircState, t: CTerm)
    requires
        is_readable(s, t),
    ensures
        s.terms(t) is Ok,
    decreases t,
{
    match t.term {
        CTermData::CStruct(_, fs) => lemma_readable_fields(s, shared(fs.list)),
        _ => {},
    }
}

proof fn lemma_readable_fields(s: CircState, l: List<Field<CTerm>>)
    requires
        are_readable(s, l),
    ensures
        s.fields_terms(l) is Ok,
    decreases l,
{
    match l {
        List::Nil => {},
        List::Cons(f, rest) => {
            law_readable_value_has_terms(s, f.value);
            lemma_readable_fields(s, shared(rest));
        },
    }
}

/// The address `k` positions behind a 32-bit address.
proof fn lemma_behind(env: Env, at: Term, a: u64, k: int)
    requires
        denote(at, env) == Meaning::Scalar(Value::Bv(32, a)),
        0 <= k < 0x1_0000_0000,
    ensures
        denote(term_op(Op::BvAdd, at, lit_bv(k, 32)), env) == Meaning::Scalar(
            Value::Bv(32, ((a + k) % 0x1_0000_0000) as u64),
        ),
{
    lemma_address(env, k);
    lemma2_to64();
    lemma_denote(Node::Op(Op::BvAdd, at, lit_bv(k, 32)), env);
    lemma_wrap(a + k, 32);
}

/// After several terms are stored behind an address, the positions from there on hold, where the
/// current statement runs, what the terms mean, in order, and all other positions what they held.
pub proof fn law_terms_are_stored_in_a_row(
    env: Env,
    c: CircState,
    id: AllocId,
    at: Term,
    a: u64,
    ts: Seq<Term>,
    i: nat,
)
    requires
        id < c.allocs.len(),
        denote(at, env) == Meaning::Scalar(Value::Bv(32, a)),
        a + ts.len() <= 0x1_0000_0000,
        forall|j: int| 0 <= j < ts.len() ==> denote(#[trigger] ts[j], env) is Scalar,
    ensures
        stored_terms(c, id, at, ts, i) matches Ok((_, d)) && {
            let was = denote(c.allocs[id as int].contents, env).contents();
            let is = denote(d.allocs[id as int].contents, env).contents();
            &&& d == (CircState { allocs: d.allocs, ..c })
            &&& d.allocs.len() == c.allocs.len()
            &&& forall|j: int|
                0 <= j < c.allocs.len() && j != id ==> #[trigger] d.allocs[j] == c.allocs[j]
            &&& forall|x: u64| #[trigger]
                is[x] == (if a + i <= x < a + ts.len() && is_true(c.condition(), env) {
                    denote(ts[x - a], env).value()
                } else {
                    was[x]
                })
        },
    decreases ts.len() - i,
{
    if i < ts.len() {
        let place = term_op(Op::BvAdd, at, lit_bv(i as int, 32));
        lemma_behind(env, at, a, i as int);
        lemma_small_mod((a + i) as nat, 0x1_0000_0000);
        let contents = c.allocs[id as int].contents;
        let x = ts[i as int];
        let store = Term::of(Node::Store(contents, place, x));
        lemma_denote(Node::Store(contents, place, x), env);
        lemma_denote(Node::Ite(c.condition(), store, contents), env);
        let d = c.stored(id, place, x)->Ok_0.1;
        assert(d.condition() == c.condition());
        law_terms_are_stored_in_a_row(env, d, id, at, a, ts, i + 1);
    }
}

/// A value is stored in an array, behind the index, by its terms in order; what the assignment
/// gives is the array where the value has several terms, else the value.
pub proof fn law_value_is_stored_by_its_terms(
    c: CircState,
    ty: Ty,
    id: AllocId,
    i: Term,
    s: bool,
    w: usize,
    val: CTerm,
)
    ensures
        ({
            let array = value(CTermData::CArray(ty, Some(id)));
            let r = stored(c, array, value(CTermData::CInt(s, w, i)), val);
            match c.terms(val) {
                Err(e) => r == Err::<(CTerm, CircState), CError>(e),
                Ok(ts) => match stored_terms(c, id, i, ts, 0) {
                    Err(e) => r == Err::<(CTerm, CircState), CError>(e),
                    Ok((_, d)) => r == Ok::<(CTerm, CircState), CError>(
                        (
                            if ts.len() > 1 {
                                array
                            } else {
                                val
                            },
                            d,
                        ),
                    ),
                },
            }
        }),
{
}

/// Whether a value of the type is what a function returns before it has returned anything: zero or
/// false in all numbers and truth values, and arrays that are nowhere yet.
pub open spec fn is_blank(env: Env, t: CTerm, ty: Ty) -> bool
    decreases ty,
{
    match ty {
        Ty::Bool => is_scalar(env, t, ty, Value::Bool(false)),
        Ty::Int(_, w) => is_scalar(env, t, ty, Value::Bv(w, 0)),
        Ty::Array(_, _, _) => t.term == CTermData::CArray(ty, None),
        Ty::Ptr(w, _) => t.term matches CTermData::CStackPtr(r, o, None) && r == ty && denote(
            o,
            env,
        ) == Meaning::Scalar(Value::Bv(w, 0)),
        Ty::Struct(_, fs) => t.term matches CTermData::CStruct(r, gs) && r == ty && are_blank(
            env,
            *gs.list,
            *fs.list,
        ),
    }
}

/// Whether fields of the given types are what a function returns before it has returned anything.
pub open spec fn are_blank(env: Env, l: List<Field<CTerm>>, tys: List<Field<Ty>>) -> bool
    decreases tys,
{
    match (l, tys) {
        (List::Nil, List::Nil) => true,
        (List::Cons(g, r), List::Cons(f, q)) => g.name == f.name && is_blank(env, g.value, f.value)
            && are_blank(env, *r, *q),
        _ => false,
    }
}

proof fn lemma_unset_blank(env: Env, ty: Ty)
    ensures
        is_blank(env, unset(ty), ty),
    decreases ty,
{
    match ty {
        Ty::Bool => lemma_denote(Node::Const(Value::Bool(false)), env),
        Ty::Int(_, w) => lemma_zero_wraps(env, w),
        Ty::Ptr(w, _) => lemma_zero_wraps(env, w),
        Ty::Struct(_, fs) => lemma_unset_fields_blank(env, shared(fs.list)),
        _ => {},
    }
}

proof fn lemma_unset_fields_blank(env: Env, l: List<Field<Ty>>)
    ensures
        are_blank(env, unset_fields(l), l),
    decreases l,
{
    match l {
        List::Nil => {},
        List::Cons(f, rest) => {
            lemma_unset_blank(env, f.value);
            lemma_unset_fields_blank(env, shared(rest));
        },
    }
}

/// A function that returns nothing of its own returns zero in all parts of its return type; one
/// without a return type returns nothing.
pub proof fn law_function_starts_with_a_blank_result(
    env: Env,
    s: CircState,
    name: String,
    ret_ty: Option<Ty>,
)
    ensures
        ({
            let t = s.entered_fn(name, ret_ty);
            match (ret_ty, t.top().ret_val) {
                (Some(ty), Some(v)) => is_blank(env, v, ty),
                (None, None) => true,
                _ => false,
            }
        }),
        s.entered_fn(name, ret_ty).top().ret_ty == ret_ty,
        s.entered_fn(name, ret_ty).top().name == name,
{
    if ret_ty is Some {
        lemma_unset_blank(env, ret_ty->0);
    }
}

/// A new region is as long as it is asked for, has 32-bit addresses, elements of the width that it
/// is asked for, and its own number.
pub proof fn law_new_region_has_its_size(s: CircState, size: usize, width: usize)
    requires
        s.allocs.len() <= usize::MAX,
    ensures
        ({
            let (id, t) = s.allocated(size, width);
            &&& id == s.allocs.len()
            &&& t.allocs.len() == s.allocs.len() + 1
            &&& t.allocs.take(s.allocs.len() as int) == s.allocs
            &&& t.allocs[id as int].size == size
            &&& t.allocs[id as int].addr_width == 32
            &&& t.allocs[id as int].val_width == width
            &&& t.allocs[id as int].contents.node() == Node::ZeroArray(size, 32, width)
            &&& t.allocs[id as int].contents.sort() == Sort::Array(32, width)
        }),
{
    lemma_of(Node::ZeroArray(size, 32, width));
    let t = s.allocated(size, width).1;
    assert(t.allocs.take(s.allocs.len() as int) =~= s.allocs);
}

/// A region that is not there can be neither read nor written.
pub proof fn law_region_that_is_not_there_is_refused(
    s: CircState,
    c: Term,
    id: AllocId,
    at: Term,
    val: Term,
)
    ensures
        s.loaded(id, at) is Ok <==> id < s.allocs.len(),
        s.stored_if(c, id, at, val) is Ok <==> id < s.allocs.len(),
        id >= s.allocs.len() ==> s.loaded(id, at) == Err::<Term, CError>(
            CError::Fault(Reason::UnknownAlloc(Some(id))),
        ) && s.stored(id, at, val) == Err::<((), CircState), CError>(
            CError::Fault(Reason::UnknownAlloc(Some(id))),
        ),
{
}

/// The sum of the bits of fields.
pub open spec fn sum_of_bits(s: Seq<Field<Ty>>) -> nat
    decreases s.len(),
{
    if s.len() == 0 {
        0
    } else {
        sum_of_bits(s.drop_last()) + s.last().value.bits()
    }
}

proof fn lemma_sum_of_bits(s: Seq<Field<Ty>>)
    requires
        s.len() > 0,
    ensures
        sum_of_bits(s) == s[0].value.bits() + sum_of_bits(s.skip(1)),
    decreases s.len(),
{
    if s.len() > 1 {
        lemma_sum_of_bits(s.drop_last());
        assert(s.drop_last().skip(1) =~= s.skip(1).drop_last());
        assert(s.skip(1).last() == s.last());
    } else {
        assert(sum_of_bits(s.drop_last()) == 0);
        assert(sum_of_bits(s.skip(1)) == 0);
    }
}

/// A structure takes as many bits as its fields together.
pub proof fn law_structure_takes_the_bits_of_its_fields(l: List<Field<Ty>>)
    ensures
        fields_bits(l) == sum_of_bits(l.seq()),
    decreases l,
{
    match l {
        List::Nil => {},
        List::Cons(f, rest) => {
            law_structure_takes_the_bits_of_its_fields(shared(rest));
            lemma_sum_of_bits(l.seq());
            assert(l.seq().skip(1) =~= shared(rest).seq());
        },
    }
}

/// Through a place in an array, a value is stored by its terms behind the index and the offset of the
/// place together.
pub proof fn law_value_is_stored_behind_a_place(
    env: Env,
    c: CircState,
    ty: Ty,
    o: Term,
    id: AllocId,
    i: Term,
    x: u64,
    y: u64,
    val: CTerm,
)
    requires
        denote(o, env) == Meaning::Scalar(Value::Bv(32, x)),
        denote(i, env) == Meaning::Scalar(Value::Bv(32, y)),
    ensures
        exists|at: Term|
            #![trigger denote(at, env)]
            {
                let place = value(CTermData::CStackPtr(ty, o, Some(id)));
                let r = stored(c, place, value_i32(i), val);
                &&& denote(at, env) == Meaning::Scalar(
                    Value::Bv(32, ((x + y) % 0x1_0000_0000) as u64),
                )
                &&& match c.terms(val) {
                    Err(e) => r == Err::<(CTerm, CircState), CError>(e),
                    Ok(ts) => match stored_terms(c, id, at, ts, 0) {
                        Err(e) => r == Err::<(CTerm, CircState), CError>(e),
                        Ok((_, d)) => r == Ok::<(CTerm, CircState), CError>(
                            (
                                if ts.len() > 1 {
                                    value(CTermData::CArray(ty, Some(id)))
                                } else {
                                    val
                                },
                                d,
                            ),
                        ),
                    },
                }
            },
{
    let at = term_op(Op::BvAdd, i, o);
    lemma2_to64();
    lemma_denote(Node::Op(Op::BvAdd, i, o), env);
    lemma_wrap(x + y, 32);
    assert(denote(at, env) == Meaning::Scalar(
        Value::Bv(32, ((x + y) % 0x1_0000_0000) as u64),
    ));
}

} // verus!
