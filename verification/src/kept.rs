//! What no part of a translation changes: the shape of the state, and, where the current statement
//! does not run, the meaning of every variable and every memory region.
use std::rc::Rc;

use vstd::prelude::*;

use crate::circ::find;
use crate::circ::find_scopes;
use crate::circ::merge;
use crate::circ::merge_fields;
use crate::circ::set_scopes;
use crate::circ::set_var;
use crate::circ::Alloc;
use crate::circ::CircState;
use crate::circ::Frame;
use crate::circ::Var;
use crate::cterm::AllocId;
use crate::cterm::CTerm;
use crate::cterm::CTermData;
use crate::error::CError;
use crate::error::Reason;
use crate::ir::denote;
use crate::ir::lemma_denote;
use crate::ir::term_not;
use crate::ir::truth_of;
use crate::ir::Node;
use crate::ir::Op;
use crate::ir::Term;
use crate::ir::Value;
use crate::list::shared;
use crate::list::List;
use crate::translate::GenState;
use crate::translate::Step;
use crate::types::Field;
use crate::types::Ty;

verus! {

/// The values of the inputs.
pub type Env = spec_fn(usize) -> Value;

/// Whether a term counts as true on the given inputs.
pub open spec fn is_true(t: Term, env: Env) -> bool {
    truth_of(denote(t, env).value())
}

/// Whether a term counts as false on the given inputs.
pub open spec fn is_false(t: Term, env: Env) -> bool {
    !is_true(t, env)
}

/// Whether, on the given inputs, the current statement does not run.
pub open spec fn idle(s: CircState, env: Env) -> bool {
    is_false(s.condition(), env)
}

/// Whether two values mean the same on the given inputs. An array without a region may have got
/// one, and a signed integer may have become unsigned.
pub open spec fn same_value(env: Env, a: CTerm, b: CTerm) -> bool
    decreases a,
{
    match (a.term, b.term) {
        (CTermData::CBool(x), CTermData::CBool(y)) => denote(x, env) == denote(y, env),
        (CTermData::CInt(s, w, x), CTermData::CInt(r, v, y)) => (r ==> s) && w == v && denote(
            x,
            env,
        ) == denote(y, env),
        (CTermData::CArray(_, i), CTermData::CArray(_, j)) => i is Some ==> i == j,
        (CTermData::CStackPtr(_, x, i), CTermData::CStackPtr(_, y, j)) => denote(x, env) == denote(
            y,
            env,
        ) && (i is Some ==> i == j),
        (CTermData::CStruct(_, fs), CTermData::CStruct(_, gs)) => same_fields(
            env,
            *fs.list,
            *gs.list,
        ),
        _ => false,
    }
}

/// Whether the fields mean the same, one by one.
pub open spec fn same_fields(env: Env, l: List<Field<CTerm>>, m: List<Field<CTerm>>) -> bool
    decreases l,
{
    match (l, m) {
        (List::Nil, List::Nil) => true,
        (List::Cons(f, r), List::Cons(g, s)) => same_value(env, f.value, g.value) && same_fields(
            env,
            *r,
            *s,
        ),
        _ => false,
    }
}

/// Whether the variables are the same, one by one, and, where `quiet`, mean the same.
pub open spec fn same_vars(env: Env, quiet: bool, l: List<Var>, m: List<Var>) -> bool
    decreases l,
{
    match (l, m) {
        (List::Nil, List::Nil) => true,
        (List::Cons(a, r), List::Cons(b, s)) => a.name == b.name && a.ty == b.ty && (quiet
            ==> same_value(env, a.val, b.val)) && same_vars(env, quiet, *r, *s),
        _ => false,
    }
}

/// The same, where new variables may have been declared in front.
pub open spec fn grown_vars(env: Env, quiet: bool, l: List<Var>, m: List<Var>) -> bool
    decreases m,
{
    same_vars(env, quiet, l, m) || match m {
        List::Nil => false,
        List::Cons(_, s) => grown_vars(env, quiet, l, *s),
    }
}

/// Whether the scopes hold the same variables.
pub open spec fn same_scopes(
    env: Env,
    quiet: bool,
    l: List<Rc<List<Var>>>,
    m: List<Rc<List<Var>>>,
) -> bool
    decreases l,
{
    match (l, m) {
        (List::Nil, List::Nil) => true,
        (List::Cons(a, r), List::Cons(b, s)) => same_vars(env, quiet, *a, *b) && same_scopes(
            env,
            quiet,
            *r,
            *s,
        ),
        _ => false,
    }
}

/// The same, where new variables may have been declared in the innermost scope.
pub open spec fn grown_scopes(
    env: Env,
    quiet: bool,
    l: List<Rc<List<Var>>>,
    m: List<Rc<List<Var>>>,
) -> bool {
    match (l, m) {
        (List::Nil, List::Nil) => true,
        (List::Cons(a, r), List::Cons(b, s)) => grown_vars(env, quiet, *a, *b) && same_scopes(
            env,
            quiet,
            *r,
            *s,
        ),
        _ => false,
    }
}

/// Whether a function that is being translated is the same: as deep in branches and scopes, and,
/// where `quiet`, with variables and a return value that mean the same. A function that has
/// returned stays so.
pub open spec fn frame_kept(env: Env, quiet: bool, f: Frame, g: Frame) -> bool {
    &&& f.name == g.name
    &&& f.ret_ty == g.ret_ty
    &&& f.entry == g.entry
    &&& f.guards == g.guards
    &&& is_true(f.returned, env) ==> is_true(g.returned, env)
    &&& match (f.ret_val, g.ret_val) {
        (Some(a), Some(b)) => quiet ==> same_value(env, a, b),
        (None, None) => true,
        _ => false,
    }
    &&& grown_scopes(env, quiet, *f.scopes, *g.scopes)
}

/// Whether a memory region is the same, and, where `quiet`, has the same contents.
pub open spec fn alloc_kept(env: Env, quiet: bool, a: Alloc, b: Alloc) -> bool {
    &&& a.size == b.size
    &&& a.addr_width == b.addr_width
    &&& a.val_width == b.val_width
    &&& quiet ==> denote(a.contents, env) == denote(b.contents, env)
}

/// Whether `t` holds what `s` holds: the same functions are being translated, of which all but the
/// innermost are untouched; variables and memory regions are the same, but for new ones; inputs,
/// outputs and parties are the same. Where `quiet`, nothing that `s` holds means anything else.
pub open spec fn circ_kept(env: Env, quiet: bool, s: CircState, t: CircState) -> bool {
    &&& s.frames.len() == t.frames.len()
    &&& s.frames.len() > 0 ==> s.frames.drop_last() == t.frames.drop_last() && frame_kept(
        env,
        quiet,
        s.top(),
        t.top(),
    ) && same_vars(env, quiet, s.globals, t.globals)
    &&& s.frames.len() == 0 ==> grown_vars(env, quiet, s.globals, t.globals)
    &&& s.allocs.len() <= t.allocs.len()
    &&& forall|i: int|
        0 <= i < s.allocs.len() ==> alloc_kept(env, quiet, #[trigger] s.allocs[i], t.allocs[i])
    &&& s.inputs == t.inputs
    &&& s.outputs == t.outputs
    &&& s.parties == t.parties
}

/// Whether `t` holds what `s` holds, and, where the current statement does not run, nothing that
/// `s` holds means anything else.
pub open spec fn steady(env: Env, s: CircState, t: CircState) -> bool {
    circ_kept(env, idle(s, env), s, t)
}

/// Whether an operation leaves a state that is steady.
pub open spec fn stays<T>(env: Env, s: CircState, r: Result<(T, CircState), CError>) -> bool {
    r matches Ok((_, t)) ==> steady(env, s, t)
}

/// Whether `b` has all entries of `a`.
pub open spec fn grown<V>(a: Map<Seq<char>, V>, b: Map<Seq<char>, V>) -> bool {
    forall|k: Seq<char>| #[trigger]
        a.dom().contains(k) ==> b.dom().contains(k) && b[k] == a[k]
}

/// Whether `b` is a state to which a part of a translation can lead from `a`: mode and functions
/// are the same, types are added only, and the circuit is steady.
#[verifier::opaque]
pub open spec fn kept(env: Env, a: GenState, b: GenState) -> bool {
    &&& a.mode == b.mode
    &&& a.functions == b.functions
    &&& grown(a.typedefs, b.typedefs)
    &&& grown(a.structs, b.structs)
    &&& steady(env, a.circ, b.circ)
}

/// Whether the state behind is kept.
pub open spec fn held<T>(env: Env, st: GenState, r: Step<T>) -> bool {
    r matches Ok((_, s)) ==> kept(env, st, s)
}

/// Whether `r` is the error that calls are nested too deeply.
pub open spec fn too_deep<T>(r: Step<T>) -> bool {
    r == Err::<(T, GenState), CError>(CError::Fault(Reason::CallDepth))
}

/// Whether the state behind `r` is kept, and `deeper`, the same where one more nested call is
/// allowed, is no other unless `r` stopped for want of it.
pub open spec fn sound<T>(env: Env, st: GenState, r: Step<T>, deeper: Step<T>) -> bool {
    held(env, st, r) && (too_deep(r) || deeper == r)
}

// ---------------------------------------------------------------------------------------------
// The relations are reflexive and transitive.
// ---------------------------------------------------------------------------------------------

proof fn lemma_value_refl(env: Env, a: CTerm)
    ensures
        same_value(env, a, a),
    decreases a,
{
    match a.term {
        CTermData::CStruct(_, fs) => lemma_fields_refl(env, shared(fs.list)),
        _ => {},
    }
}

proof fn lemma_fields_refl(env: Env, l: List<Field<CTerm>>)
    ensures
        same_fields(env, l, l),
    decreases l,
{
    match l {
        List::Nil => {},
        List::Cons(f, r) => {
            lemma_value_refl(env, f.value);
            lemma_fields_refl(env, shared(r));
        },
    }
}

proof fn lemma_value_trans(env: Env, a: CTerm, b: CTerm, c: CTerm)
    requires
        same_value(env, a, b),
        same_value(env, b, c),
    ensures
        same_value(env, a, c),
    decreases a,
{
    match (a.term, b.term, c.term) {
        (
            CTermData::CStruct(_, fs),
            CTermData::CStruct(_, gs),
            CTermData::CStruct(_, hs),
        ) => lemma_fields_trans(env, shared(fs.list), shared(gs.list), shared(hs.list)),
        _ => {},
    }
}

proof fn lemma_fields_trans(
    env: Env,
    l: List<Field<CTerm>>,
    m: List<Field<CTerm>>,
    n: List<Field<CTerm>>,
)
    requires
        same_fields(env, l, m),
        same_fields(env, m, n),
    ensures
        same_fields(env, l, n),
    decreases l,
{
    match (l, m, n) {
        (List::Cons(f, r), List::Cons(g, s), List::Cons(h, t)) => {
            lemma_value_trans(env, f.value, g.value, h.value);
            lemma_fields_trans(env, shared(r), shared(s), shared(t));
        },
        _ => {},
    }
}

proof fn lemma_vars_refl(env: Env, quiet: bool, l: List<Var>)
    ensures
        same_vars(env, quiet, l, l),
        grown_vars(env, quiet, l, l),
    decreases l,
{
    match l {
        List::Nil => {},
        List::Cons(v, r) => {
            lemma_value_refl(env, v.val);
            lemma_vars_refl(env, quiet, shared(r));
        },
    }
}

proof fn lemma_vars_trans(env: Env, quiet: bool, l: List<Var>, m: List<Var>, n: List<Var>)
    requires
        same_vars(env, quiet, l, m),
        same_vars(env, quiet, m, n),
    ensures
        same_vars(env, quiet, l, n),
    decreases l,
{
    match (l, m, n) {
        (List::Cons(a, r), List::Cons(b, s), List::Cons(c, t)) => {
            if quiet {
                lemma_value_trans(env, a.val, b.val, c.val);
            }
            lemma_vars_trans(env, quiet, shared(r), shared(s), shared(t));
        },
        _ => {},
    }
}

proof fn lemma_grown_then_same(env: Env, quiet: bool, l: List<Var>, m: List<Var>, n: List<Var>)
    requires
        grown_vars(env, quiet, l, m),
        same_vars(env, quiet, m, n),
    ensures
        grown_vars(env, quiet, l, n),
    decreases m,
{
    if same_vars(env, quiet, l, m) {
        lemma_vars_trans(env, quiet, l, m, n);
    } else {
        match (m, n) {
            (List::Cons(_, s), List::Cons(_, t)) => lemma_grown_then_same(
                env,
                quiet,
                l,
                shared(s),
                shared(t),
            ),
            _ => {},
        }
    }
}

proof fn lemma_grown_trans(env: Env, quiet: bool, l: List<Var>, m: List<Var>, n: List<Var>)
    requires
        grown_vars(env, quiet, l, m),
        grown_vars(env, quiet, m, n),
    ensures
        grown_vars(env, quiet, l, n),
    decreases n,
{
    if same_vars(env, quiet, m, n) {
        lemma_grown_then_same(env, quiet, l, m, n);
    } else {
        match n {
            List::Nil => {},
            List::Cons(_, t) => lemma_grown_trans(env, quiet, l, m, shared(t)),
        }
    }
}

proof fn lemma_scopes_refl(env: Env, quiet: bool, l: List<Rc<List<Var>>>)
    ensures
        same_scopes(env, quiet, l, l),
        grown_scopes(env, quiet, l, l),
    decreases l,
{
    match l {
        List::Nil => {},
        List::Cons(s, r) => {
            lemma_vars_refl(env, quiet, shared(s));
            lemma_scopes_refl(env, quiet, shared(r));
        },
    }
}

proof fn lemma_scopes_trans(
    env: Env,
    quiet: bool,
    l: List<Rc<List<Var>>>,
    m: List<Rc<List<Var>>>,
    n: List<Rc<List<Var>>>,
)
    requires
        same_scopes(env, quiet, l, m),
        same_scopes(env, quiet, m, n),
    ensures
        same_scopes(env, quiet, l, n),
    decreases l,
{
    match (l, m, n) {
        (List::Cons(a, r), List::Cons(b, s), List::Cons(c, t)) => {
            lemma_vars_trans(env, quiet, shared(a), shared(b), shared(c));
            lemma_scopes_trans(env, quiet, shared(r), shared(s), shared(t));
        },
        _ => {},
    }
}

proof fn lemma_vars_weaken(env: Env, l: List<Var>, m: List<Var>)
    requires
        same_vars(env, true, l, m),
    ensures
        same_vars(env, false, l, m),
    decreases l,
{
    match (l, m) {
        (List::Cons(_, r), List::Cons(_, s)) => lemma_vars_weaken(env, shared(r), shared(s)),
        _ => {},
    }
}

proof fn lemma_grown_weaken(env: Env, l: List<Var>, m: List<Var>)
    requires
        grown_vars(env, true, l, m),
    ensures
        grown_vars(env, false, l, m),
    decreases m,
{
    if same_vars(env, true, l, m) {
        lemma_vars_weaken(env, l, m);
    } else {
        match m {
            List::Nil => {},
            List::Cons(_, s) => lemma_grown_weaken(env, l, shared(s)),
        }
    }
}

proof fn lemma_scopes_weaken(env: Env, l: List<Rc<List<Var>>>, m: List<Rc<List<Var>>>)
    requires
        same_scopes(env, true, l, m),
    ensures
        same_scopes(env, false, l, m),
    decreases l,
{
    match (l, m) {
        (List::Cons(a, r), List::Cons(b, s)) => {
            lemma_vars_weaken(env, shared(a), shared(b));
            lemma_scopes_weaken(env, shared(r), shared(s));
        },
        _ => {},
    }
}

proof fn lemma_frame_refl(env: Env, quiet: bool, f: Frame)
    ensures
        frame_kept(env, quiet, f, f),
{
    if f.ret_val is Some {
        lemma_value_refl(env, f.ret_val->0);
    }
    lemma_scopes_refl(env, quiet, shared(f.scopes));
}

proof fn lemma_grown_scopes_trans(
    env: Env,
    quiet: bool,
    l: List<Rc<List<Var>>>,
    m: List<Rc<List<Var>>>,
    n: List<Rc<List<Var>>>,
)
    requires
        grown_scopes(env, quiet, l, m),
        grown_scopes(env, quiet, m, n),
    ensures
        grown_scopes(env, quiet, l, n),
{
    match (l, m, n) {
        (List::Cons(a, r), List::Cons(b, s), List::Cons(c, t)) => {
            lemma_grown_trans(env, quiet, shared(a), shared(b), shared(c));
            lemma_scopes_trans(env, quiet, shared(r), shared(s), shared(t));
        },
        _ => {},
    }
}

proof fn lemma_frame_trans(env: Env, quiet: bool, f: Frame, g: Frame, h: Frame)
    requires
        frame_kept(env, quiet, f, g),
        frame_kept(env, quiet, g, h),
    ensures
        frame_kept(env, quiet, f, h),
{
    lemma_grown_scopes_trans(env, quiet, shared(f.scopes), shared(g.scopes), shared(h.scopes));
    match (f.ret_val, g.ret_val, h.ret_val) {
        (Some(a), Some(b), Some(c)) => {
            if quiet {
                lemma_value_trans(env, a, b, c);
            }
        },
        _ => {},
    }
}

/// A state holds what it holds.
pub(crate) proof fn lemma_circ_refl(env: Env, quiet: bool, s: CircState)
    ensures
        circ_kept(env, quiet, s, s),
{
    if s.frames.len() > 0 {
        lemma_frame_refl(env, quiet, s.top());
    }
    lemma_vars_refl(env, quiet, s.globals);
}

/// What is kept twice is kept.
pub(crate) proof fn lemma_circ_trans(
    env: Env,
    quiet: bool,
    s: CircState,
    t: CircState,
    u: CircState,
)
    requires
        circ_kept(env, quiet, s, t),
        circ_kept(env, quiet, t, u),
    ensures
        circ_kept(env, quiet, s, u),
{
    if s.frames.len() > 0 {
        lemma_frame_trans(env, quiet, s.top(), t.top(), u.top());
        lemma_vars_trans(env, quiet, s.globals, t.globals, u.globals);
    } else {
        lemma_grown_trans(env, quiet, s.globals, t.globals, u.globals);
    }
    assert forall|i: int| 0 <= i < s.allocs.len() implies alloc_kept(
        env,
        quiet,
        #[trigger] s.allocs[i],
        u.allocs[i],
    ) by {
        assert(alloc_kept(env, quiet, s.allocs[i], t.allocs[i]));
        assert(alloc_kept(env, quiet, t.allocs[i], u.allocs[i]));
    }
}

/// What means the same is the same.
pub(crate) proof fn lemma_circ_weaken(env: Env, quiet: bool, s: CircState, t: CircState)
    requires
        circ_kept(env, quiet, s, t),
    ensures
        circ_kept(env, false, s, t),
{
    if quiet {
        if s.frames.len() > 0 {
            match (shared(s.top().scopes), shared(t.top().scopes)) {
                (List::Cons(a, r), List::Cons(b, u)) => {
                    lemma_grown_weaken(env, shared(a), shared(b));
                    lemma_scopes_weaken(env, shared(r), shared(u));
                },
                _ => {},
            }
            lemma_vars_weaken(env, s.globals, t.globals);
        } else {
            lemma_grown_weaken(env, s.globals, t.globals);
        }
        assert forall|i: int| 0 <= i < s.allocs.len() implies alloc_kept(
            env,
            false,
            #[trigger] s.allocs[i],
            t.allocs[i],
        ) by {
            assert(alloc_kept(env, quiet, s.allocs[i], t.allocs[i]));
        }
    }
}

/// A statement does not run where an enclosing branch is not taken or the function has returned.
pub(crate) proof fn lemma_idle(s: CircState, env: Env)
    ensures
        idle(s, env) <==> s.frames.len() > 0 && (is_false(s.guard(), env) || is_true(
            s.top().returned,
            env,
        )),
{
    lemma_denote(Node::Const(Value::Bool(true)), env);
    if s.frames.len() > 0 {
        lemma_denote(Node::Not(s.top().returned), env);
        lemma_denote(Node::Op(Op::And, s.guard(), term_not(s.top().returned)), env);
    }
}

/// A statement that does not run is followed by one that does not run.
pub(crate) proof fn lemma_idle_kept(env: Env, quiet: bool, s: CircState, t: CircState)
    requires
        circ_kept(env, quiet, s, t),
        idle(s, env),
    ensures
        idle(t, env),
{
    lemma_idle(s, env);
    lemma_idle(t, env);
}

/// A state is steady.
pub(crate) proof fn lemma_steady_refl(env: Env, s: CircState)
    ensures
        steady(env, s, s),
{
    lemma_circ_refl(env, idle(s, env), s);
}

/// What is steady twice is steady.
pub(crate) proof fn lemma_steady_trans(env: Env, s: CircState, t: CircState, u: CircState)
    requires
        steady(env, s, t),
        steady(env, t, u),
    ensures
        steady(env, s, u),
{
    if idle(s, env) {
        lemma_idle_kept(env, true, s, t);
        lemma_circ_trans(env, true, s, t, u);
    } else {
        lemma_circ_weaken(env, idle(t, env), t, u);
        lemma_circ_trans(env, false, s, t, u);
    }
}

// ---------------------------------------------------------------------------------------------
// The operations on the circuit are steady.
// ---------------------------------------------------------------------------------------------

/// Where the condition is false, a merged value means the second; where it is true, the first.
pub(crate) proof fn lemma_merge(env: Env, c: Term, t: CTerm, f: CTerm)
    ensures
        is_false(c, env) ==> (merge(c, t, f) matches Ok(m) ==> same_value(env, f, m)),
        is_true(c, env) ==> (merge(c, t, f) matches Ok(m) ==> same_value(env, t, m)),
    decreases t,
{
    match (t.term, f.term) {
        (CTermData::CBool(a), CTermData::CBool(b)) => lemma_denote(Node::Ite(c, a, b), env),
        (CTermData::CInt(_, _, a), CTermData::CInt(_, _, b)) => lemma_denote(
            Node::Ite(c, a, b),
            env,
        ),
        (CTermData::CStackPtr(_, a, _), CTermData::CStackPtr(_, b, _)) => lemma_denote(
            Node::Ite(c, a, b),
            env,
        ),
        (CTermData::CStruct(_, fs), CTermData::CStruct(_, gs)) => lemma_merge_fields(
            env,
            c,
            shared(fs.list),
            shared(gs.list),
        ),
        _ => {},
    }
}

proof fn lemma_merge_fields(env: Env, c: Term, t: List<Field<CTerm>>, f: List<Field<CTerm>>)
    ensures
        is_false(c, env) ==> (merge_fields(c, t, f) matches Some(Ok(m)) ==> same_fields(env, f, m)),
        is_true(c, env) ==> (merge_fields(c, t, f) matches Some(Ok(m)) ==> same_fields(env, t, m)),
    decreases t,
{
    match (t, f) {
        (List::Cons(a, r), List::Cons(b, s)) => {
            lemma_merge(env, c, a.value, b.value);
            lemma_merge_fields(env, c, shared(r), shared(s));
        },
        _ => {},
    }
}

/// The state with a memory region changed where the current statement runs.
pub(crate) proof fn lemma_stored(env: Env, s: CircState, id: AllocId, at: Term, val: Term)
    ensures
        stays(env, s, s.stored(id, at, val)),
{
    if id < s.allocs.len() {
        let q = idle(s, env);
        let old_contents = s.allocs[id as int].contents;
        let store = Term::of(Node::Store(old_contents, at, val));
        lemma_denote(Node::Ite(s.condition(), store, old_contents), env);
        lemma_circ_refl(env, q, s);
        let t = s.stored(id, at, val)->Ok_0.1;
        assert(t.frames == s.frames);
        assert forall|i: int| 0 <= i < s.allocs.len() implies alloc_kept(
            env,
            q,
            #[trigger] s.allocs[i],
            t.allocs[i],
        ) by {}
    }
}

/// The state with a new memory region.
pub(crate) proof fn lemma_allocated(env: Env, s: CircState, size: usize, val_width: usize)
    ensures
        steady(env, s, s.allocated(size, val_width).1),
{
    lemma_circ_refl(env, idle(s, env), s);
}

/// The zero value of a type.
pub(crate) proof fn lemma_zero(env: Env, s: CircState, ty: Ty)
    ensures
        stays(env, s, s.zero(ty)),
    decreases ty,
{
    lemma_steady_refl(env, s);
    match ty {
        Ty::Array(n, _, t) => lemma_allocated(env, s, n, shared(t).bits() as usize),
        Ty::Struct(_, fs) => lemma_zero_fields(env, s, shared(fs.list)),
        _ => {},
    }
}

proof fn lemma_zero_fields(env: Env, s: CircState, l: List<Field<Ty>>)
    ensures
        stays(env, s, s.zero_fields(l)),
    decreases l,
{
    lemma_steady_refl(env, s);
    match l {
        List::Nil => {},
        List::Cons(f, rest) => {
            lemma_zero(env, s, f.value);
            match s.zero(f.value) {
                Err(_) => {},
                Ok((_, t)) => {
                    lemma_zero_fields(env, t, shared(rest));
                    match t.zero_fields(shared(rest)) {
                        Err(_) => {},
                        Ok((_, u)) => lemma_steady_trans(env, s, t, u),
                    }
                },
            }
        },
    }
}

proof fn lemma_set_var(env: Env, quiet: bool, l: List<Var>, name: Seq<char>, val: CTerm)
    requires
        quiet ==> (find(l, name) matches Some(v) ==> same_value(env, v.val, val)),
    ensures
        same_vars(env, quiet, l, set_var(l, name, val)),
    decreases l,
{
    match l {
        List::Nil => {},
        List::Cons(v, rest) => {
            lemma_vars_refl(env, quiet, shared(rest));
            lemma_value_refl(env, v.val);
            if v.name@ != name {
                lemma_set_var(env, quiet, shared(rest), name, val);
            }
        },
    }
}

proof fn lemma_set_scopes(
    env: Env,
    quiet: bool,
    l: List<Rc<List<Var>>>,
    name: Seq<char>,
    val: CTerm,
)
    requires
        quiet ==> (find_scopes(l, name) matches Some(v) ==> same_value(env, v.val, val)),
    ensures
        same_scopes(env, quiet, l, set_scopes(l, name, val)),
        grown_scopes(env, quiet, l, set_scopes(l, name, val)),
    decreases l,
{
    match l {
        List::Nil => {},
        List::Cons(s, rest) => {
            lemma_scopes_refl(env, quiet, shared(rest));
            lemma_vars_refl(env, quiet, shared(s));
            if find(shared(s), name) is Some {
                lemma_set_var(env, quiet, shared(s), name, val);
            } else {
                lemma_set_scopes(env, quiet, shared(rest), name, val);
            }
        },
    }
}

/// Assignment to a variable.
pub(crate) proof fn lemma_assigned(env: Env, s: CircState, name: String, val: CTerm)
    ensures
        stays(env, s, s.assigned(name, val)),
{
    match s.lookup(name@) {
        None => {},
        Some(v) => {
            lemma_merge(env, s.condition(), val, v.val);
            match merge(s.condition(), val, v.val) {
                Err(_) => {},
                Ok(m) => {
                    let q = idle(s, env);
                    let t = s.set(name@, m);
                    lemma_circ_refl(env, q, s);
                    if s.frames.len() > 0 && find_scopes(shared(s.top().scopes), name@) is Some {
                        lemma_set_scopes(env, q, shared(s.top().scopes), name@, m);
                        assert(t.frames.drop_last() == s.frames.drop_last());
                    } else {
                        lemma_set_var(env, q, s.globals, name@, m);
                    }
                },
            }
        },
    }
}

/// Declaration of a variable.
pub(crate) proof fn lemma_declared(env: Env, s: CircState, name: String, ty: Ty, val: CTerm)
    ensures
        stays(env, s, s.declared(name, ty, val)),
{
    match s.declared(name, ty, val) {
        Err(_) => {},
        Ok((_, t)) => {
            let q = idle(s, env);
            lemma_circ_refl(env, q, s);
            lemma_vars_refl(env, q, s.here()->0);
            if s.frames.len() > 0 {
                assert(t.frames.drop_last() == s.frames.drop_last());
                lemma_scopes_refl(env, q, shared(s.top().scopes));
            }
        },
    }
}

/// A return statement.
pub(crate) proof fn lemma_returned(env: Env, s: CircState, val: Option<CTerm>)
    ensures
        stays(env, s, s.returned(val)),
{
    match s.returned(val) {
        Err(_) => {},
        Ok((_, t)) => {
            let q = idle(s, env);
            lemma_circ_refl(env, q, s);
            lemma_denote(Node::Op(Op::Or, s.top().returned, s.condition()), env);
            assert(t.frames.drop_last() == s.frames.drop_last());
            if val is Some && s.top().ret_val is Some {
                lemma_merge(env, s.condition(), val->0, s.top().ret_val->0);
            }
        },
    }
}

/// What happens within a scope.
pub(crate) proof fn lemma_scope(env: Env, s: CircState, t: CircState)
    requires
        s.entered_scope() is Ok,
        steady(env, s.entered_scope()->Ok_0.1, t),
    ensures
        stays(env, s, t.exited_scope()),
{
    let s1 = s.entered_scope()->Ok_0.1;
    assert(s1.frames.drop_last() == s.frames.drop_last());
    lemma_idle(s, env);
    lemma_idle(s1, env);
    let u = t.exited_scope()->Ok_0.1;
    if t.exited_scope() is Ok {
        assert(u.frames.drop_last() == t.frames.drop_last());
        match (shared(s1.top().scopes), shared(t.top().scopes)) {
            (List::Cons(_, r), List::Cons(_, v)) => lemma_same_grown_scopes(
                env,
                idle(s, env),
                shared(r),
                shared(v),
            ),
            _ => {},
        }
    }
}

proof fn lemma_same_grown_scopes(
    env: Env,
    quiet: bool,
    l: List<Rc<List<Var>>>,
    m: List<Rc<List<Var>>>,
)
    requires
        same_scopes(env, quiet, l, m),
    ensures
        grown_scopes(env, quiet, l, m),
{
}

/// What happens within a branch. Where the branch is not taken, nothing changes.
pub(crate) proof fn lemma_branch(env: Env, s: CircState, c: Term, t: CircState)
    requires
        s.entered_condition(c) is Ok,
        steady(env, s.entered_condition(c)->Ok_0.1, t),
    ensures
        stays(env, s, t.exited_condition()),
        is_false(c, env) ==> (t.exited_condition() matches Ok((_, u)) ==> circ_kept(
            env,
            true,
            s,
            u,
        )),
{
    let s1 = s.entered_condition(c)->Ok_0.1;
    assert(s1.frames.drop_last() == s.frames.drop_last());
    lemma_idle(s, env);
    lemma_idle(s1, env);
    lemma_denote(Node::Op(Op::And, s.guard(), c), env);
    if t.exited_condition() is Ok {
        let u = t.exited_condition()->Ok_0.1;
        assert(u.frames.drop_last() == t.frames.drop_last());
        lemma_circ_weaken(env, idle(s1, env), s1, t);
        assert(circ_kept(env, idle(s1, env), s, u));
        assert(circ_kept(env, false, s, u));
    }
}

/// What happens within a call.
pub(crate) proof fn lemma_call(
    env: Env,
    s: CircState,
    name: String,
    ret_ty: Option<Ty>,
    t: CircState,
)
    requires
        steady(env, s.entered_fn(name, ret_ty), t),
    ensures
        stays(env, s, t.exited_fn()),
{
    let s1 = s.entered_fn(name, ret_ty);
    lemma_idle(s1, env);
    lemma_denote(Node::Const(Value::Bool(false)), env);
    lemma_denote(Node::Const(Value::Bool(true)), env);
    assert(s1.frames.drop_last() == s.frames);
    let u = t.exited_fn()->Ok_0.1;
    lemma_circ_weaken(env, idle(s1, env), s1, t);
    lemma_circ_refl(env, true, s);
    lemma_circ_refl(env, false, s);
    assert(u.frames == s.frames);
}

/// A state is kept.
pub broadcast proof fn lemma_kept_refl(env: Env, a: GenState)
    ensures
        #[trigger] kept(env, a, a),
{
    reveal(kept);
    lemma_steady_refl(env, a.circ);
}

/// What is kept twice is kept.
pub broadcast proof fn lemma_kept_trans(env: Env, a: GenState, b: GenState, c: GenState)
    requires
        #[trigger] kept(env, a, b),
        #[trigger] kept(env, b, c),
    ensures
        kept(env, a, c),
{
    reveal(kept);
    lemma_steady_trans(env, a.circ, b.circ, c.circ);
}

/// An operation on the circuit changes nothing else.
pub(crate) proof fn lemma_lift<T>(env: Env, st: GenState, r: Result<(T, CircState), CError>)
    requires
        stays(env, st.circ, r),
    ensures
        held(env, st, st.lift(r)),
{
    reveal(kept);
}

} // verus!
