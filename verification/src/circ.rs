//! The circuit under construction: variables and their scopes, the condition under which the
//! current statement runs, memory, inputs and outputs.
use std::rc::Rc;

use vstd::prelude::*;

use crate::cterm::cterm;
use crate::cterm::value;
use crate::cterm::AllocId;
use crate::cterm::CTerm;
use crate::cterm::CTermData;
use crate::error::CError;
use crate::error::Reason;
use crate::ir::bool_lit;
use crate::ir::bv_lit;
use crate::ir::lit_bool;
use crate::ir::lit_bv;
use crate::ir::mk_ite;
use crate::ir::mk_not;
use crate::ir::mk_op;
use crate::ir::term_ite;
use crate::ir::term_not;
use crate::ir::term_op;
use crate::ir::Node;
use crate::ir::Op;
use crate::ir::Sort;
use crate::ir::Term;
use crate::list::List;
use crate::types::Field;
use crate::types::FieldList;
use crate::types::Ty;

verus! {

/// The number of a party of a computation.
pub type PartyId = u8;

/// The width of memory addresses.
pub const ADDR_WIDTH: usize = 32;

/// A variable: its name, its declared type and its current value.
#[derive(Debug, PartialEq, Eq)]
pub struct Var {
    pub name: String,
    pub ty: Ty,
    pub val: CTerm,
}

/// The variables of a scope, the newest first.
pub type Scope = List<Var>;

/// The scopes of a function, the innermost first.
pub type Scopes = List<Rc<List<Var>>>;

/// A function that is being translated.
#[derive(Debug, PartialEq, Eq)]
pub struct Frame {
    pub name: String,
    pub ret_ty: Option<Ty>,
    /// What the function returns, so far.
    pub ret_val: Option<CTerm>,
    /// The condition under which the function is called.
    pub entry: Term,
    /// The condition under which the function has returned.
    pub returned: Term,
    pub scopes: Rc<List<Rc<List<Var>>>>,
    /// The conditions of the enclosing branches, the innermost first. Each includes the outer ones.
    pub guards: Rc<List<Term>>,
}

/// A region of memory.
#[derive(Debug, PartialEq, Eq)]
pub struct Alloc {
    pub size: usize,
    pub addr_width: usize,
    pub val_width: usize,
    pub contents: Term,
}

/// A step from a value to one of its parts.
#[derive(Debug, PartialEq, Eq)]
pub enum PathStep {
    Index(usize),
    Field(String),
}

/// An input of the circuit: the variable it belongs to, the way to it from there (the last step
/// first), its sort and the party that knows it (none where it is public).
#[derive(Debug, PartialEq, Eq)]
pub struct Input {
    pub name: String,
    pub path: Rc<List<PathStep>>,
    pub sort: Sort,
    pub vis: Option<PartyId>,
}

/// The parties that every circuit knows.
#[derive(Debug, Clone, Copy, PartialEq, Eq, Structural)]
pub enum Party {
    Prover,
    Verifier,
}

/// A circuit under construction.
#[derive(Debug)]
pub struct Circify {
    pub frames: Vec<Frame>,
    pub globals: Rc<List<Var>>,
    pub allocs: Vec<Alloc>,
    pub inputs: Vec<Input>,
    pub outputs: Vec<Term>,
    pub parties: Vec<Party>,
}

/// A finished circuit.
#[derive(Debug)]
pub struct Computation {
    pub inputs: Vec<Input>,
    pub outputs: Vec<Term>,
    pub parties: Vec<Party>,
}

/// What a circuit under construction holds.
#[verifier::ext_equal]
pub struct CircState {
    pub frames: Seq<Frame>,
    pub globals: List<Var>,
    pub allocs: Seq<Alloc>,
    pub inputs: Seq<Input>,
    pub outputs: Seq<Term>,
    pub parties: Seq<Party>,
}

impl View for Circify {
    type V = CircState;

    open spec fn view(&self) -> CircState {
        CircState {
            frames: self.frames@,
            globals: *self.globals,
            allocs: self.allocs@,
            inputs: self.inputs@,
            outputs: self.outputs@,
            parties: self.parties@,
        }
    }
}

/// Whether an operation with the result `r` and the state `after` does what `want` says. Of the
/// state that is left by an operation that stops, nothing is said.
pub open spec fn does<T>(
    r: Result<T, CError>,
    after: CircState,
    want: Result<(T, CircState), CError>,
) -> bool {
    match (r, want) {
        (Ok(v), Ok((w, s))) => v == w && after == s,
        (Err(e), Err(f)) => e == f,
        _ => false,
    }
}

/// The first variable called `name`.
pub open spec fn find(l: List<Var>, name: Seq<char>) -> Option<Var>
    decreases l,
{
    match l {
        List::Nil => None,
        List::Cons(v, rest) => if v.name@ == name {
            Some(v)
        } else {
            find(*rest, name)
        },
    }
}

/// The variable called `name` in the innermost scope that has one.
pub open spec fn find_scopes(l: List<Rc<List<Var>>>, name: Seq<char>) -> Option<Var>
    decreases l,
{
    match l {
        List::Nil => None,
        List::Cons(s, rest) => match find(*s, name) {
            Some(v) => Some(v),
            None => find_scopes(*rest, name),
        },
    }
}

/// The variables with the first one called `name` set to `val`.
pub open spec fn set_var(l: List<Var>, name: Seq<char>, val: CTerm) -> List<Var>
    decreases l,
{
    match l {
        List::Nil => List::Nil,
        List::Cons(v, rest) => if v.name@ == name {
            List::Cons(Var { name: v.name, ty: v.ty, val }, rest)
        } else {
            List::Cons(v, Rc::new(set_var(*rest, name, val)))
        },
    }
}

/// The scopes with the variable called `name` set to `val` in the innermost one that has it.
pub open spec fn set_scopes(
    l: List<Rc<List<Var>>>,
    name: Seq<char>,
    val: CTerm,
) -> List<Rc<List<Var>>>
    decreases l,
{
    match l {
        List::Nil => List::Nil,
        List::Cons(s, rest) => if find(*s, name) is Some {
            List::Cons(Rc::new(set_var(*s, name, val)), rest)
        } else {
            List::Cons(s, Rc::new(set_scopes(*rest, name, val)))
        },
    }
}

/// The region of either of two arrays, where they may stand for one another.
pub open spec fn merged_id(a: Option<AllocId>, b: Option<AllocId>) -> Option<Option<AllocId>> {
    match (a, b) {
        (Some(x), Some(y)) => if x == y {
            Some(Some(x))
        } else {
            None
        },
        (Some(x), None) => Some(Some(x)),
        (None, y) => Some(y),
    }
}

/// The value that is `t` where `c` holds, else `f`. Integers have to be of one width; the value is
/// signed where both are.
pub open spec fn merge(c: Term, t: CTerm, f: CTerm) -> Result<CTerm, CError>
    decreases t,
{
    let refused = Err(CError::Fault(Reason::BadMerge(t, f)));
    match (t.term, f.term) {
        (CTermData::CBool(a), CTermData::CBool(b)) => Ok(
            value(CTermData::CBool(term_ite(c, a, b))),
        ),
        (CTermData::CInt(s, w, a), CTermData::CInt(r, v, b)) => if w == v {
            Ok(value(CTermData::CInt(s && r, w, term_ite(c, a, b))))
        } else {
            refused
        },
        (CTermData::CArray(ty, a), CTermData::CArray(_, b)) => match merged_id(a, b) {
            Some(id) => Ok(value(CTermData::CArray(ty, id))),
            None => refused,
        },
        (CTermData::CStackPtr(ty, x, a), CTermData::CStackPtr(_, y, b)) => match merged_id(a, b) {
            Some(id) => Ok(value(CTermData::CStackPtr(ty, term_ite(c, x, y), id))),
            None => refused,
        },
        (CTermData::CStruct(ty, fs), CTermData::CStruct(_, gs)) => match merge_fields(
            c,
            *fs.list,
            *gs.list,
        ) {
            Some(Ok(l)) => Ok(value(CTermData::CStruct(ty, FieldList { list: Rc::new(l) }))),
            Some(Err(e)) => Err(e),
            None => refused,
        },
        _ => refused,
    }
}

/// Field by field, the values that are those of `t` where `c` holds, else those of `f`; nothing
/// where the two have different numbers of fields.
pub open spec fn merge_fields(c: Term, t: List<Field<CTerm>>, f: List<Field<CTerm>>) -> Option<
    Result<List<Field<CTerm>>, CError>,
>
    decreases t,
{
    match (t, f) {
        (List::Nil, List::Nil) => Some(Ok(List::Nil)),
        (List::Cons(a, r), List::Cons(b, s)) => match merge(c, a.value, b.value) {
            Err(e) => Some(Err(e)),
            Ok(v) => match merge_fields(c, *r, *s) {
                Some(Ok(l)) => Some(
                    Ok(List::Cons(Field { name: a.name, value: v }, Rc::new(l))),
                ),
                other => other,
            },
        },
        _ => None,
    }
}

/// The value that a variable of the type has before it is returned.
pub open spec fn unset(ty: Ty) -> CTerm
    decreases ty,
{
    value(
        match ty {
            Ty::Bool => CTermData::CBool(lit_bool(false)),
            Ty::Int(s, w) => CTermData::CInt(s, w, lit_bv(0, w)),
            Ty::Array(_, _, _) => CTermData::CArray(ty, None),
            Ty::Ptr(w, _) => CTermData::CStackPtr(ty, lit_bv(0, w), None),
            Ty::Struct(_, fs) => CTermData::CStruct(
                ty,
                FieldList { list: Rc::new(unset_fields(*fs.list)) },
            ),
        },
    )
}

/// The values that the fields have before they are returned.
pub open spec fn unset_fields(l: List<Field<Ty>>) -> List<Field<CTerm>>
    decreases l,
{
    match l {
        List::Nil => List::Nil,
        List::Cons(f, rest) => List::Cons(
            Field { name: f.name, value: unset(f.value) },
            Rc::new(unset_fields(*rest)),
        ),
    }
}

/// The elements `i` to `n` of the region with the given contents, `offset` positions further on.
pub open spec fn elements(contents: Term, offset: Option<Term>, i: nat, n: nat) -> Seq<Term>
    decreases n - i,
{
    if i >= n {
        Seq::empty()
    } else {
        let at = match offset {
            None => lit_bv(i as int, ADDR_WIDTH),
            Some(o) => term_op(Op::BvAdd, o, lit_bv(i as int, ADDR_WIDTH)),
        };
        seq![Term::of(Node::Select(contents, at))] + elements(contents, offset, i + 1, n)
    }
}

impl CircState {
    /// The innermost function.
    pub open spec fn top(self) -> Frame {
        self.frames.last()
    }

    /// The state with the innermost function replaced.
    pub open spec fn with_top(self, f: Frame) -> CircState {
        CircState { frames: self.frames.drop_last().push(f), ..self }
    }

    /// The condition of the innermost branch.
    pub open spec fn guard(self) -> Term {
        match *self.top().guards {
            List::Nil => self.top().entry,
            List::Cons(g, _) => g,
        }
    }

    /// The condition under which the current statement runs: all enclosing branches are taken and
    /// the function has not returned.
    pub open spec fn condition(self) -> Term {
        if self.frames.len() == 0 {
            lit_bool(true)
        } else {
            term_op(Op::And, self.guard(), term_not(self.top().returned))
        }
    }

    /// The variable called `name`: that of the innermost scope that has one, else the global one.
    pub open spec fn lookup(self, name: Seq<char>) -> Option<Var> {
        if self.frames.len() > 0 {
            match find_scopes(*self.top().scopes, name) {
                Some(v) => Some(v),
                None => find(self.globals, name),
            }
        } else {
            find(self.globals, name)
        }
    }

    /// The value of a variable.
    pub open spec fn get(self, name: String) -> Result<CTerm, CError> {
        match self.lookup(name@) {
            Some(v) => Ok(v.val),
            None => Err(CError::Reject(Reason::NoVariable(name))),
        }
    }

    /// The state with the variable that `name` stands for set to `val`.
    pub open spec fn set(self, name: Seq<char>, val: CTerm) -> CircState {
        if self.frames.len() > 0 && find_scopes(*self.top().scopes, name) is Some {
            self.with_top(
                Frame {
                    scopes: Rc::new(set_scopes(*self.top().scopes, name, val)),
                    ..self.top()
                },
            )
        } else {
            CircState { globals: set_var(self.globals, name, val), ..self }
        }
    }

    /// Assignment: the variable takes the new value where the current statement runs, and keeps
    /// its value elsewhere.
    pub open spec fn assigned(self, name: String, val: CTerm) -> Result<
        (CTerm, CircState),
        CError,
    > {
        match self.lookup(name@) {
            None => Err(CError::Reject(Reason::NoVariable(name))),
            Some(v) => match merge(self.condition(), val, v.val) {
                Ok(m) => Ok((m, self.set(name@, m))),
                Err(e) => Err(e),
            },
        }
    }

    /// The variables of the innermost scope, or the global ones outside functions; nothing where a
    /// function has no scope.
    pub open spec fn here(self) -> Option<List<Var>> {
        if self.frames.len() > 0 {
            match *self.top().scopes {
                List::Nil => None,
                List::Cons(s, _) => Some(*s),
            }
        } else {
            Some(self.globals)
        }
    }

    /// The state with the innermost scope, or the global one, replaced.
    pub open spec fn with_here(self, s: List<Var>) -> CircState {
        if self.frames.len() > 0 {
            match *self.top().scopes {
                List::Nil => self,
                List::Cons(_, rest) => self.with_top(
                    Frame { scopes: Rc::new(List::Cons(Rc::new(s), rest)), ..self.top() },
                ),
            }
        } else {
            CircState { globals: s, ..self }
        }
    }

    /// Declaration of a variable in the innermost scope.
    pub open spec fn declared(self, name: String, ty: Ty, val: CTerm) -> Result<
        ((), CircState),
        CError,
    > {
        match self.here() {
            None => Err(CError::Fault(Reason::NoFrame)),
            Some(s) => if find(s, name@) is Some {
                Err(CError::Reject(Reason::Redeclared(name)))
            } else {
                Ok(((), self.with_here(List::Cons(Var { name, ty, val }, Rc::new(s)))))
            },
        }
    }

    /// The element at `at` of a region.
    pub open spec fn loaded(self, id: AllocId, at: Term) -> Result<Term, CError> {
        if id < self.allocs.len() {
            Ok(Term::of(Node::Select(self.allocs[id as int].contents, at)))
        } else {
            Err(CError::Fault(Reason::UnknownAlloc(Some(id))))
        }
    }

    /// The state with `val` stored at `at` of a region where `c` holds.
    pub open spec fn stored_if(self, c: Term, id: AllocId, at: Term, val: Term) -> Result<
        ((), CircState),
        CError,
    > {
        if id < self.allocs.len() {
            let a = self.allocs[id as int];
            let contents = term_ite(
                c,
                Term::of(Node::Store(a.contents, at, val)),
                a.contents,
            );
            Ok(
                (
                    (),
                    CircState {
                        allocs: self.allocs.update(id as int, Alloc { contents, ..a }),
                        ..self
                    },
                ),
            )
        } else {
            Err(CError::Fault(Reason::UnknownAlloc(Some(id))))
        }
    }

    /// The state with `val` stored at `at` of a region where the current statement runs.
    pub open spec fn stored(self, id: AllocId, at: Term, val: Term) -> Result<
        ((), CircState),
        CError,
    > {
        self.stored_if(self.condition(), id, at, val)
    }

    /// The state with a new region of zeros, and the number of that region.
    pub open spec fn allocated(self, size: usize, val_width: usize) -> (AllocId, CircState) {
        (
            self.allocs.len() as usize,
            CircState {
                allocs: self.allocs.push(
                    Alloc {
                        size,
                        addr_width: ADDR_WIDTH,
                        val_width,
                        contents: Term::of(Node::ZeroArray(size, ADDR_WIDTH, val_width)),
                    },
                ),
                ..self
            },
        )
    }

    /// The zero value of a type; an array takes a new region.
    pub open spec fn zero(self, ty: Ty) -> Result<(CTerm, CircState), CError>
        decreases ty,
    {
        match ty {
            Ty::Bool => Ok((value(CTermData::CBool(lit_bool(false))), self)),
            Ty::Int(s, w) => Ok((value(CTermData::CInt(s, w, lit_bv(0, w))), self)),
            Ty::Array(n, _, t) => if t.bits() > usize::MAX {
                Err(CError::Fault(Reason::Overflow))
            } else {
                let (id, s) = self.allocated(n, t.bits() as usize);
                Ok((value(CTermData::CArray(ty, Some(id))), s))
            },
            Ty::Ptr(w, _) => Ok((value(CTermData::CStackPtr(ty, lit_bv(0, w), None)), self)),
            Ty::Struct(_, fs) => match self.zero_fields(*fs.list) {
                Ok((l, s)) => Ok(
                    (value(CTermData::CStruct(ty, FieldList { list: Rc::new(l) })), s),
                ),
                Err(e) => Err(e),
            },
        }
    }

    /// The zero values of fields.
    pub open spec fn zero_fields(self, l: List<Field<Ty>>) -> Result<
        (List<Field<CTerm>>, CircState),
        CError,
    >
        decreases l,
    {
        match l {
            List::Nil => Ok((List::Nil, self)),
            List::Cons(f, rest) => match self.zero(f.value) {
                Err(e) => Err(e),
                Ok((v, s)) => match s.zero_fields(*rest) {
                    Err(e) => Err(e),
                    Ok((l, s)) => Ok(
                        (List::Cons(Field { name: f.name, value: v }, Rc::new(l)), s),
                    ),
                },
            },
        }
    }

    /// The state with one more input, and its term.
    pub open spec fn new_input(
        self,
        name: String,
        path: List<PathStep>,
        sort: Sort,
        vis: Option<PartyId>,
    ) -> (Term, CircState) {
        (
            Term::of(Node::Input(self.inputs.len() as usize, sort)),
            CircState {
                inputs: self.inputs.push(Input { name, path: Rc::new(path), sort, vis }),
                ..self
            },
        )
    }

    /// The inputs that make up a value of a type.
    pub open spec fn input(
        self,
        name: String,
        path: List<PathStep>,
        ty: Ty,
        vis: Option<PartyId>,
    ) -> Result<(CTerm, CircState), CError>
        decreases ty, 0nat,
    {
        match ty {
            Ty::Bool => {
                let (t, s) = self.new_input(name, path, Sort::Bool, vis);
                Ok((value(CTermData::CBool(t)), s))
            },
            Ty::Int(sg, w) => {
                let (t, s) = self.new_input(name, path, Sort::Bv(w), vis);
                Ok((value(CTermData::CInt(sg, w, t)), s))
            },
            Ty::Array(n, _, t) => match self.input_elements(
                name,
                path,
                *t,
                vis,
                0,
                n as nat,
                Seq::empty(),
            ) {
                Err(e) => Err(e),
                Ok((ts, s)) => if t.bits() > usize::MAX {
                    Err(CError::Fault(Reason::Overflow))
                } else {
                    let (id, s) = s.allocated(n, t.bits() as usize);
                    match s.stored_all(lit_bool(true), id, ts, 0) {
                        Err(e) => Err(e),
                        Ok((_, s)) => Ok((value(CTermData::CArray(ty, Some(id))), s)),
                    }
                },
            },
            Ty::Ptr(_, _) => Err(CError::Fault(Reason::NotAnInput(ty))),
            Ty::Struct(_, fs) => match self.input_fields(name, path, *fs.list, vis) {
                Err(e) => Err(e),
                Ok((l, s)) => Ok(
                    (value(CTermData::CStruct(ty, FieldList { list: Rc::new(l) })), s),
                ),
            },
        }
    }

    /// The inputs that make up the elements `i` to `n` of an array, behind those in `acc`.
    pub open spec fn input_elements(
        self,
        name: String,
        path: List<PathStep>,
        ty: Ty,
        vis: Option<PartyId>,
        i: nat,
        n: nat,
        acc: Seq<Term>,
    ) -> Result<(Seq<Term>, CircState), CError>
        decreases ty, 1nat + n - i,
    {
        if i >= n {
            Ok((acc, self))
        } else {
            match self.input(
                name,
                List::Cons(PathStep::Index(i as usize), Rc::new(path)),
                ty,
                vis,
            ) {
                Err(e) => Err(e),
                Ok((v, s)) => match v.one_term() {
                    Err(e) => Err(e),
                    Ok(t) => s.input_elements(name, path, ty, vis, i + 1, n, acc.push(t)),
                },
            }
        }
    }

    /// The inputs that make up fields.
    pub open spec fn input_fields(
        self,
        name: String,
        path: List<PathStep>,
        l: List<Field<Ty>>,
        vis: Option<PartyId>,
    ) -> Result<(List<Field<CTerm>>, CircState), CError>
        decreases l, 0nat,
    {
        match l {
            List::Nil => Ok((List::Nil, self)),
            List::Cons(f, rest) => match self.input(
                name,
                List::Cons(PathStep::Field(f.name), Rc::new(path)),
                f.value,
                vis,
            ) {
                Err(e) => Err(e),
                Ok((v, s)) => match s.input_fields(name, path, *rest, vis) {
                    Err(e) => Err(e),
                    Ok((l, s)) => Ok(
                        (List::Cons(Field { name: f.name, value: v }, Rc::new(l)), s),
                    ),
                },
            },
        }
    }

    /// The state with the terms from the `i`-th on stored, where `c` holds, at their positions.
    pub open spec fn stored_all(self, c: Term, id: AllocId, ts: Seq<Term>, i: nat) -> Result<
        ((), CircState),
        CError,
    >
        decreases ts.len() - i,
    {
        if i >= ts.len() {
            Ok(((), self))
        } else {
            match self.stored_if(c, id, lit_bv(i as int, ADDR_WIDTH), ts[i as int]) {
                Err(e) => Err(e),
                Ok((_, s)) => s.stored_all(c, id, ts, i + 1),
            }
        }
    }

    /// Declaration of a variable whose value is made of new inputs.
    pub open spec fn declared_input(
        self,
        name: String,
        ty: Ty,
        vis: Option<PartyId>,
    ) -> Result<(CTerm, CircState), CError> {
        match self.here() {
            None => Err(CError::Fault(Reason::NoFrame)),
            Some(s) => if find(s, name@) is Some {
                Err(CError::Reject(Reason::Redeclared(name)))
            } else {
                match self.input(name, List::Nil, ty, vis) {
                    Err(e) => Err(e),
                    Ok((v, st)) => match st.declared(name, ty, v) {
                        Err(e) => Err(e),
                        Ok((_, st)) => Ok((v, st)),
                    },
                }
            },
        }
    }

    /// All terms that a value is made of, in order.
    pub open spec fn terms(self, t: CTerm) -> Result<Seq<Term>, CError>
        decreases t,
    {
        match t.term {
            CTermData::CBool(x) => Ok(seq![x]),
            CTermData::CInt(_, _, x) => Ok(seq![x]),
            CTermData::CArray(ty, id) => self.region_terms(ty, None, id),
            CTermData::CStackPtr(ty, o, id) => self.region_terms(ty, Some(o), id),
            CTermData::CStruct(_, fs) => self.fields_terms(*fs.list),
        }
    }

    /// All elements of an array that starts at `offset` of a region.
    pub open spec fn region_terms(
        self,
        ty: Ty,
        offset: Option<Term>,
        id: Option<AllocId>,
    ) -> Result<Seq<Term>, CError> {
        match id {
            None => Err(CError::Fault(Reason::UnknownAlloc(None))),
            Some(i) => match ty {
                Ty::Array(n, _, _) => if i < self.allocs.len() {
                    Ok(elements(self.allocs[i as int].contents, offset, 0, n as nat))
                } else {
                    Err(CError::Fault(Reason::UnknownAlloc(Some(i))))
                },
                _ => Ok(Seq::empty()),
            },
        }
    }

    /// All terms that fields are made of, in order.
    pub open spec fn fields_terms(self, l: List<Field<CTerm>>) -> Result<Seq<Term>, CError>
        decreases l,
    {
        match l {
            List::Nil => Ok(Seq::empty()),
            List::Cons(f, rest) => match self.terms(f.value) {
                Err(e) => Err(e),
                Ok(a) => match self.fields_terms(*rest) {
                    Err(e) => Err(e),
                    Ok(b) => Ok(a + b),
                },
            },
        }
    }

    /// The state within a call of a function.
    pub open spec fn entered_fn(self, name: String, ret_ty: Option<Ty>) -> CircState {
        CircState {
            frames: self.frames.push(
                Frame {
                    name,
                    ret_ty,
                    ret_val: match ret_ty {
                        Some(ty) => Some(unset(ty)),
                        None => None,
                    },
                    entry: self.condition(),
                    returned: lit_bool(false),
                    scopes: Rc::new(List::Cons(Rc::new(List::Nil), Rc::new(List::Nil))),
                    guards: Rc::new(List::Nil),
                },
            ),
            ..self
        }
    }

    /// The state behind a call, and what the call returned.
    pub open spec fn exited_fn(self) -> Result<(Option<CTerm>, CircState), CError> {
        if self.frames.len() == 0 {
            Err(CError::Fault(Reason::NoFrame))
        } else {
            Ok((self.top().ret_val, CircState { frames: self.frames.drop_last(), ..self }))
        }
    }

    /// The state within a branch that is taken where `c` holds.
    pub open spec fn entered_condition(self, c: Term) -> Result<((), CircState), CError> {
        if c.sort() != Sort::Bool {
            Err(CError::Reject(Reason::NotBoolean(c)))
        } else if self.frames.len() == 0 {
            Err(CError::Fault(Reason::NoFrame))
        } else {
            Ok(
                (
                    (),
                    self.with_top(
                        Frame {
                            guards: Rc::new(
                                List::Cons(term_op(Op::And, self.guard(), c), self.top().guards),
                            ),
                            ..self.top()
                        },
                    ),
                ),
            )
        }
    }

    /// The state behind a branch.
    pub open spec fn exited_condition(self) -> Result<((), CircState), CError> {
        if self.frames.len() == 0 {
            Err(CError::Fault(Reason::NoFrame))
        } else {
            match *self.top().guards {
                List::Nil => Err(CError::Fault(Reason::NoFrame)),
                List::Cons(_, rest) => Ok(
                    ((), self.with_top(Frame { guards: rest, ..self.top() })),
                ),
            }
        }
    }

    /// The state within a new scope.
    pub open spec fn entered_scope(self) -> Result<((), CircState), CError> {
        if self.frames.len() == 0 {
            Err(CError::Fault(Reason::NoFrame))
        } else {
            Ok(
                (
                    (),
                    self.with_top(
                        Frame {
                            scopes: Rc::new(
                                List::Cons(Rc::new(List::Nil), self.top().scopes),
                            ),
                            ..self.top()
                        },
                    ),
                ),
            )
        }
    }

    /// The state behind the innermost scope.
    pub open spec fn exited_scope(self) -> Result<((), CircState), CError> {
        if self.frames.len() == 0 {
            Err(CError::Fault(Reason::NoFrame))
        } else {
            match *self.top().scopes {
                List::Nil => Err(CError::Fault(Reason::NoFrame)),
                List::Cons(_, rest) => Ok(
                    ((), self.with_top(Frame { scopes: rest, ..self.top() })),
                ),
            }
        }
    }

    /// The state behind a return statement: where it runs, the function has returned, with the
    /// given value.
    pub open spec fn returned(self, val: Option<CTerm>) -> Result<((), CircState), CError> {
        if self.frames.len() == 0 {
            Err(CError::Fault(Reason::NoFrame))
        } else {
            let returned = term_op(Op::Or, self.top().returned, self.condition());
            match (val, self.top().ret_val) {
                (None, _) => Ok(((), self.with_top(Frame { returned, ..self.top() }))),
                (Some(_), None) => Err(CError::Reject(Reason::NoReturnType)),
                (Some(v), Some(old_val)) => match merge(self.condition(), v, old_val) {
                    Err(e) => Err(e),
                    Ok(m) => Ok(
                        ((), self.with_top(Frame { returned, ret_val: Some(m), ..self.top() })),
                    ),
                },
            }
        }
    }
}

fn find_var<'a>(l: &'a List<Var>, name: &String) -> (r: Option<&'a Var>)
    ensures
        r == (match find(*l, name@) {
            Some(v) => Some(&v),
            None => None,
        }),
    decreases l,
{
    match l {
        List::Nil => None,
        List::Cons(v, rest) => if v.name == *name {
            Some(v)
        } else {
            find_var(rest, name)
        },
    }
}

fn find_in_scopes<'a>(l: &'a List<Rc<List<Var>>>, name: &String) -> (r: Option<&'a Var>)
    ensures
        r == (match find_scopes(*l, name@) {
            Some(v) => Some(&v),
            None => None,
        }),
    decreases l,
{
    match l {
        List::Nil => None,
        List::Cons(s, rest) => match find_var(s, name) {
            Some(v) => Some(v),
            None => find_in_scopes(rest, name),
        },
    }
}

impl Clone for Var {
    fn clone(&self) -> (r: Var)
        ensures
            r == *self,
    {
        Var { name: self.name.clone(), ty: self.ty.clone(), val: self.val.clone() }
    }
}

fn update_var(l: &List<Var>, name: &String, val: CTerm) -> (r: List<Var>)
    ensures
        r == set_var(*l, name@, val),
    decreases l,
{
    match l {
        List::Nil => List::Nil,
        List::Cons(v, rest) => if v.name == *name {
            List::Cons(Var { name: v.name.clone(), ty: v.ty.clone(), val }, rest.clone())
        } else {
            List::Cons(v.clone(), Rc::new(update_var(rest, name, val)))
        },
    }
}

fn update_scopes(l: &List<Rc<List<Var>>>, name: &String, val: CTerm) -> (r: List<Rc<List<Var>>>)
    ensures
        r == set_scopes(*l, name@, val),
    decreases l,
{
    match l {
        List::Nil => List::Nil,
        List::Cons(s, rest) => if find_var(s, name).is_some() {
            List::Cons(Rc::new(update_var(s, name, val)), rest.clone())
        } else {
            List::Cons(s.clone(), Rc::new(update_scopes(rest, name, val)))
        },
    }
}

fn merge_ids(a: Option<AllocId>, b: Option<AllocId>) -> (r: Option<Option<AllocId>>)
    ensures
        r == merged_id(a, b),
{
    match (a, b) {
        (Some(x), Some(y)) => if x == y {
            Some(Some(x))
        } else {
            None
        },
        (Some(x), None) => Some(Some(x)),
        (None, y) => Some(y),
    }
}

/// Makes the value that is `t` where `c` holds, else `f`.
pub fn ite(c: &Term, t: &CTerm, f: &CTerm) -> (r: Result<CTerm, CError>)
    ensures
        r == merge(*c, *t, *f),
    decreases t,
{
    match (&t.term, &f.term) {
        (CTermData::CBool(a), CTermData::CBool(b)) => Ok(
            cterm(CTermData::CBool(mk_ite(c.clone(), a.clone(), b.clone()))),
        ),
        (CTermData::CInt(s, w, a), CTermData::CInt(r, v, b)) => if *w == *v {
            Ok(cterm(CTermData::CInt(*s && *r, *w, mk_ite(c.clone(), a.clone(), b.clone()))))
        } else {
            Err(CError::Fault(Reason::BadMerge(t.clone(), f.clone())))
        },
        (CTermData::CArray(ty, a), CTermData::CArray(_, b)) => match merge_ids(*a, *b) {
            Some(id) => Ok(cterm(CTermData::CArray(ty.clone(), id))),
            None => Err(CError::Fault(Reason::BadMerge(t.clone(), f.clone()))),
        },
        (CTermData::CStackPtr(ty, x, a), CTermData::CStackPtr(_, y, b)) => match merge_ids(*a, *b) {
            Some(id) => Ok(
                cterm(
                    CTermData::CStackPtr(ty.clone(), mk_ite(c.clone(), x.clone(), y.clone()), id),
                ),
            ),
            None => Err(CError::Fault(Reason::BadMerge(t.clone(), f.clone()))),
        },
        (CTermData::CStruct(ty, fs), CTermData::CStruct(_, gs)) => match ite_fields(
            c,
            &fs.list,
            &gs.list,
        ) {
            Some(Ok(l)) => Ok(
                cterm(CTermData::CStruct(ty.clone(), FieldList { list: Rc::new(l) })),
            ),
            Some(Err(e)) => Err(e),
            None => Err(CError::Fault(Reason::BadMerge(t.clone(), f.clone()))),
        },
        _ => Err(CError::Fault(Reason::BadMerge(t.clone(), f.clone()))),
    }
}

fn ite_fields(c: &Term, t: &List<Field<CTerm>>, f: &List<Field<CTerm>>) -> (r: Option<
    Result<List<Field<CTerm>>, CError>,
>)
    ensures
        r == merge_fields(*c, *t, *f),
    decreases t,
{
    match (t, f) {
        (List::Nil, List::Nil) => Some(Ok(List::Nil)),
        (List::Cons(a, r), List::Cons(b, s)) => match ite(c, &a.value, &b.value) {
            Err(e) => Some(Err(e)),
            Ok(v) => match ite_fields(c, r, s) {
                Some(Ok(l)) => Some(
                    Ok(List::Cons(Field { name: a.name.clone(), value: v }, Rc::new(l))),
                ),
                other => other,
            },
        },
        _ => None,
    }
}

/// Makes the value that a variable of the type has before it is returned.
pub fn initialize_return(ty: &Ty) -> (r: CTerm)
    ensures
        r == unset(*ty),
    decreases ty,
{
    cterm(
        match ty {
            Ty::Bool => CTermData::CBool(bool_lit(false)),
            Ty::Int(s, w) => CTermData::CInt(*s, *w, bv_lit(0, *w)),
            Ty::Array(_, _, _) => CTermData::CArray(ty.clone(), None),
            Ty::Ptr(w, _) => CTermData::CStackPtr(ty.clone(), bv_lit(0, *w), None),
            Ty::Struct(_, fs) => CTermData::CStruct(
                ty.clone(),
                FieldList { list: Rc::new(initialize_fields(&fs.list)) },
            ),
        },
    )
}

fn initialize_fields(l: &List<Field<Ty>>) -> (r: List<Field<CTerm>>)
    ensures
        r == unset_fields(*l),
    decreases l,
{
    match l {
        List::Nil => List::Nil,
        List::Cons(f, rest) => List::Cons(
            Field { name: f.name.clone(), value: initialize_return(&f.value) },
            Rc::new(initialize_fields(rest)),
        ),
    }
}

impl Circify {
    /// Makes a circuit without inputs, outputs, variables and memory.
    pub fn new() -> (r: Circify)
        ensures
            r@ == (CircState {
                frames: Seq::empty(),
                globals: List::Nil,
                allocs: Seq::empty(),
                inputs: Seq::empty(),
                outputs: Seq::empty(),
                parties: Seq::empty(),
            }),
    {
        Circify {
            frames: Vec::new(),
            globals: Rc::new(List::Nil),
            allocs: Vec::new(),
            inputs: Vec::new(),
            outputs: Vec::new(),
            parties: Vec::new(),
        }
    }

    /// Adds the two parties of a proof.
    pub fn add_prover_and_verifier(&mut self)
        ensures
            final(self)@ == (CircState {
                parties: old(self)@.parties.push(Party::Prover).push(Party::Verifier),
                ..old(self)@
            }),
    {
        self.parties.push(Party::Prover);
        self.parties.push(Party::Verifier);
    }

    /// Finishes the circuit.
    pub fn consume(self) -> (r: Computation)
        ensures
            r.inputs@ == self@.inputs,
            r.outputs@ == self@.outputs,
            r.parties@ == self@.parties,
    {
        Computation { inputs: self.inputs, outputs: self.outputs, parties: self.parties }
    }

    fn top_frame(&self) -> (r: &Frame)
        requires
            self@.frames.len() > 0,
        ensures
            *r == self@.top(),
    {
        &self.frames[self.frames.len() - 1]
    }

    fn top_guard(&self) -> (r: Term)
        requires
            self@.frames.len() > 0,
        ensures
            r == self@.guard(),
    {
        let f = self.top_frame();
        match &*f.guards {
            List::Nil => f.entry.clone(),
            List::Cons(g, _) => g.clone(),
        }
    }

    /// The condition under which the current statement runs.
    pub fn condition(&self) -> (r: Term)
        ensures
            r == self@.condition(),
    {
        if self.frames.len() == 0 {
            bool_lit(true)
        } else {
            mk_op(Op::And, self.top_guard(), mk_not(self.top_frame().returned.clone()))
        }
    }

    fn find(&self, name: &String) -> (r: Option<&Var>)
        ensures
            r == (match self@.lookup(name@) {
                Some(v) => Some(&v),
                None => None,
            }),
    {
        if self.frames.len() > 0 {
            match find_in_scopes(&self.top_frame().scopes, name) {
                Some(v) => Some(v),
                None => find_var(&self.globals, name),
            }
        } else {
            find_var(&self.globals, name)
        }
    }

    /// The value of a variable.
    pub fn get_value(&self, name: &String) -> (r: Result<CTerm, CError>)
        ensures
            r == self@.get(*name),
    {
        match self.find(name) {
            Some(v) => Ok(v.val.clone()),
            None => Err(CError::Reject(Reason::NoVariable(name.clone()))),
        }
    }

    fn set(&mut self, name: &String, val: CTerm)
        ensures
            final(self)@ == old(self)@.set(name@, val),
    {
        if self.frames.len() > 0 && find_in_scopes(&self.top_frame().scopes, name).is_some() {
            let scopes = Rc::new(update_scopes(&self.top_frame().scopes, name, val));
            self.replace_scopes(scopes);
        } else {
            self.globals = Rc::new(update_var(&self.globals, name, val));
        }
    }

    fn replace_scopes(&mut self, scopes: Rc<List<Rc<List<Var>>>>)
        requires
            old(self)@.frames.len() > 0,
        ensures
            final(self)@ == old(self)@.with_top(Frame { scopes, ..old(self)@.top() }),
    {
        if let Some(f) = self.frames.pop() {
            self.frames.push(Frame { scopes, ..f });
        }
    }

    fn replace_guards(&mut self, guards: Rc<List<Term>>)
        requires
            old(self)@.frames.len() > 0,
        ensures
            final(self)@ == old(self)@.with_top(Frame { guards, ..old(self)@.top() }),
    {
        if let Some(f) = self.frames.pop() {
            self.frames.push(Frame { guards, ..f });
        }
    }

    /// Assigns to a variable and returns its new value.
    pub fn assign(&mut self, name: &String, val: CTerm) -> (r: Result<CTerm, CError>)
        ensures
            does(r, final(self)@, old(self)@.assigned(*name, val)),
            r is Err ==> final(self)@ == old(self)@,
    {
        let before = match self.find(name) {
            Some(v) => v.val.clone(),
            None => return Err(CError::Reject(Reason::NoVariable(name.clone()))),
        };
        let c = self.condition();
        match ite(&c, &val, &before) {
            Ok(m) => {
                self.set(name, m.clone());
                Ok(m)
            },
            Err(e) => Err(e),
        }
    }

    /// Declares a variable with a value.
    pub fn declare_init(&mut self, name: &String, ty: Ty, val: CTerm) -> (r: Result<(), CError>)
        ensures
            does(r, final(self)@, old(self)@.declared(*name, ty, val)),
            r is Err ==> final(self)@ == old(self)@,
    {
        let var = Var { name: name.clone(), ty, val };
        if self.frames.len() > 0 {
            let scopes = match &*self.top_frame().scopes {
                List::Nil => return Err(CError::Fault(Reason::NoFrame)),
                List::Cons(s, rest) => {
                    if find_var(s, name).is_some() {
                        return Err(CError::Reject(Reason::Redeclared(name.clone())));
                    }
                    Rc::new(List::Cons(Rc::new(List::Cons(var, s.clone())), rest.clone()))
                },
            };
            self.replace_scopes(scopes);
        } else {
            if find_var(&self.globals, name).is_some() {
                return Err(CError::Reject(Reason::Redeclared(name.clone())));
            }
            self.globals = Rc::new(List::Cons(var, self.globals.clone()));
        }
        Ok(())
    }

    fn check_undeclared(&self, name: &String) -> (r: Result<(), CError>)
        ensures
            r == (match self@.here() {
                None => Err(CError::Fault(Reason::NoFrame)),
                Some(s) => if find(s, name@) is Some {
                    Err(CError::Reject(Reason::Redeclared(*name)))
                } else {
                    Ok(())
                },
            }),
    {
        let s = if self.frames.len() > 0 {
            match &*self.top_frame().scopes {
                List::Nil => return Err(CError::Fault(Reason::NoFrame)),
                List::Cons(s, _) => s,
            }
        } else {
            &self.globals
        };
        if find_var(s, name).is_some() {
            Err(CError::Reject(Reason::Redeclared(name.clone())))
        } else {
            Ok(())
        }
    }

    /// Reads an element of a region.
    pub fn load(&self, id: AllocId, at: Term) -> (r: Result<Term, CError>)
        ensures
            r == self@.loaded(id, at),
    {
        if id < self.allocs.len() {
            Ok(Term::new(Node::Select(self.allocs[id].contents.clone(), at)))
        } else {
            Err(CError::Fault(Reason::UnknownAlloc(Some(id))))
        }
    }

    fn store_if(&mut self, c: Term, id: AllocId, at: Term, val: Term) -> (r: Result<(), CError>)
        ensures
            does(r, final(self)@, old(self)@.stored_if(c, id, at, val)),
            r is Err ==> final(self)@ == old(self)@,
    {
        if id < self.allocs.len() {
            let ghost before = self@;
            let a = &self.allocs[id];
            let contents = mk_ite(
                c,
                Term::new(Node::Store(a.contents.clone(), at, val)),
                a.contents.clone(),
            );
            let updated = Alloc {
                size: a.size,
                addr_width: a.addr_width,
                val_width: a.val_width,
                contents,
            };
            self.allocs[id] = updated;
            assert(self@ =~= before.stored_if(c, id, at, val)->Ok_0.1);
            Ok(())
        } else {
            Err(CError::Fault(Reason::UnknownAlloc(Some(id))))
        }
    }

    /// Writes an element of a region where the current statement runs.
    pub fn store(&mut self, id: AllocId, at: Term, val: Term) -> (r: Result<(), CError>)
        ensures
            does(r, final(self)@, old(self)@.stored(id, at, val)),
            r is Err ==> final(self)@ == old(self)@,
    {
        let c = self.condition();
        self.store_if(c, id, at, val)
    }

    /// Makes a region of zeros.
    pub fn zero_allocate(&mut self, size: usize, val_width: usize) -> (r: AllocId)
        ensures
            (r, final(self)@) == old(self)@.allocated(size, val_width),
    {
        let ghost before = self@;
        let id: AllocId = self.allocs.len();
        self.allocs.push(
            Alloc {
                size,
                addr_width: ADDR_WIDTH,
                val_width,
                contents: Term::new(Node::ZeroArray(size, ADDR_WIDTH, val_width)),
            },
        );
        assert(self@ =~= before.allocated(size, val_width).1);
        id
    }

    /// Makes the zero value of a type.
    pub fn default(&mut self, ty: &Ty) -> (r: Result<CTerm, CError>)
        ensures
            does(r, final(self)@, old(self)@.zero(*ty)),
        decreases ty,
    {
        match ty {
            Ty::Bool => Ok(cterm(CTermData::CBool(bool_lit(false)))),
            Ty::Int(s, w) => Ok(cterm(CTermData::CInt(*s, *w, bv_lit(0, *w)))),
            Ty::Array(n, _, t) => match t.num_bits() {
                None => Err(CError::Fault(Reason::Overflow)),
                Some(b) => {
                    let id: AllocId = self.zero_allocate(*n, b);
                    Ok(cterm(CTermData::CArray(ty.clone(), Some(id))))
                },
            },
            Ty::Ptr(w, _) => Ok(cterm(CTermData::CStackPtr(ty.clone(), bv_lit(0, *w), None))),
            Ty::Struct(_, fs) => match self.default_fields(&fs.list) {
                Ok(l) => Ok(cterm(CTermData::CStruct(ty.clone(), FieldList { list: Rc::new(l) }))),
                Err(e) => Err(e),
            },
        }
    }

    fn default_fields(&mut self, l: &List<Field<Ty>>) -> (r: Result<List<Field<CTerm>>, CError>)
        ensures
            does(r, final(self)@, old(self)@.zero_fields(*l)),
        decreases l,
    {
        match l {
            List::Nil => Ok(List::Nil),
            List::Cons(f, rest) => {
                let value = self.default(&f.value)?;
                let fields = self.default_fields(rest)?;
                Ok(List::Cons(Field { name: f.name.clone(), value }, Rc::new(fields)))
            },
        }
    }

    fn add_input(
        &mut self,
        name: &String,
        path: &Rc<List<PathStep>>,
        sort: Sort,
        vis: Option<PartyId>,
    ) -> (r: Term)
        ensures
            (r, final(self)@) == old(self)@.new_input(*name, **path, sort, vis),
    {
        let ghost before = self@;
        let t = Term::new(Node::Input(self.inputs.len(), sort));
        self.inputs.push(Input { name: name.clone(), path: path.clone(), sort, vis });
        assert(self@ =~= before.new_input(*name, **path, sort, vis).1);
        t
    }

    fn inputs_of(
        &mut self,
        name: &String,
        path: &Rc<List<PathStep>>,
        ty: &Ty,
        vis: Option<PartyId>,
    ) -> (r: Result<CTerm, CError>)
        ensures
            does(r, final(self)@, old(self)@.input(*name, **path, *ty, vis)),
        decreases ty, 0nat,
    {
        match ty {
            Ty::Bool => Ok(cterm(CTermData::CBool(self.add_input(name, path, Sort::Bool, vis)))),
            Ty::Int(s, w) => Ok(
                cterm(CTermData::CInt(*s, *w, self.add_input(name, path, Sort::Bv(*w), vis))),
            ),
            Ty::Array(n, _, t) => {
                let ts = self.inputs_of_elements(name, path, t, vis, *n)?;
                match t.num_bits() {
                    None => Err(CError::Fault(Reason::Overflow)),
                    Some(b) => {
                        let id: AllocId = self.zero_allocate(*n, b);
                        self.store_all(id, &ts)?;
                        Ok(cterm(CTermData::CArray(ty.clone(), Some(id))))
                    },
                }
            },
            Ty::Ptr(_, _) => Err(CError::Fault(Reason::NotAnInput(ty.clone()))),
            Ty::Struct(_, fs) => {
                let l = self.inputs_of_fields(name, path, &fs.list, vis)?;
                Ok(cterm(CTermData::CStruct(ty.clone(), FieldList { list: Rc::new(l) })))
            },
        }
    }

    fn inputs_of_elements(
        &mut self,
        name: &String,
        path: &Rc<List<PathStep>>,
        ty: &Ty,
        vis: Option<PartyId>,
        n: usize,
    ) -> (r: Result<Vec<Term>, CError>)
        ensures
            match (
                r,
                old(self)@.input_elements(*name, **path, *ty, vis, 0, n as nat, Seq::empty()),
            ) {
                (Ok(v), Ok((s, st))) => v@ == s && final(self)@ == st,
                (Err(e), Err(f)) => e == f,
                _ => false,
            },
        decreases ty, 1nat,
    {
        let mut ts: Vec<Term> = Vec::new();
        let mut i: usize = 0;
        let ghost start = self@;
        while i < n
            invariant
                i <= n,
                start == old(self)@,
                start.input_elements(*name, **path, *ty, vis, 0, n as nat, Seq::empty())
                    == self@.input_elements(*name, **path, *ty, vis, i as nat, n as nat, ts@),
            decreases n - i,
        {
            let step = Rc::new(List::Cons(PathStep::Index(i), path.clone()));
            let v = self.inputs_of(name, &step, ty, vis)?;
            let t = v.simple_term()?;
            ts.push(t);
            i = i + 1;
        }
        Ok(ts)
    }

    fn inputs_of_fields(
        &mut self,
        name: &String,
        path: &Rc<List<PathStep>>,
        l: &List<Field<Ty>>,
        vis: Option<PartyId>,
    ) -> (r: Result<List<Field<CTerm>>, CError>)
        ensures
            does(r, final(self)@, old(self)@.input_fields(*name, **path, *l, vis)),
        decreases l, 0nat,
    {
        match l {
            List::Nil => Ok(List::Nil),
            List::Cons(f, rest) => {
                let step = Rc::new(List::Cons(PathStep::Field(f.name.clone()), path.clone()));
                let value = self.inputs_of(name, &step, &f.value, vis)?;
                let fields = self.inputs_of_fields(name, path, rest, vis)?;
                Ok(List::Cons(Field { name: f.name.clone(), value }, Rc::new(fields)))
            },
        }
    }

    fn store_all(&mut self, id: AllocId, ts: &Vec<Term>) -> (r: Result<(), CError>)
        ensures
            does(r, final(self)@, old(self)@.stored_all(lit_bool(true), id, ts@, 0)),
    {
        let ghost start = self@;
        let mut i: usize = 0;
        while i < ts.len()
            invariant
                i <= ts@.len(),
                start == old(self)@,
                start.stored_all(lit_bool(true), id, ts@, 0) == self@.stored_all(
                    lit_bool(true),
                    id,
                    ts@,
                    i as nat,
                ),
            decreases ts@.len() - i,
        {
            self.store_if(bool_lit(true), id, bv_lit(i as i128, ADDR_WIDTH), ts[i].clone())?;
            i = i + 1;
        }
        Ok(())
    }

    /// Declares a variable whose value is made of new inputs.
    pub fn declare_input(&mut self, name: &String, ty: &Ty, vis: Option<PartyId>) -> (r: Result<
        CTerm,
        CError,
    >)
        ensures
            does(r, final(self)@, old(self)@.declared_input(*name, *ty, vis)),
    {
        self.check_undeclared(name)?;
        let v = self.inputs_of(name, &Rc::new(List::Nil), ty, vis)?;
        self.declare_init(name, ty.clone(), v.clone())?;
        Ok(v)
    }

    /// All terms that a value is made of.
    pub fn terms_of(&self, t: &CTerm) -> (r: Result<Vec<Term>, CError>)
        ensures
            match (r, self@.terms(*t)) {
                (Ok(v), Ok(s)) => v@ == s,
                (Err(e), Err(f)) => e == f,
                _ => false,
            },
    {
        let mut out: Vec<Term> = Vec::new();
        self.push_terms(t, &mut out)?;
        assert(out@ =~= self@.terms(*t)->Ok_0);
        Ok(out)
    }

    fn push_terms(&self, t: &CTerm, out: &mut Vec<Term>) -> (r: Result<(), CError>)
        ensures
            match (r, self@.terms(*t)) {
                (Ok(_), Ok(s)) => final(out)@ == old(out)@ + s,
                (Err(e), Err(f)) => e == f,
                _ => false,
            },
        decreases t,
    {
        match &t.term {
            CTermData::CBool(x) => {
                let ghost before = out@;
                out.push(x.clone());
                assert(out@ =~= before + seq![*x]);
                Ok(())
            },
            CTermData::CInt(_, _, x) => {
                let ghost before = out@;
                out.push(x.clone());
                assert(out@ =~= before + seq![*x]);
                Ok(())
            },
            CTermData::CArray(ty, id) => self.push_region(ty, &None, *id, out),
            CTermData::CStackPtr(ty, o, id) => {
                let at = Some(o.clone());
                self.push_region(ty, &at, *id, out)
            },
            CTermData::CStruct(_, fs) => self.push_fields(&fs.list, out),
        }
    }

    fn push_fields(&self, l: &List<Field<CTerm>>, out: &mut Vec<Term>) -> (r: Result<(), CError>)
        ensures
            match (r, self@.fields_terms(*l)) {
                (Ok(_), Ok(s)) => final(out)@ == old(out)@ + s,
                (Err(e), Err(f)) => e == f,
                _ => false,
            },
        decreases l,
    {
        match l {
            List::Nil => {
                assert(out@ =~= out@ + Seq::<Term>::empty());
                Ok(())
            },
            List::Cons(f, rest) => {
                let ghost before = out@;
                self.push_terms(&f.value, out)?;
                self.push_fields(rest, out)?;
                assert(out@ =~= before + self@.fields_terms(*l)->Ok_0);
                Ok(())
            },
        }
    }

    fn push_region(
        &self,
        ty: &Ty,
        offset: &Option<Term>,
        id: Option<AllocId>,
        out: &mut Vec<Term>,
    ) -> (r: Result<(), CError>)
        ensures
            match (r, self@.region_terms(*ty, *offset, id)) {
                (Ok(_), Ok(s)) => final(out)@ == old(out)@ + s,
                (Err(e), Err(f)) => e == f,
                _ => false,
            },
    {
        let id: AllocId = match id {
            None => return Err(CError::Fault(Reason::UnknownAlloc(None))),
            Some(id) => id,
        };
        if let Ty::Array(n, _, _) = ty {
            if id >= self.allocs.len() {
                return Err(CError::Fault(Reason::UnknownAlloc(Some(id))));
            }
            let contents = &self.allocs[id].contents;
            let ghost before = out@;
            let mut i: usize = 0;
            assert(out@ + elements(*contents, *offset, 0, *n as nat) =~= before + elements(
                *contents,
                *offset,
                0,
                *n as nat,
            ));
            while i < *n
                invariant
                    i <= *n,
                    out@ + elements(*contents, *offset, i as nat, *n as nat) == before + elements(
                        *contents,
                        *offset,
                        0,
                        *n as nat,
                    ),
                decreases *n - i,
            {
                let ghost here = out@;
                let lit = bv_lit(i as i128, ADDR_WIDTH);
                let at = match offset {
                    None => lit,
                    Some(o) => mk_op(Op::BvAdd, o.clone(), lit),
                };
                let t = Term::new(Node::Select(contents.clone(), at));
                out.push(t);
                i = i + 1;
                assert(out@ + elements(*contents, *offset, i as nat, *n as nat) =~= here
                    + elements(*contents, *offset, (i - 1) as nat, *n as nat));
            }
            assert(out@ =~= out@ + elements(*contents, *offset, *n as nat, *n as nat));
        } else {
            assert(out@ =~= out@ + Seq::<Term>::empty());
        }
        Ok(())
    }

    /// Starts a call of a function.
    pub fn enter_fn(&mut self, name: String, ret_ty: Option<Ty>)
        ensures
            final(self)@ == old(self)@.entered_fn(name, ret_ty),
    {
        let entry = self.condition();
        let ret_val = match &ret_ty {
            Some(ty) => Some(initialize_return(ty)),
            None => None,
        };
        self.frames.push(
            Frame {
                name,
                ret_ty,
                ret_val,
                entry,
                returned: bool_lit(false),
                scopes: Rc::new(List::Cons(Rc::new(List::Nil), Rc::new(List::Nil))),
                guards: Rc::new(List::Nil),
            },
        );
    }

    /// Ends a call of a function and gives what it returned.
    pub fn exit_fn(&mut self) -> (r: Result<Option<CTerm>, CError>)
        ensures
            does(r, final(self)@, old(self)@.exited_fn()),
            r is Err ==> final(self)@ == old(self)@,
    {
        match self.frames.pop() {
            None => Err(CError::Fault(Reason::NoFrame)),
            Some(f) => Ok(f.ret_val),
        }
    }

    /// Starts a branch that is taken where `c` holds.
    pub fn enter_condition(&mut self, c: Term) -> (r: Result<(), CError>)
        ensures
            does(r, final(self)@, old(self)@.entered_condition(c)),
            r is Err ==> final(self)@ == old(self)@,
    {
        if c.get_sort() != Sort::Bool {
            return Err(CError::Reject(Reason::NotBoolean(c)));
        }
        if self.frames.len() == 0 {
            return Err(CError::Fault(Reason::NoFrame));
        }
        let g = mk_op(Op::And, self.top_guard(), c);
        let guards = Rc::new(List::Cons(g, self.top_frame().guards.clone()));
        self.replace_guards(guards);
        Ok(())
    }

    /// Ends the innermost branch.
    pub fn exit_condition(&mut self) -> (r: Result<(), CError>)
        ensures
            does(r, final(self)@, old(self)@.exited_condition()),
            r is Err ==> final(self)@ == old(self)@,
    {
        if self.frames.len() == 0 {
            return Err(CError::Fault(Reason::NoFrame));
        }
        let guards = match &*self.top_frame().guards {
            List::Nil => return Err(CError::Fault(Reason::NoFrame)),
            List::Cons(_, rest) => rest.clone(),
        };
        self.replace_guards(guards);
        Ok(())
    }

    /// Starts a scope.
    pub fn enter_scope(&mut self) -> (r: Result<(), CError>)
        ensures
            does(r, final(self)@, old(self)@.entered_scope()),
            r is Err ==> final(self)@ == old(self)@,
    {
        if self.frames.len() == 0 {
            return Err(CError::Fault(Reason::NoFrame));
        }
        let scopes = Rc::new(
            List::Cons(Rc::new(List::Nil), self.top_frame().scopes.clone()),
        );
        self.replace_scopes(scopes);
        Ok(())
    }

    /// Ends the innermost scope.
    pub fn exit_scope(&mut self) -> (r: Result<(), CError>)
        ensures
            does(r, final(self)@, old(self)@.exited_scope()),
            r is Err ==> final(self)@ == old(self)@,
    {
        if self.frames.len() == 0 {
            return Err(CError::Fault(Reason::NoFrame));
        }
        let scopes = match &*self.top_frame().scopes {
            List::Nil => return Err(CError::Fault(Reason::NoFrame)),
            List::Cons(_, rest) => rest.clone(),
        };
        self.replace_scopes(scopes);
        Ok(())
    }

    /// Returns from the innermost function where the current statement runs.
    pub fn return_(&mut self, val: Option<CTerm>) -> (r: Result<(), CError>)
        ensures
            does(r, final(self)@, old(self)@.returned(val)),
            r is Err ==> final(self)@ == old(self)@,
    {
        if self.frames.len() == 0 {
            return Err(CError::Fault(Reason::NoFrame));
        }
        let c = self.condition();
        let returned = mk_op(Op::Or, self.top_frame().returned.clone(), c.clone());
        match val {
            None => {
                if let Some(f) = self.frames.pop() {
                    self.frames.push(Frame { returned, ..f });
                }
                Ok(())
            },
            Some(v) => {
                let m = match &self.top_frame().ret_val {
                    None => return Err(CError::Reject(Reason::NoReturnType)),
                    Some(before) => ite(&c, &v, before)?,
                };
                if let Some(f) = self.frames.pop() {
                    self.frames.push(Frame { returned, ret_val: Some(m), ..f });
                }
                Ok(())
            },
        }
    }
}

} // verus!
