//! What the translation of each construct is: the value it gives and the state it leaves, or the
//! error it stops with.
//!
//! Calls are translated in place of the call, so a program that calls itself without end has no
//! translation. `depth` says how deeply calls may be nested.
use std::rc::Rc;

use vstd::prelude::*;

use crate::ast::ArraySize;
use crate::ast::BinaryOperator;
use crate::ast::BinaryOperatorExpression;
use crate::ast::BlockItem;
use crate::ast::CallExpression;
use crate::ast::Constant;
use crate::ast::Declaration;
use crate::ast::DeclarationSpecifier;
use crate::ast::Declarator;
use crate::ast::DeclaratorKind;
use crate::ast::DerivedDeclarator;
use crate::ast::Expression;
use crate::ast::Extension;
use crate::ast::ExternalDeclaration;
use crate::ast::ForInitializer;
use crate::ast::ForStatement;
use crate::ast::FunctionDefinition;
use crate::ast::InitDeclarator;
use crate::ast::Initializer;
use crate::ast::ParameterDeclaration;
use crate::ast::SpecifierQualifier;
use crate::ast::Statement;
use crate::ast::StructDeclaration;
use crate::ast::StructDeclarator;
use crate::ast::StructType;
use crate::ast::TypeSpecifier;
use crate::ast::UnaryOperator;
use crate::ast::UnaryOperatorExpression;
use crate::circ::CircState;
use crate::circ::Party;
use crate::circ::PartyId;
use crate::cterm::apply;
use crate::cterm::cast_to;
use crate::cterm::value;
use crate::cterm::value_false;
use crate::cterm::value_i32;
use crate::cterm::AllocId;
use crate::cterm::COp;
use crate::cterm::CTerm;
use crate::cterm::CTermData;
use crate::error::CError;
use crate::error::Reason;
use crate::ir::folded;
use crate::ir::lit_bv;
use crate::ir::term_not;
use crate::ir::term_op;
use crate::ir::Op;
use crate::ir::Term;
use crate::list::List;
use crate::number::constant;
use crate::number::number;
use crate::single::trips;
use crate::types::Field;
use crate::types::FieldList;
use crate::types::Ty;

verus! {

/// What a circuit is generated for.
#[derive(Debug, Clone, Copy, PartialEq, Eq, Structural)]
pub enum Mode {
    /// Multi-party computation, with the greatest number of a party.
    Mpc(u8),
    Proof,
    Opt,
    ProofOfHighValue(u64),
}

/// The party that makes a proof.
pub const PROVER_ID: PartyId = 0;

/// The name of a variable.
#[derive(Debug, PartialEq, Eq)]
pub struct Loc {
    pub name: String,
}

/// A place that can be assigned to.
#[derive(Debug, PartialEq, Eq)]
pub enum CLoc {
    Var(Loc),
    Member(Box<CLoc>, String),
    Idx(Box<CLoc>, CTerm),
}

/// A declared name with its type.
#[derive(Debug, PartialEq, Eq)]
pub struct DeclInfo {
    pub name: String,
    pub ty: Ty,
}

/// A parameter with its type and the party that knows it.
#[derive(Debug, PartialEq, Eq)]
pub struct ParamInfo {
    pub name: String,
    pub ty: Ty,
    pub vis: Option<PartyId>,
}

/// A function that can be called.
#[derive(Debug, PartialEq, Eq)]
pub struct FnInfo {
    pub name: String,
    pub ret_ty: Option<Ty>,
    pub args: Option<Rc<Vec<ParameterDeclaration>>>,
    pub body: Rc<Statement>,
}

/// What the front end knows while it translates.
#[verifier::ext_equal]
pub struct GenState {
    pub circ: CircState,
    pub mode: Mode,
    pub structs: Map<Seq<char>, Ty>,
    pub functions: Map<Seq<char>, FnInfo>,
    pub typedefs: Map<Seq<char>, Ty>,
}

/// The value of a construct and the state behind it.
pub type Step<T> = Result<(T, GenState), CError>;

impl GenState {
    /// The state with another circuit.
    pub open spec fn with_circ(self, circ: CircState) -> GenState {
        GenState { circ, ..self }
    }

    /// What an operation on the circuit does to the state.
    pub open spec fn lift<T>(self, r: Result<(T, CircState), CError>) -> Step<T> {
        match r {
            Ok((v, c)) => Ok((v, self.with_circ(c))),
            Err(e) => Err(e),
        }
    }
}

/// The result of an operation whose failure is a fault.
pub open spec fn unwrapped<T>(r: Result<T, CError>) -> Result<T, CError> {
    match r {
        Ok(v) => Ok(v),
        Err(e) => Err(e.fault()),
    }
}

/// The name that a declarator declares.
pub open spec fn decl_name(d: Declarator) -> Result<String, CError> {
    match d.kind {
        DeclaratorKind::Identifier(name) => Ok(name),
        DeclaratorKind::Other => Err(CError::Fault(Reason::MissingName)),
    }
}

/// The name that an expression is.
pub open spec fn expr_name(e: Expression) -> Result<String, CError> {
    match e {
        Expression::Identifier(name) => Ok(name),
        _ => Err(CError::Fault(Reason::MissingName)),
    }
}

/// The parameters of a function: those of its first parameter list.
pub open spec fn fn_args(derived: Seq<DerivedDeclarator>, i: nat) -> Option<
    Rc<Vec<ParameterDeclaration>>,
>
    decreases derived.len() - i,
{
    if i >= derived.len() {
        None
    } else {
        match derived[i as int] {
            DerivedDeclarator::Function(ps) => Some(ps),
            _ => fn_args(derived, i + 1),
        }
    }
}

/// The type that several specifiers make together: one stands for itself; several integer types
/// make an integer that is signed if all of them are, and as wide as the widest.
pub open spec fn compressed(ts: Seq<Option<Ty>>) -> Result<Option<Ty>, CError>
    decreases ts.len(),
{
    if ts.len() == 0 {
        Err(CError::Fault(Reason::EmptySpecifiers))
    } else if ts.len() == 1 {
        Ok(ts[0])
    } else {
        match (compressed(ts.drop_last()), ts.last()) {
            (Ok(Some(Ty::Int(s, w))), Some(Ty::Int(t, v))) => Ok(
                Some(
                    Ty::Int(
                        s && t,
                        if w < v {
                            v
                        } else {
                            w
                        },
                    ),
                ),
            ),
            _ => Err(CError::Fault(Reason::MixedSpecifiers)),
        }
    }
}

/// The party that an attribute argument names, where there is such a party.
pub open spec fn party(e: Expression, last: u8) -> Option<PartyId> {
    match e {
        Expression::Constant(Constant::Integer(i)) => match number(i.number@, false) {
            Some(n) => if 0 <= n <= last {
                Some(n as u8)
            } else {
                None
            },
            None => None,
        },
        _ => None,
    }
}

/// The party that a specifier gives a parameter to: none where it is `public`.
pub open spec fn visibility(d: DeclarationSpecifier, mode: Mode) -> Result<
    Option<PartyId>,
    CError,
> {
    let refused = Err(CError::Fault(Reason::BadVisibility));
    match d {
        DeclarationSpecifier::Extension(es) => if es@.len() != 1 {
            refused
        } else {
            match es@[0] {
                Extension::Attribute(a) => if a.name@ == "public"@ {
                    Ok(None)
                } else if a.name@ == "private"@ {
                    match mode {
                        Mode::Mpc(n) => if a.arguments@.len() != 1 {
                            refused
                        } else {
                            match party(a.arguments@[0], n) {
                                Some(p) => Ok(Some(p)),
                                None => refused,
                            }
                        },
                        Mode::Proof => Ok(Some(PROVER_ID)),
                        _ => Err(CError::Fault(Reason::Unsupported)),
                    }
                } else {
                    refused
                },
                Extension::Other => refused,
            }
        },
        _ => refused,
    }
}

/// The elements of `s` in front of `tail`.
pub open spec fn list_onto<T>(s: Seq<T>, tail: List<T>) -> List<T>
    decreases s.len(),
{
    if s.len() == 0 {
        tail
    } else {
        list_onto(s.drop_last(), List::Cons(s.last(), Rc::new(tail)))
    }
}

/// The list of fields with these elements.
pub open spec fn fields_of<T>(s: Seq<Field<T>>) -> FieldList<T> {
    FieldList { list: Rc::new(list_onto(s, List::Nil)) }
}

/// The field of a structure.
pub open spec fn selected_field(t: CTerm, field: String) -> Result<CTerm, CError> {
    match t.term {
        CTermData::CStruct(_, fs) => match fs.at(field@) {
            Some(v) => Ok(v),
            None => Err(CError::Reject(Reason::NoField(field))),
        },
        _ => Err(CError::Reject(Reason::NotStruct(t))),
    }
}

/// The structure with a field set.
pub open spec fn stored_field(t: CTerm, field: String, val: CTerm) -> Result<CTerm, CError> {
    match t.term {
        CTermData::CStruct(ty, fs) => match fs.at(field@) {
            Some(_) => Ok(value(CTermData::CStruct(ty, fs.with(field@, val)))),
            None => Err(CError::Reject(Reason::NoField(field))),
        },
        _ => Err(CError::Reject(Reason::NotStruct(t))),
    }
}

/// The element at `at` of an array of the type `ty` that a region holds.
pub open spec fn element(c: CircState, ty: Ty, id: Option<AllocId>, at: Term) -> Result<
    CTerm,
    CError,
> {
    match id {
        None => Err(CError::Fault(Reason::UnknownAlloc(None))),
        Some(i) => match ty.inner() {
            None => Err(CError::Fault(Reason::NotIndexable(ty))),
            Some(Ty::Bool) => match c.loaded(i, at) {
                Ok(t) => Ok(value(CTermData::CBool(t))),
                Err(e) => Err(e),
            },
            Some(Ty::Int(s, w)) => match c.loaded(i, at) {
                Ok(t) => Ok(value(CTermData::CInt(s, w, t))),
                Err(e) => Err(e),
            },
            Some(_) => Err(CError::Fault(Reason::Unsupported)),
        },
    }
}

/// The element of an array.
pub open spec fn selected(c: CircState, array: CTerm, idx: CTerm) -> Result<CTerm, CError> {
    match (array.term, idx.term) {
        (CTermData::CArray(ty, id), CTermData::CInt(_, _, i)) => element(c, ty, id, i),
        (CTermData::CStackPtr(ty, offset, id), CTermData::CInt(_, _, i)) => element(
            c,
            ty,
            id,
            term_op(Op::BvAdd, offset, i),
        ),
        _ => Err(CError::Reject(Reason::CannotSelect(array, idx))),
    }
}

/// The state with the terms from the `i`-th on stored at their positions behind `at`.
pub open spec fn stored_terms(c: CircState, id: AllocId, at: Term, ts: Seq<Term>, i: nat) -> Result<
    ((), CircState),
    CError,
>
    decreases ts.len() - i,
{
    if i >= ts.len() {
        Ok(((), c))
    } else {
        match c.stored(id, term_op(Op::BvAdd, at, lit_bv(i as int, 32)), ts[i as int]) {
            Err(e) => Err(e),
            Ok((_, c)) => stored_terms(c, id, at, ts, i + 1),
        }
    }
}

/// The state with a value stored behind `at` of a region, and what the assignment gives: the array
/// where the value has several terms, else the value.
pub open spec fn stored_value(
    c: CircState,
    ty: Ty,
    id: Option<AllocId>,
    at: Term,
    val: CTerm,
) -> Result<(CTerm, CircState), CError> {
    match id {
        None => Err(CError::Fault(Reason::UnknownAlloc(None))),
        Some(i) => match c.terms(val) {
            Err(e) => Err(e),
            Ok(ts) => match stored_terms(c, i, at, ts, 0) {
                Err(e) => Err(e),
                Ok((_, c)) => Ok(
                    (
                        if ts.len() > 1 {
                            value(CTermData::CArray(ty, id))
                        } else {
                            val
                        },
                        c,
                    ),
                ),
            },
        },
    }
}

/// The state with an element of an array set.
pub open spec fn stored(c: CircState, array: CTerm, idx: CTerm, val: CTerm) -> Result<
    (CTerm, CircState),
    CError,
> {
    match (array.term, idx.term) {
        (CTermData::CArray(ty, id), CTermData::CInt(_, _, i)) => stored_value(c, ty, id, i, val),
        (CTermData::CStackPtr(ty, offset, id), CTermData::CInt(_, _, i)) => stored_value(
            c,
            ty,
            id,
            term_op(Op::BvAdd, i, offset),
            val,
        ),
        _ => Err(CError::Reject(Reason::CannotStore(array, idx))),
    }
}

/// `base` with the place `loc` in it set to `val`.
pub open spec fn rebuilt(c: CircState, base: CTerm, loc: CLoc, val: CTerm) -> Result<
    (CTerm, CircState),
    CError,
>
    decreases loc,
{
    match loc {
        CLoc::Var(_) => Ok((val, c)),
        CLoc::Idx(inner, idx) => match selected(c, base, idx) {
            Err(e) => Err(e),
            Ok(v) => match rebuilt(c, v, *inner, val) {
                Err(e) => Err(e),
                Ok((w, c)) => stored(c, base, idx, w),
            },
        },
        CLoc::Member(inner, field) => match selected_field(base, field) {
            Err(e) => Err(e),
            Ok(v) => match rebuilt(c, v, *inner, val) {
                Err(e) => Err(e),
                Ok((w, c)) => match stored_field(base, field, w) {
                    Err(e) => Err(e),
                    Ok(r) => Ok((r, c)),
                },
            },
        },
    }
}

impl CLoc {
    /// The variable that the place is in.
    pub open spec fn root(self) -> Loc
        decreases self,
    {
        match self {
            CLoc::Var(l) => l,
            CLoc::Member(inner, _) => inner.root(),
            CLoc::Idx(inner, _) => inner.root(),
        }
    }
}

/// The array that an assignment to an element of the place `loc` writes to.
pub open spec fn indexed_array(c: CircState, loc: CLoc) -> Result<CTerm, CError> {
    match c.get(loc.root().name) {
        Err(e) => Err(e),
        Ok(base) => match loc {
            CLoc::Var(_) => Ok(base),
            CLoc::Member(_, field) => unwrapped(selected_field(base, field)),
            CLoc::Idx(_, idx) => unwrapped(selected(c, base, idx)),
        },
    }
}

/// Assignment to a place.
pub open spec fn assigned(c: CircState, loc: CLoc, val: CTerm) -> Result<
    (CTerm, CircState),
    CError,
> {
    match loc {
        CLoc::Var(l) => c.assigned(l.name, val),
        CLoc::Idx(l, idx) => match indexed_array(c, *l) {
            Err(e) => Err(e),
            Ok(array) => stored(c, array, idx, val),
        },
        CLoc::Member(l, field) => match c.get(l.root().name) {
            Err(e) => Err(e),
            Ok(base) => match selected_field(base, field) {
                Err(e) => Err(e),
                Ok(v) => match rebuilt(c, v, *l, val) {
                    Err(e) => Err(e),
                    Ok((w, c)) => match unwrapped(stored_field(base, field, w)) {
                        Err(e) => Err(e),
                        Ok(r) => c.assigned(l.root().name, r),
                    },
                },
            },
        },
    }
}

/// The 32-bit number that a value folds to.
pub open spec fn folded_i32(t: CTerm) -> Result<int, CError> {
    match t.one_term() {
        Err(e) => Err(e),
        Ok(x) => match value_i32(folded(x)).int_constant() {
            Err(e) => Err(e),
            Ok(n) => if i32::MIN <= n <= i32::MAX {
                Ok(n)
            } else {
                Err(CError::Fault(Reason::NotI32))
            },
        },
    }
}

/// `n`, a 32-bit number, as a size: a negative one wraps.
pub open spec fn as_size(n: int) -> int {
    if n >= 0 {
        n
    } else {
        usize::MAX + 1 + n
    }
}

/// The low 32 bits of a size, read as a two's complement number.
pub open spec fn low_i32(n: usize) -> int {
    let m = n as int % 0x1_0000_0000;
    if m >= 0x8000_0000 {
        m - 0x1_0000_0000
    } else {
        m
    }
}

/// The operator on values that a binary operator is.
pub open spec fn bin_op(op: BinaryOperator) -> Result<COp, CError> {
    match op {
        BinaryOperator::Plus => Ok(COp::Add),
        BinaryOperator::AssignPlus => Ok(COp::Add),
        BinaryOperator::AssignDivide => Ok(COp::Div),
        BinaryOperator::Minus => Ok(COp::Sub),
        BinaryOperator::Multiply => Ok(COp::Mul),
        BinaryOperator::Divide => Ok(COp::Div),
        BinaryOperator::Equals => Ok(COp::Eq),
        BinaryOperator::NotEquals => Ok(COp::Neq),
        BinaryOperator::Greater => Ok(COp::Ugt),
        BinaryOperator::GreaterOrEqual => Ok(COp::Uge),
        BinaryOperator::Less => Ok(COp::Ult),
        BinaryOperator::LessOrEqual => Ok(COp::Ule),
        BinaryOperator::BitwiseAnd => Ok(COp::BitAnd),
        BinaryOperator::BitwiseOr => Ok(COp::BitOr),
        BinaryOperator::BitwiseXor => Ok(COp::BitXor),
        BinaryOperator::LogicalAnd => Ok(COp::And),
        BinaryOperator::LogicalOr => Ok(COp::Or),
        BinaryOperator::Modulo => Ok(COp::Rem),
        BinaryOperator::ShiftLeft => Ok(COp::Shl),
        BinaryOperator::ShiftRight => Ok(COp::Shr),
        _ => Err(CError::Fault(Reason::Unsupported)),
    }
}

/// The operator on values by which a unary operator changes its operand.
pub open spec fn u_op(op: UnaryOperator) -> Result<COp, CError> {
    match op {
        UnaryOperator::PostIncrement => Ok(COp::Add),
        UnaryOperator::PostDecrement => Ok(COp::Sub),
        _ => Err(CError::Fault(Reason::Unsupported)),
    }
}

/// Whether an expression reads an element of an array.
pub open spec fn is_index(e: Expression) -> bool {
    e matches Expression::BinaryOperator(b) && b.operator == BinaryOperator::Index
}

/// The offset of an element: the sum, over the indices from the last to the first, of the index
/// times the number of elements that one step of it passes. `i` indices are summed up in `acc`;
/// one step of the next passes `total` elements.
pub open spec fn offset_from(
    sizes: Seq<usize>,
    indices: Seq<CTerm>,
    i: nat,
    total: int,
    acc: Term,
) -> Result<Term, CError>
    decreases indices.len() - i,
{
    if i >= indices.len() {
        Ok(acc)
    } else {
        match indices[indices.len() - 1 - i].one_term() {
            Err(e) => Err(e),
            Ok(t) => if i >= sizes.len() {
                Err(CError::Fault(Reason::TooManyIndices))
            } else {
                let passed = total * low_i32(sizes[i as int]);
                if !(i32::MIN <= passed <= i32::MAX) {
                    Err(CError::Fault(Reason::Overflow))
                } else {
                    offset_from(
                        sizes,
                        indices,
                        i + 1,
                        passed,
                        term_op(
                            Op::BvAdd,
                            if i == 0 {
                                t
                            } else {
                                term_op(Op::BvMul, lit_bv(total, 32), t)
                            },
                            acc,
                        ),
                    )
                }
            },
        }
    }
}

/// The offset of the element of `base` that the indices name.
pub open spec fn offset(base: CTerm, indices: Seq<CTerm>) -> Result<Term, CError> {
    match base.term.ty() {
        Ty::Array(_, sizes, _) => offset_from(sizes.seq(), indices, 0, 1, lit_bv(0, 32)),
        _ => if indices.len() != 1 {
            Err(CError::Fault(Reason::IndexCount))
        } else {
            indices[0].one_term()
        },
    }
}

/// The value of an indexed expression: an element, or, where there are fewer indices than
/// dimensions, the place where a smaller array starts.
pub open spec fn index_value(c: CircState, base: CTerm, indices: Seq<CTerm>) -> Result<
    CTerm,
    CError,
> {
    match offset(base, indices) {
        Err(e) => Err(e),
        Ok(at) => match base.term {
            CTermData::CArray(Ty::Array(n, sizes, t), id) => if indices.len() < sizes.seq().len() {
                Ok(
                    value(
                        CTermData::CStackPtr(
                            Ty::Array(n, Rc::new(sizes.without_last(indices.len())), t),
                            at,
                            id,
                        ),
                    ),
                )
            } else {
                selected(c, base, value_i32(at))
            },
            _ => selected(c, base, value_i32(at)),
        },
    }
}

// ---------------------------------------------------------------------------------------------
// Types
// ---------------------------------------------------------------------------------------------

/// The type of declaration specifiers from the `from`-th on.
pub open spec fn d_type(depth: nat, st: GenState, ds: Seq<DeclarationSpecifier>, from: nat) -> Step<
    Option<Ty>,
>
    decreases depth, 0nat, ds, ds.len() + 1,
{
    if from >= ds.len() {
        Err(CError::Fault(Reason::EmptySpecifiers))
    } else {
        match d_types(depth, st, ds, from, Seq::empty()) {
            Err(e) => Err(e),
            Ok((ts, st)) => match compressed(ts) {
                Err(e) => Err(e),
                Ok(t) => Ok((t, st)),
            },
        }
    }
}

/// The types of declaration specifiers from the `i`-th on, behind those in `acc`.
pub open spec fn d_types(
    depth: nat,
    st: GenState,
    ds: Seq<DeclarationSpecifier>,
    i: nat,
    acc: Seq<Option<Ty>>,
) -> Step<Seq<Option<Ty>>>
    decreases depth, 0nat, ds, ds.len() - i,
{
    if i >= ds.len() {
        Ok((acc, st))
    } else {
        match ds[i as int] {
            DeclarationSpecifier::TypeSpecifier(t) => match type_of(depth, st, t) {
                Err(e) => Err(e),
                Ok((ty, st)) => d_types(depth, st, ds, i + 1, acc.push(ty)),
            },
            _ => Err(CError::Fault(Reason::Unsupported)),
        }
    }
}

/// The type of specifiers and qualifiers.
pub open spec fn s_type(depth: nat, st: GenState, ss: Seq<SpecifierQualifier>) -> Step<Option<Ty>>
    decreases depth, 0nat, ss, ss.len() + 1,
{
    if ss.len() == 0 {
        Err(CError::Fault(Reason::EmptySpecifiers))
    } else {
        match s_types(depth, st, ss, 0, Seq::empty()) {
            Err(e) => Err(e),
            Ok((ts, st)) => match compressed(ts) {
                Err(e) => Err(e),
                Ok(t) => Ok((t, st)),
            },
        }
    }
}

/// The types of specifiers and qualifiers from the `i`-th on, behind those in `acc`.
pub open spec fn s_types(
    depth: nat,
    st: GenState,
    ss: Seq<SpecifierQualifier>,
    i: nat,
    acc: Seq<Option<Ty>>,
) -> Step<Seq<Option<Ty>>>
    decreases depth, 0nat, ss, ss.len() - i,
{
    if i >= ss.len() {
        Ok((acc, st))
    } else {
        match ss[i as int] {
            SpecifierQualifier::TypeSpecifier(t) => match type_of(depth, st, t) {
                Err(e) => Err(e),
                Ok((ty, st)) => s_types(depth, st, ss, i + 1, acc.push(ty)),
            },
            SpecifierQualifier::Other => Err(CError::Fault(Reason::Unsupported)),
        }
    }
}

/// The type of a type specifier; none for `void`.
pub open spec fn type_of(depth: nat, st: GenState, t: TypeSpecifier) -> Step<Option<Ty>>
    decreases depth, 0nat, t, 0nat,
{
    match t {
        TypeSpecifier::Void => Ok((None, st)),
        TypeSpecifier::Int => Ok((Some(Ty::Int(true, 32)), st)),
        TypeSpecifier::Unsigned => Ok((Some(Ty::Int(false, 32)), st)),
        TypeSpecifier::Long => Ok((Some(Ty::Int(true, 32)), st)),
        TypeSpecifier::Bool => Ok((Some(Ty::Bool), st)),
        TypeSpecifier::TypedefName(name) => if st.typedefs.dom().contains(name@) {
            Ok((Some(st.typedefs[name@]), st))
        } else {
            Err(CError::Fault(Reason::NoTypedef(name)))
        },
        TypeSpecifier::Struct(s) => struct_type(depth, st, *s),
        TypeSpecifier::Other => Err(CError::Fault(Reason::Unsupported)),
    }
}

/// The state with a structure type entered under its name, where it has one.
pub open spec fn with_struct(st: GenState, name: Option<String>, ty: Ty) -> GenState {
    match name {
        Some(n) => if n@.len() > 0 {
            GenState { structs: st.structs.insert(n@, ty), ..st }
        } else {
            st
        },
        None => st,
    }
}

/// A structure type: the known one of that name, else a new one with the declared fields.
pub open spec fn struct_type(depth: nat, st: GenState, s: StructType) -> Step<Option<Ty>>
    decreases depth, 0nat, s, 0nat,
{
    if s.identifier matches Some(n) && n@.len() > 0 && st.structs.dom().contains(n@) {
        Ok((Some(st.structs[s.identifier->0@]), st))
    } else {
        match s.declarations {
            None => {
                let ty = Ty::Struct(s.identifier, fields_of(Seq::empty()));
                Ok((Some(ty), with_struct(st, s.identifier, ty)))
            },
            Some(ds) => match struct_fields(depth, st, ds@, 0, Seq::empty()) {
                Err(e) => Err(e),
                Ok((fs, st)) => {
                    let ty = Ty::Struct(s.identifier, fields_of(fs));
                    Ok((Some(ty), with_struct(st, s.identifier, ty)))
                },
            },
        }
    }
}

/// The fields of structure declarations from the `i`-th on, behind those in `acc`.
pub open spec fn struct_fields(
    depth: nat,
    st: GenState,
    ds: Seq<StructDeclaration>,
    i: nat,
    acc: Seq<Field<Ty>>,
) -> Step<Seq<Field<Ty>>>
    decreases depth, 0nat, ds, ds.len() - i,
{
    if i >= ds.len() {
        Ok((acc, st))
    } else {
        match ds[i as int] {
            StructDeclaration::Field(f) => match s_type(depth, st, f.specifiers@) {
                Err(e) => Err(e),
                Ok((None, _)) => Err(CError::Fault(Reason::MissingType)),
                Ok((Some(base), st)) => match field_declarators(
                    depth,
                    st,
                    base,
                    f.declarators@,
                    0,
                    acc,
                ) {
                    Err(e) => Err(e),
                    Ok((acc, st)) => struct_fields(depth, st, ds, i + 1, acc),
                },
            },
            StructDeclaration::StaticAssert => Err(CError::Fault(Reason::Unsupported)),
        }
    }
}

/// The fields of the declarators of one structure declaration from the `i`-th on, behind those in
/// `acc`. The type of each is derived from that of the one before.
pub open spec fn field_declarators(
    depth: nat,
    st: GenState,
    base: Ty,
    ds: Seq<StructDeclarator>,
    i: nat,
    acc: Seq<Field<Ty>>,
) -> Step<Seq<Field<Ty>>>
    decreases depth, 0nat, ds, ds.len() - i,
{
    if i >= ds.len() {
        Ok((acc, st))
    } else {
        match ds[i as int].declarator {
            None => Err(CError::Fault(Reason::MissingDeclarator)),
            Some(d) => match decl_name(d) {
                Err(e) => Err(e),
                Ok(name) => match derived(depth, st, base, d.derived@, d.derived@.len()) {
                    Err(e) => Err(e),
                    Ok((ty, st)) => field_declarators(
                        depth,
                        st,
                        ty,
                        ds,
                        i + 1,
                        acc.push(Field { name, value: ty }),
                    ),
                },
            },
        }
    }
}

/// The type that one derivation makes of a type. An array of an array is one array with one more
/// dimension.
pub open spec fn derived_once(depth: nat, st: GenState, base: Ty, d: DerivedDeclarator) -> Step<Ty>
    decreases depth, 0nat, d, 0nat,
{
    match d {
        DerivedDeclarator::Array(ArraySize::VariableExpression(e)) => match expr(depth, st, *e) {
            Err(e) => Err(e),
            Ok((v, st)) => match folded_i32(v) {
                Err(e) => Err(e),
                Ok(n) => match array_of(base, as_size(n) as usize) {
                    Err(e) => Err(e),
                    Ok(ty) => Ok((ty, st)),
                },
            },
        },
        DerivedDeclarator::Array(ArraySize::Other) => Err(CError::Fault(Reason::MissingArraySize)),
        DerivedDeclarator::Pointer => Ok((Ty::Ptr(32, Rc::new(base)), st)),
        _ => Err(CError::Fault(Reason::Unsupported)),
    }
}

/// The array of `n` elements of the type `base`.
pub open spec fn array_of(base: Ty, n: usize) -> Result<Ty, CError> {
    match base {
        Ty::Array(m, sizes, t) => if n * m > usize::MAX {
            Err(CError::Fault(Reason::Overflow))
        } else {
            Ok(Ty::Array((n * m) as usize, Rc::new(sizes.push(n)), t))
        },
        _ => Ok(Ty::Array(n, Rc::new(List::Cons(n, Rc::new(List::Nil))), Rc::new(base))),
    }
}

/// The type that the first `k` derivations make of a type, the last first.
pub open spec fn derived(
    depth: nat,
    st: GenState,
    base: Ty,
    ds: Seq<DerivedDeclarator>,
    k: nat,
) -> Step<Ty>
    decreases depth, 0nat, ds, k,
{
    if k == 0 || k > ds.len() {
        Ok((base, st))
    } else {
        match derived_once(depth, st, base, ds[k - 1]) {
            Err(e) => Err(e),
            Ok((ty, st)) => derived(depth, st, ty, ds, (k - 1) as nat),
        }
    }
}

/// A parameter. Where `entry`, its first specifier says which party knows it.
pub open spec fn param(depth: nat, st: GenState, p: ParameterDeclaration, entry: bool) -> Step<
    ParamInfo,
>
    decreases depth, 0nat, p, 0nat,
{
    let vis = if entry {
        if p.specifiers@.len() == 0 {
            Err(CError::Fault(Reason::EmptySpecifiers))
        } else {
            visibility(p.specifiers@[0], st.mode)
        }
    } else {
        Ok(None)
    };
    match vis {
        Err(e) => Err(e),
        Ok(vis) => match d_type(
            depth,
            st,
            p.specifiers@,
            if entry {
                1
            } else {
                0
            },
        ) {
            Err(e) => Err(e),
            Ok((base, st)) => match p.declarator {
                None => Err(CError::Fault(Reason::MissingDeclarator)),
                Some(d) => match base {
                    None => Err(CError::Fault(Reason::MissingType)),
                    Some(base) => match derived(depth, st, base, d.derived@, d.derived@.len()) {
                        Err(e) => Err(e),
                        Ok((ty, st)) => match decl_name(d) {
                            Err(e) => Err(e),
                            Ok(name) => Ok((ParamInfo { name, ty, vis }, st)),
                        },
                    },
                },
            },
        },
    }
}

// ---------------------------------------------------------------------------------------------
// Expressions
// ---------------------------------------------------------------------------------------------

/// The place that an expression names.
pub open spec fn lval(depth: nat, st: GenState, e: Expression) -> Step<CLoc>
    decreases depth, 0nat, e, 3nat,
{
    match e {
        Expression::Identifier(name) => Ok((CLoc::Var(Loc { name }), st)),
        Expression::BinaryOperator(b) => if b.operator != BinaryOperator::Index {
            Err(CError::Fault(Reason::Unsupported))
        } else {
            match lval(depth, st, b.lhs) {
                Err(e) => Err(e),
                Ok((loc, st)) => match index(depth, st, e) {
                    Err(e) => Err(e),
                    Ok(((base, indices), st)) => match offset(base, indices) {
                        Err(e) => Err(e),
                        Ok(at) => {
                            let place = if b.lhs is BinaryOperator {
                                CLoc::Var(loc.root())
                            } else {
                                loc
                            };
                            Ok((CLoc::Idx(Box::new(place), value_i32(at)), st))
                        },
                    },
                },
            }
        },
        Expression::Member(m) => match expr_name(m.expression) {
            Err(e) => Err(e),
            Ok(name) => Ok(
                (CLoc::Member(Box::new(CLoc::Var(Loc { name })), m.identifier), st),
            ),
        },
        _ => Err(CError::Fault(Reason::Unsupported)),
    }
}

/// The array that an expression indexes, and the indices, the first first. Of an index that is
/// itself indexed, the array counts.
pub open spec fn index(depth: nat, st: GenState, e: Expression) -> Step<(CTerm, Seq<CTerm>)>
    decreases
            depth,
            0nat,
            e,
            if is_index(e) {
                0nat
            } else {
                2nat
            },
{
    match e {
        Expression::BinaryOperator(b) => if b.operator == BinaryOperator::Index {
            match index(depth, st, b.lhs) {
                Err(e) => Err(e),
                Ok(((base, indices), st)) => match index(depth, st, b.rhs) {
                    Err(e) => Err(e),
                    Ok(((i, _), st)) => Ok(((base, indices.push(i)), st)),
                },
            }
        } else {
            match expr(depth, st, e) {
                Err(e) => Err(e),
                Ok((v, st)) => Ok(((v, Seq::empty()), st)),
            }
        },
        _ => match expr(depth, st, e) {
            Err(e) => Err(e),
            Ok((v, st)) => Ok(((v, Seq::empty()), st)),
        },
    }
}

/// The value of an expression.
pub open spec fn expr(depth: nat, st: GenState, e: Expression) -> Step<CTerm>
    decreases depth, 0nat, e, 1nat,
{
    match e {
        Expression::Identifier(name) => match st.circ.get(name) {
            Err(e) => Err(e),
            Ok(v) => Ok((v, st)),
        },
        Expression::Constant(c) => match constant(c) {
            Err(e) => Err(e),
            Ok(v) => Ok((v, st)),
        },
        Expression::BinaryOperator(b) => if b.operator == BinaryOperator::Index {
            match index(depth, st, e) {
                Err(e) => Err(e),
                Ok(((base, indices), st)) => match index_value(st.circ, base, indices) {
                    Err(e) => Err(e),
                    Ok(v) => Ok((v, st)),
                },
            }
        } else {
            binary(depth, st, *b)
        },
        Expression::UnaryOperator(u) => unary(depth, st, *u),
        Expression::Cast(c) => match s_type(depth, st, c.target.specifiers@) {
            Err(e) => Err(e),
            Ok((ty, st)) => match expr(depth, st, c.expression) {
                Err(e) => Err(e),
                Ok((v, st)) => match cast_to(ty, v) {
                    Err(e) => Err(e),
                    Ok(v) => Ok((v, st)),
                },
            },
        },
        Expression::Call(c) => call(depth, st, *c),
        Expression::Member(m) => match expr(depth, st, m.expression) {
            Err(e) => Err(e),
            Ok((v, st)) => match selected_field(v, m.identifier) {
                Err(e) => Err(e),
                Ok(v) => Ok((v, st)),
            },
        },
        Expression::SizeOf(t) => match s_type(depth, st, t.specifiers@) {
            Err(e) => Err(e),
            Ok((None, _)) => Err(CError::Fault(Reason::MissingType)),
            Ok((Some(_), st)) => Ok((value_i32(lit_bv(1, 32)), st)),
        },
        Expression::Other => Err(CError::Fault(Reason::Unsupported)),
    }
}

/// The value of a binary operator other than the reading of an element.
pub open spec fn binary(depth: nat, st: GenState, b: BinaryOperatorExpression) -> Step<CTerm>
    decreases depth, 0nat, b, 0nat,
{
    match b.operator {
        BinaryOperator::Assign => match lval(depth, st, b.lhs) {
            Err(e) => Err(e),
            Ok((loc, st)) => match expr(depth, st, b.rhs) {
                Err(e) => Err(e),
                Ok((v, st)) => st.lift(assigned(st.circ, loc, v)),
            },
        },
        BinaryOperator::AssignPlus | BinaryOperator::AssignDivide => match expr(
            depth,
            st,
            b.lhs,
        ) {
            Err(e) => Err(e),
            Ok((a, st)) => match expr(depth, st, b.rhs) {
                Err(e) => Err(e),
                Ok((v, st)) => match lval(depth, st, b.lhs) {
                    Err(e) => Err(e),
                    Ok((loc, st)) => match unwrapped(apply(bin_op(b.operator)->Ok_0, a, v)) {
                        Err(e) => Err(e),
                        Ok(v) => st.lift(assigned(st.circ, loc, v)),
                    },
                },
            },
        },
        _ => match bin_op(b.operator) {
            Err(e) => Err(e),
            Ok(op) => match expr(depth, st, b.lhs) {
                Err(e) => Err(e),
                Ok((a, st)) => match expr(depth, st, b.rhs) {
                    Err(e) => Err(e),
                    Ok((v, st)) => match operated(op, a, v) {
                        Err(e) => Err(e),
                        Ok(r) => Ok((r, st)),
                    },
                },
            },
        },
    }
}

/// An operator on two values, where the amount of a shift is folded first.
pub open spec fn operated(op: COp, a: CTerm, b: CTerm) -> Result<CTerm, CError> {
    if op == COp::Shl || op == COp::Shr {
        match b.one_term() {
            Err(e) => Err(e),
            Ok(t) => apply(op, a, value_i32(folded(t))),
        }
    } else {
        apply(op, a, b)
    }
}

/// The value of a unary operator.
pub open spec fn unary(depth: nat, st: GenState, u: UnaryOperatorExpression) -> Step<CTerm>
    decreases depth, 0nat, u, 0nat,
{
    match u.operator {
        UnaryOperator::PostIncrement | UnaryOperator::PostDecrement => match expr(
            depth,
            st,
            u.operand,
        ) {
            Err(e) => Err(e),
            Ok((a, st)) => match lval(depth, st, u.operand) {
                Err(e) => Err(e),
                Ok((loc, st)) => match unwrapped(
                    apply(u_op(u.operator)->Ok_0, a, value_i32(lit_bv(1, 32))),
                ) {
                    Err(e) => Err(e),
                    Ok(v) => st.lift(assigned(st.circ, loc, v)),
                },
            },
        },
        UnaryOperator::SizeOf => match u.operand {
            Expression::Identifier(name) => if st.typedefs.dom().contains(name@) {
                Ok((value_i32(lit_bv(1, 32)), st))
            } else {
                Err(CError::Fault(Reason::UnknownType(name)))
            },
            _ => Err(CError::Fault(Reason::Unsupported)),
        },
        _ => Err(CError::Fault(Reason::Unsupported)),
    }
}

/// The values of expressions from the `i`-th on, behind those in `acc`.
pub open spec fn exprs(
    depth: nat,
    st: GenState,
    es: Seq<Expression>,
    i: nat,
    acc: Seq<CTerm>,
) -> Step<Seq<CTerm>>
    decreases depth, 0nat, es, es.len() - i,
{
    if i >= es.len() {
        Ok((acc, st))
    } else {
        match expr(depth, st, es[i as int]) {
            Err(e) => Err(e),
            Ok((v, st)) => exprs(depth, st, es, i + 1, acc.push(v)),
        }
    }
}

/// The parameters of a function.
pub open spec fn params(f: FnInfo) -> Seq<ParameterDeclaration> {
    match f.args {
        Some(ps) => ps@,
        None => Seq::empty(),
    }
}

/// The value of a call.
pub open spec fn call(depth: nat, st: GenState, c: CallExpression) -> Step<CTerm>
    decreases depth, 0nat, c, 0nat,
{
    match expr_name(c.callee) {
        Err(e) => Err(e),
        Ok(name) => if !st.functions.dom().contains(name@) {
            Err(CError::Fault(Reason::NoFunction(name)))
        } else {
            let f = st.functions[name@];
            match exprs(depth, st, c.arguments@, 0, Seq::empty()) {
                Err(e) => Err(e),
                Ok((args, st)) => if depth == 0 {
                    Err(CError::Fault(Reason::CallDepth))
                } else {
                    called((depth - 1) as nat, st, f, args)
                },
            }
        },
    }
}

/// The value of a function on given arguments. `depth` says how deeply calls may be nested in it.
pub open spec fn called(depth: nat, st: GenState, f: FnInfo, args: Seq<CTerm>) -> Step<CTerm>
    decreases depth, 9nat, f, 0nat,
{
    let st = st.with_circ(st.circ.entered_fn(f.name, f.ret_ty));
    if params(f).len() != args.len() {
        Err(CError::Fault(Reason::ArgumentCount))
    } else {
        match bound(depth, st, params(f), args, 0) {
            Err(e) => Err(e),
            Ok((_, st)) => match stmt(depth, st, *f.body) {
                Err(e) => Err(e),
                Ok((_, st)) => match st.lift(st.circ.exited_fn()) {
                    Err(e) => Err(e),
                    Ok((r, st)) => {
                        let v = match r {
                            Some(v) => v,
                            None => value_false(),
                        };
                        match f.ret_ty {
                            None => Ok((v, st)),
                            Some(_) => match cast_to(f.ret_ty, v) {
                                Err(e) => Err(e),
                                Ok(v) => Ok((v, st)),
                            },
                        }
                    },
                },
            },
        }
    }
}

/// The state with the parameters from the `i`-th on bound to the arguments.
pub open spec fn bound(
    depth: nat,
    st: GenState,
    ps: Seq<ParameterDeclaration>,
    args: Seq<CTerm>,
    i: nat,
) -> Step<()>
    decreases depth, 0nat, ps, ps.len() - i,
{
    if i >= ps.len() {
        Ok(((), st))
    } else {
        match param(depth, st, ps[i as int], false) {
            Err(e) => Err(e),
            Ok((p, st)) => match st.lift(st.circ.declared(p.name, p.ty, args[i as int])) {
                Err(e) => Err(e),
                Ok((_, st)) => bound(depth, st, ps, args, i + 1),
            },
        }
    }
}

// ---------------------------------------------------------------------------------------------
// Declarations
// ---------------------------------------------------------------------------------------------

/// The values of the expressions in an initializer, behind those in `acc`.
pub open spec fn leaves(depth: nat, st: GenState, i: Initializer, acc: Seq<CTerm>) -> Step<
    Seq<CTerm>,
>
    decreases depth, 1nat, i, 0nat,
{
    match i {
        Initializer::Expression(e) => match expr(depth, st, *e) {
            Err(e) => Err(e),
            Ok((v, st)) => Ok((acc.push(v), st)),
        },
        Initializer::List(l) => leaves_from(depth, st, l@, 0, acc),
    }
}

/// The values of the expressions in initializers from the `i`-th on, behind those in `acc`.
pub open spec fn leaves_from(
    depth: nat,
    st: GenState,
    l: Seq<Initializer>,
    i: nat,
    acc: Seq<CTerm>,
) -> Step<Seq<CTerm>>
    decreases depth, 1nat, l, l.len() - i,
{
    if i >= l.len() {
        Ok((acc, st))
    } else {
        match leaves(depth, st, l[i as int], acc) {
            Err(e) => Err(e),
            Ok((acc, st)) => leaves_from(depth, st, l, i + 1, acc),
        }
    }
}

/// The state with the values from the `i`-th on stored at their positions in a region.
pub open spec fn stored_values(c: CircState, id: AllocId, vs: Seq<CTerm>, i: nat) -> Result<
    ((), CircState),
    CError,
>
    decreases vs.len() - i,
{
    if i >= vs.len() {
        Ok(((), c))
    } else {
        match vs[i as int].one_term() {
            Err(e) => Err(e),
            Ok(t) => match c.stored(id, lit_bv(i as int, 32), t) {
                Err(e) => Err(e),
                Ok((_, c)) => stored_values(c, id, vs, i + 1),
            },
        }
    }
}

/// The array with the given elements.
pub open spec fn array_value(c: CircState, ty: Ty, n: usize, t: Ty, vs: Seq<CTerm>) -> Result<
    (CTerm, CircState),
    CError,
> {
    if n != vs.len() {
        Err(CError::Fault(Reason::InitializerCount))
    } else if t.bits() > usize::MAX {
        Err(CError::Fault(Reason::Overflow))
    } else {
        let (id, c) = c.allocated(n, t.bits() as usize);
        match stored_values(c, id, vs, 0) {
            Err(e) => Err(e),
            Ok((_, c)) => Ok((value(CTermData::CArray(ty, Some(id))), c)),
        }
    }
}

/// The value of an initializer of the type `ty`. A structure starts from zero.
pub open spec fn init(depth: nat, st: GenState, ty: Ty, i: Initializer) -> Step<CTerm>
    decreases depth, 1nat, i, 1nat,
{
    match i {
        Initializer::Expression(e) => expr(depth, st, *e),
        Initializer::List(l) => match ty {
            Ty::Array(n, _, t) => match leaves(depth, st, i, Seq::empty()) {
                Err(e) => Err(e),
                Ok((vs, st)) => st.lift(array_value(st.circ, ty, n, *t, vs)),
            },
            Ty::Struct(_, fs) => if fs.len() != l@.len() {
                Err(CError::Fault(Reason::InitializerCount))
            } else {
                st.lift(st.circ.zero(ty))
            },
            _ => Err(CError::Fault(Reason::Unsupported)),
        },
    }
}

/// The type that the declarators from the `i`-th on derive from `ty`, one after the other.
pub open spec fn declarators_type(
    depth: nat,
    st: GenState,
    ty: Ty,
    ds: Seq<InitDeclarator>,
    i: nat,
) -> Step<Ty>
    decreases depth, 2nat, ds, ds.len() - i,
{
    if i >= ds.len() {
        Ok((ty, st))
    } else {
        let d = ds[i as int].declarator;
        match derived(depth, st, ty, d.derived@, d.derived@.len()) {
            Err(e) => Err(e),
            Ok((ty, st)) => declarators_type(depth, st, ty, ds, i + 1),
        }
    }
}

/// The type of a declared name, and the state behind: a structure is entered under the name of
/// what is declared, unless that name has a structure already, which then is the type.
pub open spec fn declared_type(st: GenState, name: String, ty: Ty) -> (Ty, GenState) {
    match ty {
        Ty::Struct(_, _) => if st.structs.dom().contains(name@) {
            (st.structs[name@], st)
        } else {
            (ty, GenState { structs: st.structs.insert(name@, ty), ..st })
        },
        _ => (ty, st),
    }
}

/// What the declarators from the `i`-th on declare, behind what `acc` holds.
pub open spec fn declarators_info(
    st: GenState,
    ty: Ty,
    ds: Seq<InitDeclarator>,
    i: nat,
    acc: Seq<DeclInfo>,
) -> Step<Seq<DeclInfo>>
    decreases ds.len() - i,
{
    if i >= ds.len() {
        Ok((acc, st))
    } else {
        match decl_name(ds[i as int].declarator) {
            Err(e) => Err(e),
            Ok(name) => {
                let (t, st) = declared_type(st, name, ty);
                declarators_info(st, ty, ds, i + 1, acc.push(DeclInfo { name, ty: t }))
            },
        }
    }
}

/// What a declaration declares, where its type starts with the `from`-th specifier.
pub open spec fn decl_info(depth: nat, st: GenState, d: Declaration, from: nat) -> Step<
    Seq<DeclInfo>,
>
    decreases depth, 3nat, d, 0nat,
{
    match d_type(depth, st, d.specifiers@, from) {
        Err(e) => Err(e),
        Ok((None, _)) => Err(CError::Fault(Reason::MissingType)),
        Ok((Some(ty), st)) => match declarators_type(depth, st, ty, d.declarators@, 0) {
            Err(e) => Err(e),
            Ok((ty, st)) => declarators_info(st, ty, d.declarators@, 0, Seq::empty()),
        },
    }
}

/// The state with type names from the `i`-th on defined.
pub open spec fn typedefs_from(st: GenState, infos: Seq<DeclInfo>, i: nat) -> Step<()>
    decreases infos.len() - i,
{
    if i >= infos.len() {
        Ok(((), st))
    } else {
        let d = infos[i as int];
        if st.typedefs.dom().contains(d.name@) {
            Err(CError::Fault(Reason::TypedefRedefined(d.name)))
        } else {
            typedefs_from(
                GenState { typedefs: st.typedefs.insert(d.name@, d.ty), ..st },
                infos,
                i + 1,
            )
        }
    }
}

/// The initial value of a variable.
pub open spec fn initial(depth: nat, st: GenState, ty: Ty, i: Option<Initializer>) -> Step<CTerm>
    decreases depth, 2nat, i, 0nat,
{
    match i {
        Some(i) => init(depth, st, ty, i),
        None => st.lift(st.circ.zero(ty)),
    }
}

/// The state with the variables from the `i`-th on declared, and their initial values behind those
/// in `acc`.
pub open spec fn variables_from(
    depth: nat,
    st: GenState,
    ds: Seq<InitDeclarator>,
    infos: Seq<DeclInfo>,
    i: nat,
    acc: Seq<CTerm>,
) -> Step<Seq<CTerm>>
    decreases depth, 3nat, ds, ds.len() - i,
{
    if i >= ds.len() || i >= infos.len() {
        Ok((acc, st))
    } else {
        let d = infos[i as int];
        match initial(depth, st, d.ty, ds[i as int].initializer) {
            Err(e) => Err(e),
            Ok((v, st)) => match cast_to(Some(d.ty), v) {
                Err(e) => Err(e),
                Ok(w) => match st.lift(st.circ.declared(d.name, d.ty, w)) {
                    Err(e) => Err(e),
                    Ok((_, st)) => variables_from(depth, st, ds, infos, i + 1, acc.push(v)),
                },
            },
        }
    }
}

/// The state behind a declaration, and the initial values of the variables that it declares. One
/// with a storage class defines type names.
pub open spec fn decl(depth: nat, st: GenState, d: Declaration) -> Step<Seq<CTerm>>
    decreases depth, 4nat, d, 0nat,
{
    if d.specifiers@.len() == 0 {
        Err(CError::Fault(Reason::EmptySpecifiers))
    } else if d.specifiers@[0] is StorageClass {
        match decl_info(depth, st, d, 1) {
            Err(e) => Err(e),
            Ok((infos, st)) => match typedefs_from(st, infos, 0) {
                Err(e) => Err(e),
                Ok((_, st)) => Ok((Seq::empty(), st)),
            },
        }
    } else {
        match decl_info(depth, st, d, 0) {
            Err(e) => Err(e),
            Ok((infos, st)) => variables_from(depth, st, d.declarators@, infos, 0, Seq::empty()),
        }
    }
}

// ---------------------------------------------------------------------------------------------
// Statements
// ---------------------------------------------------------------------------------------------

/// The value that an optional expression folds to.
pub open spec fn folded_expr(depth: nat, st: GenState, e: Expression) -> Step<Option<int>>
    decreases depth, 1nat, e, 0nat,
{
    match expr(depth, st, e) {
        Err(e) => Err(e),
        Ok((v, st)) => match folded_i32(v) {
            Err(e) => Err(e),
            Ok(n) => Ok((Some(n), st)),
        },
    }
}

/// The value from which a loop counts; none where the header is not understood.
pub open spec fn loop_start(depth: nat, st: GenState, i: ForInitializer) -> Step<Option<int>>
    decreases depth, 5nat, i, 0nat,
{
    match i {
        ForInitializer::Declaration(d) => match decl(depth, st, d) {
            Err(e) => Err(e),
            Ok((vs, st)) => if vs.len() != 1 {
                Err(CError::Fault(Reason::LoopDeclaration))
            } else {
                match folded_i32(vs[0]) {
                    Err(e) => Err(e),
                    Ok(n) => Ok((Some(n), st)),
                }
            },
        },
        ForInitializer::Expression(e) => if e is BinaryOperator {
            folded_expr(depth, st, e)
        } else {
            Ok((None, st))
        },
        ForInitializer::Other => Ok((None, st)),
    }
}

/// The value at which a loop that counts by a comparison with `n` ends; none where the operator is
/// no such comparison.
pub open spec fn loop_bound(op: BinaryOperator, n: int) -> Result<Option<int>, CError> {
    match op {
        BinaryOperator::Less => Ok(Some(n)),
        BinaryOperator::LessOrEqual => if n + 1 > i32::MAX {
            Err(CError::Fault(Reason::Overflow))
        } else {
            Ok(Some(n + 1))
        },
        BinaryOperator::Greater => Ok(Some(n)),
        BinaryOperator::GreaterOrEqual => if n - 1 < i32::MIN {
            Err(CError::Fault(Reason::Overflow))
        } else {
            Ok(Some(n - 1))
        },
        _ => Ok(None),
    }
}

/// The value at which a loop ends; none where the header is not understood.
pub open spec fn loop_end(depth: nat, st: GenState, c: Option<Expression>) -> Step<Option<int>>
    decreases depth, 5nat, c, 0nat,
{
    match c {
        None => Err(CError::Fault(Reason::LoopHeader)),
        Some(Expression::BinaryOperator(b)) => match folded_expr(depth, st, b.rhs) {
            Err(e) => Err(e),
            Ok((n, st)) => match loop_bound(b.operator, n->0) {
                Err(e) => Err(e),
                Ok(n) => Ok((n, st)),
            },
        },
        Some(_) => Ok((None, st)),
    }
}

/// The value by which a loop counts; none where the header is not understood.
pub open spec fn loop_step(depth: nat, st: GenState, s: Option<Expression>) -> Step<Option<int>>
    decreases depth, 5nat, s, 0nat,
{
    match s {
        None => Err(CError::Fault(Reason::LoopHeader)),
        Some(Expression::UnaryOperator(u)) => match u.operator {
            UnaryOperator::PostIncrement | UnaryOperator::PreIncrement => Ok((Some(1int), st)),
            UnaryOperator::PostDecrement | UnaryOperator::PreDecrement => Ok((Some(-1int), st)),
            _ => Ok((None, st)),
        },
        Some(Expression::BinaryOperator(b)) => if b.operator == BinaryOperator::AssignPlus {
            folded_expr(depth, st, b.rhs)
        } else {
            Ok((None, st))
        },
        Some(_) => Ok((None, st)),
    }
}

/// How often a loop runs.
pub open spec fn iterations(depth: nat, st: GenState, f: ForStatement) -> Step<int>
    decreases depth, 6nat, f, 0nat,
{
    match loop_start(depth, st, f.initializer) {
        Err(e) => Err(e),
        Ok((start, st)) => match loop_end(depth, st, f.condition) {
            Err(e) => Err(e),
            Ok((end, st)) => match loop_step(depth, st, f.step) {
                Err(e) => Err(e),
                Ok((step, st)) => match (start, end, step) {
                    (Some(start), Some(end), Some(step)) => Ok((trips(start, end, step), st)),
                    _ => Err(CError::Fault(Reason::LoopHeader)),
                },
            },
        },
    }
}

/// The state behind `n` rounds of a loop.
pub open spec fn rounds(depth: nat, st: GenState, f: ForStatement, n: nat) -> Step<()>
    decreases depth, 8nat, f, n,
{
    if n == 0 {
        Ok(((), st))
    } else {
        match one_round(depth, st, f) {
            Err(e) => Err(e),
            Ok((_, st)) => rounds(depth, st, f, (n - 1) as nat),
        }
    }
}

/// The state behind one round of a loop: its body in a scope of its own, then its step.
pub open spec fn one_round(depth: nat, st: GenState, f: ForStatement) -> Step<()>
    decreases depth, 8nat, f, 0nat,
{
    match st.lift(st.circ.entered_scope()) {
        Err(e) => Err(e),
        Ok((_, st)) => match stmt(depth, st, f.statement) {
            Err(e) => Err(e),
            Ok((_, st)) => match st.lift(st.circ.exited_scope()) {
                Err(e) => Err(e),
                Ok((_, st)) => match f.step {
                    None => Err(CError::Fault(Reason::LoopHeader)),
                    Some(e) => match expr(depth, st, e) {
                        Err(e) => Err(e),
                        Ok((_, st)) => Ok(((), st)),
                    },
                },
            },
        },
    }
}

/// The state behind a branch that is taken where `c` holds.
pub open spec fn branch(depth: nat, st: GenState, c: Term, s: Statement) -> Step<()>
    decreases depth, 8nat, s, 1nat,
{
    match st.lift(st.circ.entered_condition(c)) {
        Err(e) => Err(e),
        Ok((_, st)) => match stmt(depth, st, s) {
            Err(e) => Err(e),
            Ok((_, st)) => st.lift(st.circ.exited_condition()),
        },
    }
}

/// The state behind the items of a block from the `i`-th on.
pub open spec fn block(depth: nat, st: GenState, items: Seq<BlockItem>, i: nat) -> Step<()>
    decreases depth, 8nat, items, items.len() - i,
{
    if i >= items.len() {
        Ok(((), st))
    } else {
        match items[i as int] {
            BlockItem::Declaration(d) => match decl(depth, st, d) {
                Err(e) => Err(e),
                Ok((_, st)) => block(depth, st, items, i + 1),
            },
            BlockItem::Statement(s) => match stmt(depth, st, s) {
                Err(e) => Err(e),
                Ok((_, st)) => block(depth, st, items, i + 1),
            },
            BlockItem::StaticAssert => Err(CError::Fault(Reason::Unsupported)),
        }
    }
}

/// The state behind a statement.
pub open spec fn stmt(depth: nat, st: GenState, s: Statement) -> Step<()>
    decreases depth, 8nat, s, 0nat,
{
    match s {
        Statement::Compound(items) => block(depth, st, items@, 0),
        Statement::If(i) => match expr(depth, st, i.condition) {
            Err(e) => Err(e),
            Ok((c, st)) => match c.one_term() {
                Err(e) => Err(e),
                Ok(t) => match branch(depth, st, t, i.then_statement) {
                    Err(e) => Err(e),
                    Ok((_, st)) => match i.else_statement {
                        None => Ok(((), st)),
                        Some(s) => branch(depth, st, term_not(t), s),
                    },
                },
            },
        },
        Statement::Return(None) => st.lift(st.circ.returned(None)),
        Statement::Return(Some(e)) => match expr(depth, st, *e) {
            Err(e) => Err(e),
            Ok((v, st)) => st.lift(st.circ.returned(Some(v))),
        },
        Statement::Expression(None) => Ok(((), st)),
        Statement::Expression(Some(e)) => match expr(depth, st, *e) {
            Err(e) => Err(e),
            Ok((_, st)) => Ok(((), st)),
        },
        Statement::For(f) => match st.lift(st.circ.entered_scope()) {
            Err(e) => Err(e),
            Ok((_, st)) => match iterations(depth, st, *f) {
                Err(e) => Err(e),
                Ok((n, st)) => match rounds(
                    depth,
                    st,
                    *f,
                    if n > 0 {
                        n as nat
                    } else {
                        0
                    },
                ) {
                    Err(e) => Err(e),
                    Ok((_, st)) => st.lift(st.circ.exited_scope()),
                },
            },
        },
        Statement::Other => Err(CError::Fault(Reason::Unsupported)),
    }
}

// ---------------------------------------------------------------------------------------------
// Programs
// ---------------------------------------------------------------------------------------------

/// A function definition as a function that can be called.
pub open spec fn fn_info(depth: nat, st: GenState, f: FunctionDefinition) -> Step<FnInfo> {
    match decl_name(f.declarator) {
        Err(e) => Err(e),
        Ok(name) => match d_type(depth, st, f.specifiers@, 0) {
            Err(e) => Err(e),
            Ok((ret_ty, st)) => Ok(
                (
                    FnInfo {
                        name,
                        ret_ty,
                        args: fn_args(f.declarator.derived@, 0),
                        body: f.statement,
                    },
                    st,
                ),
            ),
        },
    }
}

/// The state behind the external declarations from the `i`-th on.
pub open spec fn visited(depth: nat, st: GenState, nodes: Seq<ExternalDeclaration>, i: nat) -> Step<
    (),
>
    decreases nodes.len() - i,
{
    if i >= nodes.len() {
        Ok(((), st))
    } else {
        match nodes[i as int] {
            ExternalDeclaration::Declaration(d) => match decl(depth, st, d) {
                Err(e) => Err(e),
                Ok((_, st)) => visited(depth, st, nodes, i + 1),
            },
            ExternalDeclaration::FunctionDefinition(f) => match fn_info(depth, st, f) {
                Err(e) => Err(e),
                Ok((info, st)) => visited(
                    depth,
                    GenState { functions: st.functions.insert(info.name@, info), ..st },
                    nodes,
                    i + 1,
                ),
            },
            ExternalDeclaration::Other => Err(CError::Fault(Reason::Unsupported)),
        }
    }
}

/// The state with the parameters of the entry function from the `i`-th on declared as inputs.
pub open spec fn entry_params(
    depth: nat,
    st: GenState,
    ps: Seq<ParameterDeclaration>,
    i: nat,
) -> Step<()>
    decreases ps.len() - i,
{
    if i >= ps.len() {
        Ok(((), st))
    } else {
        match param(depth, st, ps[i as int], true) {
            Err(e) => Err(e),
            Ok((p, st)) => match st.lift(st.circ.declared_input(p.name, p.ty, p.vis)) {
                Err(e) => Err(e),
                Ok((_, st)) => entry_params(depth, st, ps, i + 1),
            },
        }
    }
}

/// The state with what the entry function returned made known: in a multi-party computation its
/// terms are the outputs of the circuit; no other mode supports it.
pub open spec fn published(st: GenState, r: CTerm) -> Step<()> {
    match st.mode {
        Mode::Mpc(_) => match st.circ.terms(r) {
            Err(e) => Err(e),
            Ok(ts) => Ok(
                ((), st.with_circ(CircState { outputs: st.circ.outputs + ts, ..st.circ })),
            ),
        },
        _ => Err(CError::Fault(Reason::Unsupported)),
    }
}

/// The state behind the translation of the entry function called `name`.
pub open spec fn entry(depth: nat, st: GenState, name: String) -> Step<()> {
    if !st.functions.dom().contains(name@) {
        Err(CError::Fault(Reason::NoFunction(name)))
    } else {
        let f = st.functions[name@];
        let st = st.with_circ(st.circ.entered_fn(f.name, f.ret_ty));
        match entry_params(depth, st, params(f), 0) {
            Err(e) => Err(e),
            Ok((_, st)) => match stmt(depth, st, *f.body) {
                Err(e) => Err(e),
                Ok((_, st)) => match st.lift(st.circ.exited_fn()) {
                    Err(e) => Err(e),
                    Ok((None, st)) => Ok(((), st)),
                    Ok((Some(r), st)) => published(st, r),
                },
            },
        }
    }
}

/// The state in which a translation starts.
pub open spec fn start(mode: Mode) -> GenState {
    GenState {
        circ: CircState {
            frames: Seq::empty(),
            globals: List::Nil,
            allocs: Seq::empty(),
            inputs: Seq::empty(),
            outputs: Seq::empty(),
            parties: seq![Party::Prover, Party::Verifier],
        },
        mode,
        structs: Map::empty(),
        functions: Map::empty(),
        typedefs: Map::empty(),
    }
}

/// The state behind the translation of a program whose entry function is called `name`.
pub open spec fn program(
    depth: nat,
    mode: Mode,
    nodes: Seq<ExternalDeclaration>,
    name: String,
) -> Step<()> {
    match visited(depth, start(mode), nodes, 0) {
        Err(e) => Err(e),
        Ok((_, st)) => entry(depth, st, name),
    }
}

} // verus!
