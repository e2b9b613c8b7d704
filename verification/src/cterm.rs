//! C values during translation: their terms, their conversions and the operators on them.
use vstd::prelude::*;

use crate::error::CError;
use crate::error::Reason;
use crate::ir::as_signed;
use crate::ir::bool_lit;
use crate::ir::bv_lit;
use crate::ir::lit_bool;
use crate::ir::lit_bv;
use crate::ir::mk_ite;
use crate::ir::mk_not;
use crate::ir::mk_op;
use crate::ir::signed_value;
use crate::ir::term_ite;
use crate::ir::term_not;
use crate::ir::term_op;
use crate::ir::Node;
use crate::ir::Op;
use crate::ir::Term;
use crate::ir::Value;
use crate::types::FieldList;
use crate::types::Ty;

verus! {

/// The number of a memory region.
pub type AllocId = usize;

/// A C value.
#[derive(Debug, PartialEq, Eq)]
pub enum CTermData {
    CBool(Term),
    /// An integer: whether it is signed, its width and its term.
    CInt(bool, usize, Term),
    /// An array: its type and the region that holds it.
    CArray(Ty, Option<AllocId>),
    /// A position within an array: the type there, the offset and the region.
    CStackPtr(Ty, Term, Option<AllocId>),
    CStruct(Ty, FieldList<CTerm>),
}

/// A C value.
#[derive(Debug, PartialEq, Eq)]
pub struct CTerm {
    pub term: CTermData,
}

/// The binary operators on C values.
#[derive(Debug, Clone, Copy, PartialEq, Eq, Structural)]
pub enum COp {
    Add,
    Sub,
    Mul,
    Div,
    Rem,
    BitAnd,
    BitOr,
    BitXor,
    Eq,
    Neq,
    Ugt,
    Uge,
    Ult,
    Ule,
    And,
    Or,
    Shl,
    Shr,
}

/// The value with this data.
pub open spec fn value(d: CTermData) -> CTerm {
    CTerm { term: d }
}

/// Makes the value with this data.
pub fn cterm(d: CTermData) -> (r: CTerm)
    ensures
        r == value(d),
{
    CTerm { term: d }
}

impl Clone for CTermData {
    fn clone(&self) -> (r: CTermData)
        ensures
            r == *self,
    {
        match self {
            CTermData::CBool(t) => CTermData::CBool(t.clone()),
            CTermData::CInt(s, w, t) => CTermData::CInt(*s, *w, t.clone()),
            CTermData::CArray(ty, id) => CTermData::CArray(ty.clone(), *id),
            CTermData::CStackPtr(ty, o, id) => CTermData::CStackPtr(ty.clone(), o.clone(), *id),
            CTermData::CStruct(ty, fs) => CTermData::CStruct(ty.clone(), fs.clone()),
        }
    }
}

impl Clone for CTerm {
    fn clone(&self) -> (r: CTerm)
        ensures
            r == *self,
    {
        CTerm { term: self.term.clone() }
    }
}

impl CTermData {
    /// The type of the value.
    pub open spec fn ty(self) -> Ty {
        match self {
            CTermData::CBool(_) => Ty::Bool,
            CTermData::CInt(s, w, _) => Ty::Int(s, w),
            CTermData::CArray(ty, _) => ty,
            CTermData::CStackPtr(ty, _, _) => ty,
            CTermData::CStruct(ty, _) => ty,
        }
    }

    /// The type of the value.
    pub fn type_(&self) -> (r: Ty)
        ensures
            r == self.ty(),
    {
        match self {
            CTermData::CBool(_) => Ty::Bool,
            CTermData::CInt(s, w, _) => Ty::Int(*s, *w),
            CTermData::CArray(ty, _) => ty.clone(),
            CTermData::CStackPtr(ty, _, _) => ty.clone(),
            CTermData::CStruct(ty, _) => ty.clone(),
        }
    }
}

impl CTerm {
    /// The one term that the value is; a fault for an array, a pointer or a structure.
    pub open spec fn one_term(self) -> Result<Term, CError> {
        match self.term {
            CTermData::CBool(t) => Ok(t),
            CTermData::CInt(_, _, t) => Ok(t),
            _ => Err(CError::Fault(Reason::NotScalar(self))),
        }
    }

    /// The one term that the value is.
    pub fn simple_term(&self) -> (r: Result<Term, CError>)
        ensures
            r == self.one_term(),
    {
        match &self.term {
            CTermData::CBool(t) => Ok(t.clone()),
            CTermData::CInt(_, _, t) => Ok(t.clone()),
            _ => Err(CError::Fault(Reason::NotScalar(self.clone()))),
        }
    }

    /// The number that the value is, where it is an integer literal.
    pub open spec fn int_constant(self) -> Result<int, CError> {
        match self.term {
            CTermData::CInt(s, _, t) => match t.node() {
                Node::Const(Value::Bv(w, v)) => Ok(
                    if s {
                        as_signed(w, v)
                    } else {
                        v as int
                    },
                ),
                _ => Err(CError::Fault(Reason::NotConstant(self))),
            },
            _ => Err(CError::Fault(Reason::NotConstant(self))),
        }
    }

    /// The number that the value is, where it is an integer literal.
    pub fn const_int(&self) -> (r: Result<i128, CError>)
        ensures
            match (r, self.int_constant()) {
                (Ok(a), Ok(b)) => a == b,
                (Err(a), Err(b)) => a == b,
                _ => false,
            },
            r matches Ok(a) ==> -0x1_0000_0000_0000_0000 <= a <= u64::MAX,
    {
        match &self.term {
            CTermData::CInt(s, _, t) => match t.head() {
                Node::Const(Value::Bv(w, v)) => Ok(
                    if *s {
                        signed_value(*w, *v)
                    } else {
                        *v as i128
                    },
                ),
                _ => Err(CError::Fault(Reason::NotConstant(self.clone()))),
            },
            _ => Err(CError::Fault(Reason::NotConstant(self.clone()))),
        }
    }
}

/// The number of a truth value: one where it holds, else zero.
pub open spec fn bool_to_bv(t: Term, w: usize) -> Term {
    term_ite(t, lit_bv(1, w), lit_bv(0, w))
}

/// Whether a number is not zero.
pub open spec fn bv_to_bool(t: Term, w: usize) -> Term {
    term_not(term_op(Op::Eq, lit_bv(0, w), t))
}

/// An integer of sign `s` and width `w` brought to width `v`.
pub open spec fn resized(s: bool, w: usize, t: Term, v: usize) -> Term {
    if v > w {
        if s {
            Term::of(Node::SignExt(v, t))
        } else {
            Term::of(Node::ZeroExt(v, t))
        }
    } else if v < w {
        Term::of(Node::Truncate(v, t))
    } else {
        t
    }
}

/// The value `t` converted to the type `to`.
pub open spec fn cast_to(to: Option<Ty>, t: CTerm) -> Result<CTerm, CError> {
    match (t.term, to) {
        (CTermData::CBool(x), Some(Ty::Int(s, w))) => Ok(
            value(CTermData::CInt(s, w, bool_to_bv(x, w))),
        ),
        (CTermData::CBool(_), Some(Ty::Bool)) => Ok(t),
        (CTermData::CInt(_, w, x), Some(Ty::Bool)) => Ok(value(CTermData::CBool(bv_to_bool(x, w)))),
        (CTermData::CInt(s, w, x), Some(Ty::Int(to_s, to_w))) => Ok(
            value(CTermData::CInt(to_s, to_w, resized(s, w, x, to_w))),
        ),
        (CTermData::CArray(_, _), Some(Ty::Array(_, _, _))) => Ok(t),
        (CTermData::CArray(_, _), Some(Ty::Ptr(_, _))) => Ok(t),
        (CTermData::CStackPtr(_, _, _), Some(Ty::Array(_, _, _))) => Ok(t),
        (CTermData::CStackPtr(_, _, _), Some(Ty::Ptr(_, _))) => Ok(t),
        (CTermData::CStruct(_, _), Some(Ty::Struct(_, _))) => Ok(t),
        _ => Err(CError::Fault(Reason::BadCast(t, to))),
    }
}

fn resize(s: bool, w: usize, t: Term, v: usize) -> (r: Term)
    ensures
        r == resized(s, w, t, v),
{
    if v > w {
        if s {
            Term::new(Node::SignExt(v, t))
        } else {
            Term::new(Node::ZeroExt(v, t))
        }
    } else if v < w {
        Term::new(Node::Truncate(v, t))
    } else {
        t
    }
}

fn mk_bool_to_bv(t: Term, w: usize) -> (r: Term)
    ensures
        r == bool_to_bv(t, w),
{
    mk_ite(t, bv_lit(1, w), bv_lit(0, w))
}

fn mk_bv_to_bool(t: Term, w: usize) -> (r: Term)
    ensures
        r == bv_to_bool(t, w),
{
    mk_not(mk_op(Op::Eq, bv_lit(0, w), t))
}

/// Converts a value to a type.
pub fn cast(to: Option<Ty>, t: CTerm) -> (r: Result<CTerm, CError>)
    ensures
        r == cast_to(to, t),
{
    match (&t.term, &to) {
        (CTermData::CBool(x), Some(Ty::Int(s, w))) => Ok(
            cterm(CTermData::CInt(*s, *w, mk_bool_to_bv(x.clone(), *w))),
        ),
        (CTermData::CBool(_), Some(Ty::Bool)) => Ok(t),
        (CTermData::CInt(_, w, x), Some(Ty::Bool)) => Ok(
            cterm(CTermData::CBool(mk_bv_to_bool(x.clone(), *w))),
        ),
        (CTermData::CInt(s, w, x), Some(Ty::Int(to_s, to_w))) => Ok(
            cterm(CTermData::CInt(*to_s, *to_w, resize(*s, *w, x.clone(), *to_w))),
        ),
        (CTermData::CArray(_, _), Some(Ty::Array(_, _, _))) => Ok(t),
        (CTermData::CArray(_, _), Some(Ty::Ptr(_, _))) => Ok(t),
        (CTermData::CStackPtr(_, _, _), Some(Ty::Array(_, _, _))) => Ok(t),
        (CTermData::CStackPtr(_, _, _), Some(Ty::Ptr(_, _))) => Ok(t),
        (CTermData::CStruct(_, _), Some(Ty::Struct(_, _))) => Ok(t),
        _ => Err(CError::Fault(Reason::BadCast(t, to))),
    }
}

/// The sign, the width and the term of a value as an operand of arithmetic: a truth value counts
/// as a signed 32-bit number.
pub open spec fn promoted(t: CTerm) -> Option<(bool, usize, Term)> {
    match t.term {
        CTermData::CBool(x) => Some((true, 32, bool_to_bv(x, 32))),
        CTermData::CInt(s, w, x) => Some((s, w, x)),
        _ => None,
    }
}

fn promote(t: &CTerm) -> (r: Option<(bool, usize, Term)>)
    ensures
        r == promoted(*t),
{
    match &t.term {
        CTermData::CBool(x) => Some((true, 32, mk_bool_to_bv(x.clone(), 32))),
        CTermData::CInt(s, w, x) => Some((*s, *w, x.clone())),
        _ => None,
    }
}

/// The integer type to which two operands are converted: the wider one; of two equally wide ones
/// the unsigned one.
pub open spec fn common_type(s: bool, w: usize, t: bool, v: usize) -> (bool, usize) {
    if w == v {
        (s && t, w)
    } else if w > v {
        (s, w)
    } else {
        (t, v)
    }
}

fn get_common_type(s: bool, w: usize, t: bool, v: usize) -> (r: (bool, usize))
    ensures
        r == common_type(s, w, t, v),
{
    if w == v {
        (s && t, w)
    } else if w > v {
        (s, w)
    } else {
        (t, v)
    }
}

/// The operands converted to their common type: its sign, its width and the two terms.
pub open spec fn converted(a: CTerm, b: CTerm) -> Option<(bool, usize, Term, Term)> {
    match (promoted(a), promoted(b)) {
        (Some((s, w, x)), Some((t, v, y))) => {
            let (cs, cw) = common_type(s, w, t, v);
            Some((cs, cw, resized(s, w, x, cw), resized(t, v, y, cw)))
        },
        _ => None,
    }
}

fn convert(a: &CTerm, b: &CTerm) -> (r: Option<(bool, usize, Term, Term)>)
    ensures
        r == converted(*a, *b),
{
    match (promote(a), promote(b)) {
        (Some((s, w, x)), Some((t, v, y))) => {
            let (cs, cw) = get_common_type(s, w, t, v);
            Some((cs, cw, resize(s, w, x, cw), resize(t, v, y, cw)))
        },
        _ => None,
    }
}

/// The truth value of an operand.
pub open spec fn truth(t: CTerm) -> Option<Term> {
    match t.term {
        CTermData::CBool(x) => Some(x),
        CTermData::CInt(_, w, x) => Some(bv_to_bool(x, w)),
        _ => None,
    }
}

fn get_truth(t: &CTerm) -> (r: Option<Term>)
    ensures
        r == truth(*t),
{
    match &t.term {
        CTermData::CBool(x) => Some(x.clone()),
        CTermData::CInt(_, w, x) => Some(mk_bv_to_bool(x.clone(), *w)),
        _ => None,
    }
}

/// The operator on terms that an arithmetic operator or a comparison is.
pub open spec fn term_operator(op: COp) -> Op {
    match op {
        COp::Add => Op::BvAdd,
        COp::Sub => Op::BvSub,
        COp::Mul => Op::BvMul,
        COp::Div => Op::BvUdiv,
        COp::Rem => Op::BvUrem,
        COp::BitAnd => Op::BvAnd,
        COp::BitOr => Op::BvOr,
        COp::BitXor => Op::BvXor,
        COp::Eq => Op::Eq,
        COp::Neq => Op::Eq,
        COp::Ugt => Op::BvUgt,
        COp::Uge => Op::BvUge,
        COp::Ult => Op::BvUlt,
        COp::Ule => Op::BvUle,
        COp::And => Op::And,
        COp::Or => Op::Or,
        COp::Shl => Op::BvShl,
        COp::Shr => Op::BvLshr,
    }
}

fn get_term_operator(op: COp) -> (r: Op)
    ensures
        r == term_operator(op),
{
    match op {
        COp::Add => Op::BvAdd,
        COp::Sub => Op::BvSub,
        COp::Mul => Op::BvMul,
        COp::Div => Op::BvUdiv,
        COp::Rem => Op::BvUrem,
        COp::BitAnd => Op::BvAnd,
        COp::BitOr => Op::BvOr,
        COp::BitXor => Op::BvXor,
        COp::Eq => Op::Eq,
        COp::Neq => Op::Eq,
        COp::Ugt => Op::BvUgt,
        COp::Uge => Op::BvUge,
        COp::Ult => Op::BvUlt,
        COp::Ule => Op::BvUle,
        COp::And => Op::And,
        COp::Or => Op::Or,
        COp::Shl => Op::BvShl,
        COp::Shr => Op::BvLshr,
    }
}

/// Whether two values are equal.
pub open spec fn equality(a: CTerm, b: CTerm) -> Option<Term> {
    match (a.term, b.term) {
        (CTermData::CBool(x), CTermData::CBool(y)) => Some(term_op(Op::Eq, x, y)),
        _ => match converted(a, b) {
            Some((_, _, x, y)) => Some(term_op(Op::Eq, x, y)),
            None => None,
        },
    }
}

fn mk_equality(a: &CTerm, b: &CTerm) -> (r: Option<Term>)
    ensures
        r == equality(*a, *b),
{
    match (&a.term, &b.term) {
        (CTermData::CBool(x), CTermData::CBool(y)) => Some(mk_op(Op::Eq, x.clone(), y.clone())),
        _ => match convert(a, b) {
            Some((_, _, x, y)) => Some(mk_op(Op::Eq, x, y)),
            None => None,
        },
    }
}

/// A binary operator on two values. The operands of a comparison are compared as unsigned numbers;
/// a shift is by a literal.
pub open spec fn apply(op: COp, a: CTerm, b: CTerm) -> Result<CTerm, CError> {
    let refused = Err(CError::Reject(Reason::BadOperands(op, a, b)));
    match op {
        COp::Add | COp::Sub | COp::Mul | COp::Div | COp::Rem | COp::BitAnd | COp::BitOr
        | COp::BitXor => match converted(a, b) {
            Some((s, w, x, y)) => Ok(
                value(CTermData::CInt(s, w, term_op(term_operator(op), x, y))),
            ),
            None => refused,
        },
        COp::Ugt | COp::Uge | COp::Ult | COp::Ule => match converted(a, b) {
            Some((_, _, x, y)) => Ok(value(CTermData::CBool(term_op(term_operator(op), x, y)))),
            None => refused,
        },
        COp::Eq => match equality(a, b) {
            Some(t) => Ok(value(CTermData::CBool(t))),
            None => refused,
        },
        COp::Neq => match equality(a, b) {
            Some(t) => Ok(value(CTermData::CBool(term_not(t)))),
            None => refused,
        },
        COp::And | COp::Or => match (truth(a), truth(b)) {
            (Some(x), Some(y)) => Ok(value(CTermData::CBool(term_op(term_operator(op), x, y)))),
            _ => refused,
        },
        COp::Shl | COp::Shr => match b.int_constant() {
            Err(e) => Err(e),
            Ok(k) => match promoted(a) {
                Some((s, w, x)) => Ok(
                    value(CTermData::CInt(s, w, term_op(term_operator(op), x, lit_bv(k, w)))),
                ),
                None => refused,
            },
        },
    }
}

/// Applies a binary operator to two values.
pub fn apply_op(op: COp, a: CTerm, b: CTerm) -> (r: Result<CTerm, CError>)
    ensures
        r == apply(op, a, b),
{
    match op {
        COp::Add | COp::Sub | COp::Mul | COp::Div | COp::Rem | COp::BitAnd | COp::BitOr
        | COp::BitXor => match convert(&a, &b) {
            Some((s, w, x, y)) => Ok(
                cterm(CTermData::CInt(s, w, mk_op(get_term_operator(op), x, y))),
            ),
            None => Err(CError::Reject(Reason::BadOperands(op, a, b))),
        },
        COp::Ugt | COp::Uge | COp::Ult | COp::Ule => match convert(&a, &b) {
            Some((_, _, x, y)) => Ok(cterm(CTermData::CBool(mk_op(get_term_operator(op), x, y)))),
            None => Err(CError::Reject(Reason::BadOperands(op, a, b))),
        },
        COp::Eq => match mk_equality(&a, &b) {
            Some(t) => Ok(cterm(CTermData::CBool(t))),
            None => Err(CError::Reject(Reason::BadOperands(op, a, b))),
        },
        COp::Neq => match mk_equality(&a, &b) {
            Some(t) => Ok(cterm(CTermData::CBool(mk_not(t)))),
            None => Err(CError::Reject(Reason::BadOperands(op, a, b))),
        },
        COp::And | COp::Or => match (get_truth(&a), get_truth(&b)) {
            (Some(x), Some(y)) => Ok(cterm(CTermData::CBool(mk_op(get_term_operator(op), x, y)))),
            _ => Err(CError::Reject(Reason::BadOperands(op, a, b))),
        },
        COp::Shl | COp::Shr => {
            let k: i128 = match b.const_int() {
                Ok(k) => k,
                Err(e) => return Err(e),
            };
            match promote(&a) {
                Some((s, w, x)) => Ok(
                    cterm(CTermData::CInt(s, w, mk_op(get_term_operator(op), x, bv_lit(k, w)))),
                ),
                None => Err(CError::Reject(Reason::BadOperands(op, a, b))),
            }
        },
    }
}

/// The value false.
pub open spec fn value_false() -> CTerm {
    value(CTermData::CBool(lit_bool(false)))
}

/// Makes the value false.
pub fn cfalse() -> (r: CTerm)
    ensures
        r == value_false(),
{
    cterm(CTermData::CBool(bool_lit(false)))
}

/// The signed 32-bit integer with the term `t`.
pub open spec fn value_i32(t: Term) -> CTerm {
    value(CTermData::CInt(true, 32, t))
}

/// Makes the signed 32-bit integer with the term `t`.
pub fn cint(t: Term) -> (r: CTerm)
    ensures
        r == value_i32(t),
{
    cterm(CTermData::CInt(true, 32, t))
}

} // verus!
