//! What operators, conversions and literals compute, in plain arithmetic.
use vstd::arithmetic::div_mod::lemma_fundamental_div_mod_converse;
use vstd::arithmetic::div_mod::lemma_mod_bound;
use vstd::arithmetic::div_mod::lemma_mod_multiples_vanish;
use vstd::arithmetic::div_mod::lemma_small_mod;
use vstd::arithmetic::power2::lemma2_to64;
use vstd::arithmetic::power2::lemma2_to64_rest;
use vstd::arithmetic::power2::lemma_pow2_adds;
use vstd::arithmetic::power2::lemma_pow2_pos;
use vstd::arithmetic::power2::lemma_pow2_strictly_increases;
use vstd::arithmetic::power2::lemma_pow2_unfold;
use vstd::arithmetic::power2::pow2;
use vstd::bits::lemma_u64_shl_is_mul;
use vstd::prelude::*;

use crate::cterm::apply;
use crate::cterm::bool_to_bv;
use crate::cterm::bv_to_bool;
use crate::cterm::cast_to;
use crate::cterm::converted;
use crate::cterm::promoted;
use crate::cterm::resized;
use crate::cterm::term_operator;
use crate::cterm::truth;
use crate::cterm::COp;
use crate::cterm::CTerm;
use crate::cterm::CTermData;
use crate::error::CError;
use crate::error::Reason;
use crate::ir::bv_op;
use crate::ir::denote;
use crate::ir::lemma_denote;
use crate::ir::lit_bv;
use crate::ir::term_op;
use crate::ir::wrap;
use crate::ir::MAX_CONST_WIDTH;
use crate::ir::Meaning;
use crate::ir::Node;
use crate::ir::Op;
use crate::ir::Term;
use crate::ir::Value;
use crate::kept::Env;
use crate::laws::is_arithmetic;
use crate::types::Ty;

verus! {

/// A truth value, or a number: whether its type is signed, the width of its type, and its bits
/// read as an unsigned number.
pub enum Num {
    Truth(bool),
    Number(bool, usize, int),
}

/// Whether `x` has at most `w` bits, and `w` is the width of a number.
pub open spec fn fits(w: usize, x: int) -> bool {
    0 < w <= MAX_CONST_WIDTH && 0 <= x < pow2(w as nat)
}

/// The truth value or the number that a value is on the given inputs.
pub open spec fn scalar(env: Env, v: CTerm) -> Option<Num> {
    match v.term {
        CTermData::CBool(t) => match denote(t, env) {
            Meaning::Scalar(Value::Bool(b)) => Some(Num::Truth(b)),
            _ => None,
        },
        CTermData::CInt(s, w, t) => match denote(t, env) {
            Meaning::Scalar(Value::Bv(v, x)) => if v == w && fits(w, x as int) {
                Some(Num::Number(s, w, x as int))
            } else {
                None
            },
            _ => None,
        },
        _ => None,
    }
}

/// A truth value as a number: one or zero, signed, of 32 bits.
pub open spec fn as_number(n: Num) -> (bool, usize, int) {
    match n {
        Num::Truth(b) => (
            true,
            32,
            if b {
                1
            } else {
                0
            },
        ),
        Num::Number(s, w, x) => (s, w, x),
    }
}

/// Whether a number is not zero, or a truth value true.
pub open spec fn holds(n: Num) -> bool {
    match n {
        Num::Truth(b) => b,
        Num::Number(_, _, x) => x != 0,
    }
}

/// The number that `w` bits stand for in two's complement.
pub open spec fn signed(w: usize, x: int) -> int {
    if x >= pow2((w - 1) as nat) {
        x - pow2(w as nat)
    } else {
        x
    }
}

/// The bits of a number in a type of width `to`: the number itself, negative or not, where it has
/// a sign, modulo two to the power of the width.
pub open spec fn carried(s: bool, w: usize, x: int, to: usize) -> int {
    (if s {
        signed(w, x)
    } else {
        x
    }) % (pow2(to as nat) as int)
}

/// Two operands in the type of their operation: its sign, its width, and the bits of both.
pub open spec fn balanced(a: Num, b: Num) -> (bool, usize, int, int) {
    let (s, w, x) = as_number(a);
    let (t, v, y) = as_number(b);
    if w > v {
        (s, w, x, carried(t, v, y, w))
    } else if w < v {
        (t, v, carried(s, w, x, v), y)
    } else {
        (s && t, w, x, y)
    }
}

/// What an operator other than a shift computes. Numbers are divided and compared as unsigned
/// ones; a quotient by zero has all bits set, and the remainder is the dividend.
pub open spec fn computed(op: COp, a: Num, b: Num) -> Num {
    let (s, w, x, y) = balanced(a, b);
    let m = pow2(w as nat) as int;
    match op {
        COp::Add => Num::Number(s, w, (x + y) % m),
        COp::Sub => Num::Number(s, w, (x - y) % m),
        COp::Mul => Num::Number(s, w, (x * y) % m),
        COp::Div => Num::Number(
            s,
            w,
            if y == 0 {
                m - 1
            } else {
                x / y
            },
        ),
        COp::Rem => Num::Number(
            s,
            w,
            if y == 0 {
                x
            } else {
                x % y
            },
        ),
        COp::BitAnd => Num::Number(s, w, ((x as u64) & (y as u64)) as int),
        COp::BitOr => Num::Number(s, w, ((x as u64) | (y as u64)) as int),
        COp::BitXor => Num::Number(s, w, ((x as u64) ^ (y as u64)) as int),
        COp::Eq => Num::Truth(x == y),
        COp::Neq => Num::Truth(x != y),
        COp::Ugt => Num::Truth(x > y),
        COp::Uge => Num::Truth(x >= y),
        COp::Ult => Num::Truth(x < y),
        COp::Ule => Num::Truth(x <= y),
        COp::And => Num::Truth(holds(a) && holds(b)),
        COp::Or => Num::Truth(holds(a) || holds(b)),
        COp::Shl | COp::Shr => a,
    }
}

/// Whether the operator is a shift.
pub open spec fn is_shift(op: COp) -> bool {
    op == COp::Shl || op == COp::Shr
}

/// What a shift by `k` places computes; a negative `k` counts modulo two to the power of the width.
pub open spec fn shifted(op: COp, a: Num, k: int) -> Num {
    let (s, w, x) = as_number(a);
    let m = pow2(w as nat) as int;
    let places = k % m;
    if places >= w {
        Num::Number(s, w, 0)
    } else if op == COp::Shl {
        Num::Number(s, w, (x * pow2(places as nat)) % m)
    } else {
        Num::Number(s, w, x / (pow2(places as nat) as int))
    }
}

/// What a conversion to the type `to` gives.
pub open spec fn converted_to(to: Ty, n: Num) -> Option<Num> {
    match to {
        Ty::Bool => Some(Num::Truth(holds(n))),
        Ty::Int(s, w) => {
            let (t, v, x) = as_number(n);
            Some(Num::Number(s, w, carried(t, v, x, w)))
        },
        _ => None,
    }
}

/// A power of two that is the modulus of a width.
pub(crate) proof fn lemma_modulus(w: usize)
    requires
        0 < w <= MAX_CONST_WIDTH,
    ensures
        2 <= pow2(w as nat) <= 0x1_0000_0000_0000_0000,
        pow2(w as nat) == 2 * pow2((w - 1) as nat),
        0 < pow2((w - 1) as nat),
{
    lemma2_to64();
    lemma2_to64_rest();
    lemma_pow2_pos((w - 1) as nat);
    lemma_pow2_unfold(w as nat);
    if w < 64 {
        lemma_pow2_strictly_increases(w as nat, 64);
    }
}

/// Wrapping is taking the residue.
pub(crate) proof fn lemma_wrap(n: int, w: usize)
    requires
        0 < w <= MAX_CONST_WIDTH,
    ensures
        wrap(n, w) == n % (pow2(w as nat) as int),
        fits(w, wrap(n, w) as int),
        fits(w, n) ==> wrap(n, w) == n,
{
    lemma_modulus(w);
    lemma_mod_bound(n, pow2(w as nat) as int);
    if fits(w, n) {
        lemma_small_mod(n as nat, pow2(w as nat));
    }
}

/// A number fits its own width.
proof fn lemma_carried_same(s: bool, w: usize, x: int)
    requires
        fits(w, x),
    ensures
        carried(s, w, x, w) == x,
{
    lemma_modulus(w);
    let m = pow2(w as nat) as int;
    lemma_small_mod(x as nat, pow2(w as nat));
    lemma_fundamental_div_mod_converse(x - m, m, -1, x);
}

/// What a literal means.
pub(crate) proof fn lemma_literal(env: Env, n: int, w: usize)
    requires
        0 < w <= MAX_CONST_WIDTH,
    ensures
        denote(lit_bv(n, w), env) == Meaning::Scalar(Value::Bv(w, wrap(n, w))),
        wrap(n, w) == n % (pow2(w as nat) as int),
        fits(w, wrap(n, w) as int),
        fits(w, n) ==> wrap(n, w) == n,
{
    lemma_wrap(n, w);
    lemma_denote(Node::Const(Value::Bv(w, wrap(n, w))), env);
}

proof fn lemma_bool_to_bv(env: Env, t: Term, b: bool, w: usize)
    requires
        0 < w <= MAX_CONST_WIDTH,
        denote(t, env) == Meaning::Scalar(Value::Bool(b)),
    ensures
        denote(bool_to_bv(t, w), env) == Meaning::Scalar(
            Value::Bv(
                w,
                if b {
                    1
                } else {
                    0
                },
            ),
        ),
        fits(w, 0),
        fits(w, 1),
{
    lemma_modulus(w);
    lemma_literal(env, 0, w);
    lemma_literal(env, 1, w);
    lemma_denote(Node::Ite(t, lit_bv(1, w), lit_bv(0, w)), env);
}

proof fn lemma_bv_to_bool(env: Env, t: Term, w: usize, x: u64)
    requires
        0 < w <= MAX_CONST_WIDTH,
        denote(t, env) == Meaning::Scalar(Value::Bv(w, x)),
    ensures
        denote(bv_to_bool(t, w), env) == Meaning::Scalar(Value::Bool(x != 0)),
{
    lemma_modulus(w);
    lemma_literal(env, 0, w);
    lemma_denote(Node::Op(Op::Eq, lit_bv(0, w), t), env);
    lemma_denote(Node::Not(term_op(Op::Eq, lit_bv(0, w), t)), env);
}

/// What an integer brought to another width means.
proof fn lemma_resized(env: Env, s: bool, w: usize, t: Term, x: u64, v: usize)
    requires
        fits(w, x as int),
        0 < v <= MAX_CONST_WIDTH,
        denote(t, env) == Meaning::Scalar(Value::Bv(w, x)),
    ensures
        denote(resized(s, w, t, v), env) == Meaning::Scalar(
            Value::Bv(v, carried(s, w, x as int, v) as u64),
        ),
        fits(v, carried(s, w, x as int, v)),
{
    lemma_modulus(w);
    lemma_modulus(v);
    lemma_denote(Node::SignExt(v, t), env);
    lemma_denote(Node::ZeroExt(v, t), env);
    lemma_denote(Node::Truncate(v, t), env);
    lemma_wrap(signed(w, x as int), v);
    lemma_wrap(x as int, v);
    lemma_carried_same(s, w, x as int);
    if v < w && s && x >= pow2((w - 1) as nat) {
        lemma_narrowed(w, x as int, v);
    }
}

/// Below its width, the sign of a number does not matter.
proof fn lemma_narrowed(w: usize, x: int, v: usize)
    requires
        0 < v < w <= MAX_CONST_WIDTH,
    ensures
        (x - pow2(w as nat)) % (pow2(v as nat) as int) == x % (pow2(v as nat) as int),
{
    let k = (w - v) as nat;
    lemma_pow2_adds(v as nat, k);
    lemma_pow2_pos(v as nat);
    let m = pow2(v as nat) as int;
    let c = -(pow2(k) as int);
    lemma_mod_multiples_vanish(c, x, m);
    assert(m * c == -(m * pow2(k))) by (nonlinear_arith)
        requires
            c == -(pow2(k) as int),
    ;
}

/// The operand of an operation on numbers.
proof fn lemma_promoted(env: Env, a: CTerm)
    requires
        scalar(env, a) is Some,
    ensures
        promoted(a) is Some,
        ({
            let (s, w, x) = as_number(scalar(env, a)->0);
            let (r, v, t) = promoted(a)->0;
            s == r && w == v && fits(w, x) && denote(t, env) == Meaning::Scalar(
                Value::Bv(w, x as u64),
            )
        }),
{
    match a.term {
        CTermData::CBool(t) => lemma_bool_to_bv(env, t, scalar(env, a)->0->Truth_0, 32),
        _ => {},
    }
}

proof fn lemma_truth(env: Env, a: CTerm)
    requires
        scalar(env, a) is Some,
    ensures
        truth(a) is Some,
        denote(truth(a)->0, env) == Meaning::Scalar(Value::Bool(holds(scalar(env, a)->0))),
{
    match a.term {
        CTermData::CInt(_, w, t) => {
            let x = scalar(env, a)->0->Number_2;
            lemma_bv_to_bool(env, t, w, x as u64);
        },
        _ => {},
    }
}

proof fn lemma_bits_fit(w: usize, x: u64, y: u64)
    requires
        fits(w, x as int),
        fits(w, y as int),
    ensures
        fits(w, (x & y) as int),
        fits(w, (x | y) as int),
        fits(w, (x ^ y) as int),
{
    lemma_modulus(w);
    if w < 64 {
        let n = w as u64;
        lemma2_to64_rest();
        lemma_pow2_strictly_increases(w as nat, 64);
        lemma_u64_shl_is_mul(1, n);
        assert((x & y) < (1u64 << n) && (x | y) < (1u64 << n) && (x ^ y) < (1u64 << n))
            by (bit_vector)
            requires
                n < 64,
                x < (1u64 << n),
                y < (1u64 << n),
        ;
    } else {
        lemma2_to64_rest();
    }
}

/// The operands of an operation on numbers, in its type.
proof fn lemma_balanced(env: Env, a: CTerm, b: CTerm)
    requires
        scalar(env, a) is Some,
        scalar(env, b) is Some,
    ensures
        ({
            let (s, w, x, y) = balanced(scalar(env, a)->0, scalar(env, b)->0);
            &&& converted(a, b) is Some
            &&& fits(w, x)
            &&& fits(w, y)
            &&& ({
                let (r, v, l, m) = converted(a, b)->0;
                &&& r == s
                &&& v == w
                &&& denote(l, env) == Meaning::Scalar(Value::Bv(w, x as u64))
                &&& denote(m, env) == Meaning::Scalar(Value::Bv(w, y as u64))
            })
        }),
{
    lemma_promoted(env, a);
    lemma_promoted(env, b);
    let (s, w, x) = promoted(a)->0;
    let (t, v, y) = promoted(b)->0;
    let (_, _, i) = as_number(scalar(env, a)->0);
    let (_, _, j) = as_number(scalar(env, b)->0);
    if w < v {
        lemma_resized(env, s, w, x, i as u64, v);
    }
    if v < w {
        lemma_resized(env, t, v, y, j as u64, w);
    }
}

/// What an operator on bit vectors computes on two numbers of one width.
proof fn lemma_bv_op(op: COp, w: usize, x: int, y: int)
    requires
        is_arithmetic(op),
        fits(w, x),
        fits(w, y),
    ensures
        ({
            let n = computed(op, Num::Number(true, w, x), Num::Number(true, w, y))->Number_2;
            &&& fits(w, n)
            &&& bv_op(term_operator(op), w, x as u64, y as u64) == Some(Value::Bv(w, n as u64))
        }),
{
    lemma_modulus(w);
    let m = pow2(w as nat) as int;
    match op {
        COp::Add => lemma_wrap(x + y, w),
        COp::Sub => lemma_wrap(x - y, w),
        COp::Mul => {
            lemma_wrap(x * y, w);
            assert((x as u64) * (y as u64) == x * y);
        },
        COp::Div => {
            lemma_wrap(-1, w);
            lemma_fundamental_div_mod_converse(-1, m, -1, m - 1);
            if y != 0 {
                assert(0 <= x / y <= x) by (nonlinear_arith)
                    requires
                        0 <= x,
                        y > 0,
                ;
            }
        },
        COp::Rem => {
            if y != 0 {
                lemma_mod_bound(x, y);
            }
        },
        _ => lemma_bits_fit(w, x as u64, y as u64),
    }
}

/// An operator on two operands, numbers of any width and sign or truth values, computes what
/// arithmetic says of their values.
pub proof fn law_operator_computes(env: Env, op: COp, a: CTerm, b: CTerm)
    requires
        !is_shift(op),
        scalar(env, a) is Some,
        scalar(env, b) is Some,
    ensures
        apply(op, a, b) is Ok,
        scalar(env, apply(op, a, b)->Ok_0) == Some(
            computed(op, scalar(env, a)->0, scalar(env, b)->0),
        ),
{
    lemma_balanced(env, a, b);
    let (_, w, x, y) = balanced(scalar(env, a)->0, scalar(env, b)->0);
    let (_, _, l, r) = converted(a, b)->0;
    lemma_modulus(w);
    lemma_denote(Node::Op(term_operator(op), l, r), env);
    if is_arithmetic(op) {
        lemma_bv_op(op, w, x, y);
    } else if op == COp::And || op == COp::Or {
        lemma_truth(env, a);
        lemma_truth(env, b);
        lemma_denote(Node::Op(term_operator(op), truth(a)->0, truth(b)->0), env);
    } else if op == COp::Eq || op == COp::Neq {
        lemma_denote(Node::Not(term_op(Op::Eq, l, r)), env);
        match (a.term, b.term) {
            (CTermData::CBool(c), CTermData::CBool(d)) => {
                lemma_denote(Node::Op(Op::Eq, c, d), env);
                lemma_denote(Node::Not(term_op(Op::Eq, c, d)), env);
            },
            _ => {},
        }
    }
}

/// The logical operators mean conjunction and disjunction, whether an operand is a truth value or a
/// number; a number counts as true where it is not zero.
pub proof fn law_logical_operators_join_truths(env: Env, a: CTerm, b: CTerm, p: bool, q: bool)
    requires
        scalar(env, a) matches Some(n) && holds(n) == p,
        scalar(env, b) matches Some(n) && holds(n) == q,
    ensures
        apply(COp::And, a, b) matches Ok(r) && scalar(env, r) == Some(Num::Truth(p && q)),
        apply(COp::Or, a, b) matches Ok(r) && scalar(env, r) == Some(Num::Truth(p || q)),
{
    law_operator_computes(env, COp::And, a, b);
    law_operator_computes(env, COp::Or, a, b);
}

/// A shift by a literal of `k` moves the bits of its operand by `k` places.
pub proof fn law_shift_moves_bits(env: Env, op: COp, a: CTerm, b: CTerm, k: int)
    requires
        is_shift(op),
        scalar(env, a) is Some,
        b.int_constant() matches Ok(n) && n == k,
    ensures
        apply(op, a, b) is Ok,
        scalar(env, apply(op, a, b)->Ok_0) == Some(shifted(op, scalar(env, a)->0, k)),
{
    lemma_promoted(env, a);
    let (s, w, x) = promoted(a)->0;
    let (_, _, i) = as_number(scalar(env, a)->0);
    lemma_modulus(w);
    lemma_literal(env, k, w);
    lemma_denote(Node::Op(term_operator(op), x, lit_bv(k, w)), env);
    let places = k % (pow2(w as nat) as int);
    if places < w {
        let d = pow2(places as nat) as int;
        lemma_pow2_pos(places as nat);
        lemma_wrap(i * d, w);
        assert(0 <= i / d <= i) by (nonlinear_arith)
            requires
                0 <= i,
                d > 0,
        ;
    }
}

/// A conversion keeps the value of a number as far as the type allows, makes one or zero of a truth
/// value, and a truth value of whether a number is not zero.
pub proof fn law_cast_converts(env: Env, to: Ty, a: CTerm)
    requires
        scalar(env, a) is Some,
        match to {
            Ty::Bool => true,
            Ty::Int(_, w) => 0 < w <= MAX_CONST_WIDTH,
            _ => false,
        },
    ensures
        cast_to(Some(to), a) is Ok,
        scalar(env, cast_to(Some(to), a)->Ok_0) == converted_to(to, scalar(env, a)->0),
{
    lemma_truth(env, a);
    match to {
        Ty::Int(_, w) => {
            lemma_modulus(w);
            match a.term {
                CTermData::CBool(t) => {
                    let b = scalar(env, a)->0->Truth_0;
                    lemma_bool_to_bv(env, t, b, w);
                    lemma2_to64();
                    lemma_modulus(32);
                    lemma_small_mod(0, pow2(w as nat));
                    lemma_small_mod(1, pow2(w as nat));
                    assert(pow2(31) == 0x8000_0000);
                    assert(carried(true, 32, 0, w) == 0);
                    assert(carried(true, 32, 1, w) == 1);
                },
                CTermData::CInt(s, v, t) => {
                    let x = scalar(env, a)->0->Number_2;
                    lemma_resized(env, s, v, t, x as u64, w);
                },
                _ => {},
            }
        },
        _ => {},
    }
}

/// Whether a value is neither a number nor a truth value.
pub open spec fn is_aggregate(a: CTerm) -> bool {
    !(a.term is CBool) && !(a.term is CInt)
}

/// A conversion of an array, a place in an array or a structure leaves it as it is; arrays convert
/// to arrays and pointers only, and structures to structures only. Nothing converts to no type.
pub proof fn law_cast_keeps_aggregates(to: Ty, a: CTerm)
    requires
        is_aggregate(a),
    ensures
        ({
            let suits = if a.term is CStruct {
                to is Struct
            } else {
                to is Array || to is Ptr
            };
            cast_to(Some(to), a) == if suits {
                Ok::<CTerm, CError>(a)
            } else {
                Err(CError::Fault(Reason::BadCast(a, Some(to))))
            }
        }),
        cast_to(None, a) is Err,
{
}

/// No operator but a shift takes an array, a place in an array or a structure; a shift takes none
/// to shift.
pub proof fn law_operator_refuses_aggregates(op: COp, a: CTerm, b: CTerm)
    requires
        is_aggregate(a) || is_aggregate(b),
    ensures
        !is_shift(op) ==> apply(op, a, b) == Err::<CTerm, CError>(
            CError::Reject(Reason::BadOperands(op, a, b)),
        ),
        apply(op, a, b) is Err,
{
}

} // verus!
