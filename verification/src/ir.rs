//! The circuit terms that the front end builds, with their sorts, their constant values and their
//! meaning.
use std::rc::Rc;

use vstd::arithmetic::div_mod::lemma_fundamental_div_mod;
use vstd::arithmetic::div_mod::lemma_fundamental_div_mod_converse;
use vstd::arithmetic::power2::lemma2_to64;
use vstd::arithmetic::power2::lemma2_to64_rest;
use vstd::arithmetic::power2::lemma_pow2_pos;
use vstd::arithmetic::power2::lemma_pow2_strictly_increases;
use vstd::arithmetic::power2::lemma_pow2_unfold;
use vstd::arithmetic::power2::pow2;
use vstd::prelude::*;

verus! {

/// The widest bit vector whose constants are computed.
pub const MAX_CONST_WIDTH: usize = 64;

/// The sort of a term.
#[derive(Debug, Clone, Copy, PartialEq, Eq, Structural)]
pub enum Sort {
    Bool,
    /// A bit vector of the given width.
    Bv(usize),
    /// An array: the width of its addresses and that of its elements.
    Array(usize, usize),
}

/// A constant.
#[derive(Debug, Clone, Copy, PartialEq, Eq, Structural)]
pub enum Value {
    Bool(bool),
    /// A bit vector: its width and its value, read as an unsigned number.
    Bv(usize, u64),
}

/// The binary operators on terms. Bit vectors are read as unsigned numbers.
#[derive(Debug, Clone, Copy, PartialEq, Eq, Structural)]
pub enum Op {
    BvAdd,
    BvSub,
    BvMul,
    BvUdiv,
    BvUrem,
    BvAnd,
    BvOr,
    BvXor,
    BvShl,
    BvLshr,
    BvUlt,
    BvUle,
    BvUgt,
    BvUge,
    Eq,
    And,
    Or,
}

/// The head of a term, with its children.
#[derive(Debug, PartialEq, Eq)]
pub enum Node {
    Const(Value),
    /// An input of the circuit: its number and its sort.
    Input(usize, Sort),
    Not(Term),
    Op(Op, Term, Term),
    Ite(Term, Term, Term),
    /// The child widened with zeros to the given width.
    ZeroExt(usize, Term),
    /// The child widened with copies of its sign to the given width.
    SignExt(usize, Term),
    /// The given number of low bits of the child.
    Truncate(usize, Term),
    /// An array of zeros: its length, the width of its addresses and that of its elements.
    ZeroArray(usize, usize, usize),
    Select(Term, Term),
    Store(Term, Term, Term),
}

/// A term: a shared tree that carries its sort and, where it has one, its constant value.
#[derive(Debug, PartialEq, Eq)]
pub struct Term {
    node: Rc<Node>,
    sort: Sort,
    constant: Option<Value>,
}

/// `n` wrapped to `w` bits (to `MAX_CONST_WIDTH` where `w` is greater).
pub open spec fn wrap(n: int, w: usize) -> u64 {
    (n % (pow2(const_width(w)) as int)) as u64
}

/// The number of bits of a `w`-bit constant that are computed.
pub open spec fn const_width(w: usize) -> nat {
    if w <= MAX_CONST_WIDTH {
        w as nat
    } else {
        MAX_CONST_WIDTH as nat
    }
}

/// The `w`-bit value `v` read as a two's complement number.
pub open spec fn as_signed(w: usize, v: u64) -> int {
    if 0 < w <= MAX_CONST_WIDTH && v >= pow2((w - 1) as nat) {
        v - pow2(w as nat)
    } else {
        v as int
    }
}

/// What a bit-vector operator computes on two `w`-bit values.
pub open spec fn bv_op(op: Op, w: usize, x: u64, y: u64) -> Option<Value> {
    match op {
        Op::BvAdd => Some(Value::Bv(w, wrap(x + y, w))),
        Op::BvSub => Some(Value::Bv(w, wrap(x - y, w))),
        Op::BvMul => Some(Value::Bv(w, wrap(x * y, w))),
        Op::BvUdiv => Some(
            Value::Bv(
                w,
                if y == 0 {
                    wrap(-1, w)
                } else {
                    x / y
                },
            ),
        ),
        Op::BvUrem => Some(
            Value::Bv(
                w,
                if y == 0 {
                    x
                } else {
                    x % y
                },
            ),
        ),
        Op::BvAnd => Some(Value::Bv(w, x & y)),
        Op::BvOr => Some(Value::Bv(w, x | y)),
        Op::BvXor => Some(Value::Bv(w, x ^ y)),
        Op::BvShl => Some(
            Value::Bv(
                w,
                if y >= w {
                    0
                } else {
                    wrap(x * pow2(y as nat), w)
                },
            ),
        ),
        Op::BvLshr => Some(
            Value::Bv(
                w,
                if y >= w {
                    0
                } else {
                    (x as int / pow2(y as nat) as int) as u64
                },
            ),
        ),
        Op::BvUlt => Some(Value::Bool(x < y)),
        Op::BvUle => Some(Value::Bool(x <= y)),
        Op::BvUgt => Some(Value::Bool(x > y)),
        Op::BvUge => Some(Value::Bool(x >= y)),
        Op::Eq => Some(Value::Bool(x == y)),
        Op::And | Op::Or => None,
    }
}

/// What a binary operator computes on two constants, where their sorts fit it.
pub open spec fn op_value(op: Op, a: Value, b: Value) -> Option<Value> {
    match (a, b) {
        (Value::Bv(w, x), Value::Bv(v, y)) => if w == v && w <= MAX_CONST_WIDTH {
            bv_op(op, w, x, y)
        } else {
            None
        },
        (Value::Bool(x), Value::Bool(y)) => match op {
            Op::And => Some(Value::Bool(x && y)),
            Op::Or => Some(Value::Bool(x || y)),
            Op::Eq => Some(Value::Bool(x == y)),
            _ => None,
        },
        _ => None,
    }
}

/// The low `w` bits of a constant.
pub open spec fn truncate_value(w: usize, a: Value) -> Option<Value> {
    match a {
        Value::Bv(v, x) => if v <= MAX_CONST_WIDTH && w <= v {
            Some(Value::Bv(w, wrap(x as int, w)))
        } else {
            None
        },
        Value::Bool(_) => None,
    }
}

/// A constant widened to `w` bits, with copies of its sign where `signed`.
pub open spec fn extend_value(w: usize, signed: bool, a: Value) -> Option<Value> {
    match a {
        Value::Bv(v, x) => if v <= w && w <= MAX_CONST_WIDTH {
            Some(
                Value::Bv(
                    w,
                    wrap(
                        if signed {
                            as_signed(v, x)
                        } else {
                            x as int
                        },
                        w,
                    ),
                ),
            )
        } else {
            None
        },
        Value::Bool(_) => None,
    }
}

/// The constant value of a term with this head, from the constant values of its children.
pub open spec fn node_constant(n: Node) -> Option<Value> {
    match n {
        Node::Const(v) => Some(v),
        Node::Not(a) => match a.constant() {
            Some(Value::Bool(x)) => Some(Value::Bool(!x)),
            _ => None,
        },
        Node::Op(op, a, b) => if op == Op::And && (a.constant() == Some(Value::Bool(false))
            || b.constant() == Some(Value::Bool(false))) {
            Some(Value::Bool(false))
        } else if op == Op::Or && (a.constant() == Some(Value::Bool(true)) || b.constant() == Some(
            Value::Bool(true),
        )) {
            Some(Value::Bool(true))
        } else {
            match (a.constant(), b.constant()) {
                (Some(x), Some(y)) => op_value(op, x, y),
                _ => None,
            }
        },
        Node::Ite(c, t, f) => match c.constant() {
            Some(Value::Bool(true)) => t.constant(),
            Some(Value::Bool(false)) => f.constant(),
            _ => None,
        },
        Node::ZeroExt(w, a) => match a.constant() {
            Some(x) => extend_value(w, false, x),
            None => None,
        },
        Node::SignExt(w, a) => match a.constant() {
            Some(x) => extend_value(w, true, x),
            None => None,
        },
        Node::Truncate(w, a) => match a.constant() {
            Some(x) => truncate_value(w, x),
            None => None,
        },
        Node::Input(_, _) | Node::ZeroArray(_, _, _) | Node::Select(_, _) | Node::Store(
            _,
            _,
            _,
        ) => None,
    }
}

/// The sort of a term with this head.
pub open spec fn node_sort(n: Node) -> Sort {
    match n {
        Node::Const(Value::Bool(_)) => Sort::Bool,
        Node::Const(Value::Bv(w, _)) => Sort::Bv(w),
        Node::Input(_, s) => s,
        Node::Not(_) => Sort::Bool,
        Node::Op(op, a, _) => match op {
            Op::BvUlt | Op::BvUle | Op::BvUgt | Op::BvUge | Op::Eq | Op::And | Op::Or => Sort::Bool,
            _ => a.sort(),
        },
        Node::Ite(_, t, _) => t.sort(),
        Node::ZeroExt(w, _) => Sort::Bv(w),
        Node::SignExt(w, _) => Sort::Bv(w),
        Node::Truncate(w, _) => Sort::Bv(w),
        Node::ZeroArray(_, aw, vw) => Sort::Array(aw, vw),
        Node::Select(a, _) => match a.sort() {
            Sort::Array(_, vw) => Sort::Bv(vw),
            s => s,
        },
        Node::Store(a, _, _) => a.sort(),
    }
}

/// Whether a head has arrays where it asks for arrays and nowhere else.
pub open spec fn kinds_fit(n: Node) -> bool {
    match n {
        Node::Const(_) | Node::ZeroArray(_, _, _) => true,
        Node::Input(_, s) => !(s is Array),
        Node::Not(a) => !(a.sort() is Array),
        Node::ZeroExt(_, a) => !(a.sort() is Array),
        Node::SignExt(_, a) => !(a.sort() is Array),
        Node::Truncate(_, a) => !(a.sort() is Array),
        Node::Op(_, a, b) => !(a.sort() is Array) && !(b.sort() is Array),
        Node::Ite(c, t, f) => !(c.sort() is Array) && (t.sort() is Array <==> f.sort() is Array),
        Node::Select(a, i) => a.sort() is Array && !(i.sort() is Array),
        Node::Store(a, i, v) => a.sort() is Array && !(i.sort() is Array) && !(v.sort() is Array),
    }
}

impl Clone for Term {
    fn clone(&self) -> (r: Term)
        ensures
            r == *self,
    {
        Term { node: self.node.clone(), sort: self.sort, constant: self.constant }
    }
}

impl Term {
    /// The head of the term.
    pub closed spec fn node(self) -> Node {
        *self.node
    }

    /// The sort of the term.
    pub closed spec fn sort(self) -> Sort {
        self.sort
    }

    /// The constant value of the term, where it has one.
    pub closed spec fn constant(self) -> Option<Value> {
        self.constant
    }

    /// The term with the given head.
    pub closed spec fn of(n: Node) -> Term {
        Term { node: Rc::new(n), sort: node_sort(n), constant: node_constant(n) }
    }

    /// Whether the term and all terms below it carry the sort and the constant of their heads, and
    /// have arrays where arrays are asked for and nowhere else.
    pub closed spec fn wf(self) -> bool
        decreases self,
    {
        &&& self == Term::of(*self.node)
        &&& kinds_fit(*self.node)
        &&& match *self.node {
            Node::Const(_) | Node::Input(_, _) | Node::ZeroArray(_, _, _) => true,
            Node::Not(a) => a.wf(),
            Node::ZeroExt(_, a) => a.wf(),
            Node::SignExt(_, a) => a.wf(),
            Node::Truncate(_, a) => a.wf(),
            Node::Op(_, a, b) => a.wf() && b.wf(),
            Node::Select(a, b) => a.wf() && b.wf(),
            Node::Ite(a, b, c) => a.wf() && b.wf() && c.wf(),
            Node::Store(a, b, c) => a.wf() && b.wf() && c.wf(),
        }
    }

    /// Whether the term is well formed and no array.
    pub open spec fn is_plain(self) -> bool {
        self.wf() && !(self.sort() is Array)
    }

    /// Whether the term is well formed and an array.
    pub open spec fn is_region(self) -> bool {
        self.wf() && self.sort() is Array
    }

    /// Makes the term with the given head.
    pub fn new(n: Node) -> (r: Term)
        ensures
            r == Term::of(n),
            r.node() == n,
            r.sort() == node_sort(n),
            r.constant() == node_constant(n),
    {
        let sort = sort_of_node(&n);
        let constant = constant_of_node(&n);
        Term { node: Rc::new(n), sort, constant }
    }

    /// The head of the term, by reference.
    pub fn head(&self) -> (r: &Node)
        ensures
            *r == self.node(),
    {
        &self.node
    }

    /// The sort of the term.
    pub fn get_sort(&self) -> (r: Sort)
        ensures
            r == self.sort(),
    {
        self.sort
    }

    /// The constant value of the term, where it has one.
    pub fn get_constant(&self) -> (r: Option<Value>)
        ensures
            r == self.constant(),
    {
        self.constant
    }
}

/// What [`Term::of`] makes: a term with the given head, its sort and its constant.
pub broadcast proof fn lemma_of(n: Node)
    ensures
        (#[trigger] Term::of(n)).node() == n,
        Term::of(n).sort() == node_sort(n),
        Term::of(n).constant() == node_constant(n),
{
}

/// Computes two to the power of `w`.
fn modulus(w: usize) -> (r: u128)
    requires
        w <= MAX_CONST_WIDTH,
    ensures
        r == pow2(w as nat),
        1 <= r <= 0x1_0000_0000_0000_0000,
{
    let mut r: u128 = 1;
    let mut i: usize = 0;
    proof {
        lemma2_to64();
    }
    while i < w
        invariant
            i <= w <= MAX_CONST_WIDTH,
            r == pow2(i as nat),
        decreases w - i,
    {
        proof {
            lemma_pow2_unfold((i + 1) as nat);
            lemma_pow2_bound(i);
        }
        r = r * 2;
        i = i + 1;
    }
    proof {
        lemma_pow2_bound(w);
        lemma_pow2_pos(w as nat);
    }
    r
}

/// Two to the power of a constant's width is at most two to the power of 64.
proof fn lemma_pow2_bound(w: usize)
    requires
        w <= MAX_CONST_WIDTH,
    ensures
        pow2(w as nat) <= 0x1_0000_0000_0000_0000,
{
    lemma2_to64();
    lemma2_to64_rest();
    if w < 64 {
        lemma_pow2_strictly_increases(w as nat, 64);
    }
}

/// The residue of a negative number.
proof fn lemma_neg_mod(a: int, m: int)
    requires
        a > 0,
        m > 0,
    ensures
        (-a) % m == (if a % m == 0 {
            0
        } else {
            m - a % m
        }),
{
    lemma_fundamental_div_mod(a, m);
    let q = a / m;
    let r = a % m;
    if r == 0 {
        assert(-a == m * (-q) + 0) by (nonlinear_arith)
            requires
                a == m * q,
        ;
        lemma_fundamental_div_mod_converse(-a, m, -q, 0);
    } else {
        assert(-a == m * (-q - 1) + (m - r)) by (nonlinear_arith)
            requires
                a == m * q + r,
        ;
        lemma_fundamental_div_mod_converse(-a, m, -q - 1, m - r);
    }
}

/// Wraps `n` to `w` bits.
pub fn wrap_to(n: i128, w: usize) -> (r: u64)
    ensures
        r == wrap(n as int, w),
{
    let cw: usize = if w <= MAX_CONST_WIDTH {
        w
    } else {
        MAX_CONST_WIDTH
    };
    let m: u128 = modulus(cw);
    if n >= 0 {
        ((n as u128) % m) as u64
    } else {
        let a: u128 = ((-(n + 1)) as u128) + 1;
        proof {
            lemma_neg_mod(a as int, m as int);
        }
        let k: u128 = a % m;
        if k == 0 {
            0
        } else {
            (m - k) as u64
        }
    }
}

/// Reads the `w`-bit value `v` as a two's complement number.
pub fn signed_value(w: usize, v: u64) -> (r: i128)
    ensures
        r == as_signed(w, v),
        -0x1_0000_0000_0000_0000 <= r <= u64::MAX,
{
    if 0 < w && w <= MAX_CONST_WIDTH {
        let half: u128 = modulus(w - 1);
        if (v as u128) >= half {
            return (v as i128) - (modulus(w) as i128);
        }
    }
    v as i128
}

fn apply_bv(op: Op, w: usize, x: u64, y: u64) -> (r: Option<Value>)
    requires
        w <= MAX_CONST_WIDTH,
    ensures
        r == bv_op(op, w, x, y),
{
    match op {
        Op::BvAdd => Some(Value::Bv(w, wrap_to((x as i128) + (y as i128), w))),
        Op::BvSub => Some(Value::Bv(w, wrap_to((x as i128) - (y as i128), w))),
        Op::BvMul => {
            assert(0 <= x * y <= 0xffff_ffff_ffff_ffff * 0xffff_ffff_ffff_ffff) by (nonlinear_arith)
                requires
                    x <= 0xffff_ffff_ffff_ffff,
                    y <= 0xffff_ffff_ffff_ffff,
            ;
            let m: u128 = modulus(w);
            Some(Value::Bv(w, (((x as u128) * (y as u128)) % m) as u64))
        },
        Op::BvUdiv => Some(
            Value::Bv(
                w,
                if y == 0 {
                    wrap_to(-1, w)
                } else {
                    x / y
                },
            ),
        ),
        Op::BvUrem => Some(
            Value::Bv(
                w,
                if y == 0 {
                    x
                } else {
                    x % y
                },
            ),
        ),
        Op::BvAnd => Some(Value::Bv(w, x & y)),
        Op::BvOr => Some(Value::Bv(w, x | y)),
        Op::BvXor => Some(Value::Bv(w, x ^ y)),
        Op::BvShl => {
            if y >= w as u64 {
                Some(Value::Bv(w, 0))
            } else {
                let p: u128 = modulus(y as usize);
                let m: u128 = modulus(w);
                proof {
                    lemma2_to64();
                    lemma2_to64_rest();
                    lemma_pow2_strictly_increases(y as nat, 64);
                }
                assert(0 <= x * p <= 0xffff_ffff_ffff_ffff * 0xffff_ffff_ffff_ffff)
                    by (nonlinear_arith)
                    requires
                        x <= 0xffff_ffff_ffff_ffff,
                        0 <= p <= 0xffff_ffff_ffff_ffff,
                ;
                Some(Value::Bv(w, (((x as u128) * p) % m) as u64))
            }
        },
        Op::BvLshr => {
            if y >= w as u64 {
                Some(Value::Bv(w, 0))
            } else {
                let p: u128 = modulus(y as usize);
                Some(Value::Bv(w, ((x as u128) / p) as u64))
            }
        },
        Op::BvUlt => Some(Value::Bool(x < y)),
        Op::BvUle => Some(Value::Bool(x <= y)),
        Op::BvUgt => Some(Value::Bool(x > y)),
        Op::BvUge => Some(Value::Bool(x >= y)),
        Op::Eq => Some(Value::Bool(x == y)),
        Op::And | Op::Or => None,
    }
}

/// Computes a binary operator on two constants.
pub fn apply_op(op: Op, a: Value, b: Value) -> (r: Option<Value>)
    ensures
        r == op_value(op, a, b),
{
    match (a, b) {
        (Value::Bv(w, x), Value::Bv(v, y)) => if w == v && w <= MAX_CONST_WIDTH {
            apply_bv(op, w, x, y)
        } else {
            None
        },
        (Value::Bool(x), Value::Bool(y)) => match op {
            Op::And => Some(Value::Bool(x && y)),
            Op::Or => Some(Value::Bool(x || y)),
            Op::Eq => Some(Value::Bool(x == y)),
            _ => None,
        },
        _ => None,
    }
}

fn apply_truncate(w: usize, a: Value) -> (r: Option<Value>)
    ensures
        r == truncate_value(w, a),
{
    match a {
        Value::Bv(v, x) => if v <= MAX_CONST_WIDTH && w <= v {
            Some(Value::Bv(w, wrap_to(x as i128, w)))
        } else {
            None
        },
        Value::Bool(_) => None,
    }
}

fn apply_extend(w: usize, signed: bool, a: Value) -> (r: Option<Value>)
    ensures
        r == extend_value(w, signed, a),
{
    match a {
        Value::Bv(v, x) => if v <= w && w <= MAX_CONST_WIDTH {
            let n: i128 = if signed {
                signed_value(v, x)
            } else {
                x as i128
            };
            Some(Value::Bv(w, wrap_to(n, w)))
        } else {
            None
        },
        Value::Bool(_) => None,
    }
}

fn is_bool_constant(t: &Term, b: bool) -> (r: bool)
    ensures
        r == (t.constant() == Some(Value::Bool(b))),
{
    match t.constant {
        Some(Value::Bool(x)) => x == b,
        _ => false,
    }
}

fn constant_of_node(n: &Node) -> (r: Option<Value>)
    ensures
        r == node_constant(*n),
{
    match n {
        Node::Const(v) => Some(*v),
        Node::Not(a) => match a.constant {
            Some(Value::Bool(x)) => Some(Value::Bool(!x)),
            _ => None,
        },
        Node::Op(op, a, b) => if *op == Op::And && (is_bool_constant(a, false) || is_bool_constant(
            b,
            false,
        )) {
            Some(Value::Bool(false))
        } else if *op == Op::Or && (is_bool_constant(a, true) || is_bool_constant(b, true)) {
            Some(Value::Bool(true))
        } else {
            match (a.constant, b.constant) {
                (Some(x), Some(y)) => apply_op(*op, x, y),
                _ => None,
            }
        },
        Node::Ite(c, t, f) => match c.constant {
            Some(Value::Bool(x)) => if x {
                t.constant
            } else {
                f.constant
            },
            _ => None,
        },
        Node::ZeroExt(w, a) => match a.constant {
            Some(x) => apply_extend(*w, false, x),
            None => None,
        },
        Node::SignExt(w, a) => match a.constant {
            Some(x) => apply_extend(*w, true, x),
            None => None,
        },
        Node::Truncate(w, a) => match a.constant {
            Some(x) => apply_truncate(*w, x),
            None => None,
        },
        Node::Input(_, _) | Node::ZeroArray(_, _, _) | Node::Select(_, _) | Node::Store(
            _,
            _,
            _,
        ) => None,
    }
}

fn sort_of_node(n: &Node) -> (r: Sort)
    ensures
        r == node_sort(*n),
{
    match n {
        Node::Const(Value::Bool(_)) => Sort::Bool,
        Node::Const(Value::Bv(w, _)) => Sort::Bv(*w),
        Node::Input(_, s) => *s,
        Node::Not(_) => Sort::Bool,
        Node::Op(op, a, _) => match op {
            Op::BvUlt | Op::BvUle | Op::BvUgt | Op::BvUge | Op::Eq | Op::And | Op::Or => Sort::Bool,
            _ => a.sort,
        },
        Node::Ite(_, t, _) => t.sort,
        Node::ZeroExt(w, _) => Sort::Bv(*w),
        Node::SignExt(w, _) => Sort::Bv(*w),
        Node::Truncate(w, _) => Sort::Bv(*w),
        Node::ZeroArray(_, aw, vw) => Sort::Array(*aw, *vw),
        Node::Select(a, _) => match a.sort {
            Sort::Array(_, vw) => Sort::Bv(vw),
            s => s,
        },
        Node::Store(a, _, _) => a.sort,
    }
}

/// The boolean literal `b`.
pub open spec fn lit_bool(b: bool) -> Term {
    Term::of(Node::Const(Value::Bool(b)))
}

/// The `w`-bit literal `n`, wrapped.
pub open spec fn lit_bv(n: int, w: usize) -> Term {
    Term::of(Node::Const(Value::Bv(w, wrap(n, w))))
}

/// The negation of `a`.
pub open spec fn term_not(a: Term) -> Term {
    Term::of(Node::Not(a))
}

/// The operator `op` on `a` and `b`.
pub open spec fn term_op(op: Op, a: Term, b: Term) -> Term {
    Term::of(Node::Op(op, a, b))
}

/// `t` where `c` holds, else `f`.
pub open spec fn term_ite(c: Term, t: Term, f: Term) -> Term {
    Term::of(Node::Ite(c, t, f))
}

/// The constant that `t` folds to, as a literal; `t` itself where it has none.
pub open spec fn folded(t: Term) -> Term {
    match t.constant() {
        Some(v) => Term::of(Node::Const(v)),
        None => t,
    }
}

/// Makes the boolean literal `b`.
pub fn bool_lit(b: bool) -> (r: Term)
    ensures
        r == lit_bool(b),
{
    Term::new(Node::Const(Value::Bool(b)))
}

/// Makes the `w`-bit literal `n`, wrapped.
pub fn bv_lit(n: i128, w: usize) -> (r: Term)
    ensures
        r == lit_bv(n as int, w),
{
    Term::new(Node::Const(Value::Bv(w, wrap_to(n, w))))
}

/// Makes the negation of `a`.
pub fn mk_not(a: Term) -> (r: Term)
    ensures
        r == term_not(a),
{
    Term::new(Node::Not(a))
}

/// Makes the operator `op` on `a` and `b`.
pub fn mk_op(op: Op, a: Term, b: Term) -> (r: Term)
    ensures
        r == term_op(op, a, b),
{
    Term::new(Node::Op(op, a, b))
}

/// Makes `t` where `c` holds, else `f`.
pub fn mk_ite(c: Term, t: Term, f: Term) -> (r: Term)
    ensures
        r == term_ite(c, t, f),
{
    Term::new(Node::Ite(c, t, f))
}

/// Folds a term to a literal, where it has a constant value.
pub fn fold(t: &Term) -> (r: Term)
    ensures
        r == folded(*t),
{
    match t.constant {
        Some(v) => Term::new(Node::Const(v)),
        None => t.clone(),
    }
}

/// The number that a constant is: one and zero for the truth values.
pub open spec fn number_of(v: Value) -> u64 {
    match v {
        Value::Bool(b) => if b {
            1
        } else {
            0
        },
        Value::Bv(_, x) => x,
    }
}

/// The width of a constant.
pub open spec fn width_of(v: Value) -> usize {
    match v {
        Value::Bool(_) => 1,
        Value::Bv(w, _) => w,
    }
}

/// Whether a constant counts as true: a truth value that is true, or a number that is not zero.
pub open spec fn truth_of(v: Value) -> bool {
    match v {
        Value::Bool(b) => b,
        Value::Bv(_, x) => x != 0,
    }
}

/// What a binary operator means on two constants. Where their sorts do not fit it, they are read as
/// numbers of the width of the first, or as truth values by `And` and `Or`.
pub open spec fn operation(op: Op, a: Value, b: Value) -> Value {
    match op {
        Op::And => Value::Bool(truth_of(a) && truth_of(b)),
        Op::Or => Value::Bool(truth_of(a) || truth_of(b)),
        _ => match op_value(op, a, b) {
            Some(v) => v,
            None => bv_op(op, width_of(a), number_of(a), number_of(b))->0,
        },
    }
}

/// What widening a constant means. Where it is no narrower number, its number is wrapped.
pub open spec fn extension(w: usize, signed: bool, a: Value) -> Value {
    match extend_value(w, signed, a) {
        Some(v) => v,
        None => Value::Bv(w, wrap(number_of(a) as int, w)),
    }
}

/// What narrowing a constant means. Where it is no wider number, its number is wrapped.
pub open spec fn truncation(w: usize, a: Value) -> Value {
    match truncate_value(w, a) {
        Some(v) => v,
        None => Value::Bv(w, wrap(number_of(a) as int, w)),
    }
}

/// What a term stands for once the inputs are given.
#[verifier::ext_equal]
pub enum Meaning {
    Scalar(Value),
    Array(Map<u64, Value>),
}

impl Meaning {
    /// The constant that this is; false for an array.
    pub open spec fn value(self) -> Value {
        match self {
            Meaning::Scalar(v) => v,
            Meaning::Array(_) => Value::Bool(false),
        }
    }

    /// The elements of the array that this is; a constant counts as an array of it.
    pub open spec fn contents(self) -> Map<u64, Value> {
        match self {
            Meaning::Scalar(v) => Map::new(|i: u64| true, |i: u64| v),
            Meaning::Array(m) => m,
        }
    }
}

/// The meaning of a term, where `env` gives the value of each input.
pub closed spec fn denote(t: Term, env: spec_fn(usize) -> Value) -> Meaning
    decreases t,
{
    match *t.node {
        Node::Const(v) => Meaning::Scalar(v),
        Node::Input(i, _) => Meaning::Scalar(env(i)),
        Node::Not(a) => Meaning::Scalar(Value::Bool(!truth_of(denote(a, env).value()))),
        Node::Op(op, a, b) => Meaning::Scalar(
            operation(op, denote(a, env).value(), denote(b, env).value()),
        ),
        Node::Ite(c, t, f) => if truth_of(denote(c, env).value()) {
            denote(t, env)
        } else {
            denote(f, env)
        },
        Node::ZeroExt(w, a) => Meaning::Scalar(extension(w, false, denote(a, env).value())),
        Node::SignExt(w, a) => Meaning::Scalar(extension(w, true, denote(a, env).value())),
        Node::Truncate(w, a) => Meaning::Scalar(truncation(w, denote(a, env).value())),
        Node::ZeroArray(_, _, vw) => Meaning::Array(
            Map::new(|i: u64| true, |i: u64| Value::Bv(vw, 0)),
        ),
        Node::Select(a, i) => Meaning::Scalar(
            denote(a, env).contents()[number_of(denote(i, env).value())],
        ),
        Node::Store(a, i, v) => Meaning::Array(
            denote(a, env).contents().insert(
                number_of(denote(i, env).value()),
                denote(v, env).value(),
            ),
        ),
    }
}

/// The meaning of a term made from a head, in terms of the meanings of its children.
pub proof fn lemma_denote(n: Node, env: spec_fn(usize) -> Value)
    ensures
        denote(Term::of(n), env) == (match n {
            Node::Const(v) => Meaning::Scalar(v),
            Node::Input(i, _) => Meaning::Scalar(env(i)),
            Node::Not(a) => Meaning::Scalar(Value::Bool(!truth_of(denote(a, env).value()))),
            Node::Op(op, a, b) => Meaning::Scalar(
                operation(op, denote(a, env).value(), denote(b, env).value()),
            ),
            Node::Ite(c, t, f) => if truth_of(denote(c, env).value()) {
                denote(t, env)
            } else {
                denote(f, env)
            },
            Node::ZeroExt(w, a) => Meaning::Scalar(extension(w, false, denote(a, env).value())),
            Node::SignExt(w, a) => Meaning::Scalar(extension(w, true, denote(a, env).value())),
            Node::Truncate(w, a) => Meaning::Scalar(truncation(w, denote(a, env).value())),
            Node::ZeroArray(_, _, vw) => Meaning::Array(
                Map::new(|i: u64| true, |i: u64| Value::Bv(vw, 0)),
            ),
            Node::Select(a, i) => Meaning::Scalar(
                denote(a, env).contents()[number_of(denote(i, env).value())],
            ),
            Node::Store(a, i, v) => Meaning::Array(
                denote(a, env).contents().insert(
                    number_of(denote(i, env).value()),
                    denote(v, env).value(),
                ),
            ),
        }),
{
}

/// A well-formed term of an array sort means an array, and one of another sort a constant.
pub proof fn lemma_kind(t: Term, env: spec_fn(usize) -> Value)
    requires
        t.wf(),
    ensures
        t.sort() is Array <==> denote(t, env) is Array,
    decreases t,
{
    lemma_of(t.node());
    match *t.node {
        Node::Ite(_, a, b) => {
            lemma_kind(a, env);
            lemma_kind(b, env);
        },
        Node::Store(a, _, _) => lemma_kind(a, env),
        _ => {},
    }
}

/// A term that carries a constant means that constant, whatever the inputs are.
pub proof fn lemma_constant_is_meaning(t: Term, env: spec_fn(usize) -> Value)
    requires
        t.wf(),
        t.constant() is Some,
    ensures
        denote(t, env) == Meaning::Scalar(t.constant()->0),
    decreases t,
{
    lemma_of(t.node());
    match *t.node {
        Node::Not(a) => lemma_constant_is_meaning(a, env),
        Node::ZeroExt(_, a) => lemma_constant_is_meaning(a, env),
        Node::SignExt(_, a) => lemma_constant_is_meaning(a, env),
        Node::Truncate(_, a) => lemma_constant_is_meaning(a, env),
        Node::Op(_, a, b) => {
            if a.constant() is Some {
                lemma_constant_is_meaning(a, env);
            }
            if b.constant() is Some {
                lemma_constant_is_meaning(b, env);
            }
        },
        Node::Ite(c, t1, f) => {
            lemma_constant_is_meaning(c, env);
            if c.constant() == Some(Value::Bool(true)) {
                lemma_constant_is_meaning(t1, env);
            } else {
                lemma_constant_is_meaning(f, env);
            }
        },
        _ => {},
    }
}

/// A well-formed literal carries its constant.
pub proof fn lemma_wf_const(t: Term)
    requires
        t.wf(),
    ensures
        t.node() matches Node::Const(v) ==> t.constant() == Some(v),
{
}

/// Folding a term does not change what it means.
pub proof fn law_fold_keeps_meaning(t: Term, env: spec_fn(usize) -> Value)
    requires
        t.wf(),
    ensures
        denote(folded(t), env) == denote(t, env),
{
    if t.constant() is Some {
        lemma_constant_is_meaning(t, env);
    }
}

/// A term that [`Term::new`] makes from well-formed children that fit its head is well formed.
pub proof fn law_new_term_is_wf(n: Node)
    requires
        kinds_fit(n),
        match n {
            Node::Const(_) | Node::Input(_, _) | Node::ZeroArray(_, _, _) => true,
            Node::Not(a) => a.wf(),
            Node::ZeroExt(_, a) => a.wf(),
            Node::SignExt(_, a) => a.wf(),
            Node::Truncate(_, a) => a.wf(),
            Node::Op(_, a, b) => a.wf() && b.wf(),
            Node::Select(a, b) => a.wf() && b.wf(),
            Node::Ite(a, b, c) => a.wf() && b.wf() && c.wf(),
            Node::Store(a, b, c) => a.wf() && b.wf() && c.wf(),
        },
    ensures
        Term::of(n).wf(),
        Term::of(n).sort() == node_sort(n),
{
}

} // verus!
