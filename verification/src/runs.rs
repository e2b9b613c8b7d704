//! What a program on numbers and truth values does, step by step, and that the circuit means just
//! that.
use std::rc::Rc;

use vstd::arithmetic::power2::lemma2_to64;
use vstd::arithmetic::power2::lemma2_to64_rest;
use vstd::arithmetic::power2::pow2;
use vstd::prelude::*;

use crate::ast::BinaryOperator;
use crate::ast::BinaryOperatorExpression;
use crate::ast::BlockItem;
use crate::ast::Constant;
use crate::ast::Declaration;
use crate::ast::DeclarationSpecifier;
use crate::ast::DeclaratorKind;
use crate::ast::Expression;
use crate::ast::ForInitializer;
use crate::ast::ForStatement;
use crate::ast::InitDeclarator;
use crate::ast::Initializer;
use crate::ast::Integer;
use crate::ast::IntegerSize;
use crate::ast::SpecifierQualifier;
use crate::ast::Statement;
use crate::ast::TypeSpecifier;
use crate::ast::UnaryOperator;
use crate::circ::find;
use crate::circ::find_scopes;
use crate::circ::merge;
use crate::circ::set_scopes;
use crate::circ::set_var;
use crate::circ::CircState;
use crate::circ::Var;
use crate::cterm::apply;
use crate::cterm::cast_to;
use crate::cterm::value_i32;
use crate::cterm::COp;
use crate::cterm::CTerm;
use crate::cterm::CTermData;
use crate::error::CError;
use crate::ir::as_signed;
use crate::ir::denote;
use crate::ir::folded;
use crate::ir::law_fold_keeps_meaning;
use crate::ir::law_new_term_is_wf;
use crate::ir::lemma_constant_is_meaning;
use crate::ir::lemma_denote;
use crate::ir::lemma_of;
use crate::ir::lemma_wf_const;
use crate::ir::lit_bv;
use crate::ir::term_not;
use crate::ir::wrap;
use crate::ir::Meaning;
use crate::ir::Node;
use crate::ir::Op;
use crate::ir::Term;
use crate::ir::Value;
use crate::kept::circ_kept;
use crate::kept::idle;
use crate::kept::is_true;
use crate::kept::kept;
use crate::kept::lemma_idle;
use crate::kept::Env;
use crate::laws::law_expression_keeps_shape;
use crate::laws::law_statement_keeps_shape;
use crate::list::shared;
use crate::list::List;
use crate::number::constant;
use crate::number::literal;
use crate::number::number;
use crate::single::trips;
use crate::steps::sound_decl;
use crate::steps::sound_loop_start;
use crate::steps::sound_rounds;
use crate::translate::binary;
use crate::translate::block;
use crate::translate::branch;
use crate::translate::compressed;
use crate::translate::d_type;
use crate::translate::d_types;
use crate::translate::decl;
use crate::translate::decl_info;
use crate::translate::decl_name;
use crate::translate::declarators_info;
use crate::translate::declarators_type;
use crate::translate::derived;
use crate::translate::expr;
use crate::translate::folded_expr;
use crate::translate::folded_i32;
use crate::translate::initial;
use crate::translate::iterations;
use crate::translate::loop_start;
use crate::translate::one_round;
use crate::translate::operated;
use crate::translate::rounds;
use crate::translate::s_type;
use crate::translate::s_types;
use crate::translate::stmt;
use crate::translate::unary;
use crate::translate::variables_from;
use crate::translate::DeclInfo;
use crate::translate::GenState;
use crate::types::Ty;
use crate::values::computed;
use crate::values::converted_to;
use crate::values::is_shift;
use crate::values::law_cast_converts;
use crate::values::law_operator_computes;
use crate::values::law_shift_moves_bits;
use crate::values::lemma_literal;
use crate::values::lemma_modulus;
use crate::values::scalar;
use crate::values::shifted;
use crate::values::signed;
use crate::values::Num;
use crate::wellformed::circ_wf;
use crate::wellformed::fit_decl;
use crate::wellformed::fit_initial;
use crate::wellformed::fit_loop_start;
use crate::wellformed::law_expression_keeps_well_formed;
use crate::wellformed::law_statement_keeps_well_formed;
use crate::wellformed::value_wf;
use crate::wellformed::wf_cast;
use crate::wellformed::wf_declared;
use crate::wellformed::wf_entered_condition;
use crate::wellformed::wf_entered_scope;
use crate::wellformed::wf_exited_condition;
use crate::wellformed::wf_exited_scope;

verus! {

/// The variables of a scope by name, with what they hold; nothing for what is neither a number nor
/// a truth value.
pub type Store = Map<Seq<char>, Option<Num>>;

/// A function that runs.
pub struct Machine {
    /// The scopes, the innermost first.
    pub scopes: List<Store>,
    pub globals: Store,
    /// Whether the function has returned.
    pub gone: bool,
    /// What the function returns, so far; nothing where it returns nothing.
    pub result: Option<Option<Num>>,
}

// ---------------------------------------------------------------------------------------------
// What programs do
// ---------------------------------------------------------------------------------------------

/// What the innermost scope with the variable holds under its name.
pub open spec fn seen(l: List<Store>, name: Seq<char>) -> Option<Option<Num>>
    decreases l,
{
    match l {
        List::Nil => None,
        List::Cons(s, rest) => if s.dom().contains(name) {
            Some(s[name])
        } else {
            seen(*rest, name)
        },
    }
}

/// The scopes with another value in the innermost variable of the name.
pub open spec fn changed(l: List<Store>, name: Seq<char>, n: Num) -> List<Store>
    decreases l,
{
    match l {
        List::Nil => List::Nil,
        List::Cons(s, rest) => if s.dom().contains(name) {
            List::Cons(s.insert(name, Some(n)), rest)
        } else {
            List::Cons(s, Rc::new(changed(*rest, name, n)))
        },
    }
}

/// Whether two values have one type.
pub open spec fn alike(a: Num, b: Num) -> bool {
    match (a, b) {
        (Num::Truth(_), Num::Truth(_)) => true,
        (Num::Number(s, w, _), Num::Number(r, v, _)) => s == r && w == v,
        _ => false,
    }
}

impl Machine {
    /// What a variable holds.
    pub open spec fn look(self, name: Seq<char>) -> Option<Num> {
        match seen(self.scopes, name) {
            Some(n) => n,
            None => if self.globals.dom().contains(name) {
                self.globals[name]
            } else {
                None
            },
        }
    }

    /// The machine with another value in a variable.
    pub open spec fn put(self, name: Seq<char>, n: Num) -> Machine {
        if seen(self.scopes, name) is Some {
            Machine { scopes: changed(self.scopes, name, n), ..self }
        } else {
            Machine { globals: self.globals.insert(name, Some(n)), ..self }
        }
    }

    /// Assignment of a value of the type of the variable; it has an effect where `live`.
    pub open spec fn assign(self, name: Seq<char>, n: Num, live: bool) -> Option<(Num, Machine)> {
        match self.look(name) {
            Some(o) => if alike(o, n) {
                let v = if live {
                    n
                } else {
                    o
                };
                Some((v, self.put(name, v)))
            } else {
                None
            },
            None => None,
        }
    }

    /// Whether the innermost scope has no variable of the name.
    pub open spec fn is_free(self, name: Seq<char>) -> bool {
        self.scopes matches List::Cons(s, _) && !s.dom().contains(name)
    }

    /// The machine with a new variable in its innermost scope.
    pub open spec fn declare(self, name: Seq<char>, n: Num) -> Machine {
        match self.scopes {
            List::Nil => self,
            List::Cons(s, rest) => Machine {
                scopes: List::Cons(s.insert(name, Some(n)), rest),
                ..self
            },
        }
    }

    /// The machine within a new scope.
    pub open spec fn push(self) -> Machine {
        Machine { scopes: List::Cons(Map::empty(), Rc::new(self.scopes)), ..self }
    }

    /// The machine behind its innermost scope.
    pub open spec fn pop(self) -> Machine {
        match self.scopes {
            List::Nil => self,
            List::Cons(_, rest) => Machine { scopes: *rest, ..self },
        }
    }
}

/// The number of an integer literal.
pub open spec fn literal_number(i: Integer) -> Option<Num> {
    let w: usize = match i.size {
        IntegerSize::Int => 32,
        _ => 64,
    };
    let m = pow2(w as nat) as int;
    match number(i.number@, !i.unsigned) {
        Some(n) => {
            let fits = if i.unsigned {
                0 <= n < m
            } else {
                -(m / 2) <= n < m / 2
            };
            if i.size != IntegerSize::LongLong && fits {
                Some(Num::Number(!i.unsigned, w, n % m))
            } else {
                None
            }
        },
        None => None,
    }
}

/// The operation that an operator sign stands for.
pub open spec fn sign(op: BinaryOperator) -> Option<COp> {
    match op {
        BinaryOperator::Multiply => Some(COp::Mul),
        BinaryOperator::Divide => Some(COp::Div),
        BinaryOperator::Modulo => Some(COp::Rem),
        BinaryOperator::Plus => Some(COp::Add),
        BinaryOperator::Minus => Some(COp::Sub),
        BinaryOperator::ShiftLeft => Some(COp::Shl),
        BinaryOperator::ShiftRight => Some(COp::Shr),
        BinaryOperator::Less => Some(COp::Ult),
        BinaryOperator::Greater => Some(COp::Ugt),
        BinaryOperator::LessOrEqual => Some(COp::Ule),
        BinaryOperator::GreaterOrEqual => Some(COp::Uge),
        BinaryOperator::Equals => Some(COp::Eq),
        BinaryOperator::NotEquals => Some(COp::Neq),
        BinaryOperator::BitwiseAnd => Some(COp::BitAnd),
        BinaryOperator::BitwiseXor => Some(COp::BitXor),
        BinaryOperator::BitwiseOr => Some(COp::BitOr),
        BinaryOperator::LogicalAnd => Some(COp::And),
        BinaryOperator::LogicalOr => Some(COp::Or),
        _ => None,
    }
}

/// The type that a keyword stands for.
pub open spec fn keyword(t: TypeSpecifier) -> Option<Ty> {
    match t {
        TypeSpecifier::Int => Some(Ty::Int(true, 32)),
        TypeSpecifier::Unsigned => Some(Ty::Int(false, 32)),
        TypeSpecifier::Long => Some(Ty::Int(true, 32)),
        TypeSpecifier::Bool => Some(Ty::Bool),
        _ => None,
    }
}

/// The value of an expression that computes with literals and variables.
pub open spec fn eval(m: Machine, e: Expression) -> Option<Num>
    decreases e,
{
    match e {
        Expression::Identifier(name) => m.look(name@),
        Expression::Constant(Constant::Integer(i)) => literal_number(i),
        Expression::BinaryOperator(b) => match (sign(b.operator), eval(m, b.lhs), eval(m, b.rhs)) {
            (Some(op), Some(x), Some(y)) => if is_shift(op) {
                match y {
                    Num::Number(_, w, k) => Some(shifted(op, x, signed(w, k))),
                    Num::Truth(_) => None,
                }
            } else {
                Some(computed(op, x, y))
            },
            _ => None,
        },
        Expression::Cast(c) => if c.target.specifiers@.len() == 1 {
            match (c.target.specifiers@[0], eval(m, c.expression)) {
                (SpecifierQualifier::TypeSpecifier(t), Some(n)) => match keyword(t) {
                    Some(ty) => converted_to(ty, n),
                    None => None,
                },
                _ => None,
            }
        } else {
            None
        },
        _ => None,
    }
}

/// Whether all shifts in an expression are by literals.
pub open spec fn shifts_by_literals(e: Expression) -> bool
    decreases e,
{
    match e {
        Expression::BinaryOperator(b) => {
            &&& b.operator == BinaryOperator::ShiftLeft || b.operator == BinaryOperator::ShiftRight
                ==> b.rhs is Constant
            &&& shifts_by_literals(b.lhs)
            &&& shifts_by_literals(b.rhs)
        },
        Expression::Cast(c) => shifts_by_literals(c.expression),
        _ => true,
    }
}

/// The value of an expression that may assign to a variable, and the machine behind it.
pub open spec fn effect(m: Machine, e: Expression, live: bool) -> Option<(Num, Machine)> {
    match e {
        Expression::BinaryOperator(b) => match (b.operator, b.lhs) {
            (BinaryOperator::Assign, Expression::Identifier(name)) => match eval(m, b.rhs) {
                Some(n) => m.assign(name@, n, live),
                None => None,
            },
            (BinaryOperator::AssignPlus, Expression::Identifier(name)) => match (
                m.look(name@),
                eval(m, b.rhs),
            ) {
                (Some(o), Some(n)) => m.assign(name@, computed(COp::Add, o, n), live),
                _ => None,
            },
            (BinaryOperator::AssignDivide, Expression::Identifier(name)) => match (
                m.look(name@),
                eval(m, b.rhs),
            ) {
                (Some(o), Some(n)) => m.assign(name@, computed(COp::Div, o, n), live),
                _ => None,
            },
            _ => match eval(m, e) {
                Some(n) => Some((n, m)),
                None => None,
            },
        },
        Expression::UnaryOperator(u) => match (u.operator, u.operand) {
            (UnaryOperator::PostIncrement, Expression::Identifier(name)) => match m.look(name@) {
                Some(o) => m.assign(name@, computed(COp::Add, o, Num::Number(true, 32, 1)), live),
                None => None,
            },
            (UnaryOperator::PostDecrement, Expression::Identifier(name)) => match m.look(name@) {
                Some(o) => m.assign(name@, computed(COp::Sub, o, Num::Number(true, 32, 1)), live),
                None => None,
            },
            _ => None,
        },
        _ => match eval(m, e) {
            Some(n) => Some((n, m)),
            None => None,
        },
    }
}

/// The zero of a type.
pub open spec fn zero_number(ty: Ty) -> Num {
    match ty {
        Ty::Int(s, w) => Num::Number(s, w, 0),
        _ => Num::Truth(false),
    }
}

/// The machine behind the declarators from the `i`-th on, with the given type, and the initial
/// values behind those in `acc`.
pub open spec fn run_declarators(
    m: Machine,
    ty: Ty,
    ds: Seq<InitDeclarator>,
    i: nat,
    acc: Seq<Num>,
) -> Option<(Seq<Num>, Machine)>
    decreases ds.len() - i,
{
    if i >= ds.len() {
        Some((acc, m))
    } else {
        let d = ds[i as int];
        let n = match d.initializer {
            None => Some(zero_number(ty)),
            Some(Initializer::Expression(e)) => eval(m, *e),
            _ => None,
        };
        match (d.declarator.kind, n) {
            (DeclaratorKind::Identifier(name), Some(n)) => if d.declarator.derived@.len() == 0
                && m.is_free(name@) {
                match converted_to(ty, n) {
                    Some(v) => run_declarators(
                        m.declare(name@, v),
                        ty,
                        ds,
                        i + 1,
                        acc.push(n),
                    ),
                    None => None,
                }
            } else {
                None
            },
            _ => None,
        }
    }
}

/// The type of a declaration by one keyword.
pub open spec fn declared_keyword(d: Declaration) -> Option<Ty> {
    if d.specifiers@.len() == 1 {
        match d.specifiers@[0] {
            DeclarationSpecifier::TypeSpecifier(t) => keyword(t),
            _ => None,
        }
    } else {
        None
    }
}

/// The machine behind a declaration of variables, and their initial values.
pub open spec fn run_declaration(m: Machine, d: Declaration) -> Option<(Seq<Num>, Machine)> {
    match declared_keyword(d) {
        Some(ty) => run_declarators(m, ty, d.declarators@, 0, Seq::empty()),
        None => None,
    }
}

/// A number with its sign.
pub open spec fn whole(n: Num) -> Option<int> {
    match n {
        Num::Number(_, w, x) => Some(signed(w, x)),
        Num::Truth(_) => None,
    }
}

/// The number from which a loop counts, and the machine behind its initializer.
pub open spec fn run_start(m: Machine, i: ForInitializer, live: bool) -> Option<(int, Machine)> {
    match i {
        ForInitializer::Declaration(d) => match run_declaration(m, d) {
            Some((ns, m)) => if ns.len() == 1 {
                match whole(ns[0]) {
                    Some(n) => Some((n, m)),
                    None => None,
                }
            } else {
                None
            },
            None => None,
        },
        ForInitializer::Expression(e) => match effect(m, e, live) {
            Some((n, m)) => match whole(n) {
                Some(n) => Some((n, m)),
                None => None,
            },
            None => None,
        },
        ForInitializer::Other => None,
    }
}

/// The first number that a counting loop does not reach, counting by ones.
pub open spec fn run_end(m: Machine, c: Option<Expression>) -> Option<int> {
    match c {
        Some(Expression::BinaryOperator(b)) => match eval(m, b.rhs) {
            Some(n) => match (whole(n), b.operator) {
                (Some(n), BinaryOperator::Less) => Some(n),
                (Some(n), BinaryOperator::LessOrEqual) => if n < i32::MAX {
                    Some(n + 1)
                } else {
                    None
                },
                (Some(n), BinaryOperator::Greater) => Some(n),
                (Some(n), BinaryOperator::GreaterOrEqual) => if n > i32::MIN {
                    Some(n - 1)
                } else {
                    None
                },
                _ => None,
            },
            None => None,
        },
        _ => None,
    }
}

/// The number by which a loop counts.
pub open spec fn run_step(m: Machine, s: Option<Expression>) -> Option<int> {
    match s {
        Some(Expression::UnaryOperator(u)) => match u.operator {
            UnaryOperator::PostIncrement => Some(1),
            UnaryOperator::PostDecrement => Some(-1),
            _ => None,
        },
        Some(Expression::BinaryOperator(b)) => if b.operator == BinaryOperator::AssignPlus {
            match eval(m, b.rhs) {
                Some(n) => whole(n),
                None => None,
            }
        } else {
            None
        },
        _ => None,
    }
}

/// The machine behind a statement. Where `taken` is false, an enclosing branch is not taken.
pub open spec fn run(m: Machine, s: Statement, taken: bool) -> Option<Machine>
    decreases s, 0nat,
{
    let live = taken && !m.gone;
    match s {
        Statement::Compound(items) => run_block(m, items@, 0, taken),
        Statement::Expression(None) => Some(m),
        Statement::Expression(Some(e)) => match effect(m, *e, live) {
            Some((_, m)) => Some(m),
            None => None,
        },
        Statement::If(i) => match eval(m, i.condition) {
            Some(Num::Truth(c)) => match run(m, i.then_statement, taken && c) {
                Some(m) => match i.else_statement {
                    None => Some(m),
                    Some(s) => run(m, s, taken && !c),
                },
                None => None,
            },
            _ => None,
        },
        Statement::Return(None) => Some(Machine { gone: m.gone || live, ..m }),
        Statement::Return(Some(e)) => match (eval(m, *e), m.result) {
            (Some(n), Some(Some(o))) => if alike(o, n) {
                Some(
                    Machine {
                        gone: m.gone || live,
                        result: Some(
                            Some(
                                if live {
                                    n
                                } else {
                                    o
                                },
                            ),
                        ),
                        ..m
                    },
                )
            } else {
                None
            },
            _ => None,
        },
        Statement::For(f) => match run_start(m.push(), f.initializer, live) {
            Some((from, m)) => match (run_end(m, f.condition), run_step(m, f.step)) {
                (Some(to), Some(by)) => {
                    let n = trips(from, to, by);
                    match run_rounds(
                        m,
                        *f,
                        if n > 0 {
                            n as nat
                        } else {
                            0
                        },
                        taken,
                    ) {
                        Some(m) => Some(m.pop()),
                        None => None,
                    }
                },
                _ => None,
            },
            None => None,
        },
        Statement::Other => None,
    }
}

/// The machine behind the items of a block from the `i`-th on.
pub open spec fn run_block(m: Machine, items: Seq<BlockItem>, i: nat, taken: bool) -> Option<
    Machine,
>
    decreases items, items.len() - i,
{
    if i >= items.len() {
        Some(m)
    } else {
        match items[i as int] {
            BlockItem::Declaration(d) => match run_declaration(m, d) {
                Some((_, m)) => run_block(m, items, i + 1, taken),
                None => None,
            },
            BlockItem::Statement(s) => match run(m, s, taken) {
                Some(m) => run_block(m, items, i + 1, taken),
                None => None,
            },
            BlockItem::StaticAssert => None,
        }
    }
}

/// The machine behind `n` times the body of a loop, each time followed by its step.
pub open spec fn run_rounds(m: Machine, f: ForStatement, n: nat, taken: bool) -> Option<Machine>
    decreases f, n,
{
    if n == 0 {
        Some(m)
    } else {
        match run(m.push(), f.statement, taken) {
            Some(m) => match f.step {
                Some(e) => {
                    let m = m.pop();
                    match effect(m, e, taken && !m.gone) {
                        Some((_, m)) => run_rounds(m, f, (n - 1) as nat, taken),
                        None => None,
                    }
                },
                None => None,
            },
            None => None,
        }
    }
}

// ---------------------------------------------------------------------------------------------
// What the circuit means
// ---------------------------------------------------------------------------------------------

/// What variables hold on the given inputs.
pub open spec fn store_of(env: Env, l: List<Var>) -> Store {
    Map::new(
        |name: Seq<char>| find(l, name) is Some,
        |name: Seq<char>| scalar(env, find(l, name)->0.val),
    )
}

/// What the variables of scopes hold on the given inputs.
pub open spec fn stores_of(env: Env, l: List<Rc<List<Var>>>) -> List<Store>
    decreases l,
{
    match l {
        List::Nil => List::Nil,
        List::Cons(s, rest) => List::Cons(store_of(env, *s), Rc::new(stores_of(env, *rest))),
    }
}

/// The function that is being translated as it runs on the given inputs.
pub open spec fn machine(env: Env, c: CircState) -> Machine {
    Machine {
        scopes: stores_of(env, *c.top().scopes),
        globals: store_of(env, c.globals),
        gone: is_true(c.top().returned, env),
        result: match c.top().ret_val {
            Some(v) => Some(scalar(env, v)),
            None => None,
        },
    }
}

proof fn lemma_seen(env: Env, l: List<Rc<List<Var>>>, name: Seq<char>)
    ensures
        seen(stores_of(env, l), name) == (match find_scopes(l, name) {
            Some(v) => Some(scalar(env, v.val)),
            None => None,
        }),
    decreases l,
{
    match l {
        List::Nil => {},
        List::Cons(s, rest) => lemma_seen(env, shared(rest), name),
    }
}

/// What a variable holds is what its value means.
pub(crate) proof fn lemma_look(env: Env, c: CircState, name: Seq<char>)
    requires
        c.frames.len() > 0,
    ensures
        machine(env, c).look(name) == (match c.lookup(name) {
            Some(v) => scalar(env, v.val),
            None => None,
        }),
{
    lemma_seen(env, shared(c.top().scopes), name);
}

proof fn lemma_set_var_store(env: Env, l: List<Var>, name: Seq<char>, other: Seq<char>, val: CTerm)
    ensures
        find(l, name) is Some ==> find(set_var(l, name, val), name) is Some && find(
            set_var(l, name, val),
            name,
        )->0.val == val,
        find(l, name) is None ==> find(set_var(l, name, val), name) is None,
        name != other ==> find(set_var(l, name, val), other) == find(l, other),
    decreases l,
{
    match l {
        List::Nil => {},
        List::Cons(_, rest) => lemma_set_var_store(env, shared(rest), name, other, val),
    }
}

proof fn lemma_store_set(env: Env, l: List<Var>, name: Seq<char>, val: CTerm, n: Num)
    requires
        find(l, name) is Some,
        scalar(env, val) == Some(n),
    ensures
        store_of(env, set_var(l, name, val)) == store_of(env, l).insert(name, Some(n)),
{
    let a = store_of(env, set_var(l, name, val));
    let b = store_of(env, l).insert(name, Some(n));
    assert forall|k: Seq<char>| #[trigger] a.dom().contains(k) == b.dom().contains(k) by {
        lemma_set_var_store(env, l, name, k, val);
    }
    assert forall|k: Seq<char>| #[trigger] a.dom().contains(k) implies a[k] == b[k] by {
        lemma_set_var_store(env, l, name, k, val);
    }
    assert(a =~= b);
}

proof fn lemma_stores_set(
    env: Env,
    l: List<Rc<List<Var>>>,
    name: Seq<char>,
    val: CTerm,
    n: Num,
)
    requires
        find_scopes(l, name) is Some,
        scalar(env, val) == Some(n),
    ensures
        stores_of(env, set_scopes(l, name, val)) == changed(stores_of(env, l), name, n),
    decreases l,
{
    match l {
        List::Nil => {},
        List::Cons(s, rest) => {
            if find(shared(s), name) is Some {
                lemma_store_set(env, shared(s), name, val, n);
            } else {
                lemma_stores_set(env, shared(rest), name, val, n);
            }
        },
    }
}

/// A merged value is the first where the condition holds, else the second.
pub(crate) proof fn lemma_merge_scalar(env: Env, c: Term, t: CTerm, f: CTerm)
    requires
        scalar(env, t) is Some,
        scalar(env, f) is Some,
        alike(scalar(env, f)->0, scalar(env, t)->0),
    ensures
        merge(c, t, f) is Ok,
        scalar(env, merge(c, t, f)->Ok_0) == (if is_true(c, env) {
            scalar(env, t)
        } else {
            scalar(env, f)
        }),
{
    match (t.term, f.term) {
        (CTermData::CBool(a), CTermData::CBool(b)) => lemma_denote(Node::Ite(c, a, b), env),
        (CTermData::CInt(_, _, a), CTermData::CInt(_, _, b)) => lemma_denote(
            Node::Ite(c, a, b),
            env,
        ),
        _ => {},
    }
}

/// An assignment does what it does on the machine.
pub(crate) proof fn lemma_assign(env: Env, c: CircState, name: String, val: CTerm, n: Num)
    requires
        c.frames.len() > 0,
        scalar(env, val) == Some(n),
        machine(env, c).assign(name@, n, is_true(c.condition(), env)) is Some,
    ensures
        c.assigned(name, val) is Ok,
        ({
            let (v, d) = c.assigned(name, val)->Ok_0;
            let (r, m) = machine(env, c).assign(name@, n, is_true(c.condition(), env))->0;
            &&& scalar(env, v) == Some(r)
            &&& machine(env, d) == m
        }),
{
    lemma_look(env, c, name@);
    lemma_seen(env, shared(c.top().scopes), name@);
    let live = is_true(c.condition(), env);
    let old_val = c.lookup(name@)->0.val;
    lemma_merge_scalar(env, c.condition(), val, old_val);
    let v = merge(c.condition(), val, old_val)->Ok_0;
    let (r, m) = machine(env, c).assign(name@, n, live)->0;
    assert(scalar(env, v) == Some(r));
    if find_scopes(shared(c.top().scopes), name@) is Some {
        lemma_stores_set(env, shared(c.top().scopes), name@, v, r);
    } else {
        lemma_store_set(env, c.globals, name@, v, r);
    }
    assert(machine(env, c.set(name@, v)) == m);
}

/// The number that a term folds to is what it means.
proof fn lemma_folded(env: Env, t: Term, w: usize, x: u64)
    requires
        t.wf(),
        denote(t, env) == Meaning::Scalar(Value::Bv(w, x)),
    ensures
        value_i32(folded(t)).int_constant() matches Ok(k) ==> k == as_signed(w, x),
{
    law_fold_keeps_meaning(t, env);
    if t.constant() is Some {
        lemma_of(Node::Const(t.constant()->0));
        lemma_denote(Node::Const(t.constant()->0), env);
    } else {
        lemma_wf_const(t);
    }
}

pub(crate) proof fn lemma_literal_number(env: Env, i: Integer)
    requires
        literal_number(i) is Some,
    ensures
        literal(i) is Ok,
        scalar(env, literal(i)->Ok_0) == literal_number(i),
{
    lemma2_to64();
    lemma2_to64_rest();
    let w: usize = match i.size {
        IntegerSize::Int => 32,
        _ => 64,
    };
    let n = number(i.number@, !i.unsigned)->0;
    lemma_modulus(w);
    lemma_literal(env, n, w);
}

/// A type keyword makes its type and changes nothing.
pub(crate) proof fn lemma_keyword(
    depth: nat,
    st: GenState,
    ss: Seq<SpecifierQualifier>,
    t: TypeSpecifier,
)
    requires
        ss.len() == 1,
        ss[0] == SpecifierQualifier::TypeSpecifier(t),
        keyword(t) is Some,
    ensures
        s_type(depth, st, ss) == Ok::<(Option<Ty>, GenState), CError>((keyword(t), st)),
{
    reveal_with_fuel(s_types, 3);
    let ts = Seq::<Option<Ty>>::empty().push(keyword(t));
    assert(s_types(depth, st, ss, 0, Seq::empty()) == Ok::<(Seq<Option<Ty>>, GenState), CError>(
        (ts, st),
    ));
    assert(compressed(ts) == Ok::<Option<Ty>, CError>(ts[0]));
}

/// What an operator gives on two values whose meaning is known.
proof fn lemma_operated(env: Env, op: COp, x: CTerm, y: CTerm)
    requires
        scalar(env, x) is Some,
        scalar(env, y) is Some,
        value_wf(y),
        is_shift(op) ==> scalar(env, y)->0 is Number,
    ensures
        !is_shift(op) ==> operated(op, x, y) is Ok,
        operated(op, x, y) matches Ok(r) ==> scalar(env, r) == Some(
            if is_shift(op) {
                let n = scalar(env, y)->0;
                shifted(op, scalar(env, x)->0, signed(n->Number_1, n->Number_2))
            } else {
                computed(op, scalar(env, x)->0, scalar(env, y)->0)
            },
        ),
        y.one_term()->Ok_0.constant() is Some ==> operated(op, x, y) is Ok,
{
    if is_shift(op) {
        let t = y.one_term()->Ok_0;
        let n = scalar(env, y)->0;
        let w = n->Number_1;
        let k = n->Number_2;
        lemma_modulus(w);
        lemma_folded(env, t, w, k as u64);
        let c = value_i32(folded(t));
        if t.constant() is Some {
            lemma_of(Node::Const(t.constant()->0));
            lemma_constant_is_meaning(t, env);
        }
        if c.int_constant() is Ok {
            law_shift_moves_bits(env, op, x, c, signed(w, k));
        }
    } else {
        law_operator_computes(env, op, x, y);
    }
}

/// The value of a literal carries its constant.
proof fn lemma_literal_constant(e: Expression)
    requires
        e matches Expression::Constant(Constant::Integer(i)) && literal_number(i) is Some,
    ensures
        e matches Expression::Constant(c) && (constant(c) matches Ok(v) && (v.one_term() matches
            Ok(t) && t.constant() is Some)),
{
    let i = e->Constant_0->Integer_0;
    lemma2_to64();
    lemma2_to64_rest();
    let w: usize = match i.size {
        IntegerSize::Int => 32,
        _ => 64,
    };
    let n = number(i.number@, !i.unsigned)->0;
    lemma_of(Node::Const(Value::Bv(w, wrap(n, w))));
}

/// An expression that computes with literals and variables changes nothing, and its value means
/// what it computes. It is translated where all shifts in it are by literals.
#[verifier::spinoff_prover]
pub proof fn law_expression_computes(env: Env, depth: nat, st: GenState, e: Expression)
    requires
        st.circ.frames.len() > 0,
        circ_wf(st.circ),
        eval(machine(env, st.circ), e) is Some,
    ensures
        shifts_by_literals(e) ==> expr(depth, st, e) is Ok,
        expr(depth, st, e) matches Ok((v, after)) ==> after == st && scalar(env, v) == eval(
            machine(env, st.circ),
            e,
        ),
    decreases e,
{
    match e {
        Expression::Identifier(name) => lemma_look(env, st.circ, name@),
        Expression::Constant(Constant::Integer(i)) => lemma_literal_number(env, i),
        Expression::BinaryOperator(b) => {
            law_expression_computes(env, depth, st, b.lhs);
            law_expression_computes(env, depth, st, b.rhs);
            assert(expr(depth, st, e) == binary(depth, st, *b));
            if expr(depth, st, b.lhs) is Ok && expr(depth, st, b.rhs) is Ok {
                let op = sign(b.operator)->0;
                let (x, _) = expr(depth, st, b.lhs)->Ok_0;
                let (y, _) = expr(depth, st, b.rhs)->Ok_0;
                law_expression_keeps_well_formed(depth, st, b.rhs);
                lemma_operated(env, op, x, y);
                if b.rhs is Constant {
                    lemma_literal_constant(b.rhs);
                }
            }
        },
        Expression::Cast(c) => {
            law_expression_computes(env, depth, st, c.expression);
            match c.target.specifiers@[0] {
                SpecifierQualifier::TypeSpecifier(t) => {
                    lemma_keyword(depth, st, c.target.specifiers@, t);
                    if expr(depth, st, c.expression) is Ok {
                        let (x, _) = expr(depth, st, c.expression)->Ok_0;
                        law_cast_converts(env, keyword(t)->0, x);
                    }
                },
                _ => {},
            }
        },
        _ => {},
    }
}

/// An expression that may assign to a variable does what it does on the machine.
pub proof fn law_assignment_takes_effect(env: Env, depth: nat, st: GenState, e: Expression)
    requires
        st.circ.frames.len() > 0,
        circ_wf(st.circ),
        expr(depth, st, e) is Ok,
        effect(machine(env, st.circ), e, is_true(st.circ.condition(), env)) is Some,
    ensures
        ({
            let (v, after) = expr(depth, st, e)->Ok_0;
            let (n, m) = effect(machine(env, st.circ), e, is_true(st.circ.condition(), env))->0;
            &&& scalar(env, v) == Some(n)
            &&& machine(env, after.circ) == m
        }),
{
    let m = machine(env, st.circ);
    let live = is_true(st.circ.condition(), env);
    match e {
        Expression::BinaryOperator(b) => {
            assert(b.operator != BinaryOperator::Index ==> expr(depth, st, e) == binary(
                depth,
                st,
                *b,
            ));
            match (b.operator, b.lhs) {
                (BinaryOperator::Assign, Expression::Identifier(name)) => {
                    law_expression_computes(env, depth, st, b.rhs);
                    let (v, _) = expr(depth, st, b.rhs)->Ok_0;
                    lemma_assign(env, st.circ, name, v, eval(m, b.rhs)->0);
                },
                (BinaryOperator::AssignPlus, Expression::Identifier(name)) => {
                    lemma_compound(env, depth, st, *b, name, COp::Add);
                },
                (BinaryOperator::AssignDivide, Expression::Identifier(name)) => {
                    lemma_compound(env, depth, st, *b, name, COp::Div);
                },
                _ => law_expression_computes(env, depth, st, e),
            }
        },
        Expression::UnaryOperator(u) => {
            assert(expr(depth, st, e) == unary(depth, st, *u));
            match u.operand {
                Expression::Identifier(name) => {
                    let one = value_i32(lit_bv(1, 32));
                    lemma2_to64();
                    lemma_literal(env, 1, 32);
                    assert(scalar(env, one) == Some(Num::Number(true, 32, 1)));
                    lemma_look(env, st.circ, name@);
                    let a = st.circ.lookup(name@)->0.val;
                    let op = if u.operator == UnaryOperator::PostIncrement {
                        COp::Add
                    } else {
                        COp::Sub
                    };
                    assert(expr(depth, st, u.operand) == Ok::<(CTerm, GenState), CError>((a, st)));
                    law_operator_computes(env, op, a, one);
                    let v = apply(op, a, one)->Ok_0;
                    lemma_assign(env, st.circ, name, v, scalar(env, v)->0);
                },
                _ => {},
            }
        },
        _ => law_expression_computes(env, depth, st, e),
    }
}

proof fn lemma_compound(
    env: Env,
    depth: nat,
    st: GenState,
    b: BinaryOperatorExpression,
    name: String,
    op: COp,
)
    requires
        st.circ.frames.len() > 0,
        circ_wf(st.circ),
        binary(depth, st, b) is Ok,
        b.lhs == Expression::Identifier(name),
        b.operator == BinaryOperator::AssignPlus && op == COp::Add || b.operator
            == BinaryOperator::AssignDivide && op == COp::Div,
        ({
            let m = machine(env, st.circ);
            &&& m.look(name@) is Some
            &&& eval(m, b.rhs) is Some
            &&& m.assign(
                name@,
                computed(op, m.look(name@)->0, eval(m, b.rhs)->0),
                is_true(st.circ.condition(), env),
            ) is Some
        }),
    ensures
        ({
            let m = machine(env, st.circ);
            let (v, after) = binary(depth, st, b)->Ok_0;
            let (n, k) = m.assign(
                name@,
                computed(op, m.look(name@)->0, eval(m, b.rhs)->0),
                is_true(st.circ.condition(), env),
            )->0;
            &&& scalar(env, v) == Some(n)
            &&& machine(env, after.circ) == k
        }),
{
    law_expression_computes(env, depth, st, b.rhs);
    lemma_look(env, st.circ, name@);
    let a = st.circ.lookup(name@)->0.val;
    assert(expr(depth, st, b.lhs) == Ok::<(CTerm, GenState), CError>((a, st)));
    let (y, _) = expr(depth, st, b.rhs)->Ok_0;
    law_operator_computes(env, op, a, y);
    let v = apply(op, a, y)->Ok_0;
    lemma_assign(env, st.circ, name, v, scalar(env, v)->0);
}

pub(crate) proof fn lemma_declare(env: Env, c: CircState, name: String, ty: Ty, val: CTerm, n: Num)
    requires
        c.frames.len() > 0,
        scalar(env, val) == Some(n),
        c.declared(name, ty, val) is Ok,
    ensures
        machine(env, c.declared(name, ty, val)->Ok_0.1) == machine(env, c).declare(name@, n),
{
    let d = c.declared(name, ty, val)->Ok_0.1;
    let l = c.here()->0;
    let k = List::Cons(Var { name, ty, val }, Rc::new(l));
    let a = store_of(env, k);
    let b = store_of(env, l).insert(name@, Some(n));
    assert forall|x: Seq<char>| #[trigger] a.dom().contains(x) == b.dom().contains(x) by {
        assert(find(k, x) == if name@ == x {
            Some(Var { name, ty, val })
        } else {
            find(l, x)
        });
    }
    assert forall|x: Seq<char>| #[trigger] a.dom().contains(x) implies a[x] == b[x] by {
        assert(find(k, x) == if name@ == x {
            Some(Var { name, ty, val })
        } else {
            find(l, x)
        });
    }
    assert(a =~= b);
    match shared(c.top().scopes) {
        List::Nil => {},
        List::Cons(_, rest) => {
            assert(stores_of(env, shared(d.top().scopes)) == List::Cons(
                a,
                Rc::new(stores_of(env, shared(rest))),
            ));
        },
    }
}

/// Whether the declarators from the `i`-th on declare plain names.
spec fn plain_names(ds: Seq<InitDeclarator>, i: nat) -> bool {
    forall|j: int|
        i <= j < ds.len() ==> (#[trigger] ds[j]).declarator.derived@.len() == 0
            && ds[j].declarator.kind is Identifier
}

proof fn lemma_plain_names(m: Machine, ty: Ty, ds: Seq<InitDeclarator>, i: nat, acc: Seq<Num>)
    requires
        run_declarators(m, ty, ds, i, acc) is Some,
    ensures
        plain_names(ds, i),
    decreases ds.len() - i,
{
    if i < ds.len() {
        let d = ds[i as int];
        let n = match d.initializer {
            None => Some(zero_number(ty)),
            Some(Initializer::Expression(e)) => eval(m, *e),
            _ => None,
        };
        let name = d.declarator.kind->Identifier_0;
        let v = converted_to(ty, n->0)->0;
        lemma_plain_names(m.declare(name@, v), ty, ds, i + 1, acc.push(n->0));
    }
}

proof fn lemma_plain_type(depth: nat, st: GenState, ty: Ty, ds: Seq<InitDeclarator>, i: nat)
    requires
        plain_names(ds, i),
    ensures
        declarators_type(depth, st, ty, ds, i) == Ok::<(Ty, GenState), CError>((ty, st)),
    decreases ds.len() - i,
{
    if i < ds.len() {
        let d = ds[i as int].declarator;
        assert(d.derived@.len() == 0);
        assert(derived(depth, st, ty, d.derived@, 0) == Ok::<(Ty, GenState), CError>((ty, st)));
        lemma_plain_type(depth, st, ty, ds, i + 1);
    }
}

proof fn lemma_plain_infos(
    st: GenState,
    ty: Ty,
    ds: Seq<InitDeclarator>,
    i: nat,
    acc: Seq<DeclInfo>,
)
    requires
        plain_names(ds, i),
        !(ty is Struct),
        acc.len() == i <= ds.len(),
    ensures
        ({
            let r = declarators_info(st, ty, ds, i, acc);
            &&& r is Ok
            &&& r->Ok_0.1 == st
            &&& ({
                let infos = r->Ok_0.0;
                &&& infos.len() == ds.len()
                &&& infos.take(i as int) == acc
                &&& forall|j: int|
                    i <= j < ds.len() ==> (#[trigger] infos[j]).ty == ty && decl_name(
                        ds[j].declarator,
                    ) == Ok::<String, CError>(infos[j].name)
            })
        }),
    decreases ds.len() - i,
{
    if i < ds.len() {
        let name = ds[i as int].declarator.kind->Identifier_0;
        let d = DeclInfo { name, ty };
        lemma_plain_infos(st, ty, ds, i + 1, acc.push(d));
        let infos = declarators_info(st, ty, ds, i + 1, acc.push(d))->Ok_0.0;
        assert(declarators_info(st, ty, ds, i, acc) == declarators_info(
            st,
            ty,
            ds,
            i + 1,
            acc.push(d),
        ));
        assert(infos[i as int] == infos.take(i as int + 1)[i as int]);
        assert(infos.take(i as int) =~= infos.take(i as int + 1).take(i as int));
        assert(acc =~= acc.push(d).take(i as int));
    } else {
        assert(acc.take(i as int) =~= acc);
    }
}

/// Whether values mean the given numbers, one by one.
pub open spec fn all_mean(env: Env, vs: Seq<CTerm>, ns: Seq<Num>) -> bool {
    vs.len() == ns.len() && forall|j: int|
        0 <= j < vs.len() ==> scalar(env, #[trigger] vs[j]) == Some(ns[j])
}

proof fn lemma_variables(
    env: Env,
    depth: nat,
    st: GenState,
    ty: Ty,
    ds: Seq<InitDeclarator>,
    infos: Seq<DeclInfo>,
    i: nat,
    acc: Seq<CTerm>,
    ns: Seq<Num>,
)
    requires
        st.circ.frames.len() > 0,
        circ_wf(st.circ),
        ty is Bool || ty == Ty::Int(true, 32) || ty == Ty::Int(false, 32),
        infos.len() == ds.len(),
        forall|j: int|
            0 <= j < ds.len() ==> (#[trigger] infos[j]).ty == ty && decl_name(ds[j].declarator)
                == Ok::<String, CError>(infos[j].name),
        variables_from(depth, st, ds, infos, i, acc) is Ok,
        run_declarators(machine(env, st.circ), ty, ds, i, ns) is Some,
        all_mean(env, acc, ns),
    ensures
        ({
            let (vs, after) = variables_from(depth, st, ds, infos, i, acc)->Ok_0;
            let (rs, m) = run_declarators(machine(env, st.circ), ty, ds, i, ns)->0;
            &&& all_mean(env, vs, rs)
            &&& machine(env, after.circ) == m
        }),
    decreases ds.len() - i,
{
    if i < ds.len() {
        let d = ds[i as int];
        let info = infos[i as int];
        let m = machine(env, st.circ);
        let (v, s1) = initial(depth, st, ty, d.initializer)->Ok_0;
        let n = match d.initializer {
            None => Some(zero_number(ty)),
            Some(Initializer::Expression(e)) => eval(m, *e),
            _ => None,
        };
        match d.initializer {
            None => {
                lemma2_to64();
                lemma_literal(env, 0, 32);
                lemma_denote(Node::Const(Value::Bool(false)), env);
            },
            Some(Initializer::Expression(e)) => law_expression_computes(env, depth, st, *e),
            _ => {},
        }
        assert(s1 == st);
        assert(scalar(env, v) == n);
        law_cast_converts(env, ty, v);
        let w = cast_to(Some(ty), v)->Ok_0;
        let k = converted_to(ty, n->0)->0;
        let c2 = st.circ.declared(info.name, ty, w)->Ok_0.1;
        lemma_declare(env, st.circ, info.name, ty, w, k);
        fit_initial(depth, st, ty, d.initializer);
        wf_cast(Some(ty), v);
        wf_declared(st.circ, info.name, ty, w);
        lemma_variables(
            env,
            depth,
            st.with_circ(c2),
            ty,
            ds,
            infos,
            i + 1,
            acc.push(v),
            ns.push(n->0),
        );
    }
}

/// What a declaration of numbers and truth values declares.
pub(crate) proof fn lemma_declaration(env: Env, depth: nat, st: GenState, d: Declaration) -> (infos:
    Seq<DeclInfo>)
    requires
        run_declaration(machine(env, st.circ), d) is Some,
    ensures
        infos.len() == d.declarators@.len(),
        forall|j: int|
            0 <= j < infos.len() ==> Some((#[trigger] infos[j]).ty) == declared_keyword(d)
                && decl_name(d.declarators@[j].declarator) == Ok::<String, CError>(infos[j].name),
        decl(depth, st, d) == variables_from(
            depth,
            st,
            d.declarators@,
            infos,
            0,
            Seq::empty(),
        ),
{
    let ty = declared_keyword(d)->0;
    let ds = d.declarators@;
    reveal_with_fuel(d_types, 3);
    let t = d.specifiers@[0]->TypeSpecifier_0;
    let ts = Seq::<Option<Ty>>::empty().push(keyword(t));
    assert(d_types(depth, st, d.specifiers@, 0, Seq::empty()) == Ok::<
        (Seq<Option<Ty>>, GenState),
        CError,
    >((ts, st)));
    assert(compressed(ts) == Ok::<Option<Ty>, CError>(ts[0]));
    assert(d_type(depth, st, d.specifiers@, 0) == Ok::<(Option<Ty>, GenState), CError>(
        (Some(ty), st),
    ));
    lemma_plain_names(machine(env, st.circ), ty, ds, 0, Seq::empty());
    lemma_plain_type(depth, st, ty, ds, 0);
    lemma_plain_infos(st, ty, ds, 0, Seq::empty());
    let infos = declarators_info(st, ty, ds, 0, Seq::empty())->Ok_0.0;
    assert(decl_info(depth, st, d, 0) == Ok::<(Seq<DeclInfo>, GenState), CError>((infos, st)));
    infos
}

/// A declaration of numbers and truth values does what it does on the machine.
pub proof fn law_declaration_takes_effect(env: Env, depth: nat, st: GenState, d: Declaration)
    requires
        st.circ.frames.len() > 0,
        circ_wf(st.circ),
        decl(depth, st, d) is Ok,
        run_declaration(machine(env, st.circ), d) is Some,
    ensures
        ({
            let (vs, after) = decl(depth, st, d)->Ok_0;
            let (ns, m) = run_declaration(machine(env, st.circ), d)->0;
            &&& all_mean(env, vs, ns)
            &&& machine(env, after.circ) == m
        }),
{
    let ty = declared_keyword(d)->0;
    let infos = lemma_declaration(env, depth, st, d);
    lemma_variables(
        env,
        depth,
        st,
        ty,
        d.declarators@,
        infos,
        0,
        Seq::empty(),
        Seq::empty(),
    );
}

/// A statement runs where its branch is taken and the function has not returned.
pub(crate) proof fn lemma_live(env: Env, c: CircState)
    requires
        c.frames.len() > 0,
    ensures
        is_true(c.condition(), env) <==> is_true(c.guard(), env) && !machine(env, c).gone,
{
    lemma_idle(c, env);
}

proof fn lemma_whole(env: Env, v: CTerm, n: Num)
    requires
        value_wf(v),
        scalar(env, v) == Some(n),
    ensures
        folded_i32(v) matches Ok(k) ==> whole(n) matches Some(x) ==> x == k,
{
    match n {
        Num::Number(_, w, x) => {
            lemma_modulus(w);
            lemma_folded(env, v.one_term()->Ok_0, w, x as u64);
        },
        _ => {},
    }
}

pub(crate) proof fn lemma_folded_expr(env: Env, depth: nat, st: GenState, e: Expression)
    requires
        st.circ.frames.len() > 0,
        circ_wf(st.circ),
        eval(machine(env, st.circ), e) is Some,
        whole(eval(machine(env, st.circ), e)->0) is Some,
        folded_expr(depth, st, e) is Ok,
    ensures
        folded_expr(depth, st, e)->Ok_0 == (whole(eval(machine(env, st.circ), e)->0), st),
{
    law_expression_computes(env, depth, st, e);
    law_expression_keeps_well_formed(depth, st, e);
    lemma_whole(env, expr(depth, st, e)->Ok_0.0, eval(machine(env, st.circ), e)->0);
}

proof fn lemma_start(env: Env, depth: nat, st: GenState, i: ForInitializer)
    requires
        st.circ.frames.len() > 0,
        circ_wf(st.circ),
        run_start(machine(env, st.circ), i, is_true(st.circ.condition(), env)) is Some,
        loop_start(depth, st, i) is Ok,
    ensures
        ({
            let (n, m) = run_start(
                machine(env, st.circ),
                i,
                is_true(st.circ.condition(), env),
            )->0;
            let (r, after) = loop_start(depth, st, i)->Ok_0;
            r is Some ==> r == Some(n) && machine(env, after.circ) == m
        }),
{
    match i {
        ForInitializer::Declaration(d) => {
            law_declaration_takes_effect(env, depth, st, d);
            fit_decl(depth, st, d);
            let (vs, _) = decl(depth, st, d)->Ok_0;
            let (ns, _) = run_declaration(machine(env, st.circ), d)->0;
            assert(scalar(env, vs[0]) == Some(ns[0]));
            lemma_whole(env, vs[0], ns[0]);
        },
        ForInitializer::Expression(e) => {
            if e is BinaryOperator {
                law_assignment_takes_effect(env, depth, st, e);
                law_expression_keeps_well_formed(depth, st, e);
                let live = is_true(st.circ.condition(), env);
                let (n, _) = effect(machine(env, st.circ), e, live)->0;
                lemma_whole(env, expr(depth, st, e)->Ok_0.0, n);
            }
        },
        ForInitializer::Other => {},
    }
}

/// Entering and leaving scopes and branches is what it is on the machine.
pub(crate) proof fn lemma_nesting(env: Env, c: CircState, t: Term)
    requires
        c.frames.len() > 0,
    ensures
        c.entered_scope() is Ok,
        machine(env, c.entered_scope()->Ok_0.1) == machine(env, c).push(),
        c.entered_scope()->Ok_0.1.guard() == c.guard(),
        c.exited_scope() matches Ok((_, d)) ==> machine(env, d) == machine(env, c).pop()
            && d.guard() == c.guard() && d.frames.len() > 0,
        c.entered_condition(t) matches Ok((_, d)) ==> machine(env, d) == machine(env, c) && (
        is_true(d.guard(), env) <==> is_true(c.guard(), env) && is_true(t, env)) && d.frames.len()
            > 0,
        c.exited_condition() matches Ok((_, d)) ==> machine(env, d) == machine(env, c),
{
    let no_vars = List::<Var>::Nil;
    assert(store_of(env, no_vars) =~= Map::empty());
    lemma_denote(Node::Op(Op::And, c.guard(), t), env);
    let inner = c.entered_scope()->Ok_0.1;
    assert(stores_of(env, shared(inner.top().scopes)) == List::Cons(
        Map::<Seq<char>, Option<Num>>::empty(),
        Rc::new(stores_of(env, shared(c.top().scopes))),
    ));
}

/// Behind a part of a translation the same branches are taken.
pub(crate) proof fn lemma_same_guard(env: Env, quiet: bool, a: CircState, b: CircState)
    requires
        circ_kept(env, quiet, a, b),
        a.frames.len() > 0,
    ensures
        b.frames.len() > 0,
        b.guard() == a.guard(),
{
}

/// A statement means what it does: on every input, the variables, the return value and whether the
/// function has returned are, behind its translation, what they are behind its run.
pub proof fn law_statement_means_its_run(env: Env, depth: nat, st: GenState, s: Statement)
    requires
        st.circ.frames.len() > 0,
        circ_wf(st.circ),
        stmt(depth, st, s) is Ok,
        run(machine(env, st.circ), s, is_true(st.circ.guard(), env)) is Some,
    ensures
        Some(machine(env, stmt(depth, st, s)->Ok_0.1.circ)) == run(
            machine(env, st.circ),
            s,
            is_true(st.circ.guard(), env),
        ),
    decreases s, 1nat,
{
    let m = machine(env, st.circ);
    let taken = is_true(st.circ.guard(), env);
    lemma_live(env, st.circ);
    match s {
        Statement::Compound(items) => lemma_block(env, depth, st, items@, 0),
        Statement::Expression(None) => {},
        Statement::Expression(Some(e)) => law_assignment_takes_effect(env, depth, st, *e),
        Statement::If(i) => {
            law_expression_computes(env, depth, st, i.condition);
            law_expression_keeps_well_formed(depth, st, i.condition);
            let c = eval(m, i.condition)->0->Truth_0;
            let t = expr(depth, st, i.condition)->Ok_0.0.one_term()->Ok_0;
            let first = branch(depth, st, t, i.then_statement)->Ok_0.1;
            assert(branch(depth, st, t, i.then_statement) is Ok);
            lemma_branch_run(env, depth, st, t, i.then_statement);
            match i.else_statement {
                None => {},
                Some(e) => {
                    lemma_denote(Node::Not(t), env);
                    law_new_term_is_wf(Node::Not(t));
                    lemma_branch_run(env, depth, first, term_not(t), e);
                },
            }
        },
        Statement::Return(None) => lemma_return(env, st.circ, None),
        Statement::Return(Some(e)) => {
            law_expression_computes(env, depth, st, *e);
            let (v, _) = expr(depth, st, *e)->Ok_0;
            lemma_return(env, st.circ, Some(v));
        },
        Statement::For(f) => lemma_for(env, depth, st, s, *f),
        Statement::Other => {},
    }
}

proof fn lemma_return(env: Env, c: CircState, val: Option<CTerm>)
    requires
        c.frames.len() > 0,
        c.returned(val) is Ok,
        val matches Some(v) ==> scalar(env, v) is Some && c.top().ret_val is Some && scalar(
            env,
            c.top().ret_val->0,
        ) is Some && alike(scalar(env, c.top().ret_val->0)->0, scalar(env, v)->0),
    ensures
        ({
            let m = machine(env, c);
            let live = is_true(c.condition(), env);
            machine(env, c.returned(val)->Ok_0.1) == Machine {
                gone: m.gone || live,
                result: match val {
                    None => m.result,
                    Some(v) => if live {
                        Some(scalar(env, v))
                    } else {
                        m.result
                    },
                },
                ..m
            }
        }),
{
    lemma_denote(Node::Op(Op::Or, c.top().returned, c.condition()), env);
    if val is Some {
        lemma_merge_scalar(env, c.condition(), val->0, c.top().ret_val->0);
    }
}

pub(crate) proof fn lemma_branch_run(env: Env, depth: nat, st: GenState, t: Term, s: Statement)
    requires
        st.circ.frames.len() > 0,
        circ_wf(st.circ),
        t.is_plain(),
        branch(depth, st, t, s) is Ok,
        run(
            machine(env, st.circ),
            s,
            is_true(st.circ.guard(), env) && is_true(t, env),
        ) is Some,
    ensures
        ({
            let after = branch(depth, st, t, s)->Ok_0.1;
            &&& Some(machine(env, after.circ)) == run(
                machine(env, st.circ),
                s,
                is_true(st.circ.guard(), env) && is_true(t, env),
            )
            &&& after.circ.frames.len() > 0
            &&& after.circ.guard() == st.circ.guard()
            &&& circ_wf(after.circ)
        }),
    decreases s, 2nat,
{
    lemma_nesting(env, st.circ, t);
    let entered = st.with_circ(st.circ.entered_condition(t)->Ok_0.1);
    wf_entered_condition(st.circ, t);
    law_statement_means_its_run(env, depth, entered, s);
    let ran = stmt(depth, entered, s)->Ok_0.1;
    law_statement_keeps_well_formed(depth, entered, s);
    law_statement_keeps_shape(env, depth, entered, s);
    lemma_nesting(env, ran.circ, t);
    wf_exited_condition(ran.circ);
}

proof fn lemma_block(env: Env, depth: nat, st: GenState, items: Seq<BlockItem>, i: nat)
    requires
        st.circ.frames.len() > 0,
        circ_wf(st.circ),
        block(depth, st, items, i) is Ok,
        run_block(machine(env, st.circ), items, i, is_true(st.circ.guard(), env)) is Some,
    ensures
        Some(machine(env, block(depth, st, items, i)->Ok_0.1.circ)) == run_block(
            machine(env, st.circ),
            items,
            i,
            is_true(st.circ.guard(), env),
        ),
    decreases items, items.len() - i,
{
    if i < items.len() {
        match items[i as int] {
            BlockItem::Declaration(d) => {
                law_declaration_takes_effect(env, depth, st, d);
                let after = decl(depth, st, d)->Ok_0.1;
                fit_decl(depth, st, d);
                sound_decl(env, depth, st, d);
                reveal(kept);
                lemma_same_guard(env, idle(st.circ, env), st.circ, after.circ);
                lemma_block(env, depth, after, items, i + 1);
            },
            BlockItem::Statement(s) => {
                law_statement_means_its_run(env, depth, st, s);
                let after = stmt(depth, st, s)->Ok_0.1;
                law_statement_keeps_well_formed(depth, st, s);
                law_statement_keeps_shape(env, depth, st, s);
                lemma_same_guard(env, false, st.circ, after.circ);
                lemma_block(env, depth, after, items, i + 1);
            },
            BlockItem::StaticAssert => {},
        }
    }
}

proof fn lemma_rounds(env: Env, depth: nat, st: GenState, f: ForStatement, n: nat)
    requires
        st.circ.frames.len() > 0,
        circ_wf(st.circ),
        rounds(depth, st, f, n) is Ok,
        run_rounds(machine(env, st.circ), f, n, is_true(st.circ.guard(), env)) is Some,
    ensures
        Some(machine(env, rounds(depth, st, f, n)->Ok_0.1.circ)) == run_rounds(
            machine(env, st.circ),
            f,
            n,
            is_true(st.circ.guard(), env),
        ),
    decreases f, n,
{
    if n > 0 {
        let e = f.step->0;
        assert(one_round(depth, st, f) is Ok);
        lemma_nesting(env, st.circ, st.circ.guard());
        let entered = st.with_circ(st.circ.entered_scope()->Ok_0.1);
        wf_entered_scope(st.circ);
        law_statement_means_its_run(env, depth, entered, f.statement);
        let ran = stmt(depth, entered, f.statement)->Ok_0.1;
        law_statement_keeps_well_formed(depth, entered, f.statement);
        law_statement_keeps_shape(env, depth, entered, f.statement);
        lemma_same_guard(env, false, entered.circ, ran.circ);
        lemma_nesting(env, ran.circ, st.circ.guard());
        let left = ran.with_circ(ran.circ.exited_scope()->Ok_0.1);
        wf_exited_scope(ran.circ);
        lemma_live(env, left.circ);
        law_assignment_takes_effect(env, depth, left, e);
        let stepped = expr(depth, left, e)->Ok_0.1;
        law_expression_keeps_well_formed(depth, left, e);
        law_expression_keeps_shape(env, depth, left, e);
        lemma_same_guard(env, false, left.circ, stepped.circ);
        lemma_rounds(env, depth, stepped, f, (n - 1) as nat);
    }
}

/// The header of a loop does what it does on the machine, and says how often the loop runs.
#[verifier::spinoff_prover]
pub(crate) proof fn lemma_header(env: Env, depth: nat, st: GenState, f: ForStatement)
    requires
        st.circ.frames.len() > 0,
        circ_wf(st.circ),
        iterations(depth, st, f) is Ok,
        ({
            let live = is_true(st.circ.condition(), env);
            match run_start(machine(env, st.circ), f.initializer, live) {
                Some((_, m)) => run_end(m, f.condition) is Some && run_step(m, f.step) is Some,
                None => false,
            }
        }),
    ensures
        ({
            let (from, m) = run_start(
                machine(env, st.circ),
                f.initializer,
                is_true(st.circ.condition(), env),
            )->0;
            let (n, after) = iterations(depth, st, f)->Ok_0;
            &&& n == trips(from, run_end(m, f.condition)->0, run_step(m, f.step)->0)
            &&& machine(env, after.circ) == m
            &&& circ_wf(after.circ)
            &&& after.circ.frames.len() > 0
            &&& after.circ.guard() == st.circ.guard()
        }),
{
    lemma_start(env, depth, st, f.initializer);
    let started = loop_start(depth, st, f.initializer)->Ok_0.1;
    fit_loop_start(depth, st, f.initializer);
    sound_loop_start(env, depth, st, f.initializer);
    reveal(kept);
    lemma_same_guard(env, idle(st.circ, env), st.circ, started.circ);
    match f.condition {
        Some(Expression::BinaryOperator(b)) => lemma_folded_expr(env, depth, started, b.rhs),
        _ => {},
    }
    match f.step {
        Some(Expression::BinaryOperator(b)) => lemma_folded_expr(env, depth, started, b.rhs),
        _ => {},
    }
}

proof fn lemma_for(env: Env, depth: nat, st: GenState, s: Statement, f: ForStatement)
    requires
        s == Statement::For(Box::new(f)),
        st.circ.frames.len() > 0,
        circ_wf(st.circ),
        stmt(depth, st, s) is Ok,
        run(machine(env, st.circ), s, is_true(st.circ.guard(), env)) is Some,
    ensures
        Some(machine(env, stmt(depth, st, s)->Ok_0.1.circ)) == run(
            machine(env, st.circ),
            s,
            is_true(st.circ.guard(), env),
        ),
    decreases s, 0nat,
{
    lemma_nesting(env, st.circ, st.circ.guard());
    let entered = st.with_circ(st.circ.entered_scope()->Ok_0.1);
    wf_entered_scope(st.circ);
    lemma_live(env, st.circ);
    lemma_live(env, entered.circ);
    lemma_header(env, depth, entered, f);
    let (n, headed) = iterations(depth, entered, f)->Ok_0;
    let k = if n > 0 {
        n as nat
    } else {
        0
    };
    lemma_rounds(env, depth, headed, f, k);
    let ran = rounds(depth, headed, f, k)->Ok_0.1;
    sound_rounds(env, depth, headed, f, k);
    reveal(kept);
    lemma_same_guard(env, idle(headed.circ, env), headed.circ, ran.circ);
    lemma_nesting(env, ran.circ, st.circ.guard());
}

} // verus!
