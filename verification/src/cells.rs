//! What expressions read and write: elements of arrays, fields of structures, and what calls give.
use vstd::arithmetic::div_mod::lemma_small_mod;
use vstd::arithmetic::power2::lemma2_to64;
use vstd::prelude::*;

use crate::ast::BinaryOperator;
use crate::ast::BinaryOperatorExpression;
use crate::ast::CallExpression;
use crate::ast::CastExpression;
use crate::ast::Expression;
use crate::ast::MemberExpression;
use crate::ast::TypeName;
use crate::ast::UnaryOperator;
use crate::ast::UnaryOperatorExpression;
use crate::circ::CircState;
use crate::cterm::cast_to;
use crate::cterm::value_i32;
use crate::cterm::CTerm;
use crate::cterm::CTermData;
use crate::error::CError;
use crate::error::Reason;
use crate::flow::law_arguments_are_the_values;
use crate::ir::denote;
use crate::ir::lemma_denote;
use crate::ir::lit_bv;
use crate::ir::term_op;
use crate::ir::Meaning;
use crate::ir::Node;
use crate::ir::Op;
use crate::ir::Term;
use crate::ir::Value;
use crate::kept::is_true;
use crate::kept::same_value;
use crate::kept::Env;
use crate::laws::address;
use crate::laws::dimensions;
use crate::laws::holds_scalars;
use crate::laws::indices_mean;
use crate::laws::is_pure;
use crate::laws::law_array_store_then_select;
use crate::laws::law_element_assign_is_array_store;
use crate::laws::law_element_written_is_read;
use crate::laws::law_member_assign_then_read;
use crate::laws::law_offset_is_row_major;
use crate::laws::law_reading_changes_nothing;
use crate::laws::lemma_pure_index;
use crate::laws::product;
use crate::laws::row_major;
use crate::list::shared;
use crate::list::List;
use crate::places::region;
use crate::runs::sign;
use crate::shapes::followed;
use crate::translate::assigned;
use crate::translate::binary;
use crate::translate::call;
use crate::translate::called;
use crate::translate::expr;
use crate::translate::exprs;
use crate::translate::index;
use crate::translate::index_value;
use crate::translate::is_index;
use crate::translate::low_i32;
use crate::translate::lval;
use crate::translate::offset;
use crate::translate::offset_from;
use crate::translate::operated;
use crate::translate::rebuilt;
use crate::translate::s_type;
use crate::translate::selected;
use crate::translate::selected_field;
use crate::translate::stored;
use crate::translate::stored_field;
use crate::translate::unary;
use crate::translate::CLoc;
use crate::translate::GenState;
use crate::translate::Loc;
use crate::types::search;
use crate::types::Field;
use crate::types::Ty;
use crate::values::lemma_literal;
use crate::values::lemma_wrap;
use crate::values::scalar;
use crate::values::Num;
use crate::wellformed::value_wf;

verus! {

/// Whether an expression is a variable with the given indices behind it, the first first.
pub open spec fn is_element(e: Expression, name: String, es: Seq<Expression>) -> bool
    decreases es.len(),
{
    if es.len() == 0 {
        e == Expression::Identifier(name)
    } else {
        e matches Expression::BinaryOperator(b) && b.operator == BinaryOperator::Index && b.rhs
            == es.last() && is_element(b.lhs, name, es.drop_last())
    }
}

/// Whether the expressions only read, and none of them is itself an element of an array.
pub open spec fn are_plain_indices(es: Seq<Expression>) -> bool {
    forall|j: int| 0 <= j < es.len() ==> is_pure(#[trigger] es[j]) && !is_index(es[j])
}

/// Whether the values are those of the expressions, in order.
pub open spec fn are_values(depth: nat, st: GenState, es: Seq<Expression>, vs: Seq<CTerm>) -> bool {
    es.len() == vs.len() && forall|j: int|
        0 <= j < es.len() ==> expr(depth, st, #[trigger] es[j]) == Ok::<(CTerm, GenState), CError>(
            (vs[j], st),
        )
}

/// Of an element of an array, the array is the variable, and the indices are the values of the
/// index expressions in the order in which they are written.
pub proof fn law_indices_are_in_order(
    depth: nat,
    st: GenState,
    e: Expression,
    name: String,
    es: Seq<Expression>,
    vs: Seq<CTerm>,
)
    requires
        is_element(e, name, es),
        are_plain_indices(es),
        are_values(depth, st, es, vs),
    ensures
        match st.circ.get(name) {
            Ok(base) => index(depth, st, e) == Ok::<((CTerm, Seq<CTerm>), GenState), CError>(
                ((base, vs), st),
            ),
            Err(r) => index(depth, st, e) == Err::<((CTerm, Seq<CTerm>), GenState), CError>(r),
        },
    decreases es.len(),
{
    if es.len() == 0 {
        assert(vs =~= Seq::empty());
        assert(expr(depth, st, e) == (match st.circ.get(name) {
            Err(r) => Err::<(CTerm, GenState), CError>(r),
            Ok(base) => Ok((base, st)),
        }));
    } else {
        let b = e->BinaryOperator_0;
        let front = es.drop_last();
        let last = es.last();
        assert(last == es[es.len() - 1]);
        assert forall|j: int| 0 <= j < front.len() implies is_pure(#[trigger] front[j])
            && !is_index(front[j]) by {
            assert(front[j] == es[j]);
        }
        assert forall|j: int| 0 <= j < front.len() implies expr(depth, st, #[trigger] front[j])
            == Ok::<(CTerm, GenState), CError>((vs.drop_last()[j], st)) by {
            assert(front[j] == es[j]);
        }
        law_indices_are_in_order(depth, st, b.lhs, name, front, vs.drop_last());
        assert(index(depth, st, last) == Ok::<((CTerm, Seq<CTerm>), GenState), CError>(
            ((vs.last(), Seq::empty()), st),
        ));
        assert(vs.drop_last().push(vs.last()) =~= vs);
    }
}

/// Reading an element reads the array at the offset that the indices make.
pub proof fn law_element_is_read_at_its_offset(
    depth: nat,
    st: GenState,
    e: Expression,
    name: String,
    es: Seq<Expression>,
    vs: Seq<CTerm>,
    base: CTerm,
)
    requires
        is_element(e, name, es),
        es.len() > 0,
        are_plain_indices(es),
        are_values(depth, st, es, vs),
        st.circ.get(name) == Ok::<CTerm, CError>(base),
        !(base.term is CArray && base.term.ty() is Array && es.len() < dimensions(base).len()),
    ensures
        expr(depth, st, e) == (match offset(base, vs) {
            Err(r) => Err::<(CTerm, GenState), CError>(r),
            Ok(at) => match selected(st.circ, base, value_i32(at)) {
                Err(r) => Err(r),
                Ok(v) => Ok((v, st)),
            },
        }),
{
    law_indices_are_in_order(depth, st, e, name, es, vs);
}

/// The element that as many indices as there are dimensions name is the one at the row-major
/// position of the indices: its meaning is what the region of the array holds there.
pub proof fn law_element_is_at_its_row_major_position(
    env: Env,
    c: CircState,
    base: CTerm,
    indices: Seq<CTerm>,
    xs: Seq<u64>,
)
    requires
        base.term is CArray,
        base.term.ty() is Array,
        indices.len() == dimensions(base).len(),
        indices_mean(env, indices, xs),
        forall|j: int|
            0 <= j < dimensions(base).len() ==> (#[trigger] dimensions(base)[j]) <= i32::MAX,
        index_value(c, base, indices) is Ok,
    ensures
        ({
            let v = index_value(c, base, indices)->Ok_0;
            let at = row_major(dimensions(base), xs, xs.len()) % 0x1_0000_0000;
            &&& Some(v.term.ty()) == base.term.ty().inner()
            &&& region(base) < c.allocs.len()
            &&& denote(v.one_term()->Ok_0, env) == Meaning::Scalar(
                denote(c.allocs[region(base) as int].contents, env).contents()[at as u64],
            )
        }),
{
    law_offset_is_row_major(env, base, indices, xs);
    let at = offset(base, indices)->Ok_0;
    let n = row_major(dimensions(base), xs, xs.len());
    lemma_wrap(n, 32);
    lemma2_to64();
    let contents = c.allocs[region(base) as int].contents;
    lemma_denote(Node::Select(contents, at), env);
}

/// With fewer indices than dimensions, the place within the array starts at the offset that the
/// indices make. It counts as long as the whole array.
pub proof fn law_place_starts_at_its_offset(
    env: Env,
    c: CircState,
    base: CTerm,
    indices: Seq<CTerm>,
    xs: Seq<u64>,
)
    requires
        base.term is CArray,
        base.term.ty() is Array,
        indices.len() < dimensions(base).len(),
        indices_mean(env, indices, xs),
        forall|j: int|
            0 <= j < dimensions(base).len() ==> (#[trigger] dimensions(base)[j]) <= i32::MAX,
        index_value(c, base, indices) is Ok,
    ensures
        index_value(c, base, indices)->Ok_0.term matches CTermData::CStackPtr(ty, o, _) && (
        base.term.ty() matches Ty::Array(n, _, t) ==> (ty matches Ty::Array(m, _, u) && m == n && u
            == t)) && denote(o, env) == Meaning::Scalar(
            Value::Bv(
                32,
                (row_major(dimensions(base), xs, xs.len()) % 0x1_0000_0000) as u64,
            ),
        ),
{
    law_offset_is_row_major(env, base, indices, xs);
    lemma_wrap(row_major(dimensions(base), xs, xs.len()), 32);
    lemma2_to64();
}

/// The place that an element is, as something to assign to.
proof fn lemma_element_place(
    depth: nat,
    st: GenState,
    e: Expression,
    name: String,
    es: Seq<Expression>,
    vs: Seq<CTerm>,
    base: CTerm,
)
    requires
        is_element(e, name, es),
        es.len() > 0,
        are_plain_indices(es),
        are_values(depth, st, es, vs),
        st.circ.get(name) == Ok::<CTerm, CError>(base),
    ensures
        lval(depth, st, e) matches Ok((l, after)) ==> after == st && offset(base, vs) is Ok && l
            == CLoc::Idx(
            Box::new(CLoc::Var(Loc { name })),
            value_i32(offset(base, vs)->Ok_0),
        ),
        es.len() == 1 && offset(base, vs) is Ok ==> lval(depth, st, e) is Ok,
    decreases es.len(),
{
    law_indices_are_in_order(depth, st, e, name, es, vs);
    let b = e->BinaryOperator_0;
    let front = es.drop_last();
    assert(is_element(b.lhs, name, front));
    if front.len() == 0 {
        assert(b.lhs == Expression::Identifier(name));
        assert(lval(depth, st, b.lhs) == Ok::<(CLoc, GenState), CError>(
            (CLoc::Var(Loc { name }), st),
        ));
    } else {
        assert forall|j: int| 0 <= j < front.len() implies is_pure(#[trigger] front[j])
            && !is_index(front[j]) by {
            assert(front[j] == es[j]);
        }
        assert forall|j: int| 0 <= j < front.len() implies expr(depth, st, #[trigger] front[j])
            == Ok::<(CTerm, GenState), CError>((vs.drop_last()[j], st)) by {
            assert(front[j] == es[j]);
        }
        lemma_element_place(depth, st, b.lhs, name, front, vs.drop_last(), base);
        let place = CLoc::Var(Loc { name });
        assert(place.root() == Loc { name });
        match lval(depth, st, b.lhs) {
            Err(_) => {},
            Ok((l, _)) => {
                assert(l.root() == place.root());
            },
        }
    }
}

/// An assignment to an element of an array writes it where it is read: where the assignment runs,
/// the element at the offset that the indices make means the new value, and every element at
/// another address means what it meant. No variable changes.
pub proof fn law_element_assignment_writes_its_element(
    env: Env,
    depth: nat,
    st: GenState,
    b: BinaryOperatorExpression,
    name: String,
    es: Seq<Expression>,
    vs: Seq<CTerm>,
    base: CTerm,
    val: CTerm,
    other: CTerm,
    var: String,
)
    requires
        b.operator == BinaryOperator::Assign,
        is_element(b.lhs, name, es),
        es.len() > 0,
        are_plain_indices(es),
        are_values(depth, st, es, vs),
        is_pure(b.rhs),
        expr(depth, st, b.rhs) == Ok::<(CTerm, GenState), CError>((val, st)),
        val.one_term() is Ok,
        value_wf(val),
        st.circ.get(name) == Ok::<CTerm, CError>(base),
        holds_scalars(base),
        is_true(st.circ.condition(), env),
        expr(depth, st, Expression::BinaryOperator(Box::new(b))) is Ok,
        offset(base, vs) is Ok ==> address(env, base, value_i32(offset(base, vs)->Ok_0)) is Some,
        address(env, base, other) is Some,
    ensures
        ({
            let (r, after) = expr(depth, st, Expression::BinaryOperator(Box::new(b)))->Ok_0;
            let at = value_i32(offset(base, vs)->Ok_0);
            &&& offset(base, vs) is Ok
            &&& r == val
            &&& selected(after.circ, base, at) matches Ok(e) && denote(e.one_term()->Ok_0, env)
                == denote(val.one_term()->Ok_0, env)
            &&& address(env, base, other) != address(env, base, at) ==> denote(
                selected(after.circ, base, other)->Ok_0.one_term()->Ok_0,
                env,
            ) == denote(selected(st.circ, base, other)->Ok_0.one_term()->Ok_0, env)
            &&& after.circ.get(var) == st.circ.get(var)
        }),
{
    let e = Expression::BinaryOperator(Box::new(b));
    lemma_element_place(depth, st, b.lhs, name, es, vs, base);
    assert(expr(depth, st, e) == binary(depth, st, b));
    let at = value_i32(offset(base, vs)->Ok_0);
    let l = Loc { name };
    law_element_assign_is_array_store(st.circ, l, at, val, var);
    law_element_written_is_read(env, st.circ, base, at, other, val);
    law_array_store_then_select(env, st.circ, base, at, val, base, at);
}

/// An assignment to a field of a variable writes it where it is read: where the assignment runs,
/// the field means the new value, and every other field means what it meant.
pub proof fn law_member_assignment_writes_its_field(
    env: Env,
    depth: nat,
    st: GenState,
    name: String,
    field: String,
    rhs: Expression,
    val: CTerm,
    other: String,
)
    requires
        is_pure(rhs),
        expr(depth, st, rhs) == Ok::<(CTerm, GenState), CError>((val, st)),
        is_true(st.circ.condition(), env),
        expr(depth, st, assigning(member(name, field), rhs)) is Ok,
    ensures
        ({
            let after = expr(depth, st, assigning(member(name, field), rhs))->Ok_0.1;
            &&& expr(depth, after, member(name, field)) matches Ok((v, s)) && same_value(
                env,
                val,
                v,
            ) && s == after
            &&& other@ != field@ ==> (expr(depth, st, member(name, other)) matches Ok((v, _)) ==> (
            expr(depth, after, member(name, other)) matches Ok((w, _)) && same_value(env, v, w)))
        }),
{
    let lhs = member(name, field);
    let b = BinaryOperatorExpression { operator: BinaryOperator::Assign, lhs, rhs };
    let place = CLoc::Member(Box::new(CLoc::Var(Loc { name })), field);
    assert(expr(depth, st, assigning(lhs, rhs)) == binary(depth, st, b));
    assert(lval(depth, st, lhs) == Ok::<(CLoc, GenState), CError>((place, st)));
    let after = binary(depth, st, b)->Ok_0.1;
    assert(assigned(st.circ, place, val) is Ok);
    law_member_assign_then_read(env, st.circ, Loc { name }, field, val, other, name);
    lemma_member(depth, st, name, field);
    lemma_member(depth, after, name, field);
    lemma_member(depth, st, name, other);
    lemma_member(depth, after, name, other);
}

/// The field of a variable.
pub open spec fn member(name: String, field: String) -> Expression {
    Expression::Member(
        Box::new(
            MemberExpression { expression: Expression::Identifier(name), identifier: field },
        ),
    )
}

/// The assignment of one expression to another.
pub open spec fn assigning(lhs: Expression, rhs: Expression) -> Expression {
    Expression::BinaryOperator(
        Box::new(BinaryOperatorExpression { operator: BinaryOperator::Assign, lhs, rhs }),
    )
}

proof fn lemma_member(depth: nat, st: GenState, name: String, field: String)
    ensures
        expr(depth, st, member(name, field)) == (match st.circ.get(name) {
            Err(e) => Err::<(CTerm, GenState), CError>(e),
            Ok(base) => match selected_field(base, field) {
                Err(e) => Err(e),
                Ok(v) => Ok((v, st)),
            },
        }),
{
    let e = Expression::Identifier(name);
    assert(expr(depth, st, e) == (match st.circ.get(name) {
        Err(e) => Err::<(CTerm, GenState), CError>(e),
        Ok(base) => Ok((base, st)),
    }));
}

/// A call evaluates its arguments and then calls the function that its name stands for.
pub proof fn law_call_evaluates_its_arguments_first(
    depth: nat,
    st: GenState,
    c: CallExpression,
    name: String,
)
    requires
        c.callee == Expression::Identifier(name),
        st.functions.dom().contains(name@),
        depth > 0,
    ensures
        expr(depth, st, Expression::Call(Box::new(c))) == followed(
            exprs(depth, st, c.arguments@, 0, Seq::empty()),
            |args: Seq<CTerm>, s: GenState|
                called((depth - 1) as nat, s, st.functions[name@], args),
        ),
{
    assert(expr(depth, st, Expression::Call(Box::new(c))) == call(depth, st, c));
}

/// A call calls the function that its name stands for, with the values of its arguments in order;
/// within it, calls may be nested one less deeply. A name that stands for no function is refused.
pub proof fn law_call_calls_its_function(depth: nat, st: GenState, c: CallExpression, name: String)
    requires
        c.callee == Expression::Identifier(name),
        forall|j: int| 0 <= j < c.arguments@.len() ==> is_pure(#[trigger] c.arguments@[j]),
        forall|j: int|
            0 <= j < c.arguments@.len() ==> expr(depth, st, #[trigger] c.arguments@[j]) is Ok,
        depth > 0,
    ensures
        ({
            let r = expr(depth, st, Expression::Call(Box::new(c)));
            if st.functions.dom().contains(name@) {
                exists|args: Seq<CTerm>|
                    #![trigger are_values(depth, st, c.arguments@, args)]
                    are_values(depth, st, c.arguments@, args) && r == called(
                        (depth - 1) as nat,
                        st,
                        st.functions[name@],
                        args,
                    )
            } else {
                r == Err::<(CTerm, GenState), CError>(CError::Fault(Reason::NoFunction(name)))
            }
        }),
{
    let e = Expression::Call(Box::new(c));
    assert(expr(depth, st, e) == call(depth, st, c));
    let es = c.arguments@;
    law_arguments_are_the_values(depth, st, es, 0, Seq::empty());
    let (args, _) = exprs(depth, st, es, 0, Seq::empty())->Ok_0;
    assert forall|j: int| 0 <= j < es.len() implies expr(depth, st, #[trigger] es[j]) == Ok::<
        (CTerm, GenState),
        CError,
    >((args[j], st)) by {
        assert(args[0 + j - 0] == args[j]);
    }
    assert(are_values(depth, st, es, args));
}

/// An assignment to an element of an array in a field of a variable writes to the array that the
/// field holds, and one to an element of a place in an array to that place.
pub proof fn law_nested_element_assign_is_array_store(
    c: CircState,
    l: Loc,
    field: String,
    at: CTerm,
    idx: CTerm,
    val: CTerm,
)
    requires
        c.get(l.name) is Ok,
    ensures
        ({
            let base = c.get(l.name)->Ok_0;
            let place = CLoc::Member(Box::new(CLoc::Var(l)), field);
            &&& selected_field(base, field) matches Ok(array) ==> assigned(
                c,
                CLoc::Idx(Box::new(place), idx),
                val,
            ) == stored(c, array, idx, val)
            &&& selected_field(base, field) is Err ==> assigned(
                c,
                CLoc::Idx(Box::new(place), idx),
                val,
            ) is Err
        }),
        ({
            let base = c.get(l.name)->Ok_0;
            let place = CLoc::Idx(Box::new(CLoc::Var(l)), at);
            &&& selected(c, base, at) matches Ok(array) ==> assigned(
                c,
                CLoc::Idx(Box::new(place), idx),
                val,
            ) == stored(c, array, idx, val)
        }),
{
    let v = CLoc::Var(l);
    assert(v.root() == l);
    let m = CLoc::Member(Box::new(v), field);
    assert(m.root() == l);
    let i = CLoc::Idx(Box::new(v), at);
    assert(i.root() == l);
}

/// Rebuilding a value with an element set stores to the array, and with nothing below it set is the
/// value itself.
pub proof fn law_rebuild_with_an_element_stores(
    c: CircState,
    base: CTerm,
    l: Loc,
    idx: CTerm,
    val: CTerm,
)
    ensures
        rebuilt(c, base, CLoc::Var(l), val) == Ok::<(CTerm, CircState), CError>((val, c)),
        rebuilt(c, base, CLoc::Idx(Box::new(CLoc::Var(l)), idx), val) == (match selected(
            c,
            base,
            idx,
        ) {
            Ok(_) => stored(c, base, idx, val),
            Err(e) => Err(e),
        }),
{
    assert(rebuilt(c, base, CLoc::Var(l), val) == Ok::<(CTerm, CircState), CError>((val, c)));
    match selected(c, base, idx) {
        Ok(v) => {
            assert(rebuilt(c, v, CLoc::Var(l), val) == Ok::<(CTerm, CircState), CError>((val, c)));
        },
        Err(_) => {},
    }
}

/// Whether a binary operator is one that expressions may have.
pub open spec fn is_supported(op: BinaryOperator) -> bool {
    sign(op) is Some || op == BinaryOperator::Index || op == BinaryOperator::Assign || op
        == BinaryOperator::AssignPlus || op == BinaryOperator::AssignDivide
}

/// All other operators are refused, whatever their operands are, and so is an assignment to what is
/// no place.
pub proof fn law_other_operators_are_refused(
    depth: nat,
    st: GenState,
    b: BinaryOperatorExpression,
    u: UnaryOperatorExpression,
)
    ensures
        !is_supported(b.operator) ==> expr(depth, st, Expression::BinaryOperator(Box::new(b)))
            == Err::<(CTerm, GenState), CError>(CError::Fault(Reason::Unsupported)),
        u.operator != UnaryOperator::PostIncrement && u.operator != UnaryOperator::PostDecrement
            && u.operator != UnaryOperator::SizeOf ==> expr(
            depth,
            st,
            Expression::UnaryOperator(Box::new(u)),
        ) == Err::<(CTerm, GenState), CError>(CError::Fault(Reason::Unsupported)),
        b.lhs is Constant || b.lhs is Call || b.lhs is Cast ==> lval(depth, st, b.lhs) == Err::<
            (CLoc, GenState),
            CError,
        >(CError::Fault(Reason::Unsupported)),
{
    let e = Expression::BinaryOperator(Box::new(b));
    assert(b.operator != BinaryOperator::Index ==> expr(depth, st, e) == binary(depth, st, b));
    let f = Expression::UnaryOperator(Box::new(u));
    assert(expr(depth, st, f) == unary(depth, st, u));
}

/// Every type has the size one.
pub proof fn law_size_is_one(env: Env, depth: nat, st: GenState, t: TypeName)
    requires
        expr(depth, st, Expression::SizeOf(Box::new(t))) is Ok,
    ensures
        scalar(env, expr(depth, st, Expression::SizeOf(Box::new(t)))->Ok_0.0) == Some(
            Num::Number(true, 32, 1),
        ),
{
    lemma2_to64();
    lemma_literal(env, 1, 32);
}

/// The indices name an offset where there are no more of them than dimensions, all of them are
/// numbers or truth values, and the sizes passed by them are 32-bit numbers; more indices than
/// dimensions are refused.
proof fn lemma_offset_from_succeeds(
    sizes: Seq<usize>,
    indices: Seq<CTerm>,
    i: nat,
    total: int,
    acc: Term,
)
    requires
        i <= indices.len() <= sizes.len(),
        forall|j: int| 0 <= j < indices.len() ==> (#[trigger] indices[j]).one_term() is Ok,
        forall|j: int| 0 <= j < indices.len() ==> (#[trigger] sizes[j]) <= i32::MAX,
        total == product(sizes.take(i as int)),
        forall|j: int|
            0 <= j <= indices.len() ==> product(#[trigger] sizes.take(j)) <= i32::MAX,
    ensures
        offset_from(sizes, indices, i, total, acc) is Ok,
    decreases indices.len() - i,
{
    if i < indices.len() {
        let n = indices.len() - 1 - i;
        let t = indices[n].one_term()->Ok_0;
        let more = sizes.take(i as int + 1);
        assert(more.drop_last() =~= sizes.take(i as int));
        assert(more.last() == sizes[i as int]);
        assert(product(more) == total * sizes[i as int]);
        assert(low_i32(sizes[i as int]) == sizes[i as int]) by {
            lemma_small_mod(sizes[i as int] as nat, 0x1_0000_0000);
        }
        assert(0 <= product(more)) by {
            lemma_product_positive(more);
        }
        let added = if i == 0 {
            t
        } else {
            term_op(Op::BvMul, lit_bv(total, 32), t)
        };
        assert(product(sizes.take(i as int + 1)) <= i32::MAX);
        lemma_offset_from_succeeds(
            sizes,
            indices,
            i + 1,
            product(more),
            term_op(Op::BvAdd, added, acc),
        );
    }
}

proof fn lemma_product_positive(sizes: Seq<usize>)
    ensures
        product(sizes) >= 0,
    decreases sizes.len(),
{
    if sizes.len() > 0 {
        lemma_product_positive(sizes.drop_last());
        assert(product(sizes.drop_last()) * sizes.last() >= 0) by (nonlinear_arith)
            requires
                product(sizes.drop_last()) >= 0,
        ;
    }
}

proof fn lemma_too_many_indices(
    sizes: Seq<usize>,
    indices: Seq<CTerm>,
    i: nat,
    total: int,
    acc: Term,
)
    requires
        i <= sizes.len() < indices.len(),
    ensures
        offset_from(sizes, indices, i, total, acc) is Err,
    decreases indices.len() - i,
{
    match indices[indices.len() - 1 - i].one_term() {
        Err(_) => {},
        Ok(t) => {
            if i < sizes.len() {
                let passed = total * low_i32(sizes[i as int]);
                let added = if i == 0 {
                    t
                } else {
                    term_op(Op::BvMul, lit_bv(total, 32), t)
                };
                lemma_too_many_indices(
                    sizes,
                    indices,
                    i + 1,
                    passed,
                    term_op(Op::BvAdd, added, acc),
                );
            }
        },
    }
}

/// An array can be indexed with as many numbers or truth values as it has dimensions, or fewer,
/// where the numbers of elements that they pass are 32-bit ones, and with no more than that.
pub proof fn law_array_takes_its_indices(base: CTerm, indices: Seq<CTerm>)
    requires
        base.term.ty() is Array,
    ensures
        indices.len() > dimensions(base).len() ==> offset(base, indices) is Err,
        indices.len() <= dimensions(base).len() && (forall|j: int|
            0 <= j < indices.len() ==> (#[trigger] indices[j]).one_term() is Ok) && (forall|j: int|
            0 <= j < indices.len() ==> (#[trigger] dimensions(base)[j]) <= i32::MAX) && (forall|
            j: int,
        |
            0 <= j <= indices.len() ==> product(#[trigger] dimensions(base).take(j)) <= i32::MAX)
            ==> offset(base, indices) is Ok,
{
    let sizes = dimensions(base);
    assert(product(sizes.take(0)) == 1);
    if indices.len() > sizes.len() {
        lemma_too_many_indices(sizes, indices, 0, 1, lit_bv(0, 32));
    } else if (forall|j: int|
        0 <= j < indices.len() ==> (#[trigger] indices[j]).one_term() is Ok) && (forall|j: int|
        0 <= j < indices.len() ==> (#[trigger] sizes[j]) <= i32::MAX) && (forall|j: int|
        0 <= j <= indices.len() ==> product(#[trigger] sizes.take(j)) <= i32::MAX) {
        lemma_offset_from_succeeds(sizes, indices, 0, 1, lit_bv(0, 32));
    }
}

/// An index that is itself an element of an array counts as that array, not as the element.
pub proof fn law_indexed_index_counts_as_its_array(
    depth: nat,
    st: GenState,
    b: BinaryOperatorExpression,
    base: CTerm,
    front: Seq<CTerm>,
    s: GenState,
    inner: CTerm,
    behind: Seq<CTerm>,
    after: GenState,
)
    requires
        b.operator == BinaryOperator::Index,
        index(depth, st, b.lhs) == Ok::<((CTerm, Seq<CTerm>), GenState), CError>(
            ((base, front), s),
        ),
        index(depth, s, b.rhs) == Ok::<((CTerm, Seq<CTerm>), GenState), CError>(
            ((inner, behind), after),
        ),
    ensures
        index(depth, st, Expression::BinaryOperator(Box::new(b))) == Ok::<
            ((CTerm, Seq<CTerm>), GenState),
            CError,
        >(((base, front.push(inner)), after)),
{
}

/// What is no array is indexed by one number, which is the offset itself.
pub proof fn law_pointer_takes_one_index(base: CTerm, indices: Seq<CTerm>)
    requires
        !(base.term.ty() is Array),
    ensures
        indices.len() == 1 ==> offset(base, indices) == indices[0].one_term(),
        indices.len() != 1 ==> offset(base, indices) == Err::<Term, CError>(
            CError::Fault(Reason::IndexCount),
        ),
{
}

/// Only arrays and places in arrays have elements, and only integers are indices; an element can be
/// read just where the array is somewhere and its elements are numbers or truth values.
pub proof fn law_only_arrays_have_elements(c: CircState, array: CTerm, idx: CTerm, val: CTerm)
    ensures
        !(array.term is CArray || array.term is CStackPtr) || !(idx.term is CInt) ==> selected(
            c,
            array,
            idx,
        ) == Err::<CTerm, CError>(CError::Reject(Reason::CannotSelect(array, idx))) && stored(
            c,
            array,
            idx,
            val,
        ) == Err::<(CTerm, CircState), CError>(CError::Reject(Reason::CannotStore(array, idx))),
        (array.term is CArray || array.term is CStackPtr) && idx.term is CInt ==> (selected(
            c,
            array,
            idx,
        ) is Ok <==> holds_scalars(array) && has_region(c, array)),
        selected(c, array, idx) matches Ok(e) ==> Some(e.term.ty()) == array.term.ty().inner(),
{
}

/// Whether the region of an array is there.
pub open spec fn has_region(c: CircState, array: CTerm) -> bool {
    match array.term {
        CTermData::CArray(_, Some(id)) => id < c.allocs.len(),
        CTermData::CStackPtr(_, _, Some(id)) => id < c.allocs.len(),
        _ => false,
    }
}

/// A field can be read, and set, just where the value is a structure that has it.
pub proof fn law_only_structures_have_fields(t: CTerm, field: String, val: CTerm)
    ensures
        !(t.term is CStruct) ==> selected_field(t, field) == Err::<CTerm, CError>(
            CError::Reject(Reason::NotStruct(t)),
        ) && stored_field(t, field, val) == Err::<CTerm, CError>(
            CError::Reject(Reason::NotStruct(t)),
        ),
        t.term matches CTermData::CStruct(_, fs) ==> {
            &&& (forall|i: int|
                0 <= i < fs.list.seq().len() ==> (#[trigger] fs.list.seq()[i]).name@ != field@)
                ==> selected_field(t, field) == Err::<CTerm, CError>(
                CError::Reject(Reason::NoField(field)),
            ) && stored_field(t, field, val) == Err::<CTerm, CError>(
                CError::Reject(Reason::NoField(field)),
            )
            &&& forall|i: int|
                0 <= i < fs.list.seq().len() && (#[trigger] fs.list.seq()[i]).name@ == field@ && (
                forall|j: int| 0 <= j < i ==> (#[trigger] fs.list.seq()[j]).name@ != field@)
                    ==> selected_field(t, field) == Ok::<CTerm, CError>(fs.list.seq()[i].value)
                    && stored_field(t, field, val) is Ok
        },
{
    match t.term {
        CTermData::CStruct(_, fs) => {
            let l = shared(fs.list).seq();
            if forall|i: int| 0 <= i < l.len() ==> (#[trigger] l[i]).name@ != field@ {
                lemma_search_none(shared(fs.list), field@);
            }
            assert forall|i: int|
                0 <= i < l.len() && (#[trigger] l[i]).name@ == field@ && (forall|j: int|
                    0 <= j < i ==> (#[trigger] l[j]).name@ != field@) implies search(
                shared(fs.list),
                field@,
            ) == Some(l[i].value) by {
                lemma_search_first(shared(fs.list), field@, i);
            }
        },
        _ => {},
    }
}

proof fn lemma_search_none(l: List<Field<CTerm>>, key: Seq<char>)
    requires
        forall|i: int| 0 <= i < l.seq().len() ==> (#[trigger] l.seq()[i]).name@ != key,
    ensures
        search(l, key) is None,
    decreases l,
{
    match l {
        List::Nil => {},
        List::Cons(f, rest) => {
            assert(l.seq()[0] == f);
            assert forall|i: int| 0 <= i < shared(rest).seq().len() implies (
            #[trigger] shared(rest).seq()[i]).name@ != key by {
                assert(l.seq()[i + 1] == shared(rest).seq()[i]);
            }
            lemma_search_none(shared(rest), key);
        },
    }
}

proof fn lemma_search_first(l: List<Field<CTerm>>, key: Seq<char>, i: int)
    requires
        0 <= i < l.seq().len(),
        l.seq()[i].name@ == key,
        forall|j: int| 0 <= j < i ==> (#[trigger] l.seq()[j]).name@ != key,
    ensures
        search(l, key) == Some(l.seq()[i].value),
    decreases l,
{
    match l {
        List::Nil => {},
        List::Cons(f, rest) => {
            assert(l.seq()[0] == f);
            if i > 0 {
                let r = shared(rest).seq();
                assert(r[i - 1] == l.seq()[i]);
                assert forall|j: int| 0 <= j < i - 1 implies (#[trigger] r[j]).name@ != key by {
                    assert(l.seq()[j + 1] == r[j]);
                }
                lemma_search_first(shared(rest), key, i - 1);
            }
        },
    }
}

/// Finding out the place that an expression names changes nothing, where the expression only reads.
proof fn lemma_pure_place(depth: nat, st: GenState, e: Expression)
    requires
        is_pure(e),
    ensures
        lval(depth, st, e) matches Ok((_, after)) ==> after == st,
    decreases e,
{
    match e {
        Expression::BinaryOperator(b) => {
            if b.operator == BinaryOperator::Index {
                lemma_pure_place(depth, st, b.lhs);
                lemma_pure_index(depth, st, e);
            }
        },
        _ => {},
    }
}

/// An operator between two expressions.
pub open spec fn operating(op: BinaryOperator, lhs: Expression, rhs: Expression) -> Expression {
    Expression::BinaryOperator(Box::new(BinaryOperatorExpression { operator: op, lhs, rhs }))
}

/// What an operator between two expressions that only read gives.
proof fn lemma_operating(
    depth: nat,
    st: GenState,
    op: BinaryOperator,
    lhs: Expression,
    rhs: Expression,
)
    requires
        is_pure(lhs),
        is_pure(rhs),
        sign(op) is Some,
    ensures
        expr(depth, st, operating(op, lhs, rhs)) == (match (
            expr(depth, st, lhs),
            expr(depth, st, rhs),
        ) {
            (Ok((a, _)), Ok((v, _))) => match operated(sign(op)->0, a, v) {
                Ok(r) => Ok::<(CTerm, GenState), CError>((r, st)),
                Err(e) => Err(e),
            },
            (Err(e), _) => Err(e),
            (_, Err(e)) => Err(e),
        }),
{
    law_reading_changes_nothing(depth, st, lhs);
    law_reading_changes_nothing(depth, st, rhs);
    let b = BinaryOperatorExpression { operator: op, lhs, rhs };
    assert(expr(depth, st, operating(op, lhs, rhs)) == binary(depth, st, b));
}

/// What an assignment between expressions that only read does.
proof fn lemma_assigning(depth: nat, st: GenState, lhs: Expression, rhs: Expression, v: CTerm)
    requires
        is_pure(lhs),
        expr(depth, st, rhs) == Ok::<(CTerm, GenState), CError>((v, st)),
    ensures
        expr(depth, st, assigning(lhs, rhs)) == (match lval(depth, st, lhs) {
            Ok((l, _)) => st.lift(assigned(st.circ, l, v)),
            Err(e) => Err(e),
        }),
{
    lemma_pure_place(depth, st, lhs);
    let b = BinaryOperatorExpression { operator: BinaryOperator::Assign, lhs, rhs };
    assert(expr(depth, st, assigning(lhs, rhs)) == binary(depth, st, b));
}

/// To add to a place, or to divide it, is to assign the sum or the quotient to it, whatever the
/// place is: a variable, a field or an element.
pub proof fn law_compound_assignment_is_an_assignment(
    depth: nat,
    st: GenState,
    op: BinaryOperator,
    lhs: Expression,
    rhs: Expression,
)
    requires
        is_pure(lhs),
        is_pure(rhs),
        op == BinaryOperator::AssignPlus || op == BinaryOperator::AssignDivide,
    ensures
        ({
            let plain = if op == BinaryOperator::AssignPlus {
                BinaryOperator::Plus
            } else {
                BinaryOperator::Divide
            };
            let short = expr(depth, st, operating(op, lhs, rhs));
            let long = expr(depth, st, assigning(lhs, operating(plain, lhs, rhs)));
            &&& short is Ok <==> long is Ok
            &&& short is Ok ==> short == long
        }),
{
    let plain = if op == BinaryOperator::AssignPlus {
        BinaryOperator::Plus
    } else {
        BinaryOperator::Divide
    };
    law_reading_changes_nothing(depth, st, lhs);
    law_reading_changes_nothing(depth, st, rhs);
    lemma_pure_place(depth, st, lhs);
    lemma_operating(depth, st, plain, lhs, rhs);
    let whole = operating(plain, lhs, rhs);
    let b = BinaryOperatorExpression { operator: op, lhs, rhs };
    assert(expr(depth, st, operating(op, lhs, rhs)) == binary(depth, st, b));
    let c = BinaryOperatorExpression { operator: BinaryOperator::Assign, lhs, rhs: whole };
    assert(expr(depth, st, assigning(lhs, whole)) == binary(depth, st, c));
    if expr(depth, st, whole) is Ok {
        let (v, _) = expr(depth, st, whole)->Ok_0;
        lemma_assigning(depth, st, lhs, whole, v);
    }
}

/// To count a place up or down by one is to assign to it what is one more or one less, whatever the
/// place is. `one` is any expression for the number one.
pub proof fn law_increment_is_an_assignment(
    depth: nat,
    st: GenState,
    op: UnaryOperator,
    place: Expression,
    one: Expression,
)
    requires
        is_pure(place),
        is_pure(one),
        expr(depth, st, one) == Ok::<(CTerm, GenState), CError>((value_i32(lit_bv(1, 32)), st)),
        op == UnaryOperator::PostIncrement || op == UnaryOperator::PostDecrement,
    ensures
        ({
            let plain = if op == UnaryOperator::PostIncrement {
                BinaryOperator::Plus
            } else {
                BinaryOperator::Minus
            };
            let u = UnaryOperatorExpression { operator: op, operand: place };
            let short = expr(depth, st, Expression::UnaryOperator(Box::new(u)));
            let long = expr(depth, st, assigning(place, operating(plain, place, one)));
            &&& short is Ok <==> long is Ok
            &&& short is Ok ==> short == long
        }),
{
    let plain = if op == UnaryOperator::PostIncrement {
        BinaryOperator::Plus
    } else {
        BinaryOperator::Minus
    };
    law_reading_changes_nothing(depth, st, place);
    lemma_pure_place(depth, st, place);
    lemma_operating(depth, st, plain, place, one);
    let whole = operating(plain, place, one);
    let u = UnaryOperatorExpression { operator: op, operand: place };
    assert(expr(depth, st, Expression::UnaryOperator(Box::new(u))) == unary(depth, st, u));
    let c = BinaryOperatorExpression { operator: BinaryOperator::Assign, lhs: place, rhs: whole };
    assert(expr(depth, st, assigning(place, whole)) == binary(depth, st, c));
    if expr(depth, st, whole) is Ok {
        let (v, _) = expr(depth, st, whole)->Ok_0;
        lemma_assigning(depth, st, place, whole, v);
    }
}

/// A field of any expression is the field of its value, and a conversion of any expression converts
/// its value to the type that is written.
pub proof fn law_field_and_cast_of_an_expression(
    depth: nat,
    st: GenState,
    m: MemberExpression,
    c: CastExpression,
)
    ensures
        expr(depth, st, Expression::Member(Box::new(m))) == followed(
            expr(depth, st, m.expression),
            |v: CTerm, s: GenState|
                match selected_field(v, m.identifier) {
                    Ok(f) => Ok((f, s)),
                    Err(e) => Err(e),
                },
        ),
        expr(depth, st, Expression::Cast(Box::new(c))) == followed(
            s_type(depth, st, c.target.specifiers@),
            |ty: Option<Ty>, s: GenState|
                followed(
                    expr(depth, s, c.expression),
                    |v: CTerm, u: GenState|
                        match cast_to(ty, v) {
                            Ok(w) => Ok((w, u)),
                            Err(e) => Err(e),
                        },
                ),
        ),
{
}

/// The size of a defined type name is one, and that of anything else that is named is refused.
pub proof fn law_size_of_a_name(env: Env, depth: nat, st: GenState, name: String)
    ensures
        ({
            let u = UnaryOperatorExpression {
                operator: UnaryOperator::SizeOf,
                operand: Expression::Identifier(name),
            };
            let r = expr(depth, st, Expression::UnaryOperator(Box::new(u)));
            if st.typedefs.dom().contains(name@) {
                r matches Ok((v, after)) && after == st && scalar(env, v) == Some(
                    Num::Number(true, 32, 1),
                )
            } else {
                r == Err::<(CTerm, GenState), CError>(CError::Fault(Reason::UnknownType(name)))
            }
        }),
{
    let u = UnaryOperatorExpression {
        operator: UnaryOperator::SizeOf,
        operand: Expression::Identifier(name),
    };
    assert(expr(depth, st, Expression::UnaryOperator(Box::new(u))) == unary(depth, st, u));
    lemma2_to64();
    lemma_literal(env, 1, 32);
}

/// Whether an expression is another one with the given indices behind it, the first first.
pub open spec fn is_element_of(e: Expression, root: Expression, es: Seq<Expression>) -> bool
    decreases es.len(),
{
    if es.len() == 0 {
        e == root
    } else {
        e matches Expression::BinaryOperator(b) && b.operator == BinaryOperator::Index && b.rhs
            == es.last() && is_element_of(b.lhs, root, es.drop_last())
    }
}

/// Of an element of what an expression gives, a field or the result of a call for instance, the array
/// is the value of that expression, and the indices are those written, in order.
pub proof fn law_indices_follow_any_array(
    depth: nat,
    st: GenState,
    e: Expression,
    root: Expression,
    base: CTerm,
    after: GenState,
    es: Seq<Expression>,
    vs: Seq<CTerm>,
)
    requires
        is_element_of(e, root, es),
        !is_index(root),
        expr(depth, st, root) == Ok::<(CTerm, GenState), CError>((base, after)),
        are_plain_indices(es),
        are_values(depth, after, es, vs),
    ensures
        index(depth, st, e) == Ok::<((CTerm, Seq<CTerm>), GenState), CError>(((base, vs), after)),
    decreases es.len(),
{
    if es.len() == 0 {
        assert(vs =~= Seq::empty());
    } else {
        let b = e->BinaryOperator_0;
        let front = es.drop_last();
        let last = es.last();
        assert(last == es[es.len() - 1]);
        assert forall|j: int| 0 <= j < front.len() implies is_pure(#[trigger] front[j])
            && !is_index(front[j]) by {
            assert(front[j] == es[j]);
        }
        assert forall|j: int| 0 <= j < front.len() implies expr(depth, after, #[trigger] front[j])
            == Ok::<(CTerm, GenState), CError>((vs.drop_last()[j], after)) by {
            assert(front[j] == es[j]);
        }
        law_indices_follow_any_array(
            depth,
            st,
            b.lhs,
            root,
            base,
            after,
            front,
            vs.drop_last(),
        );
        assert(index(depth, after, last) == Ok::<((CTerm, Seq<CTerm>), GenState), CError>(
            ((vs.last(), Seq::empty()), after),
        ));
        assert(vs.drop_last().push(vs.last()) =~= vs);
    }
}

/// An element of an array in a field of a variable is, as a place, the one at the offset in that
/// field.
pub proof fn law_element_of_a_field_is_a_place(
    depth: nat,
    st: GenState,
    name: String,
    field: String,
    i: Expression,
    v: CTerm,
    base: CTerm,
)
    requires
        is_pure(i),
        !is_index(i),
        expr(depth, st, i) == Ok::<(CTerm, GenState), CError>((v, st)),
        expr(depth, st, member(name, field)) == Ok::<(CTerm, GenState), CError>((base, st)),
    ensures
        lval(depth, st, operating(BinaryOperator::Index, member(name, field), i)) == (match offset(
            base,
            seq![v],
        ) {
            Err(e) => Err::<(CLoc, GenState), CError>(e),
            Ok(at) => Ok(
                (
                    CLoc::Idx(
                        Box::new(CLoc::Member(Box::new(CLoc::Var(Loc { name })), field)),
                        value_i32(at),
                    ),
                    st,
                ),
            ),
        }),
{
    let e = operating(BinaryOperator::Index, member(name, field), i);
    let es = seq![i];
    assert(es.drop_last() =~= Seq::empty());
    assert(is_element_of(member(name, field), member(name, field), es.drop_last()));
    assert(is_element_of(e, member(name, field), es));
    law_indices_follow_any_array(
        depth,
        st,
        e,
        member(name, field),
        base,
        st,
        es,
        seq![v],
    );
    assert(lval(depth, st, member(name, field)) == Ok::<(CLoc, GenState), CError>(
        (CLoc::Member(Box::new(CLoc::Var(Loc { name })), field), st),
    ));
}

} // verus!
