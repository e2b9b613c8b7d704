//! Whole programs: their circuits are evaluated on concrete inputs.
use std::collections::HashMap;
use std::rc::Rc;

use cfront::ast::ArraySize;
use cfront::ast::Attribute;
use cfront::ast::BinaryOperator;
use cfront::ast::BinaryOperatorExpression;
use cfront::ast::BlockItem;
use cfront::ast::CallExpression;
use cfront::ast::CastExpression;
use cfront::ast::Constant;
use cfront::ast::Declaration;
use cfront::ast::DeclarationSpecifier;
use cfront::ast::Declarator;
use cfront::ast::DeclaratorKind;
use cfront::ast::DerivedDeclarator;
use cfront::ast::Expression;
use cfront::ast::Extension;
use cfront::ast::ExternalDeclaration;
use cfront::ast::ForInitializer;
use cfront::ast::ForStatement;
use cfront::ast::FunctionDefinition;
use cfront::ast::IfStatement;
use cfront::ast::InitDeclarator;
use cfront::ast::Initializer;
use cfront::ast::Integer;
use cfront::ast::IntegerSize;
use cfront::ast::MemberExpression;
use cfront::ast::ParameterDeclaration;
use cfront::ast::SpecifierQualifier;
use cfront::ast::Statement;
use cfront::ast::StructDeclaration;
use cfront::ast::StructDeclarator;
use cfront::ast::StructField;
use cfront::ast::StructType;
use cfront::ast::TranslationUnit;
use cfront::ast::TypeName;
use cfront::ast::TypeSpecifier;
use cfront::ast::UnaryOperator;
use cfront::ast::UnaryOperatorExpression;
use cfront::circ::Computation;
use cfront::circ::Party;
use cfront::error::CError;
use cfront::error::Reason;
use cfront::front::Inputs;
use cfront::front::C;
use cfront::gen::CGen;
use cfront::ir::apply_op;
use cfront::ir::signed_value;
use cfront::ir::wrap_to;
use cfront::ir::Node;
use cfront::ir::Op;
use cfront::ir::Sort;
use cfront::ir::Term;
use cfront::ir::Value;
use cfront::translate::Mode;

// Builders of programs.

fn id(name: &str) -> Expression {
    Expression::Identifier(name.to_string())
}

fn num(n: i64) -> Expression {
    Expression::Constant(Constant::Integer(Integer {
        number: n.to_string(),
        size: IntegerSize::Int,
        unsigned: false,
    }))
}

fn bin(operator: BinaryOperator, lhs: Expression, rhs: Expression) -> Expression {
    Expression::BinaryOperator(Box::new(BinaryOperatorExpression { operator, lhs, rhs }))
}

fn un(operator: UnaryOperator, operand: Expression) -> Expression {
    Expression::UnaryOperator(Box::new(UnaryOperatorExpression { operator, operand }))
}

fn plus(a: Expression, b: Expression) -> Expression {
    bin(BinaryOperator::Plus, a, b)
}

fn assign(a: Expression, b: Expression) -> Expression {
    bin(BinaryOperator::Assign, a, b)
}

fn at(a: Expression, i: Expression) -> Expression {
    bin(BinaryOperator::Index, a, i)
}

fn less(a: Expression, b: Expression) -> Expression {
    bin(BinaryOperator::Less, a, b)
}

fn field(e: Expression, name: &str) -> Expression {
    Expression::Member(Box::new(MemberExpression { expression: e, identifier: name.to_string() }))
}

fn call(f: &str, arguments: Vec<Expression>) -> Expression {
    Expression::Call(Box::new(CallExpression { callee: id(f), arguments }))
}

fn spec(t: TypeSpecifier) -> DeclarationSpecifier {
    DeclarationSpecifier::TypeSpecifier(t)
}

fn whole() -> DeclarationSpecifier {
    spec(TypeSpecifier::Int)
}

fn plain(name: &str) -> Declarator {
    Declarator { kind: DeclaratorKind::Identifier(name.to_string()), derived: vec![] }
}

fn array(name: &str, sizes: &[i64]) -> Declarator {
    Declarator {
        kind: DeclaratorKind::Identifier(name.to_string()),
        derived: sizes
            .iter()
            .map(|n| DerivedDeclarator::Array(ArraySize::VariableExpression(Box::new(num(*n)))))
            .collect(),
    }
}

fn declare(s: DeclarationSpecifier, d: Declarator, i: Option<Initializer>) -> Declaration {
    Declaration {
        specifiers: vec![s],
        declarators: vec![InitDeclarator { declarator: d, initializer: i }],
    }
}

fn expr_init(e: Expression) -> Option<Initializer> {
    Some(Initializer::Expression(Box::new(e)))
}

fn leaf(n: i64) -> Initializer {
    Initializer::Expression(Box::new(num(n)))
}

fn declare_item(s: DeclarationSpecifier, d: Declarator, i: Option<Initializer>) -> BlockItem {
    BlockItem::Declaration(declare(s, d, i))
}

fn int_var(name: &str, e: Expression) -> BlockItem {
    declare_item(whole(), plain(name), expr_init(e))
}

fn exec(e: Expression) -> BlockItem {
    BlockItem::Statement(Statement::Expression(Some(Box::new(e))))
}

fn ret(e: Expression) -> BlockItem {
    BlockItem::Statement(Statement::Return(Some(Box::new(e))))
}

fn block(items: Vec<BlockItem>) -> Statement {
    Statement::Compound(items)
}

fn if_(condition: Expression, a: Statement, b: Option<Statement>) -> BlockItem {
    BlockItem::Statement(Statement::If(Box::new(IfStatement {
        condition,
        then_statement: a,
        else_statement: b,
    })))
}

fn for_(
    initializer: ForInitializer,
    condition: Expression,
    step: Expression,
    body: Vec<BlockItem>,
) -> BlockItem {
    BlockItem::Statement(Statement::For(Box::new(ForStatement {
        initializer,
        condition: Some(condition),
        step: Some(step),
        statement: block(body),
    })))
}

fn count(name: &str, from: i64, to: i64, body: Vec<BlockItem>) -> BlockItem {
    for_(
        ForInitializer::Declaration(declare(whole(), plain(name), expr_init(num(from)))),
        less(id(name), num(to)),
        un(UnaryOperator::PostIncrement, id(name)),
        body,
    )
}

fn attribute(name: &str, arguments: Vec<Expression>) -> DeclarationSpecifier {
    DeclarationSpecifier::Extension(vec![Extension::Attribute(Attribute {
        name: name.to_string(),
        arguments,
    })])
}

fn private(party: i64, s: DeclarationSpecifier, d: Declarator) -> ParameterDeclaration {
    ParameterDeclaration {
        specifiers: vec![attribute("private", vec![num(party)]), s],
        declarator: Some(d),
    }
}

fn public(s: DeclarationSpecifier, d: Declarator) -> ParameterDeclaration {
    ParameterDeclaration { specifiers: vec![attribute("public", vec![]), s], declarator: Some(d) }
}

fn param(s: DeclarationSpecifier, d: Declarator) -> ParameterDeclaration {
    ParameterDeclaration { specifiers: vec![s], declarator: Some(d) }
}

fn function(
    name: &str,
    s: DeclarationSpecifier,
    ps: Vec<ParameterDeclaration>,
    body: Vec<BlockItem>,
) -> ExternalDeclaration {
    ExternalDeclaration::FunctionDefinition(FunctionDefinition {
        specifiers: vec![s],
        declarator: Declarator {
            kind: DeclaratorKind::Identifier(name.to_string()),
            derived: vec![DerivedDeclarator::Function(Rc::new(ps))],
        },
        statement: Rc::new(block(body)),
    })
}

fn translate(mode: Mode, nodes: Vec<ExternalDeclaration>) -> Result<Computation, CError> {
    C::gen(Inputs { unit: Rc::new(TranslationUnit { nodes }), mode })
}

fn translate_within(nodes: Vec<ExternalDeclaration>, depth: u64) -> Result<Computation, CError> {
    let mut g = CGen::new(Mode::Mpc(2), Rc::new(TranslationUnit { nodes }));
    g.depth = depth;
    g.visit_files()?;
    g.entry_fn(&"main".to_string())?;
    Ok(g.circ.consume())
}

fn mpc(nodes: Vec<ExternalDeclaration>) -> Result<Computation, CError> {
    translate(Mode::Mpc(2), nodes)
}

fn main_of(ps: Vec<ParameterDeclaration>, body: Vec<BlockItem>) -> Vec<ExternalDeclaration> {
    vec![function("main", whole(), ps, body)]
}

fn two_ints() -> Vec<ParameterDeclaration> {
    vec![private(0, whole(), plain("a")), private(1, whole(), plain("b"))]
}

// An evaluator of circuits.

#[derive(Clone, Debug, PartialEq)]
enum Meaning {
    Scalar(Value),
    Array(HashMap<u64, Value>, usize),
}

fn number(m: &Meaning) -> (usize, u64) {
    match m {
        Meaning::Scalar(Value::Bv(w, x)) => (*w, *x),
        _ => panic!("no number: {:?}", m),
    }
}

fn evaluate(t: &Term, inputs: &[Value]) -> Meaning {
    match t.head() {
        Node::Const(v) => Meaning::Scalar(*v),
        Node::Input(i, _) => Meaning::Scalar(inputs[*i]),
        Node::Not(a) => match evaluate(a, inputs) {
            Meaning::Scalar(Value::Bool(x)) => Meaning::Scalar(Value::Bool(!x)),
            m => panic!("no truth value: {:?}", m),
        },
        Node::Op(op, a, b) => match (evaluate(a, inputs), evaluate(b, inputs)) {
            (Meaning::Scalar(x), Meaning::Scalar(y)) => {
                Meaning::Scalar(apply_op(*op, x, y).unwrap())
            }
            (m, n) => panic!("no operands: {:?} {:?}", m, n),
        },
        Node::Ite(c, a, b) => match evaluate(c, inputs) {
            Meaning::Scalar(Value::Bool(true)) => evaluate(a, inputs),
            Meaning::Scalar(Value::Bool(false)) => evaluate(b, inputs),
            m => panic!("no truth value: {:?}", m),
        },
        Node::ZeroExt(w, a) => {
            let (_, x) = number(&evaluate(a, inputs));
            Meaning::Scalar(Value::Bv(*w, x))
        }
        Node::SignExt(w, a) => {
            let (v, x) = number(&evaluate(a, inputs));
            Meaning::Scalar(Value::Bv(*w, wrap_to(signed_value(v, x), *w)))
        }
        Node::Truncate(w, a) => {
            let (_, x) = number(&evaluate(a, inputs));
            Meaning::Scalar(Value::Bv(*w, wrap_to(x as i128, *w)))
        }
        Node::ZeroArray(_, _, w) => Meaning::Array(HashMap::new(), *w),
        Node::Select(a, i) => match evaluate(a, inputs) {
            Meaning::Array(m, w) => {
                let (_, x) = number(&evaluate(i, inputs));
                Meaning::Scalar(m.get(&x).copied().unwrap_or(Value::Bv(w, 0)))
            }
            m => panic!("no array: {:?}", m),
        },
        Node::Store(a, i, v) => match (evaluate(a, inputs), evaluate(v, inputs)) {
            (Meaning::Array(mut m, w), Meaning::Scalar(y)) => {
                let (_, x) = number(&evaluate(i, inputs));
                m.insert(x, y);
                Meaning::Array(m, w)
            }
            (m, n) => panic!("no store: {:?} {:?}", m, n),
        },
    }
}

fn word(n: i64) -> Value {
    Value::Bv(32, wrap_to(n as i128, 32))
}

fn output(c: &Computation, inputs: &[i64]) -> i64 {
    assert_eq!(c.outputs.len(), 1);
    let values: Vec<Value> = inputs.iter().map(|n| word(*n)).collect();
    let (w, x) = number(&evaluate(&c.outputs[0], &values));
    signed_value(w, x) as i64
}

fn run(nodes: Vec<ExternalDeclaration>, inputs: &[i64]) -> i64 {
    output(&mpc(nodes).unwrap(), inputs)
}

fn fault(nodes: Vec<ExternalDeclaration>) -> Reason {
    match mpc(nodes) {
        Err(CError::Fault(r)) => r,
        other => panic!("no fault: {:?}", other.is_ok()),
    }
}

fn reject(nodes: Vec<ExternalDeclaration>) -> Reason {
    match mpc(nodes) {
        Err(CError::Reject(r)) => r,
        other => panic!("not rejected: {:?}", other.is_ok()),
    }
}

fn main_fault(body: Vec<BlockItem>) -> Reason {
    fault(main_of(two_ints(), body))
}

fn main_reject(body: Vec<BlockItem>) -> Reason {
    reject(main_of(two_ints(), body))
}

// Expressions and variables.

#[test]
fn sum_of_two_inputs() {
    let c = mpc(main_of(two_ints(), vec![ret(plus(id("a"), id("b")))])).unwrap();
    assert_eq!(output(&c, &[3, 4]), 7);
    assert_eq!(output(&c, &[i32::MAX as i64, 1]), i32::MIN as i64);
    assert_eq!(c.parties, vec![Party::Prover, Party::Verifier]);
    assert_eq!(c.inputs.len(), 2);
    assert_eq!(c.inputs[0].name, "a");
    assert_eq!(c.inputs[0].vis, Some(0));
    assert_eq!(c.inputs[0].sort, Sort::Bv(32));
    assert_eq!(c.inputs[1].name, "b");
    assert_eq!(c.inputs[1].vis, Some(1));
}

#[test]
fn arithmetic_operators() {
    let cases = vec![
        (BinaryOperator::Plus, 17, 5, 22),
        (BinaryOperator::Minus, 5, 17, -12),
        (BinaryOperator::Multiply, 17, 5, 85),
        (BinaryOperator::Divide, 17, 5, 3),
        (BinaryOperator::Modulo, 17, 5, 2),
        (BinaryOperator::BitwiseAnd, 12, 10, 8),
        (BinaryOperator::BitwiseOr, 12, 10, 14),
        (BinaryOperator::BitwiseXor, 12, 10, 6),
    ];
    for (op, a, b, r) in cases {
        assert_eq!(run(main_of(two_ints(), vec![ret(bin(op, id("a"), id("b")))]), &[a, b]), r);
    }
}

#[test]
fn comparisons_are_unsigned() {
    let cases = vec![
        (BinaryOperator::Less, 1, -1, 1),
        (BinaryOperator::LessOrEqual, 2, 2, 1),
        (BinaryOperator::Greater, 1, -1, 0),
        (BinaryOperator::GreaterOrEqual, 2, 3, 0),
        (BinaryOperator::Equals, 4, 4, 1),
        (BinaryOperator::NotEquals, 4, 4, 0),
        (BinaryOperator::LogicalAnd, 4, 0, 0),
        (BinaryOperator::LogicalOr, 4, 0, 1),
    ];
    for (op, a, b, r) in cases {
        assert_eq!(run(main_of(two_ints(), vec![ret_int(bin(op, id("a"), id("b")))]), &[a, b]), r);
    }
}

fn ret_int(e: Expression) -> BlockItem {
    ret(Expression::Cast(Box::new(CastExpression {
        target: TypeName { specifiers: vec![SpecifierQualifier::TypeSpecifier(TypeSpecifier::Int)] },
        expression: e,
    })))
}

#[test]
fn shifts_by_constants() {
    let three = plus(num(1), num(2));
    let body = vec![ret(bin(BinaryOperator::ShiftLeft, id("a"), three))];
    assert_eq!(run(main_of(two_ints(), body), &[5, 0]), 40);
    let body = vec![ret(bin(BinaryOperator::ShiftRight, id("a"), num(2)))];
    assert_eq!(run(main_of(two_ints(), body), &[21, 0]), 5);
    let by_input = vec![ret(bin(BinaryOperator::ShiftLeft, id("a"), id("b")))];
    assert!(matches!(main_fault(by_input), Reason::NotConstant(_)));
}

#[test]
fn assignment_then_reading() {
    let body = vec![
        int_var("x", num(1)),
        exec(assign(id("x"), plus(id("a"), num(10)))),
        exec(bin(BinaryOperator::AssignPlus, id("x"), id("b"))),
        exec(bin(BinaryOperator::AssignDivide, id("x"), num(2))),
        ret(id("x")),
    ];
    assert_eq!(run(main_of(two_ints(), body), &[4, 6]), 10);
}

#[test]
fn post_increment_gives_the_new_value() {
    let body = vec![
        int_var("x", id("a")),
        int_var("y", un(UnaryOperator::PostIncrement, id("x"))),
        int_var("z", un(UnaryOperator::PostDecrement, id("x"))),
        ret(plus(bin(BinaryOperator::Multiply, id("y"), num(100)), id("z"))),
    ];
    assert_eq!(run(main_of(two_ints(), body), &[4, 0]), 504);
}

#[test]
fn uninitialized_variables_are_zero() {
    let body = vec![declare_item(whole(), plain("x"), None), ret(plus(id("x"), id("a")))];
    assert_eq!(run(main_of(two_ints(), body), &[9, 0]), 9);
}

#[test]
fn declarators_of_one_declaration_share_their_derivations() {
    let two = Declaration {
        specifiers: vec![whole()],
        declarators: vec![
            InitDeclarator { declarator: plain("x"), initializer: expr_init(num(3)) },
            InitDeclarator { declarator: plain("y"), initializer: expr_init(num(4)) },
        ],
    };
    let body = vec![BlockItem::Declaration(two), ret(plus(id("x"), id("y")))];
    assert_eq!(run(main_of(two_ints(), body), &[0, 0]), 7);
}

#[test]
fn size_of_a_type_is_one() {
    let of_type = Expression::SizeOf(Box::new(TypeName {
        specifiers: vec![SpecifierQualifier::TypeSpecifier(TypeSpecifier::Int)],
    }));
    assert_eq!(run(main_of(two_ints(), vec![ret(of_type)]), &[0, 0]), 1);
    let of_void = Expression::SizeOf(Box::new(TypeName {
        specifiers: vec![SpecifierQualifier::TypeSpecifier(TypeSpecifier::Void)],
    }));
    assert_eq!(main_fault(vec![ret(of_void)]), Reason::MissingType);
    let unknown = un(UnaryOperator::SizeOf, id("word"));
    assert_eq!(main_fault(vec![ret(unknown)]), Reason::UnknownType("word".to_string()));
}

// Control flow.

#[test]
fn conditional_takes_one_branch() {
    let body = vec![
        int_var("x", num(0)),
        if_(
            less(id("a"), id("b")),
            block(vec![exec(assign(id("x"), num(1)))]),
            Some(block(vec![exec(assign(id("x"), num(2)))])),
        ),
        ret(id("x")),
    ];
    let c = mpc(main_of(two_ints(), body)).unwrap();
    assert_eq!(output(&c, &[1, 2]), 1);
    assert_eq!(output(&c, &[2, 1]), 2);
}

#[test]
fn untaken_branch_changes_no_memory() {
    let body = vec![
        declare_item(whole(), array("m", &[2]), Some(Initializer::List(vec![leaf(5), leaf(6)]))),
        if_(
            less(id("a"), num(10)),
            block(vec![exec(assign(at(id("m"), num(1)), num(70)))]),
            None,
        ),
        ret(at(id("m"), num(1))),
    ];
    let c = mpc(main_of(two_ints(), body)).unwrap();
    assert_eq!(output(&c, &[3, 0]), 70);
    assert_eq!(output(&c, &[30, 0]), 6);
}

#[test]
fn nothing_happens_after_a_return() {
    let body = vec![
        int_var("x", num(1)),
        if_(less(id("a"), num(10)), block(vec![ret(id("x"))]), None),
        exec(assign(id("x"), num(2))),
        ret(id("x")),
    ];
    let c = mpc(main_of(two_ints(), body)).unwrap();
    assert_eq!(output(&c, &[3, 0]), 1);
    assert_eq!(output(&c, &[30, 0]), 2);
}

#[test]
fn condition_that_is_no_truth_value() {
    let body = vec![if_(id("a"), block(vec![]), None), ret(id("a"))];
    assert!(matches!(main_reject(body), Reason::NotBoolean(_)));
}

#[test]
fn loop_runs_its_rounds() {
    let body = vec![
        int_var("x", num(0)),
        count("i", 0, 5, vec![exec(bin(BinaryOperator::AssignPlus, id("x"), id("i")))]),
        ret(plus(id("x"), id("a"))),
    ];
    assert_eq!(run(main_of(two_ints(), body), &[100, 0]), 110);
}

#[test]
fn loop_headers() {
    let start = |n: i64| {
        ForInitializer::Declaration(declare(whole(), plain("i"), expr_init(num(n))))
    };
    let cases = vec![
        (0, BinaryOperator::LessOrEqual, 5, UnaryOperator::PostIncrement, 6),
        (5, BinaryOperator::Greater, 0, UnaryOperator::PostDecrement, 5),
        (5, BinaryOperator::GreaterOrEqual, 0, UnaryOperator::PostDecrement, 6),
        (5, BinaryOperator::Less, 0, UnaryOperator::PostIncrement, 0),
    ];
    for (from, op, to, step, rounds) in cases {
        let body = vec![
            int_var("x", num(0)),
            for_(
                start(from),
                bin(op, id("i"), num(to)),
                un(step, id("i")),
                vec![exec(bin(BinaryOperator::AssignPlus, id("x"), num(1)))],
            ),
            ret(id("x")),
        ];
        assert_eq!(run(main_of(two_ints(), body), &[0, 0]), rounds);
    }
    let by_three = vec![
        int_var("x", num(0)),
        int_var("i", num(7)),
        for_(
            ForInitializer::Expression(assign(id("i"), num(1))),
            less(id("i"), num(9)),
            bin(BinaryOperator::AssignPlus, id("i"), num(3)),
            vec![exec(bin(BinaryOperator::AssignPlus, id("x"), num(1)))],
        ),
        ret(plus(bin(BinaryOperator::Multiply, id("x"), num(100)), id("i"))),
    ];
    assert_eq!(run(main_of(two_ints(), by_three), &[0, 0]), 310);
}

#[test]
fn loop_headers_that_are_not_understood() {
    let header = |i: ForInitializer, c: Option<Expression>, s: Option<Expression>| {
        vec![
            BlockItem::Statement(Statement::For(Box::new(ForStatement {
                initializer: i,
                condition: c,
                step: s,
                statement: block(vec![]),
            }))),
            ret(id("a")),
        ]
    };
    let zero = || ForInitializer::Declaration(declare(whole(), plain("i"), expr_init(num(0))));
    let cond = || Some(less(id("i"), num(3)));
    let step = || Some(un(UnaryOperator::PostIncrement, id("i")));
    assert_eq!(main_fault(header(ForInitializer::Other, Some(less(id("a"), num(3))), step())), Reason::LoopHeader);
    assert_eq!(main_fault(header(zero(), None, step())), Reason::LoopHeader);
    assert_eq!(main_fault(header(zero(), Some(id("i")), step())), Reason::LoopHeader);
    assert_eq!(main_fault(header(zero(), cond(), None)), Reason::LoopHeader);
    assert_eq!(main_fault(header(zero(), cond(), Some(id("i")))), Reason::LoopHeader);
    let up_to_input = header(zero(), Some(less(id("i"), id("a"))), step());
    assert!(matches!(main_fault(up_to_input), Reason::NotConstant(_)));
    let too_far = header(
        zero(),
        Some(bin(BinaryOperator::LessOrEqual, id("i"), num(i32::MAX as i64))),
        step(),
    );
    assert_eq!(main_fault(too_far), Reason::Overflow);
    let two = Declaration {
        specifiers: vec![whole()],
        declarators: vec![
            InitDeclarator { declarator: plain("i"), initializer: expr_init(num(0)) },
            InitDeclarator { declarator: plain("j"), initializer: expr_init(num(0)) },
        ],
    };
    assert_eq!(
        main_fault(header(ForInitializer::Declaration(two), cond(), step())),
        Reason::LoopDeclaration
    );
}

#[test]
fn loop_variable_ends_with_the_loop() {
    let body = vec![count("i", 0, 2, vec![]), ret(id("i"))];
    assert_eq!(main_reject(body), Reason::NoVariable("i".to_string()));
}

#[test]
fn body_of_a_loop_has_a_scope_of_its_own() {
    let body = vec![
        int_var("x", num(0)),
        count(
            "i",
            0,
            3,
            vec![
                int_var("y", num(2)),
                exec(bin(BinaryOperator::AssignPlus, id("x"), id("y"))),
            ],
        ),
        ret(id("x")),
    ];
    assert_eq!(run(main_of(two_ints(), body), &[0, 0]), 6);
}

// Arrays.

#[test]
fn array_element_written_then_read() {
    let body = vec![
        declare_item(whole(), array("m", &[4]), None),
        exec(assign(at(id("m"), id("a")), num(9))),
        ret(at(id("m"), id("b"))),
    ];
    let c = mpc(main_of(two_ints(), body)).unwrap();
    assert_eq!(output(&c, &[2, 2]), 9);
    assert_eq!(output(&c, &[2, 3]), 0);
}

#[test]
fn matrix_is_row_major() {
    let rows = Initializer::List(vec![
        Initializer::List(vec![leaf(1), leaf(2), leaf(3)]),
        Initializer::List(vec![leaf(4), leaf(5), leaf(6)]),
    ]);
    let body = vec![
        declare_item(whole(), array("m", &[2, 3]), Some(rows)),
        exec(assign(at(at(id("m"), num(1)), num(0)), num(40))),
        ret(at(at(id("m"), id("a")), id("b"))),
    ];
    let c = mpc(main_of(two_ints(), body)).unwrap();
    let expected = vec![vec![1, 2, 3], vec![40, 5, 6]];
    for i in 0..2 {
        for j in 0..3 {
            assert_eq!(output(&c, &[i, j]), expected[i as usize][j as usize]);
        }
    }
}

#[test]
fn lone_index_of_a_matrix_counts_elements() {
    let f = function(
        "second",
        whole(),
        vec![param(whole(), array("row", &[3]))],
        vec![ret(at(id("row"), num(1)))],
    );
    let rows = Initializer::List(vec![
        Initializer::List(vec![leaf(1), leaf(2), leaf(3)]),
        Initializer::List(vec![leaf(4), leaf(5), leaf(6)]),
    ]);
    let body = vec![
        declare_item(whole(), array("m", &[2, 3]), Some(rows)),
        ret(call("second", vec![at(id("m"), num(1))])),
    ];
    let mut nodes = vec![f];
    nodes.extend(main_of(two_ints(), body));
    assert_eq!(run(nodes, &[0, 0]), 3);
}

#[test]
fn called_function_writes_to_an_array_of_its_caller() {
    let f = function(
        "set",
        spec(TypeSpecifier::Void),
        vec![param(whole(), array("p", &[2])), param(whole(), plain("v"))],
        vec![exec(assign(at(id("p"), num(1)), id("v")))],
    );
    let body = vec![
        declare_item(whole(), array("m", &[2]), None),
        if_(
            less(id("a"), num(10)),
            block(vec![exec(call("set", vec![id("m"), id("b")]))]),
            None,
        ),
        ret(at(id("m"), num(1))),
    ];
    let mut nodes = vec![f];
    nodes.extend(main_of(two_ints(), body));
    let c = mpc(nodes).unwrap();
    assert_eq!(output(&c, &[3, 77]), 77);
    assert_eq!(output(&c, &[30, 77]), 0);
}

#[test]
fn array_inputs_and_outputs() {
    let ps = vec![private(0, whole(), array("m", &[3])), public(whole(), plain("k"))];
    let body = vec![ret(at(id("m"), id("k")))];
    let c = mpc(main_of(ps, body)).unwrap();
    assert_eq!(c.inputs.len(), 4);
    assert!(c.inputs[..3].iter().all(|i| i.name == "m" && i.vis == Some(0)));
    assert_eq!(c.inputs[3].vis, None);
    assert_eq!(output(&c, &[10, 20, 30, 2]), 30);
}

#[test]
fn initializer_of_the_wrong_length() {
    let body = vec![
        declare_item(whole(), array("m", &[3]), Some(Initializer::List(vec![leaf(1)]))),
        ret(id("a")),
    ];
    assert_eq!(main_fault(body), Reason::InitializerCount);
}

#[test]
fn list_for_a_number() {
    let body = vec![
        declare_item(whole(), plain("x"), Some(Initializer::List(vec![leaf(1)]))),
        ret(id("a")),
    ];
    assert_eq!(main_fault(body), Reason::Unsupported);
}

#[test]
fn more_indices_than_dimensions() {
    let body = vec![
        declare_item(whole(), array("m", &[2]), None),
        ret(at(at(id("m"), num(0)), num(1))),
    ];
    assert_eq!(main_fault(body), Reason::TooManyIndices);
}

#[test]
fn index_of_a_number() {
    let e = at(id("a"), num(0));
    assert!(matches!(main_reject(vec![ret(e)]), Reason::CannotSelect(_, _)));
    let s = assign(at(id("a"), num(0)), num(1));
    assert!(matches!(main_reject(vec![exec(s), ret(id("a"))]), Reason::CannotStore(_, _)));
    let two = at(at(id("a"), num(0)), num(1));
    assert_eq!(main_fault(vec![ret(two)]), Reason::IndexCount);
}

#[test]
fn array_size_that_is_no_constant() {
    let d = Declarator {
        kind: DeclaratorKind::Identifier("m".to_string()),
        derived: vec![DerivedDeclarator::Array(ArraySize::VariableExpression(Box::new(id("a"))))],
    };
    assert!(matches!(
        main_fault(vec![declare_item(whole(), d, None), ret(id("a"))]),
        Reason::NotConstant(_)
    ));
    let open = Declarator {
        kind: DeclaratorKind::Identifier("m".to_string()),
        derived: vec![DerivedDeclarator::Array(ArraySize::Other)],
    };
    assert_eq!(main_fault(vec![declare_item(whole(), open, None), ret(id("a"))]), Reason::MissingArraySize);
}

// Structures and type names.

fn point() -> DeclarationSpecifier {
    let of = |name: &str| {
        StructDeclaration::Field(StructField {
            specifiers: vec![SpecifierQualifier::TypeSpecifier(TypeSpecifier::Int)],
            declarators: vec![StructDeclarator { declarator: Some(plain(name)) }],
        })
    };
    spec(TypeSpecifier::Struct(Box::new(StructType {
        identifier: Some("point".to_string()),
        declarations: Some(vec![of("x"), of("y")]),
    })))
}

fn known_point() -> DeclarationSpecifier {
    spec(TypeSpecifier::Struct(Box::new(StructType {
        identifier: Some("point".to_string()),
        declarations: None,
    })))
}

#[test]
fn field_written_then_read() {
    let body = vec![
        declare_item(point(), plain("p"), None),
        exec(assign(field(id("p"), "x"), id("a"))),
        exec(assign(field(id("p"), "y"), id("b"))),
        if_(
            less(id("a"), num(10)),
            block(vec![exec(assign(field(id("p"), "x"), num(500)))]),
            None,
        ),
        ret(plus(field(id("p"), "x"), field(id("p"), "y"))),
    ];
    let c = mpc(main_of(two_ints(), body)).unwrap();
    assert_eq!(output(&c, &[3, 4]), 504);
    assert_eq!(output(&c, &[30, 4]), 34);
}

#[test]
fn structure_inputs() {
    let ps = vec![private(1, point(), plain("p"))];
    let c = mpc(main_of(ps, vec![ret(field(id("p"), "y"))])).unwrap();
    assert_eq!(c.inputs.len(), 2);
    assert_eq!(output(&c, &[3, 4]), 4);
}

#[test]
fn structure_type_is_known_by_its_name() {
    let body = vec![
        declare_item(point(), plain("p"), None),
        declare_item(known_point(), plain("q"), None),
        exec(assign(field(id("q"), "y"), id("a"))),
        ret(field(id("q"), "y")),
    ];
    assert_eq!(run(main_of(two_ints(), body), &[12, 0]), 12);
}

#[test]
fn structure_initializer_counts_its_fields() {
    let with = |n: usize| {
        vec![
            declare_item(point(), plain("p"), Some(Initializer::List((0..n).map(|_| leaf(1)).collect()))),
            ret(field(id("p"), "x")),
        ]
    };
    assert_eq!(run(main_of(two_ints(), with(2)), &[0, 0]), 0);
    assert_eq!(main_fault(with(1)), Reason::InitializerCount);
}

#[test]
fn field_that_is_not_there() {
    let body = vec![declare_item(point(), plain("p"), None), ret(field(id("p"), "z"))];
    assert_eq!(main_reject(body), Reason::NoField("z".to_string()));
    assert!(matches!(main_reject(vec![ret(field(id("a"), "x"))]), Reason::NotStruct(_)));
}

#[test]
fn type_names() {
    let define = || {
        ExternalDeclaration::Declaration(Declaration {
            specifiers: vec![DeclarationSpecifier::StorageClass, spec(TypeSpecifier::Unsigned)],
            declarators: vec![InitDeclarator { declarator: plain("word"), initializer: None }],
        })
    };
    let word = spec(TypeSpecifier::TypedefName("word".to_string()));
    let body = vec![
        declare_item(word, plain("x"), expr_init(id("a"))),
        ret_int(plus(id("x"), un(UnaryOperator::SizeOf, id("word")))),
    ];
    let mut nodes = vec![define()];
    nodes.extend(main_of(two_ints(), body));
    assert_eq!(run(nodes, &[6, 0]), 7);
    assert_eq!(fault(vec![define(), define()]), Reason::TypedefRedefined("word".to_string()));
    let unknown = spec(TypeSpecifier::TypedefName("wort".to_string()));
    assert_eq!(
        main_fault(vec![declare_item(unknown, plain("x"), None), ret(id("a"))]),
        Reason::NoTypedef("wort".to_string())
    );
}

// Functions.

#[test]
fn call_gives_what_the_function_returns() {
    let twice = function(
        "twice",
        whole(),
        vec![param(whole(), plain("n"))],
        vec![ret(plus(id("n"), id("n")))],
    );
    let body = vec![ret(call("twice", vec![call("twice", vec![id("a")])]))];
    let mut nodes = vec![twice];
    nodes.extend(main_of(two_ints(), body));
    assert_eq!(run(nodes, &[5, 0]), 20);
}

#[test]
fn global_variables() {
    let total = ExternalDeclaration::Declaration(declare(whole(), plain("total"), expr_init(num(5))));
    let bump = function(
        "bump",
        spec(TypeSpecifier::Void),
        vec![],
        vec![exec(bin(BinaryOperator::AssignPlus, id("total"), num(1)))],
    );
    let body = vec![
        exec(call("bump", vec![])),
        exec(call("bump", vec![])),
        ret(plus(id("total"), id("a"))),
    ];
    let mut nodes = vec![total, bump];
    nodes.extend(main_of(two_ints(), body));
    assert_eq!(run(nodes, &[100, 0]), 107);
}

#[test]
fn calls_nested_too_deeply() {
    let down = || {
        function(
            "down",
            whole(),
            vec![param(whole(), plain("n"))],
            vec![ret(call("down", vec![id("n")]))],
        )
    };
    let mut nodes = vec![down()];
    nodes.extend(main_of(two_ints(), vec![ret(call("down", vec![id("a")]))]));
    assert!(matches!(
        translate_within(nodes, 8),
        Err(CError::Fault(Reason::CallDepth))
    ));
}

#[test]
fn deeper_nesting_gives_the_same() {
    let nodes = || {
        let one = function("one", whole(), vec![], vec![ret(num(1))]);
        let two = function("two", whole(), vec![], vec![ret(plus(call("one", vec![]), num(1)))]);
        let mut nodes = vec![one, two];
        nodes.extend(main_of(two_ints(), vec![ret(plus(id("a"), call("two", vec![])))]));
        nodes
    };
    assert!(matches!(
        translate_within(nodes(), 1),
        Err(CError::Fault(Reason::CallDepth))
    ));
    let shallow = translate_within(nodes(), 2).unwrap();
    let deep = translate(Mode::Mpc(2), nodes()).unwrap();
    assert_eq!(shallow.outputs, deep.outputs);
    assert_eq!(shallow.inputs, deep.inputs);
    assert_eq!(output(&deep, &[5, 0]), 7);
}

#[test]
fn calls_that_do_not_fit() {
    assert_eq!(
        main_fault(vec![ret(call("nobody", vec![]))]),
        Reason::NoFunction("nobody".to_string())
    );
    let one = function("one", whole(), vec![], vec![ret(num(1))]);
    let mut nodes = vec![one];
    nodes.extend(main_of(two_ints(), vec![ret(call("one", vec![num(3)]))]));
    assert_eq!(fault(nodes), Reason::ArgumentCount);
    let indirect = Expression::Call(Box::new(CallExpression {
        callee: num(1),
        arguments: vec![],
    }));
    assert_eq!(main_fault(vec![ret(indirect)]), Reason::MissingName);
}

#[test]
fn value_returned_where_there_is_no_type() {
    let nodes = vec![function("main", spec(TypeSpecifier::Void), vec![], vec![ret(num(1))])];
    assert_eq!(reject(nodes), Reason::NoReturnType);
}

#[test]
fn nothing_returned() {
    let nodes = vec![function(
        "main",
        spec(TypeSpecifier::Void),
        vec![public(whole(), plain("a"))],
        vec![BlockItem::Statement(Statement::Return(None))],
    )];
    let c = mpc(nodes).unwrap();
    assert!(c.outputs.is_empty());
    assert_eq!(c.inputs.len(), 1);
}

// Programs and modes.

#[test]
fn program_without_main() {
    assert_eq!(fault(vec![]), Reason::NoFunction("main".to_string()));
}

#[test]
fn other_external_declarations() {
    assert_eq!(fault(vec![ExternalDeclaration::Other]), Reason::Unsupported);
}

#[test]
fn modes_without_outputs() {
    let nodes = || {
        let ps = vec![ParameterDeclaration {
            specifiers: vec![attribute("private", vec![]), whole()],
            declarator: Some(plain("a")),
        }];
        main_of(ps, vec![ret(id("a"))])
    };
    assert!(matches!(
        translate(Mode::Proof, nodes()),
        Err(CError::Fault(Reason::Unsupported))
    ));
    assert!(matches!(
        translate(Mode::Opt, nodes()),
        Err(CError::Fault(Reason::Unsupported))
    ));
    assert!(matches!(
        translate(Mode::ProofOfHighValue(3), nodes()),
        Err(CError::Fault(Reason::Unsupported))
    ));
}

#[test]
fn prover_knows_private_inputs_of_a_proof() {
    let ps = vec![ParameterDeclaration {
        specifiers: vec![attribute("private", vec![]), whole()],
        declarator: Some(plain("a")),
    }];
    let nodes = vec![function("main", spec(TypeSpecifier::Void), ps, vec![])];
    let c = translate(Mode::Proof, nodes).unwrap();
    assert_eq!(c.inputs[0].vis, Some(0));
    assert!(c.outputs.is_empty());
}

#[test]
fn visibility_that_is_not_understood() {
    let with = |s: DeclarationSpecifier| {
        let ps = vec![ParameterDeclaration {
            specifiers: vec![s, whole()],
            declarator: Some(plain("a")),
        }];
        main_of(ps, vec![ret(id("a"))])
    };
    assert_eq!(fault(with(whole())), Reason::BadVisibility);
    assert_eq!(fault(with(attribute("secret", vec![]))), Reason::BadVisibility);
    assert_eq!(fault(with(attribute("private", vec![]))), Reason::BadVisibility);
    assert_eq!(fault(with(attribute("private", vec![num(3)]))), Reason::BadVisibility);
    assert_eq!(fault(with(attribute("private", vec![id("x")]))), Reason::BadVisibility);
    assert_eq!(fault(with(DeclarationSpecifier::Extension(vec![]))), Reason::BadVisibility);
    assert!(mpc(with(attribute("private", vec![num(2)]))).is_ok());
}

#[test]
fn parameters_that_are_not_understood() {
    let of = |specifiers: Vec<DeclarationSpecifier>, declarator: Option<Declarator>| {
        main_of(
            vec![ParameterDeclaration { specifiers, declarator }],
            vec![ret(num(1))],
        )
    };
    assert_eq!(fault(of(vec![], Some(plain("a")))), Reason::EmptySpecifiers);
    assert_eq!(
        fault(of(vec![attribute("public", vec![])], Some(plain("a")))),
        Reason::EmptySpecifiers
    );
    assert_eq!(
        fault(of(vec![attribute("public", vec![]), whole()], None)),
        Reason::MissingDeclarator
    );
    let void = spec(TypeSpecifier::Void);
    assert_eq!(
        fault(of(vec![attribute("public", vec![]), void], Some(plain("a")))),
        Reason::MissingType
    );
    let nameless = Declarator { kind: DeclaratorKind::Other, derived: vec![] };
    assert_eq!(
        fault(of(vec![attribute("public", vec![]), whole()], Some(nameless))),
        Reason::MissingName
    );
    let pointer = Declarator {
        kind: DeclaratorKind::Identifier("p".to_string()),
        derived: vec![DerivedDeclarator::Pointer],
    };
    assert!(matches!(
        fault(of(vec![attribute("public", vec![]), whole()], Some(pointer))),
        Reason::NotAnInput(_)
    ));
}

#[test]
fn names_that_are_not_there_or_are_there_already() {
    assert_eq!(main_reject(vec![ret(id("z"))]), Reason::NoVariable("z".to_string()));
    assert_eq!(
        main_reject(vec![exec(assign(id("z"), num(1)))]),
        Reason::NoVariable("z".to_string())
    );
    assert_eq!(
        main_reject(vec![int_var("a", num(1)), ret(id("a"))]),
        Reason::Redeclared("a".to_string())
    );
}

#[test]
fn constructs_that_are_not_supported() {
    assert_eq!(main_fault(vec![ret(Expression::Other)]), Reason::Unsupported);
    assert_eq!(main_fault(vec![BlockItem::Statement(Statement::Other)]), Reason::Unsupported);
    assert_eq!(main_fault(vec![BlockItem::StaticAssert]), Reason::Unsupported);
    assert_eq!(
        main_fault(vec![exec(un(UnaryOperator::PreIncrement, id("a")))]),
        Reason::Unsupported
    );
    assert_eq!(
        main_fault(vec![exec(bin(BinaryOperator::AssignMinus, id("a"), num(1)))]),
        Reason::Unsupported
    );
    assert_eq!(main_fault(vec![exec(assign(num(1), num(2)))]), Reason::Unsupported);
    assert_eq!(
        main_fault(vec![declare_item(spec(TypeSpecifier::Other), plain("x"), None)]),
        Reason::Unsupported
    );
}

#[test]
fn values_that_cannot_be_merged_or_converted() {
    let body = vec![
        declare_item(point(), plain("p"), None),
        exec(assign(id("p"), num(1))),
        ret(id("a")),
    ];
    assert!(matches!(main_fault(body), Reason::BadMerge(_, _)));
    let body = vec![
        declare_item(point(), plain("p"), None),
        declare_item(whole(), plain("x"), expr_init(id("p"))),
        ret(id("a")),
    ];
    assert!(matches!(main_fault(body), Reason::BadCast(_, _)));
    let body = vec![declare_item(point(), plain("p"), None), ret(plus(id("p"), num(1)))];
    assert!(matches!(main_reject(body), Reason::BadOperands(_, _, _)));
    let body = vec![
        declare_item(point(), plain("p"), None),
        if_(id("p"), block(vec![]), None),
        ret(id("a")),
    ];
    assert!(matches!(main_fault(body), Reason::NotScalar(_)));
}

#[test]
fn outputs_of_an_array_are_its_elements() {
    let f = ExternalDeclaration::FunctionDefinition(FunctionDefinition {
        specifiers: vec![point()],
        declarator: Declarator {
            kind: DeclaratorKind::Identifier("main".to_string()),
            derived: vec![DerivedDeclarator::Function(Rc::new(two_ints()))],
        },
        statement: Rc::new(block(vec![
            declare_item(known_point(), plain("p"), None),
            exec(assign(field(id("p"), "x"), id("b"))),
            exec(assign(field(id("p"), "y"), id("a"))),
            ret(id("p")),
        ])),
    });
    let c = mpc(vec![f]).unwrap();
    assert_eq!(c.outputs.len(), 2);
    let inputs = vec![word(3), word(4)];
    assert_eq!(evaluate(&c.outputs[0], &inputs), Meaning::Scalar(word(4)));
    assert_eq!(evaluate(&c.outputs[1], &inputs), Meaning::Scalar(word(3)));
}

#[test]
fn folded_terms_mean_the_same() {
    let body = vec![
        int_var("x", num(0)),
        count("i", 0, 3, vec![exec(bin(BinaryOperator::AssignPlus, id("x"), id("i")))]),
        ret(id("x")),
    ];
    let c = mpc(main_of(two_ints(), body)).unwrap();
    assert_eq!(c.outputs[0].get_constant(), Some(word(3)));
    assert_eq!(evaluate(&c.outputs[0], &[word(9), word(9)]), Meaning::Scalar(word(3)));
    assert!(matches!(c.outputs[0].head(), Node::Ite(_, _, _)));
    assert_eq!(apply_op(Op::BvAdd, word(1), word(2)), Some(word(3)));
}

#[test]
fn callee_does_not_see_its_caller() {
    let f = function("peek", whole(), vec![], vec![ret(id("x"))]);
    let body = vec![int_var("x", num(1)), ret(call("peek", vec![]))];
    let mut nodes = vec![f];
    nodes.extend(main_of(two_ints(), body));
    assert_eq!(reject(nodes), Reason::NoVariable("x".to_string()));
}

#[test]
fn loops_run_as_long_as_their_condition_holds() {
    for (from, to, step) in [(0, 10, 3), (-4, 9, 2), (7, 7, 1), (9, 2, 5)] {
        let mut rounds = 0;
        let mut i = from;
        while i < to {
            rounds += 1;
            i += step;
        }
        let counted = cfront::single::trip_count(from, to, step);
        assert_eq!(counted.max(0), rounds);
    }
}

#[test]
fn declaration_in_an_untaken_branch_stays_declared() {
    let body = vec![
        if_(less(id("a"), num(0)), block(vec![int_var("x", num(1))]), None),
        ret(plus(id("x"), id("b"))),
    ];
    assert_eq!(run(main_of(two_ints(), body), &[3, 4]), 5);
}

#[test]
fn integers_of_one_width_and_different_sign() {
    let unsigned = || spec(TypeSpecifier::Unsigned);
    let body = vec![
        declare_item(unsigned(), plain("u"), None),
        exec(assign(id("u"), num(5))),
        exec(bin(BinaryOperator::AssignPlus, id("u"), id("a"))),
        ret(id("u")),
    ];
    assert_eq!(run(main_of(two_ints(), body), &[4, 0]), 9);
    let one = function("one", unsigned(), vec![], vec![ret(num(1))]);
    let mut nodes = vec![one];
    nodes.extend(main_of(two_ints(), vec![ret(plus(id("a"), call("one", vec![])))]));
    assert_eq!(run(nodes, &[4, 0]), 5);
    let body = vec![
        declare_item(unsigned(), plain("u"), None),
        if_(
            less(id("a"), num(10)),
            block(vec![exec(assign(id("u"), num(5)))]),
            Some(block(vec![exec(assign(id("u"), id("b")))])),
        ),
        ret(id("u")),
    ];
    let c = mpc(main_of(two_ints(), body)).unwrap();
    assert_eq!(output(&c, &[3, 8]), 5);
    assert_eq!(output(&c, &[30, 8]), 8);
}

#[test]
fn deeply_nested_calls() {
    let mut nodes = vec![function("f0", whole(), vec![], vec![ret(num(1))])];
    for i in 1..60 {
        let callee = format!("f{}", i - 1);
        nodes.push(function(
            &format!("f{}", i),
            whole(),
            vec![],
            vec![ret(plus(call(&callee, vec![]), num(1)))],
        ));
    }
    nodes.extend(main_of(two_ints(), vec![ret(plus(id("a"), call("f59", vec![])))]));
    assert_eq!(run(nodes, &[5, 0]), 65);
}

#[test]
fn arrays_of_truth_values() {
    let body = vec![
        declare_item(spec(TypeSpecifier::Bool), array("m", &[2]), None),
        exec(assign(at(id("m"), num(1)), less(id("a"), id("b")))),
        ret_int(bin(BinaryOperator::Equals, at(id("m"), num(1)), less(num(0), num(1)))),
    ];
    let c = mpc(main_of(two_ints(), body)).unwrap();
    assert_eq!(output(&c, &[1, 2]), 1);
    assert_eq!(output(&c, &[2, 1]), 0);
}

#[test]
fn other_fields_and_variables_stay() {
    let body = vec![
        declare_item(point(), plain("p"), None),
        declare_item(known_point(), plain("q"), None),
        exec(assign(field(id("p"), "y"), num(7))),
        exec(assign(field(id("q"), "x"), num(8))),
        exec(assign(field(id("p"), "x"), id("a"))),
        ret(plus(
            bin(BinaryOperator::Multiply, field(id("p"), "y"), num(10)),
            field(id("q"), "x"),
        )),
    ];
    assert_eq!(run(main_of(two_ints(), body), &[1, 0]), 78);
}
