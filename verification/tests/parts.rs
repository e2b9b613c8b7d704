//! The parts of the front end, one by one.
use std::rc::Rc;

use cfront::ast::ArraySize;
use cfront::ast::BinaryOperator;
use cfront::ast::BinaryOperatorExpression;
use cfront::ast::Constant;
use cfront::ast::Declaration;
use cfront::ast::DeclarationSpecifier;
use cfront::ast::Declarator;
use cfront::ast::DeclaratorKind;
use cfront::ast::DerivedDeclarator;
use cfront::ast::Expression;
use cfront::ast::FunctionDefinition;
use cfront::ast::InitDeclarator;
use cfront::ast::Initializer;
use cfront::ast::Integer;
use cfront::ast::IntegerSize;
use cfront::ast::ParameterDeclaration;
use cfront::ast::SpecifierQualifier;
use cfront::ast::Statement;
use cfront::ast::StructType;
use cfront::ast::TranslationUnit;
use cfront::ast::TypeSpecifier;
use cfront::ast::UnaryOperator;
use cfront::circ::ite;
use cfront::circ::Circify;
use cfront::cterm::apply_op;
use cfront::cterm::cast;
use cfront::cterm::cfalse;
use cfront::cterm::cint;
use cfront::cterm::cterm;
use cfront::cterm::COp;
use cfront::cterm::CTerm;
use cfront::cterm::CTermData;
use cfront::error::CError;
use cfront::error::Reason;
use cfront::gen::CGen;
use cfront::gen::IndexTerm;
use cfront::ir::bool_lit;
use cfront::ir::bv_lit;
use cfront::ir::fold;
use cfront::ir::mk_not;
use cfront::ir::mk_op;
use cfront::ir::signed_value;
use cfront::ir::wrap_to;
use cfront::ir::Node;
use cfront::ir::Op;
use cfront::ir::Sort;
use cfront::ir::Term;
use cfront::ir::Value;
use cfront::list::List;
use cfront::number::parse_number;
use cfront::single::trip_count;
use cfront::table::Table;
use cfront::translate::CLoc;
use cfront::translate::Loc;
use cfront::translate::Mode;
use cfront::types::Field;
use cfront::types::FieldList;
use cfront::types::Ty;

fn gen() -> CGen {
    CGen::new(Mode::Mpc(2), Rc::new(TranslationUnit { nodes: vec![] }))
}

fn word(n: i128) -> CTerm {
    cint(bv_lit(n, 32))
}

fn signed() -> Ty {
    Ty::Int(true, 32)
}

fn sizes(ns: &[usize]) -> Rc<List<usize>> {
    let mut l = List::Nil;
    for n in ns.iter().rev() {
        l = List::Cons(*n, Rc::new(l));
    }
    Rc::new(l)
}

fn fields<T>(fs: Vec<(&str, T)>) -> FieldList<T> {
    let mut l = List::Nil;
    for (name, value) in fs.into_iter().rev() {
        l = List::Cons(Field { name: name.to_string(), value }, Rc::new(l));
    }
    FieldList { list: Rc::new(l) }
}

fn pair(x: i128, y: i128) -> CTerm {
    let ty = Ty::Struct(
        Some("pair".to_string()),
        fields(vec![("x", signed()), ("y", signed())]),
    );
    cterm(CTermData::CStruct(ty, fields(vec![("x", word(x)), ("y", word(y))])))
}

fn literal(number: &str, size: IntegerSize, unsigned: bool) -> Constant {
    Constant::Integer(Integer { number: number.to_string(), size, unsigned })
}

fn num(n: i64) -> Expression {
    Expression::Constant(literal(&n.to_string(), IntegerSize::Int, false))
}

fn spec(t: TypeSpecifier) -> DeclarationSpecifier {
    DeclarationSpecifier::TypeSpecifier(t)
}

fn array_of(n: i64) -> DerivedDeclarator {
    DerivedDeclarator::Array(ArraySize::VariableExpression(Box::new(num(n))))
}

fn named(name: &str, derived: Vec<DerivedDeclarator>) -> Declarator {
    Declarator { kind: DeclaratorKind::Identifier(name.to_string()), derived }
}

fn value_of(t: &CTerm) -> Option<Value> {
    t.simple_term().unwrap().get_constant()
}

// Types.

#[test]
fn specifiers_make_a_type() {
    let mut g = gen();
    assert_eq!(g.d_type_(&[spec(TypeSpecifier::Void)]), Ok(None));
    assert_eq!(g.d_type_(&[spec(TypeSpecifier::Int)]), Ok(Some(signed())));
    assert_eq!(g.d_type_(&[spec(TypeSpecifier::Long)]), Ok(Some(signed())));
    assert_eq!(g.d_type_(&[spec(TypeSpecifier::Bool)]), Ok(Some(Ty::Bool)));
    assert_eq!(
        g.d_type_(&[spec(TypeSpecifier::Unsigned), spec(TypeSpecifier::Int)]),
        Ok(Some(Ty::Int(false, 32)))
    );
    assert_eq!(
        g.d_type_(&[spec(TypeSpecifier::Bool), spec(TypeSpecifier::Int)]),
        Err(CError::Fault(Reason::MixedSpecifiers))
    );
    assert_eq!(g.d_type_(&[]), Err(CError::Fault(Reason::EmptySpecifiers)));
    assert_eq!(
        g.d_type_(&[DeclarationSpecifier::StorageClass]),
        Err(CError::Fault(Reason::Unsupported))
    );
    assert_eq!(
        g.s_type_(&[SpecifierQualifier::TypeSpecifier(TypeSpecifier::Unsigned)]),
        Ok(Some(Ty::Int(false, 32)))
    );
    assert_eq!(g.s_type_(&[]), Err(CError::Fault(Reason::EmptySpecifiers)));
    assert_eq!(
        g.s_type_(&[SpecifierQualifier::Other]),
        Err(CError::Fault(Reason::Unsupported))
    );
}

#[test]
fn nameless_structures_are_not_remembered() {
    let mut g = gen();
    let s = |name: Option<&str>| {
        TypeSpecifier::Struct(Box::new(StructType {
            identifier: name.map(|n| n.to_string()),
            declarations: None,
        }))
    };
    let none = g.type_(&s(None)).unwrap();
    assert_eq!(none, Some(Ty::Struct(None, fields(vec![]))));
    assert!(g.structs.get("").is_none());
    g.type_(&s(Some("t"))).unwrap();
    assert!(g.structs.get("t").is_some());
}

#[test]
fn arrays_of_arrays_are_flat() {
    let mut g = gen();
    let mut base = signed();
    let ty = g.get_derived_type(&mut base, &[array_of(2), array_of(3)]).unwrap();
    assert_eq!(ty, Ty::Array(6, sizes(&[3, 2]), Rc::new(signed())));
    assert_eq!(base, ty);
    assert_eq!(ty.num_bits(), Some(192));
    let mut pointer = signed();
    let ty = g.get_derived_type(&mut pointer, &[DerivedDeclarator::Pointer]).unwrap();
    assert_eq!(ty, Ty::Ptr(32, Rc::new(signed())));
    let mut same = Ty::Bool;
    assert_eq!(g.get_derived_type(&mut same, &[]), Ok(Ty::Bool));
    let mut other = signed();
    assert_eq!(
        g.get_derived_type(&mut other, &[DerivedDeclarator::Other]),
        Err(CError::Fault(Reason::Unsupported))
    );
}

#[test]
fn array_sizes_that_overflow() {
    let mut g = gen();
    let mut base = signed();
    let r = g.get_derived_type(&mut base, &[array_of(2), array_of(-1)]);
    assert_eq!(r, Err(CError::Fault(Reason::Overflow)));
}

#[test]
fn declarations_declare_names_with_types() {
    let mut g = gen();
    let d = Declaration {
        specifiers: vec![spec(TypeSpecifier::Int)],
        declarators: vec![
            InitDeclarator { declarator: named("x", vec![array_of(2)]), initializer: None },
            InitDeclarator { declarator: named("y", vec![]), initializer: None },
        ],
    };
    let infos = g.get_decl_info(&d).unwrap();
    let two = Ty::Array(2, sizes(&[2]), Rc::new(signed()));
    assert_eq!(infos.len(), 2);
    assert_eq!((infos[0].name.as_str(), &infos[0].ty), ("x", &two));
    assert_eq!((infos[1].name.as_str(), &infos[1].ty), ("y", &two));
    let void = Declaration { specifiers: vec![spec(TypeSpecifier::Void)], declarators: vec![] };
    assert_eq!(g.get_decl_info(&void), Err(CError::Fault(Reason::MissingType)));
}

#[test]
fn functions_and_their_parameters() {
    let mut g = gen();
    let p = || ParameterDeclaration {
        specifiers: vec![spec(TypeSpecifier::Unsigned)],
        declarator: Some(named("n", vec![])),
    };
    let info = g.get_param_info(&p(), false).unwrap();
    assert_eq!(info.name, "n");
    assert_eq!(info.ty, Ty::Int(false, 32));
    assert_eq!(info.vis, None);
    let f = FunctionDefinition {
        specifiers: vec![spec(TypeSpecifier::Bool)],
        declarator: named("f", vec![DerivedDeclarator::Function(Rc::new(vec![p()]))]),
        statement: Rc::new(Statement::Compound(vec![])),
    };
    let info = g.get_fn_info(&f).unwrap();
    assert_eq!(info.name, "f");
    assert_eq!(info.ret_ty, Some(Ty::Bool));
    assert_eq!(info.args.unwrap().len(), 1);
    let no_list = FunctionDefinition {
        specifiers: vec![spec(TypeSpecifier::Void)],
        declarator: named("g", vec![]),
        statement: Rc::new(Statement::Compound(vec![])),
    };
    let info = g.get_fn_info(&no_list).unwrap();
    assert_eq!(info.ret_ty, None);
    assert!(info.args.is_none());
}

// Fields, places and arrays.

#[test]
fn field_store_then_select() {
    let g = gen();
    let p = pair(1, 2);
    let q = g.field_store(&p, &"y".to_string(), &word(9)).unwrap();
    assert_eq!(g.field_select(&q, &"y".to_string()), Ok(word(9)));
    assert_eq!(g.field_select(&q, &"x".to_string()), Ok(word(1)));
    assert_eq!(g.field_select(&p, &"y".to_string()), Ok(word(2)));
    assert_eq!(
        g.field_store(&p, &"z".to_string(), &word(9)),
        Err(CError::Reject(Reason::NoField("z".to_string())))
    );
    assert_eq!(
        g.field_store(&word(1), &"x".to_string(), &word(9)),
        Err(CError::Reject(Reason::NotStruct(word(1))))
    );
}

#[test]
fn rebuilding_sets_a_place() {
    let mut g = gen();
    let outer = cterm(CTermData::CStruct(
        Ty::Struct(None, fields(vec![])),
        fields(vec![("p", pair(1, 2)), ("n", word(3))]),
    ));
    let place = CLoc::Member(
        Box::new(CLoc::Member(
            Box::new(CLoc::Var(Loc { name: "v".to_string() })),
            "y".to_string(),
        )),
        "p".to_string(),
    );
    let r = g.rebuild_lval(&outer, &place, word(7)).unwrap();
    let p = g.field_select(&r, &"p".to_string()).unwrap();
    assert_eq!(g.field_select(&p, &"y".to_string()), Ok(word(7)));
    assert_eq!(g.field_select(&p, &"x".to_string()), Ok(word(1)));
    assert_eq!(g.field_select(&r, &"n".to_string()), Ok(word(3)));
    assert_eq!(place.loc().name, "v");
    assert_eq!(g.base_loc(place), CLoc::Var(Loc { name: "v".to_string() }));
}

#[test]
fn array_store_then_select() {
    let mut g = gen();
    let ty = Ty::Array(3, sizes(&[3]), Rc::new(signed()));
    let a = g.circ.default(&ty).unwrap();
    assert_eq!(g.array_store(&a, &word(1), &word(5)), Ok(word(5)));
    let read = g.array_select(&a, &word(1)).unwrap();
    assert!(matches!(read.term, CTermData::CInt(true, 32, _)));
    assert_eq!(g.circ.allocs.len(), 1);
    assert_eq!(g.circ.allocs[0].size, 3);
    assert_eq!(g.circ.allocs[0].addr_width, 32);
    assert_eq!(g.circ.allocs[0].val_width, 32);
    assert_eq!(g.array_store(&a, &word(0), &pair(8, 9)), Ok(a.clone()));
    let unknown = cterm(CTermData::CArray(Ty::Array(3, sizes(&[3]), Rc::new(signed())), None));
    assert_eq!(
        g.array_select(&unknown, &word(0)),
        Err(CError::Fault(Reason::UnknownAlloc(None)))
    );
    let gone = cterm(CTermData::CArray(ty, Some(8)));
    assert_eq!(
        g.array_store(&gone, &word(0), &word(1)),
        Err(CError::Fault(Reason::UnknownAlloc(Some(8))))
    );
    let odd = cterm(CTermData::CArray(Ty::Bool, Some(0)));
    assert_eq!(
        g.array_select(&odd, &word(0)),
        Err(CError::Fault(Reason::NotIndexable(Ty::Bool)))
    );
    assert_eq!(
        g.array_select(&word(1), &word(0)),
        Err(CError::Reject(Reason::CannotSelect(word(1), word(0))))
    );
    assert_eq!(
        g.array_store(&word(1), &word(0), &word(2)),
        Err(CError::Reject(Reason::CannotStore(word(1), word(0))))
    );
}

#[test]
fn offsets_are_row_major() {
    let g = gen();
    let base = cterm(CTermData::CArray(
        Ty::Array(24, sizes(&[4, 3, 2]), Rc::new(signed())),
        Some(0),
    ));
    for i in 0..2 {
        for j in 0..3 {
            for k in 0..4 {
                let index = IndexTerm {
                    base: base.clone(),
                    indices: vec![word(i), word(j), word(k)],
                };
                let at = g.index_offset(&index).unwrap();
                let expected = wrap_to((i * 3 + j) * 4 + k, 32);
                assert_eq!(at.get_constant(), Some(Value::Bv(32, expected)));
            }
        }
    }
    let large = cterm(CTermData::CArray(
        Ty::Array(0, sizes(&[1 << 20, 1 << 20]), Rc::new(signed())),
        Some(0),
    ));
    let index = IndexTerm { base: large, indices: vec![word(0), word(0)] };
    assert_eq!(g.index_offset(&index), Err(CError::Fault(Reason::Overflow)));
}

#[test]
fn array_initializers_store_their_elements() {
    let mut g = gen();
    let ty = Ty::Array(2, sizes(&[2]), Rc::new(signed()));
    let list = Initializer::List(vec![
        Initializer::Expression(Box::new(num(4))),
        Initializer::Expression(Box::new(num(5))),
    ]);
    let a = g.gen_init(&ty, &list).unwrap();
    assert!(matches!(a.term, CTermData::CArray(_, Some(0))));
    let scalar = Initializer::Expression(Box::new(num(6)));
    assert_eq!(g.gen_init(&signed(), &scalar), Ok(word(6)));
}

// Constants and operators.

#[test]
fn integer_literals() {
    let g = gen();
    let of = |n: &str, s: IntegerSize, u: bool| g.const_(&literal(n, s, u));
    assert_eq!(of("42", IntegerSize::Int, false), Ok(word(42)));
    assert_eq!(
        of("4294967295", IntegerSize::Int, true),
        Ok(cterm(CTermData::CInt(false, 32, bv_lit(4294967295, 32))))
    );
    assert_eq!(
        of("9223372036854775807", IntegerSize::Long, false),
        Ok(cterm(CTermData::CInt(true, 64, bv_lit(i64::MAX as i128, 64))))
    );
    assert_eq!(
        of("18446744073709551615", IntegerSize::Long, true),
        Ok(cterm(CTermData::CInt(false, 64, bv_lit(u64::MAX as i128, 64))))
    );
    let bad = |n: &str| Err(CError::Fault(Reason::BadNumber(n.to_string())));
    assert_eq!(of("2147483648", IntegerSize::Int, false), bad("2147483648"));
    assert_eq!(of("4294967296", IntegerSize::Int, true), bad("4294967296"));
    assert_eq!(of("9223372036854775808", IntegerSize::Long, false), bad("9223372036854775808"));
    assert_eq!(of("18446744073709551616", IntegerSize::Long, true), bad("18446744073709551616"));
    assert_eq!(of("1f", IntegerSize::Int, false), bad("1f"));
    assert_eq!(of("", IntegerSize::Int, false), bad(""));
    assert_eq!(
        of("1", IntegerSize::LongLong, false),
        Err(CError::Fault(Reason::Unsupported))
    );
    assert_eq!(g.const_(&Constant::Other), Err(CError::Fault(Reason::Unsupported)));
}

#[test]
fn numbers_from_text() {
    assert_eq!(parse_number("0012", false), Some(12));
    assert_eq!(parse_number("+7", false), Some(7));
    assert_eq!(parse_number("-7", true), Some(-7));
    assert_eq!(parse_number("-7", false), None);
    assert_eq!(parse_number("-", true), None);
    assert_eq!(parse_number("+", true), None);
    assert_eq!(parse_number(" 7", true), None);
    assert_eq!(parse_number("18446744073709551615", true), Some(u64::MAX as i128));
    assert_eq!(parse_number("18446744073709551616", true), None);
}

#[test]
fn folding_to_a_number() {
    let g = gen();
    let sum = mk_op(Op::BvAdd, bv_lit(3, 32), bv_lit(-5, 32));
    assert_eq!(g.fold_(&cint(sum)), Ok(-2));
    let input = Term::new(Node::Input(0, Sort::Bv(32)));
    assert!(matches!(
        g.fold_(&cint(input.clone())),
        Err(CError::Fault(Reason::NotConstant(_)))
    ));
    let wide = cterm(CTermData::CInt(true, 64, bv_lit(1 << 40, 64)));
    assert_eq!(g.fold_(&wide), Err(CError::Fault(Reason::NotI32)));
    assert!(matches!(g.fold_(&pair(1, 2)), Err(CError::Fault(Reason::NotScalar(_)))));
    let never = mk_op(Op::And, bool_lit(false), mk_not(mk_op(Op::Eq, input.clone(), input.clone())));
    assert_eq!(fold(&never), bool_lit(false));
    assert_eq!(fold(&input), input);
}

#[test]
fn operators_of_the_language() {
    let g = gen();
    assert_eq!(g.get_bin_op(BinaryOperator::Plus), Ok(COp::Add));
    assert_eq!(g.get_bin_op(BinaryOperator::AssignPlus), Ok(COp::Add));
    assert_eq!(g.get_bin_op(BinaryOperator::AssignDivide), Ok(COp::Div));
    assert_eq!(g.get_bin_op(BinaryOperator::Less), Ok(COp::Ult));
    assert_eq!(
        g.get_bin_op(BinaryOperator::Assign),
        Err(CError::Fault(Reason::Unsupported))
    );
    assert_eq!(g.get_u_op(UnaryOperator::PostIncrement), Ok(COp::Add));
    assert_eq!(g.get_u_op(UnaryOperator::PostDecrement), Ok(COp::Sub));
    assert_eq!(
        g.get_u_op(UnaryOperator::Negate),
        Err(CError::Fault(Reason::Unsupported))
    );
}

#[test]
fn operators_on_values() {
    let of = |op: COp, a: i128, b: i128| value_of(&apply_op(op, word(a), word(b)).unwrap());
    let bv = |n: i128| Some(Value::Bv(32, wrap_to(n, 32)));
    assert_eq!(of(COp::Add, 0x7fff_ffff, 1), bv(0x8000_0000));
    assert_eq!(of(COp::Sub, 3, 5), bv(-2));
    assert_eq!(of(COp::Mul, 1 << 20, 1 << 20), bv(0));
    assert_eq!(of(COp::Div, 7, 0), bv(-1));
    assert_eq!(of(COp::Rem, 7, 0), bv(7));
    assert_eq!(of(COp::Shl, 3, 4), bv(48));
    assert_eq!(of(COp::Shr, -1, 28), bv(15));
    assert_eq!(of(COp::Shl, 3, 32), bv(0));
    assert_eq!(of(COp::Ult, 1, -1), Some(Value::Bool(true)));
    assert_eq!(of(COp::Ugt, 1, -1), Some(Value::Bool(false)));
    assert_eq!(of(COp::Neq, 1, 2), Some(Value::Bool(true)));
    assert_eq!(of(COp::And, 2, 4), Some(Value::Bool(true)));
    assert_eq!(of(COp::Or, 0, 0), Some(Value::Bool(false)));
    let long = cterm(CTermData::CInt(true, 64, bv_lit(1 << 40, 64)));
    let sum = apply_op(COp::Add, word(-1), long).unwrap();
    assert_eq!(sum.term.type_(), Ty::Int(true, 64));
    assert_eq!(value_of(&sum), Some(Value::Bv(64, (1 << 40) - 1)));
    let truth = cterm(CTermData::CBool(bool_lit(true)));
    assert_eq!(value_of(&apply_op(COp::Add, truth, word(1)).unwrap()), bv(2));
    assert!(matches!(
        apply_op(COp::Add, pair(1, 2), word(1)),
        Err(CError::Reject(Reason::BadOperands(COp::Add, _, _)))
    ));
}

#[test]
fn conversions() {
    let to = |ty: Ty, t: CTerm| value_of(&cast(Some(ty), t).unwrap());
    assert_eq!(to(Ty::Int(true, 64), word(-1)), Some(Value::Bv(64, u64::MAX)));
    let unsigned = || cterm(CTermData::CInt(false, 32, bv_lit(-1, 32)));
    assert_eq!(to(Ty::Int(true, 64), unsigned()), Some(Value::Bv(64, 0xffff_ffff)));
    assert_eq!(to(Ty::Int(false, 8), word(0x1ff)), Some(Value::Bv(8, 0xff)));
    assert_eq!(to(Ty::Bool, word(2)), Some(Value::Bool(true)));
    assert_eq!(to(Ty::Bool, word(0)), Some(Value::Bool(false)));
    assert_eq!(to(Ty::Int(true, 32), cfalse()), Some(Value::Bv(32, 0)));
    assert_eq!(
        cast(None, word(1)),
        Err(CError::Fault(Reason::BadCast(word(1), None)))
    );
}

#[test]
fn wrapping_and_signs() {
    assert_eq!(wrap_to(-1, 32), 0xffff_ffff);
    assert_eq!(wrap_to(1 << 32, 32), 0);
    assert_eq!(wrap_to(-1, 100), u64::MAX);
    assert_eq!(signed_value(32, 0x8000_0000), i32::MIN as i128);
    assert_eq!(signed_value(32, 0x7fff_ffff), i32::MAX as i128);
    assert_eq!(signed_value(64, u64::MAX), -1);
    assert_eq!(signed_value(0, 0), 0);
}

#[test]
fn terms_carry_sorts_and_constants() {
    let t = mk_op(Op::BvUlt, bv_lit(1, 32), bv_lit(2, 32));
    assert_eq!(t.get_sort(), Sort::Bool);
    assert_eq!(t.get_constant(), Some(Value::Bool(true)));
    let a = Term::new(Node::ZeroArray(4, 32, 8));
    assert_eq!(a.get_sort(), Sort::Array(32, 8));
    let s = Term::new(Node::Select(a, bv_lit(0, 32)));
    assert_eq!(s.get_sort(), Sort::Bv(8));
    assert_eq!(s.get_constant(), None);
}

// Loops.

#[test]
fn round_counts() {
    assert_eq!(trip_count(0, 10, 1), 10);
    assert_eq!(trip_count(0, 10, 3), 4);
    assert_eq!(trip_count(10, 0, -3), 4);
    assert_eq!(trip_count(0, -10, 1), -10);
    assert_eq!(trip_count(5, 5, 7), 0);
}

#[test]
fn round_counts_have_single_precision() {
    assert_eq!(trip_count(0, 16777217, 1), 16777216);
    assert_eq!(trip_count(0, i32::MAX, 1), i32::MAX);
    assert_eq!(trip_count(i32::MIN, i32::MAX, 1), i32::MAX);
    assert_eq!(trip_count(i32::MAX, i32::MIN, 1), i32::MIN);
    assert_eq!(trip_count(0, 5, 0), i32::MAX);
    assert_eq!(trip_count(0, -5, 0), i32::MIN);
    assert_eq!(trip_count(5, 5, 0), 0);
    let samples = [
        (1, 33554435, 2),
        (-7, 123456789, 1000),
        (3, 1 << 30, 7),
        (2, 100000001, -3),
        (0, 1, 16777219),
        (-2147483647, 2147483647, 65537),
    ];
    for (start, end, step) in samples {
        let expected = ((end as f32 - start as f32) / (step as f32)).ceil() as i32;
        assert_eq!(trip_count(start, end, step), expected);
    }
}

#[test]
fn round_counts_agree_with_single_precision() {
    let mut state: u64 = 88172645463325252;
    let mut next = || {
        state ^= state << 13;
        state ^= state >> 7;
        state ^= state << 17;
        let bits = (state >> 59) as u32;
        ((state as u32) >> (bits % 32)) as i32
    };
    for _ in 0..200000 {
        let (start, end, step) = (next(), next(), next());
        for (a, b, c) in [(start, end, step), (start, -(end / 2), step / 2), (end, start, -(step / 2))] {
            let expected = ((b as f32 - a as f32) / (c as f32)).ceil() as i32;
            assert_eq!(trip_count(a, b, c), expected, "{} {} {}", a, b, c);
        }
    }
}

// The circuit.

#[test]
fn statements_outside_functions() {
    let mut g = gen();
    let no_frame = Err(CError::Fault(Reason::NoFrame));
    assert_eq!(g.gen_stmt(&Statement::Return(None)), no_frame);
    let mut c = Circify::new();
    assert_eq!(c.enter_scope(), no_frame);
    assert_eq!(c.exit_scope(), no_frame);
    assert_eq!(c.exit_condition(), no_frame);
    assert_eq!(c.enter_condition(bool_lit(true)), no_frame);
    assert_eq!(c.exit_fn(), Err(CError::Fault(Reason::NoFrame)));
    assert!(matches!(
        c.enter_condition(bv_lit(1, 32)),
        Err(CError::Reject(Reason::NotBoolean(_)))
    ));
}

#[test]
fn assignment_merges_by_the_condition() {
    let mut c = Circify::new();
    let x = "x".to_string();
    c.enter_fn("f".to_string(), Some(signed()));
    c.declare_init(&x, signed(), word(1)).unwrap();
    c.enter_condition(bool_lit(false)).unwrap();
    c.assign(&x, word(2)).unwrap();
    assert_eq!(value_of(&c.get_value(&x).unwrap()), Some(Value::Bv(32, 1)));
    c.exit_condition().unwrap();
    c.assign(&x, word(3)).unwrap();
    assert_eq!(value_of(&c.get_value(&x).unwrap()), Some(Value::Bv(32, 3)));
    c.return_(Some(word(4))).unwrap();
    c.assign(&x, word(5)).unwrap();
    assert_eq!(value_of(&c.get_value(&x).unwrap()), Some(Value::Bv(32, 3)));
    c.return_(Some(word(6))).unwrap();
    let r = c.exit_fn().unwrap().unwrap();
    assert_eq!(value_of(&r), Some(Value::Bv(32, 4)));
}

#[test]
fn scopes_hide_and_restore() {
    let mut c = Circify::new();
    let x = "x".to_string();
    c.enter_fn("f".to_string(), None);
    c.declare_init(&x, signed(), word(1)).unwrap();
    c.enter_scope().unwrap();
    c.declare_init(&x, signed(), word(2)).unwrap();
    assert_eq!(c.get_value(&x), Ok(word(2)));
    c.exit_scope().unwrap();
    assert_eq!(c.get_value(&x), Ok(word(1)));
    assert_eq!(c.exit_fn(), Ok(None));
    assert_eq!(c.get_value(&x), Err(CError::Reject(Reason::NoVariable("x".to_string()))));
}

#[test]
fn merging_values() {
    let t = ite(&bool_lit(true), &pair(1, 2), &pair(3, 4)).unwrap();
    let g = gen();
    let x = g.field_select(&t, &"x".to_string()).unwrap();
    assert_eq!(value_of(&x), Some(Value::Bv(32, 1)));
    let long = cterm(CTermData::CInt(true, 64, bv_lit(1, 64)));
    assert!(matches!(
        ite(&bool_lit(true), &word(1), &long),
        Err(CError::Fault(Reason::BadMerge(_, _)))
    ));
}

#[test]
fn inputs_of_a_structure() {
    let mut c = Circify::new();
    c.enter_fn("main".to_string(), None);
    let ty = Ty::Struct(
        None,
        fields(vec![
            ("b", Ty::Bool),
            ("m", Ty::Array(2, sizes(&[2]), Rc::new(Ty::Int(false, 8)))),
        ]),
    );
    c.declare_input(&"s".to_string(), &ty, Some(1)).unwrap();
    let sorts: Vec<Sort> = c.inputs.iter().map(|i| i.sort).collect();
    assert_eq!(sorts, vec![Sort::Bool, Sort::Bv(8), Sort::Bv(8)]);
    assert!(c.inputs.iter().all(|i| i.name == "s" && i.vis == Some(1)));
    assert_eq!(c.terms_of(&c.get_value(&"s".to_string()).unwrap()).unwrap().len(), 3);
    let pointer = Ty::Ptr(32, Rc::new(signed()));
    assert!(matches!(
        c.declare_input(&"p".to_string(), &pointer, None),
        Err(CError::Fault(Reason::NotAnInput(_)))
    ));
}

// Containers.

#[test]
fn tables_and_fields() {
    let mut t: Table<u8> = Table::new();
    t.insert("a".to_string(), 1);
    t.insert("b".to_string(), 2);
    t.insert("a".to_string(), 3);
    assert_eq!(t.get("a"), Some(&3));
    assert_eq!(t.get("b"), Some(&2));
    assert_eq!(t.get("c"), None);
    let fs = fields(vec![("x", 1u8), ("y", 2u8)]);
    assert_eq!(fs.search(&"y".to_string()), Some(&2));
    assert_eq!(fs.search(&"z".to_string()), None);
    assert!(fs.has_len(2) && !fs.has_len(1) && !fs.has_len(3));
    assert!(fields::<u8>(vec![]).has_len(0));
}

#[test]
fn sizes_of_types() {
    assert_eq!(Ty::Bool.num_bits(), Some(1));
    assert_eq!(Ty::Array(0, sizes(&[0]), Rc::new(signed())).num_bits(), Some(0));
    let huge = Ty::Array(usize::MAX, sizes(&[usize::MAX]), Rc::new(signed()));
    assert_eq!(huge.num_bits(), None);
    assert_eq!(signed().inner_ty(), None);
    assert_eq!(Ty::Ptr(32, Rc::new(Ty::Bool)).inner_ty(), Some(Ty::Bool));
    let ty = Ty::Struct(None, fields(vec![("x", signed()), ("y", Ty::Bool)]));
    assert_eq!(ty.num_bits(), Some(33));
}

#[test]
fn reading_changes_nothing() {
    let mut g = gen();
    let ty = Ty::Array(2, sizes(&[2]), Rc::new(signed()));
    let a = g.circ.default(&ty).unwrap();
    g.circ.declare_init(&"m".to_string(), ty, a).unwrap();
    let before = format!("{:?}", g.circ);
    let e = Expression::BinaryOperator(Box::new(BinaryOperatorExpression {
        operator: BinaryOperator::Index,
        lhs: Expression::Identifier("m".to_string()),
        rhs: num(1),
    }));
    let v = g.gen_expr(&e).unwrap();
    assert_eq!(v.term.type_(), signed());
    assert_eq!(format!("{:?}", g.circ), before);
    assert_eq!(
        g.gen_lval(&e),
        Ok(CLoc::Idx(
            Box::new(CLoc::Var(Loc { name: "m".to_string() })),
            cint(mk_op(Op::BvAdd, bv_lit(1, 32), bv_lit(0, 32))),
        ))
    );
}

#[test]
fn leaving_a_scope_restores_the_circuit() {
    let mut c = Circify::new();
    c.enter_fn("f".to_string(), None);
    let before = format!("{:?}", c);
    c.enter_scope().unwrap();
    c.declare_init(&"x".to_string(), signed(), word(1)).unwrap();
    c.exit_scope().unwrap();
    assert_eq!(format!("{:?}", c), before);
}

#[test]
fn copies_of_indices() {
    let index = IndexTerm { base: word(1), indices: vec![word(2), word(3)] };
    let copy = index.clone();
    assert_eq!(copy.base, index.base);
    assert_eq!(copy.indices, index.indices);
}

#[test]
fn few_indices_give_a_place() {
    let mut g = gen();
    let ty = Ty::Array(24, sizes(&[4, 3, 2]), Rc::new(signed()));
    let a = g.circ.default(&ty).unwrap();
    g.circ.declare_init(&"m".to_string(), ty, a).unwrap();
    let e = Expression::BinaryOperator(Box::new(BinaryOperatorExpression {
        operator: BinaryOperator::Index,
        lhs: Expression::Identifier("m".to_string()),
        rhs: num(1),
    }));
    let v = g.gen_expr(&e).unwrap();
    match v.term {
        CTermData::CStackPtr(ty, at, id) => {
            assert_eq!(ty, Ty::Array(24, sizes(&[4, 3]), Rc::new(signed())));
            assert_eq!(at.get_constant(), Some(Value::Bv(32, 1)));
            assert_eq!(id, Some(0));
        }
        other => panic!("no place: {:?}", other),
    }
}

#[test]
fn merged_integers_are_signed_where_both_are() {
    let unsigned = || cterm(CTermData::CInt(false, 32, bv_lit(7, 32)));
    let sign = |t: &CTerm, f: &CTerm| ite(&bool_lit(true), t, f).unwrap().term.type_();
    assert_eq!(sign(&word(1), &word(2)), Ty::Int(true, 32));
    assert_eq!(sign(&word(1), &unsigned()), Ty::Int(false, 32));
    assert_eq!(sign(&unsigned(), &word(1)), Ty::Int(false, 32));
    assert_eq!(sign(&unsigned(), &unsigned()), Ty::Int(false, 32));
}

fn with_pair() -> CGen {
    let mut g = gen();
    let p = pair(1, 2);
    let ty = Ty::Array(2, sizes(&[2]), Rc::new(signed()));
    let a = g.circ.default(&ty).unwrap();
    g.circ.declare_init(&"p".to_string(), p.term.type_(), p).unwrap();
    g.circ.declare_init(&"n".to_string(), signed(), word(3)).unwrap();
    g.circ.declare_init(&"m".to_string(), ty, a).unwrap();
    g
}

fn variable(name: &str) -> Box<CLoc> {
    Box::new(CLoc::Var(Loc { name: name.to_string() }))
}

#[test]
fn refused_assignments_change_nothing() {
    let mut g = with_pair();
    let before = format!("{:?}", g.circ);
    let no_field = CLoc::Member(variable("p"), "z".to_string());
    assert_eq!(
        g.gen_assign(no_field, word(9)),
        Err(CError::Reject(Reason::NoField("z".to_string())))
    );
    let no_variable = CLoc::Member(variable("q"), "x".to_string());
    assert_eq!(
        g.gen_assign(no_variable, word(9)),
        Err(CError::Reject(Reason::NoVariable("q".to_string())))
    );
    let no_structure = CLoc::Member(variable("n"), "x".to_string());
    assert_eq!(
        g.gen_assign(no_structure, word(9)),
        Err(CError::Reject(Reason::NotStruct(word(3))))
    );
    assert_eq!(
        g.gen_assign(CLoc::Idx(variable("n"), word(0)), word(9)),
        Err(CError::Reject(Reason::CannotStore(word(3), word(0))))
    );
    let long = cterm(CTermData::CInt(true, 64, bv_lit(1, 64)));
    assert!(matches!(
        g.gen_assign(CLoc::Var(Loc { name: "n".to_string() }), long),
        Err(CError::Fault(Reason::BadMerge(_, _)))
    ));
    let place = CLoc::Member(variable("p"), "z".to_string());
    assert!(g.rebuild_lval(&pair(1, 2), &place, word(9)).is_err());
    assert!(g.rebuild_lval(&word(1), &CLoc::Idx(variable("n"), word(0)), word(9)).is_err());
    assert_eq!(format!("{:?}", g.circ), before);
}

#[test]
fn assigning_to_an_element_is_storing_to_the_array() {
    let mut g = with_pair();
    let mut h = with_pair();
    let m = h.circ.get_value(&"m".to_string()).unwrap();
    let assigned = g.gen_assign(CLoc::Idx(variable("m"), word(1)), word(9));
    let stored = h.array_store(&m, &word(1), &word(9));
    assert_eq!(assigned, stored);
    assert_eq!(format!("{:?}", g.circ), format!("{:?}", h.circ));
    assert_eq!(g.circ.get_value(&"m".to_string()), Ok(m));
}

#[test]
fn messages() {
    let text = |r: Reason| r.message().unwrap();
    let name = || "x".to_string();
    assert_eq!(text(Reason::NoField(name())), "No field 'x'");
    assert_eq!(text(Reason::NoFunction(name())), "No function 'x'");
    assert_eq!(text(Reason::NoTypedef(name())), "Typedef not defined: x");
    assert_eq!(text(Reason::UnknownType(name())), "Unknown type: x");
    assert_eq!(text(Reason::TypedefRedefined(name())), "Typedef already defined for: x");
    assert_eq!(text(Reason::NoVariable(name())), "No variable 'x'");
    assert_eq!(text(Reason::Redeclared(name())), "Variable 'x' already declared");
    assert_eq!(text(Reason::BadNumber(name())), "Bad number: x");
    assert_eq!(text(Reason::MissingArraySize), "Derived type not array");
    assert_eq!(Reason::Overflow.message(), None);
    let (a, b) = ("A".to_string(), "B".to_string());
    let around = |r: Reason| r.message_around(&a, &b).unwrap();
    assert_eq!(around(Reason::NotStruct(word(1))), "A is not a struct");
    assert_eq!(
        around(Reason::CannotSelect(word(1), word(2))),
        "[Array Select] cannot index A by B"
    );
    assert_eq!(
        around(Reason::CannotStore(word(1), word(2))),
        "[Array Store] cannot index A by B"
    );
    assert_eq!(around(Reason::UnknownAlloc(None)), "Unknown AllocID: A");
    assert_eq!(Reason::Overflow.message_around(&a, &b), None);
}
