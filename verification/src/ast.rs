//! The syntax trees that the front end reads: of each construct, the parts that decide what is
//! generated. A construct that the front end does not know stands as `Other`.
use std::rc::Rc;

use vstd::prelude::*;

verus! {

#[derive(Debug, Clone, Copy, PartialEq, Eq, Structural)]
pub enum BinaryOperator {
    Index,
    Multiply,
    Divide,
    Modulo,
    Plus,
    Minus,
    ShiftLeft,
    ShiftRight,
    Less,
    Greater,
    LessOrEqual,
    GreaterOrEqual,
    Equals,
    NotEquals,
    BitwiseAnd,
    BitwiseXor,
    BitwiseOr,
    LogicalAnd,
    LogicalOr,
    Assign,
    AssignMultiply,
    AssignDivide,
    AssignModulo,
    AssignPlus,
    AssignMinus,
    AssignShiftLeft,
    AssignShiftRight,
    AssignBitwiseAnd,
    AssignBitwiseXor,
    AssignBitwiseOr,
}

#[derive(Debug, Clone, Copy, PartialEq, Eq, Structural)]
pub enum UnaryOperator {
    PostIncrement,
    PostDecrement,
    PreIncrement,
    PreDecrement,
    Address,
    Indirection,
    Plus,
    Minus,
    Complement,
    Negate,
    SizeOf,
}

#[derive(Debug, Clone, Copy, PartialEq, Eq, Structural)]
pub enum IntegerSize {
    Int,
    Long,
    LongLong,
}

/// An integer literal: its digits and its suffix.
#[derive(Debug, PartialEq, Eq)]
pub struct Integer {
    pub number: String,
    pub size: IntegerSize,
    pub unsigned: bool,
}

#[derive(Debug, PartialEq, Eq)]
pub enum Constant {
    Integer(Integer),
    Other,
}

#[derive(Debug, PartialEq, Eq)]
pub enum Expression {
    Identifier(String),
    Constant(Constant),
    Member(Box<MemberExpression>),
    Call(Box<CallExpression>),
    SizeOf(Box<TypeName>),
    UnaryOperator(Box<UnaryOperatorExpression>),
    Cast(Box<CastExpression>),
    BinaryOperator(Box<BinaryOperatorExpression>),
    Other,
}

#[derive(Debug, PartialEq, Eq)]
pub struct MemberExpression {
    pub expression: Expression,
    pub identifier: String,
}

#[derive(Debug, PartialEq, Eq)]
pub struct CallExpression {
    pub callee: Expression,
    pub arguments: Vec<Expression>,
}

#[derive(Debug, PartialEq, Eq)]
pub struct UnaryOperatorExpression {
    pub operator: UnaryOperator,
    pub operand: Expression,
}

#[derive(Debug, PartialEq, Eq)]
pub struct CastExpression {
    pub target: TypeName,
    pub expression: Expression,
}

#[derive(Debug, PartialEq, Eq)]
pub struct BinaryOperatorExpression {
    pub operator: BinaryOperator,
    pub lhs: Expression,
    pub rhs: Expression,
}

#[derive(Debug, PartialEq, Eq)]
pub struct TypeName {
    pub specifiers: Vec<SpecifierQualifier>,
}

#[derive(Debug, PartialEq, Eq)]
pub enum SpecifierQualifier {
    TypeSpecifier(TypeSpecifier),
    Other,
}

#[derive(Debug, PartialEq, Eq)]
pub enum TypeSpecifier {
    Void,
    Int,
    Unsigned,
    Long,
    Bool,
    TypedefName(String),
    Struct(Box<StructType>),
    Other,
}

#[derive(Debug, PartialEq, Eq)]
pub struct StructType {
    pub identifier: Option<String>,
    pub declarations: Option<Vec<StructDeclaration>>,
}

#[derive(Debug, PartialEq, Eq)]
pub enum StructDeclaration {
    Field(StructField),
    StaticAssert,
}

#[derive(Debug, PartialEq, Eq)]
pub struct StructField {
    pub specifiers: Vec<SpecifierQualifier>,
    pub declarators: Vec<StructDeclarator>,
}

#[derive(Debug, PartialEq, Eq)]
pub struct StructDeclarator {
    pub declarator: Option<Declarator>,
}

#[derive(Debug, PartialEq, Eq)]
pub enum DeclaratorKind {
    Identifier(String),
    Other,
}

#[derive(Debug, PartialEq, Eq)]
pub struct Declarator {
    pub kind: DeclaratorKind,
    pub derived: Vec<DerivedDeclarator>,
}

#[derive(Debug, PartialEq, Eq)]
pub enum DerivedDeclarator {
    Pointer,
    Array(ArraySize),
    Function(Rc<Vec<ParameterDeclaration>>),
    Other,
}

#[derive(Debug, PartialEq, Eq)]
pub enum ArraySize {
    VariableExpression(Box<Expression>),
    Other,
}

#[derive(Debug, PartialEq, Eq)]
pub struct ParameterDeclaration {
    pub specifiers: Vec<DeclarationSpecifier>,
    pub declarator: Option<Declarator>,
}

#[derive(Debug, PartialEq, Eq)]
pub enum DeclarationSpecifier {
    StorageClass,
    TypeSpecifier(TypeSpecifier),
    Extension(Vec<Extension>),
    Other,
}

#[derive(Debug, PartialEq, Eq)]
pub enum Extension {
    Attribute(Attribute),
    Other,
}

#[derive(Debug, PartialEq, Eq)]
pub struct Attribute {
    pub name: String,
    pub arguments: Vec<Expression>,
}

#[derive(Debug, PartialEq, Eq)]
pub struct Declaration {
    pub specifiers: Vec<DeclarationSpecifier>,
    pub declarators: Vec<InitDeclarator>,
}

#[derive(Debug, PartialEq, Eq)]
pub struct InitDeclarator {
    pub declarator: Declarator,
    pub initializer: Option<Initializer>,
}

#[derive(Debug, PartialEq, Eq)]
pub enum Initializer {
    Expression(Box<Expression>),
    List(Vec<Initializer>),
}

#[derive(Debug, PartialEq, Eq)]
pub enum Statement {
    Compound(Vec<BlockItem>),
    Expression(Option<Box<Expression>>),
    If(Box<IfStatement>),
    For(Box<ForStatement>),
    Return(Option<Box<Expression>>),
    Other,
}

#[derive(Debug, PartialEq, Eq)]
pub struct IfStatement {
    pub condition: Expression,
    pub then_statement: Statement,
    pub else_statement: Option<Statement>,
}

#[derive(Debug, PartialEq, Eq)]
pub struct ForStatement {
    pub initializer: ForInitializer,
    pub condition: Option<Expression>,
    pub step: Option<Expression>,
    pub statement: Statement,
}

#[derive(Debug, PartialEq, Eq)]
pub enum ForInitializer {
    Expression(Expression),
    Declaration(Declaration),
    Other,
}

#[derive(Debug, PartialEq, Eq)]
pub enum BlockItem {
    Declaration(Declaration),
    Statement(Statement),
    StaticAssert,
}

#[derive(Debug, PartialEq, Eq)]
pub struct FunctionDefinition {
    pub specifiers: Vec<DeclarationSpecifier>,
    pub declarator: Declarator,
    pub statement: Rc<Statement>,
}

#[derive(Debug, PartialEq, Eq)]
pub enum ExternalDeclaration {
    Declaration(Declaration),
    FunctionDefinition(FunctionDefinition),
    Other,
}

#[derive(Debug, PartialEq, Eq)]
pub struct TranslationUnit {
    pub nodes: Vec<ExternalDeclaration>,
}

} // verus!
