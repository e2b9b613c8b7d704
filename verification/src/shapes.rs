//! What declarations declare: types and their parts, names, functions and parties.
use std::rc::Rc;

use vstd::arithmetic::div_mod::lemma_fundamental_div_mod;
use vstd::arithmetic::div_mod::lemma_fundamental_div_mod_converse;
use vstd::arithmetic::div_mod::lemma_mod_multiples_basic;
use vstd::arithmetic::div_mod::lemma_small_mod;
use vstd::arithmetic::power2::lemma2_to64;
use vstd::arithmetic::power2::lemma2_to64_rest;
use vstd::prelude::*;

use crate::ast::ArraySize;
use crate::ast::BlockItem;
use crate::ast::Constant;
use crate::ast::Declaration;
use crate::ast::DeclarationSpecifier;
use crate::ast::DeclaratorKind;
use crate::ast::DerivedDeclarator;
use crate::ast::Expression;
use crate::ast::Extension;
use crate::ast::ExternalDeclaration;
use crate::ast::FunctionDefinition;
use crate::ast::InitDeclarator;
use crate::ast::Initializer;
use crate::ast::ParameterDeclaration;
use crate::ast::SpecifierQualifier;
use crate::ast::Statement;
use crate::ast::StructDeclaration;
use crate::ast::StructDeclarator;
use crate::ast::StructField;
use crate::ast::StructType;
use crate::ast::TypeSpecifier;
use crate::circ::PartyId;
use crate::cterm::cast_to;
use crate::cterm::CTerm;
use crate::error::CError;
use crate::error::Reason;
use crate::flow::is_literal;
use crate::flow::law_declared_variable_is_seen;
use crate::ir::lemma_of;
use crate::ir::lit_bv;
use crate::ir::wrap;
use crate::ir::Node;
use crate::ir::Value;
use crate::laws::product;
use crate::list::lemma_push_seq;
use crate::list::shared;
use crate::list::List;
use crate::number::number;
use crate::runs::keyword;
use crate::translate::array_of;
use crate::translate::array_value;
use crate::translate::as_size;
use crate::translate::block;
use crate::translate::compressed;
use crate::translate::d_type;
use crate::translate::d_types;
use crate::translate::decl;
use crate::translate::decl_info;
use crate::translate::declarators_info;
use crate::translate::declarators_type;
use crate::translate::declared_type;
use crate::translate::derived;
use crate::translate::derived_once;
use crate::translate::entry_params;
use crate::translate::expr;
use crate::translate::exprs;
use crate::translate::field_declarators;
use crate::translate::fields_of;
use crate::translate::fn_args;
use crate::translate::fn_info;
use crate::translate::folded_i32;
use crate::translate::init;
use crate::translate::initial;
use crate::translate::leaves;
use crate::translate::leaves_from;
use crate::translate::list_onto;
use crate::translate::low_i32;
use crate::translate::param;
use crate::translate::s_type;
use crate::translate::s_types;
use crate::translate::stmt;
use crate::translate::struct_fields;
use crate::translate::struct_type;
use crate::translate::type_of;
use crate::translate::typedefs_from;
use crate::translate::variables_from;
use crate::translate::visibility;
use crate::translate::visited;
use crate::translate::DeclInfo;
use crate::translate::GenState;
use crate::translate::Mode;
use crate::translate::ParamInfo;
use crate::translate::Step;
use crate::types::Field;
use crate::types::Ty;
use crate::values::lemma_wrap;

verus! {

/// What comes behind a step: the next one from where it leads, or its error.
pub open spec fn followed<T, U>(r: Step<T>, next: spec_fn(T, GenState) -> Step<U>) -> Step<U> {
    match r {
        Ok((v, st)) => next(v, st),
        Err(e) => Err(e),
    }
}

// ---------------------------------------------------------------------------------------------
// One after the other
// ---------------------------------------------------------------------------------------------

proof fn lemma_block_tail(depth: nat, st: GenState, a: Seq<BlockItem>, b: Seq<BlockItem>, j: nat)
    ensures
        block(depth, st, a + b, a.len() + j) == block(depth, st, b, j),
    decreases b.len() - j,
{
    if j < b.len() {
        assert((a + b)[a.len() + j as int] == b[j as int]);
        match b[j as int] {
            BlockItem::Declaration(d) => {
                if decl(depth, st, d) is Ok {
                    lemma_block_tail(depth, decl(depth, st, d)->Ok_0.1, a, b, j + 1);
                }
            },
            BlockItem::Statement(s) => {
                if stmt(depth, st, s) is Ok {
                    lemma_block_tail(depth, stmt(depth, st, s)->Ok_0.1, a, b, j + 1);
                }
            },
            BlockItem::StaticAssert => {},
        }
    }
}

proof fn lemma_block_head(depth: nat, st: GenState, a: Seq<BlockItem>, b: Seq<BlockItem>, i: nat)
    requires
        i <= a.len(),
    ensures
        block(depth, st, a + b, i) == followed(
            block(depth, st, a, i),
            |v: (), s: GenState| block(depth, s, b, 0),
        ),
    decreases a.len() - i,
{
    if i < a.len() {
        assert((a + b)[i as int] == a[i as int]);
        match a[i as int] {
            BlockItem::Declaration(d) => {
                if decl(depth, st, d) is Ok {
                    lemma_block_head(depth, decl(depth, st, d)->Ok_0.1, a, b, i + 1);
                }
            },
            BlockItem::Statement(s) => {
                if stmt(depth, st, s) is Ok {
                    lemma_block_head(depth, stmt(depth, st, s)->Ok_0.1, a, b, i + 1);
                }
            },
            BlockItem::StaticAssert => {},
        }
    } else {
        lemma_block_tail(depth, st, a, b, 0);
    }
}

/// A block is its items one after the other: what stands in front is translated first, and what
/// follows from where that leads.
pub proof fn law_block_goes_on(depth: nat, st: GenState, a: Seq<BlockItem>, b: Seq<BlockItem>)
    ensures
        block(depth, st, a + b, 0) == followed(
            block(depth, st, a, 0),
            |v: (), s: GenState| block(depth, s, b, 0),
        ),
{
    lemma_block_head(depth, st, a, b, 0);
}

/// A block of one statement is that statement.
#[verifier::spinoff_prover]
pub proof fn law_block_of_one_statement(depth: nat, st: GenState, s: Statement)
    ensures
        block(depth, st, seq![BlockItem::Statement(s)], 0) == stmt(depth, st, s),
{
    let items = seq![BlockItem::Statement(s)];
    assert(items[0] == BlockItem::Statement(s));
    match stmt(depth, st, s) {
        Err(_) => {},
        Ok((v, after)) => {
            assert(v == ());
            assert(block(depth, after, items, 1) == Ok::<((), GenState), CError>(((), after)));
        },
    }
}

/// A block of one declaration is that declaration.
#[verifier::spinoff_prover]
pub proof fn law_block_of_one_declaration(depth: nat, st: GenState, d: Declaration)
    ensures
        block(depth, st, seq![BlockItem::Declaration(d)], 0) == followed(
            decl(depth, st, d),
            |v: Seq<CTerm>, s: GenState| Ok(((), s)),
        ),
{
    let items = seq![BlockItem::Declaration(d)];
    assert(items[0] == BlockItem::Declaration(d));
    let r = decl(depth, st, d);
    if r is Ok {
        let after = r->Ok_0.1;
        assert(block(depth, after, items, 1) == Ok::<((), GenState), CError>(((), after)));
    }
}

proof fn lemma_leaves_tail(
    depth: nat,
    st: GenState,
    a: Seq<Initializer>,
    b: Seq<Initializer>,
    j: nat,
    acc: Seq<CTerm>,
)
    ensures
        leaves_from(depth, st, a + b, a.len() + j, acc) == leaves_from(depth, st, b, j, acc),
    decreases b.len() - j,
{
    if j < b.len() {
        assert((a + b)[a.len() + j as int] == b[j as int]);
        let r = leaves(depth, st, b[j as int], acc);
        if r is Ok {
            let (vs, s) = r->Ok_0;
            lemma_leaves_tail(depth, s, a, b, j + 1, vs);
        }
    }
}

proof fn lemma_leaves_head(
    depth: nat,
    st: GenState,
    a: Seq<Initializer>,
    b: Seq<Initializer>,
    i: nat,
    acc: Seq<CTerm>,
)
    requires
        i <= a.len(),
    ensures
        leaves_from(depth, st, a + b, i, acc) == followed(
            leaves_from(depth, st, a, i, acc),
            |vs: Seq<CTerm>, s: GenState| leaves_from(depth, s, b, 0, vs),
        ),
    decreases a.len() - i,
{
    if i < a.len() {
        assert((a + b)[i as int] == a[i as int]);
        let r = leaves(depth, st, a[i as int], acc);
        if r is Ok {
            let (vs, s) = r->Ok_0;
            lemma_leaves_head(depth, s, a, b, i + 1, vs);
        }
    } else {
        lemma_leaves_tail(depth, st, a, b, 0, acc);
    }
}

/// The values in a list of initializers are those of its front, and then those of the rest.
pub proof fn law_initializers_go_on(
    depth: nat,
    st: GenState,
    a: Seq<Initializer>,
    b: Seq<Initializer>,
    acc: Seq<CTerm>,
)
    ensures
        leaves_from(depth, st, a + b, 0, acc) == followed(
            leaves_from(depth, st, a, 0, acc),
            |vs: Seq<CTerm>, s: GenState| leaves_from(depth, s, b, 0, vs),
        ),
{
    lemma_leaves_head(depth, st, a, b, 0, acc);
}

/// The value of one initializer comes behind those in front; a list in a list counts as its
/// elements.
pub proof fn law_initializer_of_one(depth: nat, st: GenState, i: Initializer, acc: Seq<CTerm>)
    ensures
        match i {
            Initializer::Expression(e) => leaves_from(depth, st, seq![i], 0, acc) == followed(
                expr(depth, st, *e),
                |v: CTerm, s: GenState| Ok((acc.push(v), s)),
            ),
            Initializer::List(l) => leaves_from(depth, st, seq![i], 0, acc) == leaves_from(
                depth,
                st,
                l@,
                0,
                acc,
            ),
        },
{
    reveal_with_fuel(leaves_from, 2);
    assert(seq![i][0] == i);
    assert(leaves_from(depth, st, seq![i], 0, acc) == leaves(depth, st, i, acc));
}

proof fn lemma_struct_tail(
    depth: nat,
    st: GenState,
    a: Seq<StructDeclaration>,
    b: Seq<StructDeclaration>,
    j: nat,
    acc: Seq<Field<Ty>>,
)
    ensures
        struct_fields(depth, st, a + b, a.len() + j, acc) == struct_fields(depth, st, b, j, acc),
    decreases b.len() - j,
{
    if j < b.len() {
        assert((a + b)[a.len() + j as int] == b[j as int]);
        match b[j as int] {
            StructDeclaration::Field(f) => match s_type(depth, st, f.specifiers@) {
                Ok((Some(base), s)) => {
                    let r = field_declarators(depth, s, base, f.declarators@, 0, acc);
                    if r is Ok {
                        let (fs, u) = r->Ok_0;
                        lemma_struct_tail(depth, u, a, b, j + 1, fs);
                    }
                },
                _ => {},
            },
            StructDeclaration::StaticAssert => {},
        }
    }
}

proof fn lemma_struct_head(
    depth: nat,
    st: GenState,
    a: Seq<StructDeclaration>,
    b: Seq<StructDeclaration>,
    i: nat,
    acc: Seq<Field<Ty>>,
)
    requires
        i <= a.len(),
    ensures
        struct_fields(depth, st, a + b, i, acc) == followed(
            struct_fields(depth, st, a, i, acc),
            |fs: Seq<Field<Ty>>, s: GenState| struct_fields(depth, s, b, 0, fs),
        ),
    decreases a.len() - i,
{
    if i < a.len() {
        assert((a + b)[i as int] == a[i as int]);
        match a[i as int] {
            StructDeclaration::Field(f) => match s_type(depth, st, f.specifiers@) {
                Ok((Some(base), s)) => {
                    let r = field_declarators(depth, s, base, f.declarators@, 0, acc);
                    if r is Ok {
                        let (fs, u) = r->Ok_0;
                        lemma_struct_head(depth, u, a, b, i + 1, fs);
                    }
                },
                _ => {},
            },
            StructDeclaration::StaticAssert => {},
        }
    } else {
        lemma_struct_tail(depth, st, a, b, 0, acc);
    }
}

/// The fields of a structure are those of its first declarations, and then those of the rest.
pub proof fn law_structure_goes_on(
    depth: nat,
    st: GenState,
    a: Seq<StructDeclaration>,
    b: Seq<StructDeclaration>,
    acc: Seq<Field<Ty>>,
)
    ensures
        struct_fields(depth, st, a + b, 0, acc) == followed(
            struct_fields(depth, st, a, 0, acc),
            |fs: Seq<Field<Ty>>, s: GenState| struct_fields(depth, s, b, 0, fs),
        ),
{
    lemma_struct_head(depth, st, a, b, 0, acc);
}

proof fn lemma_visited_tail(
    depth: nat,
    st: GenState,
    a: Seq<ExternalDeclaration>,
    b: Seq<ExternalDeclaration>,
    j: nat,
)
    ensures
        visited(depth, st, a + b, a.len() + j) == visited(depth, st, b, j),
    decreases b.len() - j,
{
    if j < b.len() {
        assert((a + b)[a.len() + j as int] == b[j as int]);
        match b[j as int] {
            ExternalDeclaration::Declaration(d) => {
                if decl(depth, st, d) is Ok {
                    lemma_visited_tail(depth, decl(depth, st, d)->Ok_0.1, a, b, j + 1);
                }
            },
            ExternalDeclaration::FunctionDefinition(f) => {
                if fn_info(depth, st, f) is Ok {
                    let (info, s) = fn_info(depth, st, f)->Ok_0;
                    let u = GenState { functions: s.functions.insert(info.name@, info), ..s };
                    lemma_visited_tail(depth, u, a, b, j + 1);
                }
            },
            ExternalDeclaration::Other => {},
        }
    }
}

proof fn lemma_visited_head(
    depth: nat,
    st: GenState,
    a: Seq<ExternalDeclaration>,
    b: Seq<ExternalDeclaration>,
    i: nat,
)
    requires
        i <= a.len(),
    ensures
        visited(depth, st, a + b, i) == followed(
            visited(depth, st, a, i),
            |v: (), s: GenState| visited(depth, s, b, 0),
        ),
    decreases a.len() - i,
{
    if i < a.len() {
        assert((a + b)[i as int] == a[i as int]);
        match a[i as int] {
            ExternalDeclaration::Declaration(d) => {
                if decl(depth, st, d) is Ok {
                    lemma_visited_head(depth, decl(depth, st, d)->Ok_0.1, a, b, i + 1);
                }
            },
            ExternalDeclaration::FunctionDefinition(f) => {
                if fn_info(depth, st, f) is Ok {
                    let (info, s) = fn_info(depth, st, f)->Ok_0;
                    let u = GenState { functions: s.functions.insert(info.name@, info), ..s };
                    lemma_visited_head(depth, u, a, b, i + 1);
                }
            },
            ExternalDeclaration::Other => {},
        }
    } else {
        lemma_visited_tail(depth, st, a, b, 0);
    }
}

/// A program is its declarations one after the other.
pub proof fn law_program_goes_on(
    depth: nat,
    st: GenState,
    a: Seq<ExternalDeclaration>,
    b: Seq<ExternalDeclaration>,
)
    ensures
        visited(depth, st, a + b, 0) == followed(
            visited(depth, st, a, 0),
            |v: (), s: GenState| visited(depth, s, b, 0),
        ),
{
    lemma_visited_head(depth, st, a, b, 0);
}

/// A function definition makes a function of its name known, with its return type, its parameters
/// and its body, in place of one of the same name; the others are as before.
pub proof fn law_definition_makes_a_function(
    depth: nat,
    st: GenState,
    f: FunctionDefinition,
    name: String,
    other: Seq<char>,
)
    requires
        f.declarator.kind == DeclaratorKind::Identifier(name),
    ensures
        ({
            let r = visited(depth, st, seq![ExternalDeclaration::FunctionDefinition(f)], 0);
            &&& r is Ok <==> d_type(depth, st, f.specifiers@, 0) is Ok
            &&& r matches Ok((_, after)) ==> {
                let (ret_ty, typed) = d_type(depth, st, f.specifiers@, 0)->Ok_0;
                &&& after.functions.dom().contains(name@)
                &&& after.functions[name@].name == name
                &&& after.functions[name@].ret_ty == ret_ty
                &&& after.functions[name@].body == f.statement
                &&& is_parameter_list(f.declarator.derived@, after.functions[name@].args)
                &&& other != name@ ==> after.functions.dom().contains(other)
                    == typed.functions.dom().contains(other) && after.functions[other]
                    == typed.functions[other]
                &&& after.circ == typed.circ
                &&& after.typedefs == typed.typedefs
                &&& after.structs == typed.structs
            }
        }),
{
    let e = ExternalDeclaration::FunctionDefinition(f);
    reveal_with_fuel(visited, 2);
    assert(seq![e][0] == e);
    lemma_fn_args(f.declarator.derived@, 0);
}

/// Whether the parameters are those of the first parameter list among the derivations; none where
/// there is none.
pub open spec fn is_parameter_list(
    ds: Seq<DerivedDeclarator>,
    args: Option<Rc<Vec<ParameterDeclaration>>>,
) -> bool {
    match args {
        Some(ps) => exists|i: int|
            0 <= i < ds.len() && #[trigger] ds[i] == DerivedDeclarator::Function(ps) && forall|
                j: int,
            |
                0 <= j < i ==> !(#[trigger] ds[j] is Function),
        None => forall|j: int| 0 <= j < ds.len() ==> !(#[trigger] ds[j] is Function),
    }
}

proof fn lemma_fn_args(ds: Seq<DerivedDeclarator>, i: nat)
    requires
        forall|j: int| 0 <= j < i && j < ds.len() ==> !(#[trigger] ds[j] is Function),
    ensures
        is_parameter_list(ds, fn_args(ds, i)),
    decreases ds.len() - i,
{
    if i < ds.len() {
        match ds[i as int] {
            DerivedDeclarator::Function(ps) => {
                assert(ds[i as int] == DerivedDeclarator::Function(ps));
            },
            _ => lemma_fn_args(ds, i + 1),
        }
    }
}

proof fn lemma_entry_tail(
    depth: nat,
    st: GenState,
    a: Seq<ParameterDeclaration>,
    b: Seq<ParameterDeclaration>,
    j: nat,
)
    ensures
        entry_params(depth, st, a + b, a.len() + j) == entry_params(depth, st, b, j),
    decreases b.len() - j,
{
    if j < b.len() {
        assert((a + b)[a.len() + j as int] == b[j as int]);
        if param(depth, st, b[j as int], true) is Ok {
            let (p, s) = param(depth, st, b[j as int], true)->Ok_0;
            let r = s.lift(s.circ.declared_input(p.name, p.ty, p.vis));
            if r is Ok {
                lemma_entry_tail(depth, r->Ok_0.1, a, b, j + 1);
            }
        }
    }
}

proof fn lemma_entry_head(
    depth: nat,
    st: GenState,
    a: Seq<ParameterDeclaration>,
    b: Seq<ParameterDeclaration>,
    i: nat,
)
    requires
        i <= a.len(),
    ensures
        entry_params(depth, st, a + b, i) == followed(
            entry_params(depth, st, a, i),
            |v: (), s: GenState| entry_params(depth, s, b, 0),
        ),
    decreases a.len() - i,
{
    if i < a.len() {
        assert((a + b)[i as int] == a[i as int]);
        if param(depth, st, a[i as int], true) is Ok {
            let (p, s) = param(depth, st, a[i as int], true)->Ok_0;
            let r = s.lift(s.circ.declared_input(p.name, p.ty, p.vis));
            if r is Ok {
                lemma_entry_head(depth, r->Ok_0.1, a, b, i + 1);
            }
        }
    } else {
        lemma_entry_tail(depth, st, a, b, 0);
    }
}

/// The parameters of the entry function become inputs one after the other.
pub proof fn law_entry_parameters_go_on(
    depth: nat,
    st: GenState,
    a: Seq<ParameterDeclaration>,
    b: Seq<ParameterDeclaration>,
)
    ensures
        entry_params(depth, st, a + b, 0) == followed(
            entry_params(depth, st, a, 0),
            |v: (), s: GenState| entry_params(depth, s, b, 0),
        ),
{
    lemma_entry_head(depth, st, a, b, 0);
}

/// A parameter of the entry function becomes an input of its name, its type and its party.
pub proof fn law_entry_parameter_becomes_an_input(
    depth: nat,
    st: GenState,
    p: ParameterDeclaration,
)
    ensures
        entry_params(depth, st, seq![p], 0) == followed(
            param(depth, st, p, true),
            |i: ParamInfo, s: GenState|
                followed(
                    s.lift(s.circ.declared_input(i.name, i.ty, i.vis)),
                    |v: CTerm, u: GenState| Ok(((), u)),
                ),
        ),
        param(depth, st, p, true) matches Ok((i, _)) ==> {
            &&& p.specifiers@.len() > 0
            &&& visibility(p.specifiers@[0], st.mode) == Ok::<Option<PartyId>, CError>(i.vis)
            &&& p.declarator matches Some(d) && d.kind == DeclaratorKind::Identifier(i.name)
        },
{
    reveal_with_fuel(entry_params, 2);
    assert(seq![p][0] == p);
}

/// Which party knows a parameter: none where it is `public`; where it is `private`, in a
/// multi-party computation the one whose number is the argument, and in a proof the prover.
/// Anything else is refused.
pub proof fn law_visibility(d: DeclarationSpecifier, mode: Mode)
    ensures
        visibility(d, mode) is Ok ==> d is Extension && d->Extension_0@.len() == 1
            && d->Extension_0@[0] is Attribute && ({
            let a = d->Extension_0@[0]->Attribute_0;
            ||| a.name@ == "public"@
            ||| a.name@ == "private"@ && (mode is Mpc || mode is Proof)
        }),
        d is Extension && d->Extension_0@.len() == 1 && d->Extension_0@[0] is Attribute ==> ({
            let a = d->Extension_0@[0]->Attribute_0;
            &&& a.name@ == "public"@ ==> visibility(d, mode) == Ok::<Option<PartyId>, CError>(None)
            &&& a.name@ == "private"@ ==> match mode {
                Mode::Mpc(last) => forall|p: PartyId|
                    visibility(d, mode) == Ok::<Option<PartyId>, CError>(Some(p)) <==> (
                    #[trigger] names_party(a.arguments@, p) && p <= last),
                Mode::Proof => visibility(d, mode) == Ok::<Option<PartyId>, CError>(Some(0u8)),
                _ => true,
            }
        }),
{
    reveal_strlit("public");
    reveal_strlit("private");
    assert("public"@.len() != "private"@.len());
}

/// Whether the arguments of an attribute are the number of a party.
pub open spec fn names_party(args: Seq<Expression>, p: PartyId) -> bool {
    args.len() == 1 && (args[0] matches Expression::Constant(Constant::Integer(i)) && number(
        i.number@,
        false,
    ) == Some(p as int))
}

// ---------------------------------------------------------------------------------------------
// Types
// ---------------------------------------------------------------------------------------------

/// Whether a specifier is a keyword of a type or a type name.
pub open spec fn is_named_type(t: TypeSpecifier) -> bool {
    t is TypedefName || keyword(t) is Some
}

/// What a specifier stands for: the type of a keyword, or what a type name was defined as.
pub open spec fn named_type(st: GenState, t: TypeSpecifier) -> Option<Ty> {
    match t {
        TypeSpecifier::TypedefName(name) => if st.typedefs.dom().contains(name@) {
            Some(st.typedefs[name@])
        } else {
            None
        },
        _ => keyword(t),
    }
}

/// A declaration with several specifiers takes all of them into account, in order.
pub proof fn law_specifiers_are_all_read(
    depth: nat,
    st: GenState,
    ds: Seq<DeclarationSpecifier>,
    i: nat,
    acc: Seq<Option<Ty>>,
)
    requires
        i <= ds.len(),
        forall|j: int|
            i <= j < ds.len() ==> ((#[trigger] ds[j]) matches DeclarationSpecifier::TypeSpecifier(t)
                && is_named_type(t) && named_type(st, t) is Some),
    ensures
        d_types(depth, st, ds, i, acc) matches Ok((ts, after)) && {
            &&& after == st
            &&& ts.len() == acc.len() + ds.len() - i
            &&& ts.take(acc.len() as int) == acc
            &&& forall|j: int|
                i <= j < ds.len() ==> ts[acc.len() + j - i] == named_type(
                    st,
                    (#[trigger] ds[j])->TypeSpecifier_0,
                )
        },
    decreases ds.len() - i,
{
    if i < ds.len() {
        let t = ds[i as int]->TypeSpecifier_0;
        let ty = named_type(st, t);
        assert(ds[i as int] == DeclarationSpecifier::TypeSpecifier(t));
        assert(type_of(depth, st, t) == Ok::<(Option<Ty>, GenState), CError>((ty, st)));
        law_specifiers_are_all_read(depth, st, ds, i + 1, acc.push(ty));
        let ts = d_types(depth, st, ds, i + 1, acc.push(ty))->Ok_0.0;
        let k = acc.len() as int;
        assert(d_types(depth, st, ds, i, acc) == d_types(depth, st, ds, i + 1, acc.push(ty)));
        assert(ts[k] == ts.take(k + 1)[k]);
        assert(ts.take(k) =~= ts.take(k + 1).take(k));
        assert(acc =~= acc.push(ty).take(k));
    } else {
        assert(acc.take(acc.len() as int) =~= acc);
    }
}

/// The list of fields has the fields in order.
pub proof fn law_fields_are_in_order<T>(s: Seq<Field<T>>)
    ensures
        fields_of(s).list.seq() == s,
{
    lemma_list_onto(s, List::Nil);
    assert(s + Seq::<Field<T>>::empty() =~= s);
}

proof fn lemma_list_onto<T>(s: Seq<T>, tail: List<T>)
    ensures
        list_onto(s, tail).seq() == s + tail.seq(),
    decreases s.len(),
{
    if s.len() > 0 {
        let t = List::Cons(s.last(), Rc::new(tail));
        lemma_list_onto(s.drop_last(), t);
        assert(t.seq() =~= seq![s.last()] + tail.seq());
        assert(s.drop_last() + (seq![s.last()] + tail.seq()) =~= s + tail.seq());
    } else {
        assert(s + tail.seq() =~= tail.seq());
    }
}

/// A field declared by a keyword and a plain name has that name and that type, and comes behind
/// those in front.
pub proof fn law_field_has_its_type(
    depth: nat,
    st: GenState,
    f: StructField,
    t: TypeSpecifier,
    name: String,
    acc: Seq<Field<Ty>>,
)
    requires
        f.specifiers@ == seq![SpecifierQualifier::TypeSpecifier(t)],
        is_named_type(t),
        f.declarators@.len() == 1,
        f.declarators@[0].declarator matches Some(d) && d.kind == DeclaratorKind::Identifier(name)
            && d.derived@.len() == 0,
    ensures
        match named_type(st, t) {
            Some(ty) => struct_fields(depth, st, seq![StructDeclaration::Field(f)], 0, acc) == Ok::<
                (Seq<Field<Ty>>, GenState),
                CError,
            >((acc.push(Field { name, value: ty }), st)),
            None => struct_fields(depth, st, seq![StructDeclaration::Field(f)], 0, acc) is Err,
        },
{
    let ds = seq![StructDeclaration::Field(f)];
    assert(ds[0] == StructDeclaration::Field(f));
    let ss = f.specifiers@;
    assert(ss[0] == SpecifierQualifier::TypeSpecifier(t));
    reveal_with_fuel(s_types, 3);
    match named_type(st, t) {
        None => {
            assert(type_of(depth, st, t) is Err);
            assert(s_types(depth, st, ss, 0, Seq::empty()) is Err);
            assert(s_type(depth, st, ss) is Err);
        },
        Some(ty) => {
            let ts = Seq::<Option<Ty>>::empty().push(Some(ty));
            assert(type_of(depth, st, t) == Ok::<(Option<Ty>, GenState), CError>((Some(ty), st)));
            assert(s_types(depth, st, ss, 0, Seq::empty()) == Ok::<
                (Seq<Option<Ty>>, GenState),
                CError,
            >((ts, st)));
            assert(compressed(ts) == Ok::<Option<Ty>, CError>(ts[0]));
            assert(s_type(depth, st, ss) == Ok::<(Option<Ty>, GenState), CError>((Some(ty), st)));
            let d = f.declarators@[0].declarator->0;
            assert(derived(depth, st, ty, d.derived@, 0) == Ok::<(Ty, GenState), CError>((ty, st)));
            let fs = acc.push(Field { name, value: ty });
            assert(field_declarators(depth, st, ty, f.declarators@, 1, fs) == Ok::<
                (Seq<Field<Ty>>, GenState),
                CError,
            >((fs, st)));
            assert(struct_fields(depth, st, ds, 1, fs) == Ok::<(Seq<Field<Ty>>, GenState), CError>(
                (fs, st),
            ));
            assert(field_declarators(depth, st, ty, f.declarators@, 0, acc) == Ok::<
                (Seq<Field<Ty>>, GenState),
                CError,
            >((fs, st)));
        },
    }
}

/// A structure has the fields of its declarations, in order, and under its name it is the same type
/// ever after.
pub proof fn law_structure_is_known_by_its_name(depth: nat, st: GenState, s: StructType)
    requires
        struct_type(depth, st, s) is Ok,
    ensures
        ({
            let (ty, after) = struct_type(depth, st, s)->Ok_0;
            &&& ty is Some
            &&& s.identifier matches Some(n) ==> n@.len() > 0 ==> {
                forall|t: StructType|
                    t.identifier == s.identifier ==> #[trigger] struct_type(
                        depth,
                        after,
                        t,
                    ) == Ok::<(Option<Ty>, GenState), CError>((ty, after))
            }
            &&& !(s.identifier matches Some(n) && n@.len() > 0 && st.structs.dom().contains(n@))
                ==> (s.declarations matches Some(ds) ==> (struct_fields(
                depth,
                st,
                ds@,
                0,
                Seq::empty(),
            ) matches Ok((fs, _)) && ty == Some(Ty::Struct(s.identifier, fields_of(fs)))))
        }),
{
}

/// Whether the derivations are arrays of the given sizes, written as literals.
pub open spec fn are_sizes(ds: Seq<DerivedDeclarator>, sizes: Seq<usize>) -> bool {
    ds.len() == sizes.len() && forall|j: int|
        0 <= j < ds.len() ==> ((#[trigger] ds[j]) matches DerivedDeclarator::Array(
            ArraySize::VariableExpression(e),
        ) && is_literal(*e, sizes[j] as int))
}

proof fn lemma_literal_size(depth: nat, st: GenState, e: Expression, n: usize)
    requires
        is_literal(e, n as int),
    ensures
        expr(depth, st, e) matches Ok((v, after)) && after == st && folded_i32(v) == Ok::<
            int,
            CError,
        >(n as int),
{
    let i = e->Constant_0->Integer_0;
    lemma2_to64();
    lemma2_to64_rest();
    let k = number(i.number@, true)->0;
    assert(k % 0x1_0000_0000 == n as int % 0x1_0000_0000);
    lemma_small_mod(n as nat, 0x1_0000_0000);
    if k < 0 {
        lemma_fundamental_div_mod_converse(k, 0x1_0000_0000, -1, k + 0x1_0000_0000);
    } else {
        lemma_small_mod(k as nat, 0x1_0000_0000);
    }
    assert(k == n);
    let t = lit_bv(k, 32);
    lemma_of(Node::Const(Value::Bv(32, wrap(k, 32))));
    lemma_of(Node::Const(t.constant()->0));
    lemma_wrap(k, 32);
}

/// One more dimension.
proof fn lemma_dimension(base: Ty, elem: Ty, done: Seq<usize>, n: usize)
    requires
        !(elem is Array),
        if done.len() == 0 {
            base == elem
        } else {
            base matches Ty::Array(m, l, e) && l.seq() == done && *e == elem && m == product(done)
        },
    ensures
        array_of(base, n) is Ok <==> product(done.push(n)) <= usize::MAX,
        array_of(base, n) matches Ok(ty) ==> (ty matches Ty::Array(m, l, e) && l.seq() == done.push(
            n,
        ) && *e == elem && m == product(done.push(n))),
{
    let more = done.push(n);
    assert(more.drop_last() =~= done);
    assert(more.last() == n);
    match base {
        Ty::Array(m, l, _) => {
            lemma_push_seq(shared(l), n);
            assert(product(more) == product(done) * n);
            assert(n * m == product(done) * n) by (nonlinear_arith)
                requires
                    m == product(done),
            ;
        },
        _ => {
            assert(product(done) == 1);
            assert(product(more) == product(done) * n);
            assert(product(done) * n == n) by (nonlinear_arith)
                requires
                    product(done) == 1,
            ;
            let l = List::Cons(n, Rc::new(List::Nil));
            assert(l.seq() =~= more) by {
                reveal_with_fuel(List::seq, 3);
            }
        },
    }
}

proof fn lemma_dimensions(
    depth: nat,
    st: GenState,
    base: Ty,
    elem: Ty,
    ds: Seq<DerivedDeclarator>,
    sizes: Seq<usize>,
    k: nat,
)
    requires
        are_sizes(ds, sizes),
        k <= ds.len(),
        !(elem is Array),
        forall|j: int|
            0 <= j <= sizes.len() ==> product(#[trigger] sizes.reverse().take(j)) <= usize::MAX,
        ({
            let done = sizes.reverse().take(ds.len() - k);
            if done.len() == 0 {
                base == elem
            } else {
                base matches Ty::Array(m, l, e) && l.seq() == done && *e == elem && m == product(
                    done,
                )
            }
        }),
    ensures
        derived(depth, st, base, ds, k) matches Ok((ty, after)) && after == st && (ds.len() > 0
            ==> (ty matches Ty::Array(m, l, e) && *e == elem && l.seq() == sizes.reverse() && m
            == product(sizes.reverse()))),
    decreases k,
{
    let r = sizes.reverse();
    let done = r.take(ds.len() - k);
    if k > 0 {
        let d = ds[k - 1];
        let e = d->Array_0->VariableExpression_0;
        let n = sizes[k - 1];
        lemma_literal_size(depth, st, *e, n);
        lemma_dimension(base, elem, done, n);
        let more = r.take(ds.len() - k + 1);
        assert(more =~= done.push(n));
        assert(product(r.take(ds.len() - k + 1)) <= usize::MAX);
        let ty = array_of(base, n)->Ok_0;
        assert(as_size(n as int) == n);
        assert(derived_once(depth, st, base, d) == Ok::<(Ty, GenState), CError>((ty, st)));
        lemma_dimensions(depth, st, ty, elem, ds, sizes, (k - 1) as nat);
    } else {
        assert(done =~= r);
    }
}

/// A declarator with sizes written as literals declares an array with these dimensions, the first
/// written being the outermost, as many elements as they make, and elements of the type in front.
pub proof fn law_array_has_its_dimensions(
    depth: nat,
    st: GenState,
    elem: Ty,
    ds: Seq<DerivedDeclarator>,
    sizes: Seq<usize>,
)
    requires
        are_sizes(ds, sizes),
        ds.len() > 0,
        !(elem is Array),
        forall|j: int|
            0 <= j <= sizes.len() ==> product(#[trigger] sizes.reverse().take(j)) <= usize::MAX,
    ensures
        derived(depth, st, elem, ds, ds.len()) matches Ok((ty, after)) && after == st && (ty matches
            Ty::Array(m, l, e) && *e == elem && l.seq() == sizes.reverse() && m == product(
            sizes.reverse(),
        )),
{
    assert(sizes.reverse().take(0).len() == 0);
    lemma_dimensions(depth, st, elem, elem, ds, sizes, ds.len());
}

// ---------------------------------------------------------------------------------------------
// Variables and type names
// ---------------------------------------------------------------------------------------------

/// A declaration of one variable gives it the initial value in its declared type, the zero of the
/// type where there is no initializer; nothing but the initializer changes anything else.
pub proof fn law_declaration_gives_the_initial_value(
    depth: nat,
    st: GenState,
    d: Declaration,
    name: String,
    other: String,
)
    requires
        d.declarators@.len() == 1,
        d.declarators@[0].declarator.kind == DeclaratorKind::Identifier(name),
        !(d.specifiers@[0] is StorageClass),
        decl(depth, st, d) is Ok,
    ensures
        ({
            let (vs, after) = decl(depth, st, d)->Ok_0;
            let i = d.declarators@[0].initializer;
            exists|ty: Ty, typed: GenState|
                #![trigger initial(depth, typed, ty, i)]
                {
                    &&& initial(depth, typed, ty, i) matches Ok((v, made)) && {
                        &&& vs == seq![v]
                        &&& after.circ.get(name) == cast_to(Some(ty), v)
                        &&& after.circ.lookup(name@) matches Some(x) && x.ty == ty
                        &&& other@ != name@ ==> after.circ.get(other) == made.circ.get(other)
                        &&& after.circ.allocs == made.circ.allocs
                    }
                    &&& decl_info(depth, st, d, 0) matches Ok((infos, t)) && infos == seq![
                        DeclInfo { name, ty },
                    ] && t == typed
                }
        }),
{
    let ds = d.declarators@;
    let (base, s1) = d_type(depth, st, d.specifiers@, 0)->Ok_0;
    let (ty0, s2) = declarators_type(depth, s1, base->0, ds, 0)->Ok_0;
    let (ty, typed) = declared_type(s2, name, ty0);
    let info = DeclInfo { name, ty };
    let infos = Seq::<DeclInfo>::empty().push(info);
    assert(declarators_info(typed, ty0, ds, 1, infos) == Ok::<(Seq<DeclInfo>, GenState), CError>(
        (infos, typed),
    ));
    assert(decl_info(depth, st, d, 0) == Ok::<(Seq<DeclInfo>, GenState), CError>((infos, typed)));
    assert(infos =~= seq![info]);
    let i = ds[0].initializer;
    let (v, made) = initial(depth, typed, ty, i)->Ok_0;
    let w = cast_to(Some(ty), v)->Ok_0;
    assert(infos[0] == info);
    let declared = made.lift(made.circ.declared(name, ty, w));
    assert(declared is Ok);
    law_declared_variable_is_seen(made.circ, name, ty, w, other);
    let u = declared->Ok_0.1;
    let all = Seq::<CTerm>::empty().push(v);
    assert(variables_from(depth, u, ds, infos, 1, all) == Ok::<(Seq<CTerm>, GenState), CError>(
        (all, u),
    ));
    assert(all =~= seq![v]);
}

/// A type definition makes the name stand for the type, and leaves all other names alone. A name is
/// not defined twice.
pub proof fn law_typedef_defines_its_name(
    depth: nat,
    st: GenState,
    d: Declaration,
    name: String,
    other: Seq<char>,
)
    requires
        d.declarators@.len() == 1,
        d.declarators@[0].declarator.kind == DeclaratorKind::Identifier(name),
        d.specifiers@[0] is StorageClass,
        decl(depth, st, d) is Ok,
    ensures
        ({
            let after = decl(depth, st, d)->Ok_0.1;
            decl_info(depth, st, d, 1) matches Ok((infos, typed)) && infos.len() == 1
                && infos[0].name == name && {
                &&& type_of(depth, after, TypeSpecifier::TypedefName(name)) == Ok::<
                    (Option<Ty>, GenState),
                    CError,
                >((Some(infos[0].ty), after))
                &&& other != name@ ==> after.typedefs.dom().contains(other)
                    == typed.typedefs.dom().contains(other) && after.typedefs[other]
                    == typed.typedefs[other]
                &&& !typed.typedefs.dom().contains(name@)
                &&& after.circ == typed.circ
            }
        }),
{
    let ds = d.declarators@;
    let (base, s1) = d_type(depth, st, d.specifiers@, 1)->Ok_0;
    let (ty0, s2) = declarators_type(depth, s1, base->0, ds, 0)->Ok_0;
    let (ty, typed) = declared_type(s2, name, ty0);
    let info = DeclInfo { name, ty };
    let infos = Seq::<DeclInfo>::empty().push(info);
    assert(declarators_info(typed, ty0, ds, 1, infos) == Ok::<(Seq<DeclInfo>, GenState), CError>(
        (infos, typed),
    ));
    assert(decl_info(depth, st, d, 1) == Ok::<(Seq<DeclInfo>, GenState), CError>((infos, typed)));
    assert(infos[0] == info);
    let after = GenState { typedefs: typed.typedefs.insert(name@, ty), ..typed };
    assert(typedefs_from(after, infos, 1) == Ok::<((), GenState), CError>(((), after)));
    assert(typedefs_from(typed, infos, 0) is Ok);
}

/// A type with several specifiers in a cast, a `sizeof` or a structure takes all of them into
/// account, in order.
pub proof fn law_qualifiers_are_all_read(
    depth: nat,
    st: GenState,
    ss: Seq<SpecifierQualifier>,
    i: nat,
    acc: Seq<Option<Ty>>,
)
    requires
        i <= ss.len(),
        forall|j: int|
            i <= j < ss.len() ==> ((#[trigger] ss[j]) matches SpecifierQualifier::TypeSpecifier(t)
                && is_named_type(t) && named_type(st, t) is Some),
    ensures
        s_types(depth, st, ss, i, acc) matches Ok((ts, after)) && {
            &&& after == st
            &&& ts.len() == acc.len() + ss.len() - i
            &&& ts.take(acc.len() as int) == acc
            &&& forall|j: int|
                i <= j < ss.len() ==> ts[acc.len() + j - i] == named_type(
                    st,
                    (#[trigger] ss[j])->TypeSpecifier_0,
                )
        },
    decreases ss.len() - i,
{
    if i < ss.len() {
        let t = ss[i as int]->TypeSpecifier_0;
        let ty = named_type(st, t);
        assert(ss[i as int] == SpecifierQualifier::TypeSpecifier(t));
        assert(type_of(depth, st, t) == Ok::<(Option<Ty>, GenState), CError>((ty, st)));
        law_qualifiers_are_all_read(depth, st, ss, i + 1, acc.push(ty));
        let ts = s_types(depth, st, ss, i + 1, acc.push(ty))->Ok_0.0;
        let k = acc.len() as int;
        assert(s_types(depth, st, ss, i, acc) == s_types(depth, st, ss, i + 1, acc.push(ty)));
        assert(ts[k] == ts.take(k + 1)[k]);
        assert(ts.take(k) =~= ts.take(k + 1).take(k));
        assert(acc =~= acc.push(ty).take(k));
    } else {
        assert(acc.take(acc.len() as int) =~= acc);
    }
}

/// Several plain names behind one type make fields of that type, in order.
pub proof fn law_fields_share_their_type(
    depth: nat,
    st: GenState,
    base: Ty,
    ds: Seq<StructDeclarator>,
    i: nat,
    acc: Seq<Field<Ty>>,
)
    requires
        i <= ds.len(),
        forall|j: int|
            i <= j < ds.len() ==> ((#[trigger] ds[j]).declarator matches Some(d) && d.kind
                is Identifier && d.derived@.len() == 0),
    ensures
        field_declarators(depth, st, base, ds, i, acc) matches Ok((fs, after)) && {
            &&& after == st
            &&& fs.len() == acc.len() + ds.len() - i
            &&& fs.take(acc.len() as int) == acc
            &&& forall|j: int|
                i <= j < ds.len() ==> fs[acc.len() + j - i] == (Field {
                    name: (#[trigger] ds[j]).declarator->0.kind->Identifier_0,
                    value: base,
                })
        },
    decreases ds.len() - i,
{
    if i < ds.len() {
        assert(ds[i as int].declarator is Some);
        let d = ds[i as int].declarator->0;
        let f = Field { name: d.kind->Identifier_0, value: base };
        assert(derived(depth, st, base, d.derived@, 0) == Ok::<(Ty, GenState), CError>((base, st)));
        law_fields_share_their_type(depth, st, base, ds, i + 1, acc.push(f));
        let fs = field_declarators(depth, st, base, ds, i + 1, acc.push(f))->Ok_0.0;
        let k = acc.len() as int;
        assert(field_declarators(depth, st, base, ds, i, acc) == field_declarators(
            depth,
            st,
            base,
            ds,
            i + 1,
            acc.push(f),
        ));
        assert(fs[k] == fs.take(k + 1)[k]);
        assert(fs.take(k) =~= fs.take(k + 1).take(k));
        assert(acc =~= acc.push(f).take(k));
    } else {
        assert(acc.take(acc.len() as int) =~= acc);
    }
}

/// A pointer is 32 bits wide and points to the type in front of it.
pub proof fn law_pointer_points_to_its_type(depth: nat, st: GenState, base: Ty)
    ensures
        derived_once(depth, st, base, DerivedDeclarator::Pointer) matches Ok((ty, after)) && after
            == st && ty.inner() == Some(base) && ty.bits() == 32,
{
}

/// The type of a declared name is the type of its declaration, unless that is a structure and a
/// structure of the name of the variable is known, which then is its type.
pub proof fn law_declared_name_has_its_type(st: GenState, name: String, ty: Ty, other: Seq<char>)
    ensures
        ({
            let (t, after) = declared_type(st, name, ty);
            &&& !(ty is Struct) ==> t == ty && after == st
            &&& ty is Struct && !st.structs.dom().contains(name@) ==> t == ty
            &&& ty is Struct ==> after.structs.dom().contains(name@) && after.structs[name@] == t
            &&& ty is Struct && st.structs.dom().contains(name@) ==> after == st
            &&& other != name@ ==> after.structs.dom().contains(other) == st.structs.dom().contains(
                other,
            ) && after.structs[other] == st.structs[other]
            &&& after.circ == st.circ && after.typedefs == st.typedefs && after.functions
                == st.functions && after.mode == st.mode
        }),
{
}

/// A structure with a list of as many initializers as it has fields starts from zero; an array
/// takes the values of its list; nothing else takes a list.
pub proof fn law_list_initializes(depth: nat, st: GenState, ty: Ty, l: Vec<Initializer>)
    ensures
        ({
            let i = Initializer::List(l);
            match ty {
                Ty::Struct(_, fs) => if fs.list.seq().len() == l@.len() {
                    init(depth, st, ty, i) == st.lift(st.circ.zero(ty))
                } else {
                    init(depth, st, ty, i) is Err
                },
                Ty::Array(n, _, t) => init(depth, st, ty, i) == followed(
                    leaves_from(depth, st, l@, 0, Seq::empty()),
                    |vs: Seq<CTerm>, s: GenState| s.lift(array_value(s.circ, ty, n, *t, vs)),
                ),
                _ => init(depth, st, ty, i) is Err,
            }
        }),
{
    let i = Initializer::List(l);
    assert(leaves(depth, st, i, Seq::empty()) == leaves_from(depth, st, l@, 0, Seq::empty()));
}

proof fn lemma_exprs_tail(
    depth: nat,
    st: GenState,
    a: Seq<Expression>,
    b: Seq<Expression>,
    j: nat,
    acc: Seq<CTerm>,
)
    ensures
        exprs(depth, st, a + b, a.len() + j, acc) == exprs(depth, st, b, j, acc),
    decreases b.len() - j,
{
    if j < b.len() {
        assert((a + b)[a.len() + j as int] == b[j as int]);
        let r = expr(depth, st, b[j as int]);
        if r is Ok {
            let (v, s) = r->Ok_0;
            lemma_exprs_tail(depth, s, a, b, j + 1, acc.push(v));
        }
    }
}

proof fn lemma_exprs_head(
    depth: nat,
    st: GenState,
    a: Seq<Expression>,
    b: Seq<Expression>,
    i: nat,
    acc: Seq<CTerm>,
)
    requires
        i <= a.len(),
    ensures
        exprs(depth, st, a + b, i, acc) == followed(
            exprs(depth, st, a, i, acc),
            |vs: Seq<CTerm>, s: GenState| exprs(depth, s, b, 0, vs),
        ),
    decreases a.len() - i,
{
    if i < a.len() {
        assert((a + b)[i as int] == a[i as int]);
        let r = expr(depth, st, a[i as int]);
        if r is Ok {
            let (v, s) = r->Ok_0;
            lemma_exprs_head(depth, s, a, b, i + 1, acc.push(v));
        }
    } else {
        lemma_exprs_tail(depth, st, a, b, 0, acc);
    }
}

/// The arguments of a call are evaluated one after the other, from the first to the last.
pub proof fn law_arguments_go_on(
    depth: nat,
    st: GenState,
    a: Seq<Expression>,
    b: Seq<Expression>,
    acc: Seq<CTerm>,
)
    ensures
        exprs(depth, st, a + b, 0, acc) == followed(
            exprs(depth, st, a, 0, acc),
            |vs: Seq<CTerm>, s: GenState| exprs(depth, s, b, 0, vs),
        ),
{
    lemma_exprs_head(depth, st, a, b, 0, acc);
}

/// The value of an argument comes behind those in front.
pub proof fn law_argument_of_one(depth: nat, st: GenState, e: Expression, acc: Seq<CTerm>)
    ensures
        exprs(depth, st, seq![e], 0, acc) == followed(
            expr(depth, st, e),
            |v: CTerm, s: GenState| Ok((acc.push(v), s)),
        ),
{
    let es = seq![e];
    assert(es[0] == e);
    let r = expr(depth, st, e);
    if r is Ok {
        let (v, s) = r->Ok_0;
        assert(exprs(depth, s, es, 1, acc.push(v)) == Ok::<(Seq<CTerm>, GenState), CError>(
            (acc.push(v), s),
        ));
    }
}

proof fn lemma_variables_tail(
    depth: nat,
    st: GenState,
    a: Seq<InitDeclarator>,
    b: Seq<InitDeclarator>,
    x: Seq<DeclInfo>,
    y: Seq<DeclInfo>,
    j: nat,
    acc: Seq<CTerm>,
)
    requires
        a.len() == x.len(),
    ensures
        variables_from(depth, st, a + b, x + y, a.len() + j, acc) == variables_from(
            depth,
            st,
            b,
            y,
            j,
            acc,
        ),
    decreases b.len() - j,
{
    if j < b.len() && j < y.len() {
        assert((a + b)[a.len() + j as int] == b[j as int]);
        assert((x + y)[a.len() + j as int] == y[j as int]);
        let d = y[j as int];
        match initial(depth, st, d.ty, b[j as int].initializer) {
            Err(_) => {},
            Ok((v, s)) => match cast_to(Some(d.ty), v) {
                Err(_) => {},
                Ok(w) => {
                    let r = s.lift(s.circ.declared(d.name, d.ty, w));
                    if r is Ok {
                        lemma_variables_tail(depth, r->Ok_0.1, a, b, x, y, j + 1, acc.push(v));
                    }
                },
            },
        }
    }
}

proof fn lemma_variables_head(
    depth: nat,
    st: GenState,
    a: Seq<InitDeclarator>,
    b: Seq<InitDeclarator>,
    x: Seq<DeclInfo>,
    y: Seq<DeclInfo>,
    i: nat,
    acc: Seq<CTerm>,
)
    requires
        a.len() == x.len(),
        i <= a.len(),
    ensures
        variables_from(depth, st, a + b, x + y, i, acc) == followed(
            variables_from(depth, st, a, x, i, acc),
            |vs: Seq<CTerm>, s: GenState| variables_from(depth, s, b, y, 0, vs),
        ),
    decreases a.len() - i,
{
    if i < a.len() {
        assert((a + b)[i as int] == a[i as int]);
        assert((x + y)[i as int] == x[i as int]);
        let d = x[i as int];
        match initial(depth, st, d.ty, a[i as int].initializer) {
            Err(_) => {},
            Ok((v, s)) => match cast_to(Some(d.ty), v) {
                Err(_) => {},
                Ok(w) => {
                    let r = s.lift(s.circ.declared(d.name, d.ty, w));
                    if r is Ok {
                        lemma_variables_head(depth, r->Ok_0.1, a, b, x, y, i + 1, acc.push(v));
                    }
                },
            },
        }
    } else {
        lemma_variables_tail(depth, st, a, b, x, y, 0, acc);
    }
}

/// The variables of a declaration are declared one after the other.
pub proof fn law_variables_go_on(
    depth: nat,
    st: GenState,
    a: Seq<InitDeclarator>,
    b: Seq<InitDeclarator>,
    x: Seq<DeclInfo>,
    y: Seq<DeclInfo>,
    acc: Seq<CTerm>,
)
    requires
        a.len() == x.len(),
    ensures
        variables_from(depth, st, a + b, x + y, 0, acc) == followed(
            variables_from(depth, st, a, x, 0, acc),
            |vs: Seq<CTerm>, s: GenState| variables_from(depth, s, b, y, 0, vs),
        ),
{
    lemma_variables_head(depth, st, a, b, x, y, 0, acc);
}

/// The names of a declaration are those of its declarators, in order. Unless it is a structure, all
/// of them have the one type that the declarators derive together.
pub proof fn law_declared_names_are_in_order(
    st: GenState,
    ty: Ty,
    ds: Seq<InitDeclarator>,
    i: nat,
    acc: Seq<DeclInfo>,
)
    requires
        i <= ds.len(),
    ensures
        declarators_info(st, ty, ds, i, acc) is Ok <==> forall|j: int|
            i <= j < ds.len() ==> (#[trigger] ds[j]).declarator.kind is Identifier,
        declarators_info(st, ty, ds, i, acc) matches Ok((infos, after)) ==> {
            &&& infos.len() == acc.len() + ds.len() - i
            &&& infos.take(acc.len() as int) == acc
            &&& after.circ == st.circ
            &&& !(ty is Struct) ==> after == st
            &&& forall|j: int|
                i <= j < ds.len() ==> (#[trigger] ds[j]).declarator.kind
                    == DeclaratorKind::Identifier(infos[acc.len() + j - i].name) && (!(ty is Struct)
                    ==> infos[acc.len() + j - i].ty == ty)
        },
    decreases ds.len() - i,
{
    if i < ds.len() {
        match ds[i as int].declarator.kind {
            DeclaratorKind::Other => {
                assert(!(ds[i as int].declarator.kind is Identifier));
            },
            DeclaratorKind::Identifier(name) => {
                let (t, s) = declared_type(st, name, ty);
                let d = DeclInfo { name, ty: t };
                law_declared_names_are_in_order(s, ty, ds, i + 1, acc.push(d));
                let r = declarators_info(s, ty, ds, i + 1, acc.push(d));
                assert(declarators_info(st, ty, ds, i, acc) == r);
                if r is Ok {
                    let infos = r->Ok_0.0;
                    let k = acc.len() as int;
                    assert(infos[k] == infos.take(k + 1)[k]);
                    assert(infos.take(k) =~= infos.take(k + 1).take(k));
                    assert(acc =~= acc.push(d).take(k));
                }
            },
        }
    } else {
        assert(acc.take(acc.len() as int) =~= acc);
    }
}

/// The derivations of all declarators of a declaration apply to its type one after the other.
pub proof fn law_declarators_derive_one_type(
    depth: nat,
    st: GenState,
    ty: Ty,
    d: InitDeclarator,
    e: InitDeclarator,
)
    ensures
        declarators_type(depth, st, ty, seq![d], 0) == derived(
            depth,
            st,
            ty,
            d.declarator.derived@,
            d.declarator.derived@.len(),
        ),
        declarators_type(depth, st, ty, seq![d, e], 0) == followed(
            declarators_type(depth, st, ty, seq![d], 0),
            |t: Ty, s: GenState| declarators_type(depth, s, t, seq![e], 0),
        ),
{
    let one = seq![d];
    let two = seq![d, e];
    let last = seq![e];
    assert(one[0] == d && two[0] == d && two[1] == e && last[0] == e);
    let ds = d.declarator.derived@;
    let r = derived(depth, st, ty, ds, ds.len());
    if r is Ok {
        let (t, s) = r->Ok_0;
        assert(declarators_type(depth, s, t, one, 1) == Ok::<(Ty, GenState), CError>((t, s)));
        let es = e.declarator.derived@;
        let q = derived(depth, s, t, es, es.len());
        if q is Ok {
            let (u, v) = q->Ok_0;
            assert(declarators_type(depth, v, u, last, 1) == Ok::<(Ty, GenState), CError>((u, v)));
            assert(declarators_type(depth, v, u, two, 2) == Ok::<(Ty, GenState), CError>((u, v)));
        }
        assert(declarators_type(depth, s, t, last, 0) == q);
        assert(declarators_type(depth, s, t, two, 1) == q);
    }
}

/// A type definition with several names defines each of them, and no other.
pub proof fn law_typedefs_define_their_names(st: GenState, infos: Seq<DeclInfo>, i: nat)
    requires
        i <= infos.len(),
        typedefs_from(st, infos, i) is Ok,
    ensures
        ({
            let after = typedefs_from(st, infos, i)->Ok_0.1;
            &&& forall|j: int|
                i <= j < infos.len() ==> after.typedefs.dom().contains(
                    (#[trigger] infos[j]).name@,
                ) && after.typedefs[infos[j].name@] == infos[j].ty && !st.typedefs.dom().contains(
                    infos[j].name@,
                )
            &&& forall|name: Seq<char>| #[trigger]
                st.typedefs.dom().contains(name) ==> after.typedefs.dom().contains(name)
                    && after.typedefs[name] == st.typedefs[name]
            &&& forall|name: Seq<char>| #[trigger]
                after.typedefs.dom().contains(name) ==> st.typedefs.dom().contains(name) || exists|
                    j: int,
                |
                    i <= j < infos.len() && (#[trigger] infos[j]).name@ == name
            &&& after == (GenState { typedefs: after.typedefs, ..st })
        }),
    decreases infos.len() - i,
{
    if i < infos.len() {
        let d = infos[i as int];
        let next = GenState { typedefs: st.typedefs.insert(d.name@, d.ty), ..st };
        law_typedefs_define_their_names(next, infos, i + 1);
        let after = typedefs_from(next, infos, i + 1)->Ok_0.1;
        assert(next.typedefs.dom().contains(d.name@));
        assert forall|name: Seq<char>| #[trigger] after.typedefs.dom().contains(
            name,
        ) implies st.typedefs.dom().contains(name) || exists|j: int|
            i <= j < infos.len() && (#[trigger] infos[j]).name@ == name by {
            if name == d.name@ {
                assert(infos[i as int].name@ == name);
            } else {
                assert(next.typedefs.dom().contains(name) == st.typedefs.dom().contains(name));
            }
        }
        assert forall|name: Seq<char>| #[trigger] st.typedefs.dom().contains(
            name,
        ) implies after.typedefs.dom().contains(name) && after.typedefs[name]
            == st.typedefs[name] by {
            assert(next.typedefs.dom().contains(name));
        }
        assert forall|j: int| i <= j < infos.len() implies after.typedefs.dom().contains(
            (#[trigger] infos[j]).name@,
        ) && after.typedefs[infos[j].name@] == infos[j].ty && !st.typedefs.dom().contains(
            infos[j].name@,
        ) by {
            if j > i {
                assert(!next.typedefs.dom().contains(infos[j].name@));
            }
        }
    }
}

/// `void` is no type; an unknown type name is refused; an initializer that is an expression is that
/// expression.
pub proof fn law_names_of_types(depth: nat, st: GenState, name: String, ty: Ty, e: Expression)
    ensures
        type_of(depth, st, TypeSpecifier::Void) == Ok::<(Option<Ty>, GenState), CError>((None, st)),
        !st.typedefs.dom().contains(name@) ==> type_of(
            depth,
            st,
            TypeSpecifier::TypedefName(name),
        ) == Err::<(Option<Ty>, GenState), CError>(CError::Fault(Reason::NoTypedef(name))),
        st.typedefs.dom().contains(name@) ==> type_of(depth, st, TypeSpecifier::TypedefName(name))
            == Ok::<(Option<Ty>, GenState), CError>((Some(st.typedefs[name@]), st)),
        init(depth, st, ty, Initializer::Expression(Box::new(e))) == expr(depth, st, e),
{
}

/// The size of an array is what its size expression folds to; a negative number counts modulo the
/// number of sizes. A size in the computation of offsets counts modulo two to the power of 32, with
/// its sign.
pub proof fn law_sizes_count_modulo(
    depth: nat,
    st: GenState,
    base: Ty,
    e: Expression,
    n: int,
    m: usize,
)
    requires
        !(base is Array),
        expr(depth, st, e) matches Ok((v, _)) && folded_i32(v) == Ok::<int, CError>(n),
    ensures
        derived_once(
            depth,
            st,
            base,
            DerivedDeclarator::Array(ArraySize::VariableExpression(Box::new(e))),
        ) matches Ok((ty, after)) && after == expr(depth, st, e)->Ok_0.1 && (ty matches Ty::Array(
            k,
            l,
            t,
        ) && *t == base && l.seq() == seq![k] && (k == n || k == n + usize::MAX + 1)),
        i32::MIN <= low_i32(m) <= i32::MAX,
        (m - low_i32(m)) % 0x1_0000_0000 == 0,
{
    let k = as_size(n) as usize;
    let l = List::Cons(k, Rc::new(List::Nil));
    assert(l.seq() =~= seq![k]) by {
        reveal_with_fuel(List::seq, 3);
    }
    lemma_fundamental_div_mod(m as int, 0x1_0000_0000);
    let q = m as int / 0x1_0000_0000;
    let r = m as int % 0x1_0000_0000;
    if r >= 0x8000_0000 {
        lemma_mod_multiples_basic(q + 1, 0x1_0000_0000);
    } else {
        lemma_mod_multiples_basic(q, 0x1_0000_0000);
    }
}

} // verus!
