//! What is read off the syntax tree alone.
use std::rc::Rc;

use vstd::prelude::*;

use crate::ast::Constant;
use crate::ast::DeclarationSpecifier;
use crate::ast::Declarator;
use crate::ast::DeclaratorKind;
use crate::ast::DerivedDeclarator;
use crate::ast::Expression;
use crate::ast::Extension;
use crate::ast::FunctionDefinition;
use crate::ast::ParameterDeclaration;
use crate::circ::PartyId;
use crate::error::CError;
use crate::error::Reason;
use crate::number::parse_number;
use crate::translate::compressed;
use crate::translate::decl_name;
use crate::translate::expr_name;
use crate::translate::fn_args;
use crate::translate::party;
use crate::translate::visibility;
use crate::translate::Mode;
use crate::translate::PROVER_ID;
use crate::types::clone_opt_ty;
use crate::types::Ty;

verus! {

/// The name that a declarator declares.
pub fn name_from_decl(d: &Declarator) -> (r: Result<String, CError>)
    ensures
        r == decl_name(*d),
{
    match &d.kind {
        DeclaratorKind::Identifier(name) => Ok(name.clone()),
        DeclaratorKind::Other => Err(CError::Fault(Reason::MissingName)),
    }
}

/// The name that an expression is.
pub fn name_from_expr(e: &Expression) -> (r: Result<String, CError>)
    ensures
        r == expr_name(*e),
{
    match e {
        Expression::Identifier(name) => Ok(name.clone()),
        _ => Err(CError::Fault(Reason::MissingName)),
    }
}

/// The parameters of a function definition.
pub fn args_from_func(f: &FunctionDefinition) -> (r: Option<Rc<Vec<ParameterDeclaration>>>)
    ensures
        r == fn_args(f.declarator.derived@, 0),
{
    let mut i: usize = 0;
    while i < f.declarator.derived.len()
        invariant
            i <= f.declarator.derived@.len(),
            fn_args(f.declarator.derived@, 0) == fn_args(f.declarator.derived@, i as nat),
        decreases f.declarator.derived@.len() - i,
    {
        if let DerivedDeclarator::Function(ps) = &f.declarator.derived[i] {
            return Some(ps.clone());
        }
        i = i + 1;
    }
    None
}

/// The type that several specifiers make together.
pub fn compress_type(ts: &Vec<Option<Ty>>) -> (r: Result<Option<Ty>, CError>)
    ensures
        r == compressed(ts@),
{
    if ts.len() == 0 {
        return Err(CError::Fault(Reason::EmptySpecifiers));
    }
    if ts.len() == 1 {
        return Ok(clone_opt_ty(&ts[0]));
    }
    let mut acc: Result<Option<Ty>, CError> = Ok(clone_opt_ty(&ts[0]));
    let mut i: usize = 1;
    assert(ts@.take(1)[0] == ts@[0]);
    while i < ts.len()
        invariant
            1 <= i <= ts@.len(),
            acc == compressed(ts@.take(i as int)),
        decreases ts@.len() - i,
    {
        let ghost here = ts@.take(i + 1);
        assert(here.drop_last() =~= ts@.take(i as int));
        assert(here.last() == ts@[i as int]);
        let next = match (&acc, &ts[i]) {
            (Ok(Some(Ty::Int(s, w))), Some(Ty::Int(t, v))) => Ok(
                Some(
                    Ty::Int(
                        *s && *t,
                        if *w < *v {
                            *v
                        } else {
                            *w
                        },
                    ),
                ),
            ),
            _ => Err(CError::Fault(Reason::MixedSpecifiers)),
        };
        acc = next;
        i = i + 1;
    }
    assert(ts@.take(ts@.len() as int) =~= ts@);
    acc
}

fn party_from_expr(e: &Expression, last: u8) -> (r: Option<PartyId>)
    ensures
        r == party(*e, last),
{
    match e {
        Expression::Constant(Constant::Integer(i)) => match parse_number(
            i.number.as_str(),
            false,
        ) {
            Some(n) => if 0 <= n && n <= last as i128 {
                Some(n as u8)
            } else {
                None
            },
            None => None,
        },
        _ => None,
    }
}

/// The party that a specifier gives a parameter to.
pub fn interpret_visibility(d: &DeclarationSpecifier, mode: Mode) -> (r: Result<
    Option<PartyId>,
    CError,
>)
    ensures
        r == visibility(*d, mode),
{
    match d {
        DeclarationSpecifier::Extension(es) => {
            if es.len() != 1 {
                return Err(CError::Fault(Reason::BadVisibility));
            }
            match &es[0] {
                Extension::Attribute(a) => {
                    if a.name == "public".to_owned() {
                        Ok(None)
                    } else if a.name == "private".to_owned() {
                        match mode {
                            Mode::Mpc(n) => {
                                if a.arguments.len() != 1 {
                                    return Err(CError::Fault(Reason::BadVisibility));
                                }
                                match party_from_expr(&a.arguments[0], n) {
                                    Some(p) => Ok(Some(p)),
                                    None => Err(CError::Fault(Reason::BadVisibility)),
                                }
                            },
                            Mode::Proof => Ok(Some(PROVER_ID)),
                            _ => Err(CError::Fault(Reason::Unsupported)),
                        }
                    } else {
                        Err(CError::Fault(Reason::BadVisibility))
                    }
                },
                Extension::Other => Err(CError::Fault(Reason::BadVisibility)),
            }
        },
        _ => Err(CError::Fault(Reason::BadVisibility)),
    }
}

} // verus!
