//! Why a program is not translated.
use vstd::prelude::*;

use crate::cterm::COp;
use crate::cterm::CTerm;
use crate::ir::Term;
use crate::types::Ty;

verus! {

/// What is wrong with a program, or with a request to the front end.
#[derive(Debug, PartialEq, Eq)]
pub enum Reason {
    /// No variable of this name is in scope.
    NoVariable(String),
    /// The innermost scope has a variable of this name already.
    Redeclared(String),
    NoFunction(String),
    NoField(String),
    NoTypedef(String),
    /// The size of a type of this name is asked for, and there is none.
    UnknownType(String),
    TypedefRedefined(String),
    /// The text of an integer literal is no number of its type.
    BadNumber(String),
    NotStruct(CTerm),
    /// The first value cannot be read at the second as its index.
    CannotSelect(CTerm, CTerm),
    /// The first value cannot be written at the second as its index.
    CannotStore(CTerm, CTerm),
    BadOperands(COp, CTerm, CTerm),
    BadCast(CTerm, Option<Ty>),
    /// No one value stands for either of these two.
    BadMerge(CTerm, CTerm),
    NotConstant(CTerm),
    NotScalar(CTerm),
    NotBoolean(Term),
    NotIndexable(Ty),
    NotAnInput(Ty),
    /// A memory region of this number, or of no number, does not exist.
    UnknownAlloc(Option<usize>),
    /// No function is being translated.
    NoFrame,
    /// A value is returned where the function has no return type.
    NoReturnType,
    EmptySpecifiers,
    MissingType,
    MissingDeclarator,
    MissingName,
    MissingArraySize,
    MixedSpecifiers,
    BadVisibility,
    /// A constant expression fits no 32-bit integer.
    NotI32,
    Overflow,
    /// There are more indices than dimensions.
    TooManyIndices,
    IndexCount,
    ArgumentCount,
    InitializerCount,
    LoopDeclaration,
    /// The header of a loop has no initial value, bound or step that is understood.
    LoopHeader,
    /// Calls are nested more deeply than is allowed.
    CallDepth,
    Unsupported,
}

/// `name` between two texts.
pub open spec fn around(before: Seq<char>, name: Seq<char>, behind: Seq<char>) -> Seq<char> {
    before + name + behind
}

fn put_around(before: &str, name: &String, behind: &str) -> (r: String)
    ensures
        r@ == around(before@, name@, behind@),
{
    let mut text = before.to_owned();
    text.append(name.as_str());
    text.append(behind);
    text
}

impl Reason {
    /// What a user is told, where that is a name in a fixed text; nothing for the reasons that hold
    /// values (see `text_around`) or say all by themselves.
    pub open spec fn text(self) -> Option<Seq<char>> {
        match self {
            Reason::NoVariable(name) => Some(around("No variable '"@, name@, "'"@)),
            Reason::Redeclared(name) => Some(around("Variable '"@, name@, "' already declared"@)),
            Reason::NoFunction(name) => Some(around("No function '"@, name@, "'"@)),
            Reason::NoField(field) => Some(around("No field '"@, field@, "'"@)),
            Reason::NoTypedef(name) => Some(around("Typedef not defined: "@, name@, ""@)),
            Reason::UnknownType(name) => Some(around("Unknown type: "@, name@, ""@)),
            Reason::TypedefRedefined(name) => Some(
                around("Typedef already defined for: "@, name@, ""@),
            ),
            Reason::BadNumber(text) => Some(around("Bad number: "@, text@, ""@)),
            Reason::MissingArraySize => Some("Derived type not array"@),
            _ => None,
        }
    }

    /// What a user is told, where that is a text around the values that the reason holds: `first`
    /// and `second` are how those are shown.
    pub open spec fn text_around(self, first: Seq<char>, second: Seq<char>) -> Option<Seq<char>> {
        match self {
            Reason::NotStruct(_) => Some(around(""@, first, " is not a struct"@)),
            Reason::CannotSelect(_, _) => Some(
                around("[Array Select] cannot index "@, first, " by "@) + second,
            ),
            Reason::CannotStore(_, _) => Some(
                around("[Array Store] cannot index "@, first, " by "@) + second,
            ),
            Reason::UnknownAlloc(_) => Some(around("Unknown AllocID: "@, first, ""@)),
            _ => None,
        }
    }

    /// What a user is told, where that is a text around the values that the reason holds.
    pub fn message_around(&self, first: &String, second: &String) -> (r: Option<String>)
        ensures
            match (r, self.text_around(first@, second@)) {
                (Some(a), Some(b)) => a@ == b,
                (None, None) => true,
                _ => false,
            },
    {
        match self {
            Reason::NotStruct(_) => Some(put_around("", first, " is not a struct")),
            Reason::CannotSelect(_, _) => {
                let mut text = put_around("[Array Select] cannot index ", first, " by ");
                text.append(second.as_str());
                Some(text)
            },
            Reason::CannotStore(_, _) => {
                let mut text = put_around("[Array Store] cannot index ", first, " by ");
                text.append(second.as_str());
                Some(text)
            },
            Reason::UnknownAlloc(_) => Some(put_around("Unknown AllocID: ", first, "")),
            _ => None,
        }
    }

    /// What a user is told, where that is a name in a fixed text.
    pub fn message(&self) -> (r: Option<String>)
        ensures
            match (r, self.text()) {
                (Some(a), Some(b)) => a@ == b,
                (None, None) => true,
                _ => false,
            },
    {
        match self {
            Reason::NoVariable(name) => Some(put_around("No variable '", name, "'")),
            Reason::Redeclared(name) => Some(put_around("Variable '", name, "' already declared")),
            Reason::NoFunction(name) => Some(put_around("No function '", name, "'")),
            Reason::NoField(field) => Some(put_around("No field '", field, "'")),
            Reason::NoTypedef(name) => Some(put_around("Typedef not defined: ", name, "")),
            Reason::UnknownType(name) => Some(put_around("Unknown type: ", name, "")),
            Reason::TypedefRedefined(name) => Some(
                put_around("Typedef already defined for: ", name, ""),
            ),
            Reason::BadNumber(text) => Some(put_around("Bad number: ", text, "")),
            Reason::MissingArraySize => Some("Derived type not array".to_owned()),
            _ => None,
        }
    }
}

/// How a translation stops.
#[derive(Debug, PartialEq, Eq)]
pub enum CError {
    /// The program is turned down with a message.
    Reject(Reason),
    /// The program, or the request, is outside what the front end handles.
    Fault(Reason),
}

impl CError {
    /// The reason.
    pub open spec fn reason(self) -> Reason {
        match self {
            CError::Reject(r) => r,
            CError::Fault(r) => r,
        }
    }

    /// The same reason, as a fault.
    pub open spec fn fault(self) -> CError {
        CError::Fault(self.reason())
    }

    /// Turns the error into a fault with the same reason.
    pub fn into_fault(self) -> (r: CError)
        ensures
            r == self.fault(),
    {
        match self {
            CError::Reject(r) => CError::Fault(r),
            CError::Fault(r) => CError::Fault(r),
        }
    }
}

} // verus!
