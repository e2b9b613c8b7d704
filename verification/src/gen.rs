//! The front end: it walks over a C program and builds the circuit.
use std::rc::Rc;

use vstd::prelude::*;

use crate::ast::ArraySize;
use crate::ast::BinaryOperator;
use crate::ast::BinaryOperatorExpression;
use crate::ast::BlockItem;
use crate::ast::CallExpression;
use crate::ast::Constant;
use crate::ast::Declaration;
use crate::ast::DeclarationSpecifier;
use crate::ast::DerivedDeclarator;
use crate::ast::Expression;
use crate::ast::ExternalDeclaration;
use crate::ast::ForInitializer;
use crate::ast::ForStatement;
use crate::ast::FunctionDefinition;
use crate::ast::InitDeclarator;
use crate::ast::Initializer;
use crate::ast::ParameterDeclaration;
use crate::ast::SpecifierQualifier;
use crate::ast::Statement;
use crate::ast::StructDeclaration;
use crate::ast::StructDeclarator;
use crate::ast::StructType;
use crate::ast::TranslationUnit;
use crate::ast::TypeSpecifier;
use crate::ast::UnaryOperator;
use crate::ast::UnaryOperatorExpression;
use crate::ast_utils::args_from_func;
use crate::ast_utils::compress_type;
use crate::ast_utils::interpret_visibility;
use crate::ast_utils::name_from_decl;
use crate::ast_utils::name_from_expr;
use crate::circ::does;
use crate::circ::Circify;
use crate::circ::PartyId;
use crate::cterm::apply_op;
use crate::cterm::cast;
use crate::cterm::cfalse;
use crate::cterm::cint;
use crate::cterm::cterm;
use crate::cterm::AllocId;
use crate::cterm::COp;
use crate::cterm::CTerm;
use crate::cterm::CTermData;
use crate::error::CError;
use crate::error::Reason;
use crate::ir::bv_lit;
use crate::ir::fold;
use crate::ir::lit_bv;
use crate::ir::mk_not;
use crate::ir::mk_op;
use crate::ir::Op;
use crate::ir::Term;
use crate::list::drop_last_numbers;
use crate::list::push_number;
use crate::list::List;
use crate::number::const_integer;
use crate::number::constant;
use crate::places::lemma_circ_assign_fault;
use crate::places::lemma_fitting_store;
use crate::places::lemma_rebuilt_changes_memory_only;
use crate::single::trip_count;
use crate::table::Table;
use crate::translate::array_of;
use crate::translate::array_value;
use crate::translate::as_size;
use crate::translate::assigned;
use crate::translate::bin_op;
use crate::translate::binary;
use crate::translate::block;
use crate::translate::bound;
use crate::translate::branch;
use crate::translate::call;
use crate::translate::called;
use crate::translate::d_type;
use crate::translate::d_types;
use crate::translate::decl;
use crate::translate::decl_info;
use crate::translate::declarators_info;
use crate::translate::declarators_type;
use crate::translate::declared_type;
use crate::translate::derived;
use crate::translate::derived_once;
use crate::translate::element;
use crate::translate::entry;
use crate::translate::entry_params;
use crate::translate::expr;
use crate::translate::exprs;
use crate::translate::field_declarators;
use crate::translate::fn_info;
use crate::translate::folded_expr;
use crate::translate::folded_i32;
use crate::translate::index;
use crate::translate::index_value;
use crate::translate::indexed_array;
use crate::translate::init;
use crate::translate::initial;
use crate::translate::is_index;
use crate::translate::iterations;
use crate::translate::leaves;
use crate::translate::leaves_from;
use crate::translate::list_onto;
use crate::translate::loop_bound;
use crate::translate::loop_end;
use crate::translate::loop_start;
use crate::translate::loop_step;
use crate::translate::low_i32;
use crate::translate::lval;
use crate::translate::offset;
use crate::translate::offset_from;
use crate::translate::one_round;
use crate::translate::param;
use crate::translate::published;
use crate::translate::rebuilt;
use crate::translate::rounds;
use crate::translate::s_type;
use crate::translate::s_types;
use crate::translate::selected;
use crate::translate::selected_field;
use crate::translate::start;
use crate::translate::stmt;
use crate::translate::stored;
use crate::translate::stored_field;
use crate::translate::stored_terms;
use crate::translate::stored_value;
use crate::translate::stored_values;
use crate::translate::struct_fields;
use crate::translate::struct_type;
use crate::translate::type_of;
use crate::translate::typedefs_from;
use crate::translate::u_op;
use crate::translate::unary;
use crate::translate::variables_from;
use crate::translate::visited;
use crate::translate::CLoc;
use crate::translate::DeclInfo;
use crate::translate::FnInfo;
use crate::translate::GenState;
use crate::translate::Loc;
use crate::translate::Mode;
use crate::translate::ParamInfo;
use crate::translate::Step;
use crate::types::clone_name;
use crate::types::clone_opt_ty;
use crate::types::set_field;
use crate::types::Field;
use crate::types::FieldList;
use crate::types::Ty;

verus! {

/// An array together with the indices by which it is read.
#[derive(Debug)]
pub struct IndexTerm {
    /// The array.
    pub base: CTerm,
    /// The indices, the first first.
    pub indices: Vec<CTerm>,
}

/// How often a loop runs.
#[derive(Debug, Clone, Copy, PartialEq, Eq, Structural)]
pub struct ConstIteration {
    pub val: i32,
}

/// The state of the front end. Calls are translated where they stand, so a program that calls
/// itself without end is translated until `depth` or the memory of the machine is used up.
pub struct CGen {
    pub circ: Circify,
    pub mode: Mode,
    pub tu: Rc<TranslationUnit>,
    pub structs: Table<Ty>,
    pub functions: Table<FnInfo>,
    pub typedefs: Table<Ty>,
    /// How deeply calls may still be nested.
    pub depth: u64,
}

impl View for CGen {
    type V = GenState;

    open spec fn view(&self) -> GenState {
        GenState {
            circ: self.circ@,
            mode: self.mode,
            structs: self.structs@,
            functions: self.functions@,
            typedefs: self.typedefs@,
        }
    }
}

impl CGen {
    /// How deeply calls may still be nested.
    pub open spec fn nesting(self) -> nat {
        self.depth as nat
    }

    /// Whether the two work on the same program and may nest calls as deeply.
    pub open spec fn same_run(self, other: CGen) -> bool {
        self.tu == other.tu && self.depth == other.depth
    }
}

/// Whether an operation with the result `r` and the state `after` does what `want` says. Of the
/// state that is left by an operation that stops, nothing is said: the translation is over.
pub open spec fn done<T>(r: Result<T, CError>, after: GenState, want: Step<T>) -> bool {
    match (r, want) {
        (Ok(v), Ok((w, s))) => v == w && after == s,
        (Err(e), Err(f)) => e == f,
        _ => false,
    }
}

/// The same for an operation that gives several values.
pub open spec fn done_all<T>(
    r: Result<Vec<T>, CError>,
    after: GenState,
    want: Step<Seq<T>>,
) -> bool {
    match (r, want) {
        (Ok(v), Ok((w, s))) => v@ == w && after == s,
        (Err(e), Err(f)) => e == f,
        _ => false,
    }
}

/// The same for an operation that gives a 32-bit number.
pub open spec fn done_number(
    r: Result<Option<i32>, CError>,
    after: GenState,
    want: Step<Option<int>>,
) -> bool {
    match (r, want) {
        (Ok(Some(v)), Ok((Some(w), s))) => v == w && after == s,
        (Ok(None), Ok((None, s))) => after == s,
        (Err(e), Err(f)) => e == f,
        _ => false,
    }
}

impl Clone for IndexTerm {
    fn clone(&self) -> (r: IndexTerm)
        ensures
            r.base == self.base,
            r.indices@ == self.indices@,
    {
        let mut indices: Vec<CTerm> = Vec::new();
        let mut i: usize = 0;
        while i < self.indices.len()
            invariant
                i <= self.indices@.len(),
                indices@ == self.indices@.take(i as int),
            decreases self.indices@.len() - i,
        {
            indices.push(self.indices[i].clone());
            i = i + 1;
        }
        IndexTerm { base: self.base.clone(), indices }
    }
}

impl Clone for Loc {
    fn clone(&self) -> (r: Loc)
        ensures
            r == *self,
    {
        Loc { name: self.name.clone() }
    }
}

impl Clone for FnInfo {
    fn clone(&self) -> (r: FnInfo)
        ensures
            r == *self,
    {
        let args = match &self.args {
            Some(ps) => Some(ps.clone()),
            None => None,
        };
        FnInfo {
            name: self.name.clone(),
            ret_ty: clone_opt_ty(&self.ret_ty),
            args,
            body: self.body.clone(),
        }
    }
}

impl CLoc {
    /// The variable that the place is in.
    pub fn loc(&self) -> (r: &Loc)
        ensures
            *r == self.root(),
        decreases self,
    {
        match self {
            CLoc::Var(l) => l,
            CLoc::Member(inner, _) => inner.loc(),
            CLoc::Idx(inner, _) => inner.loc(),
        }
    }
}

fn list_from_fields(v: Vec<Field<Ty>>) -> (r: List<Field<Ty>>)
    ensures
        r == list_onto(v@, List::Nil),
{
    let ghost all = v@;
    let mut v = v;
    let mut tail: List<Field<Ty>> = List::Nil;
    while v.len() > 0
        invariant
            list_onto(all, List::Nil) == list_onto(v@, tail),
        decreases v@.len(),
    {
        if let Some(f) = v.pop() {
            tail = List::Cons(f, Rc::new(tail));
        }
    }
    tail
}

fn size_from_i32(n: i32) -> (r: usize)
    ensures
        r == as_size(n as int),
{
    if n >= 0 {
        n as usize
    } else {
        let k: i64 = -(n as i64) - 1;
        usize::MAX - (k as usize)
    }
}

fn i32_from_size(n: usize) -> (r: i32)
    ensures
        r == low_i32(n),
{
    let m: u64 = (n as u64) % 0x1_0000_0000;
    if m >= 0x8000_0000 {
        (m as i64 - 0x1_0000_0000) as i32
    } else {
        m as i32
    }
}

/// The array of `n` elements of the type `base`.
pub fn mk_array_type(base: &Ty, n: usize) -> (r: Result<Ty, CError>)
    ensures
        r == array_of(*base, n),
{
    match base {
        Ty::Array(m, sizes, t) => match n.checked_mul(*m) {
            Some(k) => Ok(Ty::Array(k, Rc::new(push_number(sizes, n)), t.clone())),
            None => Err(CError::Fault(Reason::Overflow)),
        },
        _ => Ok(
            Ty::Array(n, Rc::new(List::Cons(n, Rc::new(List::Nil))), Rc::new(base.clone())),
        ),
    }
}

/// Whether a place is a variable or one step from it.
pub open spec fn is_shallow(loc: CLoc) -> bool {
    match loc {
        CLoc::Var(_) => true,
        CLoc::Member(inner, _) => *inner is Var,
        CLoc::Idx(inner, _) => *inner is Var,
    }
}

impl CGen {
    /// Starts the translation of a program.
    pub fn new(mode: Mode, tu: Rc<TranslationUnit>) -> (r: CGen)
        ensures
            r@ == start(mode),
            r.tu == tu,
            r.depth == u64::MAX,
    {
        let mut circ = Circify::new();
        circ.add_prover_and_verifier();
        CGen {
            circ,
            mode,
            tu,
            structs: Table::new(),
            functions: Table::new(),
            typedefs: Table::new(),
            depth: u64::MAX,
        }
    }

    /// The type of declaration specifiers.
    pub fn d_type_(&mut self, ds: &[DeclarationSpecifier]) -> (r: Result<
        Option<Ty>,
        CError,
    >)
        ensures
            done(r, final(self)@, d_type(old(self).nesting(), old(self)@, ds@, 0)),
            final(self).same_run(*old(self)),
        decreases old(self).depth, 0nat, ds@, ds@.len() + 2,
    {
        self.d_type_from(ds, 0)
    }

    fn d_type_from(&mut self, ds: &[DeclarationSpecifier], from: usize) -> (r: Result<
        Option<Ty>,
        CError,
    >)
        ensures
            done(r, final(self)@, d_type(old(self).nesting(), old(self)@, ds@, from as nat)),
            final(self).same_run(*old(self)),
        decreases old(self).depth, 0nat, ds@, ds@.len() + 1,
    {
        if from >= ds.len() {
            return Err(CError::Fault(Reason::EmptySpecifiers));
        }
        let mut ts: Vec<Option<Ty>> = Vec::new();
        let mut i: usize = from;
        while i < ds.len()
            invariant
                from <= i <= ds@.len(),
                from < ds@.len(),
                self.same_run(*old(self)),
                d_types(old(self).nesting(), old(self)@, ds@, from as nat, Seq::empty()) == d_types(
                    old(self).nesting(),
                    self@,
                    ds@,
                    i as nat,
                    ts@,
                ),
            decreases ds@.len() - i,
        {
            match &ds[i] {
                DeclarationSpecifier::TypeSpecifier(t) => {
                    let ty = self.type_(t)?;
                    ts.push(ty);
                },
                _ => return Err(CError::Fault(Reason::Unsupported)),
            }
            i = i + 1;
        }
        compress_type(&ts)
    }

    /// The type of specifiers and qualifiers.
    pub fn s_type_(&mut self, ss: &[SpecifierQualifier]) -> (r: Result<
        Option<Ty>,
        CError,
    >)
        ensures
            done(r, final(self)@, s_type(old(self).nesting(), old(self)@, ss@)),
            final(self).same_run(*old(self)),
        decreases old(self).depth, 0nat, ss@, ss@.len() + 1,
    {
        if ss.len() == 0 {
            return Err(CError::Fault(Reason::EmptySpecifiers));
        }
        let mut ts: Vec<Option<Ty>> = Vec::new();
        let mut i: usize = 0;
        while i < ss.len()
            invariant
                i <= ss@.len(),
                0 < ss@.len(),
                self.same_run(*old(self)),
                s_types(old(self).nesting(), old(self)@, ss@, 0, Seq::empty()) == s_types(
                    old(self).nesting(),
                    self@,
                    ss@,
                    i as nat,
                    ts@,
                ),
            decreases ss@.len() - i,
        {
            match &ss[i] {
                SpecifierQualifier::TypeSpecifier(t) => {
                    let ty = self.type_(t)?;
                    ts.push(ty);
                },
                SpecifierQualifier::Other => return Err(CError::Fault(Reason::Unsupported)),
            }
            i = i + 1;
        }
        compress_type(&ts)
    }

    /// The type of a type specifier.
    pub fn type_(&mut self, t: &TypeSpecifier) -> (r: Result<Option<Ty>, CError>)
        ensures
            done(r, final(self)@, type_of(old(self).nesting(), old(self)@, *t)),
            final(self).same_run(*old(self)),
        decreases old(self).depth, 0nat, t, 0nat,
    {
        match t {
            TypeSpecifier::Void => Ok(None),
            TypeSpecifier::Int => Ok(Some(Ty::Int(true, 32))),
            TypeSpecifier::Unsigned => Ok(Some(Ty::Int(false, 32))),
            TypeSpecifier::Long => Ok(Some(Ty::Int(true, 32))),
            TypeSpecifier::Bool => Ok(Some(Ty::Bool)),
            TypeSpecifier::TypedefName(name) => match self.typedefs.get(name.as_str()) {
                Some(ty) => Ok(Some(ty.clone())),
                None => Err(CError::Fault(Reason::NoTypedef(name.clone()))),
            },
            TypeSpecifier::Struct(s) => self.struct_type_(s),
            TypeSpecifier::Other => Err(CError::Fault(Reason::Unsupported)),
        }
    }

    fn struct_type_(&mut self, s: &StructType) -> (r: Result<Option<Ty>, CError>)
        ensures
            done(r, final(self)@, struct_type(old(self).nesting(), old(self)@, *s)),
            final(self).same_run(*old(self)),
        decreases old(self).depth, 0nat, s, 0nat,
    {
        if let Some(name) = &s.identifier {
            if !name.as_str().is_empty() {
                if let Some(ty) = self.structs.get(name.as_str()) {
                    return Ok(Some(ty.clone()));
                }
            }
        }
        let fields = match &s.declarations {
            None => Vec::new(),
            Some(ds) => self.fields_from_decls(ds.as_slice())?,
        };
        let ty = Ty::Struct(
            clone_name(&s.identifier),
            FieldList { list: Rc::new(list_from_fields(fields)) },
        );
        if let Some(name) = &s.identifier {
            if !name.as_str().is_empty() {
                self.structs.insert(name.clone(), ty.clone());
            }
        }
        Ok(Some(ty))
    }

    fn fields_from_decls(&mut self, ds: &[StructDeclaration]) -> (r: Result<
        Vec<Field<Ty>>,
        CError,
    >)
        ensures
            done_all(
                r,
                final(self)@,
                struct_fields(old(self).nesting(), old(self)@, ds@, 0, Seq::empty()),
            ),
            final(self).same_run(*old(self)),
        decreases old(self).depth, 0nat, ds@, ds@.len() + 1,
    {
        let mut acc: Vec<Field<Ty>> = Vec::new();
        let mut i: usize = 0;
        while i < ds.len()
            invariant
                i <= ds@.len(),
                self.same_run(*old(self)),
                struct_fields(old(self).nesting(), old(self)@, ds@, 0, Seq::empty())
                    == struct_fields(
                    old(self).nesting(),
                    self@,
                    ds@,
                    i as nat,
                    acc@,
                ),
            decreases ds@.len() - i,
        {
            match &ds[i] {
                StructDeclaration::Field(f) => {
                    let base = match self.s_type_(f.specifiers.as_slice())? {
                        Some(base) => base,
                        None => return Err(CError::Fault(Reason::MissingType)),
                    };
                    self.fields_from_declarators(base, f.declarators.as_slice(), &mut acc)?;
                },
                StructDeclaration::StaticAssert => return Err(CError::Fault(Reason::Unsupported)),
            }
            i = i + 1;
        }
        Ok(acc)
    }

    fn fields_from_declarators(
        &mut self,
        base: Ty,
        ds: &[StructDeclarator],
        acc: &mut Vec<Field<Ty>>,
    ) -> (r: Result<(), CError>)
        ensures
            match (r, field_declarators(old(self).nesting(), old(self)@, base, ds@, 0, old(acc)@)) {
                (Ok(_), Ok((fs, st))) => final(acc)@ == fs && final(self)@ == st,
                (Err(e), Err(f)) => e == f,
                _ => false,
            },
            final(self).same_run(*old(self)),
        decreases old(self).depth, 0nat, ds@, ds@.len() + 1,
    {
        let mut base_field_type = base;
        let mut i: usize = 0;
        while i < ds.len()
            invariant
                i <= ds@.len(),
                self.same_run(*old(self)),
                field_declarators(old(self).nesting(), old(self)@, base, ds@, 0, old(acc)@)
                    == field_declarators(
                    old(self).nesting(),
                    self@,
                    base_field_type,
                    ds@,
                    i as nat,
                    acc@,
                ),
            decreases ds@.len() - i,
        {
            match &ds[i].declarator {
                None => return Err(CError::Fault(Reason::MissingDeclarator)),
                Some(d) => {
                    let name = name_from_decl(d)?;
                    let value = self.get_derived_type(
                        &mut base_field_type,
                        d.derived.as_slice(),
                    )?;
                    acc.push(Field { name, value });
                },
            }
            i = i + 1;
        }
        Ok(())
    }

    /// The type that one derivation makes of a type.
    pub fn get_inner_derived_type(
        &mut self,
        base_ty: &Ty,
        d: &DerivedDeclarator,
    ) -> (r: Result<Ty, CError>)
        ensures
            done(r, final(self)@, derived_once(old(self).nesting(), old(self)@, *base_ty, *d)),
            final(self).same_run(*old(self)),
        decreases old(self).depth, 0nat, d, 0nat,
    {
        match d {
            DerivedDeclarator::Array(size) => match size {
                ArraySize::VariableExpression(e) => {
                    let v = self.gen_expr(e)?;
                    let n: i32 = self.fold_(&v)?;
                    mk_array_type(base_ty, size_from_i32(n))
                },
                ArraySize::Other => Err(CError::Fault(Reason::MissingArraySize)),
            },
            DerivedDeclarator::Pointer => Ok(Ty::Ptr(32, Rc::new(base_ty.clone()))),
            _ => Err(CError::Fault(Reason::Unsupported)),
        }
    }

    /// The type that derivations make of a type, the last first. `base_ty` becomes that type.
    pub fn get_derived_type(
        &mut self,
        base_ty: &mut Ty,
        ds: &[DerivedDeclarator],
    ) -> (r: Result<Ty, CError>)
        ensures
            done(
                r,
                final(self)@,
                derived(old(self).nesting(), old(self)@, *old(base_ty), ds@, ds@.len()),
            ),
            r matches Ok(ty) ==> *final(base_ty) == ty,
            final(self).same_run(*old(self)),
        decreases old(self).depth, 0nat, ds@, ds@.len() + 1,
    {
        let mut k: usize = ds.len();
        while k > 0
            invariant
                k <= ds@.len(),
                self.same_run(*old(self)),
                derived(old(self).nesting(), old(self)@, *old(base_ty), ds@, ds@.len()) == derived(
                    old(self).nesting(),
                    self@,
                    *base_ty,
                    ds@,
                    k as nat,
                ),
            decreases k,
        {
            k = k - 1;
            let ty = self.get_inner_derived_type(base_ty, &ds[k])?;
            *base_ty = ty;
        }
        Ok(base_ty.clone())
    }

    /// What a declaration declares.
    pub fn get_decl_info(&mut self, d: &Declaration) -> (r: Result<
        Vec<DeclInfo>,
        CError,
    >)
        ensures
            done_all(r, final(self)@, decl_info(old(self).nesting(), old(self)@, *d, 0)),
            final(self).same_run(*old(self)),
        decreases old(self).depth, 3nat, d, 1nat,
    {
        self.decl_info_from(d, 0)
    }

    fn decl_info_from(&mut self, d: &Declaration, from: usize) -> (r: Result<
        Vec<DeclInfo>,
        CError,
    >)
        ensures
            done_all(r, final(self)@, decl_info(old(self).nesting(), old(self)@, *d, from as nat)),
            final(self).same_run(*old(self)),
        decreases old(self).depth, 3nat, d, 0nat,
    {
        let mut ty = match self.d_type_from(d.specifiers.as_slice(), from)? {
            Some(ty) => ty,
            None => return Err(CError::Fault(Reason::MissingType)),
        };
        self.derive_declarators(&mut ty, d.declarators.as_slice())?;
        self.info_from_declarators(&ty, d.declarators.as_slice())
    }

    fn derive_declarators(
        &mut self,
        ty: &mut Ty,
        ds: &[InitDeclarator],
    ) -> (r: Result<(), CError>)
        ensures
            match (r, declarators_type(old(self).nesting(), old(self)@, *old(ty), ds@, 0)) {
                (Ok(_), Ok((t, st))) => *final(ty) == t && final(self)@ == st,
                (Err(e), Err(f)) => e == f,
                _ => false,
            },
            final(self).same_run(*old(self)),
        decreases old(self).depth, 2nat, ds@, ds@.len() + 1,
    {
        let mut i: usize = 0;
        while i < ds.len()
            invariant
                i <= ds@.len(),
                self.same_run(*old(self)),
                declarators_type(old(self).nesting(), old(self)@, *old(ty), ds@, 0)
                    == declarators_type(
                    old(self).nesting(),
                    self@,
                    *ty,
                    ds@,
                    i as nat,
                ),
            decreases ds@.len() - i,
        {
            self.get_derived_type(ty, ds[i].declarator.derived.as_slice())?;
            i = i + 1;
        }
        Ok(())
    }

    fn info_from_declarators(&mut self, ty: &Ty, ds: &[InitDeclarator]) -> (r: Result<
        Vec<DeclInfo>,
        CError,
    >)
        ensures
            done_all(r, final(self)@, declarators_info(old(self)@, *ty, ds@, 0, Seq::empty())),
            final(self).same_run(*old(self)),
    {
        let mut res: Vec<DeclInfo> = Vec::new();
        let mut i: usize = 0;
        while i < ds.len()
            invariant
                i <= ds@.len(),
                self.same_run(*old(self)),
                declarators_info(old(self)@, *ty, ds@, 0, Seq::empty()) == declarators_info(
                    self@,
                    *ty,
                    ds@,
                    i as nat,
                    res@,
                ),
            decreases ds@.len() - i,
        {
            let name = name_from_decl(&ds[i].declarator)?;
            let t = self.enter_declared(&name, ty);
            res.push(DeclInfo { name, ty: t });
            i = i + 1;
        }
        Ok(res)
    }

    fn enter_declared(&mut self, name: &String, ty: &Ty) -> (r: Ty)
        ensures
            (r, final(self)@) == declared_type(old(self)@, *name, *ty),
            final(self).same_run(*old(self)),
    {
        match ty {
            Ty::Struct(_, _) => {
                if let Some(known) = self.structs.get(name.as_str()) {
                    return known.clone();
                }
                self.structs.insert(name.clone(), ty.clone());
                ty.clone()
            },
            _ => ty.clone(),
        }
    }

    /// A parameter. Where `v`, its first specifier says which party knows it.
    pub fn get_param_info(&mut self, p: &ParameterDeclaration, v: bool) -> (r: Result<
        ParamInfo,
        CError,
    >)
        ensures
            done(r, final(self)@, param(old(self).nesting(), old(self)@, *p, v)),
            final(self).same_run(*old(self)),
        decreases old(self).depth, 0nat, p, 0nat,
    {
        let mut vis: Option<PartyId> = None;
        let base: Option<Ty>;
        if v {
            if p.specifiers.len() == 0 {
                return Err(CError::Fault(Reason::EmptySpecifiers));
            }
            vis = interpret_visibility(&p.specifiers[0], self.mode)?;
            base = self.d_type_from(p.specifiers.as_slice(), 1)?;
        } else {
            base = self.d_type_from(p.specifiers.as_slice(), 0)?;
        }
        match &p.declarator {
            None => Err(CError::Fault(Reason::MissingDeclarator)),
            Some(d) => match base {
                None => Err(CError::Fault(Reason::MissingType)),
                Some(base) => {
                    let mut base_ty = base;
                    let ty = self.get_derived_type(&mut base_ty, d.derived.as_slice())?;
                    let name = name_from_decl(d)?;
                    Ok(ParamInfo { name, ty, vis })
                },
            },
        }
    }

    /// The type that a function returns.
    pub fn ret_ty_from_func(&mut self, f: &FunctionDefinition) -> (r: Result<
        Option<Ty>,
        CError,
    >)
        ensures
            done(r, final(self)@, d_type(old(self).nesting(), old(self)@, f.specifiers@, 0)),
            final(self).same_run(*old(self)),
    {
        self.d_type_(f.specifiers.as_slice())
    }

    /// A function definition as a function that can be called.
    pub fn get_fn_info(&mut self, f: &FunctionDefinition) -> (r: Result<
        FnInfo,
        CError,
    >)
        ensures
            done(r, final(self)@, fn_info(old(self).nesting(), old(self)@, *f)),
            final(self).same_run(*old(self)),
    {
        let name = name_from_decl(&f.declarator)?;
        let ret_ty = self.ret_ty_from_func(f)?;
        let args = args_from_func(f);
        Ok(FnInfo { name, ret_ty, args, body: f.statement.clone() })
    }

    /// The field of a structure.
    pub fn field_select(&self, struct_: &CTerm, field: &String) -> (r: Result<CTerm, CError>)
        ensures
            r == selected_field(*struct_, *field),
    {
        if let CTermData::CStruct(_, fs) = &struct_.term {
            if let Some(v) = fs.search(field) {
                Ok(v.clone())
            } else {
                Err(CError::Reject(Reason::NoField(field.clone())))
            }
        } else {
            Err(CError::Reject(Reason::NotStruct(struct_.clone())))
        }
    }

    /// The structure with a field set.
    pub fn field_store(&self, struct_: &CTerm, field: &String, val: &CTerm) -> (r: Result<
        CTerm,
        CError,
    >)
        ensures
            r == stored_field(*struct_, *field, *val),
    {
        if let CTermData::CStruct(ty, fs) = &struct_.term {
            if fs.search(field).is_some() {
                Ok(cterm(CTermData::CStruct(ty.clone(), set_term(fs, field, val))))
            } else {
                Err(CError::Reject(Reason::NoField(field.clone())))
            }
        } else {
            Err(CError::Reject(Reason::NotStruct(struct_.clone())))
        }
    }

    fn get_element(&self, ty: &Ty, id: Option<AllocId>, at: Term) -> (r: Result<CTerm, CError>)
        ensures
            r == element(self@.circ, *ty, id, at),
    {
        let i: AllocId = match id {
            None => return Err(CError::Fault(Reason::UnknownAlloc(None))),
            Some(i) => i,
        };
        match ty.inner_ty() {
            None => Err(CError::Fault(Reason::NotIndexable(ty.clone()))),
            Some(Ty::Bool) => Ok(cterm(CTermData::CBool(self.circ.load(i, at)?))),
            Some(Ty::Int(s, w)) => Ok(cterm(CTermData::CInt(s, w, self.circ.load(i, at)?))),
            Some(_) => Err(CError::Fault(Reason::Unsupported)),
        }
    }

    /// The element of an array.
    pub fn array_select(&self, array: &CTerm, idx: &CTerm) -> (r: Result<CTerm, CError>)
        ensures
            r == selected(self@.circ, *array, *idx),
    {
        match (&array.term, &idx.term) {
            (CTermData::CArray(ty, id), CTermData::CInt(_, _, i)) => self.get_element(
                ty,
                *id,
                i.clone(),
            ),
            (CTermData::CStackPtr(ty, offset, id), CTermData::CInt(_, _, i)) => self.get_element(
                ty,
                *id,
                mk_op(Op::BvAdd, offset.clone(), i.clone()),
            ),
            _ => Err(CError::Reject(Reason::CannotSelect(array.clone(), idx.clone()))),
        }
    }

    fn store_terms(&mut self, id: AllocId, at: &Term, ts: &Vec<Term>) -> (r: Result<(), CError>)
        ensures
            does(r, final(self)@.circ, stored_terms(old(self)@.circ, id, *at, ts@, 0)),
            final(self)@ == old(self)@.with_circ(final(self)@.circ),
            r is Err ==> final(self)@ == old(self)@,
            final(self).same_run(*old(self)),
    {
        let mut i: usize = 0;
        while i < ts.len()
            invariant
                i <= ts@.len(),
                i == 0 ==> self@ == old(self)@,
                i > 0 ==> id < self@.circ.allocs.len(),
                stored_terms(old(self)@.circ, id, *at, ts@, 0) == stored_terms(
                    self@.circ,
                    id,
                    *at,
                    ts@,
                    i as nat,
                ),
                self@ == old(self)@.with_circ(self@.circ),
                self.same_run(*old(self)),
            decreases ts@.len() - i,
        {
            let updated_idx = mk_op(Op::BvAdd, at.clone(), bv_lit(i as i128, 32));
            self.circ.store(id, updated_idx, ts[i].clone())?;
            i = i + 1;
        }
        Ok(())
    }

    fn store_value(
        &mut self,
        ty: &Ty,
        id: Option<AllocId>,
        at: &Term,
        val: &CTerm,
    ) -> (r: Result<CTerm, CError>)
        ensures
            done(
                r,
                final(self)@,
                old(self)@.lift(stored_value(old(self)@.circ, *ty, id, *at, *val)),
            ),
            r is Err ==> final(self)@ == old(self)@,
            final(self).same_run(*old(self)),
    {
        let i: AllocId = match id {
            None => return Err(CError::Fault(Reason::UnknownAlloc(None))),
            Some(i) => i,
        };
        let vals = self.circ.terms_of(val)?;
        self.store_terms(i, at, &vals)?;
        if vals.len() > 1 {
            Ok(cterm(CTermData::CArray(ty.clone(), id)))
        } else {
            Ok(val.clone())
        }
    }

    /// Sets an element of an array, where the current statement runs. Where that is refused,
    /// nothing changes.
    pub fn array_store(&mut self, array: &CTerm, idx: &CTerm, val: &CTerm) -> (r: Result<
        CTerm,
        CError,
    >)
        ensures
            done(
                r,
                final(self)@,
                old(self)@.lift(stored(old(self)@.circ, *array, *idx, *val)),
            ),
            r is Err ==> final(self)@ == old(self)@,
            final(self).same_run(*old(self)),
    {
        match (&array.term, &idx.term) {
            (CTermData::CArray(ty, id), CTermData::CInt(_, _, i)) => self.store_value(
                ty,
                *id,
                i,
                val,
            ),
            (CTermData::CStackPtr(ty, offset, id), CTermData::CInt(_, _, i)) => {
                let at = mk_op(Op::BvAdd, i.clone(), offset.clone());
                self.store_value(ty, *id, &at, val)
            },
            _ => Err(CError::Reject(Reason::CannotStore(array.clone(), idx.clone()))),
        }
    }

    /// `base` with the place `loc` in it set to `val`. Where the place is refused, nothing changes.
    pub fn rebuild_lval(&mut self, base: &CTerm, loc: &CLoc, val: CTerm) -> (r: Result<
        CTerm,
        CError,
    >)
        ensures
            done(
                r,
                final(self)@,
                old(self)@.lift(rebuilt(old(self)@.circ, *base, *loc, val)),
            ),
            r matches Err(CError::Reject(_)) ==> final(self)@ == old(self)@,
            r is Err && is_shallow(*loc) ==> final(self)@ == old(self)@,
            final(self).same_run(*old(self)),
        decreases loc,
    {
        match loc {
            CLoc::Var(_) => Ok(val),
            CLoc::Idx(inner_loc, idx) => {
                let old_inner = self.array_select(base, idx)?;
                let new_inner = self.rebuild_lval(&old_inner, inner_loc, val)?;
                proof {
                    lemma_fitting_store(self@.circ, *base, *idx, new_inner);
                }
                self.array_store(base, idx, &new_inner)
            },
            CLoc::Member(inner_loc, field) => {
                let old_inner = self.field_select(base, field)?;
                let new_inner = self.rebuild_lval(&old_inner, inner_loc, val)?;
                self.field_store(base, field, &new_inner)
            },
        }
    }

    /// The place that is the variable of a place.
    pub fn base_loc(&self, loc: CLoc) -> (r: CLoc)
        ensures
            r == CLoc::Var(loc.root()),
        decreases loc,
    {
        match loc {
            CLoc::Var(l) => CLoc::Var(l),
            CLoc::Member(l, _) => self.base_loc(*l),
            CLoc::Idx(l, _) => self.base_loc(*l),
        }
    }

    fn get_indexed_array(&self, loc: &CLoc) -> (r: Result<CTerm, CError>)
        ensures
            r == indexed_array(self@.circ, *loc),
    {
        let base = self.circ.get_value(&loc.loc().name)?;
        match loc {
            CLoc::Var(_) => Ok(base),
            CLoc::Member(_, field) => match self.field_select(&base, field) {
                Ok(v) => Ok(v),
                Err(e) => Err(e.into_fault()),
            },
            CLoc::Idx(_, idx) => match self.array_select(&base, idx) {
                Ok(v) => Ok(v),
                Err(e) => Err(e.into_fault()),
            },
        }
    }

    /// Assigns to a place. Where the assignment is refused, nothing changes; nor where it fails,
    /// unless a nested place was being rebuilt.
    pub fn gen_assign(&mut self, loc: CLoc, val: CTerm) -> (r: Result<CTerm, CError>)
        ensures
            done(r, final(self)@, old(self)@.lift(assigned(old(self)@.circ, loc, val))),
            r matches Err(CError::Reject(_)) ==> final(self)@ == old(self)@,
            r is Err && !(loc matches CLoc::Member(l, _) && !(*l is Var)) ==> final(self)@ == old(
                self,
            )@,
            final(self).same_run(*old(self)),
    {
        match loc {
            CLoc::Var(l) => self.circ.assign(&l.name, val),
            CLoc::Idx(l, idx) => {
                let old_inner = self.get_indexed_array(&l)?;
                self.array_store(&old_inner, &idx, &val)
            },
            CLoc::Member(l, field) => {
                let inner_loc = l.loc().clone();
                let base = self.circ.get_value(&inner_loc.name)?;
                let old_inner = self.field_select(&base, &field)?;
                let new_inner = self.rebuild_lval(&old_inner, &l, val)?;
                let res = match self.field_store(&base, &field, &new_inner) {
                    Ok(v) => v,
                    Err(e) => return Err(e.into_fault()),
                };
                proof {
                    lemma_rebuilt_changes_memory_only(old(self)@.circ, old_inner, *l, val);
                    lemma_circ_assign_fault(self@.circ, inner_loc.name, res);
                }
                self.circ.assign(&inner_loc.name, res)
            },
        }
    }

    /// The 32-bit number that a value folds to.
    pub fn fold_(&self, v: &CTerm) -> (r: Result<i32, CError>)
        ensures
            match (r, folded_i32(*v)) {
                (Ok(a), Ok(b)) => a == b,
                (Err(e), Err(f)) => e == f,
                _ => false,
            },
    {
        let term = fold(&v.simple_term()?);
        let n: i128 = cint(term).const_int()?;
        if i32::MIN as i128 <= n && n <= i32::MAX as i128 {
            Ok(n as i32)
        } else {
            Err(CError::Fault(Reason::NotI32))
        }
    }

    /// The value of a constant.
    pub fn const_(&self, c: &Constant) -> (r: Result<CTerm, CError>)
        ensures
            r == constant(*c),
    {
        match c {
            Constant::Integer(i) => const_integer(i),
            Constant::Other => Err(CError::Fault(Reason::Unsupported)),
        }
    }

    /// The operator on values that a binary operator is.
    pub fn get_bin_op(&self, op: BinaryOperator) -> (r: Result<COp, CError>)
        ensures
            r == bin_op(op),
    {
        match op {
            BinaryOperator::Plus => Ok(COp::Add),
            BinaryOperator::AssignPlus => Ok(COp::Add),
            BinaryOperator::AssignDivide => Ok(COp::Div),
            BinaryOperator::Minus => Ok(COp::Sub),
            BinaryOperator::Multiply => Ok(COp::Mul),
            BinaryOperator::Divide => Ok(COp::Div),
            BinaryOperator::Equals => Ok(COp::Eq),
            BinaryOperator::NotEquals => Ok(COp::Neq),
            BinaryOperator::Greater => Ok(COp::Ugt),
            BinaryOperator::GreaterOrEqual => Ok(COp::Uge),
            BinaryOperator::Less => Ok(COp::Ult),
            BinaryOperator::LessOrEqual => Ok(COp::Ule),
            BinaryOperator::BitwiseAnd => Ok(COp::BitAnd),
            BinaryOperator::BitwiseOr => Ok(COp::BitOr),
            BinaryOperator::BitwiseXor => Ok(COp::BitXor),
            BinaryOperator::LogicalAnd => Ok(COp::And),
            BinaryOperator::LogicalOr => Ok(COp::Or),
            BinaryOperator::Modulo => Ok(COp::Rem),
            BinaryOperator::ShiftLeft => Ok(COp::Shl),
            BinaryOperator::ShiftRight => Ok(COp::Shr),
            _ => Err(CError::Fault(Reason::Unsupported)),
        }
    }

    /// The operator on values by which a unary operator changes its operand.
    pub fn get_u_op(&self, op: UnaryOperator) -> (r: Result<COp, CError>)
        ensures
            r == u_op(op),
    {
        match op {
            UnaryOperator::PostIncrement => Ok(COp::Add),
            UnaryOperator::PostDecrement => Ok(COp::Sub),
            _ => Err(CError::Fault(Reason::Unsupported)),
        }
    }

    /// The offset of the element that an indexed array names.
    pub fn index_offset(&self, index: &IndexTerm) -> (r: Result<Term, CError>)
        ensures
            r == offset(index.base, index.indices@),
    {
        match index.base.term.type_() {
            Ty::Array(_, sizes, _) => {
                let mut acc: Term = bv_lit(0, 32);
                let mut total: i32 = 1;
                let mut i: usize = 0;
                while i < index.indices.len()
                    invariant
                        i <= index.indices@.len(),
                        offset_from(sizes.seq(), index.indices@, 0, 1, lit_bv(0, 32))
                            == offset_from(
                            sizes.seq(),
                            index.indices@,
                            i as nat,
                            total as int,
                            acc,
                        ),
                        offset(index.base, index.indices@) == offset_from(
                            sizes.seq(),
                            index.indices@,
                            0,
                            1,
                            lit_bv(0, 32),
                        ),
                    decreases index.indices@.len() - i,
                {
                    let t = index.indices[index.indices.len() - 1 - i].simple_term()?;
                    let size: i32 = match sizes.get(i) {
                        None => return Err(CError::Fault(Reason::TooManyIndices)),
                        Some(n) => i32_from_size(*n),
                    };
                    let passed: i32 = match total.checked_mul(size) {
                        None => return Err(CError::Fault(Reason::Overflow)),
                        Some(n) => n,
                    };
                    acc = if i == 0 {
                        mk_op(Op::BvAdd, t, acc)
                    } else {
                        mk_op(Op::BvAdd, mk_op(Op::BvMul, bv_lit(total as i128, 32), t), acc)
                    };
                    total = passed;
                    i = i + 1;
                }
                Ok(acc)
            },
            _ => {
                if index.indices.len() != 1 {
                    Err(CError::Fault(Reason::IndexCount))
                } else {
                    index.indices[0].simple_term()
                }
            },
        }
    }

    fn gen_index_value(&self, index: &IndexTerm) -> (r: Result<CTerm, CError>)
        ensures
            r == index_value(self@.circ, index.base, index.indices@),
    {
        let at = self.index_offset(index)?;
        if let CTermData::CArray(Ty::Array(n, sizes, t), id) = &index.base.term {
            if sizes.is_longer_than(index.indices.len()) {
                let new_sizes = drop_last_numbers(sizes, index.indices.len());
                let new_ty = Ty::Array(*n, Rc::new(new_sizes), t.clone());
                return Ok(cterm(CTermData::CStackPtr(new_ty, at, *id)));
            }
        }
        self.array_select(&index.base, &cint(at))
    }
}

fn set_term(fs: &FieldList<CTerm>, key: &String, val: &CTerm) -> (r: FieldList<CTerm>)
    ensures
        r == fs.with(key@, *val),
{
    FieldList { list: Rc::new(set_term_in(&fs.list, key, val)) }
}

fn set_term_in(l: &List<Field<CTerm>>, key: &String, val: &CTerm) -> (r: List<Field<CTerm>>)
    ensures
        r == set_field(*l, key@, *val),
    decreases l,
{
    match l {
        List::Nil => List::Nil,
        List::Cons(f, rest) => if f.name == *key {
            List::Cons(Field { name: f.name.clone(), value: val.clone() }, rest.clone())
        } else {
            List::Cons(
                Field { name: f.name.clone(), value: f.value.clone() },
                Rc::new(set_term_in(rest, key, val)),
            )
        },
    }
}

impl CGen {
    /// The place that an expression names.
    #[verifier::spinoff_prover]
    pub fn gen_lval(&mut self, e: &Expression) -> (r: Result<CLoc, CError>)
        ensures
            done(r, final(self)@, lval(old(self).nesting(), old(self)@, *e)),
            final(self).same_run(*old(self)),
        decreases old(self).depth, 0nat, e, 3nat,
    {
        match e {
            Expression::Identifier(name) => Ok(CLoc::Var(Loc { name: name.clone() })),
            Expression::BinaryOperator(b) => {
                if b.operator != BinaryOperator::Index {
                    return Err(CError::Fault(Reason::Unsupported));
                }
                let loc = self.gen_lval(&b.lhs)?;
                let index = self.gen_index(e)?;
                let at = self.index_offset(&index)?;
                let place = if let Expression::BinaryOperator(_) = &b.lhs {
                    self.base_loc(loc)
                } else {
                    loc
                };
                Ok(CLoc::Idx(Box::new(place), cint(at)))
            },
            Expression::Member(m) => {
                let name = name_from_expr(&m.expression)?;
                Ok(CLoc::Member(Box::new(CLoc::Var(Loc { name })), m.identifier.clone()))
            },
            _ => Err(CError::Fault(Reason::Unsupported)),
        }
    }

    /// The array that an expression indexes, and the indices.
    pub fn gen_index(&mut self, e: &Expression) -> (r: Result<IndexTerm, CError>)
        ensures
            match (r, index(old(self).nesting(), old(self)@, *e)) {
                (Ok(i), Ok(((base, indices), st))) => i.base == base && i.indices@ == indices
                    && final(self)@ == st,
                (Err(e), Err(f)) => e == f,
                _ => false,
            },
            final(self).same_run(*old(self)),
        decreases
                old(self).depth,
                0nat,
                e,
                if is_index(*e) {
                    0nat
                } else {
                    2nat
                },
    {
        if let Expression::BinaryOperator(b) = e {
            if b.operator == BinaryOperator::Index {
                let mut a = self.gen_index(&b.lhs)?;
                let i = self.gen_index(&b.rhs)?;
                a.indices.push(i.base);
                return Ok(a);
            }
        }
        let base = self.gen_expr(e)?;
        Ok(IndexTerm { base, indices: Vec::new() })
    }

    /// The value of an expression.
    #[verifier::spinoff_prover]
    pub fn gen_expr(&mut self, e: &Expression) -> (r: Result<CTerm, CError>)
        ensures
            done(r, final(self)@, expr(old(self).nesting(), old(self)@, *e)),
            final(self).same_run(*old(self)),
        decreases old(self).depth, 0nat, e, 1nat,
    {
        match e {
            Expression::Identifier(name) => self.circ.get_value(name),
            Expression::Constant(c) => self.const_(c),
            Expression::BinaryOperator(b) => {
                if b.operator == BinaryOperator::Index {
                    let index = self.gen_index(e)?;
                    self.gen_index_value(&index)
                } else {
                    self.gen_binary(b)
                }
            },
            Expression::UnaryOperator(u) => self.gen_unary(u),
            Expression::Cast(c) => {
                let to_ty = self.s_type_(c.target.specifiers.as_slice())?;
                let v = self.gen_expr(&c.expression)?;
                cast(to_ty, v)
            },
            Expression::Call(c) => self.gen_call(c),
            Expression::Member(m) => {
                let base = self.gen_expr(&m.expression)?;
                self.field_select(&base, &m.identifier)
            },
            Expression::SizeOf(t) => match self.s_type_(t.specifiers.as_slice())? {
                Some(_) => Ok(cint(bv_lit(1, 32))),
                None => Err(CError::Fault(Reason::MissingType)),
            },
            Expression::Other => Err(CError::Fault(Reason::Unsupported)),
        }
    }

    #[verifier::spinoff_prover]
    fn gen_binary(&mut self, b: &BinaryOperatorExpression) -> (r: Result<CTerm, CError>)
        ensures
            done(r, final(self)@, binary(old(self).nesting(), old(self)@, *b)),
            final(self).same_run(*old(self)),
        decreases old(self).depth, 0nat, b, 0nat,
    {
        match b.operator {
            BinaryOperator::Assign => {
                let loc = self.gen_lval(&b.lhs)?;
                let val = self.gen_expr(&b.rhs)?;
                self.gen_assign(loc, val)
            },
            BinaryOperator::AssignPlus | BinaryOperator::AssignDivide => {
                let op = self.get_bin_op(b.operator)?;
                let i = self.gen_expr(&b.lhs)?;
                let rhs = self.gen_expr(&b.rhs)?;
                let loc = self.gen_lval(&b.lhs)?;
                let val = match apply_op(op, i, rhs) {
                    Ok(v) => v,
                    Err(e) => return Err(e.into_fault()),
                };
                self.gen_assign(loc, val)
            },
            _ => {
                let op = self.get_bin_op(b.operator)?;
                let a = self.gen_expr(&b.lhs)?;
                let rhs = self.gen_expr(&b.rhs)?;
                if op == COp::Shl || op == COp::Shr {
                    let t = fold(&rhs.simple_term()?);
                    apply_op(op, a, cint(t))
                } else {
                    apply_op(op, a, rhs)
                }
            },
        }
    }

    fn gen_unary(&mut self, u: &UnaryOperatorExpression) -> (r: Result<CTerm, CError>)
        ensures
            done(r, final(self)@, unary(old(self).nesting(), old(self)@, *u)),
            final(self).same_run(*old(self)),
        decreases old(self).depth, 0nat, u, 0nat,
    {
        match u.operator {
            UnaryOperator::PostIncrement | UnaryOperator::PostDecrement => {
                let op = self.get_u_op(u.operator)?;
                let i = self.gen_expr(&u.operand)?;
                let one = cint(bv_lit(1, 32));
                let loc = self.gen_lval(&u.operand)?;
                let val = match apply_op(op, i, one) {
                    Ok(v) => v,
                    Err(e) => return Err(e.into_fault()),
                };
                self.gen_assign(loc, val)
            },
            UnaryOperator::SizeOf => match &u.operand {
                Expression::Identifier(name) => match self.typedefs.get(name.as_str()) {
                    Some(_) => Ok(cint(bv_lit(1, 32))),
                    None => Err(CError::Fault(Reason::UnknownType(name.clone()))),
                },
                _ => Err(CError::Fault(Reason::Unsupported)),
            },
            _ => Err(CError::Fault(Reason::Unsupported)),
        }
    }

    fn gen_exprs(&mut self, es: &[Expression]) -> (r: Result<Vec<CTerm>, CError>)
        ensures
            done_all(r, final(self)@, exprs(old(self).nesting(), old(self)@, es@, 0, Seq::empty())),
            final(self).same_run(*old(self)),
        decreases old(self).depth, 0nat, es@, es@.len() + 1,
    {
        let mut vs: Vec<CTerm> = Vec::new();
        let mut i: usize = 0;
        while i < es.len()
            invariant
                i <= es@.len(),
                self.same_run(*old(self)),
                exprs(old(self).nesting(), old(self)@, es@, 0, Seq::empty()) == exprs(
                    old(self).nesting(),
                    self@,
                    es@,
                    i as nat,
                    vs@,
                ),
            decreases es@.len() - i,
        {
            let v = self.gen_expr(&es[i])?;
            vs.push(v);
            i = i + 1;
        }
        Ok(vs)
    }

    fn gen_call(&mut self, c: &CallExpression) -> (r: Result<CTerm, CError>)
        ensures
            done(r, final(self)@, call(old(self).nesting(), old(self)@, *c)),
            final(self).same_run(*old(self)),
        decreases old(self).depth, 0nat, c, 0nat,
    {
        let fname = name_from_expr(&c.callee)?;
        let f = match self.functions.get(fname.as_str()) {
            Some(f) => f.clone(),
            None => return Err(CError::Fault(Reason::NoFunction(fname))),
        };
        let args = self.gen_exprs(c.arguments.as_slice())?;
        let left: u64 = self.depth;
        if left == 0 {
            return Err(CError::Fault(Reason::CallDepth));
        }
        self.depth = left - 1;
        let r = self.gen_called(&f, &args);
        self.depth = left;
        r
    }

    #[verifier::spinoff_prover]
    fn gen_called(&mut self, f: &FnInfo, args: &Vec<CTerm>) -> (r: Result<
        CTerm,
        CError,
    >)
        ensures
            done(r, final(self)@, called(old(self).nesting(), old(self)@, *f, args@)),
            final(self).same_run(*old(self)),
        decreases old(self).depth, 9nat, f, 0nat,
    {
        self.circ.enter_fn(f.name.clone(), clone_opt_ty(&f.ret_ty));
        match &f.args {
            Some(ps) => {
                if ps.len() != args.len() {
                    return Err(CError::Fault(Reason::ArgumentCount));
                }
                self.bind_params(ps.as_slice(), args)?;
            },
            None => {
                if args.len() != 0 {
                    return Err(CError::Fault(Reason::ArgumentCount));
                }
            },
        }
        self.gen_stmt(&f.body)?;
        let ret = match self.circ.exit_fn()? {
            Some(v) => v,
            None => cfalse(),
        };
        match &f.ret_ty {
            None => Ok(ret),
            Some(_) => cast(clone_opt_ty(&f.ret_ty), ret),
        }
    }

    fn bind_params(
        &mut self,
        ps: &[ParameterDeclaration],
        args: &Vec<CTerm>,
    ) -> (r: Result<(), CError>)
        requires
            ps@.len() == args@.len(),
        ensures
            done(r, final(self)@, bound(old(self).nesting(), old(self)@, ps@, args@, 0)),
            final(self).same_run(*old(self)),
        decreases old(self).depth, 0nat, ps@, ps@.len() + 1,
    {
        let mut i: usize = 0;
        while i < ps.len()
            invariant
                i <= ps@.len(),
                ps@.len() == args@.len(),
                self.same_run(*old(self)),
                bound(old(self).nesting(), old(self)@, ps@, args@, 0) == bound(
                    old(self).nesting(),
                    self@,
                    ps@,
                    args@,
                    i as nat,
                ),
            decreases ps@.len() - i,
        {
            let p = self.get_param_info(&ps[i], false)?;
            self.circ.declare_init(&p.name, p.ty, args[i].clone())?;
            i = i + 1;
        }
        Ok(())
    }

    fn push_leaves(&mut self, i: &Initializer, acc: &mut Vec<CTerm>) -> (r: Result<
        (),
        CError,
    >)
        ensures
            match (r, leaves(old(self).nesting(), old(self)@, *i, old(acc)@)) {
                (Ok(_), Ok((vs, st))) => final(acc)@ == vs && final(self)@ == st,
                (Err(e), Err(f)) => e == f,
                _ => false,
            },
            final(self).same_run(*old(self)),
        decreases old(self).depth, 1nat, i, 0nat,
    {
        match i {
            Initializer::Expression(e) => {
                let v = self.gen_expr(e)?;
                acc.push(v);
                Ok(())
            },
            Initializer::List(l) => {
                let mut j: usize = 0;
                while j < l.len()
                    invariant
                        j <= l@.len(),
                        *i == Initializer::List(*l),
                        self.same_run(*old(self)),
                        leaves_from(old(self).nesting(), old(self)@, l@, 0, old(acc)@)
                            == leaves_from(
                            old(self).nesting(),
                            self@,
                            l@,
                            j as nat,
                            acc@,
                        ),
                    decreases l@.len() - j,
                {
                    self.push_leaves(&l[j], acc)?;
                    j = j + 1;
                }
                Ok(())
            },
        }
    }

    fn store_values(&mut self, id: AllocId, vs: &Vec<CTerm>) -> (r: Result<(), CError>)
        ensures
            does(r, final(self)@.circ, stored_values(old(self)@.circ, id, vs@, 0)),
            final(self)@ == old(self)@.with_circ(final(self)@.circ),
            final(self).same_run(*old(self)),
    {
        let mut i: usize = 0;
        while i < vs.len()
            invariant
                i <= vs@.len(),
                stored_values(old(self)@.circ, id, vs@, 0) == stored_values(
                    self@.circ,
                    id,
                    vs@,
                    i as nat,
                ),
                self@ == old(self)@.with_circ(self@.circ),
                self.same_run(*old(self)),
            decreases vs@.len() - i,
        {
            let t = vs[i].simple_term()?;
            self.circ.store(id, bv_lit(i as i128, 32), t)?;
            i = i + 1;
        }
        Ok(())
    }

    fn mk_array_value(&mut self, ty: &Ty, n: usize, t: &Ty, vs: &Vec<CTerm>) -> (r: Result<
        CTerm,
        CError,
    >)
        ensures
            done(
                r,
                final(self)@,
                old(self)@.lift(array_value(old(self)@.circ, *ty, n, *t, vs@)),
            ),
            final(self).same_run(*old(self)),
    {
        if n != vs.len() {
            return Err(CError::Fault(Reason::InitializerCount));
        }
        let width: usize = match t.num_bits() {
            None => return Err(CError::Fault(Reason::Overflow)),
            Some(b) => b,
        };
        let id: AllocId = self.circ.zero_allocate(n, width);
        self.store_values(id, vs)?;
        Ok(cterm(CTermData::CArray(ty.clone(), Some(id))))
    }

    /// The value of an initializer of the type `ty`.
    pub fn gen_init(&mut self, ty: &Ty, i: &Initializer) -> (r: Result<CTerm, CError>)
        ensures
            done(r, final(self)@, init(old(self).nesting(), old(self)@, *ty, *i)),
            final(self).same_run(*old(self)),
        decreases old(self).depth, 1nat, i, 1nat,
    {
        match i {
            Initializer::Expression(e) => self.gen_expr(e),
            Initializer::List(l) => match ty {
                Ty::Array(n, _, t) => {
                    let mut values: Vec<CTerm> = Vec::new();
                    self.push_leaves(i, &mut values)?;
                    self.mk_array_value(ty, *n, t, &values)
                },
                Ty::Struct(_, fs) => {
                    if !fs.has_len(l.len()) {
                        return Err(CError::Fault(Reason::InitializerCount));
                    }
                    self.circ.default(ty)
                },
                _ => Err(CError::Fault(Reason::Unsupported)),
            },
        }
    }

    fn define_types(&mut self, infos: &Vec<DeclInfo>) -> (r: Result<(), CError>)
        ensures
            done(r, final(self)@, typedefs_from(old(self)@, infos@, 0)),
            final(self).same_run(*old(self)),
    {
        let mut i: usize = 0;
        while i < infos.len()
            invariant
                i <= infos@.len(),
                self.same_run(*old(self)),
                typedefs_from(old(self)@, infos@, 0) == typedefs_from(self@, infos@, i as nat),
            decreases infos@.len() - i,
        {
            let d = &infos[i];
            if self.typedefs.get(d.name.as_str()).is_some() {
                return Err(CError::Fault(Reason::TypedefRedefined(d.name.clone())));
            }
            self.typedefs.insert(d.name.clone(), d.ty.clone());
            i = i + 1;
        }
        Ok(())
    }

    fn gen_initial(&mut self, ty: &Ty, i: &Option<Initializer>) -> (r: Result<
        CTerm,
        CError,
    >)
        ensures
            done(r, final(self)@, initial(old(self).nesting(), old(self)@, *ty, *i)),
            final(self).same_run(*old(self)),
        decreases old(self).depth, 2nat, i, 0nat,
    {
        match i {
            Some(i) => self.gen_init(ty, i),
            None => self.circ.default(ty),
        }
    }

    fn declare_variables(
        &mut self,
        ds: &[InitDeclarator],
        infos: &Vec<DeclInfo>,
    ) -> (r: Result<Vec<CTerm>, CError>)
        ensures
            done_all(
                r,
                final(self)@,
                variables_from(old(self).nesting(), old(self)@, ds@, infos@, 0, Seq::empty()),
            ),
            final(self).same_run(*old(self)),
        decreases old(self).depth, 3nat, ds@, ds@.len() + 1,
    {
        let mut exprs: Vec<CTerm> = Vec::new();
        let mut i: usize = 0;
        while i < ds.len() && i < infos.len()
            invariant
                i <= ds@.len(),
                i <= infos@.len(),
                self.same_run(*old(self)),
                variables_from(old(self).nesting(), old(self)@, ds@, infos@, 0, Seq::empty())
                    == variables_from(old(self).nesting(), self@, ds@, infos@, i as nat, exprs@),
            decreases ds@.len() - i,
        {
            let info = &infos[i];
            let v = self.gen_initial(&info.ty, &ds[i].initializer)?;
            let w = cast(Some(info.ty.clone()), v.clone())?;
            self.circ.declare_init(&info.name, info.ty.clone(), w)?;
            exprs.push(v);
            i = i + 1;
        }
        Ok(exprs)
    }

    /// Translates a declaration and gives the initial values of the variables that it declares.
    pub fn gen_decl(&mut self, d: &Declaration) -> (r: Result<Vec<CTerm>, CError>)
        ensures
            done_all(r, final(self)@, decl(old(self).nesting(), old(self)@, *d)),
            final(self).same_run(*old(self)),
        decreases old(self).depth, 4nat, d, 0nat,
    {
        if d.specifiers.len() == 0 {
            return Err(CError::Fault(Reason::EmptySpecifiers));
        }
        if let DeclarationSpecifier::StorageClass = &d.specifiers[0] {
            let infos = self.decl_info_from(d, 1)?;
            self.define_types(&infos)?;
            Ok(Vec::new())
        } else {
            let infos = self.decl_info_from(d, 0)?;
            self.declare_variables(d.declarators.as_slice(), &infos)
        }
    }

    fn fold_expr(&mut self, e: &Expression) -> (r: Result<Option<i32>, CError>)
        ensures
            done_number(r, final(self)@, folded_expr(old(self).nesting(), old(self)@, *e)),
            final(self).same_run(*old(self)),
        decreases old(self).depth, 1nat, e, 0nat,
    {
        let v = self.gen_expr(e)?;
        Ok(Some(self.fold_(&v)?))
    }

    fn get_loop_start(&mut self, i: &ForInitializer) -> (r: Result<Option<i32>, CError>)
        ensures
            done_number(r, final(self)@, loop_start(old(self).nesting(), old(self)@, *i)),
            final(self).same_run(*old(self)),
        decreases old(self).depth, 5nat, i, 0nat,
    {
        match i {
            ForInitializer::Declaration(d) => {
                let exprs = self.gen_decl(d)?;
                if exprs.len() != 1 {
                    return Err(CError::Fault(Reason::LoopDeclaration));
                }
                Ok(Some(self.fold_(&exprs[0])?))
            },
            ForInitializer::Expression(e) => {
                if let Expression::BinaryOperator(_) = e {
                    self.fold_expr(e)
                } else {
                    Ok(None)
                }
            },
            ForInitializer::Other => Ok(None),
        }
    }

    fn get_loop_end(&mut self, c: &Option<Expression>) -> (r: Result<
        Option<i32>,
        CError,
    >)
        ensures
            done_number(r, final(self)@, loop_end(old(self).nesting(), old(self)@, *c)),
            final(self).same_run(*old(self)),
        decreases old(self).depth, 5nat, c, 0nat,
    {
        match c {
            None => Err(CError::Fault(Reason::LoopHeader)),
            Some(Expression::BinaryOperator(b)) => {
                let n: i32 = match self.fold_expr(&b.rhs)? {
                    Some(n) => n,
                    None => return Ok(None),
                };
                get_loop_bound(b.operator, n)
            },
            Some(_) => Ok(None),
        }
    }

    fn get_loop_step(&mut self, s: &Option<Expression>) -> (r: Result<
        Option<i32>,
        CError,
    >)
        ensures
            done_number(r, final(self)@, loop_step(old(self).nesting(), old(self)@, *s)),
            final(self).same_run(*old(self)),
        decreases old(self).depth, 5nat, s, 0nat,
    {
        match s {
            None => Err(CError::Fault(Reason::LoopHeader)),
            Some(Expression::UnaryOperator(u)) => match u.operator {
                UnaryOperator::PostIncrement | UnaryOperator::PreIncrement => Ok(Some(1)),
                UnaryOperator::PostDecrement | UnaryOperator::PreDecrement => Ok(Some(-1)),
                _ => Ok(None),
            },
            Some(Expression::BinaryOperator(b)) => {
                if b.operator == BinaryOperator::AssignPlus {
                    self.fold_expr(&b.rhs)
                } else {
                    Ok(None)
                }
            },
            Some(_) => Ok(None),
        }
    }

    /// How often a loop runs.
    pub fn get_const_iters(&mut self, f: &ForStatement) -> (r: Result<
        ConstIteration,
        CError,
    >)
        ensures
            match (r, iterations(old(self).nesting(), old(self)@, *f)) {
                (Ok(c), Ok((n, st))) => c.val == n && final(self)@ == st,
                (Err(e), Err(f)) => e == f,
                _ => false,
            },
            final(self).same_run(*old(self)),
        decreases old(self).depth, 6nat, f, 0nat,
    {
        let start = self.get_loop_start(&f.initializer)?;
        let end = self.get_loop_end(&f.condition)?;
        let step = self.get_loop_step(&f.step)?;
        match (start, end, step) {
            (Some(start), Some(end), Some(step)) => Ok(
                ConstIteration { val: trip_count(start, end, step) },
            ),
            _ => Err(CError::Fault(Reason::LoopHeader)),
        }
    }

    fn gen_round(&mut self, f: &ForStatement) -> (r: Result<(), CError>)
        ensures
            done(r, final(self)@, one_round(old(self).nesting(), old(self)@, *f)),
            final(self).same_run(*old(self)),
        decreases old(self).depth, 8nat, f, 0nat,
    {
        self.circ.enter_scope()?;
        self.gen_stmt(&f.statement)?;
        self.circ.exit_scope()?;
        match &f.step {
            None => Err(CError::Fault(Reason::LoopHeader)),
            Some(e) => {
                self.gen_expr(e)?;
                Ok(())
            },
        }
    }

    fn gen_rounds(&mut self, f: &ForStatement, n: i32) -> (r: Result<(), CError>)
        ensures
            done(
                r,
                final(self)@,
                rounds(
                    old(self).nesting(),
                    old(self)@,
                    *f,
                    if n > 0 {
                        n as nat
                    } else {
                        0
                    },
                ),
            ),
            final(self).same_run(*old(self)),
        decreases old(self).depth, 8nat, f, 1nat,
    {
        let mut left: i32 = if n > 0 {
            n
        } else {
            0
        };
        let ghost all = left as nat;
        while left > 0
            invariant
                0 <= left,
                all == (if n > 0 {
                    n as nat
                } else {
                    0
                }),
                self.same_run(*old(self)),
                rounds(old(self).nesting(), old(self)@, *f, all) == rounds(
                    old(self).nesting(),
                    self@,
                    *f,
                    left as nat,
                ),
            decreases left,
        {
            self.gen_round(f)?;
            left = left - 1;
        }
        Ok(())
    }

    fn gen_branch(&mut self, c: Term, s: &Statement) -> (r: Result<(), CError>)
        ensures
            done(r, final(self)@, branch(old(self).nesting(), old(self)@, c, *s)),
            final(self).same_run(*old(self)),
        decreases old(self).depth, 8nat, s, 1nat,
    {
        self.circ.enter_condition(c)?;
        self.gen_stmt(s)?;
        self.circ.exit_condition()
    }

    fn gen_block(&mut self, items: &[BlockItem]) -> (r: Result<(), CError>)
        ensures
            done(r, final(self)@, block(old(self).nesting(), old(self)@, items@, 0)),
            final(self).same_run(*old(self)),
        decreases old(self).depth, 8nat, items@, items@.len() + 1,
    {
        let mut i: usize = 0;
        while i < items.len()
            invariant
                i <= items@.len(),
                self.same_run(*old(self)),
                block(old(self).nesting(), old(self)@, items@, 0) == block(
                    old(self).nesting(),
                    self@,
                    items@,
                    i as nat,
                ),
            decreases items@.len() - i,
        {
            match &items[i] {
                BlockItem::Declaration(d) => {
                    self.gen_decl(d)?;
                },
                BlockItem::Statement(s) => {
                    self.gen_stmt(s)?;
                },
                BlockItem::StaticAssert => return Err(CError::Fault(Reason::Unsupported)),
            }
            i = i + 1;
        }
        Ok(())
    }

    /// Translates a statement.
    #[verifier::spinoff_prover]
    pub fn gen_stmt(&mut self, s: &Statement) -> (r: Result<(), CError>)
        ensures
            done(r, final(self)@, stmt(old(self).nesting(), old(self)@, *s)),
            final(self).same_run(*old(self)),
        decreases old(self).depth, 8nat, s, 0nat,
    {
        match s {
            Statement::Compound(items) => self.gen_block(items.as_slice()),
            Statement::If(i) => {
                let cond = self.gen_expr(&i.condition)?;
                let t = cond.simple_term()?;
                self.gen_branch(t.clone(), &i.then_statement)?;
                match &i.else_statement {
                    None => Ok(()),
                    Some(s) => self.gen_branch(mk_not(t), s),
                }
            },
            Statement::Return(None) => self.circ.return_(None),
            Statement::Return(Some(e)) => {
                let v = self.gen_expr(e)?;
                self.circ.return_(Some(v))
            },
            Statement::Expression(None) => Ok(()),
            Statement::Expression(Some(e)) => {
                self.gen_expr(e)?;
                Ok(())
            },
            Statement::For(f) => {
                self.circ.enter_scope()?;
                let iters = self.get_const_iters(f)?;
                self.gen_rounds(f, iters.val)?;
                self.circ.exit_scope()
            },
            Statement::Other => Err(CError::Fault(Reason::Unsupported)),
        }
    }

    fn declare_entry_params(&mut self, ps: &[ParameterDeclaration]) -> (r: Result<
        (),
        CError,
    >)
        ensures
            done(r, final(self)@, entry_params(old(self).nesting(), old(self)@, ps@, 0)),
            final(self).same_run(*old(self)),
    {
        let mut i: usize = 0;
        while i < ps.len()
            invariant
                i <= ps@.len(),
                self.same_run(*old(self)),
                entry_params(old(self).nesting(), old(self)@, ps@, 0) == entry_params(
                    old(self).nesting(),
                    self@,
                    ps@,
                    i as nat,
                ),
            decreases ps@.len() - i,
        {
            let p = self.get_param_info(&ps[i], true)?;
            self.circ.declare_input(&p.name, &p.ty, p.vis)?;
            i = i + 1;
        }
        Ok(())
    }

    fn publish(&mut self, r: &CTerm) -> (res: Result<(), CError>)
        ensures
            done(res, final(self)@, published(old(self)@, *r)),
            final(self).same_run(*old(self)),
    {
        match self.mode {
            Mode::Mpc(_) => {
                let mut ts = self.circ.terms_of(r)?;
                self.circ.outputs.append(&mut ts);
                Ok(())
            },
            _ => Err(CError::Fault(Reason::Unsupported)),
        }
    }

    /// Translates the entry function called `n`.
    pub fn entry_fn(&mut self, n: &String) -> (r: Result<(), CError>)
        ensures
            done(r, final(self)@, entry(old(self).nesting(), old(self)@, *n)),
            final(self).same_run(*old(self)),
    {
        let f = match self.functions.get(n.as_str()) {
            Some(f) => f.clone(),
            None => return Err(CError::Fault(Reason::NoFunction(n.clone()))),
        };
        self.circ.enter_fn(f.name.clone(), clone_opt_ty(&f.ret_ty));
        if let Some(ps) = &f.args {
            self.declare_entry_params(ps.as_slice())?;
        }
        self.gen_stmt(&f.body)?;
        match self.circ.exit_fn()? {
            None => Ok(()),
            Some(v) => self.publish(&v),
        }
    }

    /// Translates the external declarations of the program.
    pub fn visit_files(&mut self) -> (r: Result<(), CError>)
        ensures
            done(r, final(self)@, visited(old(self).nesting(), old(self)@, old(self).tu.nodes@, 0)),
            final(self).same_run(*old(self)),
    {
        let tu = self.tu.clone();
        let mut i: usize = 0;
        while i < tu.nodes.len()
            invariant
                i <= tu.nodes@.len(),
                tu == old(self).tu,
                self.same_run(*old(self)),
                visited(old(self).nesting(), old(self)@, tu.nodes@, 0) == visited(
                    old(self).nesting(),
                    self@,
                    tu.nodes@,
                    i as nat,
                ),
            decreases tu.nodes@.len() - i,
        {
            match &tu.nodes[i] {
                ExternalDeclaration::Declaration(d) => {
                    self.gen_decl(d)?;
                },
                ExternalDeclaration::FunctionDefinition(f) => {
                    let info = self.get_fn_info(f)?;
                    self.functions.insert(info.name.clone(), info);
                },
                ExternalDeclaration::Other => return Err(CError::Fault(Reason::Unsupported)),
            }
            i = i + 1;
        }
        Ok(())
    }
}

fn get_loop_bound(op: BinaryOperator, n: i32) -> (r: Result<Option<i32>, CError>)
    ensures
        match (r, loop_bound(op, n as int)) {
            (Ok(Some(a)), Ok(Some(b))) => a == b,
            (Ok(None), Ok(None)) => true,
            (Err(e), Err(f)) => e == f,
            _ => false,
        },
{
    match op {
        BinaryOperator::Less => Ok(Some(n)),
        BinaryOperator::LessOrEqual => match n.checked_add(1) {
            Some(m) => Ok(Some(m)),
            None => Err(CError::Fault(Reason::Overflow)),
        },
        BinaryOperator::Greater => Ok(Some(n)),
        BinaryOperator::GreaterOrEqual => match n.checked_sub(1) {
            Some(m) => Ok(Some(m)),
            None => Err(CError::Fault(Reason::Overflow)),
        },
        _ => Ok(None),
    }
}

} // verus!
