//! The types of C values, and lists of named fields.
use std::rc::Rc;

use vstd::prelude::*;

use crate::list::shared;
use crate::list::List;

verus! {

/// A named field.
#[derive(Debug, PartialEq, Eq)]
pub struct Field<T> {
    pub name: String,
    pub value: T,
}

/// A list of named fields, in the order of their declaration.
#[derive(Debug, PartialEq, Eq)]
pub struct FieldList<T> {
    pub list: Rc<List<Field<T>>>,
}

/// The type of a C value.
#[derive(Debug, PartialEq, Eq)]
pub enum Ty {
    Bool,
    /// An integer: whether it is signed, and its width.
    Int(bool, usize),
    /// An array: the number of its elements, the sizes of its dimensions from the innermost to the
    /// outermost, and the type of an element.
    Array(usize, Rc<List<usize>>, Rc<Ty>),
    /// A pointer: its width and what it points to.
    Ptr(usize, Rc<Ty>),
    /// A structure: its name, where it has one, and its fields.
    Struct(Option<String>, FieldList<Ty>),
}

/// The first field called `key`.
pub open spec fn search<T>(l: List<Field<T>>, key: Seq<char>) -> Option<T>
    decreases l,
{
    match l {
        List::Nil => None,
        List::Cons(f, rest) => if f.name@ == key {
            Some(f.value)
        } else {
            search(*rest, key)
        },
    }
}

/// The fields with the first one called `key` set to `v`.
pub open spec fn set_field<T>(l: List<Field<T>>, key: Seq<char>, v: T) -> List<Field<T>>
    decreases l,
{
    match l {
        List::Nil => List::Nil,
        List::Cons(f, rest) => if f.name@ == key {
            List::Cons(Field { name: f.name, value: v }, rest)
        } else {
            List::Cons(f, Rc::new(set_field(*rest, key, v)))
        },
    }
}

fn search_list<'a, T>(l: &'a List<Field<T>>, key: &String) -> (r: Option<&'a T>)
    ensures
        r == (match search(*l, key@) {
            Some(v) => Some(&v),
            None => None,
        }),
    decreases l,
{
    match l {
        List::Nil => None,
        List::Cons(f, rest) => if f.name == *key {
            Some(&f.value)
        } else {
            search_list(rest, key)
        },
    }
}

impl<T> Clone for FieldList<T> {
    fn clone(&self) -> (r: FieldList<T>)
        ensures
            r == *self,
    {
        FieldList { list: self.list.clone() }
    }
}

impl<T> FieldList<T> {
    /// The number of fields.
    pub open spec fn len(self) -> nat {
        self.list.seq().len()
    }

    /// The first field called `key`.
    pub open spec fn at(self, key: Seq<char>) -> Option<T> {
        search(*self.list, key)
    }

    /// The fields with the first one called `key` set to `v`.
    pub open spec fn with(self, key: Seq<char>, v: T) -> FieldList<T> {
        FieldList { list: Rc::new(set_field(*self.list, key, v)) }
    }

    /// Looks for the first field called `key`.
    pub fn search(&self, key: &String) -> (r: Option<&T>)
        ensures
            r == (match self.at(key@) {
                Some(v) => Some(&v),
                None => None,
            }),
    {
        search_list(&self.list, key)
    }

    /// Whether there are exactly `n` fields.
    pub fn has_len(&self, n: usize) -> (r: bool)
        ensures
            r == (self.len() == n),
    {
        if n == 0 {
            !self.list.is_longer_than(0)
        } else {
            self.list.is_longer_than(n - 1) && !self.list.is_longer_than(n)
        }
    }
}

/// After a field is set, reading it gives what was written.
pub proof fn lemma_set_then_search<T>(l: List<Field<T>>, key: Seq<char>, v: T)
    requires
        search(l, key) is Some,
    ensures
        search(set_field(l, key, v), key) == Some(v),
    decreases l,
{
    match l {
        List::Nil => {},
        List::Cons(f, rest) => {
            if f.name@ != key {
                lemma_set_then_search(shared(rest), key, v);
            }
        },
    }
}

/// Setting a field leaves the others alone.
pub proof fn lemma_set_keeps_others<T>(l: List<Field<T>>, key: Seq<char>, v: T, other: Seq<char>)
    requires
        key != other,
    ensures
        search(set_field(l, key, v), other) == search(l, other),
    decreases l,
{
    match l {
        List::Nil => {},
        List::Cons(f, rest) => {
            if f.name@ != key {
                lemma_set_keeps_others(shared(rest), key, v, other);
            }
        },
    }
}

impl Clone for Ty {
    fn clone(&self) -> (r: Ty)
        ensures
            r == *self,
    {
        match self {
            Ty::Bool => Ty::Bool,
            Ty::Int(s, w) => Ty::Int(*s, *w),
            Ty::Array(n, sizes, t) => Ty::Array(*n, sizes.clone(), t.clone()),
            Ty::Ptr(w, t) => Ty::Ptr(*w, t.clone()),
            Ty::Struct(name, fs) => Ty::Struct(clone_name(name), fs.clone()),
        }
    }
}

/// Clones an optional name.
pub fn clone_name(n: &Option<String>) -> (r: Option<String>)
    ensures
        r == *n,
{
    match n {
        Some(s) => Some(s.clone()),
        None => None,
    }
}

/// Clones an optional type.
pub fn clone_opt_ty(t: &Option<Ty>) -> (r: Option<Ty>)
    ensures
        r == *t,
{
    match t {
        Some(t) => Some(t.clone()),
        None => None,
    }
}

/// The width of all fields together.
pub open spec fn fields_bits(l: List<Field<Ty>>) -> nat
    decreases l,
{
    match l {
        List::Nil => 0,
        List::Cons(f, rest) => f.value.bits() + fields_bits(*rest),
    }
}

fn fields_num_bits(l: &List<Field<Ty>>) -> (r: Option<usize>)
    ensures
        r == (if fields_bits(*l) <= usize::MAX {
            Some(fields_bits(*l) as usize)
        } else {
            None
        }),
    decreases l,
{
    match l {
        List::Nil => Some(0),
        List::Cons(f, rest) => match (f.value.num_bits(), fields_num_bits(rest)) {
            (Some(a), Some(b)) => a.checked_add(b),
            _ => None,
        },
    }
}

impl Ty {
    /// The number of bits that a value of the type takes.
    pub open spec fn bits(self) -> nat
        decreases self,
    {
        match self {
            Ty::Bool => 1,
            Ty::Int(_, w) => w as nat,
            Ty::Array(n, _, t) => n as nat * t.bits(),
            Ty::Ptr(w, _) => w as nat,
            Ty::Struct(_, fs) => fields_bits(*fs.list),
        }
    }

    /// The type of what an array holds or a pointer points to.
    pub open spec fn inner(self) -> Option<Ty> {
        match self {
            Ty::Array(_, _, t) => Some(*t),
            Ty::Ptr(_, t) => Some(*t),
            _ => None,
        }
    }

    /// Counts the bits that a value of the type takes; nothing where the count fits no `usize`.
    pub fn num_bits(&self) -> (r: Option<usize>)
        ensures
            r == (if self.bits() <= usize::MAX {
                Some(self.bits() as usize)
            } else {
                None
            }),
        decreases self,
    {
        match self {
            Ty::Bool => Some(1),
            Ty::Int(_, w) => Some(*w),
            Ty::Array(n, _, t) => {
                if *n == 0 {
                    assert(0 * t.bits() == 0) by (nonlinear_arith);
                    return Some(0);
                }
                match t.num_bits() {
                    Some(b) => n.checked_mul(b),
                    None => {
                        assert(*n as nat * t.bits() >= t.bits()) by (nonlinear_arith)
                            requires
                                *n >= 1,
                        ;
                        None
                    },
                }
            },
            Ty::Ptr(w, _) => Some(*w),
            Ty::Struct(_, fs) => fields_num_bits(&fs.list),
        }
    }

    /// The type of what an array holds or a pointer points to.
    pub fn inner_ty(&self) -> (r: Option<Ty>)
        ensures
            r == self.inner(),
    {
        match self {
            Ty::Array(_, _, t) => Some((**t).clone()),
            Ty::Ptr(_, t) => Some((**t).clone()),
            _ => None,
        }
    }
}

} // verus!
