//! What an assignment to a place may change, and when it is turned down.
use vstd::prelude::*;

use crate::circ::merge;
use crate::circ::merge_fields;
use crate::circ::CircState;
use crate::cterm::AllocId;
use crate::cterm::CTerm;
use crate::cterm::CTermData;
use crate::ir::lit_bv;
use crate::ir::term_op;
use crate::ir::Op;
use crate::ir::Term;
use crate::list::shared;
use crate::list::List;
use crate::translate::rebuilt;
use crate::translate::selected;
use crate::translate::selected_field;
use crate::translate::stored;
use crate::translate::stored_terms;
use crate::translate::CLoc;
use crate::types::Field;

verus! {

/// The region that holds an array.
pub open spec fn region(array: CTerm) -> AllocId {
    match array.term {
        CTermData::CArray(_, Some(id)) => id,
        CTermData::CStackPtr(_, _, Some(id)) => id,
        _ => 0,
    }
}

proof fn lemma_terms_fault(c: CircState, t: CTerm)
    ensures
        c.terms(t) matches Err(e) ==> e is Fault,
    decreases t,
{
    match t.term {
        CTermData::CStruct(_, fs) => lemma_fields_terms_fault(c, shared(fs.list)),
        _ => {},
    }
}

proof fn lemma_fields_terms_fault(c: CircState, l: List<Field<CTerm>>)
    ensures
        c.fields_terms(l) matches Err(e) ==> e is Fault,
    decreases l,
{
    match l {
        List::Nil => {},
        List::Cons(f, rest) => {
            lemma_terms_fault(c, f.value);
            lemma_fields_terms_fault(c, shared(rest));
        },
    }
}

proof fn lemma_stored_terms_fault(c: CircState, id: AllocId, at: Term, ts: Seq<Term>, i: nat)
    ensures
        stored_terms(c, id, at, ts, i) matches Err(e) ==> e is Fault,
    decreases ts.len() - i,
{
    if i < ts.len() {
        match c.stored(id, term_op(Op::BvAdd, at, lit_bv(i as int, 32)), ts[i as int]) {
            Err(_) => {},
            Ok((_, d)) => lemma_stored_terms_fault(d, id, at, ts, i + 1),
        }
    }
}

/// A store to an array at an integer index is not turned down.
pub(crate) proof fn lemma_fitting_store(c: CircState, array: CTerm, idx: CTerm, val: CTerm)
    requires
        array.term is CArray || array.term is CStackPtr,
        idx.term is CInt,
    ensures
        stored(c, array, idx, val) matches Err(e) ==> e is Fault,
{
    lemma_terms_fault(c, val);
    match (c.terms(val), array.term, idx.term) {
        (
            Ok(ts),
            CTermData::CArray(_, Some(id)),
            CTermData::CInt(_, _, i),
        ) => lemma_stored_terms_fault(c, id, i, ts, 0),
        (
            Ok(ts),
            CTermData::CStackPtr(_, o, Some(id)),
            CTermData::CInt(_, _, i),
        ) => lemma_stored_terms_fault(c, id, term_op(Op::BvAdd, i, o), ts, 0),
        _ => {},
    }
}

proof fn lemma_stored_terms_changes_memory_only(
    c: CircState,
    id: AllocId,
    at: Term,
    ts: Seq<Term>,
    i: nat,
)
    ensures
        stored_terms(c, id, at, ts, i) matches Ok((_, d)) ==> d == (CircState {
            allocs: d.allocs,
            ..c
        }) && d.allocs.len() == c.allocs.len() && forall|j: int|
            0 <= j < c.allocs.len() && j != id ==> #[trigger] d.allocs[j] == c.allocs[j],
    decreases ts.len() - i,
{
    if i < ts.len() {
        match c.stored(id, term_op(Op::BvAdd, at, lit_bv(i as int, 32)), ts[i as int]) {
            Err(_) => {},
            Ok((_, d)) => lemma_stored_terms_changes_memory_only(d, id, at, ts, i + 1),
        }
    }
}

/// A store to an array changes the contents of its region at most.
pub(crate) proof fn lemma_stored_changes_memory_only(
    c: CircState,
    array: CTerm,
    idx: CTerm,
    val: CTerm,
)
    ensures
        stored(c, array, idx, val) matches Ok((_, d)) ==> d == (CircState { allocs: d.allocs, ..c })
            && d.allocs.len() == c.allocs.len() && forall|j: int|
            0 <= j < c.allocs.len() && j != region(array) ==> #[trigger] d.allocs[j] == c.allocs[j],
{
    match (c.terms(val), array.term, idx.term) {
        (
            Ok(ts),
            CTermData::CArray(_, Some(id)),
            CTermData::CInt(_, _, i),
        ) => lemma_stored_terms_changes_memory_only(c, id, i, ts, 0),
        (
            Ok(ts),
            CTermData::CStackPtr(_, o, Some(id)),
            CTermData::CInt(_, _, i),
        ) => lemma_stored_terms_changes_memory_only(c, id, term_op(Op::BvAdd, i, o), ts, 0),
        _ => {},
    }
}

/// Rebuilding a value changes the contents of memory at most.
pub(crate) proof fn lemma_rebuilt_changes_memory_only(
    c: CircState,
    base: CTerm,
    loc: CLoc,
    val: CTerm,
)
    ensures
        rebuilt(c, base, loc, val) matches Ok((_, d)) ==> d == (CircState {
            allocs: d.allocs,
            ..c
        }),
    decreases loc,
{
    match loc {
        CLoc::Var(_) => {},
        CLoc::Idx(inner, idx) => match selected(c, base, idx) {
            Err(_) => {},
            Ok(v) => {
                lemma_rebuilt_changes_memory_only(c, v, *inner, val);
                match rebuilt(c, v, *inner, val) {
                    Err(_) => {},
                    Ok((w, d)) => lemma_stored_changes_memory_only(d, base, idx, w),
                }
            },
        },
        CLoc::Member(inner, field) => match selected_field(base, field) {
            Err(_) => {},
            Ok(v) => lemma_rebuilt_changes_memory_only(c, v, *inner, val),
        },
    }
}

proof fn lemma_merge_fault(c: Term, t: CTerm, f: CTerm)
    ensures
        merge(c, t, f) matches Err(e) ==> e is Fault,
    decreases t,
{
    match (t.term, f.term) {
        (CTermData::CStruct(_, fs), CTermData::CStruct(_, gs)) => lemma_merge_fields_fault(
            c,
            shared(fs.list),
            shared(gs.list),
        ),
        _ => {},
    }
}

proof fn lemma_merge_fields_fault(c: Term, t: List<Field<CTerm>>, f: List<Field<CTerm>>)
    ensures
        merge_fields(c, t, f) matches Some(Err(e)) ==> e is Fault,
    decreases t,
{
    match (t, f) {
        (List::Cons(a, r), List::Cons(b, s)) => {
            lemma_merge_fault(c, a.value, b.value);
            lemma_merge_fields_fault(c, shared(r), shared(s));
        },
        _ => {},
    }
}

/// An assignment to a variable that is there is not turned down.
pub(crate) proof fn lemma_circ_assign_fault(c: CircState, name: String, val: CTerm)
    requires
        c.get(name) is Ok,
    ensures
        c.assigned(name, val) matches Err(e) ==> e is Fault,
{
    lemma_merge_fault(c.condition(), val, c.lookup(name@)->0.val);
}

} // verus!
