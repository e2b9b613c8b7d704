//! Immutable linked lists that share their tails.
use std::rc::Rc;

use vstd::prelude::*;

verus! {

/// A list of values.
#[derive(Debug, PartialEq, Eq)]
pub enum List<T> {
    Nil,
    Cons(T, Rc<List<T>>),
}

/// What a shared pointer points to.
pub open spec fn shared<T>(p: Rc<T>) -> T {
    *p
}

impl<T> List<T> {
    /// The elements, in order.
    pub open spec fn seq(self) -> Seq<T>
        decreases self,
    {
        match self {
            List::Nil => Seq::empty(),
            List::Cons(x, rest) => seq![x] + rest.seq(),
        }
    }

    /// The list with `v` added behind its last element.
    pub open spec fn push(self, v: T) -> List<T>
        decreases self,
    {
        match self {
            List::Nil => List::Cons(v, Rc::new(List::Nil)),
            List::Cons(x, rest) => List::Cons(x, Rc::new(rest.push(v))),
        }
    }

    /// The list without its last `n` elements.
    pub open spec fn without_last(self, n: nat) -> List<T>
        decreases self,
    {
        match self {
            List::Nil => List::Nil,
            List::Cons(x, rest) => if self.seq().len() <= n {
                List::Nil
            } else {
                List::Cons(x, Rc::new(rest.without_last(n)))
            },
        }
    }

    /// Whether the list has more than `n` elements.
    pub fn is_longer_than(&self, n: usize) -> (r: bool)
        ensures
            r == (self.seq().len() > n),
        decreases self,
    {
        match self {
            List::Nil => false,
            List::Cons(_, rest) => if n == 0 {
                true
            } else {
                rest.is_longer_than(n - 1)
            },
        }
    }

    /// The element at position `i`, where there is one.
    pub fn get(&self, i: usize) -> (r: Option<&T>)
        ensures
            r == (if i < self.seq().len() {
                Some(&self.seq()[i as int])
            } else {
                None
            }),
        decreases self,
    {
        match self {
            List::Nil => None,
            List::Cons(x, rest) => if i == 0 {
                Some(x)
            } else {
                rest.get(i - 1)
            },
        }
    }
}

/// Adding an element behind the last adds it behind the sequence.
pub proof fn lemma_push_seq<T>(l: List<T>, v: T)
    ensures
        l.push(v).seq() == l.seq().push(v),
    decreases l,
{
    match l {
        List::Nil => {
            assert(l.push(v).seq() =~= l.seq().push(v)) by {
                reveal_with_fuel(List::seq, 3);
            }
        },
        List::Cons(x, rest) => {
            lemma_push_seq(shared(rest), v);
            assert(l.push(v).seq() =~= l.seq().push(v));
        },
    }
}

/// Dropping the last `n` elements leaves a prefix.
pub proof fn lemma_without_last_seq<T>(l: List<T>, n: nat)
    requires
        n <= l.seq().len(),
    ensures
        l.without_last(n).seq() == l.seq().take(l.seq().len() - n),
    decreases l,
{
    match l {
        List::Nil => {},
        List::Cons(x, rest) => {
            if l.seq().len() > n {
                lemma_without_last_seq(shared(rest), n);
            }
            assert(l.without_last(n).seq() =~= l.seq().take(l.seq().len() - n));
        },
    }
}

/// Adds `v` behind the last element of a list of numbers.
pub fn push_number(l: &List<usize>, v: usize) -> (r: List<usize>)
    ensures
        r == l.push(v),
        r.seq() == l.seq().push(v),
    decreases l,
{
    proof {
        lemma_push_seq(*l, v);
    }
    match l {
        List::Nil => List::Cons(v, Rc::new(List::Nil)),
        List::Cons(x, rest) => List::Cons(*x, Rc::new(push_number(rest, v))),
    }
}

/// Drops the last `n` elements of a list of numbers.
pub fn drop_last_numbers(l: &List<usize>, n: usize) -> (r: List<usize>)
    ensures
        r == l.without_last(n as nat),
    decreases l,
{
    match l {
        List::Nil => List::Nil,
        List::Cons(x, rest) => if l.is_longer_than(n) {
            List::Cons(*x, Rc::new(drop_last_numbers(rest, n)))
        } else {
            List::Nil
        },
    }
}

} // verus!
