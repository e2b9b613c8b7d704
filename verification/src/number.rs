//! Integer literals.
use vstd::prelude::*;
use vstd::string::StrSliceExecFns;

use crate::ast::Constant;
use crate::ast::Integer;
use crate::ast::IntegerSize;
use crate::cterm::cterm;
use crate::cterm::value;
use crate::cterm::CTerm;
use crate::cterm::CTermData;
use crate::error::CError;
use crate::error::Reason;
use crate::ir::bv_lit;
use crate::ir::lit_bv;

verus! {

/// The value of a decimal digit.
pub open spec fn digit(c: char) -> Option<nat> {
    if '0' <= c <= '9' {
        Some((c as int - '0' as int) as nat)
    } else {
        None
    }
}

/// The number that a text of decimal digits stands for.
pub open spec fn digits(s: Seq<char>) -> Option<nat>
    decreases s.len(),
{
    if s.len() == 0 {
        None
    } else if s.len() == 1 {
        digit(s[0])
    } else {
        match (digits(s.drop_last()), digit(s.last())) {
            (Some(n), Some(d)) => Some(n * 10 + d),
            _ => None,
        }
    }
}

/// The number that a text of decimal digits stands for, where a sign may come first: a minus sign
/// only where `signed`.
pub open spec fn number(s: Seq<char>, signed: bool) -> Option<int> {
    if s.len() > 0 && s[0] == '+' {
        match digits(s.skip(1)) {
            Some(n) => Some(n as int),
            None => None,
        }
    } else if signed && s.len() > 0 && s[0] == '-' {
        match digits(s.skip(1)) {
            Some(n) => Some(-(n as int)),
            None => None,
        }
    } else {
        match digits(s) {
            Some(n) => Some(n as int),
            None => None,
        }
    }
}

/// The number in `o`, where its magnitude fits 64 bits.
pub open spec fn within_64(o: Option<int>) -> Option<int> {
    match o {
        Some(n) => if -u64::MAX <= n <= u64::MAX {
            Some(n)
        } else {
            None
        },
        None => None,
    }
}

fn get_digit(c: char) -> (r: Option<u128>)
    ensures
        match (r, digit(c)) {
            (Some(a), Some(b)) => a == b && a <= 9,
            (None, None) => true,
            _ => false,
        },
{
    if '0' <= c && c <= '9' {
        Some(((c as u32) - ('0' as u32)) as u128)
    } else {
        None
    }
}

fn get_digits(s: &str, from: usize) -> (r: Option<i128>)
    requires
        from <= s@.len(),
    ensures
        match digits(s@.skip(from as int)) {
            Some(n) => if n <= u64::MAX {
                r == Some(n as i128)
            } else {
                r is None
            },
            None => r is None,
        },
{
    let len: usize = s.unicode_len();
    let ghost t = s@.skip(from as int);
    if from == len {
        return None;
    }
    let mut acc: Option<u128> = Some(0);
    let mut i: usize = from;
    while i < len
        invariant
            from <= i <= len,
            from < len,
            len == s@.len(),
            t == s@.skip(from as int),
            i == from ==> acc == Some(0u128),
            i > from ==> match digits(t.take(i - from)) {
                Some(n) => if n <= u64::MAX {
                    acc == Some(n as u128)
                } else {
                    acc is None
                },
                None => acc is None,
            },
            acc matches Some(n) ==> n <= u64::MAX,
        decreases len - i,
    {
        let ghost before = t.take(i - from);
        let ghost here = t.take(i - from + 1);
        let c: char = s.get_char(i);
        assert(here.drop_last() =~= before);
        assert(here.last() == c);
        acc = match (acc, get_digit(c)) {
            (Some(n), Some(d)) => {
                let m: u128 = n * 10 + d;
                if m <= u64::MAX as u128 {
                    Some(m)
                } else {
                    None
                }
            },
            _ => None,
        };
        i = i + 1;
    }
    assert(t.take(len - from) =~= t);
    match acc {
        Some(n) => Some(n as i128),
        None => None,
    }
}

/// Reads a number from a text; nothing where the text is none, or where the number's magnitude
/// does not fit 64 bits.
pub fn parse_number(s: &str, signed: bool) -> (r: Option<i128>)
    ensures
        match (r, within_64(number(s@, signed))) {
            (Some(a), Some(b)) => a == b,
            (None, None) => true,
            _ => false,
        },
{
    let len: usize = s.unicode_len();
    assert(s@.skip(0) =~= s@);
    if len > 0 {
        let c: char = s.get_char(0);
        if c == '+' {
            return get_digits(s, 1);
        }
        if signed && c == '-' {
            return match get_digits(s, 1) {
                Some(n) => Some(-n),
                None => None,
            };
        }
    }
    get_digits(s, 0)
}

/// The width of a literal of this size; nothing for a size that is not supported.
pub open spec fn literal_width(size: IntegerSize) -> Option<usize> {
    match size {
        IntegerSize::Int => Some(32),
        IntegerSize::Long => Some(64),
        IntegerSize::LongLong => None,
    }
}

/// Whether `n` is an integer of the width (32 or 64) and the sign.
pub open spec fn in_range(n: int, width: usize, signed: bool) -> bool {
    if width == 32 {
        if signed {
            i32::MIN <= n <= i32::MAX
        } else {
            0 <= n <= u32::MAX
        }
    } else {
        if signed {
            i64::MIN <= n <= i64::MAX
        } else {
            0 <= n <= u64::MAX
        }
    }
}

/// The value of an integer literal. Its digits are read as decimal ones.
pub open spec fn literal(i: Integer) -> Result<CTerm, CError> {
    match literal_width(i.size) {
        None => Err(CError::Fault(Reason::Unsupported)),
        Some(w) => match number(i.number@, !i.unsigned) {
            Some(n) => if in_range(n, w, !i.unsigned) {
                Ok(value(CTermData::CInt(!i.unsigned, w, lit_bv(n, w))))
            } else {
                Err(CError::Fault(Reason::BadNumber(i.number)))
            },
            None => Err(CError::Fault(Reason::BadNumber(i.number))),
        },
    }
}

/// The value of a constant.
pub open spec fn constant(c: Constant) -> Result<CTerm, CError> {
    match c {
        Constant::Integer(i) => literal(i),
        Constant::Other => Err(CError::Fault(Reason::Unsupported)),
    }
}

fn is_in_range(n: i128, width: usize, signed: bool) -> (r: bool)
    ensures
        r == in_range(n as int, width, signed),
{
    if width == 32 {
        if signed {
            i32::MIN as i128 <= n && n <= i32::MAX as i128
        } else {
            0 <= n && n <= u32::MAX as i128
        }
    } else {
        if signed {
            i64::MIN as i128 <= n && n <= i64::MAX as i128
        } else {
            0 <= n && n <= u64::MAX as i128
        }
    }
}

/// Makes the value of an integer literal.
pub fn const_integer(i: &Integer) -> (r: Result<CTerm, CError>)
    ensures
        r == literal(*i),
{
    let width: usize = match i.size {
        IntegerSize::Int => 32,
        IntegerSize::Long => 64,
        IntegerSize::LongLong => return Err(CError::Fault(Reason::Unsupported)),
    };
    let signed = !i.unsigned;
    match parse_number(i.number.as_str(), signed) {
        Some(n) => {
            if is_in_range(n, width, signed) {
                Ok(cterm(CTermData::CInt(signed, width, bv_lit(n, width))))
            } else {
                Err(CError::Fault(Reason::BadNumber(i.number.clone())))
            }
        },
        None => Err(CError::Fault(Reason::BadNumber(i.number.clone()))),
    }
}

/// Ten to the power of `n`.
pub open spec fn tens(n: nat) -> nat
    decreases n,
{
    if n == 0 {
        1
    } else {
        10 * tens((n - 1) as nat)
    }
}

/// The sum of the digits, each times the power of ten of its place.
pub open spec fn weighted(s: Seq<char>) -> int
    decreases s.len(),
{
    if s.len() == 0 {
        0
    } else {
        (s[0] as int - '0' as int) * tens((s.len() - 1) as nat) + weighted(s.skip(1))
    }
}

/// Whether a text has digits only, and at least one.
pub open spec fn is_decimal(s: Seq<char>) -> bool {
    s.len() > 0 && forall|i: int| 0 <= i < s.len() ==> '0' <= #[trigger] s[i] <= '9'
}

proof fn lemma_weighted(s: Seq<char>)
    requires
        s.len() > 0,
    ensures
        weighted(s) == weighted(s.drop_last()) * 10 + (s.last() as int - '0' as int),
    decreases s.len(),
{
    let d = s[0] as int - '0' as int;
    if s.len() == 1 {
        assert(weighted(s.drop_last()) == 0);
        assert(weighted(s.skip(1)) == 0);
        assert(tens(0) == 1);
        assert(d * 1 == d);
    } else {
        let rest = s.skip(1);
        lemma_weighted(rest);
        assert(rest.drop_last() =~= s.drop_last().skip(1));
        assert(rest.last() == s.last());
        let k = (s.len() - 2) as nat;
        assert(tens((s.len() - 1) as nat) == 10 * tens(k));
        assert(weighted(s.drop_last()) == d * tens(k) + weighted(rest.drop_last()));
        assert(d * (10 * tens(k)) == (d * tens(k)) * 10) by (nonlinear_arith);
    }
}

/// The digits of a number count by their places: units, tens, hundreds and so on. A text with
/// anything else in it, or with nothing in it, is no number.
pub proof fn law_digits_count_by_their_places(s: Seq<char>)
    ensures
        is_decimal(s) ==> (digits(s) matches Some(n) && n == weighted(s)),
        !is_decimal(s) ==> digits(s) is None,
    decreases s.len(),
{
    if s.len() == 1 {
        lemma_weighted(s);
        assert(weighted(s.drop_last()) == 0);
    } else if s.len() > 1 {
        let front = s.drop_last();
        law_digits_count_by_their_places(front);
        lemma_weighted(s);
        assert(forall|i: int| 0 <= i < front.len() ==> #[trigger] front[i] == s[i]);
        if is_decimal(s) {
            assert(is_decimal(front));
            assert('0' <= s[s.len() - 1] <= '9');
        } else if is_decimal(front) {
            assert forall|i: int| 0 <= i < s.len() && digit(s.last()) is Some implies '0'
                <= #[trigger] s[i] <= '9' by {
                if i < front.len() {
                    assert(front[i] == s[i]);
                }
            }
        }
    }
}

/// A sign in front changes the sign of the number and nothing else; a minus sign is taken only
/// where the number may be negative.
pub proof fn law_sign_goes_in_front(s: Seq<char>, signed: bool)
    requires
        is_decimal(s),
    ensures
        number(s, signed) == Some(weighted(s)),
        number(seq!['+'] + s, signed) == Some(weighted(s)),
        number(seq!['-'] + s, true) == Some(-weighted(s)),
        number(seq!['-'] + s, false) is None,
{
    law_digits_count_by_their_places(s);
    assert((seq!['+'] + s).skip(1) =~= s);
    assert((seq!['-'] + s).skip(1) =~= s);
    assert('0' <= s[0] <= '9');
    let t = seq!['-'] + s;
    assert(t[0] == '-');
    assert(!is_decimal(t)) by {
        assert(!('0' <= t[0] <= '9'));
    }
    law_digits_count_by_their_places(t);
}

} // verus!
