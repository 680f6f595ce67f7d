//! JSON numbers.
//!
//! A [`Number`] keeps the representation it was built from: an unsigned
//! integer, a negative integer, or a non-integer number. Integers up to 64
//! bits are held exactly. A number with a fraction or an exponent is held as
//! its decimal text, which is what it is written as and read back from.

use vstd::prelude::*;
use crate::text::{decimal, digits_value, is_digit, push_char, write_decimal};

verus! {

/// The mathematical content of a [`Number`].
pub enum NumberView {
    /// A non-negative integer.
    PosInt(u64),
    /// A negative integer.
    NegInt(i64),
    /// A number written with a fraction or exponent, as its decimal text.
    Float(Seq<char>),
}

/// Index just past the run of decimal digits starting at `i`.
pub open spec fn skip_digits(s: Seq<char>, i: int) -> int
    decreases s.len() - i,
{
    if 0 <= i < s.len() && is_digit(s[i]) {
        skip_digits(s, i + 1)
    } else {
        i
    }
}

/// Scans a JSON number (RFC 8259 section 6) starting at `i`: `Ok(end)` with
/// the index just past it, or `Err(p)` with the index of the character
/// where the grammar was violated.
pub open spec fn scan_number(s: Seq<char>, i: int) -> Result<int, int> {
    let p0 = if 0 <= i < s.len() && s[i] == '-' { i + 1 } else { i };
    if !(0 <= p0 < s.len() && is_digit(s[p0])) {
        Err(p0)
    } else {
        let p1 = if s[p0] == '0' { p0 + 1 } else { skip_digits(s, p0) };
        let frac = p1 < s.len() && s[p1] == '.';
        if frac && !(p1 + 1 < s.len() && is_digit(s[p1 + 1])) {
            Err(p1 + 1)
        } else {
            let p2 = if frac { skip_digits(s, p1 + 1) } else { p1 };
            if p2 < s.len() && (s[p2] == 'e' || s[p2] == 'E') {
                let q = if p2 + 1 < s.len() && (s[p2 + 1] == '+' || s[p2 + 1] == '-') {
                    p2 + 2
                } else {
                    p2 + 1
                };
                if !(q < s.len() && is_digit(s[q])) {
                    Err(q)
                } else {
                    Ok(skip_digits(s, q))
                }
            } else {
                Ok(p2)
            }
        }
    }
}

/// True if the text holds a fraction point or an exponent marker.
pub open spec fn has_frac_or_exp(t: Seq<char>) -> bool {
    exists|i: int| 0 <= i < t.len() && (t[i] == '.' || t[i] == 'e' || t[i] == 'E')
}

/// The number that a complete number lexeme stands for. An integer lexeme
/// that does not fit in 64 bits is kept as text, with `.0` appended so that
/// it reads as a non-integer number.
pub open spec fn number_of_lexeme(t: Seq<char>) -> NumberView {
    if has_frac_or_exp(t) {
        NumberView::Float(t)
    } else if t.len() > 0 && t[0] == '-' {
        let m = digits_value(t.drop_first());
        if 1 <= m <= 0x8000_0000_0000_0000 {
            NumberView::NegInt((-m) as i64)
        } else {
            NumberView::Float(t + seq!['.', '0'])
        }
    } else {
        let m = digits_value(t);
        if m <= u64::MAX {
            NumberView::PosInt(m as u64)
        } else {
            NumberView::Float(t + seq!['.', '0'])
        }
    }
}

impl NumberView {
    /// The number is one that parsing can produce: negative integers are
    /// below zero, and a non-integer's text is a complete number lexeme with
    /// a fraction or exponent.
    pub open spec fn wf(self) -> bool {
        match self {
            NumberView::PosInt(_) => true,
            NumberView::NegInt(n) => n < 0,
            NumberView::Float(t) => scan_number(t, 0) == Ok::<int, int>(t.len() as int)
                && has_frac_or_exp(t),
        }
    }

    /// The JSON text of the number.
    pub open spec fn text(self) -> Seq<char> {
        match self {
            NumberView::PosInt(n) => decimal(n as nat),
            NumberView::NegInt(n) => if n < 0 {
                seq!['-'] + decimal((-n) as nat)
            } else {
                decimal(n as nat)
            },
            NumberView::Float(t) => t,
        }
    }

    pub open spec fn as_i64(self) -> Option<i64> {
        match self {
            NumberView::PosInt(n) => if n <= i64::MAX {
                Some(n as i64)
            } else {
                None
            },
            NumberView::NegInt(n) => Some(n),
            NumberView::Float(_) => None,
        }
    }

    pub open spec fn as_u64(self) -> Option<u64> {
        match self {
            NumberView::PosInt(n) => Some(n),
            _ => None,
        }
    }
}

#[derive(Debug, PartialEq)]
enum Repr {
    PosInt(u64),
    NegInt(i64),
    Float(String),
}

/// A JSON number.
///
/// Stores whichever of unsigned integer, negative integer, or non-integer
/// representation the value was constructed from, so integers up to 64 bits
/// round-trip exactly.
#[derive(Debug, PartialEq)]
pub struct Number(Repr);

impl View for Number {
    type V = NumberView;

    closed spec fn view(&self) -> NumberView {
        match self.0 {
            Repr::PosInt(n) => NumberView::PosInt(n),
            Repr::NegInt(n) => NumberView::NegInt(n),
            Repr::Float(t) => NumberView::Float(t@),
        }
    }
}

impl Clone for Number {
    fn clone(&self) -> (r: Number)
        ensures
            r@ == self@,
    {
        match &self.0 {
            Repr::PosInt(n) => Number(Repr::PosInt(*n)),
            Repr::NegInt(n) => Number(Repr::NegInt(*n)),
            Repr::Float(t) => Number(Repr::Float(t.clone())),
        }
    }
}

impl Number {
    pub(crate) fn from_pos(n: u64) -> (r: Number)
        ensures
            r@ == NumberView::PosInt(n),
    {
        Number(Repr::PosInt(n))
    }

    pub(crate) fn from_neg(n: i64) -> (r: Number)
        ensures
            r@ == NumberView::NegInt(n),
    {
        Number(Repr::NegInt(n))
    }

    pub(crate) fn from_text(t: String) -> (r: Number)
        ensures
            r@ == NumberView::Float(t@),
    {
        Number(Repr::Float(t))
    }

    /// Returns the number as an `i64`, if it was constructed from an integer
    /// that fits without loss.
    pub fn as_i64(&self) -> (r: Option<i64>)
        ensures
            r == self@.as_i64(),
    {
        match &self.0 {
            Repr::PosInt(n) => if *n <= 0x7fff_ffff_ffff_ffff {
                Some(*n as i64)
            } else {
                None
            },
            Repr::NegInt(n) => Some(*n),
            Repr::Float(_) => None,
        }
    }

    /// Returns the number as a `u64`, if it was constructed from a
    /// non-negative integer.
    pub fn as_u64(&self) -> (r: Option<u64>)
        ensures
            r == self@.as_u64(),
    {
        match &self.0 {
            Repr::PosInt(n) => Some(*n),
            _ => None,
        }
    }

    /// True if [`Number::as_i64`] would return `Some`.
    pub fn is_i64(&self) -> (r: bool)
        ensures
            r == self@.as_i64().is_some(),
    {
        self.as_i64().is_some()
    }

    /// True if [`Number::as_u64`] would return `Some`.
    pub fn is_u64(&self) -> (r: bool)
        ensures
            r == self@.as_u64().is_some(),
    {
        self.as_u64().is_some()
    }

    /// True if the number was not constructed from an integer.
    pub fn is_f64(&self) -> (r: bool)
        ensures
            r == (self@ is Float),
    {
        match &self.0 {
            Repr::Float(_) => true,
            _ => false,
        }
    }

    /// Appends the JSON text of the number.
    pub(crate) fn write_text(&self, out: &mut String)
        ensures
            final(out)@ == old(out)@ + self@.text(),
    {
        match &self.0 {
            Repr::PosInt(n) => write_decimal(*n, out),
            Repr::NegInt(n) => {
                if *n < 0 {
                    push_char(out, '-');
                    let m: u64 = if *n == i64::MIN {
                        0x8000_0000_0000_0000
                    } else {
                        (-*n) as u64
                    };
                    write_decimal(m, out);
                    assert(final(out)@ =~= old(out)@ + self@.text());
                } else {
                    write_decimal(*n as u64, out);
                }
            },
            Repr::Float(t) => {
                out.append(t.as_str());
            },
        }
    }

    /// The JSON text of the number.
    pub fn to_string(&self) -> (r: String)
        ensures
            r@ == self@.text(),
    {
        let mut out = String::new();
        self.write_text(&mut out);
        assert(out@ =~= self@.text());
        out
    }
}

impl From<u8> for Number {
    fn from(n: u8) -> (r: Number)
        ensures
            r@ == NumberView::PosInt(n as u64),
    {
        Number(Repr::PosInt(n as u64))
    }
}

impl vstd::std_specs::convert::FromSpecImpl<u8> for Number {
    open spec fn obeys_from_spec() -> bool {
        true
    }

    closed spec fn from_spec(n: u8) -> Number {
        Number(Repr::PosInt(n as u64))
    }
}

impl From<u16> for Number {
    fn from(n: u16) -> (r: Number)
        ensures
            r@ == NumberView::PosInt(n as u64),
    {
        Number(Repr::PosInt(n as u64))
    }
}

impl vstd::std_specs::convert::FromSpecImpl<u16> for Number {
    open spec fn obeys_from_spec() -> bool {
        true
    }

    closed spec fn from_spec(n: u16) -> Number {
        Number(Repr::PosInt(n as u64))
    }
}

impl From<u32> for Number {
    fn from(n: u32) -> (r: Number)
        ensures
            r@ == NumberView::PosInt(n as u64),
    {
        Number(Repr::PosInt(n as u64))
    }
}

impl vstd::std_specs::convert::FromSpecImpl<u32> for Number {
    open spec fn obeys_from_spec() -> bool {
        true
    }

    closed spec fn from_spec(n: u32) -> Number {
        Number(Repr::PosInt(n as u64))
    }
}

impl From<u64> for Number {
    fn from(n: u64) -> (r: Number)
        ensures
            r@ == NumberView::PosInt(n as u64),
    {
        Number(Repr::PosInt(n as u64))
    }
}

impl vstd::std_specs::convert::FromSpecImpl<u64> for Number {
    open spec fn obeys_from_spec() -> bool {
        true
    }

    closed spec fn from_spec(n: u64) -> Number {
        Number(Repr::PosInt(n as u64))
    }
}

impl From<usize> for Number {
    fn from(n: usize) -> (r: Number)
        ensures
            r@ == NumberView::PosInt(n as u64),
    {
        Number(Repr::PosInt(n as u64))
    }
}

impl vstd::std_specs::convert::FromSpecImpl<usize> for Number {
    open spec fn obeys_from_spec() -> bool {
        true
    }

    closed spec fn from_spec(n: usize) -> Number {
        Number(Repr::PosInt(n as u64))
    }
}

impl From<i8> for Number {
    fn from(n: i8) -> (r: Number)
        ensures
            r@ == (if n < 0 {
                NumberView::NegInt(n as i64)
            } else {
                NumberView::PosInt(n as u64)
            }),
    {
        if n < 0 {
            Number(Repr::NegInt(n as i64))
        } else {
            Number(Repr::PosInt(n as u64))
        }
    }
}

impl vstd::std_specs::convert::FromSpecImpl<i8> for Number {
    open spec fn obeys_from_spec() -> bool {
        true
    }

    closed spec fn from_spec(n: i8) -> Number {
        if n < 0 {
            Number(Repr::NegInt(n as i64))
        } else {
            Number(Repr::PosInt(n as u64))
        }
    }
}

impl From<i16> for Number {
    fn from(n: i16) -> (r: Number)
        ensures
            r@ == (if n < 0 {
                NumberView::NegInt(n as i64)
            } else {
                NumberView::PosInt(n as u64)
            }),
    {
        if n < 0 {
            Number(Repr::NegInt(n as i64))
        } else {
            Number(Repr::PosInt(n as u64))
        }
    }
}

impl vstd::std_specs::convert::FromSpecImpl<i16> for Number {
    open spec fn obeys_from_spec() -> bool {
        true
    }

    closed spec fn from_spec(n: i16) -> Number {
        if n < 0 {
            Number(Repr::NegInt(n as i64))
        } else {
            Number(Repr::PosInt(n as u64))
        }
    }
}

impl From<i32> for Number {
    fn from(n: i32) -> (r: Number)
        ensures
            r@ == (if n < 0 {
                NumberView::NegInt(n as i64)
            } else {
                NumberView::PosInt(n as u64)
            }),
    {
        if n < 0 {
            Number(Repr::NegInt(n as i64))
        } else {
            Number(Repr::PosInt(n as u64))
        }
    }
}

impl vstd::std_specs::convert::FromSpecImpl<i32> for Number {
    open spec fn obeys_from_spec() -> bool {
        true
    }

    closed spec fn from_spec(n: i32) -> Number {
        if n < 0 {
            Number(Repr::NegInt(n as i64))
        } else {
            Number(Repr::PosInt(n as u64))
        }
    }
}

impl From<i64> for Number {
    fn from(n: i64) -> (r: Number)
        ensures
            r@ == (if n < 0 {
                NumberView::NegInt(n as i64)
            } else {
                NumberView::PosInt(n as u64)
            }),
    {
        if n < 0 {
            Number(Repr::NegInt(n as i64))
        } else {
            Number(Repr::PosInt(n as u64))
        }
    }
}

impl vstd::std_specs::convert::FromSpecImpl<i64> for Number {
    open spec fn obeys_from_spec() -> bool {
        true
    }

    closed spec fn from_spec(n: i64) -> Number {
        if n < 0 {
            Number(Repr::NegInt(n as i64))
        } else {
            Number(Repr::PosInt(n as u64))
        }
    }
}

impl From<isize> for Number {
    fn from(n: isize) -> (r: Number)
        ensures
            r@ == (if n < 0 {
                NumberView::NegInt(n as i64)
            } else {
                NumberView::PosInt(n as u64)
            }),
    {
        if n < 0 {
            Number(Repr::NegInt(n as i64))
        } else {
            Number(Repr::PosInt(n as u64))
        }
    }
}

impl vstd::std_specs::convert::FromSpecImpl<isize> for Number {
    open spec fn obeys_from_spec() -> bool {
        true
    }

    closed spec fn from_spec(n: isize) -> Number {
        if n < 0 {
            Number(Repr::NegInt(n as i64))
        } else {
            Number(Repr::PosInt(n as u64))
        }
    }
}

} // verus!
