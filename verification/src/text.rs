//! Character-level helpers shared by the parser and the writers: UTF-8
//! widths, decimal and hexadecimal digits, and the few `std` string
//! operations that the rest of the crate builds on.

use vstd::prelude::*;
use vstd::utf8::*;

verus! {

broadcast use vstd::string::group_string_axioms;

/// Appends one character to a string.
///
/// Calls `String::push`, which its documentation describes as appending the
/// given `char` to the end of the string: the new contents are the old ones
/// followed by `c`.
#[verifier::external_body]
pub(crate) fn push_char(s: &mut String, c: char)
    ensures
        final(s)@ == old(s)@.push(c),
{
    s.push(c);
}

/// The `char` with scalar value `u`, if `u` is a Unicode scalar value.
///
/// Calls `char::from_u32`, documented to return `None` exactly when `u` is
/// not a valid `char` (a surrogate or above `0x10FFFF`), and otherwise the
/// character with that code point.
#[verifier::external_body]
pub(crate) fn char_from_u32(u: u32) -> (r: Option<char>)
    ensures
        r == (if is_scalar(u) { Some(u as char) } else { None::<char> }),
{
    char::from_u32(u)
}

/// The bytes as a string slice, if they are valid UTF-8.
///
/// Calls `core::str::from_utf8`, documented to succeed exactly when the
/// bytes are valid UTF-8, and then to return a `str` whose bytes are the
/// given ones.
#[verifier::external_body]
pub(crate) fn str_from_utf8(b: &[u8]) -> (r: Option<&str>)
    ensures
        r is Some <==> valid_utf8(b@),
        r matches Some(s) ==> encode_utf8(s@) == b@,
{
    core::str::from_utf8(b).ok()
}

/// Number of bytes in the UTF-8 encoding of `c`.
pub open spec fn char_width(c: char) -> nat {
    encode_scalar(c as u32).len()
}

/// First byte of the UTF-8 encoding of `c`.
pub open spec fn lead_byte(c: char) -> u8 {
    encode_scalar(c as u32)[0]
}

/// Total number of UTF-8 bytes of the first `p` characters of `s`.
pub open spec fn bytes_before(s: Seq<char>, p: int) -> nat
    decreases p,
{
    if p <= 0 {
        0
    } else {
        bytes_before(s, p - 1) + char_width(s[p - 1])
    }
}

pub(crate) fn char_width_exec(c: char) -> (w: usize)
    ensures
        w == char_width(c),
        1 <= w <= 4,
{
    proof {
        char_is_scalar(c);
    }
    let u = c as u32;
    if u < 0x80 {
        1
    } else if u < 0x800 {
        2
    } else if u < 0x10000 {
        3
    } else {
        4
    }
}

pub(crate) fn lead_byte_exec(c: char) -> (b: u8)
    ensures
        b == lead_byte(c),
{
    proof {
        char_is_scalar(c);
    }
    let u = c as u32;
    if u < 0x80 {
        (u & 0x7F) as u8
    } else if u < 0x800 {
        0xC0 | ((u >> 6) & 0x1F) as u8
    } else if u < 0x10000 {
        0xE0 | ((u >> 12) & 0x0F) as u8
    } else {
        0xF0 | ((u >> 18) & 0x7) as u8
    }
}

pub proof fn lemma_encode_utf8_push(s: Seq<char>, c: char)
    ensures
        encode_utf8(s.push(c)) == encode_utf8(s) + encode_scalar(c as u32),
    decreases s.len(),
{
    if s.len() == 0 {
        assert(s.push(c).drop_first() =~= Seq::<char>::empty());
        assert(encode_utf8(Seq::<char>::empty()) =~= Seq::<u8>::empty());
        assert(encode_utf8(s) =~= Seq::<u8>::empty());
        assert(encode_utf8(s.push(c)) =~= encode_scalar(c as u32));
    } else {
        assert(s.push(c).drop_first() =~= s.drop_first().push(c));
        lemma_encode_utf8_push(s.drop_first(), c);
        assert(encode_utf8(s.push(c)) =~= encode_utf8(s) + encode_scalar(c as u32));
    }
}

/// `bytes_before` counts exactly the bytes of the UTF-8 encoding of the prefix.
pub proof fn lemma_bytes_before(s: Seq<char>, p: int)
    requires
        0 <= p <= s.len(),
    ensures
        bytes_before(s, p) == encode_utf8(s.take(p)).len(),
        bytes_before(s, p) <= encode_utf8(s).len(),
    decreases p,
{
    if p == 0 {
        assert(s.take(0) =~= Seq::<char>::empty());
    } else {
        lemma_bytes_before(s, p - 1);
        assert(s.take(p) =~= s.take(p - 1).push(s[p - 1]));
        lemma_encode_utf8_push(s.take(p - 1), s[p - 1]);
    }
    lemma_bytes_before_le(s, p);
}

proof fn lemma_bytes_before_le(s: Seq<char>, p: int)
    requires
        0 <= p <= s.len(),
    ensures
        bytes_before(s, p) <= bytes_before(s, s.len() as int),
        bytes_before(s, s.len() as int) == encode_utf8(s).len(),
    decreases s.len() - p,
{
    if p < s.len() {
        lemma_bytes_before_le(s, p + 1);
    } else {
        lemma_bytes_before_total(s, s.len() as int);
        assert(s.take(s.len() as int) =~= s);
    }
}

proof fn lemma_bytes_before_total(s: Seq<char>, p: int)
    requires
        0 <= p <= s.len(),
    ensures
        bytes_before(s, p) == encode_utf8(s.take(p)).len(),
    decreases p,
{
    if p == 0 {
        assert(s.take(0) =~= Seq::<char>::empty());
    } else {
        lemma_bytes_before_total(s, p - 1);
        assert(s.take(p) =~= s.take(p - 1).push(s[p - 1]));
        lemma_encode_utf8_push(s.take(p - 1), s[p - 1]);
    }
}

/// Collects the characters of a string slice, in order.
pub(crate) fn collect_chars(s: &str) -> (r: Vec<char>)
    ensures
        r@ == s@,
{
    let mut out: Vec<char> = Vec::new();
    for c in it: s.chars()
        invariant
            it.seq() == s@,
            out@ == s@.take(it.index() as int),
    {
        out.push(c);
    }
    assert(out@ =~= s@);
    out
}

/// The decimal digit character for `d < 10`.
pub open spec fn digit_char(d: nat) -> char {
    if d == 0 {
        '0'
    } else if d == 1 {
        '1'
    } else if d == 2 {
        '2'
    } else if d == 3 {
        '3'
    } else if d == 4 {
        '4'
    } else if d == 5 {
        '5'
    } else if d == 6 {
        '6'
    } else if d == 7 {
        '7'
    } else if d == 8 {
        '8'
    } else {
        '9'
    }
}

pub(crate) fn digit_char_exec(d: u64) -> (c: char)
    requires
        d < 10,
    ensures
        c == digit_char(d as nat),
{
    if d == 0 {
        '0'
    } else if d == 1 {
        '1'
    } else if d == 2 {
        '2'
    } else if d == 3 {
        '3'
    } else if d == 4 {
        '4'
    } else if d == 5 {
        '5'
    } else if d == 6 {
        '6'
    } else if d == 7 {
        '7'
    } else if d == 8 {
        '8'
    } else {
        '9'
    }
}

/// Decimal representation of `n`, without sign or leading zeros.
pub open spec fn decimal(n: nat) -> Seq<char>
    decreases n,
{
    if n < 10 {
        seq![digit_char(n)]
    } else {
        decimal(n / 10).push(digit_char(n % 10))
    }
}

pub open spec fn is_digit(c: char) -> bool {
    '0' <= c && c <= '9'
}

pub open spec fn digit_value(c: char) -> nat {
    ((c as u32) - ('0' as u32)) as nat
}

/// The number written by a sequence of decimal digits.
pub open spec fn digits_value(d: Seq<char>) -> nat
    decreases d.len(),
{
    if d.len() == 0 {
        0
    } else {
        digits_value(d.drop_last()) * 10 + digit_value(d.last())
    }
}

pub proof fn lemma_digit_char(d: nat)
    requires
        d < 10,
    ensures
        is_digit(digit_char(d)),
        digit_value(digit_char(d)) == d,
        digit_char(d) == '0' <==> d == 0,
{
    assert(('0' as u32) == 48);
    assert(('9' as u32) == 57);
    assert(('5' as u32) == 53);
}

pub proof fn lemma_decimal_props(n: nat)
    ensures
        decimal(n).len() >= 1,
        forall|i: int| 0 <= i < decimal(n).len() ==> is_digit(#[trigger] decimal(n)[i]),
        digits_value(decimal(n)) == n,
        decimal(n).len() > 1 ==> decimal(n)[0] != '0',
        decimal(n).len() > 1 <==> n >= 10,
        n == 0 <==> decimal(n) == seq!['0'],
    decreases n,
{
    if n < 10 {
        lemma_digit_char(n);
        assert(decimal(n).drop_last() =~= Seq::<char>::empty());
        assert(digits_value(Seq::<char>::empty()) == 0);
        assert(decimal(n).last() == digit_char(n));
    } else {
        let q = n / 10;
        let r = n % 10;
        lemma_digit_char(r);
        lemma_decimal_props(q);
        assert(decimal(n).drop_last() =~= decimal(q));
        assert(decimal(n).last() == digit_char(r));
        assert(q * 10 + r == n);
        assert(digits_value(decimal(n)) == digits_value(decimal(q)) * 10 + digit_value(digit_char(r)));
        assert(digits_value(decimal(n)) == n);
        if q < 10 {
            lemma_digit_char(q);
            assert(decimal(n)[0] == digit_char(q));
        } else {
            assert(decimal(n)[0] == decimal(q)[0]);
        }
        assert(decimal(n) != seq!['0']) by {
            assert(decimal(n).len() >= 2);
        }
    }
}

/// Appends the decimal representation of `n` to `out`.
pub(crate) fn write_decimal(n: u64, out: &mut String)
    ensures
        final(out)@ == old(out)@ + decimal(n as nat),
    decreases n,
{
    if n >= 10 {
        write_decimal(n / 10, out);
    }
    push_char(out, digit_char_exec(n % 10));
    assert(final(out)@ =~= old(out)@ + decimal(n as nat));
}

} // verus!
