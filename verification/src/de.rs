//! Reading JSON text into [`Value`]s: a whole document from a string or
//! from bytes, or a stream of whitespace-separated values.

use vstd::prelude::*;
use vstd::utf8::{decode_utf8, encode_utf8, valid_utf8};
use crate::error::{Error, ErrorCode};
use crate::grammar::{parse_document, parse_enum_document, parse_value, SpecError};
use crate::parser::{err_view, opt_view, Parser};
use crate::text::{
    bytes_before, collect_chars, digit_value, digits_value, is_digit, lemma_bytes_before,
    str_from_utf8,
};
use crate::value::{JsonValue, Value};

verus! {

broadcast use vstd::string::group_string_axioms;

/// Deserializes a [`Value`] from a string slice: one JSON value with only
/// whitespace around it.
pub fn from_str(s: &str) -> (r: Result<Value, Error>)
    requires
        s.len() < usize::MAX,
    ensures
        match r {
            Ok(v) => parse_document(s@) == Ok::<JsonValue, SpecError>(v@) && v@.wf(),
            Err(e) => parse_document(s@) matches Err(x) && e@ == err_view(x),
        },
{
    let r = Parser::parse(s);
    proof {
        if r is Ok {
            crate::laws::lemma_parse_document_wf(s@);
        }
    }
    r
}

/// The error for input bytes that are not valid UTF-8.
pub open spec fn utf8_error() -> (Seq<char>, usize, usize) {
    (ErrorCode::InvalidUtf8.message(), 1usize, 1usize)
}

/// What reading a document from bytes gives.
pub open spec fn document_of_bytes(v: Seq<u8>) -> Result<JsonValue, (Seq<char>, usize, usize)> {
    if !valid_utf8(v) {
        Err(utf8_error())
    } else {
        match parse_document(decode_utf8(v)) {
            Ok(x) => Ok(x),
            Err(x) => Err(err_view(x)),
        }
    }
}

/// The bytes as text, if they are UTF-8; otherwise the error for bytes that
/// are not, at line 1, column 1.
pub fn text_of_bytes(v: &[u8]) -> (r: Result<&str, Error>)
    ensures
        match r {
            Ok(s) => valid_utf8(v@) && encode_utf8(s@) == v@ && s@ == decode_utf8(v@),
            Err(e) => !valid_utf8(v@) && e@ == utf8_error(),
        },
{
    match str_from_utf8(v) {
        None => Err(Error::from_code(ErrorCode::InvalidUtf8, 1, 1)),
        Some(s) => {
            proof {
                vstd::utf8::encode_utf8_decode_utf8(s@);
            }
            Ok(s)
        },
    }
}

/// Deserializes a [`Value`] from a byte slice, which must be UTF-8.
pub fn from_slice(v: &[u8]) -> (r: Result<Value, Error>)
    requires
        v@.len() < usize::MAX,
    ensures
        match r {
            Ok(x) => document_of_bytes(v@) == Ok::<JsonValue, (Seq<char>, usize, usize)>(x@),
            Err(e) => document_of_bytes(v@) == Err::<JsonValue, (Seq<char>, usize, usize)>(e@),
        },
{
    match str_from_utf8(v) {
        None => Err(Error::from_code(ErrorCode::InvalidUtf8, 1, 1)),
        Some(s) => {
            proof {
                vstd::utf8::encode_utf8_decode_utf8(s@);
            }
            match from_str(s) {
                Ok(x) => Ok(x),
                Err(e) => Err(e),
            }
        },
    }
}

/// Parses one JSON value from the start of `s`, without requiring the rest
/// of `s` to be consumed. Returns the value and how many bytes it took.
pub fn parse_one(s: &str) -> (r: Result<(Value, usize), Error>)
    requires
        s.len() < usize::MAX,
    ensures
        match r {
            Ok((v, n)) => parse_value(s@, 0) matches Ok((x, e)) && x == v@ && n == bytes_before(
                s@,
                e,
            ) && 0 <= e <= s@.len(),
            Err(e) => parse_value(s@, 0) matches Err(x) && e@ == err_view(x),
        },
{
    let mut parser = Parser::new(s);
    match parser.parse_value() {
        Ok(v) => {
            let n = parser.byte_pos();
            Ok((v, n))
        },
        Err(e) => Err(e),
    }
}

/// JSON whitespace as a byte.
pub open spec fn is_ws_byte(b: u8) -> bool {
    b == 0x20 || b == 0x09 || b == 0x0a || b == 0x0d
}

/// Index of the first non-whitespace byte at or after `p`.
pub open spec fn skip_ws_bytes(buf: Seq<u8>, p: int) -> int
    decreases buf.len() - p,
{
    if 0 <= p < buf.len() && is_ws_byte(buf[p]) {
        skip_ws_bytes(buf, p + 1)
    } else {
        p
    }
}

/// What the next step of a stream over `buf` at `pos` yields, and the
/// position after it: nothing at the end of the input; a value and the
/// position after it; or an error, after which the stream is at its end.
pub open spec fn stream_step(buf: Seq<u8>, pos: int) -> (
    Option<Result<JsonValue, (Seq<char>, usize, usize)>>,
    int,
) {
    let p = skip_ws_bytes(buf, pos);
    if p >= buf.len() {
        (None, p)
    } else {
        let rest = buf.subrange(p, buf.len() as int);
        if !valid_utf8(rest) {
            (Some(Err(utf8_error())), buf.len() as int)
        } else {
            let cs = decode_utf8(rest);
            match parse_value(cs, 0) {
                Ok((v, e)) => (Some(Ok(v)), p + bytes_before(cs, e)),
                Err(x) => (Some(Err(err_view(x))), buf.len() as int),
            }
        }
    }
}

pub(crate) proof fn lemma_skip_ws_bytes(buf: Seq<u8>, p: int)
    requires
        0 <= p <= buf.len(),
    ensures
        p <= skip_ws_bytes(buf, p) <= buf.len(),
    decreases buf.len() - p,
{
    if p < buf.len() && is_ws_byte(buf[p]) {
        lemma_skip_ws_bytes(buf, p + 1);
    }
}

/// An iterator over multiple whitespace-separated JSON values read from a
/// single source (for example newline-delimited JSON). Holds its whole
/// source in memory; each call of [`StreamDeserializer::next`] parses one
/// more value.
pub struct StreamDeserializer {
    buf: Vec<u8>,
    pos: usize,
}

impl StreamDeserializer {
    /// The source bytes.
    pub closed spec fn bytes(&self) -> Seq<u8> {
        self.buf@
    }

    /// The position of the next byte to read.
    pub closed spec fn position(&self) -> int {
        self.pos as int
    }

    /// The position lies within the source bytes, which are fewer than
    /// `usize::MAX`.
    pub open spec fn wf(&self) -> bool {
        0 <= self.position() <= self.bytes().len() < usize::MAX
    }

    fn from_bytes(v: &[u8]) -> (r: StreamDeserializer)
        requires
            v@.len() < usize::MAX,
        ensures
            r.wf(),
            r.bytes() == v@,
            r.position() == 0,
    {
        let mut buf: Vec<u8> = Vec::new();
        let mut i: usize = 0;
        while i < v.len()
            invariant
                i <= v@.len(),
                buf@ == v@.take(i as int),
            decreases v@.len() - i,
        {
            buf.push(v[i]);
            i = i + 1;
            assert(buf@ =~= v@.take(i as int));
        }
        assert(buf@ =~= v@);
        StreamDeserializer { buf, pos: 0 }
    }

    /// Iterates over the whitespace-separated JSON values in `s`.
    pub fn from_str(s: &str) -> (r: StreamDeserializer)
        requires
            s.len() < usize::MAX,
        ensures
            r.wf(),
            r.bytes() == encode_utf8(s@),
            r.position() == 0,
    {
        let b = s.as_bytes();
        // Learns that the bytes are as many as the string's length.
        let _ = b.len();
        StreamDeserializer::from_bytes(b)
    }

    /// Iterates over the whitespace-separated JSON values in `v`.
    pub fn from_slice(v: &[u8]) -> (r: StreamDeserializer)
        requires
            v@.len() < usize::MAX,
        ensures
            r.wf(),
            r.bytes() == v@,
            r.position() == 0,
    {
        StreamDeserializer::from_bytes(v)
    }

    /// Parses the next value. Returns `None` once only whitespace is left;
    /// after an error, the stream is at its end, since there is no reliable
    /// place to resume.
    pub fn next(&mut self) -> (r: Option<Result<Value, Error>>)
        requires
            old(self).wf(),
        ensures
            final(self).wf(),
            final(self).bytes() == old(self).bytes(),
            final(self).position() == stream_step(old(self).bytes(), old(self).position()).1,
            match r {
                None => stream_step(old(self).bytes(), old(self).position()).0 is None,
                Some(Ok(v)) => stream_step(old(self).bytes(), old(self).position()).0 == Some(
                    Ok::<JsonValue, (Seq<char>, usize, usize)>(v@),
                ),
                Some(Err(e)) => stream_step(old(self).bytes(), old(self).position()).0 == Some(
                    Err::<JsonValue, (Seq<char>, usize, usize)>(e@),
                ),
            },
    {
        let ghost buf = self.buf@;
        proof {
            lemma_skip_ws_bytes(buf, self.pos as int);
        }
        while self.pos < self.buf.len() && (self.buf[self.pos] == 0x20 || self.buf[self.pos]
            == 0x09 || self.buf[self.pos] == 0x0a || self.buf[self.pos] == 0x0d)
            invariant
                self.wf(),
                self.buf@ == buf,
                skip_ws_bytes(buf, self.pos as int) == skip_ws_bytes(buf, old(self).pos as int),
            decreases buf.len() - self.pos,
        {
            self.pos = self.pos + 1;
        }
        if self.pos >= self.buf.len() {
            return None;
        }
        let ghost p = self.pos as int;
        let mut rest: Vec<u8> = Vec::new();
        let mut i = self.pos;
        while i < self.buf.len()
            invariant
                self.wf(),
                self.buf@ == buf,
                0 <= p <= i <= buf.len(),
                rest@ == buf.subrange(p, i as int),
            decreases buf.len() - i,
        {
            let ghost old_rest = rest@;
            rest.push(self.buf[i]);
            assert(rest@ =~= buf.subrange(p, i + 1)) by {
                assert(old_rest =~= buf.subrange(p, i as int));
            }
            i = i + 1;
        }
        match str_from_utf8(rest.as_slice()) {
            None => {
                self.pos = self.buf.len();
                Some(Err(Error::from_code(ErrorCode::InvalidUtf8, 1, 1)))
            },
            Some(s) => {
                proof {
                    vstd::utf8::encode_utf8_decode_utf8(s@);
                    lemma_bytes_before(s@, s@.len() as int);
                }
                match parse_one(s) {
                    Ok((v, consumed)) => {
                        proof {
                            let e = parse_value(s@, 0)->Ok_0.1;
                            lemma_bytes_before(s@, e);
                        }
                        self.pos = self.pos + consumed;
                        Some(Ok(v))
                    },
                    Err(e) => {
                        self.pos = self.buf.len();
                        Some(Err(e))
                    },
                }
            },
        }
    }
}

/// Reads an enum value from a string slice, with only whitespace around
/// it: a string names a unit variant and gives no content; an object with
/// one member gives the variant's name and its content.
pub fn enum_from_str(s: &str) -> (r: Result<(String, Option<Value>), Error>)
    requires
        s.len() < usize::MAX,
    ensures
        match r {
            Ok((name, content)) => parse_enum_document(s@) == Ok::<
                (Seq<char>, Option<JsonValue>),
                SpecError,
            >((name@, opt_view(content))),
            Err(e) => parse_enum_document(s@) matches Err(x) && e@ == err_view(x),
        },
{
    let mut parser = Parser::new(s);
    let parts = match parser.parse_enum() {
        Ok(p) => p,
        Err(e) => {
            return Err(e);
        },
    };
    parser.skip_whitespace();
    if !parser.at_end() {
        return Err(parser.trailing_error());
    }
    Ok(parts)
}

impl StreamDeserializer {
    /// Starts a step of the stream and hands out the text from the next
    /// value on: `None` once only whitespace is left; an error for bytes
    /// that are not UTF-8, after which the stream is at its end. A caller
    /// that reads the value itself then calls [`StreamDeserializer::advance`]
    /// with the bytes it took, or [`StreamDeserializer::finish`] after an
    /// error.
    pub fn next_text(&mut self) -> (r: Option<Result<String, Error>>)
        requires
            old(self).wf(),
        ensures
            final(self).wf(),
            final(self).bytes() == old(self).bytes(),
            ({
                let b = old(self).bytes();
                let p = skip_ws_bytes(b, old(self).position());
                let rest = b.subrange(p, b.len() as int);
                match r {
                    None => p >= b.len() && final(self).position() == p,
                    Some(Err(e)) => p < b.len() && !valid_utf8(rest) && e@ == utf8_error()
                        && final(self).position() == b.len(),
                    Some(Ok(t)) => p < b.len() && valid_utf8(rest) && t@ == decode_utf8(rest)
                        && encode_utf8(t@) == rest && final(self).position() == p,
                }
            }),
    {
        let ghost buf = self.buf@;
        proof {
            lemma_skip_ws_bytes(buf, self.pos as int);
        }
        while self.pos < self.buf.len() && (self.buf[self.pos] == 0x20 || self.buf[self.pos]
            == 0x09 || self.buf[self.pos] == 0x0a || self.buf[self.pos] == 0x0d)
            invariant
                self.wf(),
                self.buf@ == buf,
                skip_ws_bytes(buf, self.pos as int) == skip_ws_bytes(buf, old(self).pos as int),
            decreases buf.len() - self.pos,
        {
            self.pos = self.pos + 1;
        }
        if self.pos >= self.buf.len() {
            return None;
        }
        let ghost p = self.pos as int;
        let mut rest: Vec<u8> = Vec::new();
        let mut i = self.pos;
        while i < self.buf.len()
            invariant
                self.wf(),
                self.buf@ == buf,
                0 <= p <= i <= buf.len(),
                rest@ == buf.subrange(p, i as int),
            decreases buf.len() - i,
        {
            let ghost old_rest = rest@;
            rest.push(self.buf[i]);
            assert(rest@ =~= buf.subrange(p, i + 1)) by {
                assert(old_rest =~= buf.subrange(p, i as int));
            }
            i = i + 1;
        }
        match str_from_utf8(rest.as_slice()) {
            None => {
                self.pos = self.buf.len();
                Some(Err(Error::from_code(ErrorCode::InvalidUtf8, 1, 1)))
            },
            Some(s) => {
                proof {
                    vstd::utf8::encode_utf8_decode_utf8(s@);
                }
                Some(Ok(String::from_str(s)))
            },
        }
    }

    /// Moves the stream past `n` bytes that a value took.
    pub fn advance(&mut self, n: usize)
        requires
            old(self).wf(),
            old(self).position() + n <= old(self).bytes().len(),
        ensures
            final(self).wf(),
            final(self).bytes() == old(self).bytes(),
            final(self).position() == old(self).position() + n,
    {
        self.pos = self.pos + n;
    }

    /// Moves the stream to its end, as after an error: there is no reliable
    /// place to resume.
    pub fn finish(&mut self)
        requires
            old(self).wf(),
        ensures
            final(self).wf(),
            final(self).bytes() == old(self).bytes(),
            final(self).position() == old(self).bytes().len(),
    {
        self.pos = self.buf.len();
    }
}

/// All characters are decimal digits.
pub open spec fn all_digits(d: Seq<char>) -> bool {
    forall|i: int| 0 <= i < d.len() ==> is_digit(#[trigger] d[i])
}

/// The integer that `str::parse` reads from a text: an optional `+` (or,
/// for a signed type, `-`) followed by at least one decimal digit, and
/// nothing else.
pub open spec fn integer_text_value(t: Seq<char>, signed: bool) -> Option<int> {
    let neg = signed && t.len() > 0 && t[0] == '-';
    let d = if t.len() > 0 && (t[0] == '+' || neg) {
        t.drop_first()
    } else {
        t
    };
    if d.len() == 0 || !all_digits(d) {
        None
    } else if neg {
        Some(-(digits_value(d) as int))
    } else {
        Some(digits_value(d) as int)
    }
}

/// The value of the digits of `c` from `start` on, or `None` if one is not
/// a digit, there are none, or the value exceeds `u64::MAX`.
fn digits_from(c: &Vec<char>, start: usize) -> (r: Option<u64>)
    requires
        start <= c@.len(),
    ensures
        ({
            let d = c@.subrange(start as int, c@.len() as int);
            match r {
                Some(v) => d.len() > 0 && all_digits(d) && v == digits_value(d),
                None => d.len() == 0 || !all_digits(d) || digits_value(d) > u64::MAX,
            }
        }),
{
    let ghost s = c@;
    let n = c.len();
    if start == n {
        return None;
    }
    let mut acc: u64 = 0;
    let mut overflow = false;
    let mut q = start;
    assert(s.subrange(start as int, start as int) =~= Seq::<char>::empty());
    while q < n
        invariant
            n == s.len(),
            c@ == s,
            start <= q <= n,
            all_digits(s.subrange(start as int, q as int)),
            !overflow ==> acc == digits_value(s.subrange(start as int, q as int)),
            overflow ==> digits_value(s.subrange(start as int, q as int)) > u64::MAX,
        decreases n - q,
    {
        let ch = c[q];
        if !('0' <= ch && ch <= '9') {
            assert(s.subrange(start as int, n as int)[q - start] == ch);
            return None;
        }
        let dv = (ch as u32 - '0' as u32) as u64;
        assert(s.subrange(start as int, q + 1).drop_last() =~= s.subrange(start as int, q as int));
        assert(dv == digit_value(s[q as int]));
        if !overflow {
            match acc.checked_mul(10) {
                Some(a) => match a.checked_add(dv) {
                    Some(b) => {
                        acc = b;
                    },
                    None => {
                        overflow = true;
                    },
                },
                None => {
                    overflow = true;
                },
            }
        }
        q = q + 1;
        assert forall|i: int| 0 <= i < q - start implies is_digit(
            #[trigger] s.subrange(start as int, q as int)[i],
        ) by {
            if i < q - 1 - start {
                assert(s.subrange(start as int, q as int)[i] == s.subrange(
                    start as int,
                    q - 1,
                )[i]);
            }
        }
    }
    if overflow {
        None
    } else {
        Some(acc)
    }
}

/// A deserializer for object keys, which are always strings: keys can be
/// read as booleans or integers from their text.
pub struct MapKeyDeserializer(pub String);

impl MapKeyDeserializer {
    /// The key read as `true` or `false`.
    pub fn deserialize_bool(&self) -> (r: Result<bool, Error>)
        ensures
            match r {
                Ok(b) => (b && self.0@ == "true"@) || (!b && self.0@ == "false"@),
                Err(e) => self.0@ != "true"@ && self.0@ != "false"@ && e@ == (
                    "invalid map key: expected `true` or `false`"@,
                    0usize,
                    0usize,
                ),
            },
    {
        let t = self.0.as_str();
        if crate::map::str_eq(t, "true") {
            Ok(true)
        } else if crate::map::str_eq(t, "false") {
            Ok(false)
        } else {
            Err(Error::new("invalid map key: expected `true` or `false`", 0, 0))
        }
    }

    /// The key read as an `i64`, as `str::parse` reads it.
    pub fn deserialize_i64(&self) -> (r: Result<i64, Error>)
        ensures
            match r {
                Ok(v) => integer_text_value(self.0@, true) == Some(v as int),
                Err(e) => !(integer_text_value(self.0@, true) matches Some(x) && i64::MIN <= x
                    <= i64::MAX) && e@ == ("invalid map key: expected i64"@, 0usize, 0usize),
            },
    {
        let c = collect_chars(self.0.as_str());
        let err = Error::new("invalid map key: expected i64", 0, 0);
        if c.len() == 0 {
            return Err(err);
        }
        let neg = c[0] == '-';
        let start: usize = if c[0] == '+' || neg {
            1
        } else {
            0
        };
        assert(c@.subrange(start as int, c@.len() as int) =~= (if start == 1 {
            c@.drop_first()
        } else {
            c@
        }));
        match digits_from(&c, start) {
            None => Err(err),
            Some(m) => {
                if neg {
                    if m > 0x8000_0000_0000_0000 {
                        Err(err)
                    } else if m == 0x8000_0000_0000_0000 {
                        Ok(i64::MIN)
                    } else {
                        Ok(-(m as i64))
                    }
                } else {
                    if m > 0x7fff_ffff_ffff_ffff {
                        Err(err)
                    } else {
                        Ok(m as i64)
                    }
                }
            },
        }
    }

    /// The key read as a `u64`, as `str::parse` reads it.
    pub fn deserialize_u64(&self) -> (r: Result<u64, Error>)
        ensures
            match r {
                Ok(v) => integer_text_value(self.0@, false) == Some(v as int),
                Err(e) => !(integer_text_value(self.0@, false) matches Some(x) && 0 <= x
                    <= u64::MAX) && e@ == ("invalid map key: expected u64"@, 0usize, 0usize),
            },
    {
        let c = collect_chars(self.0.as_str());
        let err = Error::new("invalid map key: expected u64", 0, 0);
        if c.len() == 0 {
            return Err(err);
        }
        let start: usize = if c[0] == '+' {
            1
        } else {
            0
        };
        assert(c@.subrange(start as int, c@.len() as int) =~= (if start == 1 {
            c@.drop_first()
        } else {
            c@
        }));
        match digits_from(&c, start) {
            None => Err(err),
            Some(m) => Ok(m),
        }
    }
}

} // verus!
