//! A recursive-descent JSON parser over the characters of its input,
//! tracking the 1-based line and byte column of its position for error
//! reports. Each parsing function is proved to compute exactly what the
//! grammar in `grammar.rs` says.

use vstd::prelude::*;
use crate::error::{Error, ErrorCode, Literal};
use crate::grammar::{
    col_at, err_after_byte, err_at, hex_digit, hex_error, hex_run, is_ws, line_at, lemma_skip_ws,
    next_element, next_member, parse_document, parse_escape, parse_items, parse_literal,
    parse_enum, parse_members, open_step, close_step, array_next_step, object_key_step,
    colon_step, enum_open_step,
    parse_number, parse_value, simple_escape, skip_ws, string_body, PResult, SpecError,
};
use crate::number::{number_of_lexeme, scan_number, skip_digits, Number, NumberView};
use crate::text::{
    bytes_before, char_from_u32, char_width, char_width_exec, collect_chars, digit_value,
    digits_value, is_digit, lead_byte, lead_byte_exec, lemma_bytes_before, push_char,
};
use crate::value::{JsonMap, JsonValue, Value};

verus! {

broadcast use vstd::string::group_string_axioms;

/// The error that a grammar error stands for.
pub open spec fn err_view(x: SpecError) -> (Seq<char>, usize, usize) {
    (x.0.message(), x.1 as usize, x.2 as usize)
}

/// The views of a sequence of values.
pub open spec fn views(v: Seq<Value>) -> Seq<JsonValue> {
    Seq::new(v.len(), |i: int| v[i]@)
}

proof fn lemma_array_view(v: Vec<Value>)
    ensures
        Value::Array(v)@ == JsonValue::Array(views(v@)),
{
    assert((Value::Array(v))@->Array_0 =~= views(v@));
}

proof fn lemma_loc_bounds(s: Seq<char>, p: int)
    requires
        0 <= p <= s.len(),
    ensures
        line_at(s, p) <= p + 1,
        col_at(s, p) <= bytes_before(s, p) + 1,
        p <= bytes_before(s, p),
        bytes_before(s, p) <= bytes_before(s, s.len() as int),
    decreases s.len() - p,
{
    lemma_loc_prefix(s, p);
    if p < s.len() {
        lemma_loc_bounds(s, p + 1);
    }
}

pub(crate) proof fn lemma_loc_prefix(s: Seq<char>, p: int)
    requires
        0 <= p <= s.len(),
    ensures
        line_at(s, p) <= p + 1,
        col_at(s, p) <= bytes_before(s, p) + 1,
        p <= bytes_before(s, p),
    decreases p,
{
    if p > 0 {
        lemma_loc_prefix(s, p - 1);
        vstd::utf8::char_is_scalar(s[p - 1]);
    }
}

/// The view of an optional value.
pub open spec fn opt_view(o: Option<Value>) -> Option<JsonValue> {
    match o {
        Some(v) => Some(v@),
        None => None,
    }
}

/// The number of line feeds among the first `p` characters of `s`.
pub open spec fn newlines_before(s: Seq<char>, p: int) -> nat
    decreases p,
{
    if p <= 0 {
        0
    } else {
        newlines_before(s, p - 1) + if s[p - 1] == '\n' {
            1nat
        } else {
            0nat
        }
    }
}

/// The index just past the last line feed among the first `p` characters
/// of `s`, or 0 if there is none.
pub open spec fn line_start(s: Seq<char>, p: int) -> int
    decreases p,
{
    if p <= 0 {
        0
    } else if s[p - 1] == '\n' {
        p
    } else {
        line_start(s, p - 1)
    }
}

proof fn lemma_line_col(s: Seq<char>, p: int)
    requires
        0 <= p <= s.len(),
    ensures
        line_at(s, p) == 1 + newlines_before(s, p),
        0 <= line_start(s, p) <= p,
        bytes_before(s, line_start(s, p)) <= bytes_before(s, p),
        col_at(s, p) == 1 + bytes_before(s, p) - bytes_before(s, line_start(s, p)),
    decreases p,
{
    if p > 0 {
        lemma_line_col(s, p - 1);
    }
}

/// A JSON parser positioned in a text.
pub struct Parser {
    input: Vec<char>,
    pos: usize,
    byte_pos: usize,
    line: usize,
    column: usize,
}

impl Parser {
    /// The characters of the text.
    pub closed spec fn chars(&self) -> Seq<char> {
        self.input@
    }

    /// The index of the next character to read.
    pub closed spec fn at(&self) -> int {
        self.pos as int
    }

    /// The position is in the text, and the byte count, line and column
    /// are those of the position.
    pub closed spec fn wf(&self) -> bool {
        &&& self.pos <= self.input@.len()
        &&& self.byte_pos == bytes_before(self.input@, self.pos as int)
        &&& self.line == line_at(self.input@, self.pos as int)
        &&& self.column == col_at(self.input@, self.pos as int)
        &&& bytes_before(self.input@, self.input@.len() as int) < usize::MAX
    }

    /// The 1-based line of the position.
    pub closed spec fn line(&self) -> nat {
        self.line as nat
    }

    /// The 1-based column of the position, counted in bytes.
    pub closed spec fn column(&self) -> nat {
        self.column as nat
    }

    /// Whatever calls a parser has gone through, its position is within its
    /// text, and its line and column are those of the position: the line is
    /// one more than the line feeds before it, and the column one more than
    /// the bytes since the last of them (or since the start).
    pub proof fn lemma_position(&self)
        requires
            self.wf(),
        ensures
            0 <= self.at() <= self.chars().len(),
            self.line() == 1 + newlines_before(self.chars(), self.at()),
            self.column() == 1 + bytes_before(self.chars(), self.at()) - bytes_before(
                self.chars(),
                line_start(self.chars(), self.at()),
            ),
            self.line() >= 1,
            self.column() >= 1,
    {
        lemma_line_col(self.chars(), self.at());
    }

    /// A parser at the start of `input`.
    pub fn new(input: &str) -> (r: Parser)
        requires
            input.len() < usize::MAX,
        ensures
            r.wf(),
            r.chars() == input@,
            r.at() == 0,
    {
        let chars = collect_chars(input);
        // Learns that the string's length is that of its bytes.
        let _ = input.as_bytes().len();
        proof {
            lemma_bytes_before(input@, input@.len() as int);
            assert(input.len() == vstd::utf8::encode_utf8(input@).len());
        }
        Parser { input: chars, pos: 0, byte_pos: 0, line: 1, column: 1 }
    }

    /// The next character, if any, without consuming it.
    pub fn peek(&self) -> (r: Option<char>)
        requires
            self.wf(),
        ensures
            r == (if self.at() < self.chars().len() {
                Some(self.chars()[self.at()])
            } else {
                None::<char>
            }),
    {
        if self.pos < self.input.len() {
            Some(self.input[self.pos])
        } else {
            None
        }
    }

    /// Consumes and returns the next character, if any.
    fn bump(&mut self) -> (r: Option<char>)
        requires
            old(self).wf(),
        ensures
            final(self).wf(),
            final(self).chars() == old(self).chars(),
            old(self).at() < old(self).chars().len() ==> r == Some(old(self).chars()[old(self).at()])
                && final(self).at() == old(self).at() + 1,
            old(self).at() >= old(self).chars().len() ==> r is None && final(self).at()
                == old(self).at(),
    {
        if self.pos < self.input.len() {
            let c = self.input[self.pos];
            let w = char_width_exec(c);
            proof {
                lemma_loc_bounds(self.input@, self.pos + 1);
                assert(bytes_before(self.input@, self.pos + 1) == self.byte_pos + w);
            }
            self.pos = self.pos + 1;
            self.byte_pos = self.byte_pos + w;
            if c == '\n' {
                self.line = self.line + 1;
                self.column = 1;
            } else {
                self.column = self.column + w;
            }
            Some(c)
        } else {
            None
        }
    }

    /// An error with `code` at the current position.
    fn error(&self, code: ErrorCode) -> (e: Error)
        requires
            self.wf(),
        ensures
            e@ == err_view(err_at(self.chars(), self.at(), code)),
    {
        Error::from_code(code, self.line, self.column)
    }

    /// An error with `code` reported after the first byte of the next
    /// character.
    fn error_after_byte(&self, code: ErrorCode) -> (e: Error)
        requires
            self.wf(),
            self.at() < self.chars().len(),
        ensures
            e@ == err_view(err_after_byte(self.chars(), self.at(), code)),
    {
        proof {
            lemma_loc_bounds(self.input@, self.pos + 1);
            vstd::utf8::char_is_scalar(self.input@[self.pos as int]);
        }
        if self.input[self.pos] == '\n' {
            Error::from_code(code, self.line + 1, 1)
        } else {
            Error::from_code(code, self.line, self.column + 1)
        }
    }

    fn at_ws(&self) -> (r: bool)
        requires
            self.wf(),
        ensures
            r == (self.at() < self.chars().len() && is_ws(self.chars()[self.at()])),
    {
        if self.pos < self.input.len() {
            let c = self.input[self.pos];
            c == ' ' || c == '\t' || c == '\n' || c == '\r'
        } else {
            false
        }
    }

    /// Skips whitespace.
    pub fn skip_whitespace(&mut self)
        requires
            old(self).wf(),
        ensures
            final(self).wf(),
            final(self).chars() == old(self).chars(),
            final(self).at() == skip_ws(old(self).chars(), old(self).at()),
    {
        let ghost p0 = self.at();
        while self.at_ws()
            invariant
                self.wf(),
                self.chars() == old(self).chars(),
                skip_ws(self.chars(), self.at()) == skip_ws(self.chars(), p0),
            decreases self.chars().len() - self.at(),
        {
            self.bump();
        }
    }

    fn literal_char(lit: Literal, k: usize) -> (c: char)
        requires
            k < lit.word().len(),
        ensures
            c == lit.word()[k as int],
    {
        match lit {
            Literal::Null => if k == 0 {
                'n'
            } else if k == 1 {
                'u'
            } else {
                'l'
            },
            Literal::True => if k == 0 {
                't'
            } else if k == 1 {
                'r'
            } else if k == 2 {
                'u'
            } else {
                'e'
            },
            Literal::False => if k == 0 {
                'f'
            } else if k == 1 {
                'a'
            } else if k == 2 {
                'l'
            } else if k == 3 {
                's'
            } else {
                'e'
            },
        }
    }

    fn literal_len(lit: Literal) -> (n: usize)
        ensures
            n == lit.word().len(),
    {
        match lit {
            Literal::Null => 4,
            Literal::True => 4,
            Literal::False => 5,
        }
    }

    /// Consumes the characters of a literal word.
    pub fn expect_literal(&mut self, lit: Literal) -> (r: Result<(), Error>)
        requires
            old(self).wf(),
        ensures
            final(self).wf(),
            final(self).chars() == old(self).chars(),
            r is Ok ==> final(self).at() == old(self).at() + lit.word().len(),
            match r {
                Ok(_) => parse_literal(old(self).chars(), old(self).at(), lit, 0) == Ok::<
                    int,
                    SpecError,
                >(final(self).at()),
                Err(e) => parse_literal(old(self).chars(), old(self).at(), lit, 0) matches Err(x)
                    && e@ == err_view(x),
            },
    {
        let ghost s = self.chars();
        let ghost i = self.at();
        let n = Self::literal_len(lit);
        let mut k: usize = 0;
        while k < n
            invariant
                self.wf(),
                self.chars() == s,
                s == old(self).chars(),
                i == old(self).at(),
                n == lit.word().len(),
                k <= n,
                self.at() == i + k,
                parse_literal(s, i, lit, 0) == parse_literal(s, i, lit, k as int),
            decreases n - k,
        {
            match self.peek() {
                None => {
                    return Err(self.error(ErrorCode::InvalidLiteral(lit)));
                },
                Some(c) => {
                    if c != Self::literal_char(lit, k) {
                        return Err(self.error_after_byte(ErrorCode::InvalidLiteral(lit)));
                    }
                    self.bump();
                },
            }
            k = k + 1;
        }
        Ok(())
    }
}


pub proof fn lemma_skip_digits(s: Seq<char>, i: int)
    requires
        0 <= i <= s.len(),
    ensures
        i <= skip_digits(s, i) <= s.len(),
        forall|j: int| i <= j < skip_digits(s, i) ==> is_digit(#[trigger] s[j]),
        skip_digits(s, i) < s.len() ==> !is_digit(s[skip_digits(s, i)]),
    decreases s.len() - i,
{
    if i < s.len() && is_digit(s[i]) {
        lemma_skip_digits(s, i + 1);
    }
}

fn hex_digit_exec(c: char) -> (r: Option<u32>)
    ensures
        r == hex_digit(c),
{
    if '0' <= c && c <= '9' {
        Some(c as u32 - '0' as u32)
    } else if 'a' <= c && c <= 'f' {
        Some(c as u32 - 'a' as u32 + 10)
    } else if 'A' <= c && c <= 'F' {
        Some(c as u32 - 'A' as u32 + 10)
    } else {
        None
    }
}

fn simple_escape_exec(e: char) -> (r: Option<char>)
    ensures
        r == simple_escape(e),
{
    if e == '"' {
        Some('"')
    } else if e == '\\' {
        Some('\\')
    } else if e == '/' {
        Some('/')
    } else if e == 'b' {
        Some('\x08')
    } else if e == 'f' {
        Some('\x0c')
    } else if e == 'n' {
        Some('\n')
    } else if e == 'r' {
        Some('\r')
    } else if e == 't' {
        Some('\t')
    } else {
        None
    }
}

impl Parser {
    /// True if the next character is `c`.
    fn next_is(&self, c: char) -> (r: bool)
        requires
            self.wf(),
        ensures
            r == (self.at() < self.chars().len() && self.chars()[self.at()] == c),
    {
        self.pos < self.input.len() && self.input[self.pos] == c
    }

    /// True if the next character is a decimal digit.
    fn at_digit(&self) -> (r: bool)
        requires
            self.wf(),
        ensures
            r == (self.at() < self.chars().len() && is_digit(self.chars()[self.at()])),
    {
        self.pos < self.input.len() && '0' <= self.input[self.pos] && self.input[self.pos] <= '9'
    }

    fn skip_digits(&mut self)
        requires
            old(self).wf(),
        ensures
            final(self).wf(),
            final(self).chars() == old(self).chars(),
            final(self).at() == skip_digits(old(self).chars(), old(self).at()),
    {
        let ghost p0 = self.at();
        while self.at_digit()
            invariant
                self.wf(),
                self.chars() == old(self).chars(),
                skip_digits(self.chars(), self.at()) == skip_digits(self.chars(), p0),
            decreases self.chars().len() - self.at(),
        {
            self.bump();
        }
    }

    /// The characters from `start` to `end` as a string.
    fn text_between(&self, start: usize, end: usize) -> (r: String)
        requires
            self.wf(),
            start <= end <= self.chars().len(),
        ensures
            r@ == self.chars().subrange(start as int, end as int),
    {
        let mut out = String::new();
        let mut q = start;
        while q < end
            invariant
                self.wf(),
                start <= q <= end <= self.chars().len(),
                out@ == self.chars().subrange(start as int, q as int),
            decreases end - q,
        {
            push_char(&mut out, self.input[q]);
            q = q + 1;
            assert(out@ =~= self.chars().subrange(start as int, q as int));
        }
        out
    }

    /// Scans a number token: on success, the index just past its sign,
    /// whether it has a sign, and whether it has a fraction or exponent.
    #[verifier::spinoff_prover]
    #[verifier::rlimit(40)]
    fn scan_number(&mut self) -> (r: Result<(usize, bool, bool), Error>)
        requires
            old(self).wf(),
        ensures
            final(self).wf(),
            final(self).chars() == old(self).chars(),
            ({
                let s = old(self).chars();
                let i = old(self).at();
                match r {
                    Ok((p0, neg, fe)) => {
                        &&& scan_number(s, i) == Ok::<int, int>(final(self).at())
                        &&& neg == (i < s.len() && s[i] == '-')
                        &&& p0 == (if neg { i + 1 } else { i })
                        &&& p0 < final(self).at()
                        &&& fe ==> crate::number::has_frac_or_exp(s.subrange(i, final(self).at()))
                        &&& !fe ==> forall|j: int|
                            p0 <= j < final(self).at() ==> is_digit(#[trigger] s[j])
                    },
                    Err(e) => scan_number(s, i) matches Err(p) && e@ == err_view(
                        err_at(s, p, ErrorCode::InvalidNumber),
                    ),
                }
            }),
    {
        let ghost s = self.chars();
        let start = self.pos;
        let neg = self.next_is('-');
        if neg {
            self.bump();
        }
        let p0 = self.pos;
        if !self.at_digit() {
            return Err(self.error(ErrorCode::InvalidNumber));
        }
        if self.next_is('0') {
            self.bump();
        } else {
            self.skip_digits();
        }
        let p1 = self.pos;
        proof {
            lemma_skip_digits(s, p0 as int);
        }
        assert(p0 < p1);
        assert(forall|j: int| p0 <= j < p1 ==> is_digit(#[trigger] s[j]));
        let frac = self.next_is('.');
        if frac {
            self.bump();
            if !self.at_digit() {
                return Err(self.error(ErrorCode::InvalidNumber));
            }
            proof {
                lemma_skip_digits(s, p1 + 1);
            }
            self.skip_digits();
        }
        let p2 = self.pos;
        assert(p1 <= p2);
        let exp = self.next_is('e') || self.next_is('E');
        if exp {
            self.bump();
            if self.next_is('+') || self.next_is('-') {
                self.bump();
            }
            if !self.at_digit() {
                return Err(self.error(ErrorCode::InvalidNumber));
            }
            proof {
                lemma_skip_digits(s, self.at());
            }
            self.skip_digits();
        }
        let end = self.pos;
        proof {
            let t = s.subrange(start as int, end as int);
            if frac {
                assert(t[p1 - start] == '.');
            } else if exp {
                assert(t[p2 - start] == 'e' || t[p2 - start] == 'E');
            }
        }
        Ok((p0, neg, frac || exp))
    }

    /// The value of the decimal digits from `p0` to `end`, with `true` if
    /// it exceeds `u64::MAX`.
    fn digits_u64(&self, p0: usize, end: usize) -> (r: (u64, bool))
        requires
            self.wf(),
            p0 <= end <= self.chars().len(),
            forall|j: int| p0 <= j < end ==> is_digit(#[trigger] self.chars()[j]),
        ensures
            !r.1 ==> r.0 == digits_value(self.chars().subrange(p0 as int, end as int)),
            r.1 ==> digits_value(self.chars().subrange(p0 as int, end as int)) > u64::MAX,
    {
        let ghost s = self.chars();
        let mut acc: u64 = 0;
        let mut overflow = false;
        let mut q = p0;
        assert(s.subrange(p0 as int, p0 as int) =~= Seq::<char>::empty());
        while q < end
            invariant
                self.wf(),
                self.chars() == s,
                p0 <= q <= end <= s.len(),
                forall|j: int| p0 <= j < end ==> is_digit(#[trigger] s[j]),
                !overflow ==> acc == digits_value(s.subrange(p0 as int, q as int)),
                overflow ==> digits_value(s.subrange(p0 as int, q as int)) > u64::MAX,
            decreases end - q,
        {
            let c = self.input[q];
            let dv = (c as u32 - '0' as u32) as u64;
            assert(s.subrange(p0 as int, q + 1).drop_last() =~= s.subrange(p0 as int, q as int));
            assert(is_digit(s[q as int]));
            assert(dv == digit_value(s[q as int]));
            if !overflow {
                match acc.checked_mul(10) {
                    Some(a) => match a.checked_add(dv) {
                        Some(b) => {
                            acc = b;
                        },
                        None => {
                            overflow = true;
                        },
                    },
                    None => {
                        overflow = true;
                    },
                }
            }
            q = q + 1;
        }
        (acc, overflow)
    }

    /// The text from `start` to `end` followed by `.0`.
    fn text_with_point_zero(&self, start: usize, end: usize) -> (r: String)
        requires
            self.wf(),
            start <= end <= self.chars().len(),
        ensures
            r@ == self.chars().subrange(start as int, end as int) + seq!['.', '0'],
    {
        let mut text = self.text_between(start, end);
        push_char(&mut text, '.');
        push_char(&mut text, '0');
        assert(text@ =~= self.chars().subrange(start as int, end as int) + seq!['.', '0']);
        text
    }

    /// Parses a number token.
    fn parse_number(&mut self) -> (r: Result<Number, Error>)
        requires
            old(self).wf(),
        ensures
            final(self).wf(),
            final(self).chars() == old(self).chars(),
            r is Ok ==> final(self).at() > old(self).at(),
            match r {
                Ok(n) => parse_number(old(self).chars(), old(self).at()) == Ok::<
                    (NumberView, int),
                    SpecError,
                >((n@, final(self).at())),
                Err(e) => parse_number(old(self).chars(), old(self).at()) matches Err(x) && e@
                    == err_view(x),
            },
    {
        let ghost s = self.chars();
        let start = self.pos;
        let (p0, neg, fe) = match self.scan_number() {
            Ok(x) => x,
            Err(e) => {
                return Err(e);
            },
        };
        let end = self.pos;
        let ghost t = s.subrange(start as int, end as int);
        if fe {
            let text = self.text_between(start, end);
            return Ok(Number::from_text(text));
        }
        assert(!crate::number::has_frac_or_exp(t)) by {
            assert forall|k: int| 0 <= k < t.len() implies !(t[k] == '.' || t[k] == 'e' || t[k]
                == 'E') by {
                if k + start >= p0 {
                    assert(is_digit(s[k + start]));
                }
            }
        }
        let (acc, overflow) = self.digits_u64(p0, end);
        assert(s.subrange(p0 as int, end as int) =~= (if neg { t.drop_first() } else { t }));
        if neg {
            if overflow || acc > 0x8000_0000_0000_0000 || acc == 0 {
                let text = self.text_with_point_zero(start, end);
                Ok(Number::from_text(text))
            } else {
                let v: i64 = if acc == 0x8000_0000_0000_0000 {
                    i64::MIN
                } else {
                    -(acc as i64)
                };
                Ok(Number::from_neg(v))
            }
        } else {
            if overflow {
                let text = self.text_with_point_zero(start, end);
                Ok(Number::from_text(text))
            } else {
                Ok(Number::from_pos(acc))
            }
        }
    }

    /// Reads four hexadecimal digits.
    fn read_hex4(&mut self) -> (r: Result<u32, Error>)
        requires
            old(self).wf(),
        ensures
            final(self).wf(),
            final(self).chars() == old(self).chars(),
            match r {
                Ok(u) => hex_run(old(self).chars(), old(self).at(), 4, 0) == Ok::<int, int>(u as int)
                    && final(self).at() == old(self).at() + 4 && u < 0x10000,
                Err(e) => hex_run(old(self).chars(), old(self).at(), 4, 0) matches Err(p) && e@
                    == err_view(hex_error(old(self).chars(), p)),
            },
    {
        let ghost s = self.chars();
        let ghost p0 = self.at();
        let mut acc: u32 = 0;
        let mut n: usize = 0;
        while n < 4
            invariant
                self.wf(),
                self.chars() == s,
                s == old(self).chars(),
                p0 == old(self).at(),
                n <= 4,
                self.at() == p0 + n,
                acc < (if n == 0 { 1int } else if n == 1 { 16 } else if n == 2 { 256 } else if n
                    == 3 { 4096 } else { 65536 }),
                hex_run(s, p0, 4, 0) == hex_run(s, self.at(), (4 - n) as nat, acc as int),
            decreases 4 - n,
        {
            match self.peek() {
                None => {
                    return Err(self.error(ErrorCode::EofString));
                },
                Some(c) => match hex_digit_exec(c) {
                    None => {
                        return Err(self.error(ErrorCode::InvalidUnicodeEscape));
                    },
                    Some(h) => {
                        self.bump();
                        acc = acc * 16 + h;
                        n = n + 1;
                    },
                },
            }
        }
        Ok(acc)
    }

    /// Parses an escape sequence whose backslash is the next character.
    fn parse_escape(&mut self) -> (r: Result<char, Error>)
        requires
            old(self).wf(),
            old(self).at() < old(self).chars().len(),
            old(self).chars()[old(self).at()] == '\\',
        ensures
            final(self).wf(),
            final(self).chars() == old(self).chars(),
            match r {
                Ok(c) => parse_escape(old(self).chars(), old(self).at()) == Ok::<
                    (char, int),
                    SpecError,
                >((c, final(self).at())),
                Err(e) => parse_escape(old(self).chars(), old(self).at()) matches Err(x) && e@
                    == err_view(x),
            },
    {
        let ghost s = self.chars();
        let ghost i = self.at();
        let start_line = self.line;
        let start_col = self.column;
        self.bump();
        let e = match self.peek() {
            None => {
                return Err(self.error(ErrorCode::EofString));
            },
            Some(e) => e,
        };
        match simple_escape_exec(e) {
            Some(c) => {
                self.bump();
                return Ok(c);
            },
            None => {},
        }
        if e != 'u' {
            return Err(self.error(ErrorCode::InvalidEscape));
        }
        self.bump();
        let u = match self.read_hex4() {
            Ok(u) => u,
            Err(err) => {
                return Err(err);
            },
        };
        if 0xD800 <= u && u < 0xDC00 {
            let k_line = self.line;
            let k_col = self.column;
            if !self.next_is('\\') {
                if self.peek().is_none() {
                    return Err(self.error(ErrorCode::EofString));
                }
                return Err(self.error(ErrorCode::InvalidUnicodeEscape));
            }
            self.bump();
            if !self.next_is('u') {
                if self.peek().is_none() {
                    return Err(self.error(ErrorCode::EofString));
                }
                return Err(self.error(ErrorCode::InvalidUnicodeEscape));
            }
            self.bump();
            let l = match self.read_hex4() {
                Ok(l) => l,
                Err(err) => {
                    return Err(err);
                },
            };
            if 0xDC00 <= l && l < 0xE000 {
                let cp: u32 = 0x10000 + (u - 0xD800) * 0x400 + (l - 0xDC00);
                match char_from_u32(cp) {
                    Some(c) => Ok(c),
                    None => Err(Error::from_code(ErrorCode::InvalidUnicodeEscape, k_line, k_col)),
                }
            } else {
                Err(Error::from_code(ErrorCode::InvalidUnicodeEscape, k_line, k_col))
            }
        } else if 0xDC00 <= u && u < 0xE000 {
            Err(Error::from_code(ErrorCode::InvalidUnicodeEscape, start_line, start_col))
        } else {
            match char_from_u32(u) {
                Some(c) => Ok(c),
                None => Err(Error::from_code(ErrorCode::InvalidUnicodeEscape, start_line, start_col)),
            }
        }
    }

    /// Parses the rest of a string whose opening quote has been consumed.
    fn parse_string_body(&mut self) -> (r: Result<String, Error>)
        requires
            old(self).wf(),
        ensures
            final(self).wf(),
            final(self).chars() == old(self).chars(),
            r is Ok ==> final(self).at() > old(self).at(),
            match r {
                Ok(t) => string_body(old(self).chars(), old(self).at(), seq![]) == Ok::<
                    (Seq<char>, int),
                    SpecError,
                >((t@, final(self).at())),
                Err(e) => string_body(old(self).chars(), old(self).at(), seq![]) matches Err(x)
                    && e@ == err_view(x),
            },
    {
        let ghost s = self.chars();
        let ghost p0 = self.at();
        let mut out = String::new();
        loop
            invariant
                self.wf(),
                self.chars() == s,
                s == old(self).chars(),
                p0 == old(self).at(),
                string_body(s, p0, seq![]) == string_body(s, self.at(), out@),
                p0 <= self.at(),
            decreases s.len() - self.at(),
        {
            let c = match self.peek() {
                None => {
                    return Err(self.error(ErrorCode::EofString));
                },
                Some(c) => c,
            };
            if c == '"' {
                self.bump();
                return Ok(out);
            } else if c == '\\' {
                let ghost before = self.at();
                match self.parse_escape() {
                    Ok(e) => {
                        push_char(&mut out, e);
                    },
                    Err(err) => {
                        return Err(err);
                    },
                }
                assert(before < self.at());
            } else if (c as u32) < 0x20 {
                return Err(self.error(ErrorCode::ControlCharacter));
            } else {
                self.bump();
                push_char(&mut out, c);
            }
        }
    }

    /// Parses a value, after optional whitespace.
    pub fn parse_value(&mut self) -> (r: Result<Value, Error>)
        requires
            old(self).wf(),
        ensures
            final(self).wf(),
            final(self).chars() == old(self).chars(),
            r is Ok ==> final(self).at() > old(self).at(),
            match r {
                Ok(v) => parse_value(old(self).chars(), old(self).at()) == Ok::<
                    (JsonValue, int),
                    SpecError,
                >((v@, final(self).at())),
                Err(e) => parse_value(old(self).chars(), old(self).at()) matches Err(x) && e@
                    == err_view(x),
            },
        decreases old(self).chars().len() - old(self).at(), 0int,
    {
        let ghost s = self.chars();
        proof {
            lemma_skip_ws(s, self.at());
        }
        self.skip_whitespace();
        let c = match self.peek() {
            None => {
                return Err(self.error(ErrorCode::EofValue));
            },
            Some(c) => c,
        };
        if c == 'n' {
            match self.expect_literal(Literal::Null) {
                Ok(_) => Ok(Value::Null),
                Err(e) => Err(e),
            }
        } else if c == 't' {
            match self.expect_literal(Literal::True) {
                Ok(_) => Ok(Value::Bool(true)),
                Err(e) => Err(e),
            }
        } else if c == 'f' {
            match self.expect_literal(Literal::False) {
                Ok(_) => Ok(Value::Bool(false)),
                Err(e) => Err(e),
            }
        } else if c == '-' || ('0' <= c && c <= '9') {
            match self.parse_number() {
                Ok(n) => Ok(Value::Number(n)),
                Err(e) => Err(e),
            }
        } else if c == '"' {
            self.bump();
            match self.parse_string_body() {
                Ok(t) => Ok(Value::String(t)),
                Err(e) => Err(e),
            }
        } else if c == '[' {
            self.bump();
            self.parse_array()
        } else if c == '{' {
            self.bump();
            self.parse_object()
        } else {
            Err(self.error(ErrorCode::UnexpectedChar(lead_byte_exec(c))))
        }
    }

    /// Parses the rest of an array whose `[` has been consumed.
    fn parse_array(&mut self) -> (r: Result<Value, Error>)
        requires
            old(self).wf(),
        ensures
            final(self).wf(),
            final(self).chars() == old(self).chars(),
            r is Ok ==> final(self).at() > old(self).at(),
            match r {
                Ok(v) => parse_items(old(self).chars(), old(self).at(), true, seq![]) == Ok::<
                    (JsonValue, int),
                    SpecError,
                >((v@, final(self).at())),
                Err(e) => parse_items(old(self).chars(), old(self).at(), true, seq![]) matches Err(
                    x,
                ) && e@ == err_view(x),
            },
        decreases old(self).chars().len() - old(self).at(), 1int,
    {
        let ghost s = self.chars();
        let ghost i = self.at();
        let mut items: Vec<Value> = Vec::new();
        let mut first = true;
        assert(views(items@) =~= seq![]);
        loop
            invariant
                self.wf(),
                self.chars() == s,
                s == old(self).chars(),
                i == old(self).at(),
                i <= self.at() <= s.len(),
                first ==> self.at() == i && items@.len() == 0,
                parse_items(s, i, true, seq![]) == parse_items(s, self.at(), first, views(items@)),
            decreases s.len() - self.at(),
        {
            let ghost p = self.at();
            proof {
                lemma_skip_ws(s, p);
            }
            self.skip_whitespace();
            if self.next_is(']') {
                self.bump();
                proof {
                    lemma_array_view(items);
                }
                return Ok(Value::Array(items));
            }
            if !first {
                match self.peek() {
                    None => {
                        return Err(self.error(ErrorCode::EofArray));
                    },
                    Some(c) => {
                        if c != ',' {
                            return Err(self.error_after_byte(ErrorCode::ExpectedArraySep));
                        }
                    },
                }
                self.bump();
                proof {
                    lemma_skip_ws(s, self.at());
                }
                self.skip_whitespace();
            }
            assert(next_element(s, skip_ws(s, p), first) == Ok::<int, SpecError>(self.at()));
            first = false;
            let ghost old_items = items@;
            match self.parse_value() {
                Ok(v) => {
                    items.push(v);
                    assert(views(items@) =~= views(old_items).push(v@));
                },
                Err(e) => {
                    return Err(e);
                },
            }
        }
    }

    /// Parses the rest of an object whose `{` has been consumed.
    fn parse_object(&mut self) -> (r: Result<Value, Error>)
        requires
            old(self).wf(),
        ensures
            final(self).wf(),
            final(self).chars() == old(self).chars(),
            r is Ok ==> final(self).at() > old(self).at(),
            match r {
                Ok(v) => parse_members(old(self).chars(), old(self).at(), true, seq![]) == Ok::<
                    (JsonValue, int),
                    SpecError,
                >((v@, final(self).at())),
                Err(e) => parse_members(old(self).chars(), old(self).at(), true, seq![]) matches Err(
                    x,
                ) && e@ == err_view(x),
            },
        decreases old(self).chars().len() - old(self).at(), 1int,
    {
        let ghost s = self.chars();
        let ghost i = self.at();
        let mut map = JsonMap::new();
        let mut first = true;
        loop
            invariant
                self.wf(),
                self.chars() == s,
                s == old(self).chars(),
                i == old(self).at(),
                i <= self.at() <= s.len(),
                first ==> self.at() == i && map@.len() == 0,
                map.wf(),
                parse_members(s, i, true, seq![]) == parse_members(s, self.at(), first, map@),
            decreases s.len() - self.at(),
        {
            let ghost p = self.at();
            proof {
                lemma_skip_ws(s, p);
            }
            self.skip_whitespace();
            if self.next_is('}') {
                self.bump();
                return Ok(Value::Object(map));
            }
            if !first {
                match self.peek() {
                    None => {
                        return Err(self.error(ErrorCode::EofObject));
                    },
                    Some(c) => {
                        if c != ',' {
                            return Err(self.error_after_byte(ErrorCode::ExpectedObjectSep));
                        }
                    },
                }
                self.bump();
                proof {
                    lemma_skip_ws(s, self.at());
                }
                self.skip_whitespace();
            }
            assert(next_member(s, skip_ws(s, p), first) == Ok::<int, SpecError>(self.at()));
            first = false;
            match self.peek() {
                None => {
                    return Err(self.error(ErrorCode::EofObject));
                },
                Some(c) => {
                    if c != '"' {
                        return Err(self.error(ErrorCode::ExpectedKey));
                    }
                },
            }
            self.bump();
            let key = match self.parse_string_body() {
                Ok(k) => k,
                Err(e) => {
                    return Err(e);
                },
            };
            proof {
                lemma_skip_ws(s, self.at());
            }
            self.skip_whitespace();
            match self.peek() {
                None => {
                    return Err(self.error(ErrorCode::EofObject));
                },
                Some(c) => {
                    if c != ':' {
                        return Err(self.error_after_byte(ErrorCode::ExpectedColon));
                    }
                },
            }
            self.bump();
            let v = match self.parse_value() {
                Ok(v) => v,
                Err(e) => {
                    return Err(e);
                },
            };
            map.insert(key, v);
        }
    }

    /// Parses an enum value, after optional whitespace: a string names a
    /// unit variant and gives no content; an object with one member gives
    /// the variant's name and its content.
    pub fn parse_enum(&mut self) -> (r: Result<(String, Option<Value>), Error>)
        requires
            old(self).wf(),
        ensures
            final(self).wf(),
            final(self).chars() == old(self).chars(),
            match r {
                Ok((name, content)) => parse_enum(old(self).chars(), old(self).at()) == Ok::<
                    ((Seq<char>, Option<JsonValue>), int),
                    SpecError,
                >(((name@, opt_view(content)), final(self).at())),
                Err(e) => parse_enum(old(self).chars(), old(self).at()) matches Err(x) && e@
                    == err_view(x),
            },
    {
        let ghost s = self.chars();
        let ghost i = self.at();
        proof {
            lemma_skip_ws(s, i);
        }
        self.skip_whitespace();
        let ghost j = self.at();
        match self.peek() {
            None => {
                return Err(self.error(ErrorCode::EofValue));
            },
            Some(c) => {
                if c == '"' {
                    self.bump();
                    return match self.parse_string_body() {
                        Ok(name) => Ok((name, None)),
                        Err(e) => Err(e),
                    };
                }
                if c != '{' {
                    return Err(self.error(ErrorCode::ExpectedEnum));
                }
            },
        }
        self.bump();
        proof {
            lemma_skip_ws(s, self.at());
        }
        self.skip_whitespace();
        match self.peek() {
            None => {
                return Err(self.error(ErrorCode::EofEnum));
            },
            Some(c) => {
                if c != '"' {
                    return Err(self.error(ErrorCode::ExpectedVariantName));
                }
            },
        }
        self.bump();
        let name = match self.parse_string_body() {
            Ok(k) => k,
            Err(e) => {
                return Err(e);
            },
        };
        proof {
            lemma_skip_ws(s, self.at());
        }
        self.skip_whitespace();
        match self.peek() {
            None => {
                return Err(self.error(ErrorCode::EofEnum));
            },
            Some(c) => {
                if c != ':' {
                    return Err(self.error_after_byte(ErrorCode::ExpectedVariantColon));
                }
            },
        }
        self.bump();
        let v = match self.parse_value() {
            Ok(v) => v,
            Err(e) => {
                return Err(e);
            },
        };
        proof {
            lemma_skip_ws(s, self.at());
        }
        self.skip_whitespace();
        match self.peek() {
            None => {
                return Err(self.error(ErrorCode::EofEnum));
            },
            Some(c) => {
                if c != '}' {
                    return Err(self.error_after_byte(ErrorCode::ExpectedEnumClose));
                }
            },
        }
        self.bump();
        Ok((name, Some(v)))
    }

    /// Opens a container after optional whitespace: `open` must come next,
    /// else the error `code` is reported where it should be.
    pub fn open_container(&mut self, open: char, code: ErrorCode) -> (r: Result<(), Error>)
        requires
            old(self).wf(),
        ensures
            final(self).wf(),
            final(self).chars() == old(self).chars(),
            match r {
                Ok(_) => open_step(old(self).chars(), old(self).at(), open, code) == Ok::<
                    int,
                    SpecError,
                >(final(self).at()),
                Err(e) => open_step(old(self).chars(), old(self).at(), open, code) matches Err(x)
                    && e@ == err_view(x),
            },
    {
        proof {
            lemma_skip_ws(self.chars(), self.at());
        }
        self.skip_whitespace();
        if self.next_is(open) {
            self.bump();
            Ok(())
        } else {
            Err(self.error(code))
        }
    }

    fn close_container(&mut self, close: char, eof: ErrorCode, other: ErrorCode) -> (r: Result<
        (),
        Error,
    >)
        requires
            old(self).wf(),
        ensures
            final(self).wf(),
            final(self).chars() == old(self).chars(),
            match r {
                Ok(_) => close_step(old(self).chars(), old(self).at(), close, eof, other) == Ok::<
                    int,
                    SpecError,
                >(final(self).at()),
                Err(e) => close_step(old(self).chars(), old(self).at(), close, eof, other) matches Err(
                    x,
                ) && e@ == err_view(x),
            },
    {
        proof {
            lemma_skip_ws(self.chars(), self.at());
        }
        self.skip_whitespace();
        match self.peek() {
            None => Err(self.error(eof)),
            Some(c) => {
                if c != close {
                    Err(self.error_after_byte(other))
                } else {
                    self.bump();
                    Ok(())
                }
            },
        }
    }

    /// Closes an array: `]` must come next, after optional whitespace.
    pub fn close_array(&mut self) -> (r: Result<(), Error>)
        requires
            old(self).wf(),
        ensures
            final(self).wf(),
            final(self).chars() == old(self).chars(),
            match r {
                Ok(_) => close_step(
                    old(self).chars(),
                    old(self).at(),
                    ']',
                    ErrorCode::EofArray,
                    ErrorCode::ExpectedArraySep,
                ) == Ok::<int, SpecError>(final(self).at()),
                Err(e) => close_step(
                    old(self).chars(),
                    old(self).at(),
                    ']',
                    ErrorCode::EofArray,
                    ErrorCode::ExpectedArraySep,
                ) matches Err(x) && e@ == err_view(x),
            },
    {
        self.close_container(']', ErrorCode::EofArray, ErrorCode::ExpectedArraySep)
    }

    /// Closes an object: `}` must come next, after optional whitespace.
    pub fn close_object(&mut self) -> (r: Result<(), Error>)
        requires
            old(self).wf(),
        ensures
            final(self).wf(),
            final(self).chars() == old(self).chars(),
            match r {
                Ok(_) => close_step(
                    old(self).chars(),
                    old(self).at(),
                    '}',
                    ErrorCode::EofObject,
                    ErrorCode::ExpectedObjectSep,
                ) == Ok::<int, SpecError>(final(self).at()),
                Err(e) => close_step(
                    old(self).chars(),
                    old(self).at(),
                    '}',
                    ErrorCode::EofObject,
                    ErrorCode::ExpectedObjectSep,
                ) matches Err(x) && e@ == err_view(x),
            },
    {
        self.close_container('}', ErrorCode::EofObject, ErrorCode::ExpectedObjectSep)
    }

    /// Closes an enum object: `}` must come next, after optional whitespace.
    pub fn close_enum(&mut self) -> (r: Result<(), Error>)
        requires
            old(self).wf(),
        ensures
            final(self).wf(),
            final(self).chars() == old(self).chars(),
            match r {
                Ok(_) => close_step(
                    old(self).chars(),
                    old(self).at(),
                    '}',
                    ErrorCode::EofEnum,
                    ErrorCode::ExpectedEnumClose,
                ) == Ok::<int, SpecError>(final(self).at()),
                Err(e) => close_step(
                    old(self).chars(),
                    old(self).at(),
                    '}',
                    ErrorCode::EofEnum,
                    ErrorCode::ExpectedEnumClose,
                ) matches Err(x) && e@ == err_view(x),
            },
    {
        self.close_container('}', ErrorCode::EofEnum, ErrorCode::ExpectedEnumClose)
    }

    /// Reads the `:` between an object key and its value.
    pub fn object_colon(&mut self) -> (r: Result<(), Error>)
        requires
            old(self).wf(),
        ensures
            final(self).wf(),
            final(self).chars() == old(self).chars(),
            match r {
                Ok(_) => colon_step(old(self).chars(), old(self).at()) == Ok::<int, SpecError>(
                    final(self).at(),
                ),
                Err(e) => colon_step(old(self).chars(), old(self).at()) matches Err(x) && e@
                    == err_view(x),
            },
    {
        self.close_container(':', ErrorCode::EofObject, ErrorCode::ExpectedColon)
    }

    /// Whether another array element follows (`first` for the first one);
    /// the parser then stands at its start, or at the `]`.
    pub fn array_next(&mut self, first: bool) -> (r: Result<bool, Error>)
        requires
            old(self).wf(),
        ensures
            final(self).wf(),
            final(self).chars() == old(self).chars(),
            match r {
                Ok(b) => array_next_step(old(self).chars(), old(self).at(), first) == Ok::<
                    (bool, int),
                    SpecError,
                >((b, final(self).at())),
                Err(e) => array_next_step(old(self).chars(), old(self).at(), first) matches Err(x)
                    && e@ == err_view(x),
            },
    {
        let ghost s = self.chars();
        proof {
            lemma_skip_ws(s, self.at());
        }
        self.skip_whitespace();
        if self.next_is(']') {
            return Ok(false);
        }
        if !first {
            match self.peek() {
                None => {
                    return Err(self.error(ErrorCode::EofArray));
                },
                Some(c) => {
                    if c != ',' {
                        return Err(self.error_after_byte(ErrorCode::ExpectedArraySep));
                    }
                },
            }
            self.bump();
            self.skip_whitespace();
        }
        Ok(true)
    }

    /// The key of the next object member (`first` for the first one), if
    /// any; the parser then stands after the key, or at the `}`.
    pub fn object_next_key(&mut self, first: bool) -> (r: Result<Option<String>, Error>)
        requires
            old(self).wf(),
        ensures
            final(self).wf(),
            final(self).chars() == old(self).chars(),
            match r {
                Ok(k) => object_key_step(old(self).chars(), old(self).at(), first) == Ok::<
                    (Option<Seq<char>>, int),
                    SpecError,
                >(
                    (
                        match k {
                            Some(t) => Some(t@),
                            None => None,
                        },
                        final(self).at(),
                    ),
                ),
                Err(e) => object_key_step(old(self).chars(), old(self).at(), first) matches Err(x)
                    && e@ == err_view(x),
            },
    {
        let ghost s = self.chars();
        proof {
            lemma_skip_ws(s, self.at());
        }
        self.skip_whitespace();
        if self.next_is('}') {
            return Ok(None);
        }
        if !first {
            match self.peek() {
                None => {
                    return Err(self.error(ErrorCode::EofObject));
                },
                Some(c) => {
                    if c != ',' {
                        return Err(self.error_after_byte(ErrorCode::ExpectedObjectSep));
                    }
                },
            }
            self.bump();
            self.skip_whitespace();
        }
        match self.peek() {
            None => {
                return Err(self.error(ErrorCode::EofObject));
            },
            Some(c) => {
                if c != '"' {
                    return Err(self.error(ErrorCode::ExpectedKey));
                }
            },
        }
        self.bump();
        match self.parse_string_body() {
            Ok(k) => Ok(Some(k)),
            Err(e) => Err(e),
        }
    }

    /// Reads the start of an enum value: the variant's name, and whether
    /// content follows (an object, read up to and with the `:`) rather than
    /// the name alone (a string).
    pub fn enum_open(&mut self) -> (r: Result<(String, bool), Error>)
        requires
            old(self).wf(),
        ensures
            final(self).wf(),
            final(self).chars() == old(self).chars(),
            match r {
                Ok((name, more)) => enum_open_step(old(self).chars(), old(self).at()) == Ok::<
                    ((Seq<char>, bool), int),
                    SpecError,
                >(((name@, more), final(self).at())),
                Err(e) => enum_open_step(old(self).chars(), old(self).at()) matches Err(x) && e@
                    == err_view(x),
            },
    {
        let ghost s = self.chars();
        proof {
            lemma_skip_ws(s, self.at());
        }
        self.skip_whitespace();
        match self.peek() {
            None => {
                return Err(self.error(ErrorCode::EofValue));
            },
            Some(c) => {
                if c == '"' {
                    self.bump();
                    return match self.parse_string_body() {
                        Ok(name) => Ok((name, false)),
                        Err(e) => Err(e),
                    };
                }
                if c != '{' {
                    return Err(self.error(ErrorCode::ExpectedEnum));
                }
            },
        }
        self.bump();
        proof {
            lemma_skip_ws(s, self.at());
        }
        self.skip_whitespace();
        match self.peek() {
            None => {
                return Err(self.error(ErrorCode::EofEnum));
            },
            Some(c) => {
                if c != '"' {
                    return Err(self.error(ErrorCode::ExpectedVariantName));
                }
            },
        }
        self.bump();
        let name = match self.parse_string_body() {
            Ok(k) => k,
            Err(e) => {
                return Err(e);
            },
        };
        match self.close_container(':', ErrorCode::EofEnum, ErrorCode::ExpectedVariantColon) {
            Ok(_) => Ok((name, true)),
            Err(e) => Err(e),
        }
    }

    /// Parses a complete JSON document: one value, optionally surrounded by
    /// whitespace, with nothing left over afterward.
    pub fn parse(input: &str) -> (r: Result<Value, Error>)
        requires
            input.len() < usize::MAX,
        ensures
            match r {
                Ok(v) => parse_document(input@) == Ok::<JsonValue, SpecError>(v@),
                Err(e) => parse_document(input@) matches Err(x) && e@ == err_view(x),
            },
    {
        let mut parser = Parser::new(input);
        let value = match parser.parse_value() {
            Ok(v) => v,
            Err(e) => {
                return Err(e);
            },
        };
        parser.skip_whitespace();
        if parser.pos != parser.input.len() {
            return Err(parser.error(ErrorCode::TrailingCharacters));
        }
        Ok(value)
    }

    /// The number of bytes of the text consumed so far.
    pub fn byte_pos(&self) -> (r: usize)
        requires
            self.wf(),
        ensures
            r == bytes_before(self.chars(), self.at()),
            0 <= self.at() <= self.chars().len(),
    {
        self.byte_pos
    }

    /// The error for text left over after a value: trailing characters at
    /// the current position.
    pub fn trailing_error(&self) -> (e: Error)
        requires
            self.wf(),
        ensures
            e@ == err_view(err_at(self.chars(), self.at(), ErrorCode::TrailingCharacters)),
    {
        self.error(ErrorCode::TrailingCharacters)
    }

    /// True if the whole text has been consumed.
    pub fn at_end(&self) -> (r: bool)
        requires
            self.wf(),
        ensures
            r == (self.at() == self.chars().len()),
    {
        self.pos == self.input.len()
    }
}

} // verus!
