//! The JSON grammar as spec functions over the characters of the input:
//! what parsing the text at a position gives, a value and the position
//! after it, or an error code and the line and column where the parser
//! stopped.

use vstd::prelude::*;
use crate::error::{ErrorCode, Literal};
use crate::map::map_insert;
use crate::number::{number_of_lexeme, scan_number, skip_digits, NumberView};
use crate::text::{bytes_before, char_width, is_digit, lead_byte};
use crate::value::JsonValue;

verus! {

/// An error of the grammar: its code, line and column.
pub type SpecError = (ErrorCode, nat, nat);

/// A result of the grammar: a parsed item and the position after it.
pub type PResult<T> = Result<(T, int), SpecError>;

/// JSON whitespace (RFC 8259 section 2).
pub open spec fn is_ws(c: char) -> bool {
    c == ' ' || c == '\t' || c == '\n' || c == '\r'
}

/// Index of the first non-whitespace character at or after `i`.
pub open spec fn skip_ws(s: Seq<char>, i: int) -> int
    decreases s.len() - i,
{
    if 0 <= i < s.len() && is_ws(s[i]) {
        skip_ws(s, i + 1)
    } else {
        i
    }
}

/// The 1-based line of position `p`.
pub open spec fn line_at(s: Seq<char>, p: int) -> nat
    decreases p,
{
    if p <= 0 {
        1
    } else {
        line_at(s, p - 1) + if s[p - 1] == '\n' {
            1nat
        } else {
            0nat
        }
    }
}

/// The 1-based column of position `p`, counted in bytes.
pub open spec fn col_at(s: Seq<char>, p: int) -> nat
    decreases p,
{
    if p <= 0 {
        1
    } else if s[p - 1] == '\n' {
        1
    } else {
        col_at(s, p - 1) + char_width(s[p - 1])
    }
}

/// An error at position `p`.
pub open spec fn err_at(s: Seq<char>, p: int, code: ErrorCode) -> SpecError {
    (code, line_at(s, p), col_at(s, p))
}

/// An error raised after the first byte of the character at `p` was
/// consumed.
pub open spec fn err_after_byte(s: Seq<char>, p: int, code: ErrorCode) -> SpecError {
    if s[p] == '\n' {
        (code, line_at(s, p) + 1, 1)
    } else {
        (code, line_at(s, p), col_at(s, p) + 1)
    }
}

pub proof fn lemma_skip_ws(s: Seq<char>, i: int)
    requires
        0 <= i <= s.len(),
    ensures
        i <= skip_ws(s, i) <= s.len(),
        forall|j: int| i <= j < skip_ws(s, i) ==> is_ws(#[trigger] s[j]),
        skip_ws(s, i) < s.len() ==> !is_ws(s[skip_ws(s, i)]),
    decreases s.len() - i,
{
    if i < s.len() && is_ws(s[i]) {
        lemma_skip_ws(s, i + 1);
    }
}

/// Matches the characters of a literal word from its `k`-th on, at `i + k`.
pub open spec fn parse_literal(s: Seq<char>, i: int, lit: Literal, k: int) -> Result<int, SpecError>
    decreases lit.word().len() - k,
{
    if k >= lit.word().len() {
        Ok(i + k)
    } else if i + k >= s.len() {
        Err(err_at(s, i + k, ErrorCode::InvalidLiteral(lit)))
    } else if s[i + k] != lit.word()[k] {
        Err(err_after_byte(s, i + k, ErrorCode::InvalidLiteral(lit)))
    } else {
        parse_literal(s, i, lit, k + 1)
    }
}

/// A number token at `i`.
pub open spec fn parse_number(s: Seq<char>, i: int) -> PResult<NumberView> {
    match scan_number(s, i) {
        Err(p) => Err(err_at(s, p, ErrorCode::InvalidNumber)),
        Ok(e) => Ok((number_of_lexeme(s.subrange(i, e)), e)),
    }
}

/// The value of a hexadecimal digit.
pub open spec fn hex_digit(c: char) -> Option<u32> {
    if '0' <= c <= '9' {
        Some((c as u32 - '0' as u32) as u32)
    } else if 'a' <= c <= 'f' {
        Some((c as u32 - 'a' as u32 + 10) as u32)
    } else if 'A' <= c <= 'F' {
        Some((c as u32 - 'A' as u32 + 10) as u32)
    } else {
        None
    }
}

/// Reads `n` hexadecimal digits at `p` onto `acc`; `Err(q)` names the
/// position of the first character that is missing or not a digit.
pub open spec fn hex_run(s: Seq<char>, p: int, n: nat, acc: int) -> Result<int, int>
    decreases n,
{
    if n == 0 {
        Ok(acc)
    } else if !(0 <= p < s.len()) {
        Err(p)
    } else {
        match hex_digit(s[p]) {
            None => Err(p),
            Some(h) => hex_run(s, p + 1, (n - 1) as nat, acc * 16 + h),
        }
    }
}

/// The error for a bad hex digit at `p`.
pub open spec fn hex_error(s: Seq<char>, p: int) -> SpecError {
    if p >= s.len() {
        err_at(s, p, ErrorCode::EofString)
    } else {
        err_at(s, p, ErrorCode::InvalidUnicodeEscape)
    }
}

/// The character of a one-letter escape (the letter after `\`).
pub open spec fn simple_escape(e: char) -> Option<char> {
    if e == '"' {
        Some('"')
    } else if e == '\\' {
        Some('\\')
    } else if e == '/' {
        Some('/')
    } else if e == 'b' {
        Some('\x08')
    } else if e == 'f' {
        Some('\x0c')
    } else if e == 'n' {
        Some('\n')
    } else if e == 'r' {
        Some('\r')
    } else if e == 't' {
        Some('\t')
    } else {
        None
    }
}

/// An escape sequence whose backslash is at `i`: the character it stands
/// for and the position after it.
pub open spec fn parse_escape(s: Seq<char>, i: int) -> PResult<char> {
    let j = i + 1;
    if !(0 <= j < s.len()) {
        Err(err_at(s, j, ErrorCode::EofString))
    } else if simple_escape(s[j]) is Some {
        Ok((simple_escape(s[j])->0, j + 1))
    } else if s[j] != 'u' {
        Err(err_at(s, j, ErrorCode::InvalidEscape))
    } else {
        match hex_run(s, j + 1, 4, 0) {
            Err(p) => Err(hex_error(s, p)),
            Ok(u) => if 0xD800 <= u < 0xDC00 {
                let k = j + 5;
                if k >= s.len() {
                    Err(err_at(s, k, ErrorCode::EofString))
                } else if s[k] != '\\' {
                    Err(err_at(s, k, ErrorCode::InvalidUnicodeEscape))
                } else if k + 1 >= s.len() {
                    Err(err_at(s, k + 1, ErrorCode::EofString))
                } else if s[k + 1] != 'u' {
                    Err(err_at(s, k + 1, ErrorCode::InvalidUnicodeEscape))
                } else {
                    match hex_run(s, k + 2, 4, 0) {
                        Err(p) => Err(hex_error(s, p)),
                        Ok(l) => if 0xDC00 <= l < 0xE000 {
                            Ok(
                                (
                                    (0x10000 + (u - 0xD800) * 0x400 + (l - 0xDC00)) as u32 as char,
                                    k + 6,
                                ),
                            )
                        } else {
                            Err(err_at(s, k, ErrorCode::InvalidUnicodeEscape))
                        },
                    }
                }
            } else if 0xDC00 <= u < 0xE000 {
                Err(err_at(s, i, ErrorCode::InvalidUnicodeEscape))
            } else {
                Ok((u as u32 as char, j + 5))
            },
        }
    }
}

/// The rest of a string whose characters so far are `acc`, from `i`
/// (just past the opening quote or the last character read).
pub open spec fn string_body(s: Seq<char>, i: int, acc: Seq<char>) -> PResult<Seq<char>>
    decreases s.len() - i,
{
    if !(0 <= i < s.len()) {
        Err(err_at(s, i, ErrorCode::EofString))
    } else if s[i] == '"' {
        Ok((acc, i + 1))
    } else if s[i] == '\\' {
        match parse_escape(s, i) {
            Err(e) => Err(e),
            Ok((c, j)) => if i < j <= s.len() {
                string_body(s, j, acc.push(c))
            } else {
                Err(err_at(s, j, ErrorCode::EofString))
            },
        }
    } else if (s[i] as u32) < 0x20 {
        Err(err_at(s, i, ErrorCode::ControlCharacter))
    } else {
        string_body(s, i + 1, acc.push(s[i]))
    }
}

/// A value, after optional whitespace, at `i`.
pub open spec fn parse_value(s: Seq<char>, i: int) -> PResult<JsonValue>
    decreases s.len() - i, 0int,
{
    if !(0 <= i <= s.len()) {
        Err(err_at(s, i, ErrorCode::EofValue))
    } else {
        let j = skip_ws(s, i);
        proof {
            lemma_skip_ws(s, i);
        }
        if j >= s.len() {
            Err(err_at(s, j, ErrorCode::EofValue))
        } else {
            let c = s[j];
            if c == 'n' {
                match parse_literal(s, j, Literal::Null, 0) {
                    Ok(e) => Ok((JsonValue::Null, e)),
                    Err(x) => Err(x),
                }
            } else if c == 't' {
                match parse_literal(s, j, Literal::True, 0) {
                    Ok(e) => Ok((JsonValue::Bool(true), e)),
                    Err(x) => Err(x),
                }
            } else if c == 'f' {
                match parse_literal(s, j, Literal::False, 0) {
                    Ok(e) => Ok((JsonValue::Bool(false), e)),
                    Err(x) => Err(x),
                }
            } else if c == '-' || is_digit(c) {
                match parse_number(s, j) {
                    Ok((n, e)) => Ok((JsonValue::Number(n), e)),
                    Err(x) => Err(x),
                }
            } else if c == '"' {
                match string_body(s, j + 1, seq![]) {
                    Ok((t, e)) => Ok((JsonValue::Str(t), e)),
                    Err(x) => Err(x),
                }
            } else if c == '[' {
                parse_items(s, j + 1, true, seq![])
            } else if c == '{' {
                parse_members(s, j + 1, true, seq![])
            } else {
                Err(err_at(s, j, ErrorCode::UnexpectedChar(lead_byte(c))))
            }
        }
    }
}

/// Where the next array element starts: right at the first one, or after
/// a `,` at `j` for a later one.
pub open spec fn next_element(s: Seq<char>, j: int, first: bool) -> Result<int, SpecError> {
    if first {
        Ok(j)
    } else if j >= s.len() {
        Err(err_at(s, j, ErrorCode::EofArray))
    } else if s[j] != ',' {
        Err(err_after_byte(s, j, ErrorCode::ExpectedArraySep))
    } else {
        Ok(skip_ws(s, j + 1))
    }
}

/// The rest of an array whose elements so far are `acc`, from `i`.
pub open spec fn parse_items(s: Seq<char>, i: int, first: bool, acc: Seq<JsonValue>) -> PResult<
    JsonValue,
>
    decreases s.len() - i, 1int,
{
    if !(0 <= i <= s.len()) {
        Err(err_at(s, i, ErrorCode::EofArray))
    } else {
        let j = skip_ws(s, i);
        proof {
            lemma_skip_ws(s, i);
            if j + 1 <= s.len() {
                lemma_skip_ws(s, j + 1);
            }
        }
        if j < s.len() && s[j] == ']' {
            Ok((JsonValue::Array(acc), j + 1))
        } else {
            match next_element(s, j, first) {
                Err(e) => Err(e),
                Ok(k) => match parse_value(s, k) {
                    Err(e) => Err(e),
                    Ok((v, m)) => if i < m <= s.len() {
                        parse_items(s, m, false, acc.push(v))
                    } else {
                        Err(err_at(s, m, ErrorCode::EofArray))
                    },
                },
            }
        }
    }
}

/// Where the next object member starts: right at the first one, or after
/// a `,` at `j` for a later one.
pub open spec fn next_member(s: Seq<char>, j: int, first: bool) -> Result<int, SpecError> {
    if first {
        Ok(j)
    } else if j >= s.len() {
        Err(err_at(s, j, ErrorCode::EofObject))
    } else if s[j] != ',' {
        Err(err_after_byte(s, j, ErrorCode::ExpectedObjectSep))
    } else {
        Ok(skip_ws(s, j + 1))
    }
}

/// The rest of an object whose members so far are `acc` (sorted by key,
/// a later duplicate key replacing the earlier value), from `i`.
pub open spec fn parse_members(
    s: Seq<char>,
    i: int,
    first: bool,
    acc: Seq<(Seq<char>, JsonValue)>,
) -> PResult<JsonValue>
    decreases s.len() - i, 1int,
{
    if !(0 <= i <= s.len()) {
        Err(err_at(s, i, ErrorCode::EofObject))
    } else {
        let j = skip_ws(s, i);
        proof {
            lemma_skip_ws(s, i);
            if j + 1 <= s.len() {
                lemma_skip_ws(s, j + 1);
            }
        }
        if j < s.len() && s[j] == '}' {
            Ok((JsonValue::Object(acc), j + 1))
        } else {
            match next_member(s, j, first) {
                Err(e) => Err(e),
                Ok(k) => if k >= s.len() {
                    Err(err_at(s, k, ErrorCode::EofObject))
                } else if s[k] != '"' {
                    Err(err_at(s, k, ErrorCode::ExpectedKey))
                } else {
                    match string_body(s, k + 1, seq![]) {
                        Err(e) => Err(e),
                        Ok((key, m)) => if !(k < m <= s.len()) {
                            Err(err_at(s, m, ErrorCode::EofObject))
                        } else {
                            let q = skip_ws(s, m);
                            proof {
                                lemma_skip_ws(s, m);
                            }
                            if q >= s.len() {
                                Err(err_at(s, q, ErrorCode::EofObject))
                            } else if s[q] != ':' {
                                Err(err_after_byte(s, q, ErrorCode::ExpectedColon))
                            } else {
                                match parse_value(s, q + 1) {
                                    Err(e) => Err(e),
                                    Ok((v, r)) => if i < r <= s.len() {
                                        parse_members(s, r, false, map_insert(acc, key, v))
                                    } else {
                                        Err(err_at(s, r, ErrorCode::EofObject))
                                    },
                                }
                            }
                        },
                    }
                },
            }
        }
    }
}

/// A complete document: one value with only whitespace around it.
pub open spec fn parse_document(s: Seq<char>) -> Result<JsonValue, SpecError> {
    match parse_value(s, 0) {
        Err(e) => Err(e),
        Ok((v, e)) => {
            let t = skip_ws(s, e);
            if t != s.len() {
                Err(err_at(s, t, ErrorCode::TrailingCharacters))
            } else {
                Ok(v)
            }
        },
    }
}

/// Reads an enum value at `i`, after optional whitespace: a string names a
/// unit variant; an object with one member names the variant by its key and
/// holds the variant's content as its value. The result is the name, the
/// content if any, and the index just past the value.
pub open spec fn parse_enum(s: Seq<char>, i: int) -> PResult<(Seq<char>, Option<JsonValue>)> {
    let j = skip_ws(s, i);
    if !(0 <= i <= s.len()) || j >= s.len() {
        Err(err_at(s, j, ErrorCode::EofValue))
    } else if s[j] == '"' {
        match string_body(s, j + 1, seq![]) {
            Ok((name, e)) => Ok(((name, None), e)),
            Err(x) => Err(x),
        }
    } else if s[j] != '{' {
        Err(err_at(s, j, ErrorCode::ExpectedEnum))
    } else {
        let k = skip_ws(s, j + 1);
        if k >= s.len() {
            Err(err_at(s, k, ErrorCode::EofEnum))
        } else if s[k] != '"' {
            Err(err_at(s, k, ErrorCode::ExpectedVariantName))
        } else {
            match string_body(s, k + 1, seq![]) {
                Err(x) => Err(x),
                Ok((name, m)) => {
                    let q = skip_ws(s, m);
                    if q >= s.len() {
                        Err(err_at(s, q, ErrorCode::EofEnum))
                    } else if s[q] != ':' {
                        Err(err_after_byte(s, q, ErrorCode::ExpectedVariantColon))
                    } else {
                        match parse_value(s, q + 1) {
                            Err(x) => Err(x),
                            Ok((v, r)) => {
                                let t = skip_ws(s, r);
                                if t >= s.len() {
                                    Err(err_at(s, t, ErrorCode::EofEnum))
                                } else if s[t] != '}' {
                                    Err(err_after_byte(s, t, ErrorCode::ExpectedEnumClose))
                                } else {
                                    Ok(((name, Some(v)), t + 1))
                                }
                            },
                        }
                    }
                },
            }
        }
    }
}

/// Reads a whole text as one enum value with only whitespace around it.
pub open spec fn parse_enum_document(s: Seq<char>) -> Result<
    (Seq<char>, Option<JsonValue>),
    SpecError,
> {
    match parse_enum(s, 0) {
        Err(e) => Err(e),
        Ok((x, e)) => {
            let t = skip_ws(s, e);
            if t != s.len() {
                Err(err_at(s, t, ErrorCode::TrailingCharacters))
            } else {
                Ok(x)
            }
        },
    }
}

// ---------------------------------------------------------------------------
// Single steps, for a reader that builds its result between steps: each
// gives what it reads and the index after it.

/// Opens a container after optional whitespace: `open` must come next, or
/// the error `code` is reported there.
pub open spec fn open_step(s: Seq<char>, i: int, open: char, code: ErrorCode) -> Result<
    int,
    SpecError,
> {
    let j = skip_ws(s, i);
    if j < s.len() && s[j] == open {
        Ok(j + 1)
    } else {
        Err(err_at(s, j, code))
    }
}

/// Closes a container after optional whitespace: `close` must come next;
/// the end of the input gives `eof`, another character gives `other`,
/// reported after it.
pub open spec fn close_step(s: Seq<char>, i: int, close: char, eof: ErrorCode, other: ErrorCode) -> Result<
    int,
    SpecError,
> {
    let j = skip_ws(s, i);
    if j >= s.len() {
        Err(err_at(s, j, eof))
    } else if s[j] != close {
        Err(err_after_byte(s, j, other))
    } else {
        Ok(j + 1)
    }
}

/// Whether another array element follows, and where it starts: the end of
/// the array (`]`, left unread) gives `false`; otherwise the first element
/// starts at once and a later one after a `,`.
pub open spec fn array_next_step(s: Seq<char>, i: int, first: bool) -> Result<(bool, int), SpecError> {
    let j = skip_ws(s, i);
    if j < s.len() && s[j] == ']' {
        Ok((false, j))
    } else {
        match next_element(s, j, first) {
            Ok(k) => Ok((true, k)),
            Err(x) => Err(x),
        }
    }
}

/// The key of the next object member, if any, and the index after it: the
/// end of the object (`}`, left unread) gives no key.
pub open spec fn object_key_step(s: Seq<char>, i: int, first: bool) -> Result<
    (Option<Seq<char>>, int),
    SpecError,
> {
    let j = skip_ws(s, i);
    if j < s.len() && s[j] == '}' {
        Ok((None, j))
    } else {
        match next_member(s, j, first) {
            Err(x) => Err(x),
            Ok(k) => if k >= s.len() {
                Err(err_at(s, k, ErrorCode::EofObject))
            } else if s[k] != '"' {
                Err(err_at(s, k, ErrorCode::ExpectedKey))
            } else {
                match string_body(s, k + 1, seq![]) {
                    Ok((key, e)) => Ok((Some(key), e)),
                    Err(x) => Err(x),
                }
            },
        }
    }
}

/// The `:` between an object key and its value.
pub open spec fn colon_step(s: Seq<char>, i: int) -> Result<int, SpecError> {
    close_step(s, i, ':', ErrorCode::EofObject, ErrorCode::ExpectedColon)
}

/// The start of an enum value: its variant name, and whether content
/// follows (the object form, read up to and with the `:`).
pub open spec fn enum_open_step(s: Seq<char>, i: int) -> Result<((Seq<char>, bool), int), SpecError> {
    let j = skip_ws(s, i);
    if !(0 <= i <= s.len()) || j >= s.len() {
        Err(err_at(s, j, ErrorCode::EofValue))
    } else if s[j] == '"' {
        match string_body(s, j + 1, seq![]) {
            Ok((name, e)) => Ok(((name, false), e)),
            Err(x) => Err(x),
        }
    } else if s[j] != '{' {
        Err(err_at(s, j, ErrorCode::ExpectedEnum))
    } else {
        let k = skip_ws(s, j + 1);
        if k >= s.len() {
            Err(err_at(s, k, ErrorCode::EofEnum))
        } else if s[k] != '"' {
            Err(err_at(s, k, ErrorCode::ExpectedVariantName))
        } else {
            match string_body(s, k + 1, seq![]) {
                Err(x) => Err(x),
                Ok((name, m)) => match close_step(
                    s,
                    m,
                    ':',
                    ErrorCode::EofEnum,
                    ErrorCode::ExpectedVariantColon,
                ) {
                    Ok(q) => Ok(((name, true), q)),
                    Err(x) => Err(x),
                },
            }
        }
    }
}

} // verus!
