//! Errors produced while parsing JSON, with the 1-based line and column at
//! which the problem was found.

use vstd::prelude::*;
use crate::text::{decimal, push_char, write_decimal};

verus! {

/// One of the three JSON literal words.
#[derive(Clone, Copy, Debug, PartialEq, Eq)]
pub enum Literal {
    Null,
    True,
    False,
}

/// What went wrong, as a code; each code has a fixed message.
#[derive(Clone, Copy, Debug, PartialEq, Eq)]
pub enum ErrorCode {
    /// The input ended where a value was expected.
    EofValue,
    /// The input ended inside an array.
    EofArray,
    /// The input ended inside an object.
    EofObject,
    /// The input ended inside a string.
    EofString,
    /// A literal word was misspelled or cut short.
    InvalidLiteral(Literal),
    /// A value started with a character that starts no value; the byte is
    /// the first byte of that character's UTF-8 encoding.
    UnexpectedChar(u8),
    /// Something other than `,` or `]` followed an array element.
    ExpectedArraySep,
    /// Something other than `,` or `}` followed an object member.
    ExpectedObjectSep,
    /// An object member did not start with a string key.
    ExpectedKey,
    /// An object key was not followed by `:`.
    ExpectedColon,
    /// More than whitespace followed a complete value.
    TrailingCharacters,
    /// A number did not follow the JSON number grammar.
    InvalidNumber,
    /// A backslash in a string was followed by a character that starts no
    /// escape.
    InvalidEscape,
    /// A `\u` escape had bad hex digits or an unpaired surrogate.
    InvalidUnicodeEscape,
    /// A string held an unescaped control character.
    ControlCharacter,
    /// The input bytes were not valid UTF-8.
    InvalidUtf8,
    /// The input ended inside an enum value.
    EofEnum,
    /// An enum value was neither a string nor an object.
    ExpectedEnum,
    /// An enum object did not start with a string naming the variant.
    ExpectedVariantName,
    /// A variant name was not followed by `:`.
    ExpectedVariantColon,
    /// Something other than `}` followed the content of an enum object.
    ExpectedEnumClose,
    /// A sequence was read where no array starts.
    ExpectedArray,
    /// A map or struct was read where no object starts.
    ExpectedObject,
    /// A tuple variant's content is not an array.
    ExpectedTupleVariant,
    /// A struct variant's content is not an object.
    ExpectedStructVariant,
}

impl Literal {
    pub open spec fn word(self) -> Seq<char> {
        match self {
            Literal::Null => seq!['n', 'u', 'l', 'l'],
            Literal::True => seq!['t', 'r', 'u', 'e'],
            Literal::False => seq!['f', 'a', 'l', 's', 'e'],
        }
    }

    pub open spec fn quoted_word(self) -> Seq<char> {
        match self {
            Literal::Null => "`null`"@,
            Literal::True => "`true`"@,
            Literal::False => "`false`"@,
        }
    }
}

impl ErrorCode {
    /// The human-readable message of the code.
    pub open spec fn message(self) -> Seq<char> {
        match self {
            ErrorCode::EofValue => "unexpected end of input"@,
            ErrorCode::EofArray => "unexpected end of input in array"@,
            ErrorCode::EofObject => "unexpected end of input in object"@,
            ErrorCode::EofString => "unexpected end of input in string"@,
            ErrorCode::InvalidLiteral(l) => "invalid literal, expected "@ + l.quoted_word(),
            ErrorCode::UnexpectedChar(b) => "unexpected character `"@ + seq![b as char] + "`"@,
            ErrorCode::ExpectedArraySep => "expected `,` or `]` in array"@,
            ErrorCode::ExpectedObjectSep => "expected `,` or `}` in object"@,
            ErrorCode::ExpectedKey => "expected string key in object"@,
            ErrorCode::ExpectedColon => "expected `:` after object key"@,
            ErrorCode::TrailingCharacters => "trailing characters after JSON value"@,
            ErrorCode::InvalidNumber => "invalid number"@,
            ErrorCode::InvalidEscape => "invalid escape in string"@,
            ErrorCode::InvalidUnicodeEscape => "invalid unicode escape in string"@,
            ErrorCode::ControlCharacter => "control character in string"@,
            ErrorCode::InvalidUtf8 => "input is not valid utf-8"@,
            ErrorCode::EofEnum => "unexpected end of input in enum"@,
            ErrorCode::ExpectedEnum => "expected string or object for enum"@,
            ErrorCode::ExpectedVariantName => "expected variant name string"@,
            ErrorCode::ExpectedVariantColon => "expected `:` after variant name"@,
            ErrorCode::ExpectedEnumClose => "expected `}` after enum value"@,
            ErrorCode::ExpectedArray => "expected array"@,
            ErrorCode::ExpectedObject => "expected object"@,
            ErrorCode::ExpectedTupleVariant => "expected array for tuple variant"@,
            ErrorCode::ExpectedStructVariant => "expected object for struct variant"@,
        }
    }

    /// Builds the message of the code.
    pub fn to_message(self) -> (r: String)
        ensures
            r@ == self.message(),
    {
        match self {
            ErrorCode::EofValue => String::from_str("unexpected end of input"),
            ErrorCode::EofArray => String::from_str("unexpected end of input in array"),
            ErrorCode::EofObject => String::from_str("unexpected end of input in object"),
            ErrorCode::EofString => String::from_str("unexpected end of input in string"),
            ErrorCode::InvalidLiteral(l) => {
                let mut s = String::from_str("invalid literal, expected ");
                match l {
                    Literal::Null => s.append("`null`"),
                    Literal::True => s.append("`true`"),
                    Literal::False => s.append("`false`"),
                }
                s
            },
            ErrorCode::UnexpectedChar(b) => {
                let mut s = String::from_str("unexpected character `");
                push_char(&mut s, b as char);
                s.append("`");
                s
            },
            ErrorCode::ExpectedArraySep => String::from_str("expected `,` or `]` in array"),
            ErrorCode::ExpectedObjectSep => String::from_str("expected `,` or `}` in object"),
            ErrorCode::ExpectedKey => String::from_str("expected string key in object"),
            ErrorCode::ExpectedColon => String::from_str("expected `:` after object key"),
            ErrorCode::TrailingCharacters => String::from_str(
                "trailing characters after JSON value",
            ),
            ErrorCode::InvalidNumber => String::from_str("invalid number"),
            ErrorCode::InvalidEscape => String::from_str("invalid escape in string"),
            ErrorCode::InvalidUnicodeEscape => String::from_str("invalid unicode escape in string"),
            ErrorCode::ControlCharacter => String::from_str("control character in string"),
            ErrorCode::InvalidUtf8 => String::from_str("input is not valid utf-8"),
            ErrorCode::EofEnum => String::from_str("unexpected end of input in enum"),
            ErrorCode::ExpectedEnum => String::from_str("expected string or object for enum"),
            ErrorCode::ExpectedVariantName => String::from_str("expected variant name string"),
            ErrorCode::ExpectedVariantColon => String::from_str("expected `:` after variant name"),
            ErrorCode::ExpectedEnumClose => String::from_str("expected `}` after enum value"),
            ErrorCode::ExpectedArray => String::from_str("expected array"),
            ErrorCode::ExpectedObject => String::from_str("expected object"),
            ErrorCode::ExpectedTupleVariant => String::from_str("expected array for tuple variant"),
            ErrorCode::ExpectedStructVariant => String::from_str(
                "expected object for struct variant",
            ),
        }
    }
}

/// An error produced while parsing JSON, carrying the 1-based line/column
/// at which the problem was found.
#[derive(Clone, Debug, PartialEq, Eq)]
pub struct Error {
    msg: String,
    line: usize,
    column: usize,
}

impl View for Error {
    type V = (Seq<char>, usize, usize);

    closed spec fn view(&self) -> (Seq<char>, usize, usize) {
        (self.msg@, self.line, self.column)
    }
}

/// The text of an error: its message followed by its position.
pub open spec fn error_text(msg: Seq<char>, line: nat, column: nat) -> Seq<char> {
    msg + " at line "@ + decimal(line) + " column "@ + decimal(column)
}

impl Error {
    /// An error with the given message and position.
    pub fn new(msg: &str, line: usize, column: usize) -> (r: Error)
        ensures
            r@ == (msg@, line, column),
    {
        Error { msg: String::from_str(msg), line, column }
    }

    /// An error with the message of `code`.
    pub fn from_code(code: ErrorCode, line: usize, column: usize) -> (r: Error)
        ensures
            r@ == (code.message(), line, column),
    {
        Error { msg: code.to_message(), line, column }
    }

    /// The 1-based line at which the error occurred.
    pub fn line(&self) -> (r: usize)
        ensures
            r == self@.1,
    {
        self.line
    }

    /// The 1-based column at which the error occurred.
    pub fn column(&self) -> (r: usize)
        ensures
            r == self@.2,
    {
        self.column
    }

    /// A human-readable description of the error, without position info.
    pub fn message(&self) -> (r: &str)
        ensures
            r@ == self@.0,
    {
        self.msg.as_str()
    }

    /// The message followed by `at line L column C`.
    pub fn to_string(&self) -> (r: String)
        ensures
            r@ == error_text(self@.0, self@.1 as nat, self@.2 as nat),
    {
        let mut s = self.msg.clone();
        s.append(" at line ");
        write_decimal(self.line as u64, &mut s);
        s.append(" column ");
        write_decimal(self.column as u64, &mut s);
        s
    }
}

} // verus!
