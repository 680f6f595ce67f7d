//! Pluggable control over the whitespace, indentation and escaping of
//! JSON output, through the [`Formatter`] trait. [`CompactFormatter`] and
//! [`PrettyFormatter`] are the built-in implementations.

use vstd::prelude::*;
use crate::ser::hex_char;
use crate::text::push_char;

verus! {

broadcast use vstd::string::group_string_axioms;

/// A single-character escape sequence, passed to
/// [`Formatter::write_char_escape`].
#[derive(Clone, Copy, Debug, PartialEq, Eq)]
pub enum CharEscape {
    /// `"` -> `\"`
    Quote,
    /// `\` -> `\\`
    ReverseSolidus,
    /// U+0008 -> `\b`
    Backspace,
    /// U+000C -> `\f`
    FormFeed,
    /// `\n` -> `\n` (escaped)
    LineFeed,
    /// `\r` -> `\r` (escaped)
    CarriageReturn,
    /// `\t` -> `\t` (escaped)
    Tab,
    /// Any other control character (U+0000..U+001F) -> `\u00XX`
    AsciiControl(u8),
}

/// The text of an escape: a backslash and a letter, or `\u` and four
/// lowercase hexadecimal digits of the byte.
pub open spec fn escape_text(e: CharEscape) -> Seq<char> {
    match e {
        CharEscape::Quote => seq!['\\', '"'],
        CharEscape::ReverseSolidus => seq!['\\', '\\'],
        CharEscape::Backspace => seq!['\\', 'b'],
        CharEscape::FormFeed => seq!['\\', 'f'],
        CharEscape::LineFeed => seq!['\\', 'n'],
        CharEscape::CarriageReturn => seq!['\\', 'r'],
        CharEscape::Tab => seq!['\\', 't'],
        CharEscape::AsciiControl(b) => seq![
            '\\',
            'u',
            '0',
            '0',
            hex_char((b / 16) as nat),
            hex_char((b % 16) as nat),
        ],
    }
}

/// `n` spaces.
pub open spec fn spaces(n: nat) -> Seq<char> {
    Seq::new(n, |i: int| ' ')
}

/// Controls how JSON syntax is rendered around values. All methods have
/// defaults producing compact output; an implementation overrides only
/// what it needs to change.
pub trait Formatter: Sized {
    /// Writes a JSON `null`.
    fn write_null(&mut self, out: &mut String)
        default_ensures
            *final(self) == *old(self),
            final(out)@ == old(out)@ + seq!['n', 'u', 'l', 'l'],
    {
        push_char(out, 'n');
        push_char(out, 'u');
        push_char(out, 'l');
        push_char(out, 'l');
        assert(final(out)@ =~= old(out)@ + seq!['n', 'u', 'l', 'l']);
    }

    /// Writes a JSON `true`/`false`.
    fn write_bool(&mut self, out: &mut String, value: bool)
        default_ensures
            *final(self) == *old(self),
            final(out)@ == old(out)@ + if value {
                seq!['t', 'r', 'u', 'e']
            } else {
                seq!['f', 'a', 'l', 's', 'e']
            },
    {
        if value {
            out.append("true");
            proof {
                reveal_strlit("true");
            }
        } else {
            out.append("false");
            proof {
                reveal_strlit("false");
            }
        }
    }

    /// Writes an already-formatted JSON number token verbatim.
    fn write_number_str(&mut self, out: &mut String, value: &str)
        default_ensures
            *final(self) == *old(self),
            final(out)@ == old(out)@ + value@,
    {
        out.append(value);
    }

    /// Writes the opening `"` of a JSON string.
    fn begin_string(&mut self, out: &mut String)
        default_ensures
            *final(self) == *old(self),
            final(out)@ == old(out)@.push('"'),
    {
        push_char(out, '"');
    }

    /// Writes the closing `"` of a JSON string.
    fn end_string(&mut self, out: &mut String)
        default_ensures
            *final(self) == *old(self),
            final(out)@ == old(out)@.push('"'),
    {
        push_char(out, '"');
    }

    /// Writes a run of string content that needs no escaping.
    fn write_string_fragment(&mut self, out: &mut String, fragment: &str)
        default_ensures
            *final(self) == *old(self),
            final(out)@ == old(out)@ + fragment@,
    {
        out.append(fragment);
    }

    /// Writes one escaped character within a JSON string.
    fn write_char_escape(&mut self, out: &mut String, escape: CharEscape)
        default_ensures
            *final(self) == *old(self),
            final(out)@ == old(out)@ + escape_text(escape),
    {
        write_escape(out, escape);
    }

    /// Writes the opening `[` of a JSON array.
    fn begin_array(&mut self, out: &mut String)
        default_ensures
            *final(self) == *old(self),
            final(out)@ == old(out)@.push('['),
    {
        push_char(out, '[');
    }

    /// Writes the closing `]` of a JSON array. `empty` is `true` if no
    /// elements were written.
    fn end_array(&mut self, out: &mut String, empty: bool)
        default_ensures
            *final(self) == *old(self),
            final(out)@ == old(out)@.push(']'),
    {
        push_char(out, ']');
    }

    /// Writes what comes before an array element: nothing before the
    /// first one, a `,` before a later one.
    fn begin_array_value(&mut self, out: &mut String, first: bool)
        default_ensures
            *final(self) == *old(self),
            final(out)@ == if first {
                old(out)@
            } else {
                old(out)@.push(',')
            },
    {
        if !first {
            push_char(out, ',');
        }
    }

    /// Called after an array element has been written.
    fn end_array_value(&mut self, out: &mut String)
        default_ensures
            *final(self) == *old(self),
            final(out)@ == old(out)@,
    {
    }

    /// Writes the opening `{` of a JSON object.
    fn begin_object(&mut self, out: &mut String)
        default_ensures
            *final(self) == *old(self),
            final(out)@ == old(out)@.push('{'),
    {
        push_char(out, '{');
    }

    /// Writes the closing `}` of a JSON object. `empty` is `true` if no
    /// entries were written.
    fn end_object(&mut self, out: &mut String, empty: bool)
        default_ensures
            *final(self) == *old(self),
            final(out)@ == old(out)@.push('}'),
    {
        push_char(out, '}');
    }

    /// Writes what comes before an object entry: nothing before the first
    /// one, a `,` before a later one.
    fn begin_object_key(&mut self, out: &mut String, first: bool)
        default_ensures
            *final(self) == *old(self),
            final(out)@ == if first {
                old(out)@
            } else {
                old(out)@.push(',')
            },
    {
        if !first {
            push_char(out, ',');
        }
    }

    /// Called after an object key has been written.
    fn end_object_key(&mut self, out: &mut String)
        default_ensures
            *final(self) == *old(self),
            final(out)@ == old(out)@,
    {
    }

    /// Writes the `:` between an object key and its value.
    fn begin_object_value(&mut self, out: &mut String)
        default_ensures
            *final(self) == *old(self),
            final(out)@ == old(out)@.push(':'),
    {
        push_char(out, ':');
    }

    /// Called after an object value has been written.
    fn end_object_value(&mut self, out: &mut String)
        default_ensures
            *final(self) == *old(self),
            final(out)@ == old(out)@,
    {
    }
}

/// Appends the text of an escape.
pub fn write_escape(out: &mut String, escape: CharEscape)
    ensures
        final(out)@ == old(out)@ + escape_text(escape),
{
    push_char(out, '\\');
    match escape {
        CharEscape::Quote => push_char(out, '"'),
        CharEscape::ReverseSolidus => push_char(out, '\\'),
        CharEscape::Backspace => push_char(out, 'b'),
        CharEscape::FormFeed => push_char(out, 'f'),
        CharEscape::LineFeed => push_char(out, 'n'),
        CharEscape::CarriageReturn => push_char(out, 'r'),
        CharEscape::Tab => push_char(out, 't'),
        CharEscape::AsciiControl(b) => {
            push_char(out, 'u');
            push_char(out, '0');
            push_char(out, '0');
            push_char(out, crate::ser::hex_char_exec((b / 16) as u32));
            push_char(out, crate::ser::hex_char_exec((b % 16) as u32));
        },
    }
    assert(final(out)@ =~= old(out)@ + escape_text(escape));
}

/// The default [`Formatter`]: no extra whitespace.
#[derive(Clone, Copy, Debug, Default)]
pub struct CompactFormatter;

impl Formatter for CompactFormatter {

}

/// A [`Formatter`] that puts each array element and object entry on a
/// line of its own, indented by `indent_width` spaces per nesting level.
/// Empty arrays and objects stay inline (`[]`, `{}`).
#[derive(Clone, Debug)]
pub struct PrettyFormatter {
    indent_width: usize,
    current_indent: usize,
}

impl PrettyFormatter {
    /// The spaces per nesting level.
    pub closed spec fn width(&self) -> nat {
        self.indent_width as nat
    }

    /// The current nesting level.
    pub closed spec fn level(&self) -> nat {
        self.current_indent as nat
    }

    /// The nesting level after opening an array or object: one more, or
    /// zero after the largest `usize`.
    pub open spec fn level_up(n: nat) -> nat {
        if n == usize::MAX {
            0
        } else {
            n + 1
        }
    }

    /// The nesting level after closing an array or object: one less, or
    /// the largest `usize` below zero.
    pub open spec fn level_down(n: nat) -> nat {
        if n == 0 {
            usize::MAX as nat
        } else {
            (n - 1) as nat
        }
    }

    /// Closing an array or object returns to the nesting level that was
    /// current before it was opened.
    pub proof fn lemma_close_undoes_open(&self)
        ensures
            PrettyFormatter::level_down(PrettyFormatter::level_up(self.level())) == self.level(),
    {
    }

    /// Two-space indentation.
    pub fn new() -> (r: PrettyFormatter)
        ensures
            r.width() == 2,
            r.level() == 0,
    {
        Self::with_indent_width(2)
    }

    /// Indents `width` spaces per nesting level.
    pub fn with_indent_width(width: usize) -> (r: PrettyFormatter)
        ensures
            r.width() == width,
            r.level() == 0,
    {
        PrettyFormatter { indent_width: width, current_indent: 0 }
    }

    /// Appends the indentation of the current nesting level.
    fn push_indent(&self, out: &mut String)
        ensures
            final(out)@ == old(out)@ + spaces(self.level() * self.width()),
    {
        let ghost start = out@;
        let mut i: usize = 0;
        while i < self.current_indent
            invariant
                i <= self.current_indent,
                out@ == start + spaces((i * self.indent_width) as nat),
            decreases self.current_indent - i,
        {
            let mut j: usize = 0;
            while j < self.indent_width
                invariant
                    i < self.current_indent,
                    j <= self.indent_width,
                    out@ == start + spaces((i * self.indent_width + j) as nat),
                decreases self.indent_width - j,
            {
                push_char(out, ' ');
                j = j + 1;
                assert(out@ =~= start + spaces((i * self.indent_width + j) as nat));
            }
            assert((i + 1) * self.indent_width == i * self.indent_width + self.indent_width)
                by (nonlinear_arith);
            i = i + 1;
        }
    }
}

impl Default for PrettyFormatter {
    fn default() -> (r: PrettyFormatter)
        ensures
            r.width() == 2,
            r.level() == 0,
    {
        Self::new()
    }
}

impl Formatter for PrettyFormatter {
    fn begin_array(&mut self, out: &mut String)
        ensures
            final(out)@ == old(out)@.push('['),
            final(self).level() == PrettyFormatter::level_up(old(self).level()),
            final(self).width() == old(self).width(),
    {
        self.current_indent = self.current_indent.wrapping_add(1);
        push_char(out, '[');
    }

    fn end_array(&mut self, out: &mut String, empty: bool)
        ensures
            final(self).level() == PrettyFormatter::level_down(old(self).level()),
            final(self).width() == old(self).width(),
            final(out)@ == if empty {
                old(out)@.push(']')
            } else {
                old(out)@.push('\n') + spaces(final(self).level() * final(self).width()) + seq![
                    ']',
                ]
            },
    {
        self.current_indent = self.current_indent.wrapping_sub(1);
        if !empty {
            push_char(out, '\n');
            self.push_indent(out);
        }
        push_char(out, ']');
        assert(final(out)@ =~= (if empty {
            old(out)@.push(']')
        } else {
            old(out)@.push('\n') + spaces(final(self).level() * final(self).width()) + seq![']']
        }));
    }

    fn begin_array_value(&mut self, out: &mut String, first: bool)
        ensures
            *final(self) == *old(self),
            final(out)@ == (if first {
                old(out)@
            } else {
                old(out)@.push(',')
            }).push('\n') + spaces(old(self).level() * old(self).width()),
    {
        if !first {
            push_char(out, ',');
        }
        push_char(out, '\n');
        self.push_indent(out);
    }

    fn begin_object(&mut self, out: &mut String)
        ensures
            final(out)@ == old(out)@.push('{'),
            final(self).level() == PrettyFormatter::level_up(old(self).level()),
            final(self).width() == old(self).width(),
    {
        self.current_indent = self.current_indent.wrapping_add(1);
        push_char(out, '{');
    }

    fn end_object(&mut self, out: &mut String, empty: bool)
        ensures
            final(self).level() == PrettyFormatter::level_down(old(self).level()),
            final(self).width() == old(self).width(),
            final(out)@ == if empty {
                old(out)@.push('}')
            } else {
                old(out)@.push('\n') + spaces(final(self).level() * final(self).width()) + seq![
                    '}',
                ]
            },
    {
        self.current_indent = self.current_indent.wrapping_sub(1);
        if !empty {
            push_char(out, '\n');
            self.push_indent(out);
        }
        push_char(out, '}');
        assert(final(out)@ =~= (if empty {
            old(out)@.push('}')
        } else {
            old(out)@.push('\n') + spaces(final(self).level() * final(self).width()) + seq!['}']
        }));
    }

    fn begin_object_key(&mut self, out: &mut String, first: bool)
        ensures
            *final(self) == *old(self),
            final(out)@ == (if first {
                old(out)@
            } else {
                old(out)@.push(',')
            }).push('\n') + spaces(old(self).level() * old(self).width()),
    {
        if !first {
            push_char(out, ',');
        }
        push_char(out, '\n');
        self.push_indent(out);
    }

    fn begin_object_value(&mut self, out: &mut String)
        ensures
            *final(self) == *old(self),
            final(out)@ == old(out)@ + seq![':', ' '],
    {
        push_char(out, ':');
        push_char(out, ' ');
        assert(final(out)@ =~= old(out)@ + seq![':', ' ']);
    }
}

} // verus!
