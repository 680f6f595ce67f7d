//! Writing [`Value`]s as compact JSON text.

use vstd::prelude::*;
use crate::grammar::{parse_document, SpecError};
use crate::laws::lemma_document_roundtrip;
use crate::number::NumberView;
use crate::text::push_char;
use crate::value::{JsonMap, JsonValue, Value};

verus! {

broadcast use {vstd::string::group_string_axioms, JsonMap::lemma_view};

/// The lowercase hexadecimal digit for `d < 16`.
pub open spec fn hex_char(d: nat) -> char {
    if d < 10 {
        crate::text::digit_char(d)
    } else if d == 10 {
        'a'
    } else if d == 11 {
        'b'
    } else if d == 12 {
        'c'
    } else if d == 13 {
        'd'
    } else if d == 14 {
        'e'
    } else {
        'f'
    }
}

/// How one character of a string is written between the quotes: `"` and
/// `\` and the control characters are escaped, everything else is written
/// as is.
pub open spec fn escape_char(c: char) -> Seq<char> {
    if c == '"' {
        seq!['\\', '"']
    } else if c == '\\' {
        seq!['\\', '\\']
    } else if c == '\x08' {
        seq!['\\', 'b']
    } else if c == '\x0c' {
        seq!['\\', 'f']
    } else if c == '\n' {
        seq!['\\', 'n']
    } else if c == '\r' {
        seq!['\\', 'r']
    } else if c == '\t' {
        seq!['\\', 't']
    } else if (c as u32) < 0x20 {
        seq!['\\', 'u', '0', '0', hex_char((c as u32 / 16) as nat), hex_char((c as u32 % 16) as nat)]
    } else {
        seq![c]
    }
}

/// The escaped characters of a string.
pub open spec fn escape_str(s: Seq<char>) -> Seq<char>
    decreases s.len(),
{
    if s.len() == 0 {
        seq![]
    } else {
        escape_str(s.drop_last()) + escape_char(s.last())
    }
}

/// A string written as a JSON string token.
pub open spec fn quote(s: Seq<char>) -> Seq<char> {
    seq!['"'] + escape_str(s) + seq!['"']
}

/// The compact JSON text of a value.
pub open spec fn to_json(v: JsonValue) -> Seq<char>
    decreases v, 0int,
{
    match v {
        JsonValue::Null => seq!['n', 'u', 'l', 'l'],
        JsonValue::Bool(b) => if b {
            seq!['t', 'r', 'u', 'e']
        } else {
            seq!['f', 'a', 'l', 's', 'e']
        },
        JsonValue::Number(n) => n.text(),
        JsonValue::Str(s) => quote(s),
        JsonValue::Array(items) => seq!['['] + join_values(items, items.len() as int) + seq![']'],
        JsonValue::Object(m) => seq!['{'] + join_members(m, m.len() as int) + seq!['}'],
    }
}

/// The first `n` values, written and separated by commas.
pub open spec fn join_values(items: Seq<JsonValue>, n: int) -> Seq<char>
    decreases items, n,
{
    if n <= 0 || n > items.len() {
        seq![]
    } else if n == 1 {
        to_json(items[0])
    } else {
        join_values(items, n - 1) + seq![','] + to_json(items[n - 1])
    }
}

/// The first `n` members, each written as `"key":value`, separated by
/// commas.
pub open spec fn join_members(m: Seq<(Seq<char>, JsonValue)>, n: int) -> Seq<char>
    decreases m, n,
{
    if n <= 0 || n > m.len() {
        seq![]
    } else if n == 1 {
        quote(m[0].0) + seq![':'] + to_json(m[0].1)
    } else {
        join_members(m, n - 1) + seq![','] + quote(m[n - 1].0) + seq![':'] + to_json(m[n - 1].1)
    }
}

pub(crate) fn hex_char_exec(d: u32) -> (c: char)
    requires
        d < 16,
    ensures
        c == hex_char(d as nat),
{
    if d < 10 {
        crate::text::digit_char_exec(d as u64)
    } else if d == 10 {
        'a'
    } else if d == 11 {
        'b'
    } else if d == 12 {
        'c'
    } else if d == 13 {
        'd'
    } else if d == 14 {
        'e'
    } else {
        'f'
    }
}

/// Appends the escaped form of one character.
fn write_escaped_char(c: char, out: &mut String)
    ensures
        final(out)@ == old(out)@ + escape_char(c),
{
    if c == '"' {
        out.append("\\\"");
        proof { reveal_strlit("\\\""); }
    } else if c == '\\' {
        out.append("\\\\");
        proof { reveal_strlit("\\\\"); }
    } else if c == '\x08' {
        out.append("\\b");
        proof { reveal_strlit("\\b"); }
    } else if c == '\x0c' {
        out.append("\\f");
        proof { reveal_strlit("\\f"); }
    } else if c == '\n' {
        out.append("\\n");
        proof { reveal_strlit("\\n"); }
    } else if c == '\r' {
        out.append("\\r");
        proof { reveal_strlit("\\r"); }
    } else if c == '\t' {
        out.append("\\t");
        proof { reveal_strlit("\\t"); }
    } else if (c as u32) < 0x20 {
        let u = c as u32;
        out.append("\\u00");
        proof { reveal_strlit("\\u00"); }
        push_char(out, hex_char_exec(u / 16));
        push_char(out, hex_char_exec(u % 16));
    } else {
        push_char(out, c);
    }
    assert(final(out)@ =~= old(out)@ + escape_char(c));
}

/// Appends `s` as a JSON string token: quoted, with `"`, `\` and control
/// characters escaped.
pub fn write_escaped_string(s: &str, out: &mut String)
    ensures
        final(out)@ == old(out)@ + quote(s@),
{
    let ghost start = out@;
    push_char(out, '"');
    for c in it: s.chars()
        invariant
            it.seq() == s@,
            out@ == start + seq!['"'] + escape_str(s@.take(it.index() as int)),
    {
        let ghost k = it.index() as int;
        write_escaped_char(c, out);
        assert(s@.take(k + 1).drop_last() =~= s@.take(k));
    }
    assert(s@.take(s@.len() as int) =~= s@);
    push_char(out, '"');
    assert(final(out)@ =~= old(out)@ + quote(s@));
}

/// Appends the compact JSON text of `value`.
pub fn write_value(value: &Value, out: &mut String)
    ensures
        final(out)@ == old(out)@ + to_json(value@),
    decreases value,
{
    match value {
        Value::Null => {
            out.append("null");
            proof { reveal_strlit("null"); }
        },
        Value::Bool(b) => {
            if *b {
                out.append("true");
                proof { reveal_strlit("true"); }
            } else {
                out.append("false");
                proof { reveal_strlit("false"); }
            }
        },
        Value::Number(n) => {
            n.write_text(out);
        },
        Value::String(s) => {
            write_escaped_string(s.as_str(), out);
        },
        Value::Array(items) => {
            let ghost start = out@;
            let ghost vs = value@->Array_0;
            push_char(out, '[');
            let mut i: usize = 0;
            while i < items.len()
                invariant
                    *value == Value::Array(*items),
                    vs == value@->Array_0,
                    vs.len() == items@.len(),
                    forall|k: int| 0 <= k < items@.len() ==> #[trigger] vs[k] == items@[k]@,
                    i <= items@.len(),
                    out@ == start + seq!['['] + join_values(vs, i as int),
                decreases items@.len() - i,
            {
                if i > 0 {
                    push_char(out, ',');
                }
                assert(decreases_to!(*value => (*value)->Array_0));
                assert(decreases_to!(*items => items@));
                assert(decreases_to!(items@ => items@[i as int]));
                write_value(&items[i], out);
                i = i + 1;
            }
            push_char(out, ']');
        },
        Value::Object(m) => {
            let ghost start = out@;
            let ghost ms = m@;
            push_char(out, '{');
            let mut i: usize = 0;
            while i < m.entries.len()
                invariant
                    *value == Value::Object(*m),
                    ms == m@,
                    ms.len() == m.entries@.len(),
                    forall|k: int|
                        0 <= k < ms.len() ==> #[trigger] ms[k] == (
                            m.entries@[k].0@,
                            m.entries@[k].1@,
                        ),
                    i <= ms.len(),
                    out@ == start + seq!['{'] + join_members(ms, i as int),
                decreases ms.len() - i,
            {
                if i > 0 {
                    push_char(out, ',');
                }
                write_escaped_string(m.entries[i].0.as_str(), out);
                push_char(out, ':');
                assert(decreases_to!(*value => (*value)->Object_0));
                assert(decreases_to!(*m => m.entries));
                assert(decreases_to!(m.entries => m.entries@));
                assert(decreases_to!(m.entries@ => m.entries@[i as int]));
                assert(decreases_to!(m.entries@[i as int] => m.entries@[i as int].1));
                write_value(&m.entries[i].1, out);
                i = i + 1;
            }
            push_char(out, '}');
        },
    }
}

/// Serializes a [`Value`] to a compact JSON string.
pub fn to_string(value: &Value) -> (r: String)
    ensures
        r@ == to_json(value@),
        value@.wf() ==> parse_document(r@) == Ok::<JsonValue, SpecError>(value@),
{
    proof {
        if value@.wf() {
            lemma_document_roundtrip(value@);
        }
    }
    let mut out = String::new();
    write_value(value, &mut out);
    assert(out@ =~= to_json(value@));
    out
}

} // verus!
