//! Properties that tie the library's functions together: what reading the
//! text of a value gives back, and what the map operations do to lookups.

use vstd::prelude::*;
use crate::error::{ErrorCode, Literal};
use crate::grammar::{
    hex_digit, hex_run, is_ws, lemma_skip_ws, parse_escape, parse_literal, simple_escape,
    skip_ws, string_body,
};
use crate::ser::{escape_char, escape_str, hex_char, join_members, join_values, quote, to_json};
use crate::grammar::{next_element, next_member, parse_document, parse_items, parse_members, parse_value};
use crate::map::{lemma_insert_at, lemma_map_insert_sorted, map_insert};
use crate::value::{keys_sorted, JsonValue};
use crate::number::{has_frac_or_exp, number_of_lexeme, scan_number, skip_digits, NumberView};
use crate::grammar::parse_number;
use crate::de::{document_of_bytes, is_ws_byte, lemma_skip_ws_bytes, skip_ws_bytes, stream_step};
use crate::parser::err_view;
use vstd::utf8::{encode_scalar, encode_utf8};
use crate::text::{lemma_bytes_before, lemma_encode_utf8_push, decimal, digit_char, digits_value, is_digit, lemma_decimal_props, lemma_digit_char};

verus! {

/// `t` occurs in `s` at position `i`.
pub open spec fn text_at(s: Seq<char>, i: int, t: Seq<char>) -> bool {
    0 <= i && i + t.len() <= s.len() && s.subrange(i, i + t.len()) == t
}

proof fn lemma_text_at_split(s: Seq<char>, i: int, a: Seq<char>, b: Seq<char>)
    requires
        text_at(s, i, a + b),
    ensures
        text_at(s, i, a),
        text_at(s, i + a.len(), b),
{
    assert(s.subrange(i, i + a.len()) =~= (a + b).subrange(0, a.len() as int));
    assert(s.subrange(i + a.len(), i + a.len() + b.len()) =~= (a + b).subrange(
        a.len() as int,
        (a + b).len() as int,
    ));
    assert((a + b).subrange(0, a.len() as int) =~= a);
    assert((a + b).subrange(a.len() as int, (a + b).len() as int) =~= b);
}

proof fn lemma_text_at_index(s: Seq<char>, i: int, t: Seq<char>, j: int)
    requires
        text_at(s, i, t),
        0 <= j < t.len(),
    ensures
        s[i + j] == t[j],
{
    assert(s.subrange(i, i + t.len())[j] == s[i + j]);
}

proof fn lemma_escape_str_cons(c: char, y: Seq<char>)
    ensures
        escape_str(seq![c] + y) == escape_char(c) + escape_str(y),
    decreases y.len(),
{
    if y.len() == 0 {
        assert((seq![c] + y).drop_last() =~= Seq::<char>::empty());
        assert(seq![c] + y =~= seq![c]);
        assert(escape_str(Seq::<char>::empty()) =~= Seq::<char>::empty());
        assert(escape_str(seq![c]) =~= escape_char(c));
    } else {
        lemma_escape_str_cons(c, y.drop_last());
        assert((seq![c] + y).drop_last() =~= seq![c] + y.drop_last());
        assert((seq![c] + y).last() == y.last());
        assert(escape_str(seq![c] + y) =~= escape_char(c) + escape_str(y));
    }
}

proof fn lemma_hex_char(d: nat)
    requires
        d < 16,
    ensures
        hex_digit(hex_char(d)) == Some(d as u32),
{
    if d < 10 {
        lemma_digit_char(d);
        assert(('0' as u32) == 48);
        assert(('9' as u32) == 57);
    } else {
        assert(('a' as u32) == 97);
        assert(('f' as u32) == 102);
        assert(('A' as u32) == 65);
        assert(('F' as u32) == 70);
        assert(('0' as u32) == 48);
        assert(('9' as u32) == 57);
    }
}

proof fn lemma_escape_control_roundtrip(s: Seq<char>, p: int, c: char)
    requires
        text_at(s, p, escape_char(c)),
        !(c == '"' || c == '\\' || c == '\x08' || c == '\x0c' || c == '\n' || c == '\r' || c
            == '\t'),
        (c as u32) < 0x20,
    ensures
        parse_escape(s, p) == Ok::<(char, int), crate::grammar::SpecError>((c, p + 6)),
{
    let u = c as u32;
    let e = escape_char(c);
    assert(e.len() == 6);
    lemma_text_at_index(s, p, e, 1);
    lemma_text_at_index(s, p, e, 2);
    lemma_text_at_index(s, p, e, 3);
    lemma_text_at_index(s, p, e, 4);
    lemma_text_at_index(s, p, e, 5);
    lemma_hex_char((u / 16) as nat);
    lemma_hex_char((u % 16) as nat);
    assert(hex_digit('0') == Some(0u32));
    assert(s[p + 1] == 'u');
    assert(s[p + 2] == '0' && s[p + 3] == '0');
    reveal_with_fuel(hex_run, 5);
    assert((u / 16) * 16 + u % 16 == u);
    assert(hex_run(s, p + 2, 4, 0) == Ok::<int, int>(u as int));
    vstd::utf8::char_u32_cast(c, u);
}

/// Reading the escaped form of `c` at `p` gives `c` back.
proof fn lemma_escape_char_roundtrip(s: Seq<char>, p: int, c: char)
    requires
        text_at(s, p, escape_char(c)),
    ensures
        escape_char(c).len() >= 1,
        s[p] == '\\' ==> parse_escape(s, p) == Ok::<(char, int), crate::grammar::SpecError>(
            (c, p + escape_char(c).len()),
        ),
        s[p] != '\\' ==> s[p] == c && c != '"' && c != '\\' && (c as u32) >= 0x20,
{
    lemma_text_at_index(s, p, escape_char(c), 0);
    if c == '"' || c == '\\' || c == '\x08' || c == '\x0c' || c == '\n' || c == '\r' || c == '\t' {
        lemma_text_at_index(s, p, escape_char(c), 1);
    } else if (c as u32) < 0x20 {
        lemma_escape_control_roundtrip(s, p, c);
    }
}

/// Reading the escaped characters of `y` followed by a closing quote at
/// `p`, after characters `acc`, gives `acc + y`.
proof fn lemma_string_body_roundtrip(s: Seq<char>, p: int, acc: Seq<char>, y: Seq<char>)
    requires
        text_at(s, p, escape_str(y) + seq!['"']),
    ensures
        string_body(s, p, acc) == Ok::<(Seq<char>, int), crate::grammar::SpecError>(
            (acc + y, p + escape_str(y).len() + 1),
        ),
    decreases y.len(),
{
    lemma_text_at_split(s, p, escape_str(y), seq!['"']);
    if y.len() == 0 {
        assert(escape_str(y) =~= Seq::<char>::empty());
        lemma_text_at_index(s, p, seq!['"'], 0);
        assert(acc + y =~= acc);
    } else {
        let c = y[0];
        let rest = y.drop_first();
        assert(y =~= seq![c] + rest);
        lemma_escape_str_cons(c, rest);
        assert(escape_str(y) + seq!['"'] =~= escape_char(c) + (escape_str(rest) + seq!['"']));
        lemma_text_at_split(s, p, escape_char(c), escape_str(rest) + seq!['"']);
        lemma_escape_char_roundtrip(s, p, c);
        lemma_string_body_roundtrip(s, p + escape_char(c).len(), acc.push(c), rest);
        assert(acc.push(c) + rest =~= acc + y);
    }
}

/// Position `e` ends a value: the text ends there, or whitespace, a `,`,
/// `]` or `}` follows.
pub open spec fn delimited(s: Seq<char>, e: int) -> bool {
    e == s.len() || (0 <= e < s.len() && (s[e] == ',' || s[e] == ']' || s[e] == '}' || is_ws(
        s[e],
    )))
}

proof fn lemma_text_at_all(s: Seq<char>, i: int, t: Seq<char>)
    requires
        text_at(s, i, t),
    ensures
        forall|k: int| 0 <= k < t.len() ==> s[i + k] == #[trigger] t[k],
{
    assert forall|k: int| 0 <= k < t.len() implies s[i + k] == #[trigger] t[k] by {
        lemma_text_at_index(s, i, t, k);
    }
}

proof fn lemma_skip_digits_shift(s: Seq<char>, i: int, t: Seq<char>, j: int)
    requires
        text_at(s, i, t),
        0 <= j <= t.len(),
        delimited(s, i + t.len()),
    ensures
        skip_digits(s, i + j) == i + skip_digits(t, j),
    decreases t.len() - j,
{
    if j < t.len() {
        lemma_text_at_index(s, i, t, j);
        if is_digit(t[j]) {
            lemma_skip_digits_shift(s, i, t, j + 1);
        }
    }
}

/// Scanning a number inside a larger text gives what scanning it alone
/// gives.
proof fn lemma_scan_number_shift(s: Seq<char>, i: int, t: Seq<char>)
    requires
        text_at(s, i, t),
        scan_number(t, 0) == Ok::<int, int>(t.len() as int),
        delimited(s, i + t.len()),
    ensures
        scan_number(s, i) == Ok::<int, int>(i + t.len()),
{
    lemma_text_at_all(s, i, t);
    assert forall|j: int| 0 <= j <= t.len() implies #[trigger] skip_digits(s, i + j) == i
        + skip_digits(t, j) by {
        lemma_skip_digits_shift(s, i, t, j);
    }
    let p0t = if 0 < t.len() && t[0] == '-' { 1int } else { 0int };
    assert(p0t < t.len());
    crate::parser::lemma_skip_digits(t, p0t);
    let p1t = if t[p0t] == '0' { p0t + 1 } else { skip_digits(t, p0t) };
    assert(p1t <= t.len());
    if p1t < t.len() && t[p1t] == '.' {
        crate::parser::lemma_skip_digits(t, p1t + 1);
    }
    let p2t = if p1t < t.len() && t[p1t] == '.' { skip_digits(t, p1t + 1) } else { p1t };
    assert(p2t <= t.len());
    if p2t < t.len() && (t[p2t] == 'e' || t[p2t] == 'E') {
        let qt = if p2t + 1 < t.len() && (t[p2t + 1] == '+' || t[p2t + 1] == '-') {
            p2t + 2
        } else {
            p2t + 1
        };
        assert(qt < t.len());
        crate::parser::lemma_skip_digits(t, qt);
    }
}

proof fn lemma_all_digits_skip(t: Seq<char>, j: int)
    requires
        0 <= j <= t.len(),
        forall|k: int| 0 <= k < t.len() ==> is_digit(#[trigger] t[k]),
    ensures
        skip_digits(t, j) == t.len(),
    decreases t.len() - j,
{
    if j < t.len() {
        lemma_all_digits_skip(t, j + 1);
    }
}

proof fn lemma_decimal_scan(m: nat)
    ensures
        scan_number(decimal(m), 0) == Ok::<int, int>(decimal(m).len() as int),
        scan_number(seq!['-'] + decimal(m), 0) == Ok::<int, int>(decimal(m).len() as int + 1),
        !has_frac_or_exp(decimal(m)),
        !has_frac_or_exp(seq!['-'] + decimal(m)),
        decimal(m)[0] != '-',
        is_digit(decimal(m)[0]),
{
    let d = decimal(m);
    lemma_decimal_props(m);
    lemma_all_digits_skip(d, 0);
    let t = seq!['-'] + d;
    assert forall|k: int| 1 <= k < t.len() implies is_digit(#[trigger] t[k]) by {
        assert(t[k] == d[k - 1]);
    }
    lemma_all_digits_skip_from(t, 1);
    if d[0] == '0' {
        assert(d.len() == 1);
    }
}

proof fn lemma_all_digits_skip_from(t: Seq<char>, j: int)
    requires
        1 <= j <= t.len(),
        forall|k: int| 1 <= k < t.len() ==> is_digit(#[trigger] t[k]),
    ensures
        skip_digits(t, j) == t.len(),
    decreases t.len() - j,
{
    if j < t.len() {
        lemma_all_digits_skip_from(t, j + 1);
    }
}

/// Reading the text of a well-formed number gives the number back.
proof fn lemma_number_roundtrip(s: Seq<char>, i: int, n: NumberView)
    requires
        n.wf(),
        text_at(s, i, n.text()),
        delimited(s, i + n.text().len()),
    ensures
        parse_number(s, i) == Ok::<(NumberView, int), crate::grammar::SpecError>(
            (n, i + n.text().len()),
        ),
{
    let t = n.text();
    match n {
        NumberView::PosInt(m) => {
            lemma_decimal_scan(m as nat);
            lemma_decimal_props(m as nat);
        },
        NumberView::NegInt(m) => {
            lemma_decimal_scan((-m) as nat);
            lemma_decimal_props((-m) as nat);
            assert(t.drop_first() =~= decimal((-m) as nat));
        },
        NumberView::Float(x) => {},
    }
    lemma_scan_number_shift(s, i, t);
    assert(s.subrange(i, i + t.len()) == t);
}

/// A character that can start the text of a value.
pub open spec fn starts_value(c: char) -> bool {
    c == 'n' || c == 't' || c == 'f' || c == '"' || c == '[' || c == '{' || c == '-' || is_digit(c)
}

proof fn lemma_to_json_first(v: JsonValue)
    requires
        v.wf(),
    ensures
        to_json(v).len() >= 1,
        starts_value(to_json(v)[0]),
{
    match v {
        JsonValue::Number(n) => match n {
            NumberView::PosInt(m) => {
                lemma_decimal_scan(m as nat);
                lemma_decimal_props(m as nat);
            },
            NumberView::NegInt(m) => {},
            NumberView::Float(t) => {
                let p0 = if 0 < t.len() && t[0] == '-' { 1int } else { 0int };
                assert(p0 < t.len() && is_digit(t[p0]));
            },
        },
        _ => {},
    }
}

proof fn lemma_literal_roundtrip(s: Seq<char>, i: int, lit: Literal, k: int)
    requires
        text_at(s, i, lit.word()),
        0 <= k <= lit.word().len(),
    ensures
        parse_literal(s, i, lit, k) == Ok::<int, crate::grammar::SpecError>(
            i + lit.word().len(),
        ),
    decreases lit.word().len() - k,
{
    if k < lit.word().len() {
        lemma_text_at_index(s, i, lit.word(), k);
        lemma_literal_roundtrip(s, i, lit, k + 1);
    }
}

/// The separator written before the `k`-th element.
pub open spec fn sep(k: int) -> Seq<char> {
    if k > 0 {
        seq![',']
    } else {
        seq![]
    }
}

proof fn lemma_join_values_step(items: Seq<JsonValue>, k: int)
    requires
        0 <= k < items.len(),
    ensures
        join_values(items, k + 1) == join_values(items, k) + sep(k) + to_json(items[k]),
{
    if k == 0 {
        assert(join_values(items, 0) =~= Seq::<char>::empty());
        assert(join_values(items, 1) =~= join_values(items, 0) + sep(0) + to_json(items[0]));
    }
}

proof fn lemma_join_values_prefix(items: Seq<JsonValue>, k: int, n: int)
    requires
        0 <= k <= n <= items.len(),
    ensures
        join_values(items, k).len() <= join_values(items, n).len(),
        join_values(items, n).subrange(0, join_values(items, k).len() as int) == join_values(
            items,
            k,
        ),
    decreases n - k,
{
    if k < n {
        lemma_join_values_prefix(items, k, n - 1);
        lemma_join_values_step(items, n - 1);
        let a = join_values(items, k);
        let b = join_values(items, n - 1);
        let c = join_values(items, n);
        assert(c.subrange(0, a.len() as int) =~= b.subrange(0, a.len() as int));
    } else {
        assert(join_values(items, n).subrange(0, join_values(items, n).len() as int)
            =~= join_values(items, n));
    }
}

proof fn lemma_join_members_step(m: Seq<(Seq<char>, JsonValue)>, k: int)
    requires
        0 <= k < m.len(),
    ensures
        join_members(m, k + 1) == join_members(m, k) + sep(k) + (quote(m[k].0) + seq![':']
            + to_json(m[k].1)),
{
    if k == 0 {
        assert(join_members(m, 0) =~= Seq::<char>::empty());
        assert(join_members(m, 1) =~= join_members(m, 0) + sep(0) + (quote(m[0].0) + seq![':']
            + to_json(m[0].1)));
    } else {
        assert(join_members(m, k + 1) =~= join_members(m, k) + sep(k) + (quote(m[k].0) + seq![
            ':',
        ] + to_json(m[k].1)));
    }
}

proof fn lemma_join_members_prefix(m: Seq<(Seq<char>, JsonValue)>, k: int, n: int)
    requires
        0 <= k <= n <= m.len(),
    ensures
        join_members(m, k).len() <= join_members(m, n).len(),
        join_members(m, n).subrange(0, join_members(m, k).len() as int) == join_members(m, k),
    decreases n - k,
{
    if k < n {
        lemma_join_members_prefix(m, k, n - 1);
        lemma_join_members_step(m, n - 1);
        let a = join_members(m, k);
        let b = join_members(m, n - 1);
        let c = join_members(m, n);
        assert(c.subrange(0, a.len() as int) =~= b.subrange(0, a.len() as int));
    } else {
        assert(join_members(m, n).subrange(0, join_members(m, n).len() as int) =~= join_members(
            m,
            n,
        ));
    }
}

proof fn lemma_text_at_prefix(s: Seq<char>, i: int, t: Seq<char>, len: int)
    requires
        text_at(s, i, t),
        0 <= len <= t.len(),
    ensures
        text_at(s, i, t.subrange(0, len)),
{
    assert(s.subrange(i, i + len) =~= t.subrange(0, len));
}

/// Reading the text of a well-formed value gives the value back, and the
/// position just past the text.
pub proof fn lemma_value_roundtrip(s: Seq<char>, i: int, v: JsonValue)
    requires
        v.wf(),
        text_at(s, i, to_json(v)),
        delimited(s, i + to_json(v).len()),
    ensures
        parse_value(s, i) == Ok::<(JsonValue, int), crate::grammar::SpecError>(
            (v, i + to_json(v).len()),
        ),
    decreases v, 0int,
{
    lemma_to_json_first(v);
    lemma_text_at_index(s, i, to_json(v), 0);
    assert(skip_ws(s, i) == i);
    let t = to_json(v);
    match v {
        JsonValue::Null => {
            lemma_literal_roundtrip(s, i, Literal::Null, 0);
        },
        JsonValue::Bool(b) => {
            if b {
                lemma_literal_roundtrip(s, i, Literal::True, 0);
            } else {
                lemma_literal_roundtrip(s, i, Literal::False, 0);
            }
        },
        JsonValue::Number(n) => {
            lemma_number_roundtrip(s, i, n);
        },
        JsonValue::Str(x) => {
            assert(t =~= seq!['"'] + (escape_str(x) + seq!['"']));
            lemma_text_at_split(s, i, seq!['"'], escape_str(x) + seq!['"']);
            lemma_string_body_roundtrip(s, i + 1, seq![], x);
            assert(seq![] + x =~= x);
        },
        JsonValue::Array(items) => {
            lemma_items_roundtrip(s, i, items, 0);
            assert(items.take(0) =~= seq![]);
        },
        JsonValue::Object(m) => {
            lemma_members_roundtrip(s, i, m, 0);
            assert(m.take(0) =~= seq![]);
        },
    }
}

proof fn lemma_items_roundtrip(s: Seq<char>, i: int, items: Seq<JsonValue>, k: int)
    requires
        JsonValue::Array(items).wf(),
        text_at(s, i, to_json(JsonValue::Array(items))),
        0 <= k <= items.len(),
    ensures
        parse_items(s, i + 1 + join_values(items, k).len(), k == 0, items.take(k)) == Ok::<
            (JsonValue, int),
            crate::grammar::SpecError,
        >((JsonValue::Array(items), i + to_json(JsonValue::Array(items)).len())),
    decreases items, items.len() - k,
{
    let n = items.len() as int;
    let jn = join_values(items, n);
    let base = i + 1;
    let pos = base + join_values(items, k).len();
    assert(to_json(JsonValue::Array(items)) =~= seq!['['] + (jn + seq![']']));
    lemma_text_at_split(s, i, seq!['['], jn + seq![']']);
    lemma_text_at_split(s, base, jn, seq![']']);
    lemma_text_at_index(s, base + jn.len(), seq![']'], 0);
    lemma_join_values_prefix(items, k, n);
    if k == n {
        assert(items.take(n) =~= items);
        assert(skip_ws(s, pos) == pos);
    } else {
        let jk = join_values(items, k);
        let jk1 = join_values(items, k + 1);
        lemma_join_values_step(items, k);
        lemma_join_values_prefix(items, k + 1, n);
        lemma_text_at_prefix(s, base, jn, jk1.len() as int);
        assert(jn.subrange(0, jk1.len() as int) == jk1);
        assert(jk1 =~= jk + (sep(k) + to_json(items[k])));
        lemma_text_at_split(s, base, jk, sep(k) + to_json(items[k]));
        lemma_text_at_split(s, pos, sep(k), to_json(items[k]));
        let start = pos + sep(k).len();
        let e = start + to_json(items[k]).len();
        assert(items[k].wf());
        lemma_to_json_first(items[k]);
        lemma_text_at_index(s, start, to_json(items[k]), 0);
        if k > 0 {
            lemma_text_at_index(s, pos, sep(k), 0);
        }
        assert(skip_ws(s, pos) == pos);
        assert(s[pos] != ']');
        assert(skip_ws(s, start) == start);
        assert(next_element(s, pos, k == 0) == Ok::<int, crate::grammar::SpecError>(start));
        // what follows the element
        if k + 1 < n {
            lemma_join_values_step(items, k + 1);
            lemma_join_values_prefix(items, k + 2, n);
            let jk2 = join_values(items, k + 2);
            lemma_text_at_prefix(s, base, jn, jk2.len() as int);
            assert(jn.subrange(0, jk2.len() as int) == jk2);
            assert(jk2 =~= jk1 + (sep(k + 1) + to_json(items[k + 1])));
            lemma_text_at_split(s, base, jk1, sep(k + 1) + to_json(items[k + 1]));
            lemma_text_at_index(s, base + jk1.len(), sep(k + 1) + to_json(items[k + 1]), 0);
        }
        assert(delimited(s, e));
        lemma_value_roundtrip(s, start, items[k]);
        lemma_items_roundtrip(s, i, items, k + 1);
        assert(items.take(k).push(items[k]) =~= items.take(k + 1));
    }
}

proof fn lemma_take_insert(m: Seq<(Seq<char>, JsonValue)>, k: int)
    requires
        keys_sorted(m),
        0 <= k < m.len(),
    ensures
        map_insert(m.take(k), m[k].0, m[k].1) == m.take(k + 1),
{
    let t = m.take(k);
    assert(keys_sorted(t)) by {
        assert forall|a: int, b: int| 0 <= a < b < t.len() implies crate::value::key_lt(
            #[trigger] t[a].0,
            #[trigger] t[b].0,
        ) by {
            assert(crate::value::key_lt(m[a].0, m[b].0));
        }
    }
    assert forall|j: int| 0 <= j < k implies crate::value::key_lt(#[trigger] t[j].0, m[k].0) by {
        assert(crate::value::key_lt(m[j].0, m[k].0));
    }
    lemma_insert_at(t, m[k].0, m[k].1, k);
    assert(t.insert(k, (m[k].0, m[k].1)) =~= m.take(k + 1));
}

/// Where the parts of the `k`-th member of an object's text lie.
proof fn lemma_member_layout(s: Seq<char>, i: int, m: Seq<(Seq<char>, JsonValue)>, k: int)
    requires
        JsonValue::Object(m).wf(),
        text_at(s, i, to_json(JsonValue::Object(m))),
        0 <= k < m.len(),
    ensures
        ({
            let pos = i + 1 + join_members(m, k).len();
            let start = pos + sep(k).len();
            let colon = start + quote(m[k].0).len();
            let e = colon + 1 + to_json(m[k].1).len();
            &&& skip_ws(s, pos) == pos
            &&& s[pos] != '}'
            &&& next_member(s, pos, k == 0) == Ok::<int, crate::grammar::SpecError>(start)
            &&& start < s.len() && s[start] == '"'
            &&& string_body(s, start + 1, seq![]) == Ok::<
                (Seq<char>, int),
                crate::grammar::SpecError,
            >((m[k].0, colon))
            &&& skip_ws(s, colon) == colon
            &&& colon < s.len() && s[colon] == ':'
            &&& text_at(s, colon + 1, to_json(m[k].1))
            &&& delimited(s, e)
            &&& e == i + 1 + join_members(m, k + 1).len()
            &&& m[k].1.wf()
        }),
{
    let n = m.len() as int;
    let jn = join_members(m, n);
    let base = i + 1;
    let pos = base + join_members(m, k).len();
    assert(to_json(JsonValue::Object(m)) =~= seq!['{'] + (jn + seq!['}']));
    lemma_text_at_split(s, i, seq!['{'], jn + seq!['}']);
    lemma_text_at_split(s, base, jn, seq!['}']);
    lemma_text_at_index(s, base + jn.len(), seq!['}'], 0);
    let key = m[k].0;
    let val = m[k].1;
    let mt = quote(key) + seq![':'] + to_json(val);
    let jk = join_members(m, k);
    let jk1 = join_members(m, k + 1);
    lemma_join_members_step(m, k);
    lemma_join_members_prefix(m, k + 1, n);
    lemma_text_at_prefix(s, base, jn, jk1.len() as int);
    assert(jn.subrange(0, jk1.len() as int) == jk1);
    assert(jk1 =~= jk + (sep(k) + mt));
    lemma_text_at_split(s, base, jk, sep(k) + mt);
    lemma_text_at_split(s, pos, sep(k), mt);
    let start = pos + sep(k).len();
    lemma_text_at_split(s, start, quote(key) + seq![':'], to_json(val));
    lemma_text_at_split(s, start, quote(key), seq![':']);
    let colon = start + quote(key).len();
    lemma_text_at_index(s, colon, seq![':'], 0);
    assert(quote(key) =~= seq!['"'] + (escape_str(key) + seq!['"']));
    lemma_text_at_split(s, start, seq!['"'], escape_str(key) + seq!['"']);
    lemma_text_at_index(s, start, seq!['"'], 0);
    lemma_string_body_roundtrip(s, start + 1, seq![], key);
    assert(seq![] + key =~= key);
    if k > 0 {
        lemma_text_at_index(s, pos, sep(k), 0);
    }
    assert(val.wf());
    if k + 1 < n {
        lemma_join_members_step(m, k + 1);
        lemma_join_members_prefix(m, k + 2, n);
        let jk2 = join_members(m, k + 2);
        let mt1 = quote(m[k + 1].0) + seq![':'] + to_json(m[k + 1].1);
        lemma_text_at_prefix(s, base, jn, jk2.len() as int);
        assert(jn.subrange(0, jk2.len() as int) == jk2);
        assert(jk2 =~= jk1 + (sep(k + 1) + mt1));
        lemma_text_at_split(s, base, jk1, sep(k + 1) + mt1);
        lemma_text_at_index(s, base + jk1.len(), sep(k + 1) + mt1, 0);
    }
}

proof fn lemma_members_roundtrip(s: Seq<char>, i: int, m: Seq<(Seq<char>, JsonValue)>, k: int)
    requires
        JsonValue::Object(m).wf(),
        text_at(s, i, to_json(JsonValue::Object(m))),
        0 <= k <= m.len(),
    ensures
        parse_members(s, i + 1 + join_members(m, k).len(), k == 0, m.take(k)) == Ok::<
            (JsonValue, int),
            crate::grammar::SpecError,
        >((JsonValue::Object(m), i + to_json(JsonValue::Object(m)).len())),
    decreases m, m.len() - k,
{
    let n = m.len() as int;
    let pos = i + 1 + join_members(m, k).len();
    if k == n {
        let jn = join_members(m, n);
        assert(to_json(JsonValue::Object(m)) =~= seq!['{'] + (jn + seq!['}']));
        lemma_text_at_split(s, i, seq!['{'], jn + seq!['}']);
        lemma_text_at_split(s, i + 1, jn, seq!['}']);
        lemma_text_at_index(s, i + 1 + jn.len(), seq!['}'], 0);
        assert(m.take(n) =~= m);
        assert(skip_ws(s, pos) == pos);
    } else {
        lemma_member_layout(s, i, m, k);
        let start = pos + sep(k).len();
        let colon = start + quote(m[k].0).len();
        lemma_to_json_first(m[k].1);
        lemma_value_roundtrip(s, colon + 1, m[k].1);
        lemma_take_insert(m, k);
        lemma_members_roundtrip(s, i, m, k + 1);
    }
}

/// Reading back the compact text of a well-formed value gives the value.
pub proof fn lemma_document_roundtrip(v: JsonValue)
    requires
        v.wf(),
    ensures
        parse_document(to_json(v)) == Ok::<JsonValue, crate::grammar::SpecError>(v),
{
    let s = to_json(v);
    assert(s.subrange(0, s.len() as int) =~= s);
    lemma_value_roundtrip(s, 0, v);
}

/// Every 64-bit integer is written as text that reads back as exactly the
/// same integer, never as an approximation.
pub proof fn lemma_integers_round_trip(n: NumberView)
    requires
        n is PosInt || (n is NegInt && n->NegInt_0 < 0),
    ensures
        parse_document(n.text()) == Ok::<JsonValue, crate::grammar::SpecError>(JsonValue::Number(n)),
{
    lemma_document_roundtrip(JsonValue::Number(n));
}

proof fn lemma_skip_digits_back(s: Seq<char>, i: int, t: Seq<char>, j: int)
    requires
        text_at(s, i, t),
        0 <= j <= t.len(),
        skip_digits(s, i + j) <= i + t.len(),
    ensures
        skip_digits(t, j) == skip_digits(s, i + j) - i,
    decreases t.len() - j,
{
    crate::parser::lemma_skip_digits(s, i + j);
    if j < t.len() {
        lemma_text_at_index(s, i, t, j);
        if is_digit(t[j]) {
            lemma_skip_digits_back(s, i, t, j + 1);
        }
    }
}

/// A scanned number token, read on its own, scans to its end.
proof fn lemma_scan_number_alone(s: Seq<char>, i: int, e: int)
    requires
        0 <= i <= s.len(),
        scan_number(s, i) == Ok::<int, int>(e),
    ensures
        i < e <= s.len(),
        scan_number(s.subrange(i, e), 0) == Ok::<int, int>(e - i),
{
    let p0 = if i < s.len() && s[i] == '-' { i + 1 } else { i };
    crate::parser::lemma_skip_digits(s, p0);
    let p1 = if s[p0] == '0' { p0 + 1 } else { skip_digits(s, p0) };
    let frac = p1 < s.len() && s[p1] == '.';
    if frac {
        crate::parser::lemma_skip_digits(s, p1 + 1);
    }
    let p2 = if frac { skip_digits(s, p1 + 1) } else { p1 };
    let exp = p2 < s.len() && (s[p2] == 'e' || s[p2] == 'E');
    if exp {
        let q = if p2 + 1 < s.len() && (s[p2 + 1] == '+' || s[p2 + 1] == '-') {
            p2 + 2
        } else {
            p2 + 1
        };
        crate::parser::lemma_skip_digits(s, q);
    }
    assert(i < e <= s.len());
    let t = s.subrange(i, e);
    assert(text_at(s, i, t));
    lemma_text_at_all(s, i, t);
    if s[p0] != '0' {
        lemma_skip_digits_back(s, i, t, p0 - i);
    }
    if frac {
        lemma_skip_digits_back(s, i, t, p1 + 1 - i);
    }
    if exp {
        let q = if p2 + 1 < s.len() && (s[p2 + 1] == '+' || s[p2 + 1] == '-') {
            p2 + 2
        } else {
            p2 + 1
        };
        lemma_skip_digits_back(s, i, t, q - i);
    }
}

/// An integer token with `.0` appended scans to its end.
proof fn lemma_scan_point_zero(t: Seq<char>)
    requires
        scan_number(t, 0) == Ok::<int, int>(t.len() as int),
        !has_frac_or_exp(t),
    ensures
        scan_number(t + seq!['.', '0'], 0) == Ok::<int, int>(t.len() as int + 2),
        has_frac_or_exp(t + seq!['.', '0']),
{
    let u = t + seq!['.', '0'];
    assert(u[t.len() as int] == '.');
    let p0 = if 0 < t.len() && t[0] == '-' { 1int } else { 0int };
    crate::parser::lemma_skip_digits(t, p0);
    let p1 = if t[p0] == '0' { p0 + 1 } else { skip_digits(t, p0) };
    if p1 < t.len() {
        assert(t[p1] == '.' || t[p1] == 'e' || t[p1] == 'E');
    }
    assert(p1 == t.len());
    assert forall|k: int| 0 <= k < t.len() implies u[k] == #[trigger] t[k] by {}
    if t[p0] != '0' {
        assert(skip_digits(u, p0) == t.len()) by {
            lemma_skip_digits_prefix(t, u, p0);
        }
    }
    assert(skip_digits(u, t.len() as int + 1) == t.len() as int + 2) by {
        assert(is_digit(u[t.len() as int + 1]));
        assert(skip_digits(u, t.len() as int + 2) == t.len() as int + 2);
    }
}

proof fn lemma_skip_digits_prefix(t: Seq<char>, u: Seq<char>, j: int)
    requires
        0 <= j <= t.len(),
        u.len() > t.len(),
        forall|k: int| 0 <= k < t.len() ==> u[k] == #[trigger] t[k],
        !is_digit(u[t.len() as int]),
        skip_digits(t, j) == t.len(),
    ensures
        skip_digits(u, j) == t.len(),
    decreases t.len() - j,
{
    crate::parser::lemma_skip_digits(t, j);
    if j < t.len() {
        lemma_skip_digits_prefix(t, u, j + 1);
    }
}

/// Every number that parsing yields is well formed.
proof fn lemma_parse_number_wf(s: Seq<char>, i: int)
    requires
        0 <= i <= s.len(),
        parse_number(s, i) is Ok,
    ensures
        parse_number(s, i)->Ok_0.0.wf(),
        i < parse_number(s, i)->Ok_0.1 <= s.len(),
{
    let e = scan_number(s, i)->Ok_0;
    lemma_scan_number_alone(s, i, e);
    let t = s.subrange(i, e);
    if !has_frac_or_exp(t) {
        lemma_scan_point_zero(t);
    }
}

/// Every value that parsing yields is well formed.
pub proof fn lemma_parse_value_wf(s: Seq<char>, i: int)
    requires
        parse_value(s, i) is Ok,
    ensures
        parse_value(s, i)->Ok_0.0.wf(),
    decreases s.len() - i, 0int,
{
    if 0 <= i <= s.len() {
        lemma_skip_ws(s, i);
        let j = skip_ws(s, i);
        if j < s.len() {
            let c = s[j];
            if c == '-' || is_digit(c) {
                lemma_parse_number_wf(s, j);
            } else if c == '[' {
                lemma_parse_items_wf(s, j + 1, true, seq![]);
            } else if c == '{' {
                lemma_parse_members_wf(s, j + 1, true, seq![]);
            }
        }
    }
}

proof fn lemma_parse_items_wf(s: Seq<char>, i: int, first: bool, acc: Seq<JsonValue>)
    requires
        parse_items(s, i, first, acc) is Ok,
        forall|k: int| 0 <= k < acc.len() ==> (#[trigger] acc[k]).wf(),
    ensures
        parse_items(s, i, first, acc)->Ok_0.0.wf(),
    decreases s.len() - i, 1int,
{
    if 0 <= i <= s.len() {
        lemma_skip_ws(s, i);
        let j = skip_ws(s, i);
        if j + 1 <= s.len() {
            lemma_skip_ws(s, j + 1);
        }
        if !(j < s.len() && s[j] == ']') {
            let k = next_element(s, j, first)->Ok_0;
            lemma_parse_value_wf(s, k);
            let (v, m) = parse_value(s, k)->Ok_0;
            let acc2 = acc.push(v);
            assert forall|x: int| 0 <= x < acc2.len() implies (#[trigger] acc2[x]).wf() by {
                if x < acc.len() {
                    assert(acc2[x] == acc[x]);
                }
            }
            lemma_parse_items_wf(s, m, false, acc2);
        }
    }
}

proof fn lemma_parse_members_wf(
    s: Seq<char>,
    i: int,
    first: bool,
    acc: Seq<(Seq<char>, JsonValue)>,
)
    requires
        parse_members(s, i, first, acc) is Ok,
        JsonValue::Object(acc).wf(),
    ensures
        parse_members(s, i, first, acc)->Ok_0.0.wf(),
    decreases s.len() - i, 1int,
{
    if 0 <= i <= s.len() {
        lemma_skip_ws(s, i);
        let j = skip_ws(s, i);
        if j + 1 <= s.len() {
            lemma_skip_ws(s, j + 1);
        }
        if !(j < s.len() && s[j] == '}') {
            let k = next_member(s, j, first)->Ok_0;
            let (key, m) = string_body(s, k + 1, seq![])->Ok_0;
            lemma_skip_ws(s, m);
            let q = skip_ws(s, m);
            lemma_parse_value_wf(s, q + 1);
            let (v, r) = parse_value(s, q + 1)->Ok_0;
            lemma_map_insert_sorted(acc, key, v);
            let acc2 = map_insert(acc, key, v);
            assert forall|x: int| 0 <= x < acc2.len() implies (#[trigger] acc2[x]).1.wf() by {
                if acc2[x] != (key, v) {
                    let y = choose|y: int| 0 <= y < acc.len() && acc[y] == acc2[x];
                    assert(acc[y].1.wf());
                }
            }
            lemma_parse_members_wf(s, r, false, acc2);
        }
    }
}

proof fn lemma_literal_end(s: Seq<char>, i: int, lit: Literal, k: int)
    requires
        0 <= i,
        0 <= k <= lit.word().len(),
        i + k <= s.len(),
        parse_literal(s, i, lit, k) is Ok,
    ensures
        parse_literal(s, i, lit, k)->Ok_0 == i + lit.word().len() <= s.len(),
    decreases lit.word().len() - k,
{
    if k < lit.word().len() {
        lemma_literal_end(s, i, lit, k + 1);
    }
}

pub(crate) proof fn lemma_string_end(s: Seq<char>, i: int, acc: Seq<char>)
    requires
        string_body(s, i, acc) is Ok,
    ensures
        i < string_body(s, i, acc)->Ok_0.1 <= s.len(),
    decreases s.len() - i,
{
    if 0 <= i < s.len() && s[i] != '"' {
        if s[i] == '\\' {
            let (c, j) = parse_escape(s, i)->Ok_0;
            lemma_string_end(s, j, acc.push(c));
        } else {
            lemma_string_end(s, i + 1, acc.push(s[i]));
        }
    }
}

/// A value that parsing reads from position `i` takes at least one
/// character and ends within the text.
pub proof fn lemma_parse_value_end(s: Seq<char>, i: int)
    requires
        parse_value(s, i) is Ok,
    ensures
        0 <= i < parse_value(s, i)->Ok_0.1 <= s.len(),
    decreases s.len() - i, 0int,
{
    lemma_skip_ws(s, i);
    let j = skip_ws(s, i);
    let c = s[j];
    if c == 'n' {
        lemma_literal_end(s, j, Literal::Null, 0);
    } else if c == 't' {
        lemma_literal_end(s, j, Literal::True, 0);
    } else if c == 'f' {
        lemma_literal_end(s, j, Literal::False, 0);
    } else if c == '-' || is_digit(c) {
        lemma_parse_number_wf(s, j);
    } else if c == '"' {
        lemma_string_end(s, j + 1, seq![]);
    } else if c == '[' {
        lemma_parse_items_end(s, j + 1, true, seq![]);
    } else {
        lemma_parse_members_end(s, j + 1, true, seq![]);
    }
}

proof fn lemma_parse_items_end(s: Seq<char>, i: int, first: bool, acc: Seq<JsonValue>)
    requires
        parse_items(s, i, first, acc) is Ok,
    ensures
        0 <= i < parse_items(s, i, first, acc)->Ok_0.1 <= s.len(),
    decreases s.len() - i, 1int,
{
    lemma_skip_ws(s, i);
    let j = skip_ws(s, i);
    if !(j < s.len() && s[j] == ']') {
        let k = next_element(s, j, first)->Ok_0;
        let (v, m) = parse_value(s, k)->Ok_0;
        lemma_parse_items_end(s, m, false, acc.push(v));
    }
}

proof fn lemma_parse_members_end(
    s: Seq<char>,
    i: int,
    first: bool,
    acc: Seq<(Seq<char>, JsonValue)>,
)
    requires
        parse_members(s, i, first, acc) is Ok,
    ensures
        0 <= i < parse_members(s, i, first, acc)->Ok_0.1 <= s.len(),
    decreases s.len() - i, 1int,
{
    lemma_skip_ws(s, i);
    let j = skip_ws(s, i);
    if !(j < s.len() && s[j] == '}') {
        let k = next_member(s, j, first)->Ok_0;
        let (key, m) = string_body(s, k + 1, seq![])->Ok_0;
        let q = skip_ws(s, m);
        let (v, r) = parse_value(s, q + 1)->Ok_0;
        lemma_parse_members_end(s, r, false, map_insert(acc, key, v));
    }
}

/// Every document that parsing accepts is well formed.
pub proof fn lemma_parse_document_wf(s: Seq<char>)
    requires
        parse_document(s) is Ok,
    ensures
        parse_document(s)->Ok_0.wf(),
{
    lemma_parse_value_wf(s, 0);
}

/// Reading, writing and reading again gives what the first reading gave:
/// the compact text of a parsed document parses to the same value.
pub proof fn lemma_reparse(s: Seq<char>)
    requires
        parse_document(s) is Ok,
    ensures
        parse_document(to_json(parse_document(s)->Ok_0)) == parse_document(s),
{
    lemma_parse_document_wf(s);
    lemma_document_roundtrip(parse_document(s)->Ok_0);
}

/// Reading a document from the UTF-8 bytes of a text gives what reading it
/// from the text gives: the same value, or the same error.
pub proof fn lemma_bytes_agree_with_text(s: Seq<char>)
    ensures
        document_of_bytes(encode_utf8(s)) == (match parse_document(s) {
            Ok(x) => Ok::<JsonValue, (Seq<char>, usize, usize)>(x),
            Err(x) => Err::<JsonValue, (Seq<char>, usize, usize)>(err_view(x)),
        }),
{
    vstd::utf8::encode_utf8_valid_utf8(s);
    vstd::utf8::encode_utf8_decode_utf8(s);
}

/// A stream that has reached its end, or has just reported an error, yields
/// nothing more: every later step yields nothing and stays where it is.
pub proof fn lemma_stream_fused(buf: Seq<u8>, pos: int)
    requires
        0 <= pos <= buf.len(),
        stream_step(buf, pos).0 is None || stream_step(buf, pos).0 matches Some(Err(_)),
    ensures
        stream_step(buf, stream_step(buf, pos).1).0 is None,
        stream_step(buf, stream_step(buf, pos).1).1 == stream_step(buf, pos).1,
{
    lemma_skip_ws_bytes(buf, pos);
    let q = stream_step(buf, pos).1;
    assert(q == buf.len() as int || skip_ws_bytes(buf, pos) >= buf.len());
    assert(skip_ws_bytes(buf, q) == q);
}

/// The first byte of the UTF-8 text of a value is not whitespace.
proof fn lemma_first_byte_not_ws(v: JsonValue)
    requires
        v.wf(),
    ensures
        encode_utf8(to_json(v)).len() > 0,
        !is_ws_byte(encode_utf8(to_json(v))[0]),
{
    let t = to_json(v);
    lemma_to_json_first(v);
    let c = t[0] as u32;
    assert(c <= 0x7F);
    assert((c & 0x7F) == c) by (bit_vector)
        requires
            c <= 0x7F,
    ;
    assert(encode_utf8(t) == encode_scalar(c) + encode_utf8(t.drop_first()));
    assert(encode_utf8(t)[0] == encode_scalar(c)[0]);
}

/// A stream over the written text of a well-formed value yields that value
/// and then ends.
pub proof fn lemma_stream_of_written_value(v: JsonValue)
    requires
        v.wf(),
    ensures
        stream_step(encode_utf8(to_json(v)), 0).0 == Some(
            Ok::<JsonValue, (Seq<char>, usize, usize)>(v),
        ),
        stream_step(encode_utf8(to_json(v)), 0).1 == encode_utf8(to_json(v)).len(),
        stream_step(
            encode_utf8(to_json(v)),
            stream_step(encode_utf8(to_json(v)), 0).1,
        ).0 is None,
{
    let t = to_json(v);
    let buf = encode_utf8(t);
    lemma_first_byte_not_ws(v);
    assert(skip_ws_bytes(buf, 0) == 0);
    assert(buf.subrange(0, buf.len() as int) =~= buf);
    vstd::utf8::encode_utf8_valid_utf8(t);
    vstd::utf8::encode_utf8_decode_utf8(t);
    assert(t.subrange(0, t.len() as int) =~= t);
    lemma_value_roundtrip(t, 0, v);
    lemma_bytes_before(t, t.len() as int);
    assert(t.take(t.len() as int) =~= t);
    assert(skip_ws_bytes(buf, buf.len() as int) == buf.len());
}

/// The compact texts of `vs`, each followed by a line feed.
pub open spec fn lines_of(vs: Seq<JsonValue>) -> Seq<char>
    decreases vs.len(),
{
    if vs.len() == 0 {
        seq![]
    } else {
        lines_of(vs.drop_last()) + to_json(vs.last()) + seq!['\n']
    }
}

/// Where a stream over `lines_of(vs)` stands after `k` steps: at the start,
/// or just past the text of the `k`-th value, before its line feed.
pub open spec fn stream_stop(vs: Seq<JsonValue>, k: int) -> int {
    if k <= 0 {
        0
    } else {
        encode_utf8(lines_of(vs.take(k))).len() - 1
    }
}

proof fn lemma_encode_concat(a: Seq<char>, b: Seq<char>)
    ensures
        encode_utf8(a + b) == encode_utf8(a) + encode_utf8(b),
    decreases b.len(),
{
    if b.len() == 0 {
        assert(a + b =~= a);
        assert(encode_utf8(b) =~= Seq::<u8>::empty());
        assert(encode_utf8(a) + encode_utf8(b) =~= encode_utf8(a));
    } else {
        let c = b.last();
        let b0 = b.drop_last();
        lemma_encode_concat(a, b0);
        assert(a + b =~= (a + b0).push(c));
        assert(b =~= b0.push(c));
        lemma_encode_utf8_push(a + b0, c);
        lemma_encode_utf8_push(b0, c);
        assert(encode_utf8(a + b) =~= encode_utf8(a) + encode_utf8(b));
    }
}

proof fn lemma_encode_line_feed()
    ensures
        encode_utf8(seq!['\n']) == seq![0x0au8],
{
    let c = '\n' as u32;
    assert(c == 10);
    assert((c & 0x7F) == c) by (bit_vector)
        requires
            c == 10,
    ;
    assert(seq!['\n'].drop_first() =~= Seq::<char>::empty());
    assert(encode_utf8(seq!['\n']) =~= encode_scalar(c) + encode_utf8(Seq::<char>::empty()));
}

proof fn lemma_lines_concat(a: Seq<JsonValue>, b: Seq<JsonValue>)
    ensures
        lines_of(a + b) == lines_of(a) + lines_of(b),
    decreases b.len(),
{
    if b.len() == 0 {
        assert(a + b =~= a);
        assert(lines_of(a) + lines_of(b) =~= lines_of(a));
    } else {
        lemma_lines_concat(a, b.drop_last());
        assert((a + b).drop_last() =~= a + b.drop_last());
        assert((a + b).last() == b.last());
        assert(lines_of(a + b) =~= lines_of(a) + lines_of(b));
    }
}

/// The written lines of `vs` are those of its first `k` values followed by
/// those of the rest, in characters and in bytes.
proof fn lemma_lines_split(vs: Seq<JsonValue>, k: int)
    requires
        0 <= k <= vs.len(),
    ensures
        lines_of(vs) == lines_of(vs.take(k)) + lines_of(vs.skip(k)),
        encode_utf8(lines_of(vs)) == encode_utf8(lines_of(vs.take(k))) + encode_utf8(
            lines_of(vs.skip(k)),
        ),
{
    assert(vs =~= vs.take(k) + vs.skip(k));
    lemma_lines_concat(vs.take(k), vs.skip(k));
    lemma_encode_concat(lines_of(vs.take(k)), lines_of(vs.skip(k)));
}

/// The lines of one value.
proof fn lemma_lines_single(v: JsonValue)
    ensures
        lines_of(seq![v]) == to_json(v) + seq!['\n'],
{
    assert(seq![v].drop_last() =~= Seq::<JsonValue>::empty());
    assert(lines_of(Seq::<JsonValue>::empty()) =~= Seq::<char>::empty());
    assert(Seq::<char>::empty() + to_json(v) =~= to_json(v));
}

/// The lines of the first `k + 1` values: those of the first `k`, then the
/// text of value `k` and a line feed; in bytes too.
proof fn lemma_lines_step(vs: Seq<JsonValue>, k: int)
    requires
        0 <= k < vs.len(),
    ensures
        lines_of(vs.take(k + 1)) == lines_of(vs.take(k)) + to_json(vs[k]) + seq!['\n'],
        encode_utf8(lines_of(vs.take(k + 1))).len() == encode_utf8(lines_of(vs.take(k))).len()
            + encode_utf8(to_json(vs[k])).len() + 1,
{
    assert(vs.take(k + 1).drop_last() =~= vs.take(k));
    assert(vs.take(k + 1).last() == vs[k]);
    lemma_encode_line_feed();
    lemma_encode_concat(lines_of(vs.take(k)) + to_json(vs[k]), seq!['\n']);
    lemma_encode_concat(lines_of(vs.take(k)), to_json(vs[k]));
}

/// Where the stream stands after `k` steps, the next step skips to the end
/// of the first `k` lines.
proof fn lemma_stop_skips(vs: Seq<JsonValue>, k: int)
    requires
        0 <= k <= vs.len(),
    ensures
        skip_ws_bytes(encode_utf8(lines_of(vs)), stream_stop(vs, k)) == skip_ws_bytes(
            encode_utf8(lines_of(vs)),
            encode_utf8(lines_of(vs.take(k))).len() as int,
        ),
        encode_utf8(lines_of(vs.take(k))).len() <= encode_utf8(lines_of(vs)).len(),
{
    let buf = encode_utf8(lines_of(vs));
    lemma_lines_split(vs, k);
    let off = encode_utf8(lines_of(vs.take(k))).len() as int;
    if k > 0 {
        lemma_lines_step(vs, k - 1);
        let q = lines_of(vs.take(k - 1)) + to_json(vs[k - 1]);
        lemma_encode_line_feed();
        lemma_encode_concat(q, seq!['\n']);
        assert(encode_utf8(lines_of(vs.take(k))) == encode_utf8(q) + seq![0x0au8]);
        assert(buf[off - 1] == encode_utf8(lines_of(vs.take(k)))[off - 1]);
        assert(buf[off - 1] == 0x0au8);
    }
}

/// The step of a stream from the end of the first `k` lines reads value
/// `k` and stops just past its text.
proof fn lemma_step_at_line(vs: Seq<JsonValue>, k: int)
    requires
        forall|i: int| 0 <= i < vs.len() ==> (#[trigger] vs[i]).wf(),
        0 <= k < vs.len(),
    ensures
        stream_step(encode_utf8(lines_of(vs)), encode_utf8(lines_of(vs.take(k))).len() as int)
            == (
            Some(Ok::<JsonValue, (Seq<char>, usize, usize)>(vs[k])),
            stream_stop(vs, k + 1),
        ),
{
    let buf = encode_utf8(lines_of(vs));
    let p = lines_of(vs.take(k));
    let rest = lines_of(vs.skip(k));
    let off = encode_utf8(p).len() as int;
    let v = vs[k];
    let tj = to_json(v);
    let tail = lines_of(vs.skip(k + 1));
    lemma_lines_split(vs, k);
    assert(vs.skip(k) =~= seq![v] + vs.skip(k + 1));
    lemma_lines_concat(seq![v], vs.skip(k + 1));
    lemma_lines_single(v);
    assert(rest =~= tj + (seq!['\n'] + tail));
    lemma_encode_concat(tj, seq!['\n'] + tail);
    lemma_first_byte_not_ws(v);
    assert(buf[off] == encode_utf8(tj)[0]);
    assert(skip_ws_bytes(buf, off) == off);
    assert(buf.subrange(off, buf.len() as int) =~= encode_utf8(rest));
    vstd::utf8::encode_utf8_valid_utf8(rest);
    vstd::utf8::encode_utf8_decode_utf8(rest);
    assert(rest.subrange(0, tj.len() as int) =~= tj);
    assert(rest[tj.len() as int] == '\n');
    lemma_value_roundtrip(rest, 0, v);
    lemma_bytes_before(rest, tj.len() as int);
    assert(rest.take(tj.len() as int) =~= tj);
    lemma_lines_step(vs, k);
}

/// A stream over the compact texts of well-formed values, one per line,
/// yields each value in turn, and ends after the last.
pub proof fn lemma_stream_of_lines(vs: Seq<JsonValue>, k: int)
    requires
        forall|i: int| 0 <= i < vs.len() ==> (#[trigger] vs[i]).wf(),
        0 <= k <= vs.len(),
    ensures
        k < vs.len() ==> stream_step(encode_utf8(lines_of(vs)), stream_stop(vs, k)) == (
            Some(Ok::<JsonValue, (Seq<char>, usize, usize)>(vs[k])),
            stream_stop(vs, k + 1),
        ),
        k == vs.len() ==> stream_step(encode_utf8(lines_of(vs)), stream_stop(vs, k)).0 is None,
{
    let buf = encode_utf8(lines_of(vs));
    lemma_stop_skips(vs, k);
    if k < vs.len() {
        lemma_step_at_line(vs, k);
        let off = encode_utf8(lines_of(vs.take(k))).len() as int;
        lemma_skip_ws_bytes(buf, stream_stop(vs, k));
        lemma_skip_ws_bytes(buf, off);
    } else {
        assert(vs.take(k) =~= vs);
        lemma_skip_ws_bytes(buf, stream_stop(vs, k));
    }
}

/// Skipping whitespace bytes from `p` reaches the end exactly when only
/// whitespace is left.
proof fn lemma_skip_ws_bytes_end(buf: Seq<u8>, p: int)
    requires
        0 <= p <= buf.len(),
    ensures
        skip_ws_bytes(buf, p) >= buf.len() <==> (forall|i: int|
            p <= i < buf.len() ==> is_ws_byte(#[trigger] buf[i])),
    decreases buf.len() - p,
{
    if p < buf.len() && is_ws_byte(buf[p]) {
        lemma_skip_ws_bytes_end(buf, p + 1);
        if !(forall|i: int| p + 1 <= i < buf.len() ==> is_ws_byte(#[trigger] buf[i])) {
            let i = choose|i: int| p + 1 <= i < buf.len() && !is_ws_byte(#[trigger] buf[i]);
            assert(p <= i < buf.len() && !is_ws_byte(buf[i]));
        }
    } else if p < buf.len() {
        assert(!is_ws_byte(buf[p]));
    }
}

/// Each step of a stream either finds only whitespace left and yields
/// nothing, or consumes at least one byte: a value moves the position past
/// its text, and an error moves it to the end. So a stream over `n` bytes
/// yields at most `n` items.
pub proof fn lemma_stream_progress(buf: Seq<u8>, pos: int)
    requires
        0 <= pos <= buf.len(),
    ensures
        stream_step(buf, pos).0 is None <==> (forall|i: int|
            pos <= i < buf.len() ==> is_ws_byte(#[trigger] buf[i])),
        stream_step(buf, pos).0 is Some ==> pos < stream_step(buf, pos).1 <= buf.len(),
        stream_step(buf, pos).0 matches Some(Err(_)) ==> stream_step(buf, pos).1 == buf.len(),
{
    lemma_skip_ws_bytes(buf, pos);
    lemma_skip_ws_bytes_end(buf, pos);
    let p = skip_ws_bytes(buf, pos);
    if p < buf.len() {
        let rest = buf.subrange(p, buf.len() as int);
        if vstd::utf8::valid_utf8(rest) {
            let cs = vstd::utf8::decode_utf8(rest);
            if parse_value(cs, 0) is Ok {
                let e = parse_value(cs, 0)->Ok_0.1;
                lemma_parse_value_end(cs, 0);
                crate::parser::lemma_loc_prefix(cs, e);
                lemma_bytes_before(cs, e);
                vstd::utf8::decode_utf8_encode_utf8(rest);
            }
        }
    }
}

// ---------------------------------------------------------------------------
// Reading a value does not look past its end, but for one character that a
// number needs to see, which whitespace never continues.

/// What follows position `e` of `s` once `x` is appended cannot continue
/// what ends at `e`: it is a character of `s`, nothing, or whitespace.
pub open spec fn ends_cleanly(s: Seq<char>, x: Seq<char>, e: int) -> bool {
    e < s.len() || x.len() == 0 || is_ws(x[0])
}

proof fn lemma_skip_ws_ext(s: Seq<char>, x: Seq<char>, i: int)
    requires
        0 <= i <= s.len(),
        skip_ws(s, i) < s.len(),
    ensures
        skip_ws(s + x, i) == skip_ws(s, i),
    decreases s.len() - i,
{
    assert((s + x)[i] == s[i]);
    if is_ws(s[i]) {
        lemma_skip_ws_ext(s, x, i + 1);
    }
}

proof fn lemma_skip_digits_ext(s: Seq<char>, x: Seq<char>, i: int)
    requires
        0 <= i <= s.len(),
        skip_digits(s, i) < s.len() || x.len() == 0 || !is_digit(x[0]),
    ensures
        skip_digits(s + x, i) == skip_digits(s, i),
    decreases s.len() - i,
{
    if i < s.len() {
        assert((s + x)[i] == s[i]);
        if is_digit(s[i]) {
            lemma_skip_digits_ext(s, x, i + 1);
        }
    } else if x.len() > 0 {
        assert((s + x)[i] == x[0]);
    }
}

proof fn lemma_scan_number_ext(s: Seq<char>, x: Seq<char>, i: int)
    requires
        0 <= i <= s.len(),
        scan_number(s, i) is Ok,
        ends_cleanly(s, x, scan_number(s, i)->Ok_0),
    ensures
        scan_number(s + x, i) == scan_number(s, i),
{
    let t = s + x;
    let e = scan_number(s, i)->Ok_0;
    assert forall|k: int| 0 <= k < s.len() implies #[trigger] t[k] == s[k] by {}
    let p0 = if 0 <= i < s.len() && s[i] == '-' { i + 1 } else { i };
    assert(p0 < s.len() && is_digit(s[p0]));
    crate::parser::lemma_skip_digits(s, p0);
    let p1 = if s[p0] == '0' { p0 + 1 } else { skip_digits(s, p0) };
    if s[p0] != '0' {
        lemma_skip_digits_ext(s, x, p0);
    }
    let frac = p1 < s.len() && s[p1] == '.';
    if x.len() > 0 {
        assert(t[s.len() as int] == x[0]);
    }
    if frac {
        crate::parser::lemma_skip_digits(s, p1 + 1);
        lemma_skip_digits_ext(s, x, p1 + 1);
    }
    let p2 = if frac { skip_digits(s, p1 + 1) } else { p1 };
    if p2 < s.len() && (s[p2] == 'e' || s[p2] == 'E') {
        let q = if p2 + 1 < s.len() && (s[p2 + 1] == '+' || s[p2 + 1] == '-') {
            p2 + 2
        } else {
            p2 + 1
        };
        crate::parser::lemma_skip_digits(s, q);
        lemma_skip_digits_ext(s, x, q);
    }
}

proof fn lemma_literal_ext(s: Seq<char>, x: Seq<char>, i: int, lit: Literal, k: int)
    requires
        0 <= i,
        0 <= k <= lit.word().len(),
        i + k <= s.len(),
        parse_literal(s, i, lit, k) is Ok,
    ensures
        parse_literal(s + x, i, lit, k) == parse_literal(s, i, lit, k),
    decreases lit.word().len() - k,
{
    if k < lit.word().len() {
        assert((s + x)[i + k] == s[i + k]);
        lemma_literal_ext(s, x, i, lit, k + 1);
    }
}

proof fn lemma_hex_run_ext(s: Seq<char>, x: Seq<char>, p: int, n: nat, acc: int)
    requires
        0 <= p,
        p + n <= s.len(),
    ensures
        hex_run(s + x, p, n, acc) == hex_run(s, p, n, acc),
    decreases n,
{
    if n > 0 {
        assert((s + x)[p] == s[p]);
        match hex_digit(s[p]) {
            None => {},
            Some(h) => lemma_hex_run_ext(s, x, p + 1, (n - 1) as nat, acc * 16 + h),
        }
    }
}

proof fn lemma_hex_run_len(s: Seq<char>, p: int, n: nat, acc: int)
    requires
        hex_run(s, p, n, acc) is Ok,
    ensures
        n == 0 || (0 <= p && p + n <= s.len()),
    decreases n,
{
    if n > 0 {
        match hex_digit(s[p]) {
            None => {},
            Some(h) => lemma_hex_run_len(s, p + 1, (n - 1) as nat, acc * 16 + h),
        }
    }
}

proof fn lemma_escape_ext(s: Seq<char>, x: Seq<char>, i: int)
    requires
        0 <= i < s.len(),
        parse_escape(s, i) is Ok,
        parse_escape(s, i)->Ok_0.1 <= s.len(),
    ensures
        parse_escape(s + x, i) == parse_escape(s, i),
{
    let t = s + x;
    let j = i + 1;
    assert(t[j] == s[j]);
    if simple_escape(s[j]) is None {
        lemma_hex_run_len(s, j + 1, 4, 0);
        lemma_hex_run_ext(s, x, j + 1, 4, 0);
        let u = hex_run(s, j + 1, 4, 0)->Ok_0;
        if 0xD800 <= u < 0xDC00 {
            let k = j + 5;
            assert(t[k] == s[k]);
            assert(t[k + 1] == s[k + 1]);
            lemma_hex_run_len(s, k + 2, 4, 0);
            lemma_hex_run_ext(s, x, k + 2, 4, 0);
        }
    }
}

proof fn lemma_string_ext(s: Seq<char>, x: Seq<char>, i: int, acc: Seq<char>)
    requires
        string_body(s, i, acc) is Ok,
    ensures
        string_body(s + x, i, acc) == string_body(s, i, acc),
    decreases s.len() - i,
{
    assert((s + x)[i] == s[i]);
    if s[i] != '"' {
        if s[i] == '\\' {
            let (c, j) = parse_escape(s, i)->Ok_0;
            lemma_escape_ext(s, x, i);
            lemma_string_ext(s, x, j, acc.push(c));
        } else {
            lemma_string_ext(s, x, i + 1, acc.push(s[i]));
        }
    }
}

/// Reading a value from `s` gives the same as reading it from `s` followed
/// by `x`, when what follows the value cannot continue it.
pub proof fn lemma_value_ext(s: Seq<char>, x: Seq<char>, i: int)
    requires
        parse_value(s, i) is Ok,
        ends_cleanly(s, x, parse_value(s, i)->Ok_0.1),
    ensures
        parse_value(s + x, i) == parse_value(s, i),
    decreases s.len() - i, 0int,
{
    let t = s + x;
    lemma_skip_ws(s, i);
    let j = skip_ws(s, i);
    lemma_skip_ws_ext(s, x, i);
    assert(t[j] == s[j]);
    let c = s[j];
    if c == 'n' {
        lemma_literal_ext(s, x, j, Literal::Null, 0);
    } else if c == 't' {
        lemma_literal_ext(s, x, j, Literal::True, 0);
    } else if c == 'f' {
        lemma_literal_ext(s, x, j, Literal::False, 0);
    } else if c == '-' || is_digit(c) {
        lemma_scan_number_ext(s, x, j);
        let e = scan_number(s, j)->Ok_0;
        lemma_parse_number_wf(s, j);
        assert(t.subrange(j, e) =~= s.subrange(j, e));
    } else if c == '"' {
        lemma_string_ext(s, x, j + 1, seq![]);
    } else if c == '[' {
        lemma_items_ext(s, x, j + 1, true, seq![]);
    } else {
        lemma_members_ext(s, x, j + 1, true, seq![]);
    }
}

proof fn lemma_items_ext(s: Seq<char>, x: Seq<char>, i: int, first: bool, acc: Seq<JsonValue>)
    requires
        parse_items(s, i, first, acc) is Ok,
    ensures
        parse_items(s + x, i, first, acc) == parse_items(s, i, first, acc),
    decreases s.len() - i, 1int,
{
    let t = s + x;
    lemma_skip_ws(s, i);
    let j = skip_ws(s, i);
    if j < s.len() && s[j] == ']' {
        lemma_skip_ws_ext(s, x, i);
        assert(t[j] == s[j]);
    } else {
        let k = next_element(s, j, first)->Ok_0;
        let (v, m) = parse_value(s, k)->Ok_0;
        lemma_parse_items_end(s, m, false, acc.push(v));
        lemma_parse_value_end(s, k);
        assert(j < s.len());
        lemma_skip_ws_ext(s, x, i);
        assert(t[j] == s[j]);
        if !first {
            lemma_skip_ws(s, j + 1);
            lemma_skip_ws_ext(s, x, j + 1);
        }
        lemma_value_ext(s, x, k);
        lemma_items_ext(s, x, m, false, acc.push(v));
    }
}

proof fn lemma_members_ext(
    s: Seq<char>,
    x: Seq<char>,
    i: int,
    first: bool,
    acc: Seq<(Seq<char>, JsonValue)>,
)
    requires
        parse_members(s, i, first, acc) is Ok,
    ensures
        parse_members(s + x, i, first, acc) == parse_members(s, i, first, acc),
    decreases s.len() - i, 1int,
{
    let t = s + x;
    lemma_skip_ws(s, i);
    let j = skip_ws(s, i);
    if j < s.len() && s[j] == '}' {
        lemma_skip_ws_ext(s, x, i);
        assert(t[j] == s[j]);
    } else {
        let k = next_member(s, j, first)->Ok_0;
        assert(j < s.len());
        lemma_skip_ws_ext(s, x, i);
        assert(t[j] == s[j]);
        if !first {
            lemma_skip_ws(s, j + 1);
            lemma_skip_ws_ext(s, x, j + 1);
        }
        assert(t[k] == s[k]);
        let (key, m) = string_body(s, k + 1, seq![])->Ok_0;
        lemma_string_ext(s, x, k + 1, seq![]);
        lemma_string_end(s, k + 1, seq![]);
        lemma_skip_ws(s, m);
        let q = skip_ws(s, m);
        lemma_skip_ws_ext(s, x, m);
        assert(t[q] == s[q]);
        let (v, r) = parse_value(s, q + 1)->Ok_0;
        lemma_parse_value_end(s, q + 1);
        lemma_parse_members_end(s, r, false, map_insert(acc, key, v));
        lemma_value_ext(s, x, q + 1);
        lemma_members_ext(s, x, r, false, map_insert(acc, key, v));
    }
}

// ---------------------------------------------------------------------------
// A stream over texts separated by whitespace.

/// Every character of `g` is whitespace.
pub open spec fn all_ws(g: Seq<char>) -> bool {
    forall|i: int| 0 <= i < g.len() ==> is_ws(#[trigger] g[i])
}

/// The texts `ts` joined by whitespace: `gaps[0]`, then each text followed
/// by the gap after it.
pub open spec fn joined(ts: Seq<Seq<char>>, gaps: Seq<Seq<char>>) -> Seq<char>
    decreases ts.len(),
{
    if ts.len() == 0 {
        gaps[0]
    } else {
        joined(ts.drop_last(), gaps) + ts.last() + gaps[ts.len() as int]
    }
}

/// The part of `joined(ts, gaps)` from text `k` on.
pub open spec fn joined_from(ts: Seq<Seq<char>>, gaps: Seq<Seq<char>>, k: int) -> Seq<char>
    decreases ts.len() - k,
{
    if k < 0 || k >= ts.len() {
        seq![]
    } else {
        ts[k] + gaps[k + 1] + joined_from(ts, gaps, k + 1)
    }
}

/// Where the value read from the start of text `t` ends.
#[verifier::opaque]
pub open spec fn value_end(t: Seq<char>) -> int {
    parse_value(t, 0)->Ok_0.1
}

/// The text of `joined(ts, gaps)` before where a stream stands after `k`
/// steps: nothing at the start, or everything up to the end of the value of
/// text `k - 1`.
pub open spec fn before_stop(ts: Seq<Seq<char>>, gaps: Seq<Seq<char>>, k: int) -> Seq<char> {
    if k <= 0 {
        seq![]
    } else {
        joined(ts.take(k - 1), gaps) + ts[k - 1].take(value_end(ts[k - 1]))
    }
}

/// Where a stream over `joined(ts, gaps)` stands after `k` steps, in bytes:
/// at the start, or just past the value of text `k - 1`.
pub open spec fn text_stop(ts: Seq<Seq<char>>, gaps: Seq<Seq<char>>, k: int) -> int {
    encode_utf8(before_stop(ts, gaps, k)).len() as int
}

/// The whitespace a stream passes over before text `k` (or the end): what
/// follows the previous value in its text, the gap, and the whitespace that
/// starts text `k`.
pub open spec fn ws_before(ts: Seq<Seq<char>>, gaps: Seq<Seq<char>>, k: int) -> Seq<char> {
    after_value(ts, k) + gaps[k] + lead_ws(ts, k)
}

/// What follows the value of text `k - 1` in its text (nothing for the
/// first step).
pub open spec fn after_value(ts: Seq<Seq<char>>, k: int) -> Seq<char> {
    if k <= 0 {
        seq![]
    } else {
        ts[k - 1].skip(value_end(ts[k - 1]))
    }
}

/// The whitespace that starts text `k` (nothing after the last text).
pub open spec fn lead_ws(ts: Seq<Seq<char>>, k: int) -> Seq<char> {
    if k < ts.len() {
        ts[k].take(skip_ws(ts[k], 0))
    } else {
        seq![]
    }
}

/// The joined text from the start of the value of text `k` on (nothing
/// after the last text).
pub open spec fn rest_from(ts: Seq<Seq<char>>, gaps: Seq<Seq<char>>, k: int) -> Seq<char> {
    if k < ts.len() {
        ts[k].skip(skip_ws(ts[k], 0)) + (gaps[k + 1] + joined_from(ts, gaps, k + 1))
    } else {
        seq![]
    }
}

proof fn lemma_joined_split(ts: Seq<Seq<char>>, gaps: Seq<Seq<char>>, k: int)
    requires
        gaps.len() == ts.len() + 1,
        0 <= k <= ts.len(),
    ensures
        joined(ts, gaps) == joined(ts.take(k), gaps) + joined_from(ts, gaps, k),
    decreases ts.len() - k,
{
    if k == ts.len() {
        assert(ts.take(k) =~= ts);
        assert(joined(ts, gaps) + seq![] =~= joined(ts, gaps));
    } else {
        lemma_joined_split(ts, gaps, k + 1);
        assert(ts.take(k + 1).drop_last() =~= ts.take(k));
        assert(ts.take(k + 1).last() == ts[k]);
        assert(joined(ts.take(k + 1), gaps) == joined(ts.take(k), gaps) + ts[k] + gaps[k + 1]);
        assert(joined(ts.take(k), gaps) + joined_from(ts, gaps, k) =~= joined(ts.take(k + 1), gaps)
            + joined_from(ts, gaps, k + 1));
    }
}

proof fn lemma_joined_step(ts: Seq<Seq<char>>, gaps: Seq<Seq<char>>, k: int)
    requires
        gaps.len() == ts.len() + 1,
        0 <= k < ts.len(),
    ensures
        joined(ts.take(k + 1), gaps) == joined(ts.take(k), gaps) + ts[k] + gaps[k + 1],
{
    assert(ts.take(k + 1).drop_last() =~= ts.take(k));
    assert(ts.take(k + 1).last() == ts[k]);
}

proof fn lemma_joined_first(ts: Seq<Seq<char>>, gaps: Seq<Seq<char>>)
    requires
        gaps.len() >= 1,
    ensures
        joined(ts.take(0), gaps) == gaps[0],
{
    assert(ts.take(0).len() == 0);
}

/// Whitespace characters are encoded as the bytes of the same value, all of
/// them whitespace bytes.
proof fn lemma_encode_ws(g: Seq<char>)
    requires
        all_ws(g),
    ensures
        encode_utf8(g).len() == g.len(),
        forall|i: int| 0 <= i < g.len() ==> is_ws_byte(#[trigger] encode_utf8(g)[i]),
    decreases g.len(),
{
    if g.len() > 0 {
        let c = g[0] as u32;
        assert(is_ws(g[0]));
        assert(c == 9 || c == 10 || c == 13 || c == 32);
        assert((c & 0x7F) == c) by (bit_vector)
            requires
                c <= 0x7F,
        ;
        assert forall|i: int| 0 <= i < g.drop_first().len() implies is_ws(
            #[trigger] g.drop_first()[i],
        ) by {
            assert(g.drop_first()[i] == g[i + 1]);
        }
        lemma_encode_ws(g.drop_first());
        let e = encode_utf8(g);
        assert(e == encode_scalar(c) + encode_utf8(g.drop_first()));
        assert forall|i: int| 0 <= i < g.len() implies is_ws_byte(#[trigger] e[i]) by {
            if i > 0 {
                assert(e[i] == encode_utf8(g.drop_first())[i - 1]);
            }
        }
    }
}

/// The first byte of a character that is not whitespace is not a
/// whitespace byte.
proof fn lemma_lead_byte_not_ws(c: char)
    requires
        !is_ws(c),
    ensures
        !is_ws_byte(encode_scalar(c as u32)[0]),
{
    let u = c as u32;
    vstd::utf8::char_is_scalar(c);
    if u <= 0x7F {
        assert((u & 0x7F) == u) by (bit_vector)
            requires
                u <= 0x7F,
        ;
    } else if u <= 0x7FF {
        assert((0xC0 | ((u >> 6) & 0x1F) as u8) >= 0xC0) by (bit_vector);
    } else if u <= 0xFFFF {
        assert((0xE0 | ((u >> 12) & 0x0F) as u8) >= 0xE0) by (bit_vector);
    } else {
        assert((0xF0 | ((u >> 18) & 0x7) as u8) >= 0xF0) by (bit_vector);
    }
}

/// Skipping whitespace bytes over a run of them stops where it ends.
proof fn lemma_skip_ws_bytes_run(buf: Seq<u8>, a: int, b: int)
    requires
        0 <= a <= b <= buf.len(),
        forall|i: int| a <= i < b ==> is_ws_byte(#[trigger] buf[i]),
        b == buf.len() || !is_ws_byte(buf[b]),
    ensures
        skip_ws_bytes(buf, a) == b,
    decreases b - a,
{
    if a < b {
        lemma_skip_ws_bytes_run(buf, a + 1, b);
    }
}

// ---------------------------------------------------------------------------
// Reading a value does not depend on the text before it.

proof fn lemma_skip_ws_shift(w: Seq<char>, y: Seq<char>, i: int)
    requires
        0 <= i <= y.len(),
    ensures
        skip_ws(w + y, w.len() + i) == w.len() + skip_ws(y, i),
    decreases y.len() - i,
{
    if i < y.len() {
        assert((w + y)[w.len() + i] == y[i]);
        if is_ws(y[i]) {
            lemma_skip_ws_shift(w, y, i + 1);
        }
    }
}

proof fn lemma_skip_digits_shift2(w: Seq<char>, y: Seq<char>, i: int)
    requires
        0 <= i <= y.len(),
    ensures
        skip_digits(w + y, w.len() + i) == w.len() + skip_digits(y, i),
    decreases y.len() - i,
{
    if i < y.len() {
        assert((w + y)[w.len() + i] == y[i]);
        if is_digit(y[i]) {
            lemma_skip_digits_shift2(w, y, i + 1);
        }
    }
}

proof fn lemma_scan_number_shift2(w: Seq<char>, y: Seq<char>, i: int)
    requires
        0 <= i <= y.len(),
    ensures
        scan_number(w + y, w.len() + i) == (match scan_number(y, i) {
            Ok(e) => Ok::<int, int>(e + w.len()),
            Err(p) => Err::<int, int>(p + w.len()),
        }),
{
    let t = w + y;
    let d = w.len() as int;
    assert forall|k: int| 0 <= k < y.len() implies #[trigger] t[d + k] == y[k] by {}
    let p0 = if 0 <= i < y.len() && y[i] == '-' { i + 1 } else { i };
    if 0 <= p0 < y.len() && is_digit(y[p0]) {
        crate::parser::lemma_skip_digits(y, p0);
        lemma_skip_digits_shift2(w, y, p0);
        let p1 = if y[p0] == '0' { p0 + 1 } else { skip_digits(y, p0) };
        let frac = p1 < y.len() && y[p1] == '.';
        if frac && p1 + 1 <= y.len() {
            crate::parser::lemma_skip_digits(y, p1 + 1);
            lemma_skip_digits_shift2(w, y, p1 + 1);
        }
        let p2 = if frac { skip_digits(y, p1 + 1) } else { p1 };
        if p2 < y.len() && (y[p2] == 'e' || y[p2] == 'E') {
            let q = if p2 + 1 < y.len() && (y[p2 + 1] == '+' || y[p2 + 1] == '-') {
                p2 + 2
            } else {
                p2 + 1
            };
            if q <= y.len() {
                crate::parser::lemma_skip_digits(y, q);
                lemma_skip_digits_shift2(w, y, q);
            }
        }
    }
}

proof fn lemma_literal_shift(w: Seq<char>, y: Seq<char>, i: int, lit: Literal, k: int)
    requires
        0 <= i,
        0 <= k <= lit.word().len(),
        parse_literal(w + y, w.len() + i, lit, k) is Ok,
    ensures
        parse_literal(y, i, lit, k) == Ok::<int, crate::grammar::SpecError>(
            parse_literal(w + y, w.len() + i, lit, k)->Ok_0 - w.len(),
        ),
    decreases lit.word().len() - k,
{
    if k < lit.word().len() {
        assert((w + y)[w.len() + i + k] == y[i + k]);
        lemma_literal_shift(w, y, i, lit, k + 1);
    }
}

proof fn lemma_hex_run_shift(w: Seq<char>, y: Seq<char>, p: int, n: nat, acc: int)
    requires
        0 <= p,
        hex_run(w + y, w.len() + p, n, acc) is Ok,
    ensures
        hex_run(y, p, n, acc) == hex_run(w + y, w.len() + p, n, acc),
    decreases n,
{
    if n > 0 {
        assert((w + y)[w.len() + p] == y[p]);
        match hex_digit(y[p]) {
            None => {},
            Some(h) => lemma_hex_run_shift(w, y, p + 1, (n - 1) as nat, acc * 16 + h),
        }
    }
}

proof fn lemma_escape_shift(w: Seq<char>, y: Seq<char>, i: int)
    requires
        0 <= i,
        parse_escape(w + y, w.len() + i) is Ok,
    ensures
        parse_escape(y, i) == Ok::<(char, int), crate::grammar::SpecError>(
            (
                parse_escape(w + y, w.len() + i)->Ok_0.0,
                parse_escape(w + y, w.len() + i)->Ok_0.1 - w.len(),
            ),
        ),
{
    let t = w + y;
    let d = w.len() as int;
    let j = i + 1;
    assert(t[d + j] == y[j]);
    if simple_escape(y[j]) is None {
        lemma_hex_run_shift(w, y, j + 1, 4, 0);
        let u = hex_run(y, j + 1, 4, 0)->Ok_0;
        if 0xD800 <= u < 0xDC00 {
            let k = j + 5;
            assert(t[d + k] == y[k]);
            assert(t[d + k + 1] == y[k + 1]);
            lemma_hex_run_shift(w, y, k + 2, 4, 0);
        }
    }
}

proof fn lemma_string_shift(w: Seq<char>, y: Seq<char>, i: int, acc: Seq<char>)
    requires
        0 <= i,
        string_body(w + y, w.len() + i, acc) is Ok,
    ensures
        string_body(y, i, acc) == Ok::<(Seq<char>, int), crate::grammar::SpecError>(
            (
                string_body(w + y, w.len() + i, acc)->Ok_0.0,
                string_body(w + y, w.len() + i, acc)->Ok_0.1 - w.len(),
            ),
        ),
    decreases y.len() - i,
{
    let t = w + y;
    assert(t[w.len() + i] == y[i]);
    if y[i] != '"' {
        if y[i] == '\\' {
            lemma_escape_shift(w, y, i);
            let (c, j) = parse_escape(y, i)->Ok_0;
            assert(i < j);
            lemma_string_shift(w, y, j, acc.push(c));
        } else {
            lemma_string_shift(w, y, i + 1, acc.push(y[i]));
        }
    }
}

/// Reading a value at a position gives the same value whatever text comes
/// before, and an end shifted by the length of that text.
pub proof fn lemma_value_shift(w: Seq<char>, y: Seq<char>, i: int)
    requires
        0 <= i <= y.len(),
        parse_value(w + y, w.len() + i) is Ok,
    ensures
        parse_value(y, i) == Ok::<(JsonValue, int), crate::grammar::SpecError>(
            (
                parse_value(w + y, w.len() + i)->Ok_0.0,
                parse_value(w + y, w.len() + i)->Ok_0.1 - w.len(),
            ),
        ),
    decreases y.len() - i, 0int,
{
    let t = w + y;
    let d = w.len() as int;
    lemma_skip_ws(y, i);
    lemma_skip_ws_shift(w, y, i);
    let j = skip_ws(y, i);
    assert(t[d + j] == y[j]);
    let c = y[j];
    if c == 'n' {
        lemma_literal_shift(w, y, j, Literal::Null, 0);
    } else if c == 't' {
        lemma_literal_shift(w, y, j, Literal::True, 0);
    } else if c == 'f' {
        lemma_literal_shift(w, y, j, Literal::False, 0);
    } else if c == '-' || is_digit(c) {
        lemma_scan_number_shift2(w, y, j);
        let e = scan_number(y, j)->Ok_0;
        crate::laws::lemma_parse_number_wf(y, j);
        assert(t.subrange(d + j, d + e) =~= y.subrange(j, e));
    } else if c == '"' {
        lemma_string_shift(w, y, j + 1, seq![]);
    } else if c == '[' {
        lemma_items_shift(w, y, j + 1, true, seq![]);
    } else {
        lemma_members_shift(w, y, j + 1, true, seq![]);
    }
}

proof fn lemma_items_shift(w: Seq<char>, y: Seq<char>, i: int, first: bool, acc: Seq<JsonValue>)
    requires
        0 <= i <= y.len(),
        parse_items(w + y, w.len() + i, first, acc) is Ok,
    ensures
        parse_items(y, i, first, acc) == Ok::<(JsonValue, int), crate::grammar::SpecError>(
            (
                parse_items(w + y, w.len() + i, first, acc)->Ok_0.0,
                parse_items(w + y, w.len() + i, first, acc)->Ok_0.1 - w.len(),
            ),
        ),
    decreases y.len() - i, 1int,
{
    let t = w + y;
    let d = w.len() as int;
    lemma_skip_ws(y, i);
    lemma_skip_ws_shift(w, y, i);
    let j = skip_ws(y, i);
    if j < y.len() {
        assert(t[d + j] == y[j]);
    }
    if !(j < y.len() && y[j] == ']') {
        if !first && j < y.len() {
            lemma_skip_ws(y, j + 1);
            lemma_skip_ws_shift(w, y, j + 1);
        }
        let k = next_element(y, j, first)->Ok_0;
        lemma_value_shift(w, y, k);
        let (v, m) = parse_value(y, k)->Ok_0;
        lemma_parse_value_end(y, k);
        lemma_items_shift(w, y, m, false, acc.push(v));
    }
}

#[verifier::spinoff_prover]
#[verifier::rlimit(60)]
proof fn lemma_members_shift(
    w: Seq<char>,
    y: Seq<char>,
    i: int,
    first: bool,
    acc: Seq<(Seq<char>, JsonValue)>,
)
    requires
        0 <= i <= y.len(),
        parse_members(w + y, w.len() + i, first, acc) is Ok,
    ensures
        parse_members(y, i, first, acc) == Ok::<(JsonValue, int), crate::grammar::SpecError>(
            (
                parse_members(w + y, w.len() + i, first, acc)->Ok_0.0,
                parse_members(w + y, w.len() + i, first, acc)->Ok_0.1 - w.len(),
            ),
        ),
    decreases y.len() - i, 1int,
{
    let t = w + y;
    let d = w.len() as int;
    lemma_skip_ws(y, i);
    lemma_skip_ws_shift(w, y, i);
    let j = skip_ws(y, i);
    if j < y.len() {
        assert(t[d + j] == y[j]);
    }
    if !(j < y.len() && y[j] == '}') {
        if !first && j < y.len() {
            lemma_skip_ws(y, j + 1);
            lemma_skip_ws_shift(w, y, j + 1);
        }
        let k = next_member(y, j, first)->Ok_0;
        assert(t[d + k] == y[k]);
        lemma_string_shift(w, y, k + 1, seq![]);
        let (key, m) = string_body(y, k + 1, seq![])->Ok_0;
        lemma_string_end(y, k + 1, seq![]);
        lemma_skip_ws(y, m);
        lemma_skip_ws_shift(w, y, m);
        let q = skip_ws(y, m);
        assert(t[d + q] == y[q]);
        lemma_value_shift(w, y, q + 1);
        let (v, r) = parse_value(y, q + 1)->Ok_0;
        lemma_parse_value_end(y, q + 1);
        lemma_members_shift(w, y, r, false, map_insert(acc, key, v));
    }
}

// ---------------------------------------------------------------------------
// The stream over texts separated by whitespace.

/// A document's value ends before only whitespace, and its text starts
/// with whitespace up to where the value starts.
proof fn lemma_document_parts(t: Seq<char>)
    requires
        parse_document(t) is Ok,
    ensures
        0 <= skip_ws(t, 0) < value_end(t) <= t.len(),
        parse_value(t, 0) == Ok::<(JsonValue, int), crate::grammar::SpecError>(
            (parse_document(t)->Ok_0, value_end(t)),
        ),
        all_ws(t.skip(value_end(t))),
        all_ws(t.take(skip_ws(t, 0))),
        !is_ws(t[skip_ws(t, 0)]),
{
    reveal(value_end);
    let e = value_end(t);
    lemma_parse_value_end(t, 0);
    lemma_skip_ws(t, e);
    lemma_skip_ws(t, 0);
    let j = skip_ws(t, 0);
    assert(j < t.len());
    assert forall|i: int| 0 <= i < t.skip(e).len() implies is_ws(#[trigger] t.skip(e)[i]) by {
        assert(t.skip(e)[i] == t[e + i]);
    }
    assert forall|i: int| 0 <= i < t.take(j).len() implies is_ws(#[trigger] t.take(j)[i]) by {
        assert(t.take(j)[i] == t[i]);
    }
    if e <= j {
        lemma_literal_end(t, j, Literal::Null, 0);
    }
}

/// Reading a value from `i` is reading it from where the whitespace after
/// `i` ends.
proof fn lemma_value_from_skip(s: Seq<char>, i: int)
    requires
        0 <= i <= s.len(),
    ensures
        parse_value(s, i) == parse_value(s, skip_ws(s, i)),
{
    lemma_skip_ws(s, i);
    let j = skip_ws(s, i);
    lemma_skip_ws(s, j);
    assert(skip_ws(s, j) == j);
}

proof fn lemma_all_ws_concat(a: Seq<char>, b: Seq<char>)
    requires
        all_ws(a),
        all_ws(b),
    ensures
        all_ws(a + b),
{
    assert forall|i: int| 0 <= i < (a + b).len() implies is_ws(#[trigger] (a + b)[i]) by {
        if i < a.len() {
            assert((a + b)[i] == a[i]);
        } else {
            assert((a + b)[i] == b[i - a.len()]);
        }
    }
}

/// The joined texts up to gap `k`: the text before the stream's stop after
/// `k` steps, what follows that value in its text, and the gap.
proof fn lemma_joined_to_gap(ts: Seq<Seq<char>>, gaps: Seq<Seq<char>>, k: int)
    requires
        gaps.len() == ts.len() + 1,
        0 <= k <= ts.len(),
        k > 0 ==> 0 <= value_end(ts[k - 1]) <= ts[k - 1].len(),
    ensures
        joined(ts.take(k), gaps) == before_stop(ts, gaps, k) + after_value(ts, k) + gaps[k],
{
    if k == 0 {
        lemma_joined_first(ts, gaps);
        assert(joined(ts.take(k), gaps) =~= before_stop(ts, gaps, k) + after_value(ts, k)
            + gaps[k]);
    } else {
        lemma_joined_step(ts, gaps, k - 1);
        let t = ts[k - 1];
        let e = value_end(t);
        assert(t =~= t.take(e) + t.skip(e));
        assert(joined(ts.take(k), gaps) =~= before_stop(ts, gaps, k) + after_value(ts, k)
            + gaps[k]);
    }
}

/// How the joined text lies around step `k`: the text before the stream's
/// stop, the whitespace it passes over, and the rest from the start of the
/// value of text `k` on.
proof fn lemma_layout(ts: Seq<Seq<char>>, gaps: Seq<Seq<char>>, k: int)
    requires
        gaps.len() == ts.len() + 1,
        0 <= k <= ts.len(),
        k > 0 ==> 0 <= value_end(ts[k - 1]) <= ts[k - 1].len(),
        k < ts.len() ==> 0 <= skip_ws(ts[k], 0) <= ts[k].len(),
    ensures
        joined(ts, gaps) == before_stop(ts, gaps, k) + ws_before(ts, gaps, k) + rest_from(
            ts,
            gaps,
            k,
        ),
{
    lemma_joined_split(ts, gaps, k);
    lemma_joined_to_gap(ts, gaps, k);
    if k < ts.len() {
        let t = ts[k];
        let l = skip_ws(t, 0);
        assert(t =~= t.take(l) + t.skip(l));
        assert(joined_from(ts, gaps, k) == t + gaps[k + 1] + joined_from(ts, gaps, k + 1));
    } else {
        assert(joined_from(ts, gaps, k) =~= Seq::<char>::empty());
    }
    assert(joined(ts, gaps) =~= before_stop(ts, gaps, k) + ws_before(ts, gaps, k) + rest_from(
        ts,
        gaps,
        k,
    ));
}

/// Skipping whitespace bytes from the end of `b` over the bytes of the
/// whitespace `w` stops at the start of `r`, which does not start with
/// whitespace.
proof fn lemma_skip_part(b: Seq<char>, w: Seq<char>, r: Seq<char>)
    requires
        all_ws(w),
        r.len() > 0 ==> !is_ws(r[0]),
    ensures
        skip_ws_bytes(encode_utf8(b + w + r), encode_utf8(b).len() as int) == encode_utf8(b).len()
            + encode_utf8(w).len(),
        encode_utf8(b + w + r) == encode_utf8(b) + encode_utf8(w) + encode_utf8(r),
{
    let buf = encode_utf8(b + w + r);
    lemma_encode_ws(w);
    lemma_encode_concat(b + w, r);
    lemma_encode_concat(b, w);
    let a = encode_utf8(b).len() as int;
    let p = a + encode_utf8(w).len();
    assert forall|i: int| a <= i < p implies is_ws_byte(#[trigger] buf[i]) by {
        assert(buf[i] == encode_utf8(w)[i - a]);
    }
    if r.len() > 0 {
        assert(r =~= seq![r[0]] + r.drop_first());
        lemma_encode_concat(seq![r[0]], r.drop_first());
        assert(seq![r[0]].drop_first() =~= Seq::<char>::empty());
        assert(encode_utf8(seq![r[0]]) =~= encode_scalar(r[0] as u32));
        lemma_lead_byte_not_ws(r[0]);
        assert(buf[p] == encode_utf8(r)[0]);
    } else {
        assert(encode_utf8(r) =~= Seq::<u8>::empty());
    }
    lemma_skip_ws_bytes_run(buf, a, p);
}

/// Reading a value from the start of a document's value, with text after
/// the document that cannot continue the value, gives the document's value
/// and its end.
proof fn lemma_value_part(t: Seq<char>, x: Seq<char>)
    requires
        parse_document(t) is Ok,
        x.len() == 0 || is_ws(x[0]),
    ensures
        parse_value(t.skip(skip_ws(t, 0)) + x, 0) == Ok::<(JsonValue, int), crate::grammar::SpecError>(
            (parse_document(t)->Ok_0, value_end(t) - skip_ws(t, 0)),
        ),
{
    lemma_document_parts(t);
    let l = skip_ws(t, 0);
    let y = t.skip(l) + x;
    lemma_value_ext(t, x, 0);
    let tx = t + x;
    assert(tx =~= t.take(l) + y);
    lemma_skip_ws_ext(t, x, 0);
    lemma_value_from_skip(tx, 0);
    lemma_value_shift(t.take(l), y, 0);
}

/// One step of the stream over joined texts, from where it stands after
/// `k` steps.
#[verifier::spinoff_prover]
#[verifier::rlimit(80)]
proof fn lemma_text_step(ts: Seq<Seq<char>>, gaps: Seq<Seq<char>>, k: int)
    requires
        gaps.len() == ts.len() + 1,
        0 <= k < ts.len(),
        parse_document(ts[k]) is Ok,
        k > 0 ==> parse_document(ts[k - 1]) is Ok,
        all_ws(gaps[k]),
        all_ws(gaps[k + 1]),
        k + 1 < ts.len() ==> gaps[k + 1].len() > 0,
    ensures
        stream_step(encode_utf8(joined(ts, gaps)), text_stop(ts, gaps, k)) == (
            Some(Ok::<JsonValue, (Seq<char>, usize, usize)>(parse_document(ts[k])->Ok_0)),
            text_stop(ts, gaps, k + 1),
        ),
{
    let t = ts[k];
    let l = skip_ws(t, 0);
    let e = value_end(t);
    lemma_document_parts(t);
    if k > 0 {
        lemma_document_parts(ts[k - 1]);
    }
    let b = before_stop(ts, gaps, k);
    let w = ws_before(ts, gaps, k);
    let x = gaps[k + 1] + joined_from(ts, gaps, k + 1);
    let y = rest_from(ts, gaps, k);
    assert(y == t.skip(l) + x);
    lemma_layout(ts, gaps, k);
    assert(all_ws(Seq::<char>::empty()));
    lemma_all_ws_concat(after_value(ts, k), gaps[k]);
    lemma_all_ws_concat(after_value(ts, k) + gaps[k], lead_ws(ts, k));
    assert(y[0] == t[l]);
    lemma_skip_part(b, w, y);
    let buf = encode_utf8(joined(ts, gaps));
    let p = (encode_utf8(b).len() + encode_utf8(w).len()) as int;
    assert(buf.subrange(p, buf.len() as int) =~= encode_utf8(y));
    vstd::utf8::encode_utf8_valid_utf8(y);
    vstd::utf8::encode_utf8_decode_utf8(y);
    if k + 1 < ts.len() {
        assert(x[0] == gaps[k + 1][0]);
    } else {
        assert(joined_from(ts, gaps, k + 1) =~= Seq::<char>::empty());
        assert(x =~= gaps[k + 1]);
    }
    lemma_value_part(t, x);
    lemma_bytes_before(y, e - l);
    assert(y.take(e - l) =~= t.subrange(l, e));
    lemma_joined_step(ts, gaps, k);
    lemma_joined_to_gap(ts, gaps, k);
    assert(t.take(e) =~= t.take(l) + t.subrange(l, e));
    assert(before_stop(ts, gaps, k + 1) =~= (b + w) + t.subrange(l, e));
    lemma_encode_concat(b + w, t.subrange(l, e));
    lemma_encode_concat(b, w);
}

/// The stream over joined texts, after the last of them: only whitespace
/// is left.
proof fn lemma_text_end(ts: Seq<Seq<char>>, gaps: Seq<Seq<char>>)
    requires
        gaps.len() == ts.len() + 1,
        ts.len() > 0 ==> parse_document(ts[ts.len() - 1]) is Ok,
        all_ws(gaps[ts.len() as int]),
    ensures
        stream_step(encode_utf8(joined(ts, gaps)), text_stop(ts, gaps, ts.len() as int)).0 is None,
{
    let k = ts.len() as int;
    if k > 0 {
        lemma_document_parts(ts[k - 1]);
    }
    let b = before_stop(ts, gaps, k);
    let w = ws_before(ts, gaps, k);
    lemma_layout(ts, gaps, k);
    assert(all_ws(Seq::<char>::empty()));
    lemma_all_ws_concat(after_value(ts, k), gaps[k]);
    lemma_all_ws_concat(after_value(ts, k) + gaps[k], lead_ws(ts, k));
    lemma_skip_part(b, w, Seq::<char>::empty());
    assert(b + w + Seq::<char>::empty() =~= b + w);
    lemma_encode_concat(b, w);
}

/// A stream over texts that each read as one JSON document, separated by
/// whitespace (at least some between two texts), yields the documents'
/// values in order, and ends after the last.
pub proof fn lemma_stream_of_texts(ts: Seq<Seq<char>>, gaps: Seq<Seq<char>>, k: int)
    requires
        gaps.len() == ts.len() + 1,
        forall|i: int| 0 <= i < ts.len() ==> parse_document(#[trigger] ts[i]) is Ok,
        forall|i: int| 0 <= i < gaps.len() ==> all_ws(#[trigger] gaps[i]),
        forall|i: int| 0 < i < ts.len() ==> (#[trigger] gaps[i]).len() > 0,
        0 <= k <= ts.len(),
    ensures
        k < ts.len() ==> stream_step(encode_utf8(joined(ts, gaps)), text_stop(ts, gaps, k)) == (
            Some(Ok::<JsonValue, (Seq<char>, usize, usize)>(parse_document(ts[k])->Ok_0)),
            text_stop(ts, gaps, k + 1),
        ),
        k == ts.len() ==> stream_step(encode_utf8(joined(ts, gaps)), text_stop(ts, gaps, k)).0
            is None,
{
    assert(all_ws(gaps[k]));
    if k < ts.len() {
        assert(parse_document(ts[k]) is Ok);
        assert(all_ws(gaps[k + 1]));
        if k > 0 {
            assert(parse_document(ts[k - 1]) is Ok);
        }
        if k + 1 < ts.len() {
            assert(gaps[k + 1].len() > 0);
        }
        lemma_text_step(ts, gaps, k);
    } else {
        if k > 0 {
            assert(parse_document(ts[k - 1]) is Ok);
        }
        lemma_text_end(ts, gaps);
    }
}

} // verus!
