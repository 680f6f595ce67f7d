//! Laws that pin down the order of object keys, and that tie reading a
//! container step by step to reading it whole.

use vstd::prelude::*;
use crate::error::ErrorCode;
use crate::grammar::{
    array_next_step, close_step, colon_step, enum_open_step, err_at, lemma_skip_ws, next_member,
    object_key_step, parse_enum, parse_items, parse_members, parse_value, skip_ws, string_body,
};
use crate::laws::lemma_string_end;
use crate::map::map_insert;
use crate::value::{bytes_lt, JsonValue};

verus! {

/// The order of object keys is the lexicographic order of their bytes: `a`
/// sorts before `b` exactly when `a` is a proper prefix of `b`, or at the
/// first byte where they differ `a`'s byte is the smaller, whatever their
/// lengths.
pub proof fn lemma_key_order_lexicographic(a: Seq<u8>, b: Seq<u8>)
    ensures
        bytes_lt(a, b) <==> ((a.len() < b.len() && b.take(a.len() as int) == a)
            || exists|i: int|
            0 <= i < a.len() && i < b.len() && a.take(i) == b.take(i) && #[trigger] a[i]
                < b[i]),
    decreases a.len(),
{
    let lex = (a.len() < b.len() && b.take(a.len() as int) == a) || exists|i: int|
        0 <= i < a.len() && i < b.len() && a.take(i) == b.take(i) && #[trigger] a[i] < b[i];
    if a.len() == 0 {
        assert(b.take(0) =~= a);
        if exists|i: int|
            0 <= i < a.len() && i < b.len() && a.take(i) == b.take(i) && #[trigger] a[i] < b[i] {
            let i = choose|i: int|
                0 <= i < a.len() && i < b.len() && a.take(i) == b.take(i) && #[trigger] a[i] < b[i];
        }
    } else if b.len() == 0 {
        if exists|i: int|
            0 <= i < a.len() && i < b.len() && a.take(i) == b.take(i) && #[trigger] a[i] < b[i] {
            let i = choose|i: int|
                0 <= i < a.len() && i < b.len() && a.take(i) == b.take(i) && #[trigger] a[i] < b[i];
        }
    } else if a[0] != b[0] {
        if a[0] < b[0] {
            assert(a.take(0) =~= b.take(0));
            assert(0 < a.len() && 0 < b.len() && a.take(0) == b.take(0) && a[0] < b[0]);
        } else {
            if a.len() < b.len() && b.take(a.len() as int) == a {
                assert(b.take(a.len() as int)[0] == b[0]);
            }
            if exists|i: int|
                0 <= i < a.len() && i < b.len() && a.take(i) == b.take(i) && #[trigger] a[i] < b[i] {
                let i = choose|i: int|
                    0 <= i < a.len() && i < b.len() && a.take(i) == b.take(i) && #[trigger] a[i]
                        < b[i];
                if i > 0 {
                    assert(a.take(i)[0] == b.take(i)[0]);
                }
            }
        }
    } else {
        let a1 = a.drop_first();
        let b1 = b.drop_first();
        lemma_key_order_lexicographic(a1, b1);
        // Prefix form.
        if a.len() < b.len() && b.take(a.len() as int) == a {
            assert(b1.take(a1.len() as int) =~= a1) by {
                assert forall|k: int| 0 <= k < a1.len() implies #[trigger] b1.take(a1.len() as int)[k]
                    == a1[k] by {
                    assert(b.take(a.len() as int)[k + 1] == a[k + 1]);
                }
            }
        }
        if a1.len() < b1.len() && b1.take(a1.len() as int) == a1 {
            assert(b.take(a.len() as int) =~= a) by {
                assert forall|k: int| 0 <= k < a.len() implies #[trigger] b.take(a.len() as int)[k]
                    == a[k] by {
                    if k > 0 {
                        assert(b1.take(a1.len() as int)[k - 1] == a1[k - 1]);
                    }
                }
            }
        }
        // First difference form.
        if exists|i: int|
            0 <= i < a.len() && i < b.len() && a.take(i) == b.take(i) && #[trigger] a[i] < b[i] {
            let i = choose|i: int|
                0 <= i < a.len() && i < b.len() && a.take(i) == b.take(i) && #[trigger] a[i] < b[i];
            assert(i > 0);
            assert(a1.take(i - 1) =~= b1.take(i - 1)) by {
                assert forall|k: int| 0 <= k < i - 1 implies #[trigger] a1.take(i - 1)[k] == b1.take(
                    i - 1,
                )[k] by {
                    assert(a.take(i)[k + 1] == b.take(i)[k + 1]);
                }
            }
            assert(a1[i - 1] < b1[i - 1]);
        }
        if exists|i: int|
            0 <= i < a1.len() && i < b1.len() && a1.take(i) == b1.take(i) && #[trigger] a1[i]
                < b1[i] {
            let i = choose|i: int|
                0 <= i < a1.len() && i < b1.len() && a1.take(i) == b1.take(i) && #[trigger] a1[i]
                    < b1[i];
            assert(a.take(i + 1) =~= b.take(i + 1)) by {
                assert forall|k: int| 0 <= k < i + 1 implies #[trigger] a.take(i + 1)[k] == b.take(i + 1)[k] by {
                    if k > 0 {
                        assert(a1.take(i)[k - 1] == b1.take(i)[k - 1]);
                    }
                }
            }
            assert(a[i + 1] < b[i + 1]);
        }
    }
}

/// Reading an array's elements step by step agrees with reading the array
/// whole: the step says whether an element follows and where, and the
/// array is the elements so read, closed by `]`.
pub proof fn lemma_array_steps(s: Seq<char>, i: int, first: bool, acc: Seq<JsonValue>)
    requires
        0 <= i <= s.len(),
    ensures
        parse_items(s, i, first, acc) == (match array_next_step(s, i, first) {
            Err(x) => Err(x),
            Ok((false, j)) => match close_step(
                s,
                j,
                ']',
                ErrorCode::EofArray,
                ErrorCode::ExpectedArraySep,
            ) {
                Ok(e) => Ok((JsonValue::Array(acc), e)),
                Err(x) => Err(x),
            },
            Ok((true, k)) => match parse_value(s, k) {
                Err(x) => Err(x),
                Ok((v, m)) => if i < m <= s.len() {
                    parse_items(s, m, false, acc.push(v))
                } else {
                    Err(err_at(s, m, ErrorCode::EofArray))
                },
            },
        }),
{
    lemma_skip_ws(s, i);
    let j = skip_ws(s, i);
    if j < s.len() && s[j] == ']' {
        lemma_skip_ws(s, j);
        assert(skip_ws(s, j) == j);
    }
}

/// Reading an object's members step by step agrees with reading the object
/// whole: the step gives the next key, if any, then come the `:` and the
/// value, and the object is the members so read, closed by `}`.
pub proof fn lemma_object_steps(
    s: Seq<char>,
    i: int,
    first: bool,
    acc: Seq<(Seq<char>, JsonValue)>,
)
    requires
        0 <= i <= s.len(),
    ensures
        parse_members(s, i, first, acc) == (match object_key_step(s, i, first) {
            Err(x) => Err(x),
            Ok((None, j)) => match close_step(
                s,
                j,
                '}',
                ErrorCode::EofObject,
                ErrorCode::ExpectedObjectSep,
            ) {
                Ok(e) => Ok((JsonValue::Object(acc), e)),
                Err(x) => Err(x),
            },
            Ok((Some(key), m)) => match colon_step(s, m) {
                Err(x) => Err(x),
                Ok(q) => match parse_value(s, q) {
                    Err(x) => Err(x),
                    Ok((v, r)) => if i < r <= s.len() {
                        parse_members(s, r, false, map_insert(acc, key, v))
                    } else {
                        Err(err_at(s, r, ErrorCode::EofObject))
                    },
                },
            },
        }),
{
    lemma_skip_ws(s, i);
    let j = skip_ws(s, i);
    if j < s.len() && s[j] == '}' {
        lemma_skip_ws(s, j);
        assert(skip_ws(s, j) == j);
    } else if next_member(s, j, first) is Ok {
        let k = next_member(s, j, first)->Ok_0;
        if k < s.len() && s[k] == '"' && string_body(s, k + 1, seq![]) is Ok {
            lemma_string_end(s, k + 1, seq![]);
        }
    }
}

/// Reading an enum step by step agrees with reading it whole: the start
/// gives the variant's name and whether content follows; the content is a
/// value, closed by `}`.
pub proof fn lemma_enum_steps(s: Seq<char>, i: int)
    ensures
        parse_enum(s, i) == (match enum_open_step(s, i) {
            Err(x) => Err(x),
            Ok(((name, false), e)) => Ok(((name, None), e)),
            Ok(((name, true), q)) => match parse_value(s, q) {
                Err(x) => Err(x),
                Ok((v, r)) => match close_step(
                    s,
                    r,
                    '}',
                    ErrorCode::EofEnum,
                    ErrorCode::ExpectedEnumClose,
                ) {
                    Ok(t) => Ok(((name, Some(v)), t)),
                    Err(x) => Err(x),
                },
            },
        }),
{
}

} // verus!
