//! The JSON value tree and its mathematical view.

use vstd::prelude::*;
use vstd::utf8::*;
use crate::number::{Number, NumberView};

verus! {

/// The mathematical content of a [`Value`]: a JSON value whose strings are
/// character sequences and whose objects are sequences of key/value pairs.
pub enum JsonValue {
    Null,
    Bool(bool),
    Number(NumberView),
    Str(Seq<char>),
    Array(Seq<JsonValue>),
    Object(Seq<(Seq<char>, JsonValue)>),
}

/// Lexicographic order on byte sequences: `a` sorts strictly before `b`.
pub open spec fn bytes_lt(a: Seq<u8>, b: Seq<u8>) -> bool
    decreases a.len(),
{
    if a.len() == 0 {
        b.len() > 0
    } else if b.len() == 0 {
        false
    } else if a[0] != b[0] {
        a[0] < b[0]
    } else {
        bytes_lt(a.drop_first(), b.drop_first())
    }
}

/// The order of object keys: the order of their UTF-8 bytes, which is the
/// order of `String`'s `Ord`.
pub open spec fn key_lt(a: Seq<char>, b: Seq<char>) -> bool {
    bytes_lt(encode_utf8(a), encode_utf8(b))
}

/// The keys of `m` are in strictly increasing order, so no key occurs twice.
pub open spec fn keys_sorted<V>(m: Seq<(Seq<char>, V)>) -> bool {
    forall|i: int, j: int| 0 <= i < j < m.len() ==> key_lt(#[trigger] m[i].0, #[trigger] m[j].0)
}

impl JsonValue {
    /// The value is one that parsing can produce: every number is well
    /// formed and every object has strictly increasing keys.
    pub open spec fn wf(self) -> bool
        decreases self,
    {
        match self {
            JsonValue::Number(n) => n.wf(),
            JsonValue::Array(items) => forall|i: int|
                0 <= i < items.len() ==> (#[trigger] items[i]).wf(),
            JsonValue::Object(m) => keys_sorted(m) && forall|i: int|
                0 <= i < m.len() ==> (#[trigger] m[i]).1.wf(),
            _ => true,
        }
    }
}

/// An owned JSON object: a string-keyed map of [`Value`]s, iterating in
/// sorted key order.
#[derive(Debug, PartialEq, Default)]
pub struct JsonMap {
    pub(crate) entries: Vec<(String, Value)>,
}

/// A JSON value: one of the six kinds defined by RFC 8259 section 3.
#[derive(Debug, PartialEq)]
pub enum Value {
    /// The JSON `null` literal.
    Null,
    /// A JSON boolean, `true` or `false`.
    Bool(bool),
    /// A JSON number.
    Number(Number),
    /// A JSON string.
    String(String),
    /// A JSON array.
    Array(Vec<Value>),
    /// A JSON object.
    Object(JsonMap),
}

impl Value {
    /// The mathematical content of the value.
    pub open spec fn view(&self) -> JsonValue
        decreases self,
    {
        match self {
            Value::Null => JsonValue::Null,
            Value::Bool(b) => JsonValue::Bool(*b),
            Value::Number(n) => JsonValue::Number(n@),
            Value::String(s) => JsonValue::Str(s@),
            Value::Array(v) => JsonValue::Array(
                Seq::new(
                    v@.len(),
                    |i: int|
                        if 0 <= i < v@.len() {
                            v@[i].view()
                        } else {
                            JsonValue::Null
                        },
                ),
            ),
            Value::Object(m) => JsonValue::Object(m.view_entries()),
        }
    }
}

impl JsonMap {
    /// The entries of the map, in storage order, as key characters and
    /// value views.
    pub closed spec fn view_entries(&self) -> Seq<(Seq<char>, JsonValue)>
        decreases self,
    {
        Seq::new(
            self.entries@.len(),
            |i: int|
                if 0 <= i < self.entries@.len() {
                    (self.entries@[i].0@, self.entries@[i].1.view())
                } else {
                    (Seq::empty(), JsonValue::Null)
                },
        )
    }

    pub open spec fn view(&self) -> Seq<(Seq<char>, JsonValue)> {
        self.view_entries()
    }

    /// The view has one entry per stored entry, viewed in place.
    pub(crate) broadcast proof fn lemma_view(&self)
        ensures
            #[trigger] self.view_entries().len() == self.entries@.len(),
            forall|i: int|
                #![trigger self.view_entries()[i]]
                #![trigger self.entries@[i]]
                0 <= i < self.entries@.len() ==> self.view_entries()[i] == (
                    self.entries@[i].0@,
                    self.entries@[i].1@,
                ),
    {
    }

    /// The map's keys are in strictly increasing order.
    pub open spec fn wf(&self) -> bool {
        keys_sorted(self@)
    }
}

fn clone_value(v: &Value) -> (r: Value)
    ensures
        r@ == v@,
    decreases v,
{
    match v {
        Value::Null => Value::Null,
        Value::Bool(b) => Value::Bool(*b),
        Value::Number(n) => Value::Number(n.clone()),
        Value::String(s) => Value::String(s.clone()),
        Value::Array(items) => {
            let mut out: Vec<Value> = Vec::new();
            let mut i: usize = 0;
            while i < items.len()
                invariant
                    *v == Value::Array(*items),
                    i <= items@.len(),
                    out@.len() == i,
                    forall|k: int| 0 <= k < i ==> (#[trigger] out@[k])@ == items@[k]@,
                decreases items@.len() - i,
            {
                assert(decreases_to!(*v => (*v)->Array_0));
                assert(decreases_to!(*items => items@));
                assert(decreases_to!(items@ => items@[i as int]));
                out.push(clone_value(&items[i]));
                i = i + 1;
            }
            let r = Value::Array(out);
            assert(r@ == v@) by {
                assert(r@->Array_0 =~= v@->Array_0);
            }
            r
        },
        Value::Object(m) => Value::Object(clone_map(m)),
    }
}

fn clone_map(m: &JsonMap) -> (r: JsonMap)
    ensures
        r@ == m@,
    decreases m,
{
    let mut out: Vec<(String, Value)> = Vec::new();
    let mut i: usize = 0;
    while i < m.entries.len()
        invariant
            i <= m.entries@.len(),
            out@.len() == i,
            forall|k: int| 0 <= k < i ==> (#[trigger] out@[k]).0@ == m.entries@[k].0@
                && out@[k].1@ == m.entries@[k].1@,
        decreases m.entries@.len() - i,
    {
        assert(decreases_to!(m => m.entries));
        assert(decreases_to!(m.entries => m.entries@));
        assert(decreases_to!(m.entries@ => m.entries@[i as int]));
        assert(decreases_to!(m.entries@[i as int] => m.entries@[i as int].1));
        let k = m.entries[i].0.clone();
        let v = clone_value(&m.entries[i].1);
        out.push((k, v));
        i = i + 1;
    }
    let r = JsonMap { entries: out };
    assert(r@ =~= m@);
    r
}

impl Clone for Value {
    fn clone(&self) -> (r: Value)
        ensures
            r@ == self@,
    {
        clone_value(self)
    }
}

impl Clone for JsonMap {
    fn clone(&self) -> (r: JsonMap)
        ensures
            r@ == self@,
    {
        clone_map(self)
    }
}

impl Default for Value {
    /// Returns `Value::Null`.
    fn default() -> (r: Value)
        ensures
            r@ == JsonValue::Null,
    {
        Value::Null
    }
}

} // verus!
