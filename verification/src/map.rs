//! The operations of [`JsonMap`]: a map from string keys to values, kept as
//! a vector of entries in strictly increasing key order.

use vstd::prelude::*;
use vstd::utf8::*;
use crate::value::{bytes_lt, key_lt, keys_sorted, JsonMap, JsonValue, Value};

verus! {

broadcast use {vstd::string::group_string_axioms, JsonMap::lemma_view};

/// The value stored under `k`, from the first entry with that key.
pub open spec fn lookup<V>(m: Seq<(Seq<char>, V)>, k: Seq<char>) -> Option<V>
    decreases m.len(),
{
    if m.len() == 0 {
        None
    } else if m[0].0 == k {
        Some(m[0].1)
    } else {
        lookup(m.drop_first(), k)
    }
}

/// Inserts `(k, v)` into a key-sorted sequence: replaces the value of an
/// entry with key `k`, or adds a new entry at its place in key order.
pub open spec fn map_insert<V>(m: Seq<(Seq<char>, V)>, k: Seq<char>, v: V) -> Seq<(Seq<char>, V)>
    decreases m.len(),
{
    if m.len() == 0 {
        seq![(k, v)]
    } else if m[0].0 == k {
        m.update(0, (k, v))
    } else if key_lt(k, m[0].0) {
        seq![(k, v)] + m
    } else {
        seq![m[0]] + map_insert(m.drop_first(), k, v)
    }
}

/// Removes the first entry with key `k`, if any.
pub open spec fn map_remove<V>(m: Seq<(Seq<char>, V)>, k: Seq<char>) -> Seq<(Seq<char>, V)>
    decreases m.len(),
{
    if m.len() == 0 {
        m
    } else if m[0].0 == k {
        m.drop_first()
    } else {
        seq![m[0]] + map_remove(m.drop_first(), k)
    }
}

// ---------------------------------------------------------------------------
// The order on keys.

pub proof fn lemma_bytes_lt_irreflexive(a: Seq<u8>)
    ensures
        !bytes_lt(a, a),
    decreases a.len(),
{
    if a.len() > 0 {
        lemma_bytes_lt_irreflexive(a.drop_first());
    }
}

pub proof fn lemma_bytes_lt_asymmetric(a: Seq<u8>, b: Seq<u8>)
    ensures
        bytes_lt(a, b) ==> !bytes_lt(b, a),
    decreases a.len(),
{
    if a.len() > 0 && b.len() > 0 && a[0] == b[0] {
        lemma_bytes_lt_asymmetric(a.drop_first(), b.drop_first());
    }
}

pub proof fn lemma_bytes_lt_transitive(a: Seq<u8>, b: Seq<u8>, c: Seq<u8>)
    ensures
        bytes_lt(a, b) && bytes_lt(b, c) ==> bytes_lt(a, c),
    decreases a.len(),
{
    if a.len() > 0 && b.len() > 0 && c.len() > 0 && a[0] == b[0] && b[0] == c[0] {
        lemma_bytes_lt_transitive(a.drop_first(), b.drop_first(), c.drop_first());
    }
}

pub proof fn lemma_bytes_lt_total(a: Seq<u8>, b: Seq<u8>)
    ensures
        a != b ==> bytes_lt(a, b) || bytes_lt(b, a),
    decreases a.len(),
{
    if a.len() > 0 && b.len() > 0 && a[0] == b[0] {
        lemma_bytes_lt_total(a.drop_first(), b.drop_first());
        if a.drop_first() == b.drop_first() {
            assert(a =~= seq![a[0]] + a.drop_first());
            assert(b =~= seq![b[0]] + b.drop_first());
        }
    } else if a.len() == 0 && b.len() == 0 {
        assert(a =~= b);
    }
}

/// Comparing after a common prefix.
pub proof fn lemma_bytes_lt_skip(a: Seq<u8>, b: Seq<u8>, i: int)
    requires
        0 <= i <= a.len(),
        i <= b.len(),
        a.take(i) == b.take(i),
    ensures
        bytes_lt(a, b) == bytes_lt(a.skip(i), b.skip(i)),
    decreases i,
{
    if i > 0 {
        assert(a[0] == a.take(i)[0]);
        assert(b[0] == b.take(i)[0]);
        assert(a.drop_first().take(i - 1) =~= a.take(i).drop_first());
        assert(b.drop_first().take(i - 1) =~= b.take(i).drop_first());
        lemma_bytes_lt_skip(a.drop_first(), b.drop_first(), i - 1);
        assert(a.drop_first().skip(i - 1) =~= a.skip(i));
        assert(b.drop_first().skip(i - 1) =~= b.skip(i));
    } else {
        assert(a.skip(0) =~= a);
        assert(b.skip(0) =~= b);
    }
}

/// Distinct keys have distinct encodings.
pub proof fn lemma_encode_injective(a: Seq<char>, b: Seq<char>)
    ensures
        encode_utf8(a) == encode_utf8(b) ==> a == b,
{
    encode_utf8_decode_utf8(a);
    encode_utf8_decode_utf8(b);
}

/// `key_lt` is a strict total order.
pub proof fn lemma_key_order(a: Seq<char>, b: Seq<char>, c: Seq<char>)
    ensures
        !key_lt(a, a),
        key_lt(a, b) ==> !key_lt(b, a),
        key_lt(a, b) && key_lt(b, c) ==> key_lt(a, c),
        a != b ==> key_lt(a, b) || key_lt(b, a),
{
    lemma_bytes_lt_irreflexive(encode_utf8(a));
    lemma_bytes_lt_asymmetric(encode_utf8(a), encode_utf8(b));
    lemma_bytes_lt_transitive(encode_utf8(a), encode_utf8(b), encode_utf8(c));
    lemma_bytes_lt_total(encode_utf8(a), encode_utf8(b));
    lemma_encode_injective(a, b);
}

pub broadcast proof fn lemma_key_order_auto(a: Seq<char>, b: Seq<char>, c: Seq<char>)
    ensures
        !key_lt(a, a),
        #[trigger] key_lt(a, b) ==> !key_lt(b, a),
        key_lt(a, b) && #[trigger] key_lt(b, c) ==> key_lt(a, c),
{
    lemma_key_order(a, b, c);
}

// ---------------------------------------------------------------------------
// Lemmas on lookups and updates of sorted entries.

/// In a sorted sequence, the entries before index `i` have keys below
/// `k`, and the entry at `i` (if any) does not: the first form of the
/// position where `k` belongs.
pub open spec fn is_position<V>(m: Seq<(Seq<char>, V)>, k: Seq<char>, i: int) -> bool {
    &&& 0 <= i <= m.len()
    &&& forall|j: int| 0 <= j < i ==> key_lt(#[trigger] m[j].0, k)
    &&& i < m.len() ==> !key_lt(m[i].0, k)
}

proof fn lemma_lookup_absent<V>(m: Seq<(Seq<char>, V)>, k: Seq<char>)
    requires
        forall|j: int| 0 <= j < m.len() ==> #[trigger] m[j].0 != k,
    ensures
        lookup(m, k) is None,
    decreases m.len(),
{
    if m.len() > 0 {
        assert forall|j: int| 0 <= j < m.drop_first().len() implies #[trigger] m.drop_first()[j].0 != k by {
            assert(m.drop_first()[j] == m[j + 1]);
        }
        lemma_lookup_absent(m.drop_first(), k);
    }
}

proof fn lemma_lookup_at<V>(m: Seq<(Seq<char>, V)>, k: Seq<char>, i: int)
    requires
        0 <= i < m.len(),
        m[i].0 == k,
        forall|j: int| 0 <= j < i ==> #[trigger] m[j].0 != k,
    ensures
        lookup(m, k) == Some(m[i].1),
    decreases i,
{
    if i > 0 {
        assert forall|j: int| 0 <= j < i - 1 implies #[trigger] m.drop_first()[j].0 != k by {
            assert(m.drop_first()[j] == m[j + 1]);
        }
        lemma_lookup_at(m.drop_first(), k, i - 1);
    }
}

/// Where `k` belongs in a sorted sequence, and what inserting it there
/// gives.
pub(crate) proof fn lemma_insert_at<V>(m: Seq<(Seq<char>, V)>, k: Seq<char>, v: V, i: int)
    requires
        keys_sorted(m),
        is_position(m, k, i),
    ensures
        i < m.len() && m[i].0 == k ==> map_insert(m, k, v) == m.update(i, (k, v)),
        !(i < m.len() && m[i].0 == k) ==> map_insert(m, k, v) == m.insert(i, (k, v)),
        i < m.len() && m[i].0 == k ==> lookup(m, k) == Some(m[i].1),
        !(i < m.len() && m[i].0 == k) ==> lookup(m, k) is None,
        keys_sorted(map_insert(m, k, v)),
    decreases i,
{
    broadcast use lemma_key_order_auto;

    if i == 0 {
        if m.len() > 0 && m[0].0 == k {
            assert forall|j: int| 0 <= j < 0 implies #[trigger] m[j].0 != k by {}
            lemma_lookup_at(m, k, 0);
            assert(keys_sorted(m.update(0, (k, v)))) by {
                assert forall|a: int, b: int|
                    0 <= a < b < m.len() implies key_lt(
                    #[trigger] m.update(0, (k, v))[a].0,
                    #[trigger] m.update(0, (k, v))[b].0,
                ) by {
                    assert(key_lt(m[a].0, m[b].0));
                }
            }
        } else {
            if m.len() > 0 {
                lemma_key_order(k, m[0].0, k);
            }
            assert forall|j: int| 0 <= j < m.len() implies #[trigger] m[j].0 != k by {
                if j > 0 {
                    assert(key_lt(m[0].0, m[j].0));
                    lemma_key_order(k, m[0].0, m[j].0);
                }
            }
            lemma_lookup_absent(m, k);
            assert(map_insert(m, k, v) =~= m.insert(0, (k, v)));
            assert(keys_sorted(m.insert(0, (k, v)))) by {
                assert forall|a: int, b: int|
                    0 <= a < b < m.len() + 1 implies key_lt(
                    #[trigger] m.insert(0, (k, v))[a].0,
                    #[trigger] m.insert(0, (k, v))[b].0,
                ) by {
                    if a == 0 {
                        if b > 1 {
                            assert(key_lt(m[0].0, m[b - 1].0));
                            lemma_key_order(k, m[0].0, m[b - 1].0);
                        }
                    } else {
                        assert(key_lt(m[a - 1].0, m[b - 1].0));
                    }
                }
            }
        }
    } else {
        let t = m.drop_first();
        assert(key_lt(m[0].0, k));
        lemma_key_order(m[0].0, k, k);
        assert(keys_sorted(t)) by {
            assert forall|a: int, b: int| 0 <= a < b < t.len() implies key_lt(
                #[trigger] t[a].0,
                #[trigger] t[b].0,
            ) by {
                assert(key_lt(m[a + 1].0, m[b + 1].0));
            }
        }
        assert(is_position(t, k, i - 1)) by {
            assert forall|j: int| 0 <= j < i - 1 implies key_lt(#[trigger] t[j].0, k) by {
                assert(key_lt(m[j + 1].0, k));
            }
        }
        lemma_insert_at(t, k, v, i - 1);
        if i < m.len() && m[i].0 == k {
            assert(map_insert(m, k, v) =~= m.update(i, (k, v)));
        } else {
            assert(map_insert(m, k, v) =~= m.insert(i, (k, v)));
        }
        let r = map_insert(m, k, v);
        let rt = map_insert(t, k, v);
        assert(r =~= seq![m[0]] + rt);
        assert(keys_sorted(r)) by {
            assert forall|a: int, b: int| 0 <= a < b < r.len() implies key_lt(
                #[trigger] r[a].0,
                #[trigger] r[b].0,
            ) by {
                if a == 0 {
                    // every key of rt is a key of t or k, all above m[0]
                    let kb = rt[b - 1].0;
                    if i < m.len() && m[i].0 == k {
                        if b - 1 == i - 1 {
                            assert(kb == k);
                        } else {
                            assert(kb == t[b - 1].0);
                            assert(key_lt(m[0].0, m[b].0));
                        }
                    } else {
                        if b - 1 < i - 1 {
                            assert(kb == t[b - 1].0);
                            assert(key_lt(m[0].0, m[b].0));
                        } else if b - 1 == i - 1 {
                            assert(kb == k);
                        } else {
                            assert(kb == t[b - 2].0);
                            assert(key_lt(m[0].0, m[b - 1].0));
                        }
                    }
                } else {
                    assert(r[a] == rt[a - 1]);
                    assert(r[b] == rt[b - 1]);
                }
            }
        }
    }
}

/// Replacing the value of an entry keeps the keys sorted.
proof fn lemma_update_value_sorted<V>(m: Seq<(Seq<char>, V)>, i: int, v: V)
    requires
        keys_sorted(m),
        0 <= i < m.len(),
    ensures
        keys_sorted(m.update(i, (m[i].0, v))),
{
    assert forall|a: int, b: int| 0 <= a < b < m.len() implies key_lt(
        #[trigger] m.update(i, (m[i].0, v))[a].0,
        #[trigger] m.update(i, (m[i].0, v))[b].0,
    ) by {
        assert(key_lt(m[a].0, m[b].0));
    }
}

/// The number of leading entries whose keys sort below `k`.
pub open spec fn insert_position<V>(m: Seq<(Seq<char>, V)>, k: Seq<char>) -> int
    decreases m.len(),
{
    if m.len() == 0 || !key_lt(m[0].0, k) {
        0
    } else {
        1 + insert_position(m.drop_first(), k)
    }
}

proof fn lemma_insert_position<V>(m: Seq<(Seq<char>, V)>, k: Seq<char>)
    requires
        keys_sorted(m),
    ensures
        is_position(m, k, insert_position(m, k)),
    decreases m.len(),
{
    broadcast use lemma_key_order_auto;

    if m.len() > 0 && key_lt(m[0].0, k) {
        let t = m.drop_first();
        assert(keys_sorted(t)) by {
            assert forall|a: int, b: int| 0 <= a < b < t.len() implies key_lt(
                #[trigger] t[a].0,
                #[trigger] t[b].0,
            ) by {
                assert(key_lt(m[a + 1].0, m[b + 1].0));
            }
        }
        lemma_insert_position(t, k);
        let p = insert_position(t, k);
        assert forall|j: int| 0 <= j < p + 1 implies key_lt(#[trigger] m[j].0, k) by {
            if j > 0 {
                assert(m[j] == t[j - 1]);
            }
        }
    }
}

/// Inserting into sorted entries keeps them sorted, and every entry of the
/// result is the new one or an entry of `m`.
pub proof fn lemma_map_insert_sorted<V>(m: Seq<(Seq<char>, V)>, k: Seq<char>, v: V)
    requires
        keys_sorted(m),
    ensures
        keys_sorted(map_insert(m, k, v)),
        forall|j: int|
            0 <= j < map_insert(m, k, v).len() ==> #[trigger] map_insert(m, k, v)[j] == (k, v)
                || exists|i: int| 0 <= i < m.len() && m[i] == map_insert(m, k, v)[j],
{
    lemma_insert_position(m, k);
    let p = insert_position(m, k);
    lemma_insert_at(m, k, v, p);
    let r = map_insert(m, k, v);
    assert forall|j: int| 0 <= j < r.len() implies #[trigger] r[j] == (k, v) || exists|i: int|
        0 <= i < m.len() && m[i] == r[j] by {
        if p < m.len() && m[p].0 == k {
            if j != p {
                assert(m[j] == r[j]);
            }
        } else {
            if j < p {
                assert(m[j] == r[j]);
            } else if j > p {
                assert(m[j - 1] == r[j]);
            }
        }
    }
}

/// The position of the first entry with key `k`.
proof fn lemma_remove_at<V>(m: Seq<(Seq<char>, V)>, k: Seq<char>, i: int)
    requires
        0 <= i <= m.len(),
        forall|j: int| 0 <= j < i ==> #[trigger] m[j].0 != k,
        i < m.len() ==> m[i].0 == k,
    ensures
        i < m.len() ==> map_remove(m, k) == m.remove(i),
        i == m.len() ==> map_remove(m, k) == m,
    decreases i,
{
    if i > 0 {
        let t = m.drop_first();
        assert forall|j: int| 0 <= j < i - 1 implies #[trigger] t[j].0 != k by {
            assert(t[j] == m[j + 1]);
        }
        lemma_remove_at(t, k, i - 1);
        if i < m.len() {
            assert(map_remove(m, k) =~= m.remove(i));
        } else {
            assert(map_remove(m, k) =~= m);
        }
    } else if m.len() == 0 {
    }
}

// ---------------------------------------------------------------------------
// Laws of the map operations.

proof fn lemma_sorted_tail<V>(m: Seq<(Seq<char>, V)>)
    requires
        keys_sorted(m),
        m.len() > 0,
    ensures
        keys_sorted(m.drop_first()),
        forall|j: int| 0 <= j < m.drop_first().len() ==> key_lt(m[0].0, #[trigger] m.drop_first()[j].0),
{
    let t = m.drop_first();
    assert forall|a: int, b: int| 0 <= a < b < t.len() implies key_lt(
        #[trigger] t[a].0,
        #[trigger] t[b].0,
    ) by {
        assert(key_lt(m[a + 1].0, m[b + 1].0));
    }
    assert forall|j: int| 0 <= j < t.len() implies key_lt(m[0].0, #[trigger] t[j].0) by {
        assert(key_lt(m[0].0, m[j + 1].0));
    }
}

/// In sorted entries, a key that sorts below every key is absent.
proof fn lemma_absent_below<V>(m: Seq<(Seq<char>, V)>, k: Seq<char>)
    requires
        forall|j: int| 0 <= j < m.len() ==> key_lt(k, #[trigger] m[j].0),
    ensures
        lookup(m, k) is None,
{
    assert forall|j: int| 0 <= j < m.len() implies #[trigger] m[j].0 != k by {
        lemma_key_order(k, k, k);
    }
    lemma_lookup_absent(m, k);
}

/// After writing `v` under `k`, reading `k` gives `v`, and reading any
/// other key gives what it gave before.
pub proof fn lemma_insert_then_lookup<V>(
    m: Seq<(Seq<char>, V)>,
    k: Seq<char>,
    v: V,
    k2: Seq<char>,
)
    ensures
        lookup(map_insert(m, k, v), k2) == if k2 == k {
            Some(v)
        } else {
            lookup(m, k2)
        },
    decreases m.len(),
{
    if m.len() == 0 {
        assert(seq![(k, v)].drop_first() =~= Seq::<(Seq<char>, V)>::empty());
        assert(lookup(Seq::<(Seq<char>, V)>::empty(), k2) is None);
        assert(map_insert(m, k, v) == seq![(k, v)]);
    } else if m[0].0 == k {
        assert(m.update(0, (k, v)).drop_first() =~= m.drop_first());
        assert(map_insert(m, k, v) == m.update(0, (k, v)));
    } else if key_lt(k, m[0].0) {
        assert((seq![(k, v)] + m).drop_first() =~= m);
        assert(map_insert(m, k, v) == seq![(k, v)] + m);
    } else {
        lemma_insert_then_lookup(m.drop_first(), k, v, k2);
        assert((seq![m[0]] + map_insert(m.drop_first(), k, v)).drop_first() =~= map_insert(
            m.drop_first(),
            k,
            v,
        ));
    }
}

/// Writing under a key that was absent adds one entry; writing under a
/// present key keeps the number of entries.
pub proof fn lemma_insert_len<V>(m: Seq<(Seq<char>, V)>, k: Seq<char>, v: V)
    requires
        keys_sorted(m),
    ensures
        map_insert(m, k, v).len() == m.len() + if lookup(m, k) is Some {
            0int
        } else {
            1int
        },
    decreases m.len(),
{
    broadcast use lemma_key_order_auto;

    if m.len() > 0 {
        lemma_sorted_tail(m);
        if m[0].0 == k {
        } else if key_lt(k, m[0].0) {
            assert forall|j: int| 0 <= j < m.drop_first().len() implies key_lt(
                k,
                #[trigger] m.drop_first()[j].0,
            ) by {
                lemma_key_order(k, m[0].0, m.drop_first()[j].0);
            }
            lemma_absent_below(m.drop_first(), k);
        } else {
            lemma_insert_len(m.drop_first(), k, v);
        }
    }
}

/// After removing `k`, reading `k` gives nothing, reading any other key
/// gives what it gave before, and the entries stay sorted.
pub proof fn lemma_remove_then_lookup<V>(m: Seq<(Seq<char>, V)>, k: Seq<char>, k2: Seq<char>)
    requires
        keys_sorted(m),
    ensures
        keys_sorted(map_remove(m, k)),
        lookup(map_remove(m, k), k2) == if k2 == k {
            None
        } else {
            lookup(m, k2)
        },
    decreases m.len(),
{
    broadcast use lemma_key_order_auto;

    if m.len() > 0 {
        lemma_sorted_tail(m);
        let t = m.drop_first();
        if m[0].0 == k {
            if k2 == k {
                lemma_absent_below(t, k);
            }
        } else {
            lemma_remove_then_lookup(t, k, k2);
            let r = seq![m[0]] + map_remove(t, k);
            assert(r.drop_first() =~= map_remove(t, k));
            lemma_remove_keys(t, k);
            assert(keys_sorted(r)) by {
                assert forall|a: int, b: int| 0 <= a < b < r.len() implies key_lt(
                    #[trigger] r[a].0,
                    #[trigger] r[b].0,
                ) by {
                    if a == 0 {
                        let y = choose|y: int| 0 <= y < t.len() && t[y] == map_remove(t, k)[b - 1];
                        assert(key_lt(m[0].0, t[y].0));
                    } else {
                        assert(r[a] == map_remove(t, k)[a - 1]);
                        assert(r[b] == map_remove(t, k)[b - 1]);
                    }
                }
            }
        }
    }
}

proof fn lemma_remove_keys<V>(m: Seq<(Seq<char>, V)>, k: Seq<char>)
    ensures
        forall|j: int|
            0 <= j < map_remove(m, k).len() ==> exists|y: int|
                0 <= y < m.len() && m[y] == #[trigger] map_remove(m, k)[j],
    decreases m.len(),
{
    if m.len() > 0 {
        let t = m.drop_first();
        lemma_remove_keys(t, k);
        if m[0].0 == k {
            assert forall|j: int| 0 <= j < map_remove(m, k).len() implies exists|y: int|
                0 <= y < m.len() && m[y] == #[trigger] map_remove(m, k)[j] by {
                assert(m[j + 1] == map_remove(m, k)[j]);
            }
        } else {
            let r = seq![m[0]] + map_remove(t, k);
            assert forall|j: int| 0 <= j < r.len() implies exists|y: int|
                0 <= y < m.len() && m[y] == #[trigger] r[j] by {
                if j == 0 {
                    assert(m[0] == r[0]);
                } else {
                    let y = choose|y: int| 0 <= y < t.len() && t[y] == map_remove(t, k)[j - 1];
                    assert(m[y + 1] == r[j]);
                }
            }
        }
    }
}

// ---------------------------------------------------------------------------
// Comparing strings.

/// True if the two strings have the same characters.
pub(crate) fn str_eq(a: &str, b: &str) -> (r: bool)
    ensures
        r == (a@ == b@),
{
    let x = a.as_bytes();
    let y = b.as_bytes();
    proof {
        lemma_encode_injective(a@, b@);
    }
    if x.len() != y.len() {
        return false;
    }
    let mut i: usize = 0;
    while i < x.len()
        invariant
            x@ == encode_utf8(a@),
            y@ == encode_utf8(b@),
            x@.len() == y@.len(),
            i <= x@.len(),
            x@.take(i as int) == y@.take(i as int),
        decreases x@.len() - i,
    {
        if x[i] != y[i] {
            return false;
        }
        assert(x@.take(i + 1) =~= x@.take(i as int).push(x@[i as int]));
        assert(y@.take(i + 1) =~= y@.take(i as int).push(y@[i as int]));
        i = i + 1;
    }
    assert(x@ =~= x@.take(i as int));
    assert(y@ =~= y@.take(i as int));
    true
}

/// True if `a` sorts strictly before `b` in key order.
pub(crate) fn key_less(a: &str, b: &str) -> (r: bool)
    ensures
        r == key_lt(a@, b@),
{
    let x = a.as_bytes();
    let y = b.as_bytes();
    let mut i: usize = 0;
    while i < x.len() && i < y.len() && x[i] == y[i]
        invariant
            i <= x@.len(),
            i <= y@.len(),
            x@.take(i as int) == y@.take(i as int),
        decreases x@.len() - i,
    {
        assert(x@.take(i + 1) =~= x@.take(i as int).push(x@[i as int]));
        assert(y@.take(i + 1) =~= y@.take(i as int).push(y@[i as int]));
        i = i + 1;
    }
    proof {
        lemma_bytes_lt_skip(x@, y@, i as int);
    }
    if i == x.len() {
        i < y.len()
    } else if i == y.len() {
        false
    } else {
        x[i] < y[i]
    }
}

// ---------------------------------------------------------------------------
// The map's operations.

/// Entries with the keys of sorted entries, in the same places, are sorted.
proof fn lemma_same_keys_sorted<V>(m: Seq<(Seq<char>, V)>, n: Seq<(Seq<char>, V)>)
    ensures
        keys_sorted(m) && n.len() == m.len() && (forall|i: int|
            0 <= i < m.len() ==> #[trigger] n[i].0 == m[i].0) ==> keys_sorted(n),
{
    if keys_sorted(m) && n.len() == m.len() && (forall|i: int|
        0 <= i < m.len() ==> #[trigger] n[i].0 == m[i].0) {
        assert forall|a: int, b: int| 0 <= a < b < n.len() implies key_lt(
            #[trigger] n[a].0,
            #[trigger] n[b].0,
        ) by {
            assert(key_lt(m[a].0, m[b].0));
            assert(n[a].0 == m[a].0);
            assert(n[b].0 == m[b].0);
        }
    }
}

/// Splits mutable entries into a shared key and a mutable value each:
/// writing through a value reference changes that entry's value and nothing
/// else.
fn pairs_mut<'a>(s: &'a mut [(String, Value)]) -> (r: Vec<(&'a String, &'a mut Value)>)
    ensures
        r@.len() == old(s)@.len(),
        forall|i: int|
            0 <= i < r@.len() ==> *(#[trigger] r@[i]).0 == old(s)@[i].0 && *r@[i].1 == old(
                s,
            )@[i].1,
        final(s)@.len() == old(s)@.len(),
        forall|i: int| 0 <= i < r@.len() ==> #[trigger] final(s)@[i] == (*r@[i].0, *final(r@[i].1)),
    decreases old(s)@.len(),
{
    if s.len() == 0 {
        return Vec::new();
    }
    let (head, tail) = s.split_at_mut(1);
    let pair = head.first_mut().unwrap();
    let (k, v) = pair;
    let k: &String = &*k;
    let mut r = pairs_mut(tail);
    r.insert(0, (k, v));
    r
}

/// Mutable references to the values of the entries: writing through one
/// changes that entry's value and nothing else.
fn values_mut_of<'a>(s: &'a mut [(String, Value)]) -> (r: Vec<&'a mut Value>)
    ensures
        r@.len() == old(s)@.len(),
        forall|i: int| 0 <= i < r@.len() ==> *(#[trigger] r@[i]) == old(s)@[i].1,
        final(s)@.len() == old(s)@.len(),
        forall|i: int| 0 <= i < r@.len() ==> #[trigger] final(s)@[i] == (old(s)@[i].0, *final(r@[i])),
    decreases old(s)@.len(),
{
    if s.len() == 0 {
        return Vec::new();
    }
    let (head, tail) = s.split_at_mut(1);
    let pair = head.first_mut().unwrap();
    let (_, v) = pair;
    let mut r = values_mut_of(tail);
    r.insert(0, v);
    r
}

impl JsonMap {
    /// An empty map.
    pub fn new() -> (r: JsonMap)
        ensures
            r@ == Seq::<(Seq<char>, JsonValue)>::empty(),
            r.wf(),
    {
        let r = JsonMap { entries: Vec::new() };
        assert(r@ =~= Seq::<(Seq<char>, JsonValue)>::empty());
        r
    }

    /// The index of the first entry whose key is `key`, or the length.
    fn find(&self, key: &str) -> (i: usize)
        ensures
            i <= self@.len(),
            forall|j: int| 0 <= j < i ==> #[trigger] self@[j].0 != key@,
            i < self@.len() ==> self@[i as int].0 == key@,
    {
        let mut i: usize = 0;
        while i < self.entries.len()
            invariant
                i <= self@.len(),
                self@.len() == self.entries@.len(),
                forall|j: int| 0 <= j < i ==> #[trigger] self@[j].0 != key@,
            decreases self.entries@.len() - i,
        {
            if str_eq(self.entries[i].0.as_str(), key) {
                return i;
            }
            i = i + 1;
        }
        i
    }

    /// Inserts a key/value pair, returning the previous value if the key
    /// was already present.
    pub fn insert(&mut self, key: String, value: Value) -> (r: Option<Value>)
        requires
            old(self).wf(),
        ensures
            final(self).wf(),
            final(self)@ == map_insert(old(self)@, key@, value@),
            match r {
                Some(x) => lookup(old(self)@, key@) == Some(x@),
                None => lookup(old(self)@, key@) is None,
            },
    {
        let ghost m = self@;
        let ghost k = key@;
        let ghost v = value@;
        let mut i: usize = 0;
        while i < self.entries.len() && key_less(self.entries[i].0.as_str(), key.as_str())
            invariant
                self@ == m,
                self@.len() == self.entries@.len(),
                i <= m.len(),
                key@ == k,
                forall|j: int| 0 <= j < i ==> key_lt(#[trigger] m[j].0, k),
            decreases self.entries@.len() - i,
        {
            i = i + 1;
        }
        proof {
            lemma_insert_at(m, k, v, i as int);
        }
        if i < self.entries.len() && str_eq(self.entries[i].0.as_str(), key.as_str()) {
            let (_, old_value) = self.entries.remove(i);
            self.entries.insert(i, (key, value));
            assert(self@ =~= m.update(i as int, (k, v)));
            Some(old_value)
        } else {
            self.entries.insert(i, (key, value));
            assert(self@ =~= m.insert(i as int, (k, v)));
            None
        }
    }
}

impl JsonMap {
    /// Looks up a value by key.
    pub fn get(&self, key: &str) -> (r: Option<&Value>)
        ensures
            match r {
                Some(x) => lookup(self@, key@) == Some(x@),
                None => lookup(self@, key@) is None,
            },
    {
        let i = self.find(key);
        proof {
            if i < self@.len() {
                lemma_lookup_at(self@, key@, i as int);
            } else {
                lemma_lookup_absent(self@, key@);
            }
        }
        if i < self.entries.len() {
            Some(&self.entries[i].1)
        } else {
            None
        }
    }

    /// Mutably looks up a value by key. Writing through the reference
    /// changes the value stored under `key` and nothing else.
    pub fn get_mut(&mut self, key: &str) -> (r: Option<&mut Value>)
        requires
            old(self).wf(),
        ensures
            final(self).wf(),
            match r {
                Some(x) => {
                    &&& lookup(old(self)@, key@) == Some(x@)
                    &&& final(self)@ == map_insert(old(self)@, key@, final(x)@)
                },
                None => {
                    &&& lookup(old(self)@, key@) is None
                    &&& final(self)@ == old(self)@
                },
            },
    {
        let ghost m = self@;
        let i = self.find(key);
        proof {
            if i < m.len() {
                lemma_lookup_at(m, key@, i as int);
                assert forall|j: int| 0 <= j < i implies key_lt(#[trigger] m[j].0, key@) by {
                    assert(key_lt(m[j].0, m[i as int].0));
                }
                lemma_key_order(key@, key@, key@);
                assert(is_position(m, key@, i as int));
            } else {
                lemma_lookup_absent(m, key@);
            }
        }
        if i < self.entries.len() {
            let r = &mut self.entries[i].1;
            proof {
                lemma_insert_at(m, key@, final(r)@, i as int);
            }
            Some(r)
        } else {
            None
        }
    }

    /// True if `key` is present.
    pub fn contains_key(&self, key: &str) -> (r: bool)
        ensures
            r == lookup(self@, key@) is Some,
    {
        self.get(key).is_some()
    }

    /// Removes and returns the value at `key`, if present.
    pub fn remove(&mut self, key: &str) -> (r: Option<Value>)
        requires
            old(self).wf(),
        ensures
            final(self).wf(),
            final(self)@ == map_remove(old(self)@, key@),
            match r {
                Some(x) => lookup(old(self)@, key@) == Some(x@),
                None => lookup(old(self)@, key@) is None,
            },
    {
        let ghost m = self@;
        let i = self.find(key);
        proof {
            lemma_remove_at(m, key@, i as int);
            if i < m.len() {
                lemma_lookup_at(m, key@, i as int);
            } else {
                lemma_lookup_absent(m, key@);
            }
        }
        if i < self.entries.len() {
            let (_, v) = self.entries.remove(i);
            assert(self@ =~= m.remove(i as int));
            assert(keys_sorted(self@)) by {
                assert forall|a: int, b: int| 0 <= a < b < self@.len() implies key_lt(
                    #[trigger] self@[a].0,
                    #[trigger] self@[b].0,
                ) by {
                    let a0 = if a < i { a } else { a + 1 };
                    let b0 = if b < i { b } else { b + 1 };
                    assert(key_lt(m[a0].0, m[b0].0));
                }
            }
            Some(v)
        } else {
            None
        }
    }

    pub(crate) fn value_at_mut(&mut self, i: usize) -> (r: &mut Value)
        requires
            old(self).wf(),
            i < old(self)@.len(),
        ensures
            r@ == old(self)@[i as int].1,
            final(self).wf(),
            final(self)@ == old(self)@.update(i as int, (old(self)@[i as int].0, final(r)@)),
    {
        let ghost m = self@;
        let r = &mut self.entries[i].1;
        proof {
            lemma_update_value_sorted(m, i as int, final(r)@);
        }
        r
    }

    /// The number of entries.
    pub fn len(&self) -> (r: usize)
        ensures
            r == self@.len(),
    {
        self.entries.len()
    }

    /// True if there are no entries.
    pub fn is_empty(&self) -> (r: bool)
        ensures
            r == (self@.len() == 0),
    {
        self.entries.len() == 0
    }

    /// Removes all entries.
    pub fn clear(&mut self)
        ensures
            final(self)@ == Seq::<(Seq<char>, JsonValue)>::empty(),
            final(self).wf(),
    {
        self.entries.clear();
        assert(self@ =~= Seq::<(Seq<char>, JsonValue)>::empty());
    }

    /// The keys, in sorted order.
    pub fn keys(&self) -> (r: Vec<&String>)
        ensures
            r@.len() == self@.len(),
            forall|i: int| 0 <= i < r@.len() ==> (#[trigger] r@[i])@ == self@[i].0,
    {
        let mut out: Vec<&String> = Vec::new();
        let mut i: usize = 0;
        while i < self.entries.len()
            invariant
                i <= self.entries@.len(),
                out@.len() == i,
                forall|j: int| 0 <= j < i ==> (#[trigger] out@[j])@ == self@[j].0,
            decreases self.entries@.len() - i,
        {
            proof {
                self.lemma_view();
            }
            out.push(&self.entries[i].0);
            i = i + 1;
        }
        out
    }

    /// The values, in sorted key order.
    pub fn values(&self) -> (r: Vec<&Value>)
        ensures
            r@.len() == self@.len(),
            forall|i: int| 0 <= i < r@.len() ==> (#[trigger] r@[i])@ == self@[i].1,
    {
        let mut out: Vec<&Value> = Vec::new();
        let mut i: usize = 0;
        while i < self.entries.len()
            invariant
                i <= self.entries@.len(),
                out@.len() == i,
                forall|j: int| 0 <= j < i ==> (#[trigger] out@[j])@ == self@[j].1,
            decreases self.entries@.len() - i,
        {
            proof {
                self.lemma_view();
            }
            out.push(&self.entries[i].1);
            i = i + 1;
        }
        out
    }

    /// The `(&key, &value)` pairs, in sorted key order.
    pub fn iter(&self) -> (r: Vec<(&String, &Value)>)
        ensures
            r@.len() == self@.len(),
            forall|i: int|
                0 <= i < r@.len() ==> (#[trigger] r@[i]).0@ == self@[i].0 && r@[i].1@
                    == self@[i].1,
    {
        let mut out: Vec<(&String, &Value)> = Vec::new();
        let mut i: usize = 0;
        while i < self.entries.len()
            invariant
                i <= self.entries@.len(),
                out@.len() == i,
                forall|j: int|
                    0 <= j < i ==> (#[trigger] out@[j]).0@ == self@[j].0 && out@[j].1@
                        == self@[j].1,
            decreases self.entries@.len() - i,
        {
            proof {
                self.lemma_view();
            }
            out.push((&self.entries[i].0, &self.entries[i].1));
            i = i + 1;
        }
        out
    }

    /// The `(&key, &mut value)` pairs, in sorted key order. Writing through
    /// a returned reference changes that value and nothing else.
    pub fn iter_mut(&mut self) -> (r: Vec<(&String, &mut Value)>)
        requires
            old(self).wf(),
        ensures
            r@.len() == old(self)@.len(),
            forall|i: int|
                0 <= i < r@.len() ==> (#[trigger] r@[i]).0@ == old(self)@[i].0 && (*r@[i].1)@
                    == old(self)@[i].1,
            final(self).wf(),
            final(self)@.len() == old(self)@.len(),
            forall|i: int|
                0 <= i < r@.len() ==> #[trigger] final(self)@[i] == (
                    old(self)@[i].0,
                    (*final(r@[i].1))@,
                ),
    {
        proof {
            self.lemma_view();
            final(self).lemma_view();
            lemma_same_keys_sorted(self@, final(self)@);
        }
        pairs_mut(self.entries.as_mut_slice())
    }

    /// Mutable references to the values, in sorted key order. Writing
    /// through one changes that value and nothing else.
    pub fn values_mut(&mut self) -> (r: Vec<&mut Value>)
        requires
            old(self).wf(),
        ensures
            r@.len() == old(self)@.len(),
            forall|i: int| 0 <= i < r@.len() ==> (*(#[trigger] r@[i]))@ == old(self)@[i].1,
            final(self).wf(),
            final(self)@.len() == old(self)@.len(),
            forall|i: int|
                0 <= i < r@.len() ==> #[trigger] final(self)@[i] == (
                    old(self)@[i].0,
                    (*final(r@[i]))@,
                ),
    {
        proof {
            self.lemma_view();
            final(self).lemma_view();
            lemma_same_keys_sorted(self@, final(self)@);
        }
        values_mut_of(self.entries.as_mut_slice())
    }

    /// Consumes the map, returning its `(key, value)` pairs in sorted key
    /// order.
    pub fn into_iter(self) -> (r: Vec<(String, Value)>)
        ensures
            r@.len() == self@.len(),
            forall|i: int|
                0 <= i < r@.len() ==> (#[trigger] r@[i]).0@ == self@[i].0 && r@[i].1@
                    == self@[i].1,
    {
        proof {
            self.lemma_view();
        }
        self.entries
    }

    /// Consumes the map, returning its values in sorted key order.
    pub fn into_values(self) -> (r: Vec<Value>)
        ensures
            r@.len() == self@.len(),
            forall|i: int| 0 <= i < r@.len() ==> (#[trigger] r@[i])@ == self@[i].1,
    {
        let ghost m = self@;
        proof {
            self.lemma_view();
        }
        let mut entries = self.entries;
        let mut out: Vec<Value> = Vec::new();
        let ghost all = entries@;
        assert forall|j: int| 0 <= j < all.len() implies (#[trigger] all[j]).1@ == m[j].1 by {
            assert(m[j] == (all[j].0@, all[j].1@));
        }
        while entries.len() > 0
            invariant
                all.len() == m.len(),
                forall|j: int| 0 <= j < all.len() ==> (#[trigger] all[j]).1@ == m[j].1,
                entries@ == all.skip(out@.len() as int),
                out@.len() <= all.len(),
                forall|j: int| 0 <= j < out@.len() ==> (#[trigger] out@[j])@ == m[j].1,
            decreases entries@.len(),
        {
            let (_, v) = entries.remove(0);
            assert(entries@ =~= all.skip(out@.len() as int + 1));
            out.push(v);
        }
        out
    }
}

// ---------------------------------------------------------------------------
// Building maps from pairs.

/// The views of a sequence of key/value pairs.
pub open spec fn pairs_view(p: Seq<(String, Value)>) -> Seq<(Seq<char>, JsonValue)> {
    p.map_values(|e: (String, Value)| (e.0@, e.1@))
}

/// Inserts each pair in turn, so that a later pair with the same key as an
/// earlier one wins.
pub open spec fn insert_all<V>(m: Seq<(Seq<char>, V)>, pairs: Seq<(Seq<char>, V)>) -> Seq<
    (Seq<char>, V),
>
    decreases pairs.len(),
{
    if pairs.len() == 0 {
        m
    } else {
        insert_all(map_insert(m, pairs[0].0, pairs[0].1), pairs.drop_first())
    }
}

impl JsonMap {
    /// Inserts every pair of `pairs`, in order.
    pub fn extend(&mut self, pairs: Vec<(String, Value)>)
        requires
            old(self).wf(),
        ensures
            final(self).wf(),
            final(self)@ == insert_all(old(self)@, pairs_view(pairs@)),
    {
        let ghost target = insert_all(self@, pairs_view(pairs@));
        let mut rest = pairs;
        while rest.len() > 0
            invariant
                self.wf(),
                insert_all(self@, pairs_view(rest@)) == target,
            decreases rest@.len(),
        {
            let ghost before = rest@;
            let (k, v) = rest.remove(0);
            proof {
                assert(pairs_view(before)[0] == (k@, v@));
                assert(pairs_view(before).drop_first() =~= pairs_view(rest@));
            }
            self.insert(k, v);
        }
        assert(pairs_view(rest@) =~= Seq::<(Seq<char>, JsonValue)>::empty());
    }

    /// A map holding the pairs, inserted in order.
    pub fn from_iter(pairs: Vec<(String, Value)>) -> (r: JsonMap)
        ensures
            r.wf(),
            r@ == insert_all(Seq::<(Seq<char>, JsonValue)>::empty(), pairs_view(pairs@)),
    {
        let mut r = JsonMap::new();
        r.extend(pairs);
        r
    }

    /// The value at `key`, which must be present.
    pub fn index(&self, key: &str) -> (r: &Value)
        requires
            lookup(self@, key@) is Some,
        ensures
            lookup(self@, key@) == Some(r@),
    {
        self.get(key).unwrap()
    }
}

// ---------------------------------------------------------------------------
// The entry API.

/// An entry of sorted entries is where its key belongs, and looking its key
/// up finds it.
proof fn lemma_sorted_at<V>(m: Seq<(Seq<char>, V)>, i: int)
    requires
        keys_sorted(m),
        0 <= i < m.len(),
    ensures
        is_position(m, m[i].0, i),
        lookup(m, m[i].0) == Some(m[i].1),
{
    lemma_key_order(m[i].0, m[i].0, m[i].0);
    assert forall|j: int| 0 <= j < i implies #[trigger] m[j].0 != m[i].0 by {
        assert(key_lt(m[j].0, m[i].0));
    }
    lemma_lookup_at(m, m[i].0, i);
}

/// A view into a single entry of a [`JsonMap`], from [`JsonMap::entry`]:
/// inspect or change the value at a key, inserting one only if it is
/// missing, without a second lookup.
pub enum Entry<'a> {
    /// The key is present.
    Occupied(OccupiedEntry<'a>),
    /// The key is absent.
    Vacant(VacantEntry<'a>),
}

/// An occupied [`Entry`]: the map borrowed, and where the key is in it.
pub struct OccupiedEntry<'a> {
    map: &'a mut JsonMap,
    index: usize,
}

/// A vacant [`Entry`]: the map borrowed, the key, and where it belongs.
pub struct VacantEntry<'a> {
    map: &'a mut JsonMap,
    key: String,
    index: usize,
}

impl<'a> OccupiedEntry<'a> {
    /// The borrow of the map.
    pub closed spec fn map_ref(&self) -> &'a mut JsonMap {
        self.map
    }

    /// The map's entries as they are now.
    pub closed spec fn entries(&self) -> Seq<(Seq<char>, JsonValue)> {
        self.map@
    }

    /// The position of the entry in the map.
    pub closed spec fn index(&self) -> int {
        self.index as int
    }

    /// The entry's key.
    pub open spec fn key_view(&self) -> Seq<char> {
        self.entries()[self.index()].0
    }

    /// The entry's value.
    pub open spec fn value_view(&self) -> JsonValue {
        self.entries()[self.index()].1
    }

    /// The map is well formed and the position is one of its entries.
    pub closed spec fn wf(&self) -> bool {
        self.map.wf() && self.index < self.map@.len()
    }

    /// The map is well formed, and the entry is what a lookup of its key
    /// finds.
    pub proof fn lemma_wf(&self)
        requires
            self.wf(),
        ensures
            keys_sorted(self.entries()),
            0 <= self.index() < self.entries().len(),
            is_position(self.entries(), self.key_view(), self.index()),
            lookup(self.entries(), self.key_view()) == Some(self.value_view()),
    {
        lemma_sorted_at(self.entries(), self.index());
    }

    /// The entry's key.
    pub fn key(&self) -> (r: &String)
        requires
            self.wf(),
        ensures
            r@ == self.key_view(),
    {
        proof {
            self.map.lemma_view();
        }
        &self.map.entries[self.index].0
    }

    /// A shared reference to the entry's value.
    pub fn get(&self) -> (r: &Value)
        requires
            self.wf(),
        ensures
            r@ == self.value_view(),
    {
        proof {
            self.map.lemma_view();
        }
        &self.map.entries[self.index].1
    }

    /// A mutable reference to the entry's value, borrowing the entry:
    /// writing through it changes that value and nothing else.
    pub fn get_mut(&mut self) -> (r: &mut Value)
        requires
            old(self).wf(),
        ensures
            r@ == old(self).value_view(),
            final(self).wf(),
            final(self).key_view() == old(self).key_view(),
            final(self).entries() == map_insert(old(self).entries(), old(self).key_view(), final(r)@),
            *final(final(self).map_ref()) == *final(old(self).map_ref()),
    {
        proof {
            self.lemma_wf();
        }
        let ghost m = self.entries();
        let ghost k = self.key_view();
        let i = self.index;
        let r = self.map.value_at_mut(i);
        proof {
            lemma_insert_at(m, k, final(r)@, i as int);
        }
        r
    }

    /// Converts into a mutable reference with the map's own lifetime:
    /// writing through it changes the entry's value and nothing else.
    pub fn into_mut(self) -> (r: &'a mut Value)
        requires
            self.wf(),
        ensures
            r@ == self.value_view(),
            final(self.map_ref()).wf(),
            final(self.map_ref())@ == map_insert(self.entries(), self.key_view(), final(r)@),
    {
        proof {
            self.lemma_wf();
        }
        let ghost m = self.entries();
        let ghost k = self.key_view();
        let i = self.index;
        let r = self.map.value_at_mut(i);
        proof {
            lemma_insert_at(m, k, final(r)@, i as int);
        }
        r
    }

    /// Replaces the entry's value, returning the old one.
    pub fn insert(&mut self, value: Value) -> (r: Value)
        requires
            old(self).wf(),
        ensures
            r@ == old(self).value_view(),
            final(self).wf(),
            final(self).key_view() == old(self).key_view(),
            final(self).entries() == map_insert(old(self).entries(), old(self).key_view(), value@),
            *final(final(self).map_ref()) == *final(old(self).map_ref()),
    {
        proof {
            self.lemma_wf();
            lemma_insert_at(self.entries(), self.key_view(), value@, self.index as int);
        }
        let i = self.index;
        let slot = self.map.value_at_mut(i);
        let mut v = value;
        std::mem::swap(slot, &mut v);
        v
    }

    /// Removes the entry, returning its value.
    pub fn remove(self) -> (r: Value)
        requires
            self.wf(),
        ensures
            r@ == self.value_view(),
            final(self.map_ref()).wf(),
            final(self.map_ref())@ == map_remove(self.entries(), self.key_view()),
    {
        proof {
            self.lemma_wf();
        }
        let ghost m = self.entries();
        let ghost k = self.key_view();
        let i = self.index;
        self.map.remove_at(i)
    }
}

impl<'a> VacantEntry<'a> {
    /// The borrow of the map.
    pub closed spec fn map_ref(&self) -> &'a mut JsonMap {
        self.map
    }

    /// The map's entries as they are now.
    pub closed spec fn entries(&self) -> Seq<(Seq<char>, JsonValue)> {
        self.map@
    }

    /// The entry's key.
    pub closed spec fn key_view(&self) -> Seq<char> {
        self.key@
    }

    /// The map is well formed, the key is absent from it, and the position
    /// is where the key belongs.
    pub closed spec fn wf(&self) -> bool {
        &&& self.map.wf()
        &&& is_position(self.map@, self.key@, self.index as int)
        &&& !(self.index < self.map@.len() && self.map@[self.index as int].0 == self.key@)
    }

    /// The map is well formed and the key is absent from it.
    pub proof fn lemma_wf(&self)
        requires
            self.wf(),
        ensures
            keys_sorted(self.entries()),
            lookup(self.entries(), self.key_view()) is None,
    {
        lemma_insert_at(self.map@, self.key@, JsonValue::Null, self.index as int);
    }

    /// The entry's key.
    pub fn key(&self) -> (r: &String)
        ensures
            r@ == self.key_view(),
    {
        &self.key
    }

    /// Inserts `value` under the entry's key, returning a mutable reference
    /// to it: writing through it changes that value and nothing else.
    pub fn insert(self, value: Value) -> (r: &'a mut Value)
        requires
            self.wf(),
        ensures
            r@ == value@,
            final(self.map_ref()).wf(),
            final(self.map_ref())@ == map_insert(self.entries(), self.key_view(), final(r)@),
    {
        let ghost m = self.entries();
        let ghost k = self.key_view();
        let i = self.index;
        proof {
            lemma_insert_at(m, k, value@, i as int);
        }
        self.map.entries.insert(i, (self.key, value));
        proof {
            assert(self.map@ =~= map_insert(m, k, value@));
            assert(self.map@[i as int].0 == k);
        }
        let r = self.map.value_at_mut(i);
        proof {
            lemma_insert_at(m, k, final(r)@, i as int);
            assert(map_insert(m, k, value@).update(i as int, (k, final(r)@)) =~= m.insert(
                i as int,
                (k, final(r)@),
            ));
        }
        r
    }
}

impl<'a> Entry<'a> {
    /// The borrow of the map.
    pub open spec fn map_ref(&self) -> &'a mut JsonMap {
        match self {
            Entry::Occupied(e) => e.map_ref(),
            Entry::Vacant(e) => e.map_ref(),
        }
    }

    /// The map's entries as they are now.
    pub open spec fn entries(&self) -> Seq<(Seq<char>, JsonValue)> {
        match self {
            Entry::Occupied(e) => e.entries(),
            Entry::Vacant(e) => e.entries(),
        }
    }

    /// The entry's key.
    pub open spec fn key_view(&self) -> Seq<char> {
        match self {
            Entry::Occupied(e) => e.key_view(),
            Entry::Vacant(e) => e.key_view(),
        }
    }

    pub open spec fn wf(&self) -> bool {
        match self {
            Entry::Occupied(e) => e.wf(),
            Entry::Vacant(e) => e.wf(),
        }
    }

    /// The entry's key, whether occupied or vacant.
    pub fn key(&self) -> (r: &String)
        requires
            self.wf(),
        ensures
            r@ == self.key_view(),
    {
        match self {
            Entry::Occupied(e) => e.key(),
            Entry::Vacant(e) => e.key(),
        }
    }

    /// Returns the existing value, or inserts and returns `default`.
    pub fn or_insert(self, default: Value) -> (r: &'a mut Value)
        requires
            self.wf(),
        ensures
            r@ == (match lookup(self.entries(), self.key_view()) {
                Some(x) => x,
                None => default@,
            }),
            final(self.map_ref()).wf(),
            final(self.map_ref())@ == map_insert(self.entries(), self.key_view(), final(r)@),
    {
        match self {
            Entry::Occupied(e) => {
                proof {
                    e.lemma_wf();
                }
                e.into_mut()
            },
            Entry::Vacant(e) => {
                proof {
                    e.lemma_wf();
                }
                e.insert(default)
            },
        }
    }
}

impl<'a> Entry<'a> {
    /// Returns the existing value, or inserts and returns the result of
    /// calling `default`, which is called only if the key is absent.
    pub fn or_insert_with<F: FnOnce() -> Value>(self, default: F) -> (r: &'a mut Value)
        requires
            self.wf(),
            lookup(self.entries(), self.key_view()) is None ==> default.requires(()),
        ensures
            match lookup(self.entries(), self.key_view()) {
                Some(x) => r@ == x,
                None => exists|d: Value| default.ensures((), d) && r@ == d@,
            },
            final(self.map_ref()).wf(),
            final(self.map_ref())@ == map_insert(self.entries(), self.key_view(), final(r)@),
    {
        match self {
            Entry::Occupied(e) => {
                proof {
                    e.lemma_wf();
                }
                e.into_mut()
            },
            Entry::Vacant(e) => {
                proof {
                    e.lemma_wf();
                }
                let d = default();
                e.insert(d)
            },
        }
    }

    /// Applies `f` to the value if the entry is occupied, then returns the
    /// entry, still usable with [`Entry::or_insert`]; a vacant entry is
    /// returned as it is, and `f` is not called.
    pub fn and_modify<F: FnOnce(&mut Value)>(self, f: F) -> (r: Entry<'a>)
        requires
            self.wf(),
            self is Occupied ==> forall|x: &mut Value| f.requires((x,)),
        ensures
            r.wf(),
            r.key_view() == self.key_view(),
            r is Occupied <==> self is Occupied,
            *final(r.map_ref()) == *final(self.map_ref()),
            self is Vacant ==> r.entries() == self.entries(),
            self is Occupied ==> exists|x: &mut Value|
                f.ensures((x,), ()) && (*x)@ == self->Occupied_0.value_view()
                && r.entries() == map_insert(self.entries(), self.key_view(), (*final(x))@),
    {
        match self {
            Entry::Occupied(mut e) => {
                let slot = e.get_mut();
                f(slot);
                Entry::Occupied(e)
            },
            Entry::Vacant(e) => Entry::Vacant(e),
        }
    }
}

impl JsonMap {
    /// The entry API: the entry at `key`, occupied if the key is present.
    pub fn entry(&mut self, key: String) -> (r: Entry<'_>)
        requires
            old(self).wf(),
        ensures
            r.wf(),
            r.entries() == old(self)@,
            r.key_view() == key@,
            *final(self) == *final(r.map_ref()),
            r is Occupied <==> lookup(old(self)@, key@) is Some,
    {
        let ghost m = self@;
        let ghost k = key@;
        let mut i: usize = 0;
        while i < self.entries.len() && key_less(self.entries[i].0.as_str(), key.as_str())
            invariant
                self@ == m,
                self@.len() == self.entries@.len(),
                i <= m.len(),
                key@ == k,
                forall|j: int| 0 <= j < i ==> key_lt(#[trigger] m[j].0, k),
            decreases self.entries@.len() - i,
        {
            i = i + 1;
        }
        proof {
            lemma_insert_at(m, k, JsonValue::Null, i as int);
        }
        if i < self.entries.len() && str_eq(self.entries[i].0.as_str(), key.as_str()) {
            Entry::Occupied(OccupiedEntry { map: self, index: i })
        } else {
            Entry::Vacant(VacantEntry { map: self, key, index: i })
        }
    }

    /// Removes the entry at position `i`, returning its value.
    fn remove_at(&mut self, i: usize) -> (r: Value)
        requires
            old(self).wf(),
            i < old(self)@.len(),
        ensures
            r@ == old(self)@[i as int].1,
            final(self).wf(),
            final(self)@ == map_remove(old(self)@, old(self)@[i as int].0),
    {
        let ghost m = self@;
        proof {
            lemma_sorted_at(m, i as int);
            lemma_remove_at(m, m[i as int].0, i as int);
        }
        let (_, v) = self.entries.remove(i);
        assert(self@ =~= m.remove(i as int));
        assert(keys_sorted(self@)) by {
            assert forall|a: int, b: int| 0 <= a < b < self@.len() implies key_lt(
                #[trigger] self@[a].0,
                #[trigger] self@[b].0,
            ) by {
                let a0 = if a < i { a } else { a + 1 };
                let b0 = if b < i { b } else { b + 1 };
                assert(key_lt(m[a0].0, m[b0].0));
            }
        }
        v
    }
}

} // verus!
