use rusty_json::{Entry, JsonMap, Number, Value};

fn m(pairs: &[(&str, Value)]) -> JsonMap {
    JsonMap::from_iter(pairs.iter().map(|(k, v)| (k.to_string(), v.clone())).collect())
}

#[test]
fn insert_get_remove() {
    let mut map = JsonMap::new();
    assert!(map.is_empty());
    assert_eq!(map.insert(String::from("a"), Value::Bool(true)), None);
    assert_eq!(map.insert(String::from("a"), Value::Bool(false)), Some(Value::Bool(true)));
    assert_eq!(map.get("a"), Some(&Value::Bool(false)));
    assert!(map.contains_key("a"));
    assert_eq!(map.len(), 1);
    assert_eq!(map.remove("a"), Some(Value::Bool(false)));
    assert_eq!(map.get("a"), None);
    assert!(map.is_empty());
}

#[test]
fn iterates_in_sorted_key_order() {
    let map = m(&[("b", Value::Null), ("a", Value::Null), ("c", Value::Null)]);
    let keys: Vec<&String> = map.keys();
    assert_eq!(keys, vec![&String::from("a"), &String::from("b"), &String::from("c")]);
}

#[test]
fn iter_and_iter_mut() {
    let mut map = m(&[("a", Value::Number(Number::from(1u64)))]);
    for (_, v) in map.iter_mut() {
        *v = Value::Bool(true);
    }
    let entries: Vec<(&String, &Value)> = map.iter();
    assert_eq!(entries, vec![(&String::from("a"), &Value::Bool(true))]);
}

#[test]
fn into_iter_by_value_and_by_ref() {
    let map = m(&[("a", Value::Bool(true))]);
    let owned: Vec<(String, Value)> = map.clone().into_iter();
    assert_eq!(owned, vec![(String::from("a"), Value::Bool(true))]);

    let borrowed: Vec<(&String, &Value)> = map.iter();
    assert_eq!(borrowed, vec![(&String::from("a"), &Value::Bool(true))]);
}

#[test]
fn values_and_into_values() {
    let map = m(&[("a", Value::Bool(true)), ("b", Value::Bool(false))]);
    let values: Vec<&Value> = map.values();
    assert_eq!(values, vec![&Value::Bool(true), &Value::Bool(false)]);
    let values: Vec<Value> = map.into_values();
    assert_eq!(values, vec![Value::Bool(true), Value::Bool(false)]);
}

#[test]
fn entry_or_insert_on_vacant_and_occupied() {
    let mut map = JsonMap::new();
    *map.entry(String::from("a")).or_insert(Value::Number(Number::from(1u64))) =
        Value::Number(Number::from(1u64));
    assert_eq!(map.get("a"), Some(&Value::Number(Number::from(1u64))));

    let v = map.entry(String::from("a")).or_insert(Value::Bool(true));
    assert_eq!(*v, Value::Number(Number::from(1u64)));
}

#[test]
fn entry_and_modify() {
    let mut map = m(&[("a", Value::Number(Number::from(1u64)))]);
    map.entry(String::from("a")).and_modify(|v| {
        if let Value::Number(n) = v {
            *v = Value::Number(Number::from(n.as_u64().unwrap() + 1));
        }
    });
    assert_eq!(map.get("a"), Some(&Value::Number(Number::from(2u64))));

    map.entry(String::from("missing"))
        .and_modify(|_| panic!("must not run on vacant entry"))
        .or_insert(Value::Bool(true));
    assert_eq!(map.get("missing"), Some(&Value::Bool(true)));
}

#[test]
fn index_operator_panics_on_missing_key() {
    let map = m(&[("a", Value::Bool(true))]);
    assert_eq!(*map.index("a"), Value::Bool(true));
}

#[test]
fn debug_matches_btreemap_style() {
    let map = m(&[("a", Value::Bool(true))]);
    let debug = format!("{map:?}");
    assert!(debug.contains("\"a\""));
}

#[test]
fn keys_sort_by_bytes() {
    let map = m(&[("é", Value::Null), ("Z", Value::Null), ("a", Value::Null), ("", Value::Null), ("ab", Value::Null)]);
    let keys: Vec<String> = map.keys().into_iter().cloned().collect();
    assert_eq!(keys, vec!["", "Z", "a", "ab", "é"]);
}

#[test]
fn remove_missing_and_clear() {
    let mut map = m(&[("a", Value::Null), ("b", Value::Null)]);
    assert_eq!(map.remove("c"), None);
    assert_eq!(map.len(), 2);
    map.clear();
    assert!(map.is_empty());
    assert_eq!(map.get("a"), None);
}

#[test]
fn get_mut_changes_only_that_value() {
    let mut map = m(&[("a", Value::Null), ("b", Value::Null)]);
    *map.get_mut("b").unwrap() = Value::Bool(true);
    assert!(map.get_mut("c").is_none());
    assert_eq!(map.get("a"), Some(&Value::Null));
    assert_eq!(map.get("b"), Some(&Value::Bool(true)));
}

#[test]
fn entry_api_views() {
    let mut map = m(&[("a", Value::Bool(true))]);
    match map.entry(String::from("a")) {
        Entry::Occupied(mut e) => {
            assert_eq!(e.key(), "a");
            assert_eq!(e.get(), &Value::Bool(true));
            assert_eq!(e.insert(Value::Null), Value::Bool(true));
            *e.get_mut() = Value::Bool(false);
            assert_eq!(e.remove(), Value::Bool(false));
        },
        Entry::Vacant(_) => panic!("key is present"),
    }
    assert!(map.is_empty());
    match map.entry(String::from("b")) {
        Entry::Vacant(e) => {
            assert_eq!(e.key(), "b");
            *e.insert(Value::Null) = Value::Bool(true);
        },
        Entry::Occupied(_) => panic!("key is absent"),
    }
    assert_eq!(map.get("b"), Some(&Value::Bool(true)));
    assert_eq!(map.entry(String::from("c")).key(), "c");
    let v = map.entry(String::from("c")).or_insert_with(|| Value::Bool(false));
    assert_eq!(*v, Value::Bool(false));
    let v = map.entry(String::from("c")).or_insert_with(|| panic!("must not run on occupied entry"));
    assert_eq!(*v, Value::Bool(false));
    let keys: Vec<String> = map.keys().into_iter().cloned().collect();
    assert_eq!(keys, vec!["b", "c"]);
}

#[test]
fn extend_inserts_in_order_and_later_pairs_win() {
    let mut map = m(&[("b", Value::Null)]);
    map.extend(vec![
        (String::from("a"), Value::Bool(true)),
        (String::from("b"), Value::Bool(false)),
        (String::from("a"), Value::Null),
    ]);
    assert_eq!(map.iter(), vec![(&String::from("a"), &Value::Null), (&String::from("b"), &Value::Bool(false))]);
    assert!(JsonMap::from_iter(Vec::new()).is_empty());
}

#[test]
fn values_mut_changes_values_in_key_order() {
    let mut map = m(&[("b", Value::Null), ("a", Value::Null)]);
    let mut n: u64 = 0;
    for v in map.values_mut() {
        *v = Value::Number(Number::from(n));
        n += 1;
    }
    assert_eq!(map.get("a"), Some(&Value::Number(Number::from(0u64))));
    assert_eq!(map.get("b"), Some(&Value::Number(Number::from(1u64))));
}
