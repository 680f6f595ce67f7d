use rusty_json::{from_str, JsonMap, Number, Value};

#[test]
fn default_is_null() {
    assert_eq!(Value::default(), Value::Null);
}

#[test]
fn variants_are_distinguishable() {
    assert_ne!(Value::Null, Value::Bool(false));
    assert_ne!(Value::Bool(true), Value::Bool(false));
}

#[test]
fn clone_is_equal() {
    let v = from_str(r#"{"a":[1,"x",{"b":null}],"c":2.5}"#).unwrap();
    assert_eq!(v.clone(), v);
    let mut m = JsonMap::new();
    m.insert(String::from("k"), Value::Number(Number::from(3u64)));
    assert_eq!(m.clone(), m);
}
