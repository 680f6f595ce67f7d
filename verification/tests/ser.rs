use rusty_json::ser::{write_escaped_string, write_value};
use rusty_json::{from_str, to_string, JsonMap, Number, Value};

#[test]
fn serializes_scalars() {
    assert_eq!(to_string(&Value::Null), "null");
    assert_eq!(to_string(&Value::Bool(true)), "true");
    assert_eq!(to_string(&Value::Bool(false)), "false");
    assert_eq!(to_string(&Value::Number(Number::from(42u64))), "42");
    assert_eq!(to_string(&Value::String(String::from("hi"))), "\"hi\"");
}

#[test]
fn escapes_special_characters() {
    assert_eq!(
        to_string(&Value::String(String::from("a\"b\\c\nd\te"))),
        r#""a\"b\\c\nd\te""#
    );
    assert_eq!(to_string(&Value::String(String::from("\u{0001}"))), "\"\\u0001\"");
}

#[test]
fn serializes_array_and_object() {
    assert_eq!(to_string(&Value::Array(Vec::new())), "[]");
    assert_eq!(to_string(&Value::Object(JsonMap::new())), "{}");

    let arr = Value::Array(vec![Value::Number(Number::from(1u64)), Value::Bool(true)]);
    assert_eq!(to_string(&arr), "[1,true]");

    let mut map = JsonMap::new();
    map.insert(String::from("a"), Value::Number(Number::from(1u64)));
    assert_eq!(to_string(&Value::Object(map)), r#"{"a":1}"#);
}

#[test]
fn round_trips_through_parser() {
    let inputs = [
        r#"null"#,
        r#"true"#,
        r#"42"#,
        r#"-1.5"#,
        r#""hello\nworld""#,
        r#"[1,2,3]"#,
        r#"{"a":1,"b":[true,null]}"#,
    ];
    for input in inputs {
        let value = from_str(input).unwrap();
        let serialized = to_string(&value);
        let reparsed = from_str(&serialized).unwrap();
        assert_eq!(value, reparsed, "round-trip failed for {input}");
    }
}

#[test]
fn escapes_every_control_character_form() {
    assert_eq!(
        to_string(&Value::String(String::from("\u{8}\u{c}\r\u{1f}\u{7f}é/"))),
        "\"\\b\\f\\r\\u001f\u{7f}é/\""
    );
}

#[test]
fn writes_negative_and_text_numbers() {
    assert_eq!(to_string(&Value::Number(Number::from(-7i64))), "-7");
    assert_eq!(to_string(&Value::Number(Number::from(i64::MIN))), "-9223372036854775808");
    assert_eq!(to_string(&from_str("1E+2").unwrap()), "1E+2");
}

#[test]
fn writes_objects_in_key_order() {
    let v = from_str(r#"{ "b" : [ ], "a" : { "z" : null } }"#).unwrap();
    assert_eq!(to_string(&v), r#"{"a":{"z":null},"b":[]}"#);
}

#[test]
fn writers_append_to_existing_text() {
    let mut out = String::from("x=");
    write_escaped_string("q\"", &mut out);
    assert_eq!(out, "x=\"q\\\"\"");
    let mut out = String::from("[");
    write_value(&Value::Bool(false), &mut out);
    assert_eq!(out, "[false");
}

#[test]
fn output_of_parsed_text_parses_back_to_the_same_value() {
    let text = " {\"k\": [1, -2, 3.25e1, \"\\u00e9\\ud83d\\ude00\", {\"n\": null}], \"a\": false} ";
    let v = from_str(text).unwrap();
    let out = to_string(&v);
    assert_eq!(from_str(&out).unwrap(), v);
    assert_eq!(to_string(&from_str(&out).unwrap()), out);
}
