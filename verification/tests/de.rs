use rusty_json::de::{enum_from_str, parse_one, text_of_bytes, MapKeyDeserializer};
use rusty_json::{from_slice, from_str, JsonMap, Number, StreamDeserializer, Value};

fn num(v: &Value) -> &Number {
    match v {
        Value::Number(n) => n,
        other => panic!("expected a number, got {other:?}"),
    }
}

fn obj(v: &Value) -> &JsonMap {
    match v {
        Value::Object(m) => m,
        other => panic!("expected an object, got {other:?}"),
    }
}

fn collect(mut it: StreamDeserializer) -> Vec<Value> {
    let mut out = Vec::new();
    while let Some(r) = it.next() {
        out.push(r.unwrap());
    }
    out
}

fn ints(values: &[Value]) -> Vec<i64> {
    values.iter().map(|v| num(v).as_i64().unwrap()).collect()
}

#[test]
fn deserializes_value() {
    let v = from_str(r#"{"a":[1,2,true]}"#).unwrap();
    let mut expected = JsonMap::new();
    expected.insert(
        String::from("a"),
        Value::Array(vec![
            Value::Number(Number::from(1u64)),
            Value::Number(Number::from(2u64)),
            Value::Bool(true),
        ]),
    );
    assert_eq!(v, Value::Object(expected));
}

#[test]
fn rejects_trailing_data() {
    assert!(from_str("null garbage").is_err());
}

#[test]
fn deserializes_scalars() {
    assert_eq!(from_str("true").unwrap(), Value::Bool(true));
    assert_eq!(num(&from_str("-5").unwrap()).as_i64(), Some(-5));
    assert_eq!(num(&from_str("42").unwrap()).as_u64(), Some(42));
    let f = from_str("1.5").unwrap();
    assert!(num(&f).is_f64());
    assert_eq!(num(&f).to_string().parse::<f64>().unwrap(), 1.5);
    assert_eq!(from_str(r#""hi""#).unwrap(), Value::String(String::from("hi")));
    match from_str(r#""x""#).unwrap() {
        Value::String(s) => {
            let mut chars = s.chars();
            assert_eq!(chars.next(), Some('x'));
            assert_eq!(chars.next(), None);
        },
        other => panic!("expected a string, got {other:?}"),
    }
}

#[test]
fn deserializes_option() {
    assert_eq!(from_str("null").unwrap(), Value::Null);
    assert_eq!(num(&from_str("5").unwrap()).as_i64(), Some(5));
}

#[test]
fn deserializes_collections() {
    let v = from_str("[1,2,3]").unwrap();
    match &v {
        Value::Array(items) => assert_eq!(ints(items), vec![1, 2, 3]),
        other => panic!("expected an array, got {other:?}"),
    }
    let v = from_str(r#"{"a":1,"b":2}"#).unwrap();
    let m = obj(&v);
    let pairs: Vec<(String, i64)> = m
        .iter()
        .into_iter()
        .map(|(k, v)| (k.clone(), num(v).as_i64().unwrap()))
        .collect();
    assert_eq!(pairs, vec![(String::from("a"), 1), (String::from("b"), 2)]);
}

#[test]
fn deserializes_integer_keyed_map() {
    let v = from_str(r#"{"1":"a","2":"b"}"#).unwrap();
    let m = obj(&v);
    let pairs: Vec<(i64, Value)> = m
        .iter()
        .into_iter()
        .map(|(k, v)| (MapKeyDeserializer(k.clone()).deserialize_i64().unwrap(), v.clone()))
        .collect();
    assert_eq!(
        pairs,
        vec![
            (1, Value::String(String::from("a"))),
            (2, Value::String(String::from("b")))
        ]
    );
}

#[test]
fn rejects_invalid_integer_key() {
    let v = from_str(r#"{"x":1}"#).unwrap();
    let keys = obj(&v).keys();
    assert!(MapKeyDeserializer(keys[0].clone()).deserialize_i64().is_err());
}

#[test]
fn deserializes_derived_struct() {
    let v = from_str(r#"{"x":1,"y":-2}"#).unwrap();
    let m = obj(&v);
    assert_eq!(m.len(), 2);
    assert_eq!(num(m.get("x").unwrap()).as_i64(), Some(1));
    assert_eq!(num(m.get("y").unwrap()).as_i64(), Some(-2));
}

#[test]
fn deserializes_derived_enum_variants() {
    let (name, content) = enum_from_str(r#""Unit""#).unwrap();
    assert_eq!(name, "Unit");
    assert!(content.is_none());

    let (name, content) = enum_from_str(r#"{"Newtype":5}"#).unwrap();
    assert_eq!(name, "Newtype");
    assert_eq!(num(&content.unwrap()).as_i64(), Some(5));

    let (name, content) = enum_from_str(r#"{"Tuple":[1,2]}"#).unwrap();
    assert_eq!(name, "Tuple");
    match content.unwrap() {
        Value::Array(items) => assert_eq!(ints(&items), vec![1, 2]),
        other => panic!("expected an array, got {other:?}"),
    }

    let (name, content) = enum_from_str(r#"{"Struct":{"w":3,"h":4}}"#).unwrap();
    assert_eq!(name, "Struct");
    let content = content.unwrap();
    let m = obj(&content);
    assert_eq!(num(m.get("w").unwrap()).as_i64(), Some(3));
    assert_eq!(num(m.get("h").unwrap()).as_i64(), Some(4));
}

#[test]
fn matches_serde_json_error_behavior_on_malformed_input() {
    let v = from_str(r#"{"x":1}"#).unwrap();
    assert!(obj(&v).get("y").is_none());
    let v = from_str(r#""not a number""#).unwrap();
    assert!(!matches!(v, Value::Number(_)));
}

#[test]
fn from_slice_matches_from_str() {
    let v = from_slice(br#"{"a":1}"#).unwrap();
    assert_eq!(v, from_str(r#"{"a":1}"#).unwrap());
}

#[test]
fn stream_deserializer_yields_each_value() {
    let values = collect(StreamDeserializer::from_str("1 2\n3   4"));
    assert_eq!(ints(&values), vec![1, 2, 3, 4]);
}

#[test]
fn stream_deserializer_stops_at_end() {
    let mut it = StreamDeserializer::from_str("1");
    assert_eq!(num(&it.next().unwrap().unwrap()).as_i64(), Some(1));
    assert!(it.next().is_none());
    assert!(it.next().is_none());
}

#[test]
fn stream_deserializer_fuses_on_error() {
    let mut it = StreamDeserializer::from_str("1 bogus 3");
    assert!(it.next().unwrap().is_ok());
    assert!(it.next().unwrap().is_err());
    assert!(it.next().is_none());
}

#[test]
fn stream_deserializer_from_slice_matches_from_str() {
    let a = collect(StreamDeserializer::from_str("1 2 3"));
    let b = collect(StreamDeserializer::from_slice(b"1 2 3"));
    assert_eq!(a, b);
}

#[test]
fn stream_deserializer_from_reader() {
    let values = collect(StreamDeserializer::from_slice(
        r#"{"x":1,"y":2}{"x":3,"y":4}"#.as_bytes(),
    ));
    let points: Vec<(i64, i64)> = values
        .iter()
        .map(|v| {
            let m = obj(v);
            (
                num(m.get("x").unwrap()).as_i64().unwrap(),
                num(m.get("y").unwrap()).as_i64().unwrap(),
            )
        })
        .collect();
    assert_eq!(points, vec![(1, 2), (3, 4)]);
}

#[test]
fn from_slice_rejects_invalid_utf8() {
    let err = from_slice(&[b'"', 0xff, b'"']).unwrap_err();
    assert_eq!(err.message(), "input is not valid utf-8");
    assert_eq!(err.line(), 1);
    assert_eq!(err.column(), 1);
}

#[test]
fn from_slice_reports_the_same_error_as_from_str() {
    let a = from_slice(b"[1,\n x]").unwrap_err();
    let b = from_str("[1,\n x]").unwrap_err();
    assert_eq!(a, b);
    assert_eq!(a.line(), 2);
    assert_eq!(a.column(), 2);
}

#[test]
fn stream_yields_an_error_for_invalid_utf8_and_then_stops() {
    // The rest of the input is checked as a whole, so a bad byte anywhere
    // after the current position stops the stream at once.
    let mut it = StreamDeserializer::from_slice(&[b'1', b' ', 0xff]);
    let err = it.next().unwrap().unwrap_err();
    assert_eq!(err.message(), "input is not valid utf-8");
    assert!(it.next().is_none());
}

#[test]
fn stream_of_only_whitespace_is_empty() {
    let mut it = StreamDeserializer::from_str(" \n\t\r ");
    assert!(it.next().is_none());
}

#[test]
fn stream_values_need_no_separator_after_containers() {
    let values = collect(StreamDeserializer::from_str("[1][2]{}\"s\"null"));
    assert_eq!(values.len(), 5);
    assert_eq!(values[4], Value::Null);
    assert_eq!(values[3], Value::String(String::from("s")));
}

#[test]
fn parse_one_reports_bytes_consumed() {
    let (v, n) = parse_one("  [1, 2] tail").unwrap();
    assert_eq!(n, 8);
    assert!(matches!(v, Value::Array(_)));
    let (v, n) = parse_one("\"é\"x").unwrap();
    assert_eq!(v, Value::String(String::from("é")));
    assert_eq!(n, 4);
}

#[test]
fn map_keys_read_as_integers_and_booleans() {
    assert_eq!(MapKeyDeserializer(String::from("-12")).deserialize_i64().unwrap(), -12);
    assert_eq!(MapKeyDeserializer(String::from("+7")).deserialize_i64().unwrap(), 7);
    assert_eq!(
        MapKeyDeserializer(String::from("-9223372036854775808")).deserialize_i64().unwrap(),
        i64::MIN
    );
    assert!(MapKeyDeserializer(String::from("9223372036854775808")).deserialize_i64().is_err());
    assert_eq!(
        MapKeyDeserializer(String::from("18446744073709551615")).deserialize_u64().unwrap(),
        u64::MAX
    );
    assert!(MapKeyDeserializer(String::from("18446744073709551616")).deserialize_u64().is_err());
    assert!(MapKeyDeserializer(String::from("-1")).deserialize_u64().is_err());
    assert!(MapKeyDeserializer(String::from("")).deserialize_i64().is_err());
    assert!(MapKeyDeserializer(String::from("+")).deserialize_u64().is_err());
    assert!(MapKeyDeserializer(String::from("1x")).deserialize_u64().is_err());
    assert!(MapKeyDeserializer(String::from("true")).deserialize_bool().unwrap());
    assert!(!MapKeyDeserializer(String::from("false")).deserialize_bool().unwrap());
    let err = MapKeyDeserializer(String::from("yes")).deserialize_bool().unwrap_err();
    assert_eq!(err.message(), "invalid map key: expected `true` or `false`");
    let err = MapKeyDeserializer(String::from("x")).deserialize_i64().unwrap_err();
    assert_eq!(err.message(), "invalid map key: expected i64");
}

#[test]
fn enum_errors_name_the_enum_and_the_position() {
    let check = |text: &str, msg: &str, line: usize, column: usize| {
        let err = enum_from_str(text).unwrap_err();
        assert_eq!((err.message(), err.line(), err.column()), (msg, line, column), "on {text}");
    };
    check("{}", "expected variant name string", 1, 2);
    check(r#"{"A":1,"B":2}"#, "expected `}` after enum value", 1, 8);
    check("[1]", "expected string or object for enum", 1, 1);
    check(r#"{"A" 1}"#, "expected `:` after variant name", 1, 7);
    check(r#"{"A":1"#, "unexpected end of input in enum", 1, 7);
    check("{\n", "unexpected end of input in enum", 2, 1);
    check("  ", "unexpected end of input", 1, 3);
    check(r#""A" x"#, "trailing characters after JSON value", 1, 5);
    let (name, content) = enum_from_str(" { \"A\" : null } ").unwrap();
    assert_eq!(name, "A");
    assert_eq!(content, Some(Value::Null));
}

#[test]
fn text_of_bytes_checks_utf8() {
    assert_eq!(text_of_bytes("é".as_bytes()).unwrap(), "é");
    let err = text_of_bytes(&[0xc3]).unwrap_err();
    assert_eq!((err.message(), err.line(), err.column()), ("input is not valid utf-8", 1, 1));
}
