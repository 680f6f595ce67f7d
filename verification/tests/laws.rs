use rusty_json::{from_slice, from_str, to_string, JsonMap, StreamDeserializer, Value};

#[test]
fn written_text_reads_back_as_the_same_value() {
    let mut inner = JsonMap::new();
    inner.insert(String::from("q\"\\\u{1}"), Value::Array(vec![Value::Null, Value::Bool(false)]));
    let mut outer = JsonMap::new();
    outer.insert(String::from("z"), Value::String(String::from("tab\there")));
    outer.insert(String::from("a"), Value::Object(inner));
    let v = Value::Object(outer);
    assert_eq!(from_str(&to_string(&v)).unwrap(), v);
}

#[test]
fn bytes_and_text_read_alike() {
    for text in ["[1, 2]", "{\"é\": \"ü\"}", "nul", "[1,", "\"\\q\""] {
        assert_eq!(from_slice(text.as_bytes()), from_str(text), "differ on {text}");
    }
}

#[test]
fn ended_stream_stays_ended() {
    let mut it = StreamDeserializer::from_str("[1] [");
    assert!(it.next().unwrap().is_ok());
    assert!(it.next().unwrap().is_err());
    for _ in 0..3 {
        assert!(it.next().is_none());
    }
}

#[test]
fn insert_then_get_and_remove_then_get() {
    let mut m = JsonMap::new();
    m.insert(String::from("k"), Value::Null);
    m.insert(String::from("j"), Value::Bool(true));
    assert_eq!(m.get("k"), Some(&Value::Null));
    assert_eq!(m.get("j"), Some(&Value::Bool(true)));
    assert_eq!(m.len(), 2);
    m.insert(String::from("k"), Value::Bool(false));
    assert_eq!(m.len(), 2);
    m.remove("k");
    assert_eq!(m.get("k"), None);
    assert_eq!(m.get("j"), Some(&Value::Bool(true)));
}

#[test]
fn stream_over_written_lines_yields_each_value() {
    let values = vec![
        from_str("[1, {\"b\": null, \"a\": \"\\u00e9\"}]").unwrap(),
        from_str("-0.5e3").unwrap(),
        from_str("\"line\\nbreak\"").unwrap(),
        from_str("true").unwrap(),
    ];
    let mut text = String::new();
    for v in &values {
        text.push_str(&to_string(v));
        text.push('\n');
    }
    let mut it = StreamDeserializer::from_str(&text);
    for v in &values {
        assert_eq!(&it.next().unwrap().unwrap(), v);
    }
    assert!(it.next().is_none());
}

#[test]
fn integers_read_back_exactly() {
    for n in [0u64, 1, 9007199254740993, u64::MAX] {
        let v = Value::Number(rusty_json::Number::from(n));
        assert_eq!(from_str(&to_string(&v)).unwrap(), v);
    }
    for n in [-1i64, -9007199254740993, i64::MIN] {
        let v = Value::Number(rusty_json::Number::from(n));
        assert_eq!(from_str(&to_string(&v)).unwrap(), v);
    }
}

#[test]
fn stream_over_texts_separated_by_any_whitespace() {
    let texts = ["[1, 2]", "{\"a\" : {\"b\" : null}}", "3", "\"x y\"", "false"];
    let text = format!(
        "  {}\t\n{} {}\r\n {}\n\n{}   ",
        texts[0], texts[1], texts[2], texts[3], texts[4]
    );
    let mut it = StreamDeserializer::from_str(&text);
    for t in texts {
        assert_eq!(it.next().unwrap().unwrap(), from_str(t).unwrap());
    }
    assert!(it.next().is_none());
}

#[test]
fn stream_yields_at_most_one_item_per_byte() {
    let text = "1 2 3 [] {} \"\"";
    let mut it = StreamDeserializer::from_str(text);
    let mut count = 0;
    while it.next().is_some() {
        count += 1;
        assert!(count <= text.len());
    }
    assert_eq!(count, 6);
}
