use rusty_json::formatter::write_escape;
use rusty_json::{CharEscape, CompactFormatter, Formatter, PrettyFormatter};

fn object_with_array<F: Formatter>(f: &mut F) -> String {
    let mut out = String::new();
    f.begin_object(&mut out);
    f.begin_object_key(&mut out, true);
    f.begin_string(&mut out);
    f.write_string_fragment(&mut out, "a");
    f.end_string(&mut out);
    f.end_object_key(&mut out);
    f.begin_object_value(&mut out);
    f.begin_array(&mut out);
    f.begin_array_value(&mut out, true);
    f.write_null(&mut out);
    f.end_array_value(&mut out);
    f.begin_array_value(&mut out, false);
    f.write_bool(&mut out, true);
    f.end_array_value(&mut out);
    f.end_array(&mut out, false);
    f.end_object_value(&mut out);
    f.begin_object_key(&mut out, false);
    f.begin_string(&mut out);
    f.write_string_fragment(&mut out, "b");
    f.end_string(&mut out);
    f.end_object_key(&mut out);
    f.begin_object_value(&mut out);
    f.begin_object(&mut out);
    f.end_object(&mut out, true);
    f.end_object_value(&mut out);
    f.end_object(&mut out, false);
    out
}

#[test]
fn compact_formatter_adds_no_whitespace() {
    assert_eq!(object_with_array(&mut CompactFormatter), r#"{"a":[null,true],"b":{}}"#);
}

#[test]
fn pretty_formatter_indents_two_spaces_by_default() {
    assert_eq!(
        object_with_array(&mut PrettyFormatter::new()),
        "{\n  \"a\": [\n    null,\n    true\n  ],\n  \"b\": {}\n}"
    );
    assert_eq!(
        object_with_array(&mut PrettyFormatter::default()),
        object_with_array(&mut PrettyFormatter::new())
    );
}

#[test]
fn pretty_formatter_with_custom_width() {
    assert_eq!(
        object_with_array(&mut PrettyFormatter::with_indent_width(4)),
        "{\n    \"a\": [\n        null,\n        true\n    ],\n    \"b\": {}\n}"
    );
    assert_eq!(
        object_with_array(&mut PrettyFormatter::with_indent_width(0)),
        "{\n\"a\": [\nnull,\ntrue\n],\n\"b\": {}\n}"
    );
}

#[test]
fn char_escapes() {
    let mut f = CompactFormatter;
    let mut out = String::new();
    for e in [
        CharEscape::Quote,
        CharEscape::ReverseSolidus,
        CharEscape::Backspace,
        CharEscape::FormFeed,
        CharEscape::LineFeed,
        CharEscape::CarriageReturn,
        CharEscape::Tab,
        CharEscape::AsciiControl(0x1f),
        CharEscape::AsciiControl(0x0a),
    ] {
        f.write_char_escape(&mut out, e);
    }
    assert_eq!(out, "\\\"\\\\\\b\\f\\n\\r\\t\\u001f\\u000a");
    let mut out = String::from(">");
    write_escape(&mut out, CharEscape::AsciiControl(0xab));
    assert_eq!(out, ">\\u00ab");
}

#[test]
fn number_tokens_are_written_verbatim() {
    let mut out = String::new();
    CompactFormatter.write_number_str(&mut out, "-1.5e3");
    PrettyFormatter::new().write_bool(&mut out, false);
    assert_eq!(out, "-1.5e3false");
}

#[test]
fn closing_restores_the_indentation() {
    let mut f = PrettyFormatter::new();
    let mut out = String::new();
    f.begin_array(&mut out);
    f.begin_array(&mut out);
    f.end_array(&mut out, true);
    f.begin_array_value(&mut out, false);
    assert_eq!(out, "[[],\n  ");
}

#[test]
fn pretty_array_of_two_numbers() {
    let mut f = PrettyFormatter::new();
    let mut out = String::new();
    f.begin_array(&mut out);
    f.end_array(&mut out, true);
    assert_eq!(out, "[]");

    let mut f = PrettyFormatter::new();
    let mut out = String::new();
    f.begin_array(&mut out);
    f.begin_array_value(&mut out, true);
    f.write_number_str(&mut out, "1");
    f.end_array_value(&mut out);
    f.begin_array_value(&mut out, false);
    f.write_number_str(&mut out, "2");
    f.end_array_value(&mut out);
    f.end_array(&mut out, false);
    assert_eq!(out, "[\n  1,\n  2\n]");
}
