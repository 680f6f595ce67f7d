use rusty_json::parser::Parser;
use rusty_json::{from_str, Number, Value};

#[test]
fn parses_literals() {
    assert_eq!(Parser::parse("null").unwrap(), Value::Null);
    assert_eq!(Parser::parse("true").unwrap(), Value::Bool(true));
    assert_eq!(Parser::parse("false").unwrap(), Value::Bool(false));
}

#[test]
fn skips_surrounding_whitespace() {
    assert_eq!(Parser::parse("  \n\t null  \r\n").unwrap(), Value::Null);
}

#[test]
fn rejects_invalid_literal() {
    assert!(Parser::parse("nul").is_err());
    assert!(Parser::parse("truee").is_err());
    assert!(Parser::parse("nulll").is_err());
}

#[test]
fn rejects_empty_input() {
    assert!(Parser::parse("").is_err());
    assert!(Parser::parse("   ").is_err());
}

#[test]
fn error_reports_line_and_column() {
    let err = Parser::parse("\n\n  bogus").unwrap_err();
    assert_eq!(err.line(), 3);
    assert_eq!(err.column(), 3);
}

#[test]
fn literal_errors_name_the_literal_and_position() {
    let err = Parser::parse("nul").unwrap_err();
    assert_eq!(err.message(), "invalid literal, expected `null`");
    assert_eq!((err.line(), err.column()), (1, 4));
    let err = Parser::parse("trux").unwrap_err();
    assert_eq!(err.message(), "invalid literal, expected `true`");
    assert_eq!((err.line(), err.column()), (1, 5));
    let err = Parser::parse("fals").unwrap_err();
    assert_eq!(err.message(), "invalid literal, expected `false`");
}

#[test]
fn trailing_characters_are_reported_where_they_start() {
    let err = Parser::parse("truee").unwrap_err();
    assert_eq!(err.message(), "trailing characters after JSON value");
    assert_eq!((err.line(), err.column()), (1, 5));
    let err = Parser::parse("1 2").unwrap_err();
    assert_eq!(err.message(), "trailing characters after JSON value");
    assert_eq!((err.line(), err.column()), (1, 3));
}

#[test]
fn empty_input_is_an_unexpected_end() {
    let err = Parser::parse("  ").unwrap_err();
    assert_eq!(err.message(), "unexpected end of input");
    assert_eq!((err.line(), err.column()), (1, 3));
}

#[test]
fn unexpected_character_names_it() {
    let err = Parser::parse("?").unwrap_err();
    assert_eq!(err.message(), "unexpected character `?`");
    assert_eq!((err.line(), err.column()), (1, 1));
}

#[test]
fn parses_numbers_by_kind() {
    assert_eq!(from_str("0").unwrap(), Value::Number(Number::from(0u64)));
    match from_str("-0").unwrap() {
        Value::Number(n) => {
            assert!(n.is_f64());
            assert_eq!(n.to_string(), "-0.0");
        },
        other => panic!("expected a number, got {other:?}"),
    }
    assert_eq!(from_str("-12").unwrap(), Value::Number(Number::from(-12i64)));
    assert_eq!(
        from_str("18446744073709551615").unwrap(),
        Value::Number(Number::from(u64::MAX))
    );
    assert_eq!(
        from_str("-9223372036854775808").unwrap(),
        Value::Number(Number::from(i64::MIN))
    );
    match from_str("2.5e-3").unwrap() {
        Value::Number(n) => {
            assert!(n.is_f64());
            assert_eq!(n.to_string(), "2.5e-3");
        },
        other => panic!("expected a number, got {other:?}"),
    }
    match from_str("18446744073709551616").unwrap() {
        Value::Number(n) => {
            assert!(n.is_f64());
            assert_eq!(n.to_string(), "18446744073709551616.0");
        },
        other => panic!("expected a number, got {other:?}"),
    }
}

#[test]
fn rejects_malformed_numbers() {
    for text in ["01", "1.", "-", "1e", "1e+", ".5", "+1"] {
        assert!(from_str(text).is_err(), "accepted {text}");
    }
    assert_eq!(from_str("01").unwrap_err().message(), "trailing characters after JSON value");
    assert_eq!(from_str("1.").unwrap_err().message(), "invalid number");
    assert_eq!(from_str("-").unwrap_err().message(), "invalid number");
}

#[test]
fn parses_strings_with_escapes() {
    assert_eq!(
        from_str(r#""a\"b\\c\/d\b\f\n\r\t""#).unwrap(),
        Value::String(String::from("a\"b\\c/d\u{8}\u{c}\n\r\t"))
    );
    assert_eq!(from_str(r#""\u0041\u00e9""#).unwrap(), Value::String(String::from("Aé")));
    assert_eq!(
        from_str(r#""\ud83d\ude00""#).unwrap(),
        Value::String(String::from("\u{1F600}"))
    );
    assert_eq!(from_str("\"é\"").unwrap(), Value::String(String::from("é")));
}

#[test]
fn rejects_malformed_strings() {
    assert_eq!(from_str(r#""\x""#).unwrap_err().message(), "invalid escape in string");
    assert_eq!(
        from_str(r#""\u12g4""#).unwrap_err().message(),
        "invalid unicode escape in string"
    );
    assert_eq!(
        from_str(r#""\ud83d""#).unwrap_err().message(),
        "invalid unicode escape in string"
    );
    assert_eq!(
        from_str(r#""\ude00""#).unwrap_err().message(),
        "invalid unicode escape in string"
    );
    assert_eq!(from_str("\"a\nb\"").unwrap_err().message(), "control character in string");
    assert_eq!(from_str("\"abc").unwrap_err().message(), "unexpected end of input in string");
}

#[test]
fn rejects_malformed_containers() {
    assert_eq!(from_str("[1 2]").unwrap_err().message(), "expected `,` or `]` in array");
    assert_eq!(from_str("[1,").unwrap_err().message(), "unexpected end of input");
    assert_eq!(from_str("[1").unwrap_err().message(), "unexpected end of input in array");
    assert_eq!(from_str("[1,]").unwrap_err().message(), "unexpected character `]`");
    assert_eq!(from_str("{1:2}").unwrap_err().message(), "expected string key in object");
    assert_eq!(from_str(r#"{"a" 1}"#).unwrap_err().message(), "expected `:` after object key");
    assert_eq!(
        from_str(r#"{"a":1 "b":2}"#).unwrap_err().message(),
        "expected `,` or `}` in object"
    );
    assert_eq!(
        from_str(r#"{"a":1"#).unwrap_err().message(),
        "unexpected end of input in object"
    );
    assert_eq!(from_str("{").unwrap_err().message(), "unexpected end of input in object");
}

#[test]
fn later_duplicate_keys_win() {
    let v = from_str(r#"{"a":1,"a":2}"#).unwrap();
    match v {
        Value::Object(m) => {
            assert_eq!(m.len(), 1);
            assert_eq!(m.get("a"), Some(&Value::Number(Number::from(2u64))));
        },
        other => panic!("expected an object, got {other:?}"),
    }
}

#[test]
fn parser_reports_position_after_a_value() {
    let mut p = Parser::new("  [true]  ");
    assert!(p.parse_value().is_ok());
    assert_eq!(p.byte_pos(), 8);
    assert!(!p.at_end());
    p.skip_whitespace();
    assert!(p.at_end());
}
