use rusty_json::error::{ErrorCode, Literal};
use rusty_json::parser::Parser;
use rusty_json::{Number, StreamDeserializer, Value};

#[test]
fn array_steps_read_elements_in_turn() {
    let mut p = Parser::new(" [1 , 2] ");
    p.open_container('[', ErrorCode::ExpectedArray).unwrap();
    assert!(p.array_next(true).unwrap());
    assert_eq!(p.parse_value().unwrap(), Value::Number(Number::from(1u64)));
    assert!(p.array_next(false).unwrap());
    assert_eq!(p.parse_value().unwrap(), Value::Number(Number::from(2u64)));
    assert!(!p.array_next(false).unwrap());
    p.close_array().unwrap();
    p.skip_whitespace();
    assert!(p.at_end());
}

#[test]
fn array_step_errors() {
    let mut p = Parser::new("[1 2]");
    p.open_container('[', ErrorCode::ExpectedArray).unwrap();
    assert!(p.array_next(true).unwrap());
    p.parse_value().unwrap();
    let err = p.array_next(false).unwrap_err();
    assert_eq!((err.message(), err.column()), ("expected `,` or `]` in array", 5));
    let mut p = Parser::new(" 5");
    let err = p.open_container('[', ErrorCode::ExpectedTupleVariant).unwrap_err();
    assert_eq!((err.message(), err.column()), ("expected array for tuple variant", 2));
    let mut p = Parser::new("[1");
    p.open_container('[', ErrorCode::ExpectedArray).unwrap();
    p.array_next(true).unwrap();
    p.parse_value().unwrap();
    let err = p.close_array().unwrap_err();
    assert_eq!((err.message(), err.column()), ("unexpected end of input in array", 3));
}

#[test]
fn object_steps_read_members_in_turn() {
    let mut p = Parser::new("{\"a\" : 1, \"b\":true}");
    p.open_container('{', ErrorCode::ExpectedObject).unwrap();
    assert_eq!(p.object_next_key(true).unwrap(), Some(String::from("a")));
    p.object_colon().unwrap();
    assert_eq!(p.parse_value().unwrap(), Value::Number(Number::from(1u64)));
    assert_eq!(p.object_next_key(false).unwrap(), Some(String::from("b")));
    p.object_colon().unwrap();
    assert_eq!(p.parse_value().unwrap(), Value::Bool(true));
    assert_eq!(p.object_next_key(false).unwrap(), None);
    p.close_object().unwrap();
    assert!(p.at_end());
}

#[test]
fn object_step_errors() {
    let mut p = Parser::new("{1}");
    p.open_container('{', ErrorCode::ExpectedObject).unwrap();
    let err = p.object_next_key(true).unwrap_err();
    assert_eq!((err.message(), err.column()), ("expected string key in object", 2));
    let mut p = Parser::new("{\"a\" 1}");
    p.open_container('{', ErrorCode::ExpectedObject).unwrap();
    p.object_next_key(true).unwrap();
    let err = p.object_colon().unwrap_err();
    assert_eq!((err.message(), err.column()), ("expected `:` after object key", 7));
    let mut p = Parser::new("[]");
    let err = p.open_container('{', ErrorCode::ExpectedStructVariant).unwrap_err();
    assert_eq!(err.message(), "expected object for struct variant");
}

#[test]
fn enum_steps() {
    let mut p = Parser::new("\"Unit\"");
    assert_eq!(p.enum_open().unwrap(), (String::from("Unit"), false));
    assert!(p.at_end());
    let mut p = Parser::new("{ \"N\" : 5 }");
    assert_eq!(p.enum_open().unwrap(), (String::from("N"), true));
    assert_eq!(p.parse_value().unwrap(), Value::Number(Number::from(5u64)));
    p.close_enum().unwrap();
    assert!(p.at_end());
    let mut p = Parser::new("{\"N\":5,");
    p.enum_open().unwrap();
    p.parse_value().unwrap();
    let err = p.close_enum().unwrap_err();
    assert_eq!((err.message(), err.column()), ("expected `}` after enum value", 8));
    let mut p = Parser::new("nul");
    let err = p.expect_literal(Literal::Null).unwrap_err();
    assert_eq!((err.message(), err.column()), ("invalid literal, expected `null`", 4));
}

#[test]
fn stream_steps_hand_out_text() {
    let mut s = StreamDeserializer::from_str("  1 [2]  ");
    let t = s.next_text().unwrap().unwrap();
    assert_eq!(t, "1 [2]  ");
    s.advance(1);
    let t = s.next_text().unwrap().unwrap();
    assert_eq!(t, "[2]  ");
    s.finish();
    assert!(s.next_text().is_none());
    assert!(s.next().is_none());
    let mut s = StreamDeserializer::from_slice(&[b' ', 0xff]);
    assert_eq!(s.next_text().unwrap().unwrap_err().message(), "input is not valid utf-8");
    assert!(s.next_text().is_none());
}
