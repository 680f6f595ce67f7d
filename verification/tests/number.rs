use rusty_json::{from_str, Number, Value};

fn parsed(text: &str) -> Number {
    match from_str(text).unwrap() {
        Value::Number(n) => n,
        other => panic!("expected a number, got {other:?}"),
    }
}

#[test]
fn integers_round_trip() {
    assert_eq!(Number::from(42u64).as_u64(), Some(42));
    assert_eq!(Number::from(42u64).as_i64(), Some(42));
    assert_eq!(Number::from(-7i64).as_i64(), Some(-7));
    assert_eq!(Number::from(-7i64).as_u64(), None);
    assert_eq!(Number::from(u64::MAX).as_i64(), None);
}

#[test]
fn display_integers() {
    assert_eq!(Number::from(42u64).to_string(), "42");
    assert_eq!(Number::from(-7i64).to_string(), "-7");
}

#[test]
fn is_predicates() {
    assert!(Number::from(1u64).is_u64());
    assert!(Number::from(1u64).is_i64());
    assert!(!Number::from(1u64).is_f64());
    assert!(parsed("1.0").is_f64());
}

#[test]
fn non_integers_keep_their_text() {
    assert_eq!(parsed("1.0").to_string(), "1.0");
    assert_eq!(parsed("1.5").to_string(), "1.5");
    assert_eq!(parsed("-0.0").to_string(), "-0.0");
    assert_eq!(parsed("1.5").as_i64(), None);
    assert_eq!(parsed("1.5").as_u64(), None);
}

#[test]
fn conversions_from_every_integer_type() {
    assert_eq!(Number::from(7u8).as_u64(), Some(7));
    assert_eq!(Number::from(7u16).as_u64(), Some(7));
    assert_eq!(Number::from(7u32).as_u64(), Some(7));
    assert_eq!(Number::from(7usize).as_u64(), Some(7));
    assert_eq!(Number::from(-7i8).as_i64(), Some(-7));
    assert_eq!(Number::from(-7i16).as_i64(), Some(-7));
    assert_eq!(Number::from(-7i32).as_i64(), Some(-7));
    assert_eq!(Number::from(-7isize).as_i64(), Some(-7));
    assert_eq!(Number::from(7i32).as_u64(), Some(7));
    assert_eq!(Number::from(0i64), Number::from(0u64));
    assert_eq!(Number::from(i8::MIN).to_string(), "-128");
}

#[test]
fn parsed_integers_take_the_integer_forms() {
    assert_eq!(parsed("9223372036854775807").as_i64(), Some(i64::MAX));
    assert_eq!(parsed("9223372036854775808").as_i64(), None);
    assert_eq!(parsed("9223372036854775808").as_u64(), Some(9223372036854775808));
    assert_eq!(parsed("-1"), Number::from(-1i64));
    assert!(parsed("-9223372036854775809").is_f64());
}
