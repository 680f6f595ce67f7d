use rusty_json::error::ErrorCode;
use rusty_json::Error;

#[test]
fn display_includes_position() {
    let err = Error::new("unexpected token", 3, 7);
    assert_eq!(err.to_string(), "unexpected token at line 3 column 7");
    assert_eq!(err.line(), 3);
    assert_eq!(err.column(), 7);
    assert_eq!(err.message(), "unexpected token");
}

#[test]
fn codes_have_their_messages() {
    let err = Error::from_code(ErrorCode::ExpectedColon, 1, 10);
    assert_eq!(err.message(), "expected `:` after object key");
    assert_eq!(err.to_string(), "expected `:` after object key at line 1 column 10");
    assert_eq!(ErrorCode::UnexpectedChar(b'%').to_message(), "unexpected character `%`");
    assert_eq!(ErrorCode::InvalidUtf8.to_message(), "input is not valid utf-8");
}

#[test]
fn display_of_large_positions() {
    let err = Error::new("m", 0, usize::MAX);
    assert_eq!(err.to_string(), format!("m at line 0 column {}", usize::MAX));
}
