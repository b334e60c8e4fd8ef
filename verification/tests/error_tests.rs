use rust_json_parser::JsonError;

#[test]
fn test_invalid_escape_display() {
    let err = JsonError::InvalidEscape {
        char: 'q',
        position: 5,
    };
    let msg = err.to_string();
    assert!(msg.contains("escape"));
    assert!(msg.contains("q"));
}

#[test]
fn test_invalid_unicode_display() {
    let err = JsonError::InvalidUnicode {
        sequence: "00GG".to_string(),
        position: 3,
    };
    let msg = err.to_string();
    assert!(msg.contains("unicode") || msg.contains("Unicode"));
}

/// The error type carries a message that a `std::error::Error` wrapper shows.
#[derive(Debug)]
struct Reported(JsonError);

impl std::fmt::Display for Reported {
    fn fmt(&self, f: &mut std::fmt::Formatter<'_>) -> std::fmt::Result {
        f.write_str(&self.0.to_string())
    }
}

impl std::error::Error for Reported {}

#[test]
fn test_error_is_std_error() {
    let err = JsonError::InvalidEscape {
        char: 'x',
        position: 0,
    };
    let wrapped = Reported(err);
    let e: &dyn std::error::Error = &wrapped;
    assert_eq!(e.to_string(), "Invalid escape character: x at position 0:");
}

#[test]
fn test_error_messages_exact() {
    let cases = vec![
        (
            JsonError::UnexpectedToken { expected: "Comma".to_string(), found: "Null".to_string(), position: 12 },
            "Unexpected token at position 12: expected Comma, found Null",
        ),
        (
            JsonError::UnexpectedEndOfInput { expected: "RightBrace".to_string(), position: 7 },
            "Unexpected end of input at position 7: expected RightBrace",
        ),
        (
            JsonError::InvalidNumber { value: "1.2.3".to_string(), position: 5 },
            "Invalid number: 1.2.3 at position 5:",
        ),
        (
            JsonError::InvalidUnicode { sequence: "00".to_string(), position: 10 },
            "Invalid unicode: 00 at position 10:",
        ),
        (JsonError::InvalidPosition { position: 3 }, "Invalid position: 3"),
        (JsonError::ExpectedColon { position: 0 }, "Expected Colon at position: 0"),
        (JsonError::IOError { message: "disk full".to_string() }, "disk full"),
        (JsonError::FileNotFound { path: "a.json".to_string() }, "File not found: a.json"),
    ];
    for (err, msg) in cases {
        assert_eq!(err.to_string(), msg);
    }
}

#[test]
fn test_python_messages() {
    let err = JsonError::UnexpectedEndOfInput { expected: "JSON value".to_string(), position: 0 };
    assert_eq!(err.python_message(), "Unexpected end of input at position JSON value: expected 0");
    assert!(!err.is_io_error());
    let err = JsonError::ExpectedColon { position: 4 };
    assert_eq!(err.python_message(), err.to_string());
    assert!(JsonError::IOError { message: "x".to_string() }.is_io_error());
    assert!(JsonError::FileNotFound { path: "x".to_string() }.is_io_error());
}

#[test]
fn test_large_position_decimal() {
    let err = JsonError::InvalidPosition { position: 1234567890 };
    assert_eq!(err.to_string(), "Invalid position: 1234567890");
}
