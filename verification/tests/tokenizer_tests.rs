use rust_json_parser::{JsonError, JsonNumber, Token, Tokenizer};

type Result<T> = std::result::Result<T, JsonError>;

/// The number token of a float, written as the float displays.
fn num(x: f64) -> Token {
    Token::Number(JsonNumber::parse(&x.to_string()).unwrap())
}

#[test]
fn test_empty_braces() -> Result<()> {
    let mut json_tokenizer = Tokenizer::new("{}");
    let tokens = json_tokenizer.tokenize()?;
    assert_eq!(tokens.len(), 2);
    assert_eq!(tokens[0], Token::LeftBrace);
    assert_eq!(tokens[1], Token::RightBrace);
    Ok(())
}

#[test]
fn test_simple_string() -> Result<()> {
    let mut json_tokenizer = Tokenizer::new(r#""hello""#);
    let tokens = json_tokenizer.tokenize()?;
    assert_eq!(tokens.len(), 1);
    assert_eq!(tokens[0], Token::String("hello".to_string()));
    Ok(())
}

#[test]
fn test_number() -> Result<()> {
    let mut json_tokenizer = Tokenizer::new("42");
    let tokens = json_tokenizer.tokenize()?;
    assert_eq!(tokens.len(), 1);
    assert_eq!(tokens[0], num(42.0));
    Ok(())
}

#[test]
fn test_tokenize_string() -> Result<()> {
    let mut json_tokenizer = Tokenizer::new(r#""hello world""#);
    let tokens = json_tokenizer.tokenize()?;

    assert_eq!(tokens.len(), 1);
    assert_eq!(tokens[0], Token::String("hello world".to_string()));
    Ok(())
}

#[test]
fn test_boolean_and_null() -> Result<()> {
    let mut json_tokenizer = Tokenizer::new("true false null");
    let tokens = json_tokenizer.tokenize()?;
    assert_eq!(tokens.len(), 3);
    assert_eq!(tokens[0], Token::Boolean(true));
    assert_eq!(tokens[1], Token::Boolean(false));
    assert_eq!(tokens[2], Token::Null);
    Ok(())
}

#[test]
fn test_simple_object() -> Result<()> {
    let mut json_tokenizer = Tokenizer::new(r#"{"name": "Alice"}"#);
    let tokens = json_tokenizer.tokenize()?;
    assert_eq!(tokens.len(), 5);
    assert_eq!(tokens[0], Token::LeftBrace);
    assert_eq!(tokens[1], Token::String("name".to_string()));
    assert_eq!(tokens[2], Token::Colon);
    assert_eq!(tokens[3], Token::String("Alice".to_string()));
    assert_eq!(tokens[4], Token::RightBrace);
    Ok(())
}

#[test]
fn test_multiple_values() -> Result<()> {
    let mut json_tokenizer = Tokenizer::new(r#"{"age": 30, "active": true}"#);
    let tokens = json_tokenizer.tokenize()?;

    // Verify we have the right tokens
    assert!(tokens.contains(&Token::String("age".to_string())));
    assert!(tokens.contains(&num(30.0)));
    assert!(tokens.contains(&Token::Comma));
    assert!(tokens.contains(&Token::String("active".to_string())));
    assert!(tokens.contains(&Token::Boolean(true)));
    Ok(())
}

// String boundary tests - verify inner vs outer quote handling
#[test]
fn test_empty_string() -> Result<()> {
    // Outer boundary: adjacent quotes with no inner content
    let mut json_tokenizer = Tokenizer::new(r#""""#);
    let tokens = json_tokenizer.tokenize()?;
    assert_eq!(tokens.len(), 1);
    assert_eq!(tokens[0], Token::String("".to_string()));
    Ok(())
}

#[test]
fn test_string_containing_json_special_chars() -> Result<()> {
    // Inner handling: JSON delimiters inside strings don't break tokenization
    let mut json_tokenizer = Tokenizer::new(r#""{key: value}""#);
    let tokens = json_tokenizer.tokenize()?;
    assert_eq!(tokens.len(), 1);
    assert_eq!(tokens[0], Token::String("{key: value}".to_string()));
    Ok(())
}

#[test]
fn test_string_with_keyword_like_content() -> Result<()> {
    // Inner handling: "true", "false", "null" inside strings stay as string content
    let mut json_tokenizer = Tokenizer::new(r#""not true or false""#);
    let tokens = json_tokenizer.tokenize()?;
    assert_eq!(tokens.len(), 1);
    assert_eq!(tokens[0], Token::String("not true or false".to_string()));
    Ok(())
}

#[test]
fn test_string_with_number_like_content() -> Result<()> {
    // Inner handling: numeric content inside strings doesn't become Number tokens
    let mut json_tokenizer = Tokenizer::new(r#""phone: 555-1234""#);
    let tokens = json_tokenizer.tokenize()?;
    assert_eq!(tokens.len(), 1);
    assert_eq!(tokens[0], Token::String("phone: 555-1234".to_string()));
    Ok(())
}

// Number parsing tests
#[test]
fn test_negative_number() -> Result<()> {
    let mut json_tokenizer = Tokenizer::new("-42");
    let tokens = json_tokenizer.tokenize()?;
    assert_eq!(tokens.len(), 1);
    assert_eq!(tokens[0], num(-42.0));
    Ok(())
}

#[test]
fn test_decimal_number() -> Result<()> {
    let mut json_tokenizer = Tokenizer::new("0.5");
    let tokens = json_tokenizer.tokenize()?;
    assert_eq!(tokens.len(), 1);
    assert_eq!(tokens[0], num(0.5));
    Ok(())
}

#[test]
fn test_leading_decimal_not_a_number() -> Result<()> {
    // .5 is invalid JSON - numbers must have leading digit (0.5 is valid)
    let mut json_tokenizer = Tokenizer::new(".5");
    let tokens = json_tokenizer.tokenize();
    // Should NOT be interpreted as 0.5
    assert!(tokens.is_err());
    Ok(())
}

#[test]
fn test_array_numbers() -> Result<()> {
    let mut json_tokenizer = Tokenizer::new("[1, 2, 3, -10]");
    let tokens = json_tokenizer.tokenize()?;
    assert_eq!(tokens.len(), 9);
    Ok(())
}

// Error position tests
#[test]
fn test_array_strings() -> Result<()> {
    let mut json_tokenizer = Tokenizer::new(r#"["hello", "world"]"#);
    let tokens = json_tokenizer.tokenize()?;
    assert_eq!(tokens.len(), 5);
    assert_eq!(tokens[0], Token::LeftBracket);
    assert_eq!(tokens[1], Token::String("hello".to_string()));
    assert!(tokens.contains(&Token::Comma));
    Ok(())
}

#[test]
fn test_invalid_keyword_error_position_points_to_start() {
    let input = "   @yz";
    let mut json_tokenizer = Tokenizer::new(input);
    let result = json_tokenizer.tokenize();
    assert!(result.is_err());
    if let Err(JsonError::UnexpectedToken { position, .. }) = result {
        assert_eq!(
            position, 3,
            "error position should point to the start of 'xyz' (index 3), not past it"
        );
    } else {
        panic!("expected UnexpectedToken error");
    }
}

// === Struct Usage Tests ===
#[test]
fn test_tokenizer_struct_creation() {
    let mut tokenizer = Tokenizer::new(r#""hello""#);
    // Tokenizer should be created without error
    // Internal state is private, so we test via tokenize()
    assert!(tokenizer.tokenize().is_ok());
}

#[test]
fn test_tokenizer_multiple_tokens() {
    // Tests that a single tokenize() call handles multiple tokens
    // Note: Unlike Python iterators, calling tokenize() again on the same
    // instance would return empty - the input has been consumed.
    // Create a new Tokenizer instance if you need to parse new input.
    let mut tokenizer = Tokenizer::new("123 456");
    let tokens = tokenizer.tokenize().unwrap();
    assert_eq!(tokens.len(), 2);
}

// === Basic Token Tests (from Week 1 - ensure they still pass) ===

#[test]
fn test_tokenize_number() {
    let mut tokenizer = Tokenizer::new("42");
    let tokens = tokenizer.tokenize().unwrap();
    assert_eq!(tokens, vec![num(42.0)]);
}

#[test]
fn test_tokenize_negative_number() {
    let mut tokenizer = Tokenizer::new("-3.14");
    let tokens = tokenizer.tokenize().unwrap();
    assert_eq!(tokens, vec![num(-3.14)]);
}

#[test]
fn test_tokenize_literals() {
    let mut t1 = Tokenizer::new("true");
    assert_eq!(t1.tokenize().unwrap(), vec![Token::Boolean(true)]);

    let mut t2 = Tokenizer::new("false");
    assert_eq!(t2.tokenize().unwrap(), vec![Token::Boolean(false)]);

    let mut t3 = Tokenizer::new("null");
    assert_eq!(t3.tokenize().unwrap(), vec![Token::Null]);
}

#[test]
fn test_tokenize_simple_string() {
    let mut tokenizer = Tokenizer::new(r#""hello""#);
    let tokens = tokenizer.tokenize().unwrap();
    assert_eq!(tokens, vec![Token::String("hello".to_string())]);
}

// === Escape Sequence Tests ===

#[test]
fn test_escape_newline() {
    let mut tokenizer = Tokenizer::new(r#""hello\nworld""#);
    let tokens = tokenizer.tokenize().unwrap();
    assert_eq!(tokens, vec![Token::String("hello\nworld".to_string())]);
}

#[test]
fn test_escape_tab() {
    let mut tokenizer = Tokenizer::new(r#""col1\tcol2""#);
    let tokens = tokenizer.tokenize().unwrap();
    assert_eq!(tokens, vec![Token::String("col1\tcol2".to_string())]);
}

#[test]
fn test_escape_quote() {
    let mut tokenizer = Tokenizer::new(r#""say \"hello\"""#);
    let tokens = tokenizer.tokenize().unwrap();
    assert_eq!(tokens, vec![Token::String("say \"hello\"".to_string())]);
}

#[test]
fn test_escape_backslash() {
    let mut tokenizer = Tokenizer::new(r#""path\\to\\file""#);
    let tokens = tokenizer.tokenize().unwrap();
    assert_eq!(tokens, vec![Token::String("path\\to\\file".to_string())]);
}

#[test]
fn test_escape_forward_slash() {
    let mut tokenizer = Tokenizer::new(r#""a\/b""#);
    let tokens = tokenizer.tokenize().unwrap();
    assert_eq!(tokens, vec![Token::String("a/b".to_string())]);
}

#[test]
fn test_escape_carriage_return() {
    let mut tokenizer = Tokenizer::new(r#""line\r\n""#);
    let tokens = tokenizer.tokenize().unwrap();
    assert_eq!(tokens, vec![Token::String("line\r\n".to_string())]);
}

#[test]
fn test_escape_backspace_formfeed() {
    let mut tokenizer = Tokenizer::new(r#""\b\f""#);
    let tokens = tokenizer.tokenize().unwrap();
    assert_eq!(tokens, vec![Token::String("\u{0008}\u{000C}".to_string())]);
}

#[test]
fn test_multiple_escapes() {
    let mut tokenizer = Tokenizer::new(r#""a\nb\tc\"""#);
    let tokens = tokenizer.tokenize().unwrap();
    assert_eq!(tokens, vec![Token::String("a\nb\tc\"".to_string())]);
}

// === Unicode Escape Tests ===

#[test]
fn test_unicode_escape_basic() {
    // \u0041 is 'A'
    let mut tokenizer = Tokenizer::new(r#""\u0041""#);
    let tokens = tokenizer.tokenize().unwrap();
    assert_eq!(tokens, vec![Token::String("A".to_string())]);
}

#[test]
fn test_unicode_escape_multiple() {
    // \u0048\u0069 is "Hi"
    let mut tokenizer = Tokenizer::new(r#""\u0048\u0069""#);
    let tokens = tokenizer.tokenize().unwrap();
    assert_eq!(tokens, vec![Token::String("Hi".to_string())]);
}

#[test]
fn test_unicode_escape_mixed() {
    // Mix of regular chars and unicode escapes
    let mut tokenizer = Tokenizer::new(r#""Hello \u0057orld""#);
    let tokens = tokenizer.tokenize().unwrap();
    assert_eq!(tokens, vec![Token::String("Hello World".to_string())]);
}

#[test]
fn test_unicode_escape_lowercase() {
    // Lowercase hex digits should work too
    let mut tokenizer = Tokenizer::new(r#""\u004a""#);
    let tokens = tokenizer.tokenize().unwrap();
    assert_eq!(tokens, vec![Token::String("J".to_string())]);
}

// === Error Tests ===

#[test]
fn test_invalid_escape_sequence() {
    let mut tokenizer = Tokenizer::new(r#""\q""#);
    let result = tokenizer.tokenize();
    assert!(matches!(result, Err(JsonError::InvalidEscape { .. })));
}

#[test]
fn test_invalid_unicode_too_short() {
    let mut tokenizer = Tokenizer::new(r#""\u004""#);
    let result = tokenizer.tokenize();
    assert!(matches!(result, Err(JsonError::InvalidUnicode { .. })));
}

#[test]
fn test_invalid_unicode_bad_hex() {
    let mut tokenizer = Tokenizer::new(r#""\u00GG""#);
    let result = tokenizer.tokenize();
    assert!(matches!(result, Err(JsonError::InvalidUnicode { .. })));
}

#[test]
fn test_unterminated_string_with_escape() {
    let mut tokenizer = Tokenizer::new(r#""hello\n"#);
    let result = tokenizer.tokenize();
    assert!(result.is_err());
}
