use rust_json_parser::{JsonNumber, JsonParser, JsonValue};

/// The number value of a float, written as the float displays.
fn num(x: f64) -> JsonValue {
    JsonValue::Number(JsonNumber::parse(&x.to_string()).unwrap())
}

#[test]
fn test_integration() {
    // Test the full parsing pipeline
    let mut parser = JsonParser::new("42").unwrap();
    assert_eq!(parser.parse().unwrap(), num(42.0));

    parser = JsonParser::new("true").unwrap();
    assert_eq!(parser.parse().unwrap(), JsonValue::Boolean(true));

    parser = JsonParser::new("null").unwrap();
    assert_eq!(parser.parse().unwrap(), JsonValue::Null);

    parser = JsonParser::new(r#""hello""#).unwrap();
    assert_eq!(
        parser.parse().unwrap(),
        JsonValue::String("hello".to_string())
    );
}
