use rust_json_parser::{JsonError, JsonNumber, JsonObject, JsonParser, JsonValue};

/// The number value of a float, written as the float displays.
fn num(x: f64) -> JsonValue {
    JsonValue::Number(JsonNumber::parse(&x.to_string()).unwrap())
}

/// The float that a number value writes.
fn as_f64(v: &JsonValue) -> Option<f64> {
    v.as_number().map(|n| n.as_str().parse::<f64>().unwrap())
}

fn parse_json(input: &str) -> Result<JsonValue, JsonError> {
    let mut parser = JsonParser::new(input)?;
    parser.parse()
}

#[test]
fn test_json_value_creation() {
    let null_val = JsonValue::Null;
    let bool_val = JsonValue::Boolean(true);
    let num_val = num(42.5);
    let str_val = JsonValue::String("hello".to_string());

    assert!(null_val.is_null());
    assert_eq!(bool_val.as_bool(), Some(true));
    assert_eq!(as_f64(&num_val), Some(42.5));
    assert_eq!(str_val.as_str(), Some("hello"));
}

#[test]
fn test_json_value_accessors() {
    let value = JsonValue::String("test".to_string());
    assert_eq!(value.as_str(), Some("test"));
    assert_eq!(as_f64(&value), None);
    assert_eq!(value.as_bool(), None);
    assert!(!value.is_null());

    let value = num(42.0);
    assert_eq!(as_f64(&value), Some(42.0));
    assert_eq!(value.as_str(), None);

    let value = JsonValue::Boolean(true);
    assert_eq!(value.as_bool(), Some(true));

    let value = JsonValue::Null;
    assert!(value.is_null());
}

#[test]
fn test_json_value_equality() {
    assert_eq!(JsonValue::Null, JsonValue::Null);
    assert_eq!(JsonValue::Boolean(true), JsonValue::Boolean(true));
    assert_eq!(num(42.0), num(42.0));
    assert_eq!(
        JsonValue::String("test".to_string()),
        JsonValue::String("test".to_string())
    );

    assert_ne!(JsonValue::Null, JsonValue::Boolean(false));
    assert_ne!(num(1.0), num(2.0));
}

#[test]
fn test_display_primitives() {
    assert_eq!(JsonValue::Null.to_string(), "null");
    assert_eq!(JsonValue::Boolean(true).to_string(), "true");
    assert_eq!(JsonValue::Boolean(false).to_string(), "false");
    assert_eq!(num(42.0).to_string(), "42");
    assert_eq!(num(3.14).to_string(), "3.14");
    assert_eq!(
        JsonValue::String("hello".to_string()).to_string(),
        "\"hello\""
    );
}

#[test]
fn test_display_array() {
    let value = JsonValue::Array(vec![num(1.0), num(2.0)]);
    assert_eq!(value.to_string(), "[1,2]");
}

#[test]
fn test_display_empty_containers() {
    assert_eq!(JsonValue::Array(vec![]).to_string(), "[]");
    assert_eq!(JsonValue::Object(JsonObject::new()).to_string(), "{}");
}

#[test]
fn test_display_escape_string() {
    let value = JsonValue::String("hello\nworld".to_string());
    assert_eq!(value.to_string(), "\"hello\\nworld\"");
}

#[test]
fn test_display_escape_quotes() {
    let value = JsonValue::String("say \"hi\"".to_string());
    assert_eq!(value.to_string(), "\"say \\\"hi\\\"\"");
}

#[test]
fn test_display_nested() {
    let value = parse_json(r#"{"arr": [1, 2]}"#).unwrap();
    let output = value.to_string();
    // Object key order may vary, so check components
    assert!(output.contains("\"arr\""));
    assert!(output.contains("[1,2]"));
}

#[test]
fn test_display_nested_array() {
    let value = JsonValue::Array(vec![JsonValue::Array(vec![
        num(1.0),
        num(2.0),
    ])]);
    assert_eq!(value.to_string(), "[[1,2]]");
}
