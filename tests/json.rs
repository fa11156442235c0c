use insign::{JsonValue, JsonValueParser};

fn parse(text: &str) -> serde_json::Value {
    let mut parser = JsonValueParser::new(text);
    let value = parser.parse().unwrap();
    serde_json::from_str(value.as_text()).unwrap()
}

#[test]
fn test_parse_string() {
    assert_eq!(parse(r#""hello world""#), serde_json::Value::String("hello world".to_string()));
}

#[test]
fn test_parse_number() {
    assert_eq!(parse("42"), serde_json::Value::from(42));
    assert_eq!(parse("-3.14"), serde_json::Value::from(-3.14));
}

#[test]
fn test_parse_boolean() {
    assert_eq!(parse("true"), serde_json::Value::Bool(true));
    assert_eq!(parse("false"), serde_json::Value::Bool(false));
}

#[test]
fn test_parse_null() {
    assert_eq!(parse("null"), serde_json::Value::Null);
}

#[test]
fn test_parse_array() {
    let expected = serde_json::Value::Array(vec![
        serde_json::Value::from(1),
        serde_json::Value::String("hello".to_string()),
        serde_json::Value::Bool(true),
    ]);
    assert_eq!(parse(r#"[1, "hello", true]"#), expected);
}

#[test]
fn test_parse_object() {
    let mut map = serde_json::Map::new();
    map.insert("key".to_string(), serde_json::Value::String("value".to_string()));
    map.insert("num".to_string(), serde_json::Value::from(42));
    assert_eq!(parse(r#"{"key": "value", "num": 42}"#), serde_json::Value::Object(map));
}

#[test]
fn canonical_text_is_compact_and_sorted() {
    let v = JsonValue::from_json(" { \"b\" : 1 , \"a\" : [ true , null ] } ").unwrap();
    assert_eq!(v.as_text(), r#"{"a":[true,null],"b":1}"#);
    assert!(JsonValue::from_json("{\"a\":1} x").is_none());
    let a = JsonValue::from_json("{\"x\": 1, \"y\": 2}").unwrap();
    let b = JsonValue::from_json("{\"y\":2,\"x\":1}").unwrap();
    assert!(a.same_value(&b));
    assert!(!a.same_value(&JsonValue::from_json("{\"y\":2,\"x\":1.0}").unwrap()));
}

#[test]
fn value_extent_is_found_before_trailing_text() {
    let mut parser = JsonValueParser::new("  \"a:b=c\" trailing");
    assert_eq!(parser.parse().unwrap().as_text(), "\"a:b=c\"");
    let mut parser = JsonValueParser::new("[1, \"]\"] rest");
    assert_eq!(parser.parse().unwrap().as_text(), "[1,\"]\"]");
    let mut parser = JsonValueParser::new("truex");
    assert_eq!(parser.parse().unwrap().as_text(), "true");
    let mut parser = JsonValueParser::new("");
    assert!(parser.parse().is_err());
}

#[test]
fn parse_given_uses_serde_result_or_scans() {
    let mut parser = JsonValueParser::new("[1, \"]\"] rest");
    assert_eq!(parser.parse_given(None).unwrap().as_text(), "[1,\"]\"]");
    let mut parser = JsonValueParser::new("anything");
    assert_eq!(parser.parse_given(Some("42".to_string())).unwrap().as_text(), "42");
    let mut parser = JsonValueParser::new("?");
    assert!(parser.parse_given(None).is_err());
}

#[test]
fn negative_zero_equals_zero() {
    let a = JsonValue::from_json("0.0").unwrap();
    let b = JsonValue::from_json("-0.0").unwrap();
    assert!(a.same_value(&b));
    let c = JsonValue::from_json("[1, -0.0]").unwrap();
    let d = JsonValue::from_json("[1,0.0]").unwrap();
    assert!(c.same_value(&d));
    assert!(!a.same_value(&JsonValue::from_json("0").unwrap()));
}
