use merlion_kernel::json;
use merlion_kernel::json::{get, get_bool, get_i64, get_str, parse, stringify_pretty, JsonValue};

fn s(x: &str) -> JsonValue {
    JsonValue::String(x.to_string())
}

#[test]
fn parse_scalars() {
    assert!(matches!(parse("null"), Ok(JsonValue::Null)));
    assert!(matches!(parse(" true "), Ok(JsonValue::Bool(true))));
    assert!(matches!(parse("false"), Ok(JsonValue::Bool(false))));
    assert!(matches!(parse("-42"), Ok(JsonValue::Number(-42))));
    assert!(matches!(parse("1.5"), Ok(JsonValue::Float(1500000))));
    assert!(matches!(parse("-0.25"), Ok(JsonValue::Float(-250000))));
    assert!(matches!(parse("3.14159265"), Ok(JsonValue::Float(3141592))));
    assert!(matches!(parse("12e5"), Ok(JsonValue::Number(12))));
    assert!(matches!(parse("9223372036854775807"), Ok(JsonValue::Number(9223372036854775807))));
}

#[test]
fn parse_errors() {
    assert_eq!(parse("").err(), Some("unexpected end of input"));
    assert_eq!(parse("nul").err(), Some("expected 'null'"));
    assert_eq!(parse("tru").err(), Some("expected boolean"));
    assert_eq!(parse("-").err(), Some("expected digit"));
    assert_eq!(parse("9223372036854775808").err(), Some("number overflow"));
    assert_eq!(parse("1 2").err(), Some("trailing characters"));
    assert_eq!(parse("[1,").err(), Some("unexpected end of input"));
    assert_eq!(parse("[1 2]").err(), Some("unexpected character"));
    assert_eq!(parse("{\"a\" 1}").err(), Some("unexpected character"));
    assert_eq!(parse("{1:2}").err(), Some("unexpected character"));
    assert_eq!(parse("\"abc").err(), Some("unterminated string"));
    assert_eq!(parse("\"\\q\"").err(), Some("invalid escape character"));
    assert_eq!(parse("\"\\u12\"").err(), Some("incomplete unicode escape"));
    assert_eq!(parse("\"\\u12zz\"").err(), Some("invalid unicode hex"));
    assert_eq!(parse("\"\\ud800\"").err(), Some("invalid code point"));
    assert_eq!(parse("?").err(), Some("unexpected character"));
}

#[test]
fn parse_strings_and_escapes() {
    match parse("\"a\\\"b\\\\c\\/d\\n\\t\\u0041\\u00e9\"") {
        Ok(JsonValue::String(t)) => assert_eq!(t, "a\"b\\c/d\n\tA\u{e9}"),
        _ => panic!(),
    }
}

#[test]
fn parse_nested_and_lookup() {
    let v = parse("{ \"name\" : \"merlion\", \"ver\": 3, \"ok\": true, \"list\": [1, [2, {}], []] }").unwrap();
    assert_eq!(get_str(&v, "name"), Some("merlion"));
    assert_eq!(get_i64(&v, "ver"), Some(3));
    assert_eq!(get_bool(&v, "ok"), Some(true));
    assert_eq!(get_i64(&v, "name"), None);
    assert!(get(&v, "missing").is_none());
    assert!(get(&JsonValue::Number(1), "x").is_none());
    match get(&v, "list") {
        Some(JsonValue::Array(xs)) => assert_eq!(xs.len(), 3),
        _ => panic!(),
    }
}

#[test]
fn duplicate_keys_first_wins() {
    let v = parse("{\"a\":1,\"a\":2}").unwrap();
    assert_eq!(get_i64(&v, "a"), Some(1));
}

#[test]
fn stringify_compact() {
    let v = JsonValue::Object(vec![
        ("a".to_string(), JsonValue::Array(vec![JsonValue::Number(1), JsonValue::Null, JsonValue::Bool(false)])),
        ("b\"".to_string(), s("x\ny\u{1}")),
        ("c".to_string(), JsonValue::Float(-2500000)),
        ("d".to_string(), JsonValue::Object(vec![])),
        ("e".to_string(), JsonValue::Array(vec![])),
    ]);
    assert_eq!(json::stringify(&v), "{\"a\":[1,null,false],\"b\\\"\":\"x\\ny\\u0001\",\"c\":-2.5,\"d\":{},\"e\":[]}");
    assert_eq!(json::stringify(&JsonValue::Float(0)), "0.0");
    assert_eq!(json::stringify(&JsonValue::Float(1000001)), "1.000001");
    assert_eq!(json::stringify(&JsonValue::Number(i64::MIN)), "-9223372036854775808");
}

#[test]
fn stringify_pretty_indents() {
    let v = JsonValue::Object(vec![
        ("a".to_string(), JsonValue::Array(vec![JsonValue::Number(1), JsonValue::Number(2)])),
        ("b".to_string(), JsonValue::Bool(true)),
    ]);
    assert_eq!(stringify_pretty(&v, 2), "{\n  \"a\": [\n    1,\n    2\n  ],\n  \"b\": true\n}");
}

#[test]
fn roundtrip_examples() {
    let text = "{\"k\":[1,-2.5,\"s\\u0001\",{\"n\":null}],\"t\":true}";
    let v = parse(text).unwrap();
    assert_eq!(json::stringify(&v), text);
    let pretty = stringify_pretty(&v, 4);
    assert_eq!(json::stringify(&parse(&pretty).unwrap()), text);
}
