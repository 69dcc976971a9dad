use namel3ss_native::json::{escape_json_string, json_string, push_json_string};
use namel3ss_native::json_parse::{parse_json, JsonValue};

#[test]
fn parses_integers_and_rejects_fractions() {
    assert_eq!(parse_json(" -12 "), Ok(JsonValue::Number(-12)));
    assert_eq!(parse_json("9223372036854775807"), Ok(JsonValue::Number(i64::MAX)));
    assert_eq!(parse_json("-9223372036854775808"), Ok(JsonValue::Number(i64::MIN)));
    assert!(parse_json("9223372036854775808").is_err());
    assert!(parse_json("1.5").is_err());
    assert!(parse_json("1e3").is_err());
    assert!(parse_json("-").is_err());
}

#[test]
fn parses_literals_and_rejects_trailing_text() {
    assert_eq!(parse_json("null"), Ok(JsonValue::Null));
    assert_eq!(parse_json("true"), Ok(JsonValue::Bool(true)));
    assert_eq!(parse_json("false"), Ok(JsonValue::Bool(false)));
    assert!(parse_json("nul").is_err());
    assert!(parse_json("true x").is_err());
    assert!(parse_json("").is_err());
}

#[test]
fn parses_strings_with_escapes() {
    assert_eq!(
        parse_json(r#""a\"b\\c\/\n\u00e9""#),
        Ok(JsonValue::String("a\"b\\c/\né".to_string()))
    );
    assert_eq!(parse_json(r#""\ud83d\ude00""#), Ok(JsonValue::String("😀".to_string())));
    assert_eq!(parse_json("\"ñ\""), Ok(JsonValue::String("ñ".to_string())));
    assert!(parse_json(r#""\ud83d""#).is_err());
    assert!(parse_json(r#""\x""#).is_err());
    assert!(parse_json(r#""abc"#).is_err());
}

#[test]
fn objects_keep_keys_sorted_and_unique() {
    let v = parse_json(r#"{"b":1,"a":[true,null],"b":2}"#).unwrap();
    assert_eq!(
        v,
        JsonValue::Object(vec![
            ("a".to_string(), JsonValue::Array(vec![JsonValue::Bool(true), JsonValue::Null])),
            ("b".to_string(), JsonValue::Number(2)),
        ])
    );
    assert_eq!(json_string(&v), r#"{"a":[true,null],"b":2}"#);
}

#[test]
fn rejects_malformed_containers() {
    assert_eq!(parse_json("[1,]"), Ok(JsonValue::Array(vec![JsonValue::Number(1)])));
    assert!(parse_json("[1 2]").is_err());
    assert!(parse_json("{\"a\" 1}").is_err());
    assert!(parse_json("{1:2}").is_err());
    assert_eq!(parse_json("[ ]"), Ok(JsonValue::Array(vec![])));
    assert_eq!(parse_json("{ }"), Ok(JsonValue::Object(vec![])));
}

#[test]
fn escapes_strings() {
    let mut out = String::new();
    escape_json_string(&mut out, "a\"\\\n\r\t\u{8}\u{c}\u{1}é😀~");
    assert_eq!(out, "a\\\"\\\\\\n\\r\\t\\b\\f\\u0001\\u00e9\\ud83d\\ude00~");
}

#[test]
fn pushes_quoted_strings() {
    let mut out = String::from("x=");
    push_json_string(&mut out, "hé");
    assert_eq!(out, "x=\"h\\u00e9\"");
}

#[test]
fn writes_values() {
    let v = JsonValue::Array(vec![
        JsonValue::Number(-5),
        JsonValue::String("q".to_string()),
        JsonValue::Object(vec![("k".to_string(), JsonValue::Null)]),
    ]);
    assert_eq!(json_string(&v), r#"[-5,"q",{"k":null}]"#);
    assert_eq!(json_string(&JsonValue::Number(i64::MIN)), "-9223372036854775808");
}

#[test]
fn round_trip_of_non_ascii_text() {
    let v = JsonValue::String("😀é\u{1}".to_string());
    let text = json_string(&v);
    assert_eq!(parse_json(&text), Ok(v));
}
