use namel3ss_native::exec::execute_ir;
use namel3ss_native::json_parse::{parse_json, JsonValue};
use namel3ss_native::n3_status;

fn run(ir: &str, config: Option<&str>) -> Result<String, n3_status> {
    execute_ir(ir, config).map(|b| String::from_utf8(b).unwrap())
}

fn field<'a>(v: &'a JsonValue, key: &str) -> &'a JsonValue {
    match v {
        JsonValue::Object(entries) => &entries.iter().find(|(k, _)| k == key).unwrap().1,
        _ => panic!("not an object"),
    }
}

fn kinds(result: &JsonValue) -> Vec<String> {
    match field(result, "execution_steps") {
        JsonValue::Array(steps) => steps
            .iter()
            .map(|s| match field(s, "kind") {
                JsonValue::String(k) => k.clone(),
                _ => panic!("kind"),
            })
            .collect(),
        _ => panic!("steps"),
    }
}

#[test]
fn return_literal_runs_three_steps() {
    let ir = r#"{"flows":[{"name":"f","body":[{"type":"Return","expression":{"type":"Literal","value":42}}]}]}"#;
    let out = run(ir, None).unwrap();
    let expected = [
        r#"{"execution_steps":["#,
        r#"{"because":null,"column":null,"data":{},"id":"step:0001","kind":"flow_start","line":null,"what":"flow \"f\" started"},"#,
        r#"{"because":null,"column":null,"data":{},"id":"step:0002","kind":"statement_return","line":null,"what":"returned a value"},"#,
        r#"{"because":"completed successfully","column":null,"data":{},"id":"step:0003","kind":"flow_end","line":null,"what":"flow \"f\" ended"}"#,
        r#"],"last_value":42,"runtime_theme":null,"state":{},"theme_source":null,"traces":[]}"#,
    ]
    .join("");
    assert_eq!(out, expected);
}

#[test]
fn set_then_return_state_path() {
    let ir = r#"{"flows":[{"name":"main","line":3,"column":1,"body":[
        {"type":"Set","target":{"type":"StatePath","path":["a","b"]},"expression":{"type":"Literal","value":1},"line":4,"column":3},
        {"type":"Return","expression":{"type":"StatePath","path":["a","b"]}}]}]}"#;
    let out = run(ir, None).unwrap();
    let result = parse_json(&out).unwrap();
    assert_eq!(*field(&result, "last_value"), JsonValue::Number(1));
    let state = field(&result, "state");
    let a = field(state, "a");
    assert_eq!(*field(a, "b"), JsonValue::Number(1));
    assert!(out.contains(r#""state":{"a":{"b":1}}"#));
    assert!(out.contains(r#""id":"step:0002","kind":"statement_set","line":4,"what":"set state.a.b""#));
    assert!(out.contains(r#""column":1,"data":{},"id":"step:0001""#));
    assert_eq!(kinds(&result), vec!["flow_start", "statement_set", "statement_return", "flow_end"]);
}

#[test]
fn return_stops_the_body() {
    let ir = r#"{"flows":[{"name":"f","body":[
        {"type":"Return","expression":{"type":"Literal","value":"done"}},
        {"type":"Loop"}]}]}"#;
    let out = run(ir, None).unwrap();
    assert!(out.contains(r#""last_value":"done""#));
}

#[test]
fn set_replaces_non_object_on_the_way() {
    let ir = r#"{"flows":[{"name":"f","body":[
        {"type":"Set","target":{"type":"StatePath","path":["a"]},"expression":{"type":"Literal","value":5}},
        {"type":"Set","target":{"type":"StatePath","path":["a","b"]},"expression":{"type":"Literal","value":true}},
        {"type":"Set","target":{"type":"StatePath","path":["0"]},"expression":{"type":"StatePath","path":["a"]}}]}]}"#;
    let out = run(ir, None).unwrap();
    assert!(out.contains(r#""state":{"0":{"b":true},"a":{"b":true}}"#));
    assert!(out.contains(r#""last_value":{"b":true}"#));
}

#[test]
fn absent_flow_name_is_invalid() {
    let ir = r#"{"flows":[{"name":"f","body":[]}]}"#;
    assert_eq!(run(ir, Some(r#"{"flow_name":"zzz"}"#)), Err(n3_status::N3_STATUS_INVALID_ARGUMENT));
}

#[test]
fn empty_flows_is_invalid() {
    assert_eq!(run(r#"{"flows":[]}"#, None), Err(n3_status::N3_STATUS_INVALID_ARGUMENT));
    assert_eq!(
        run(r#"{"flows":[]}"#, Some(r#"{"flow_name":"f"}"#)),
        Err(n3_status::N3_STATUS_INVALID_ARGUMENT)
    );
}

#[test]
fn unsupported_statement_fails_without_output() {
    let ir = r#"{"flows":[{"name":"f","body":[
        {"type":"Set","target":{"type":"StatePath","path":["x"]},"expression":{"type":"Literal","value":1}},
        {"type":"If"}]}]}"#;
    assert_eq!(run(ir, None), Err(n3_status::N3_STATUS_NOT_IMPLEMENTED));
}

#[test]
fn unsupported_expression_fails() {
    let ir = r#"{"flows":[{"name":"f","body":[{"type":"Return","expression":{"type":"Call"}}]}]}"#;
    assert_eq!(run(ir, None), Err(n3_status::N3_STATUS_NOT_IMPLEMENTED));
}

#[test]
fn unresolvable_reference_is_invalid() {
    let ir = r#"{"flows":[{"name":"f","body":[{"type":"Return","expression":{"type":"StatePath","path":["nope"]}}]}]}"#;
    assert_eq!(run(ir, None), Err(n3_status::N3_STATUS_INVALID_ARGUMENT));
}

#[test]
fn malformed_input_is_invalid() {
    assert_eq!(run("{", None), Err(n3_status::N3_STATUS_INVALID_ARGUMENT));
    assert_eq!(run(r#"{"flow":[]}"#, None), Err(n3_status::N3_STATUS_INVALID_ARGUMENT));
    assert_eq!(
        run(r#"{"flows":[{"name":"f","body":[]}]}"#, Some("{oops")),
        Err(n3_status::N3_STATUS_INVALID_ARGUMENT)
    );
    assert_eq!(
        run(r#"{"flows":[{"body":[]}]}"#, None),
        Err(n3_status::N3_STATUS_INVALID_ARGUMENT)
    );
}

#[test]
fn config_selects_flow_and_passes_theme() {
    let ir = r#"{"flows":[{"name":"a","body":[]},{"name":"b","body":[]}]}"#;
    let out = run(ir, Some(r#"{"flow_name":"b","runtime_theme":{"mode":"dark"},"theme_source":"user"}"#)).unwrap();
    assert!(out.contains(r#""what":"flow \"b\" started""#));
    assert!(out.contains(r#""runtime_theme":{"mode":"dark"}"#));
    assert!(out.contains(r#""theme_source":"user""#));
    assert!(out.contains(r#""last_value":null"#));
}

#[test]
fn blank_config_counts_as_absent() {
    let ir = r#"{"flows":[{"name":"a","body":[]}]}"#;
    assert!(run(ir, Some("  \n")).is_ok());
}

#[test]
fn step_ids_are_zero_padded() {
    let mut body = String::new();
    for i in 0..12 {
        if i > 0 {
            body.push(',');
        }
        body.push_str(r#"{"type":"Set","target":{"type":"StatePath","path":["n"]},"expression":{"type":"Literal","value":7}}"#);
    }
    let ir = format!(r#"{{"flows":[{{"name":"f","body":[{}]}}]}}"#, body);
    let out = run(&ir, None).unwrap();
    assert!(out.contains(r#""id":"step:0014","kind":"flow_end""#));
}
