use ulpf::decode::json::JsonDecoder;
use ulpf::decode::DecodeError;
use ulpf::field::{FieldMap, Value};

fn decode(input: &str) -> FieldMap {
    JsonDecoder.decode(input).unwrap().fields.into_owned()
}

#[test]
fn flattens_nested_objects_to_dotted_keys() {
    let f = decode(r#"{"src":{"ip":"10.0.0.1","port":443},"action":"allow"}"#);
    assert_eq!(f.get_str("src.ip"), Some("10.0.0.1"));
    assert_eq!(f.get("src.port").unwrap().as_int(), Some(443));
    assert_eq!(f.get_str("action"), Some("allow"));
}

#[test]
fn arrays_become_indexed_keys_with_a_length() {
    let f = decode(r#"{"tags":["a","b","c"]}"#);
    assert_eq!(f.get_str("tags.0"), Some("a"));
    assert_eq!(f.get_str("tags.2"), Some("c"));
    assert_eq!(f.get("tags.len").unwrap().as_int(), Some(3));
}

#[test]
fn preserves_integer_precision_beyond_f64() {
    let f = decode(r#"{"time":1756636800123456789}"#);
    assert_eq!(f.get("time").unwrap().as_int(), Some(1_756_636_800_123_456_789));
}

#[test]
fn booleans_and_nulls_are_typed() {
    let f = decode(r#"{"ok":true,"missing":null}"#);
    assert_eq!(f.get("ok").unwrap().as_bool(), Some(true));
    assert!(f.get("missing").unwrap().is_empty_marker());
}

#[test]
fn deeply_nested_paths_flatten() {
    let f = decode(r#"{"a":{"b":{"c":{"d":"deep"}}}}"#);
    assert_eq!(f.get_str("a.b.c.d"), Some("deep"));
}

#[test]
fn arrays_of_objects_flatten_positionally() {
    let f = decode(r#"{"rules":[{"id":1},{"id":2}]}"#);
    assert_eq!(f.get("rules.0.id").unwrap().as_int(), Some(1));
    assert_eq!(f.get("rules.1.id").unwrap().as_int(), Some(2));
}

#[test]
fn a_bare_scalar_is_not_an_event() {
    assert!(JsonDecoder.decode("42").is_err());
    assert!(JsonDecoder.decode(r#""just a string""#).is_err());
}

#[test]
fn malformed_json_is_rejected_for_the_chain_to_continue() {
    let err = JsonDecoder.decode(r#"{"a":"#).unwrap_err();
    assert!(matches!(err, DecodeError::NotThisFormat { .. }));
}

#[test]
fn json_empty_input_errors() {
    assert_eq!(JsonDecoder.decode("  ").unwrap_err(), DecodeError::Empty);
}

#[test]
fn a_float_keeps_its_json_text_and_a_top_level_array_is_flattened() {
    let f = decode(r#"{"ratio":0.25,"big":18446744073709551615}"#);
    assert_eq!(f.get("ratio"), Some(&Value::Float("0.25".to_string())));
    assert_eq!(f.get("big"), Some(&Value::Float("18446744073709551615".to_string())));
    let g = decode(r#"[1,"x"]"#);
    assert_eq!(g.get(".len").unwrap().as_int(), Some(2));
    assert_eq!(g.get_str(".1"), Some("x"));
    assert_eq!(JsonDecoder.name(), "json");
}
