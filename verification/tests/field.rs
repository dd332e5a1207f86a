use ulpf::field::{FieldMap, Value};

#[test]
fn insert_replaces_and_keeps_position() {
    let mut m = FieldMap::new();
    m.insert("a", Value::Int(1));
    m.insert("b", Value::Int(2));
    m.insert("a", Value::Int(3));
    assert_eq!(m.len(), 2);
    assert_eq!(m.get("a").unwrap().as_int(), Some(3));
    assert_eq!(m.keys(), vec!["a", "b"]);
}

#[test]
fn device_boolean_spellings_parse() {
    for t in ["true", "YES", "y", "1", "on", "enabled"] {
        assert_eq!(Value::borrowed(t).as_bool(), Some(true), "{t}");
    }
    for f in ["false", "NO", "n", "0", "off", "disabled"] {
        assert_eq!(Value::borrowed(f).as_bool(), Some(false), "{f}");
    }
    assert_eq!(Value::borrowed("maybe").as_bool(), None);
}

#[test]
fn device_absence_markers_are_treated_as_absent() {
    for marker in ["-", "N/A", "n/a", "NULL", "none", "", "  ", "unknown"] {
        assert!(Value::borrowed(marker).is_empty_marker(), "{marker:?}");
    }
    assert!(!Value::borrowed("10.0.0.1").is_empty_marker());
    assert!(!Value::Int(0).is_empty_marker());
}

#[test]
fn get_present_filters_markers() {
    let mut m = FieldMap::new();
    m.insert("srcip", Value::borrowed("N/A"));
    m.insert("dstip", Value::borrowed("10.0.0.2"));
    assert!(m.get("srcip").is_some());
    assert!(m.get_present("srcip").is_none());
    assert!(m.get_present("dstip").is_some());
    assert!(m.require("srcip").is_err());
}

#[test]
fn merge_does_not_clobber_envelope_fields() {
    let mut envelope = FieldMap::new();
    envelope.insert("host", Value::borrowed("fw-01"));
    let mut body = FieldMap::new();
    body.insert("host", Value::borrowed("bogus"));
    body.insert("action", Value::borrowed("accept"));
    envelope.merge_keeping_existing(body);
    assert_eq!(envelope.get_str("host"), Some("fw-01"));
    assert_eq!(envelope.get_str("action"), Some("accept"));
}

#[test]
fn numeric_strings_coerce_without_floats() {
    assert_eq!(Value::borrowed("443").as_int(), Some(443));
    assert_eq!(Value::borrowed(" 443 ").as_int(), Some(443));
    assert_eq!(Value::borrowed("nope").as_int(), None);
    assert_eq!(Value::borrowed("-9223372036854775808").as_int(), Some(i64::MIN));
    assert_eq!(Value::borrowed("9223372036854775808").as_int(), None);
    assert_eq!(Value::Float("7.0".to_string()).as_int(), Some(7));
    assert_eq!(Value::Float("7.5".to_string()).as_int(), None);
    assert_eq!(Value::Bool(true).as_int(), Some(1));
    assert_eq!(Value::Null.as_int(), None);
}

#[test]
fn variant_names() {
    assert_eq!(Value::borrowed("x").variant_name(), "string");
    assert_eq!(Value::Int(1).variant_name(), "integer");
    assert_eq!(Value::Null.variant_name(), "null");
}

#[test]
fn prefixed_namespaces_every_key() {
    let mut m = FieldMap::new();
    m.insert("a", Value::Int(1));
    m.insert("b", Value::borrowed("x"));
    let p = m.prefixed("kv.");
    assert_eq!(p.keys(), vec!["kv.a", "kv.b"]);
    assert_eq!(p.get_str("kv.b"), Some("x"));
}

#[test]
fn require_names_the_missing_field() {
    let m = FieldMap::new();
    match m.require("user") {
        Err(ulpf::base::Error::MissingField(k)) => assert_eq!(k, "user"),
        other => panic!("unexpected {other:?}"),
    }
}
