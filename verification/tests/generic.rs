use ulpf::decode::generic::{extract, GenericFields, MAX_FIELDS, MAX_VALUE_LEN};

fn keys(g: &GenericFields) -> Vec<&str> {
    g.fields.iter().map(|(k, _)| k.as_str()).collect()
}

fn get<'a>(g: &'a GenericFields, key: &str) -> Option<&'a str> {
    g.fields.iter().find(|(k, _)| k == key).map(|(_, v)| v.as_str())
}

#[test]
fn key_value_names_survive() {
    let g = extract("2005-02-24T16:36:18Z W9000 module=auth outcome=deny peer=203.0.113.44");
    assert_eq!(get(&g, "module"), Some("auth"));
    assert_eq!(get(&g, "outcome"), Some("deny"));
    assert_eq!(get(&g, "peer"), Some("203.0.113.44"));
}

#[test]
fn quoted_values_are_not_cut_at_the_space() {
    let g = extract(r#"msg="connection refused by policy" rule=42"#);
    assert_eq!(get(&g, "msg"), Some("connection refused by policy"));
    assert_eq!(get(&g, "rule"), Some("42"));
}

#[test]
fn json_objects_are_read_as_json_not_scanned_for_equals() {
    let g = extract(r#"{"unit":"hvac-7","note":"compressor fault","code":42,"ok":false}"#);
    assert_eq!(get(&g, "unit"), Some("hvac-7"));
    assert_eq!(get(&g, "note"), Some("compressor fault"));
    assert_eq!(get(&g, "code"), Some("42"));
    assert_eq!(get(&g, "ok"), Some("false"));
}

#[test]
fn nested_json_is_skipped_rather_than_flattened_into_invented_names() {
    let g = extract(r#"{"a":"1","nested":{"b":"2"},"list":[1,2],"nil":null}"#);
    assert_eq!(keys(&g), vec!["a"]);
}

#[test]
fn syslog_priority_yields_its_severity() {
    assert_eq!(extract("<134>Feb 27 02:25:52 host x").syslog_severity, Some(6));
    assert_eq!(extract("<11>Feb 27 02:25:52 host x").syslog_severity, Some(3));
    assert_eq!(extract("Feb 27 02:25:52 host x").syslog_severity, None);
    assert_eq!(extract("<999>whatever").syslog_severity, None);
}

#[test]
fn prose_yields_nothing_rather_than_noise() {
    let g = extract("the printer on floor three is out of toner");
    assert!(g.is_empty());
}

#[test]
fn a_bare_equals_sign_is_not_a_field() {
    let g = extract("total = 5 and == nothing");
    assert!(keys(&g).is_empty() || !keys(&g).contains(&""));
}

#[test]
fn output_is_bounded_against_a_hostile_line() {
    let line = (0..500).map(|i| format!("k{i}=v{i}")).collect::<Vec<_>>().join(" ");
    assert_eq!(extract(&line).fields.len(), MAX_FIELDS);

    let long = format!("k={}", "x".repeat(5000));
    assert_eq!(get(&extract(&long), "k").unwrap().len(), MAX_VALUE_LEN);
}

#[test]
fn a_repeated_key_keeps_its_first_value_so_output_is_stable() {
    let g = extract("a=1 b=2 a=3");
    assert_eq!(get(&g, "a"), Some("1"));
    assert_eq!(g.fields.len(), 2);
}

#[test]
fn multibyte_values_are_never_cut_mid_character() {
    let long = format!("k={}", "é".repeat(1000));
    let value = get(&extract(&long), "k").unwrap().to_string();
    assert!(value.len() <= MAX_VALUE_LEN);
    assert!(value.chars().all(|c| c == 'é'));
    assert_eq!(value.chars().count(), 256);
}

#[test]
fn an_unclosed_quote_keeps_the_rest_of_the_line_and_defaults_are_empty() {
    let g = extract(r#"a="open ended"#);
    assert_eq!(get(&g, "a"), Some(r#""open ended"#));
    let d = GenericFields::default();
    assert!(d.is_empty());
    assert_eq!(extract("  <13>x").syslog_severity, Some(5));
}
