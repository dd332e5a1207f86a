use ulpf::decode::cef::CefDecoder;
use ulpf::decode::DecodeError;
use ulpf::field::FieldMap;

fn decode(input: &str) -> FieldMap {
    CefDecoder.decode(input).unwrap().fields
}

#[test]
fn parses_the_arcsight_reference_example() {
    let line = "CEF:0|Security|threatmanager|1.0|100|worm successfully stopped|10|src=10.0.0.1 dst=2.1.2.2 spt=1232";
    let f = decode(line);
    assert_eq!(f.get_str("cef.version"), Some("0"));
    assert_eq!(f.get_str("cef.device_vendor"), Some("Security"));
    assert_eq!(f.get_str("cef.device_product"), Some("threatmanager"));
    assert_eq!(f.get_str("cef.device_version"), Some("1.0"));
    assert_eq!(f.get_str("cef.signature_id"), Some("100"));
    assert_eq!(f.get_str("cef.name"), Some("worm successfully stopped"));
    assert_eq!(f.get_str("cef.severity"), Some("10"));
    assert_eq!(f.get_str("src"), Some("10.0.0.1"));
    assert_eq!(f.get_str("dst"), Some("2.1.2.2"));
    assert_eq!(f.get("spt").unwrap().as_int(), Some(1232));
}

#[test]
fn extension_values_may_contain_spaces() {
    let line = "CEF:0|V|P|1.0|1|Name|5|msg=connection denied by policy src=10.0.0.1 spt=443";
    let f = decode(line);
    assert_eq!(f.get_str("msg"), Some("connection denied by policy"));
    assert_eq!(f.get_str("src"), Some("10.0.0.1"));
    assert_eq!(f.get_str("spt"), Some("443"));
}

#[test]
fn escaped_pipe_in_header_is_literal() {
    let line = r"CEF:0|Vendor|Prod\|uct|1.0|100|Name|5|src=10.0.0.1";
    let f = decode(line);
    assert_eq!(f.get_str("cef.device_product"), Some("Prod|uct"));
    assert_eq!(f.get_str("cef.device_version"), Some("1.0"));
}

#[test]
fn escaped_equals_in_extension_is_literal() {
    let line = r"CEF:0|V|P|1.0|1|Name|5|query=a\=b src=10.0.0.1";
    let f = decode(line);
    assert_eq!(f.get_str("query"), Some("a=b"));
    assert_eq!(f.get_str("src"), Some("10.0.0.1"));
}

#[test]
fn pipe_inside_extension_is_ordinary_text() {
    let line = "CEF:0|V|P|1.0|1|Name|5|rule=allow|dns src=10.0.0.1";
    let f = decode(line);
    assert_eq!(f.get_str("rule"), Some("allow|dns"));
    assert_eq!(f.get_str("src"), Some("10.0.0.1"));
}

#[test]
fn syslog_prefixed_cef_is_found() {
    let line = "<134>Aug 31 10:23:45 fw CEF:0|V|P|1.0|1|Name|5|src=10.0.0.1";
    let f = decode(line);
    assert_eq!(f.get_str("cef.device_vendor"), Some("V"));
    assert_eq!(f.get_str("src"), Some("10.0.0.1"));
}

#[test]
fn empty_extension_is_valid() {
    let f = decode("CEF:0|V|P|1.0|1|Name|5|");
    assert_eq!(f.get_str("cef.name"), Some("Name"));
    assert_eq!(f.get_str("cef.severity"), Some("5"));
}

#[test]
fn truncated_header_is_reported() {
    let err = CefDecoder.decode("CEF:0|Vendor|Product").unwrap_err();
    assert!(matches!(err, DecodeError::Malformed { .. }));
}

#[test]
fn a_non_cef_line_is_rejected_so_the_chain_can_continue() {
    let err = CefDecoder.decode("date=2026-08-31 srcip=10.0.0.1").unwrap_err();
    assert!(matches!(err, DecodeError::NotThisFormat { .. }));
}

#[test]
fn last_extension_value_is_trimmed() {
    let f = decode("CEF:0|V|P|1.0|1|Name|5|src=10.0.0.1   ");
    assert_eq!(f.get_str("src"), Some("10.0.0.1"));
}

#[test]
fn truncated_header_reports_the_byte_offset_of_the_marker() {
    let err = CefDecoder.decode("héllo CEF:0|V").unwrap_err();
    match err {
        DecodeError::Malformed { format, offset, .. } => {
            assert_eq!(format, "cef");
            assert_eq!(offset, 7);
        }
        other => panic!("unexpected {:?}", other),
    }
}

#[test]
fn extension_escapes_become_control_characters() {
    let f = decode(r"CEF:0|V|P|1.0|1|Name|5|msg=line\nbreak");
    assert_eq!(f.get_str("msg"), Some("line\nbreak"));
    assert_eq!(CefDecoder.name(), "cef");
}
