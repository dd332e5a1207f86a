use ulpf::decode::leef::LeefDecoder;
use ulpf::decode::DecodeError;
use ulpf::field::FieldMap;

fn decode(input: &str) -> FieldMap {
    LeefDecoder.decode(input).unwrap().fields
}

#[test]
fn leef_1_0_basic() {
    let f = decode("LEEF:1.0|Symantec|SEP|14.0|Malware|\tsrc=10.0.0.1\tdst=8.8.8.8\tproto=TCP\tsev=5");
    assert_eq!(f.get_str("leef.version"), Some("1.0"));
    assert_eq!(f.get_str("leef.vendor"), Some("Symantec"));
    assert_eq!(f.get_str("leef.product"), Some("SEP"));
    assert_eq!(f.get_str("leef.event_id"), Some("Malware"));
    assert_eq!(f.get_str("src"), Some("10.0.0.1"));
    assert_eq!(f.get_str("dst"), Some("8.8.8.8"));
    assert_eq!(f.get_str("proto"), Some("TCP"));
}

#[test]
fn leef_2_0_with_delimiter() {
    let f = decode("LEEF:2.0|IBM|QRadar|7.3|Login|^|src=10.0.0.5^dst=192.168.1.1^usrName=admin^action=success");
    assert_eq!(f.get_str("leef.version"), Some("2.0"));
    assert_eq!(f.get_str("leef.vendor"), Some("IBM"));
    assert_eq!(f.get_str("leef.event_id"), Some("Login"));
    assert_eq!(f.get_str("src"), Some("10.0.0.5"));
    assert_eq!(f.get_str("usrName"), Some("admin"));
    assert_eq!(f.get_str("action"), Some("success"));
}

#[test]
fn non_leef_is_rejected() {
    assert!(LeefDecoder.decode("CEF:0|vendor|product|1.0|100|name|5|src=1.2.3.4").is_err());
    assert!(LeefDecoder.decode("just plain text").is_err());
    assert!(LeefDecoder.decode("").is_err());
}

#[test]
fn too_few_pipes_is_malformed() {
    assert!(LeefDecoder.decode("LEEF:1.0|only|two").is_err());
}

#[test]
fn leef_errors_name_their_kind() {
    assert_eq!(LeefDecoder.decode("   ").unwrap_err(), DecodeError::Empty);
    assert!(matches!(
        LeefDecoder.decode("LEEF:1.0|only|two").unwrap_err(),
        DecodeError::Malformed { format: "leef", offset: 0, .. }
    ));
    assert!(matches!(
        LeefDecoder.decode("plain").unwrap_err(),
        DecodeError::NotThisFormat { format: "leef", .. }
    ));
    assert_eq!(LeefDecoder.name(), "leef");
}

#[test]
fn leef_2_0_hex_tab_delimiter_and_missing_extension() {
    let f = decode("LEEF:2.0|V|P|1|E|0x09|a=1\tb=2");
    assert_eq!(f.get_str("a"), Some("1"));
    assert_eq!(f.get_str("b"), Some("2"));
    let f = decode("LEEF:1.0|V|P|1|OnlyId");
    assert_eq!(f.get_str("leef.event_id"), Some("OnlyId"));
    assert_eq!(f.len(), 5);
}
