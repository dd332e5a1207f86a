use ulpf::decode::keyvalue::KeyValueDecoder;
use ulpf::decode::DecodeError;
use ulpf::field::FieldMap;

fn decode(input: &str) -> FieldMap {
    KeyValueDecoder::default().decode(input).unwrap().fields
}

#[test]
fn parses_a_real_fortigate_traffic_line() {
    let line = [
        r#"date=2025-12-23 time=17:45:18 devname="ELA" devid="FG234234567890" "#,
        r#"logid="0000000045" type="traffic" subtype="forward" level="warning" "#,
        r#"vd="root" srcip=192.178.1.200 srcport=52341 srcintf="port1" "#,
        r#"dstip=8.8.8.8 dstport=443 dstintf="wan1" proto=6 action="accept" "#,
        r#"policyid=1 sessionid=10045 duration=30 sentbyte=2500 rcvdbyte=2200"#,
    ]
    .concat();
    let f = decode(&line);

    assert_eq!(f.get_str("devname"), Some("ELA"));
    assert_eq!(f.get_str("srcip"), Some("192.178.1.200"));
    assert_eq!(f.get("srcport").unwrap().as_int(), Some(52341));
    assert_eq!(f.get_str("dstip"), Some("8.8.8.8"));
    assert_eq!(f.get("dstport").unwrap().as_int(), Some(443));
    assert_eq!(f.get_str("action"), Some("accept"));
    assert_eq!(f.get("sentbyte").unwrap().as_int(), Some(2500));
    assert_eq!(f.get_str("type"), Some("traffic"));
}

#[test]
fn quoted_values_may_contain_spaces() {
    let f = decode(r#"devname="FGT DEL 01" srcip=10.0.0.1"#);
    assert_eq!(f.get_str("devname"), Some("FGT DEL 01"));
    assert_eq!(f.get_str("srcip"), Some("10.0.0.1"));
}

#[test]
fn escaped_quotes_inside_values_are_handled() {
    let f = decode(r#"msg="he said \"hello\" loudly" action=accept"#);
    assert_eq!(f.get_str("msg"), Some(r#"he said "hello" loudly"#));
    assert_eq!(f.get_str("action"), Some("accept"));
}

#[test]
fn unterminated_quote_keeps_earlier_fields() {
    let f = decode(r#"srcip=10.0.0.1 action=accept msg="truncated here"#);
    assert_eq!(f.get_str("srcip"), Some("10.0.0.1"));
    assert_eq!(f.get_str("action"), Some("accept"));
    assert_eq!(f.get_str("msg"), Some("truncated here"));
}

#[test]
fn empty_values_are_kept_as_empty_not_dropped() {
    let f = decode("user= srcip=10.0.0.1");
    assert!(f.contains("user"));
    assert!(f.get_present("user").is_none());
    assert_eq!(f.get_str("srcip"), Some("10.0.0.1"));
}

#[test]
fn values_containing_equals_are_not_re_split() {
    let f = decode(r#"url="http://x/?a=b&c=d" action=block"#);
    assert_eq!(f.get_str("url"), Some("http://x/?a=b&c=d"));
    assert_eq!(f.get_str("action"), Some("block"));
}

#[test]
fn free_text_before_pairs_does_not_create_junk_keys() {
    let f = decode("Traffic was logged srcip=10.0.0.1 action=accept");
    assert_eq!(f.get_str("srcip"), Some("10.0.0.1"));
    assert!(!f.keys().iter().any(|k| k.contains(' ')));
}

#[test]
fn a_body_with_no_pairs_is_rejected_so_the_pack_can_fall_through() {
    let err = KeyValueDecoder::default()
        .decode("Built outbound TCP connection for outside")
        .unwrap_err();
    assert!(matches!(err, DecodeError::NotThisFormat { .. }));
}

#[test]
fn custom_separator_and_delimiter() {
    let d = KeyValueDecoder::new(':', ';');
    let f = d.decode("src:10.0.0.1;dst:8.8.8.8;port:443").unwrap().fields;
    assert_eq!(f.get_str("src"), Some("10.0.0.1"));
    assert_eq!(f.get_str("port"), Some("443"));
}

#[test]
fn duplicate_keys_keep_the_last_value() {
    let f = decode("action=accept srcip=1.1.1.1 action=deny");
    assert_eq!(f.get_str("action"), Some("deny"));
}

#[test]
fn keyvalue_empty_input_errors() {
    assert_eq!(KeyValueDecoder::default().decode("   ").unwrap_err(), DecodeError::Empty);
}

#[test]
fn keyvalue_decoder_is_named_and_keeps_insertion_order() {
    let d = KeyValueDecoder::default();
    assert_eq!(d.name(), "keyvalue");
    let f = decode("b=2 a=1 b=3");
    assert_eq!(f.keys(), vec!["b", "a"]);
    assert_eq!(f.get_str("b"), Some("3"));
}
