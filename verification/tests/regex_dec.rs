use ulpf::decode::regex_dec::{named_groups, RegexDecoder};
use ulpf::decode::DecodeError;

fn dec(patterns: &[&str]) -> RegexDecoder {
    RegexDecoder::new(&patterns.iter().map(|s| s.to_string()).collect::<Vec<_>>()).unwrap()
}

#[test]
fn named_groups_become_fields() {
    let d = dec([r"^(?P<action>[A-Z ]+):"].as_slice());
    let out = d.decode("INBOUND TCP: SRC=1.2.3.4").unwrap();
    assert_eq!(out.fields.get_str("action"), Some("INBOUND TCP"));
}

#[test]
fn extraction_is_additive_so_keyvalue_can_still_run() {
    let d = dec([r"^(?P<action>[A-Z ]+):"].as_slice());
    let line = "INBOUND TCP: SRC=1.2.3.4 DPT=445";
    let out = d.decode(line).unwrap();
    assert_eq!(out.body.as_deref(), Some(line), "whole line must pass through");
}

#[test]
fn a_body_group_narrows_what_the_next_decoder_sees() {
    let d = dec([r"^(?P<action>[A-Z ]+):\s*(?P<body>.*)$"].as_slice());
    let out = d.decode("INBOUND TCP: SRC=1.2.3.4").unwrap();
    assert_eq!(out.fields.get_str("action"), Some("INBOUND TCP"));
    assert_eq!(out.body.as_deref(), Some("SRC=1.2.3.4"));
    assert!(out.fields.get("body").is_none());
}

#[test]
fn parses_a_real_snort_alert() {
    let pattern = [
        r"^\[(?P<gid>\d+):(?P<sid>\d+):(?P<rev>\d+)\]\s+(?P<name>.+?)\s+",
        r"\[Classification:\s*(?P<classification>[^\]]+)\]\s+",
        r"\[Priority:\s*(?P<priority>\d+)\]:\s+",
        r"\{(?P<proto>\w+)\}\s+(?P<src>[\d.]+)(?::(?P<sport>\d+))?\s+->\s+",
        r"(?P<dst>[\d.]+)(?::(?P<dport>\d+))?",
    ]
    .join("");
    let d = dec([pattern.as_str()].as_slice());

    let line = "[1:2003:8] MS-SQL Worm propagation attempt \
                [Classification: Misc Attack] [Priority: 2]: \
                {UDP} 61.185.28.41:1067 -> 11.11.79.89:1434";
    let f = d.decode(line).unwrap().fields;
    assert_eq!(f.get_str("sid"), Some("2003"));
    assert_eq!(f.get_str("name"), Some("MS-SQL Worm propagation attempt"));
    assert_eq!(f.get_str("classification"), Some("Misc Attack"));
    assert_eq!(f.get_str("priority"), Some("2"));
    assert_eq!(f.get_str("proto"), Some("UDP"));
    assert_eq!(f.get_str("src"), Some("61.185.28.41"));
    assert_eq!(f.get_str("sport"), Some("1067"));
    assert_eq!(f.get_str("dst"), Some("11.11.79.89"));
    assert_eq!(f.get_str("dport"), Some("1434"));
}

#[test]
fn optional_groups_that_do_not_match_are_simply_absent() {
    let d = dec([r"(?P<src>[\d.]+)(?::(?P<sport>\d+))?\s+->\s+(?P<dst>[\d.]+)"].as_slice());
    let f = d.decode("{ICMP} 70.81.243.88 -> 11.11.79.100").unwrap().fields;
    assert_eq!(f.get_str("src"), Some("70.81.243.88"));
    assert_eq!(f.get_str("dst"), Some("11.11.79.100"));
    assert!(f.get("sport").is_none());
}

#[test]
fn alternatives_are_tried_in_order() {
    let d = dec([r"^A(?P<v>\d+)", r"^B(?P<v>\d+)"].as_slice()).record_which(true);

    let a = d.decode("A42").unwrap().fields;
    assert_eq!(a.get_str("v"), Some("42"));
    assert_eq!(a.get("regex.matched").unwrap().as_int(), Some(0));

    let b = d.decode("B7").unwrap().fields;
    assert_eq!(b.get_str("v"), Some("7"));
    assert_eq!(b.get("regex.matched").unwrap().as_int(), Some(1));
}

#[test]
fn no_match_is_reported_so_the_pack_can_fall_through() {
    let d = dec([r"^NOPE(?P<x>\d+)"].as_slice());
    let err = d.decode("something else").unwrap_err();
    assert!(matches!(err, DecodeError::NotThisFormat { .. }));
}

#[test]
fn unnamed_groups_are_ignored() {
    let d = dec([r"^(\w+)\s+(?P<kept>\w+)"].as_slice());
    let f = d.decode("dropped kept").unwrap().fields;
    assert_eq!(f.get_str("kept"), Some("kept"));
    assert_eq!(f.len(), 1);
}

#[test]
fn an_invalid_pattern_fails_at_compile_time_not_per_event() {
    assert!(RegexDecoder::new(&["(unclosed".to_string()]).is_err());
}

#[test]
fn regex_dec_empty_input_errors() {
    let d = dec([r"x"].as_slice());
    assert_eq!(d.decode("").unwrap_err(), DecodeError::Empty);
}

#[test]
fn trailing_line_breaks_are_not_matched() {
    let d = dec([r"^(?P<all>.*)$"].as_slice());
    let out = d.decode("abc\r\n").unwrap();
    assert_eq!(out.fields.get_str("all"), Some("abc"));
    assert_eq!(out.body.as_deref(), Some("abc"));
    assert_eq!(d.decode("\n\n").unwrap_err(), DecodeError::Empty);
}

#[test]
fn the_refused_pattern_is_named() {
    let err = RegexDecoder::new(&["ok".to_string(), "(bad".to_string()]).unwrap_err();
    assert_eq!(err.index, 1);
    assert!(!err.message.is_empty());
}

#[test]
fn only_named_groups_are_kept_in_order() {
    let all = vec![
        (None, Some("whole".to_string())),
        (Some("a".to_string()), Some("1".to_string())),
        (None, Some("x".to_string())),
        (Some("b".to_string()), None),
    ];
    assert_eq!(
        named_groups(&all),
        vec![("a".to_string(), Some("1".to_string())), ("b".to_string(), None)]
    );
    assert!(named_groups(&vec![]).is_empty());
}
