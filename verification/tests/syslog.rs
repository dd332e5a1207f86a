use ulpf::decode::syslog::{looks_like_rfc5424, SyslogDecoder};
use ulpf::decode::{DecodeError, Decoded};

fn decode(input: &str) -> Decoded {
    SyslogDecoder::new().decode(input).unwrap()
}

#[test]
fn priority_decomposes_into_facility_and_severity() {
    let d = decode("<134>Aug 31 10:23:45 fw-01 kernel: something happened");
    assert_eq!(d.fields.get("syslog.priority").unwrap().as_int(), Some(134));
    assert_eq!(d.fields.get("syslog.facility").unwrap().as_int(), Some(16));
    assert_eq!(d.fields.get("syslog.severity").unwrap().as_int(), Some(6));
}

#[test]
fn parses_a_textbook_rfc3164_line() {
    let d = decode("<34>Oct 11 22:14:15 mymachine su: 'su root' failed for lonvick");
    assert_eq!(d.fields.get_str("syslog.timestamp"), Some("Oct 11 22:14:15"));
    assert_eq!(d.fields.get_str("syslog.hostname"), Some("mymachine"));
    assert_eq!(d.fields.get_str("syslog.appname"), Some("su"));
    assert_eq!(d.body.as_deref(), Some("'su root' failed for lonvick"));
}

#[test]
fn parses_a_space_padded_day() {
    let d = decode("<13>Aug  1 09:05:03 host app: msg");
    assert_eq!(d.fields.get_str("syslog.timestamp"), Some("Aug  1 09:05:03"));
    assert_eq!(d.fields.get_str("syslog.hostname"), Some("host"));
}

#[test]
fn extracts_pid_from_the_tag() {
    let d = decode("<13>Aug  1 09:05:03 host sshd[1234]: Accepted password");
    assert_eq!(d.fields.get_str("syslog.appname"), Some("sshd"));
    assert_eq!(d.fields.get_str("syslog.procid"), Some("1234"));
    assert_eq!(d.body.as_deref(), Some("Accepted password"));
}

#[test]
fn fortigate_style_line_keeps_its_whole_body() {
    let line = "<134>date=2026-08-31 time=10:23:45 devname=\"FGT-01\" srcip=10.2.4.7";
    let d = decode(line);
    assert_eq!(d.fields.get("syslog.priority").unwrap().as_int(), Some(134));
    assert!(d.fields.get("syslog.hostname").is_none());
    assert_eq!(
        d.body.as_deref(),
        Some("date=2026-08-31 time=10:23:45 devname=\"FGT-01\" srcip=10.2.4.7")
    );
}

#[test]
fn cisco_asa_year_timestamp_still_yields_a_hostname() {
    let line = "<166>Oct 10 2018 12:34:56 localhost CiscoASA[999]: %ASA-6-302013: Built outbound TCP connection";
    let d = decode(line);
    assert_eq!(d.fields.get_str("syslog.timestamp"), Some("Oct 10 2018 12:34:56"));
    assert_eq!(d.fields.get_str("syslog.hostname"), Some("localhost"));
    assert_eq!(d.fields.get_str("syslog.appname"), Some("CiscoASA"));
    assert_eq!(d.fields.get_str("syslog.procid"), Some("999"));
    assert!(d.body.unwrap().starts_with("%ASA-6-302013"));
}

#[test]
fn cisco_asa_year_timestamp_with_space_padded_day() {
    let line = "<166>Oct  1 2018 12:34:56 localhost CiscoASA[999]: %ASA-6-302013: Built";
    let d = decode(line);
    assert_eq!(d.fields.get_str("syslog.timestamp"), Some("Oct  1 2018 12:34:56"));
    assert_eq!(d.fields.get_str("syslog.hostname"), Some("localhost"));
}

#[test]
fn cisco_asa_percent_tag_is_not_mistaken_for_a_hostname() {
    let line = "<166>Aug 31 10:23:45 %ASA-6-302013: Built outbound TCP connection";
    let d = decode(line);
    assert_eq!(d.fields.get_str("syslog.timestamp"), Some("Aug 31 10:23:45"));
    assert!(d.fields.get("syslog.hostname").is_none());
    assert!(d.body.unwrap().starts_with("%ASA-6-302013"));
}

#[test]
fn parses_rfc5424_with_nil_structured_data() {
    let line = "<34>1 2026-08-31T22:14:15.003Z mymachine.example.com su - ID47 - msg here";
    let d = decode(line);
    assert_eq!(d.fields.get_str("syslog.version"), Some("1"));
    assert_eq!(d.fields.get_str("syslog.timestamp"), Some("2026-08-31T22:14:15.003Z"));
    assert_eq!(d.fields.get_str("syslog.hostname"), Some("mymachine.example.com"));
    assert_eq!(d.fields.get_str("syslog.appname"), Some("su"));
    assert!(d.fields.get("syslog.procid").is_none());
    assert_eq!(d.fields.get_str("syslog.msgid"), Some("ID47"));
    assert_eq!(d.body.as_deref(), Some("msg here"));
}

#[test]
fn parses_rfc5424_structured_data() {
    let line = r#"<165>1 2026-08-31T22:14:15.003Z host evntslog - ID47 [exampleSDID@32473 iut="3" eventSource="Application"] An application event"#;
    let d = decode(line);
    assert_eq!(d.fields.get_str("syslog.sd.exampleSDID@32473.iut"), Some("3"));
    assert_eq!(d.fields.get_str("syslog.sd.exampleSDID@32473.eventSource"), Some("Application"));
    assert_eq!(d.body.as_deref(), Some("An application event"));
}

#[test]
fn structured_data_with_escaped_bracket_does_not_terminate_early() {
    let line = r#"<165>1 2026-08-31T22:14:15Z h app - - [id@1 msg="a\]b"] tail"#;
    let d = decode(line);
    assert_eq!(d.fields.get_str("syslog.sd.id@1.msg"), Some(r"a\]b"));
    assert_eq!(d.body.as_deref(), Some("tail"));
}

#[test]
fn dialect_detection_prefers_5424_when_versioned() {
    assert!(looks_like_rfc5424("1 2026-08-31T22:14:15Z h a - - -"));
    assert!(!looks_like_rfc5424("Aug 31 10:23:45 host app: msg"));
    assert!(!looks_like_rfc5424("date=2026-08-31 srcip=1.1.1.1"));
}

#[test]
fn missing_pri_is_tolerated_in_auto_mode() {
    let d = decode("Aug 31 10:23:45 fw-01 kernel: no pri here");
    assert!(d.fields.get("syslog.priority").is_none());
    assert_eq!(d.fields.get_str("syslog.hostname"), Some("fw-01"));
    assert_eq!(d.body.as_deref(), Some("no pri here"));
}

#[test]
fn missing_pri_is_rejected_when_a_dialect_is_pinned() {
    let err = SyslogDecoder::rfc5424_only()
        .decode("2026-08-31T22:14:15Z host app - - - msg")
        .unwrap_err();
    assert!(matches!(err, DecodeError::NotThisFormat { .. }));
}

#[test]
fn out_of_range_priority_is_not_treated_as_pri() {
    let d = decode("<999>this is just text");
    assert!(d.fields.get("syslog.priority").is_none());
    assert_eq!(d.body.as_deref(), Some("<999>this is just text"));
}

#[test]
fn trailing_newlines_and_nulls_are_stripped() {
    let d = decode("<134>Aug 31 10:23:45 host app: body\r\n\0");
    assert_eq!(d.body.as_deref(), Some("body"));
}

#[test]
fn syslog_empty_input_errors() {
    assert_eq!(SyslogDecoder::new().decode("").unwrap_err(), DecodeError::Empty);
    assert_eq!(SyslogDecoder::new().decode("\n").unwrap_err(), DecodeError::Empty);
}

#[test]
fn a_colon_deep_in_message_text_is_not_a_tag() {
    let line = "<134>Aug 31 10:23:45 host this is a long message with a colon: right here";
    let d = decode(line);
    assert!(d.fields.get("syslog.appname").is_none());
    assert!(d.body.unwrap().starts_with("this is a long message"));
}

#[test]
fn utf8_message_bodies_survive() {
    let d = decode("<134>Aug 31 10:23:45 host app: उपयोगकर्ता अस्वीकृत");
    assert_eq!(d.body.as_deref(), Some("उपयोगकर्ता अस्वीकृत"));
}

#[test]
fn unterminated_structured_data_reports_its_byte_offset() {
    let err = SyslogDecoder::rfc5424_only()
        .decode("<1>1 t h a p m [id é=\"x")
        .unwrap_err();
    match err {
        DecodeError::Malformed { format, offset, .. } => {
            assert_eq!(format, "syslog_rfc5424");
            assert_eq!(offset, "[id é=\"x".len());
        }
        other => panic!("unexpected {other:?}"),
    }
}

#[test]
fn pinned_3164_keeps_a_5424_looking_body() {
    let d = SyslogDecoder::rfc3164_only().decode("<13>1 not really 5424").unwrap();
    assert!(d.fields.get("syslog.version").is_none());
    assert_eq!(d.body.as_deref(), Some("1 not really 5424"));
}

#[test]
fn decoder_names_follow_the_dialect() {
    assert_eq!(SyslogDecoder::new().name(), "syslog");
    assert_eq!(SyslogDecoder::rfc3164_only().name(), "syslog_rfc3164");
    assert_eq!(SyslogDecoder::rfc5424_only().name(), "syslog_rfc5424");
}
