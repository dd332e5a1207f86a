use ulpf::decode::cef::CefDecoder;
use ulpf::decode::json::JsonDecoder;
use ulpf::decode::keyvalue::KeyValueDecoder;
use ulpf::decode::leef::LeefDecoder;
use ulpf::decode::regex_dec::RegexDecoder;
use ulpf::decode::syslog::SyslogDecoder;
use ulpf::decode::xml::XmlDecoder;
use ulpf::decode::DecodeError;

fn not_this(format: &'static str, detail: &str) -> DecodeError {
    DecodeError::NotThisFormat { format, detail: detail.to_string() }
}

#[test]
fn each_refusal_says_why() {
    assert_eq!(CefDecoder.decode("plain text").unwrap_err(), not_this("cef", "no `CEF:` marker"));
    assert_eq!(
        LeefDecoder.decode("plain text").unwrap_err(),
        not_this("leef", "input does not start with 'LEEF:'")
    );
    assert_eq!(
        KeyValueDecoder::default().decode("no pairs here").unwrap_err(),
        not_this("keyvalue", "no key=value pairs found")
    );
    assert_eq!(
        XmlDecoder.decode("plain text").unwrap_err(),
        not_this("xml", "input does not start with '<'")
    );
    assert_eq!(
        JsonDecoder.decode("42").unwrap_err(),
        not_this("json", "top level is a scalar, not an object")
    );
    assert_eq!(
        SyslogDecoder::rfc5424_only().decode("no priority").unwrap_err(),
        not_this("syslog", "missing <PRI> prefix")
    );
    let re = RegexDecoder::new(&["^a$".to_string(), "^b$".to_string()]).unwrap();
    assert_eq!(re.decode("c").unwrap_err(), not_this("regex", "no pattern matched (2 tried)"));
}

#[test]
fn a_broken_header_says_where_and_why() {
    assert_eq!(
        CefDecoder.decode("CEF:0|Vendor|Product").unwrap_err(),
        DecodeError::Malformed { format: "cef", offset: 0, detail: "truncated header".to_string() }
    );
    assert_eq!(
        LeefDecoder.decode("LEEF:1.0|V|P").unwrap_err(),
        DecodeError::Malformed { format: "leef", offset: 0, detail: "expected at least 4 pipe separators".to_string() }
    );
}

#[test]
fn a_json_parse_error_carries_the_parser_message() {
    match JsonDecoder.decode("{not json").unwrap_err() {
        DecodeError::NotThisFormat { format, detail } => {
            assert_eq!(format, "json");
            assert!(detail.contains("line 1"), "{detail}");
        }
        other => panic!("{other:?}"),
    }
}
