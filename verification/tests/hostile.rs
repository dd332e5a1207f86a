use ulpf::decode::cef::CefDecoder;
use ulpf::decode::csv::CsvDecoder;
use ulpf::decode::json::JsonDecoder;
use ulpf::decode::keyvalue::KeyValueDecoder;
use ulpf::decode::leef::LeefDecoder;
use ulpf::decode::syslog::SyslogDecoder;
use ulpf::decode::xml::XmlDecoder;
use ulpf::decode::Builtin;

/// Inputs chosen to break a scanner: multi-byte characters where a
/// byte-walking loop might land, truncated framing, and structures that
/// recurse.
fn hostile_inputs() -> Vec<String> {
    let mut cases: Vec<String> = vec![
        "<Event><Msg>日本語</Msg></Event>".into(),
        r#"<Event Name="Ωmega">उपयोगकर्ता</Event>"#.into(),
        "<Ωmega>value</Ωmega>".into(),
        "<a><b>é</b><b>é</b></a>".into(),
        "CEF:0|Vendor|Ünicode|1.0|1|Nåme|5|src=10.0.0.1 msg=日本".into(),
        "LEEF:1.0|Vendor|Prodükt|1.0|Ereignis|\tsrc=10.0.0.1".into(),
        "<134>Aug 31 10:23:45 хост prog: тело сообщения".into(),
        "srcip=10.0.0.1 msg=\"日本語 テスト\" action=accept".into(),
        r#"{"msg":"日本語","nested":{"ключ":"значение"}}"#.into(),
        "a,b,日本語,\"d,é\",f".into(),
        "CEF:0|only|two".into(),
        "CEF:".into(),
        "LEEF:1.0|a|b".into(),
        "<134>".into(),
        "<".into(),
        "<134".into(),
        "<Event".into(),
        "<Event><Msg>unterminated".into(),
        "</Closing>".into(),
        "<!-- unterminated comment".into(),
        "<![CDATA[unterminated".into(),
        "<?xml unterminated".into(),
        r#"{"a":"#.into(),
        r#"srcip="unterminated"#.into(),
        "a,\"unterminated".into(),
        "<a>".repeat(200) + &"</a>".repeat(200),
        "<Data></Data>".repeat(500),
        "k=v ".repeat(2000),
        ",".repeat(5000),
        "[".repeat(500),
        "\u{0}\u{1}\u{2}".into(),
        "\u{feff}<134>1 2026-01-01T00:00:00Z h a - - - body".into(),
        "".into(),
        " ".into(),
        "\n".into(),
        "\t\t\t".into(),
    ];
    let doc = "<Event><Msg>日本語テスト</Msg></Event>";
    for end in 1..doc.len() {
        if doc.is_char_boundary(end) {
            cases.push(doc[..end].to_string());
        }
    }
    cases
}

fn decoders() -> Vec<(&'static str, Builtin)> {
    vec![
        ("syslog", Builtin::Syslog(SyslogDecoder::new())),
        ("syslog_rfc3164", Builtin::Syslog(SyslogDecoder::rfc3164_only())),
        ("syslog_rfc5424", Builtin::Syslog(SyslogDecoder::rfc5424_only())),
        ("keyvalue", Builtin::KeyValue(KeyValueDecoder::default())),
        ("csv", Builtin::Csv(CsvDecoder::default())),
        ("cef", Builtin::Cef(CefDecoder)),
        ("leef", Builtin::Leef(LeefDecoder)),
        ("json", Builtin::Json(JsonDecoder)),
        ("xml", Builtin::Xml(XmlDecoder)),
    ]
}

#[test]
fn a_reported_body_is_always_a_slice_of_the_input() {
    for input in hostile_inputs() {
        for (name, decoder) in decoders() {
            if let Ok(decoded) = decoder.decode(&input) {
                if let Some(body) = decoded.body {
                    assert!(
                        body.len() <= input.len(),
                        "decoder `{name}` returned a body longer than its input"
                    );
                }
            }
        }
    }
}
