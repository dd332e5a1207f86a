use ulpf::decode::xml::XmlDecoder;
use ulpf::decode::DecodeError;
use ulpf::field::FieldMap;

fn decode(input: &str) -> FieldMap {
    XmlDecoder.decode(input).unwrap().fields.into_owned()
}

#[test]
fn simple_element_text() {
    let f = decode("<Event><Action>allow</Action><Source>10.0.0.1</Source></Event>");
    assert_eq!(f.get_str("Event.Action"), Some("allow"));
    assert_eq!(f.get_str("Event.Source"), Some("10.0.0.1"));
}

#[test]
fn attributes_are_extracted() {
    let f = decode(r#"<Data Name="TargetUserName" Type="string">admin</Data>"#);
    assert_eq!(f.get_str("Data.@Name"), Some("TargetUserName"));
    assert_eq!(f.get_str("Data"), Some("admin"));
}

#[test]
fn nested_elements() {
    let f = decode("<Log><Src><IP>10.0.0.1</IP><Port>443</Port></Src></Log>");
    assert_eq!(f.get_str("Log.Src.IP"), Some("10.0.0.1"));
    assert_eq!(f.get_str("Log.Src.Port"), Some("443"));
}

#[test]
fn self_closing_with_attributes() {
    let f = decode(r#"<Event><Data Name="LogonType" Value="3" /></Event>"#);
    assert_eq!(f.get_str("Event.Data.@Name"), Some("LogonType"));
    assert_eq!(f.get_str("Event.Data.@Value"), Some("3"));
}

#[test]
fn xml_entities_are_decoded() {
    let f = decode("<Msg>&lt;script&gt;alert(&amp;xss)&lt;/script&gt;</Msg>");
    assert_eq!(f.get_str("Msg"), Some("<script>alert(&xss)</script>"));
}

#[test]
fn non_xml_is_rejected() {
    assert!(XmlDecoder.decode("not xml at all").is_err());
    assert!(XmlDecoder.decode("").is_err());
}

#[test]
fn non_ascii_content_does_not_panic() {
    let f = decode("<Event><Msg>日本語</Msg></Event>");
    assert_eq!(f.get_str("Event.Msg"), Some("日本語"));
}

#[test]
fn non_ascii_survives_everywhere_a_scanner_runs() {
    let f = decode(r#"<Event><User Name="Ωmega">उपयोगकर्ता अस्वीकृत</User></Event>"#);
    assert_eq!(f.get_str("Event.User.@Name"), Some("Ωmega"));
    assert_eq!(f.get_str("Event.User"), Some("उपयोगकर्ता अस्वीकृत"));
}

#[test]
fn repeated_siblings_are_all_kept() {
    let doc = [
        "<Event><EventData>",
        r#"<Data Name="TargetUserName">admin</Data>"#,
        r#"<Data Name="LogonType">3</Data>"#,
        r#"<Data Name="IpAddress">10.0.0.9</Data>"#,
        "</EventData></Event>",
    ]
    .join("");
    let f = decode(&doc);
    assert_eq!(f.get_str("Event.EventData.Data.@Name"), Some("TargetUserName"));
    assert_eq!(f.get_str("Event.EventData.Data"), Some("admin"));
    assert_eq!(f.get_str("Event.EventData.Data.1.@Name"), Some("LogonType"));
    assert_eq!(f.get_str("Event.EventData.Data.1"), Some("3"));
    assert_eq!(f.get_str("Event.EventData.Data.2.@Name"), Some("IpAddress"));
    assert_eq!(f.get_str("Event.EventData.Data.2"), Some("10.0.0.9"));
}

#[test]
fn entities_are_not_decoded_twice() {
    let f = decode("<Msg>&amp;lt;not-a-tag&amp;gt;</Msg>");
    assert_eq!(f.get_str("Msg"), Some("&lt;not-a-tag&gt;"));
}

#[test]
fn a_similarly_named_child_does_not_close_its_parent() {
    let f = decode("<Data><DataSet>inner</DataSet></Data>");
    assert_eq!(f.get_str("Data.DataSet"), Some("inner"));
}

#[test]
fn comments_and_declarations_are_skipped() {
    let f = decode("<?xml version=\"1.0\"?><!-- note --><E><A>1</A></E>");
    assert_eq!(f.get_str("E.A"), Some("1"));
    assert_eq!(f.len(), 1);
}

#[test]
fn single_quoted_and_unquoted_attributes() {
    let f = decode("<E a='x y' b=z c=\"&quot;q&quot;\"/>");
    assert_eq!(f.get_str("E.@a"), Some("x y"));
    assert_eq!(f.get_str("E.@b"), Some("z"));
    assert_eq!(f.get_str("E.@c"), Some("\"q\""));
}

#[test]
fn a_clashing_key_gets_the_next_free_suffix() {
    let f = decode("<E><A>1</A><A.1>2</A.1></E>");
    assert_eq!(f.get_str("E.A"), Some("1"));
    assert_eq!(f.get_str("E.A.1"), Some("2"));
    let g = decode("<E><A x=\"1\"/><A><B>2</B></A></E>");
    assert_eq!(g.get_str("E.A.@x"), Some("1"));
    assert_eq!(g.get_str("E.A.1.B"), Some("2"));
}

#[test]
fn markup_without_fields_is_not_xml() {
    assert!(matches!(
        XmlDecoder.decode("<E></E>"),
        Err(DecodeError::NotThisFormat { format: "xml", .. })
    ));
    assert!(matches!(XmlDecoder.decode("   "), Err(DecodeError::Empty)));
}

#[test]
fn cdata_content_is_read_as_plain_text() {
    let f = decode("<Msg><![CDATA[hello]]></Msg>");
    assert_eq!(f.get_str("Msg"), Some("hello"));
    let f = decode("<E><Msg>a <![CDATA[<b> & c]]> d</Msg></E>");
    assert_eq!(f.get_str("E.Msg"), Some("a <b> & c d"));
    // An unterminated section is markup, not text.
    assert!(XmlDecoder.decode("<Msg><![CDATA[open</Msg>").is_err());
    // A section beside child elements leaves the element nested.
    let f = decode("<E><![CDATA[x]]><A>1</A></E>");
    assert_eq!(f.get_str("E.A"), Some("1"));
    assert_eq!(f.get_str("E"), None);
}
