use ulpf::generator::profile::{next_step, profile_records, profile_warnings, NextStep, ProfileWarning};
use ulpf::generator::profile::{
    body_format, count_key_values, explicit_envelope_identity, family_table, format_counts,
    infer_family, infer_products, looks_syslog_framed, wire_format, BodyFormat, Vocabulary,
};

fn strings(lines: &[&str]) -> Vec<String> {
    lines.iter().map(|s| (*s).to_string()).collect()
}

#[test]
fn cef_header_identity_is_explicit_evidence() {
    let line = r#"CEF:0|Acme\|Security|Edge Firewall|1.0|42|Blocked connection|7|src=10.0.0.1 dst=8.8.8.8"#;
    assert_eq!(
        explicit_envelope_identity(line, "cef"),
        Some(("Acme|Security".to_string(), "Edge Firewall".to_string()))
    );
    assert_eq!(wire_format(&format_counts(&strings(&[line])), false), "cef");
    let v = Vocabulary::new(&strings(&[line]), &[]);
    let hyps = infer_products(&v, "cef");
    assert_eq!(hyps[0].vendor, "Acme|Security");
    assert_eq!(hyps[0].product, "Edge Firewall");
    assert_eq!(hyps[0].confidence_permille, 990);
}

#[test]
fn a_header_without_a_product_names_nothing() {
    assert_eq!(explicit_envelope_identity("CEF:0|Acme|", "cef"), None);
    assert_eq!(explicit_envelope_identity("CEF:0| |Prod|", "cef"), None);
    assert_eq!(explicit_envelope_identity("CEF:0|Acme|Prod|", "json"), None);
}

#[test]
fn fortigate_is_a_high_confidence_hypothesis_not_a_guess() {
    let samples = strings(&[
        "<134>date=2026-01-01 devname=FGT-1 type=traffic srcip=10.0.0.1 dstip=8.8.8.8 proto=6 action=accept",
        "<134>date=2026-01-02 devname=FGT-1 type=traffic srcip=10.0.0.2 dstip=1.1.1.1 proto=17 action=deny",
    ]);
    let counts = format_counts(&samples);
    assert_eq!(wire_format(&counts, false), "syslog-keyvalue");
    let v = Vocabulary::new(&samples, &strings(&["devname", "srcip"]));
    let family = infer_family(&v);
    assert_eq!(family.name, "network-firewall");
    assert_eq!(family.class_uid, Some(4001));
    let hyps = infer_products(&v, "syslog-keyvalue");
    assert_eq!(hyps[0].product, "FortiGate");
    assert!(hyps[0].confidence_permille > 900);
    assert!(v.has("SRCIP"));
    assert!(v.has("accept"));
    assert!(!v.has("suricata"));
}

#[test]
fn suricata_json_is_separated_from_generic_json() {
    let samples = strings(&[
        r#"{"timestamp":"x","event_type":"alert","flow_id":7,"src_ip":"10.0.0.1","dest_ip":"8.8.8.8"}"#,
    ]);
    let v = Vocabulary::new(&samples, &[]);
    let family = infer_family(&v);
    assert_eq!(family.name, "intrusion-detection");
    assert_eq!(family.class_uid, Some(2004));
    let hyps = infer_products(&v, "json");
    assert_eq!(hyps[0].product, "Suricata EVE");
    assert_eq!(hyps.len(), 1);
}

#[test]
fn anonymous_json_stays_unknown_instead_of_inventing_a_vendor() {
    let samples = strings(&[
        r#"{"time":"x","level":"warn","message":"worker stopped"}"#,
        r#"{"time":"y","level":"info","message":"worker started"}"#,
    ]);
    assert_eq!(wire_format(&format_counts(&samples), false), "json");
    let v = Vocabulary::new(&samples, &[]);
    assert!(infer_products(&v, "json").is_empty());
}

#[test]
fn one_opaque_line_reports_low_confidence_and_no_identity() {
    let samples = strings(&["2026-01-01 thing happened 18273"]);
    let v = Vocabulary::new(&samples, &[]);
    assert_eq!(infer_family(&v).name, "unknown");
    let format = wire_format(&format_counts(&samples), false);
    assert_eq!(format, "unstructured-text");
    assert!(infer_products(&v, &format).is_empty());
}

#[test]
fn an_unnamed_cef_envelope_is_a_weak_hypothesis() {
    let unknown = infer_products(&Vocabulary::new(&strings(&["CEF:0|"]), &[]), "cef");
    assert_eq!(unknown[0].vendor, "Unknown");
    assert_eq!(unknown[0].product, "CEF");
    assert_eq!(unknown[0].confidence_permille, 650);
}

#[test]
fn syslog_framing_is_a_priority_or_a_month() {
    assert!(looks_syslog_framed("<134>date=2026-01-01 x=1"));
    assert!(looks_syslog_framed("MAR 15 10:30:01 gw01 fw: a"));
    assert!(!looks_syslog_framed("2026-01-01 thing happened"));
    assert!(!looks_syslog_framed(""));
}

#[test]
fn only_plain_keys_count_as_pairs() {
    assert_eq!(count_key_values("a=1 b-c.d=2 =3 e f(g)=4"), 2);
}

fn lines(ls: &[&str]) -> Vec<String> {
    ls.iter().map(|s| s.to_string()).collect()
}

#[test]
fn firewall_vocabulary_names_the_firewall_family() {
    let samples = lines(&["<13>Jan 1 fw01 filterlog: deny srcip=10.0.0.1 dstip=10.0.0.2 proto=tcp action=deny"]);
    let v = Vocabulary::new(&samples, &[]);
    let f = infer_family(&v);
    assert_eq!(f.name, "network-firewall");
    assert_eq!(f.class_uid, Some(4001));
    assert_eq!(f.score_tenths, 109);
    assert_eq!(f.runner_up_tenths, 0);
    assert!(!f.ambiguous);
    assert_eq!(f.hits, vec!["filterlog", "deny", "action", "srcip", "dstip", "proto"]);
}

#[test]
fn weak_vocabulary_names_no_family() {
    let v = Vocabulary::new(&lines(&["hello world"]), &[]);
    let f = infer_family(&v);
    assert_eq!(f.name, "unknown");
    assert_eq!(f.class_uid, None);
    assert_eq!(f.score_tenths, 0);
    assert!(f.hits.is_empty());
    assert!(!f.ambiguous);
}

#[test]
fn close_families_are_ambiguous() {
    let v = Vocabulary::new(&lines(&["firewall http proxy deny"]), &[]);
    let f = infer_family(&v);
    assert_eq!(f.name, "web-or-proxy");
    assert_eq!(f.class_uid, Some(4002));
    assert_eq!(f.score_tenths, 53);
    assert_eq!(f.runner_up_tenths, 48);
    assert!(f.ambiguous);
}

#[test]
fn the_family_table_has_nine_distinct_families() {
    let t = family_table();
    assert_eq!(t.len(), 9);
    let mut names: Vec<&str> = t.iter().map(|r| r.name).collect();
    names.sort();
    names.dedup();
    assert_eq!(names.len(), 9);
}

#[test]
fn wire_formats_follow_the_majority_of_samples() {
    let json = format_counts(&lines(&["{\"a\":1}", "{\"b\":2}", "not json"]));
    assert_eq!((json.total, json.json), (3, 2));
    assert_eq!(wire_format(&json, false), "json");

    let kv = format_counts(&lines(&["<13>Jan  1 h app: a=1 b=2", "<13>Jan 1 h app: c=3 d=4"]));
    assert_eq!((kv.syslog, kv.keyvalue), (2, 2));
    assert_eq!(wire_format(&kv, false), "syslog-keyvalue");

    let cef = format_counts(&lines(&["<13>Jan 1 h CEF:0|Acme|Gate|1|x|y|5|src=1"]));
    assert_eq!(cef.cef, 1);
    assert_eq!(wire_format(&cef, false), "cef");

    // A leading `<...>` word also reads as a syslog priority.
    let xml = format_counts(&lines(&["  <a>1</a>"]));
    assert_eq!((xml.xml, xml.syslog), (1, 1));
    assert_eq!(wire_format(&xml, false), "syslog-xml");
    let bare = format_counts(&lines(&["<event><a>1</a></event>", "<event><a>2</a></event>"]));
    assert_eq!(bare.xml, 2);

    let text = format_counts(&lines(&["hello there"]));
    assert_eq!(wire_format(&text, false), "unstructured-text");
    assert_eq!(wire_format(&text, true), "delimited");
    assert_eq!(body_format(&text, false), BodyFormat::Unstructured);
}

#[test]
fn a_profile_reads_at_most_a_hundred_trimmed_records() {
    let mut samples: Vec<String> = vec!["  ".to_string(), " first ".to_string()];
    for i in 0..150 {
        samples.push(format!("line {i}"));
    }
    let read = profile_records(&samples);
    assert_eq!(read.len(), 100);
    assert_eq!(read[0], "first");
    assert_eq!(read[99], "line 98");
}

#[test]
fn profile_warnings_come_in_order() {
    assert_eq!(profile_warnings(0, true, 0, 0, true), vec![ProfileWarning::NoRecords]);
    assert_eq!(
        profile_warnings(1, true, 0, 0, true),
        vec![
            ProfileWarning::OneRecord,
            ProfileWarning::CloseFamilies,
            ProfileWarning::NoSignature,
            ProfileWarning::NoDetector,
            ProfileWarning::Positional,
        ]
    );
    assert!(profile_warnings(5, false, 2, 3, false).is_empty());
}

#[test]
fn the_next_step_depends_on_detectors_then_identity() {
    assert_eq!(next_step(0, 3, 1), NextStep::CollectRecords);
    assert_eq!(next_step(4, 0, 1), NextStep::FindMarker);
    assert_eq!(next_step(4, 2, 0), NextStep::DraftUnknown);
    assert_eq!(next_step(4, 2, 1), NextStep::DraftCandidate);
}
