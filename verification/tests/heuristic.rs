use ulpf::generator::assemble::MapChoice;
use ulpf::generator::heuristic::{draft_identity, draft_pack, draft_samples, sample_wire_format, DraftError};
use ulpf::generator::profile::ProductHypothesis;

fn hyp(vendor: &str, product: &str, permille: u32) -> ProductHypothesis {
    ProductHypothesis {
        vendor: vendor.to_string(),
        product: product.to_string(),
        confidence_permille: permille,
        evidence: vec![],
    }
}

#[test]
fn every_non_blank_line_is_a_sample() {
    let raw = "  first line \r\n\n   \nsecond\tline\nthird";
    assert_eq!(draft_samples(raw), vec!["first line", "second\tline", "third"]);
}

#[test]
fn a_blank_paste_has_no_samples() {
    assert!(draft_samples("").is_empty());
    assert!(draft_samples("\n  \n\r\n").is_empty());
}

#[test]
fn a_product_is_named_only_when_the_leader_is_confident() {
    let strong = vec![hyp("Fortinet", "FortiGate", 950), hyp("Cisco", "ASA", 990)];
    assert_eq!(draft_identity(&strong), ("Fortinet".to_string(), "FortiGate".to_string()));
    let weak = vec![hyp("Fortinet", "FortiGate", 899)];
    assert_eq!(draft_identity(&weak), ("Unknown".to_string(), "Unknown".to_string()));
    assert_eq!(draft_identity(&[]), ("Unknown".to_string(), "Unknown".to_string()));
    let edge = vec![hyp("Palo Alto Networks", "PAN-OS", 900)];
    assert_eq!(draft_identity(&edge).1, "PAN-OS");
}

const SURICATA_LIKE: &str = r#"{"timestamp":"2026-01-01T00:00:01Z","event_type":"alert","flow_id":7,"src_ip":"10.0.0.1","dest_ip":"8.8.8.8","proto":"TCP","signature_id":2001}
{"timestamp":"2026-01-01T00:00:02Z","event_type":"alert","flow_id":8,"src_ip":"10.0.0.2","dest_ip":"1.1.1.1","proto":"UDP","signature_id":2002}"#;

fn literal(map: &[(String, MapChoice)], key: &str) -> Option<i64> {
    match map.iter().find(|(k, _)| k == key) {
        Some((_, MapChoice::Literal(n))) => Some(*n),
        _ => None,
    }
}

#[test]
fn activity_stays_unknown_rather_than_guessing_one() {
    let pack = draft_pack(SURICATA_LIKE, 4001, 0).expect("draft");
    assert_eq!(literal(&pack.map, "activity_id"), Some(0));
}

#[test]
fn a_heuristic_draft_maps_by_convention_and_takes_the_given_class() {
    let pack = draft_pack(SURICATA_LIKE, 4001, 1234).expect("draft");
    assert_eq!(literal(&pack.map, "class_uid"), Some(4001));
    assert_eq!(literal(&pack.map, "severity_id"), Some(1));
    assert!(pack.map.iter().any(|(k, _)| k == "src_endpoint.ip"));
    assert_eq!(pack.map.last().map(|(k, _)| k.as_str()), Some("class_uid"));
    assert_eq!(pack.id, "draft-heuristic");
    assert_eq!(pack.priority, 1000);
    assert_eq!(pack.model, "heuristic-v1");
    assert_eq!(pack.author, "generated");
    assert_eq!(pack.created, "1234");
    assert!(pack.cluster_id.is_none());
    assert!(pack.approved_by.is_none());
    assert!(!pack.decoders_optional);
    assert_eq!(pack.decoders, vec!["json"]);
    assert_eq!(pack.log_format, "json");
    assert_eq!(pack.fixtures.len(), 2);
}

#[test]
fn suricata_is_named_in_a_heuristic_draft() {
    let pack = draft_pack(SURICATA_LIKE, 4001, 0).expect("draft");
    assert_eq!((pack.vendor.as_str(), pack.product.as_str()), ("OISF", "Suricata EVE"));
}

#[test]
fn an_unidentified_log_is_drafted_as_unknown() {
    let pack = draft_pack("acme_fw srcip=10.0.0.1 action=accept\nacme_fw srcip=10.0.0.2 action=deny\n", 4001, 0)
        .expect("draft");
    assert_eq!((pack.vendor.as_str(), pack.product.as_str()), ("Unknown", "Unknown"));
    assert!(pack.detect.contains(&"acme_fw".to_string()));
    assert_eq!(pack.decoders, vec!["keyvalue"]);
}

#[test]
fn a_blank_log_is_not_drafted() {
    assert_eq!(draft_pack("  \n\n", 4001, 0).err(), Some(DraftError::NoLines));
}

#[test]
fn the_wire_format_follows_the_samples() {
    let samples = vec!["a=1 b=2".to_string(), "a=3 b=4".to_string()];
    assert_eq!(sample_wire_format(&samples), "keyvalue");
}

#[test]
fn every_heuristic_path_is_known() {
    let pack = draft_pack(SURICATA_LIKE, 2004, 0).expect("draft");
    for (path, _) in &pack.map {
        assert!(ulpf::generator::ocsf_paths::is_known_path(path), "{path}");
    }
}

#[test]
fn a_blank_log_says_there_is_nothing_to_learn_from() {
    let err = draft_pack(" \n\t", 4001, 0).unwrap_err();
    assert_eq!(err.message(), "no log lines to learn from");
}
