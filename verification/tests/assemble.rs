use ulpf::generator::assemble::{assemble_pack, DraftSpec, MapChoice, DRAFT_PRIORITY};

fn acme_samples() -> Vec<String> {
    vec![
        "acme_fw srcip=10.0.0.1 action=accept".to_string(),
        "acme_fw srcip=10.0.0.2 action=deny".to_string(),
    ]
}

fn spec(vendor: &str, fields: Vec<(&str, &str)>) -> DraftSpec {
    DraftSpec {
        vendor: vendor.to_string(),
        product: "Gateway".to_string(),
        log_format: "syslog-keyvalue".to_string(),
        fields: fields.into_iter().map(|(a, b)| (a.to_string(), b.to_string())).collect(),
    }
}

fn mapped<'a>(map: &'a [(String, MapChoice)], path: &str) -> Option<&'a MapChoice> {
    map.iter().find(|(p, _)| p == path).map(|(_, c)| c)
}

#[test]
fn assembled_pack_is_low_priority_and_marked_generated() {
    let spec = spec(
        "Acme",
        vec![("src_endpoint.ip", "srcip"), ("not_a_real_field", "x")],
    );
    let samples = acme_samples();
    let pack = assemble_pack("abc", spec, &samples, "test-model", 1_700_000_000_000_000_000);

    assert_eq!(pack.priority, 1000);
    assert!(pack.detect.contains(&"acme_fw".to_string()), "got {:?}", pack.detect);
    assert!(!pack.detect.iter().any(|d| d.contains("10.0.0.1")), "got {:?}", pack.detect);
    assert_eq!(pack.decoders, vec!["keyvalue"]);
    assert!(mapped(&pack.map, "src_endpoint.ip").is_some());
    assert!(mapped(&pack.map, "not_a_real_field").is_none());
    assert_eq!(pack.author, "generated");
    assert!(pack.approved_by.is_none());
}

#[test]
fn an_assembled_pack_carries_its_identity_and_provenance() {
    let pack = assemble_pack("abc", spec("Acme", vec![]), &acme_samples(), "test-model", 1_700_000_000_000_000_000);
    assert_eq!(pack.id, "candidate-abc");
    assert_eq!(pack.vendor, "Acme");
    assert_eq!(pack.product, "Gateway");
    assert_eq!(pack.log_format, "syslog-keyvalue");
    assert_eq!(pack.cluster_id.as_deref(), Some("abc"));
    assert_eq!(pack.model, "test-model");
    assert_eq!(pack.created, "1700000000000000000");
    assert_eq!(pack.priority, DRAFT_PRIORITY);
    assert_eq!(pack.fixtures, acme_samples());
}

#[test]
fn a_blank_vendor_becomes_unknown() {
    let pack = assemble_pack("abc", spec("   ", vec![]), &acme_samples(), "m", 7);
    assert_eq!(pack.vendor, "Unknown");
}

#[test]
fn placeholders_and_conventions_come_first() {
    let pack = assemble_pack("abc", spec("Acme", vec![]), &acme_samples(), "m", 7);
    let keys: Vec<&str> = pack.map.iter().map(|(k, _)| k.as_str()).collect();
    assert_eq!(&keys[..3], &["class_uid", "activity_id", "severity_id"]);
    match mapped(&pack.map, "class_uid") {
        Some(MapChoice::Literal(n)) => assert_eq!(*n, 4001),
        other => panic!("class_uid is {other:?}"),
    }
    match mapped(&pack.map, "activity_id") {
        Some(MapChoice::Literal(n)) => assert_eq!(*n, 6),
        other => panic!("activity_id is {other:?}"),
    }
    match mapped(&pack.map, "src_endpoint.ip") {
        Some(MapChoice::Field { from, cast_int }) => {
            assert_eq!(from, "srcip");
            assert!(!cast_int);
        }
        other => panic!("src_endpoint.ip is {other:?}"),
    }
}

#[test]
fn a_suggestion_that_names_a_value_is_dropped() {
    // The model answered with a value it saw, not a field name.
    let pack = assemble_pack(
        "abc",
        spec("Acme", vec![("dst_endpoint.ip", "10.0.0.1"), ("src_endpoint.ip", "other")]),
        &acme_samples(),
        "m",
        7,
    );
    assert!(mapped(&pack.map, "dst_endpoint.ip").is_none());
    // The convention mapping wins over a later suggestion for the same path.
    match mapped(&pack.map, "src_endpoint.ip") {
        Some(MapChoice::Field { from, .. }) => assert_eq!(from, "srcip"),
        other => panic!("src_endpoint.ip is {other:?}"),
    }
}

#[test]
fn a_suggestion_for_an_unmapped_allowed_path_is_kept() {
    let pack = assemble_pack(
        "abc",
        spec("Acme", vec![("actor.user.name", "action"), ("message", " ")]),
        &acme_samples(),
        "m",
        7,
    );
    match mapped(&pack.map, "actor.user.name") {
        Some(MapChoice::Field { from, cast_int }) => {
            assert_eq!(from, "action");
            assert!(!cast_int);
        }
        other => panic!("actor.user.name is {other:?}"),
    }
    assert!(mapped(&pack.map, "message").is_none());
}

#[test]
fn only_the_first_three_samples_become_fixtures() {
    let samples: Vec<String> = (0..5).map(|i| format!("acme_fw n={i}")).collect();
    let pack = assemble_pack("abc", spec("Acme", vec![]), &samples, "m", 7);
    assert_eq!(pack.fixtures, samples[..3].to_vec());
}

#[test]
fn every_assembled_path_is_known() {
    let pack = assemble_pack(
        "abc",
        spec(
            "Acme",
            vec![("url", "srcip"), ("actor.user.name", "action"), ("class_uid", "action")],
        ),
        &acme_samples(),
        "m",
        7,
    );
    for (path, _) in &pack.map {
        assert!(ulpf::generator::ocsf_paths::is_known_path(path), "{path}");
    }
}
