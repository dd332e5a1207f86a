use ulpf::cli::generator::{baseline_pack, GENERATED_NOTE, TEMPLATE_DRAFTER};
use ulpf::generator::assemble::MapChoice;
use ulpf::cli::generator::{
    candidate_id, casts_to_int, group_by_template, infer_detector, is_volatile_token, shape_tokens, short_hash, template,
    DeadLetter,
};

fn shape(raw: &str, ips: &[&str]) -> String {
    let flags: Vec<bool> = shape_tokens(raw).iter().map(|t| ips.contains(&t.as_str())).collect();
    template(raw, &flags)
}

#[test]
fn template_removes_volatile_values_but_keeps_shape() {
    assert_eq!(
        shape("vendor src=10.2.3.4 port=443 id=00112233445566778899aabbccddeeff", &[]),
        "vendor src=<value> port=<value> id=<value>"
    );
    assert_eq!(
        shape("CEF:0|Acme|Gateway|1|7|blocked|5|", &[]),
        "<value> acme gateway <number> <number> blocked <number>"
    );
}

#[test]
fn addresses_numbers_and_hex_runs_become_placeholders() {
    assert_eq!(
        shape("Login from 10.0.0.1 pid +42 token 00112233445566778899aabbccdd", &["10.0.0.1"]),
        "login from <ip> pid <number> token <hex>"
    );
}

#[test]
fn detector_uses_tokens_shared_by_the_cluster() {
    let records = vec![
        DeadLetter { raw_text: "device=gw action=deny src=10.0.0.1".into() },
        DeadLetter { raw_text: "device=gw action=allow src=10.0.0.2".into() },
    ];
    assert_eq!(infer_detector(&records), vec!["action=", "device=", "src="]);
}

#[test]
fn a_literal_missing_from_one_record_is_not_a_detector() {
    let records = vec![
        DeadLetter { raw_text: "acmefw: device=gw".into() },
        DeadLetter { raw_text: "device=gw other".into() },
    ];
    assert_eq!(infer_detector(&records), vec!["device="]);
    assert!(infer_detector(&[]).is_empty());
}

#[test]
fn volatile_tokens_carry_per_record_data() {
    assert!(is_volatile_token("12:01:02"));
    assert!(is_volatile_token("pid1234"));
    assert!(is_volatile_token("a:1"));
    assert!(!is_volatile_token("vendor"));
    assert!(!is_volatile_token("v12"));
}

#[test]
fn cluster_ids_are_fnv_hashes() {
    assert_eq!(short_hash(""), "cluster-cbf29ce484222325");
    assert_eq!(short_hash("a"), "cluster-af63dc4c8601ec8c");
}

fn shapes(keys: &[&str]) -> Vec<String> {
    keys.iter().map(|k| k.to_string()).collect()
}

#[test]
fn records_are_grouped_by_shape_largest_first() {
    let keys = shapes(&["b <n>", "a <n>", "b <n>", "c <n>", "a <n>", "b <n>", "d"]);
    let groups = group_by_template(&keys, 20);
    let got: Vec<(&str, Vec<usize>)> =
        groups.iter().map(|g| (g.key.as_str(), g.members.clone())).collect();
    assert_eq!(
        got,
        vec![
            ("b <n>", vec![0, 2, 5]),
            ("a <n>", vec![1, 4]),
            ("c <n>", vec![3]),
            ("d", vec![6]),
        ]
    );
}

#[test]
fn only_the_leading_groups_are_kept() {
    let keys = shapes(&["x", "y", "y", "z", "z", "z"]);
    let groups = group_by_template(&keys, 2);
    let got: Vec<&str> = groups.iter().map(|g| g.key.as_str()).collect();
    assert_eq!(got, vec!["z", "y"]);
    assert!(group_by_template(&[], 5).is_empty());
    assert!(group_by_template(&keys, 0).is_empty());
}

#[test]
fn candidate_ids_are_numbered_in_three_digits() {
    assert_eq!(candidate_id(1), "ulpf-candidate-001");
    assert_eq!(candidate_id(42), "ulpf-candidate-042");
    assert_eq!(candidate_id(100), "ulpf-candidate-100");
    assert_eq!(candidate_id(1234), "ulpf-candidate-1234");
    assert_eq!(candidate_id(0), "ulpf-candidate-000");
}

#[test]
fn only_port_attributes_cast_to_integers() {
    assert!(casts_to_int("src_endpoint.port"));
    assert!(casts_to_int("dst_endpoint.port"));
    assert!(casts_to_int(".port"));
    assert!(!casts_to_int("src_endpoint.ip"));
    assert!(!casts_to_int("port"));
    assert!(!casts_to_int("src_endpoint.ports"));
    assert!(!casts_to_int(""));
}

#[test]
fn a_template_candidate_is_unidentified_and_expects_the_placeholder_class() {
    let samples = vec![
        "acme_fw srcip=10.0.0.1 dstport=443".to_string(),
        "acme_fw srcip=10.0.0.2 dstport=80".to_string(),
        "acme_fw srcip=10.0.0.3 dstport=22".to_string(),
    ];
    let detector = vec!["acme_fw".to_string()];
    let pack = baseline_pack("ulpf-candidate-001", &detector, "acme_fw srcip=<ip>", &samples, &[2, 0], 42);
    assert_eq!(pack.id, "ulpf-candidate-001");
    assert_eq!((pack.vendor.as_str(), pack.product.as_str()), ("Unknown", "Unidentified source"));
    assert_eq!(pack.log_format, "unknown");
    assert_eq!(pack.detect, detector);
    assert_eq!(pack.decoders, vec!["keyvalue"]);
    assert!(pack.decoders_optional);
    assert_eq!(pack.fixtures, vec![samples[2].clone(), samples[0].clone()]);
    assert_eq!(pack.fixture_expect, vec![("class_uid".to_string(), 4001)]);
    assert_eq!(pack.fixture_note, GENERATED_NOTE);
    assert_eq!(pack.priority, 1000);
    assert_eq!(pack.author, "generated");
    assert_eq!(pack.created, "42");
    assert_eq!(pack.cluster_id, Some(short_hash("acme_fw srcip=<ip>")));
    assert_eq!(pack.model, TEMPLATE_DRAFTER);
    assert!(pack.approved_by.is_none());
    let keys: Vec<&str> = pack.map.iter().map(|(k, _)| k.as_str()).collect();
    assert_eq!(&keys[..2], &["class_uid", "activity_id"]);
    match &pack.map[1].1 {
        MapChoice::Literal(n) => assert_eq!(*n, 1),
        other => panic!("{other:?}"),
    }
    assert_eq!(field_of(&pack.map, "src_endpoint.ip"), Some(("srcip", false)));
    assert_eq!(field_of(&pack.map, "dst_endpoint.port"), Some(("dstport", true)));
    for (path, _) in &pack.map {
        assert!(ulpf::generator::ocsf_paths::is_known_path(path), "{path}");
    }
}

fn field_of<'a>(map: &'a [(String, MapChoice)], path: &str) -> Option<(&'a str, bool)> {
    for (k, c) in map {
        if k == path {
            if let MapChoice::Field { from, cast_int } = c {
                return Some((from.as_str(), *cast_int));
            }
        }
    }
    None
}
