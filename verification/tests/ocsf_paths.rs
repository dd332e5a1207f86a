use ulpf::generator::ocsf_paths::{is_known_path, unknown_paths};

fn mapped(paths: &[&str]) -> Vec<String> {
    paths.iter().map(|p| p.to_string()).collect()
}

#[test]
fn every_path_the_generator_can_produce_is_known() {
    for path in [
        "class_uid",
        "activity_id",
        "severity_id",
        "src_endpoint.ip",
        "src_endpoint.port",
        "dst_endpoint.ip",
        "dst_endpoint.port",
        "connection_info.protocol_name",
        "device.hostname",
        "actor.user.name",
        "url.url_string",
        "message",
    ] {
        assert!(is_known_path(path), "{path} should be a known OCSF path");
    }
}

#[test]
fn the_bare_url_object_mistake_is_rejected() {
    assert!(!is_known_path("url"));
    let unknown = unknown_paths(&mapped(&["url", "src_endpoint.ip"]));
    assert_eq!(unknown, vec!["url".to_string()]);
}

#[test]
fn a_hallucinated_path_is_reported() {
    assert_eq!(
        unknown_paths(&mapped(&["src_endpoint.ip", "not_a_real_ocsf_attribute"])),
        vec!["not_a_real_ocsf_attribute".to_string()]
    );
}

#[test]
fn a_fully_valid_pack_reports_no_unknown_paths() {
    let paths = mapped(&["src_endpoint.ip", "dst_endpoint.port", "device.hostname", "url.url_string"]);
    assert!(unknown_paths(&paths).is_empty());
}

#[test]
fn unknown_paths_come_back_sorted_and_once() {
    let paths = mapped(&["zeta", "url", "alpha", "zeta", "message"]);
    assert_eq!(unknown_paths(&paths), mapped(&["alpha", "url", "zeta"]));
}

#[test]
fn the_bare_url_object_is_not_a_known_path() {
    assert!(!is_known_path("url"));
    assert!(!is_known_path("not_a_real_ocsf_attribute"));
    assert!(!is_known_path(""));
}
