use ulpf::cli::pipeline::{new_observables, syslog_severity_to_ocsf, Severity};
use ulpf::cli::proofs::{algorithm_from_name, algorithm_name, HashAlgorithm};
use ulpf::cli::server::safe_pack_stem;
use ulpf::decode::salvage::{salvage, Salvaged, IP_ADDRESS};

#[test]
fn pack_ids_reduce_to_safe_file_stems() {
    assert_eq!(safe_pack_stem("acme-firewall_v2").as_deref(), Some("acme-firewall_v2"));
    assert_eq!(safe_pack_stem("../../etc/passwd").as_deref(), Some("_.._etc_passwd"));
    assert_eq!(safe_pack_stem("C:/anywhere/evil").as_deref(), Some("C__anywhere_evil"));
    assert_eq!(safe_pack_stem(".hidden.").as_deref(), Some("hidden"));
    assert_eq!(safe_pack_stem("snört").as_deref(), Some("sn_rt"));
}

#[test]
fn unusable_pack_ids_are_refused() {
    assert_eq!(safe_pack_stem(""), None);
    assert_eq!(safe_pack_stem("..."), None);
    assert_eq!(safe_pack_stem(&"a".repeat(129)), None);
    assert_eq!(safe_pack_stem(&"a".repeat(128)).map(|s| s.len()), Some(128));
}

#[test]
fn syslog_severities_map_onto_ocsf() {
    assert_eq!(syslog_severity_to_ocsf(0), Severity::Fatal);
    assert_eq!(syslog_severity_to_ocsf(1), Severity::Critical);
    assert_eq!(syslog_severity_to_ocsf(2), Severity::Critical);
    assert_eq!(syslog_severity_to_ocsf(3), Severity::High);
    assert_eq!(syslog_severity_to_ocsf(4), Severity::Medium);
    assert_eq!(syslog_severity_to_ocsf(5), Severity::Low);
    assert_eq!(syslog_severity_to_ocsf(6), Severity::Informational);
    assert_eq!(syslog_severity_to_ocsf(7), Severity::Informational);
    assert_eq!(syslog_severity_to_ocsf(200), Severity::Informational);
}

#[test]
fn salvage_adds_only_what_the_event_lacks() {
    let found = salvage("connection from 10.0.0.5 to 192.168.1.9");
    assert!(found.len() >= 2);
    let existing = vec![(IP_ADDRESS as u64, "10.0.0.5".to_string())];
    let fresh = new_observables(&existing, found.clone());
    assert!(fresh.iter().all(|o| !(o.type_id == IP_ADDRESS && o.value == "10.0.0.5")));
    assert!(fresh.iter().any(|o| o.type_id == IP_ADDRESS && o.value == "192.168.1.9"));
    assert_eq!(fresh.len(), found.len() - 1);
}

#[test]
fn an_event_with_nothing_yet_gets_every_indicator() {
    let found = vec![
        Salvaged { type_id: IP_ADDRESS, value: "10.1.1.1".to_string() },
        Salvaged { type_id: IP_ADDRESS, value: "10.1.1.2".to_string() },
    ];
    let fresh = new_observables(&[], found.clone());
    assert_eq!(fresh, found);
    // Same value, other type: still new.
    let existing = vec![(1u64, "10.1.1.1".to_string())];
    assert_eq!(new_observables(&existing, found.clone()), found);
}

#[test]
fn hash_algorithms_are_read_case_blind() {
    assert_eq!(algorithm_from_name("sha256"), Ok(HashAlgorithm::Sha256));
    assert_eq!(algorithm_from_name("SHA-256"), Ok(HashAlgorithm::Sha256));
    assert_eq!(algorithm_from_name("Blake3"), Ok(HashAlgorithm::Blake3));
    assert_eq!(algorithm_from_name("MD5"), Err("md5".to_string()));
    assert_eq!(algorithm_from_name(""), Err(String::new()));
}

#[test]
fn hash_algorithm_names_read_back() {
    for h in [HashAlgorithm::Sha256, HashAlgorithm::Blake3] {
        assert_eq!(algorithm_name(h).len(), 6);
        assert_eq!(algorithm_from_name(algorithm_name(h)), Ok(h));
    }
}
