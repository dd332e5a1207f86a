use ulpf::decode::salvage::{
    salvage, EMAIL, HOSTNAME, IP_ADDRESS, MAC_ADDRESS, MAX_PER_RECORD, PORT, URL,
};

fn values(input: &str, type_id: u8) -> Vec<String> {
    salvage(input)
        .into_iter()
        .filter(|s| s.type_id == type_id)
        .map(|s| s.value)
        .collect()
}

#[test]
fn recovers_addresses_from_a_format_no_pack_knows() {
    let line = "ACMEGW[4412] flow-end 10.2.4.7:44321 -> 93.184.216.34:443 verdict=allow";
    assert_eq!(values(line, IP_ADDRESS), vec!["10.2.4.7", "93.184.216.34"]);
    assert_eq!(values(line, PORT), vec!["443", "44321"]);
}

#[test]
fn takes_the_value_of_a_key_value_pair() {
    let found = values("srcip=10.0.0.1 dstip=8.8.8.8", IP_ADDRESS);
    assert_eq!(found, vec!["10.0.0.1", "8.8.8.8"]);
}

#[test]
fn a_syslog_clock_is_not_an_ipv6_address() {
    assert!(salvage("Sep 22 10:23:45 host daemon: up")
        .iter()
        .all(|s| s.type_id != IP_ADDRESS));
}

#[test]
fn recognises_ipv6_and_mac_addresses() {
    assert_eq!(
        values("src=2001:db8::1 mac=00:1b:44:11:3a:b7", IP_ADDRESS),
        vec!["2001:db8::1"]
    );
    assert_eq!(
        values("src=2001:db8::1 mac=00:1b:44:11:3a:b7", MAC_ADDRESS),
        vec!["00:1b:44:11:3a:b7"]
    );
}

#[test]
fn urls_and_emails_are_reported_whole() {
    let line = "GET http://example.com/a?b=1 user=jdoe@example.com";
    assert_eq!(values(line, URL), vec!["http://example.com/a?b=1"]);
    assert_eq!(values(line, EMAIL), vec!["jdoe@example.com"]);
}

#[test]
fn prose_and_versions_do_not_become_hostnames() {
    for line in [
        "Component is in the unavailable state.",
        "Loaded stack v6.1.7601.23505 ok",
        "wrote core.2481 to disk",
    ] {
        assert!(
            salvage(line).iter().all(|s| s.type_id != HOSTNAME),
            "{line} produced a hostname"
        );
    }
    assert_eq!(
        values("connect to mail.example.com now", HOSTNAME),
        vec!["mail.example.com"]
    );
}

#[test]
fn output_is_deterministic_and_deduplicated() {
    let line = "a=10.0.0.1 b=10.0.0.1 c=10.0.0.2";
    let first = salvage(line);
    assert_eq!(first, salvage(line));
    assert_eq!(values(line, IP_ADDRESS), vec!["10.0.0.1", "10.0.0.2"]);
}

#[test]
fn a_hostile_record_cannot_attach_unbounded_observables() {
    let line = (0..500)
        .map(|i| format!("10.0.{}.{}", i / 256, i % 256))
        .collect::<Vec<_>>()
        .join(" ");
    assert!(salvage(&line).len() <= MAX_PER_RECORD);
}

#[test]
fn never_panics_on_hostile_input() {
    for line in [
        "",
        ":::::",
        "=",
        "===",
        "日本語 10.0.0.1 テスト",
        "a@",
        "@b",
        "1.2.3.4.5.6",
        "[::1]:8080",
    ] {
        let _ = salvage(line);
    }
}

#[test]
fn types_are_ordered_before_values() {
    let found = salvage("mail.example.com:25 10.0.0.9");
    let pairs: Vec<(u8, &str)> = found.iter().map(|s| (s.type_id, s.value.as_str())).collect();
    assert_eq!(pairs, vec![(HOSTNAME, "mail.example.com"), (IP_ADDRESS, "10.0.0.9"), (PORT, "25")]);
}

#[test]
fn the_cap_keeps_the_smallest_entities() {
    let line = (0..40).map(|i| format!("10.0.0.{}", 100 + i)).collect::<Vec<_>>().join(" ");
    let found = salvage(&line);
    assert_eq!(found.len(), MAX_PER_RECORD);
    assert_eq!(found[0].value, "10.0.0.100");
    assert_eq!(found[31].value, "10.0.0.131");
}

#[test]
fn quoted_values_and_bracketed_hosts_are_unwrapped() {
    assert_eq!(values("user='a.b@example.org'", EMAIL), vec!["a.b@example.org"]);
    assert_eq!(values("peer=host.example.net:8443", PORT), vec!["8443"]);
    assert_eq!(values("mac=00-1B-44-11-3A-B7", MAC_ADDRESS), vec!["00-1B-44-11-3A-B7"]);
    assert!(values("port=99999 x:99999", PORT).is_empty());
}
