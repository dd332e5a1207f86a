use ulpf::base::{Disposition, RawRef, Transport};

#[test]
fn locator_round_trips() {
    let r = RawRef::new(7, 123_456, 512);
    let s = r.to_locator();
    assert_eq!(s, "ulpf:raw:0000000000000007:000000000001e240:00000200");
    assert_eq!(RawRef::from_locator(&s).unwrap(), r);
}

#[test]
fn locator_sorts_by_position() {
    let a = RawRef::new(1, 9, 1).to_locator();
    let b = RawRef::new(1, 10, 1).to_locator();
    let c = RawRef::new(2, 0, 1).to_locator();
    assert!(a < b, "{a} should sort before {b}");
    assert!(b < c, "{b} should sort before {c}");
}

#[test]
fn locator_rejects_junk() {
    assert!(RawRef::from_locator("nope").is_err());
    assert!(RawRef::from_locator("ulpf:raw:1:2").is_err());
    assert!(RawRef::from_locator("ulpf:raw:1:2:3:4").is_err());
    assert!(RawRef::from_locator("ulpf:raw:zz:2:3").is_err());
}

#[test]
fn disposition_reports_pack() {
    let d = Disposition::Parsed {
        pack_id: "fortinet".into(),
    };
    assert!(d.is_parsed());
    assert_eq!(d.pack_id(), Some("fortinet"));
    assert_eq!(Disposition::Unidentified.pack_id(), None);
}

#[test]
fn locator_accepts_short_and_signed_hex_fields() {
    let r = RawRef::from_locator("ulpf:raw:+A:ff:0").unwrap();
    assert_eq!(r, RawRef::new(10, 255, 0));
}

#[test]
fn locator_len_must_fit_in_u32() {
    assert!(matches!(
        RawRef::from_locator("ulpf:raw:0:0:100000000"),
        Err(ulpf::base::Error::LocatorField("len"))
    ));
    assert!(matches!(
        RawRef::from_locator("ulpf:raw:0:0:ffffffff"),
        Ok(RawRef { len: 0xffff_ffff, .. })
    ));
}

#[test]
fn locator_errors_name_the_field() {
    assert!(matches!(RawRef::from_locator("ulpf:raw:"), Err(ulpf::base::Error::LocatorField("segment"))));
    assert!(matches!(RawRef::from_locator("ulpf:raw:1"), Err(ulpf::base::Error::LocatorField("offset"))));
    assert!(matches!(RawRef::from_locator("ulpf:raw:1:x:3"), Err(ulpf::base::Error::LocatorField("offset"))));
    assert!(matches!(RawRef::from_locator("ulpf:raw:1:2:3:"), Err(ulpf::base::Error::BadLocator(_))));
    assert!(matches!(RawRef::from_locator("ULPF:raw:1:2:3"), Err(ulpf::base::Error::BadLocator(_))));
}

#[test]
fn max_values_round_trip() {
    let r = RawRef::new(u64::MAX, u64::MAX, u32::MAX);
    assert_eq!(r.to_locator(), "ulpf:raw:ffffffffffffffff:ffffffffffffffff:ffffffff");
    assert_eq!(RawRef::from_locator(&r.to_locator()).unwrap(), r);
}

#[test]
fn transport_labels() {
    assert_eq!(Transport::SyslogUdp.as_str(), "syslog-udp");
    assert_eq!(Transport::File.as_str(), "file");
    assert_eq!(Transport::Http.as_str(), "http");
    assert_eq!(Transport::Stdin.as_str(), "stdin");
    assert!(Transport::SyslogUdp.is_datagram());
    assert!(!Transport::Http.is_datagram());
}

#[test]
fn disposition_labels() {
    assert_eq!(Disposition::Unidentified.label(), "unidentified");
    let e = Disposition::ExtractFailed { pack_id: "p".into(), reason: "r".into() };
    assert_eq!(e.label(), "extract_failed");
    assert_eq!(e.pack_id(), Some("p"));
    assert!(!e.is_parsed());
    let n = Disposition::NormalizeFailed { pack_id: "q".into(), reason: "r".into() };
    assert_eq!(n.label(), "normalize_failed");
    assert_eq!(n.pack_id(), Some("q"));
}
