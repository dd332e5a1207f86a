use std::collections::BTreeSet;

use ulpf::cli::features::{
    columns, derive_time, is_private, private_flag, row_for, EventFields, IpAddress,
    ABSENT_NUMBER, CONTRACT_VERSION,
};
use ulpf::cli::parquet::{ColumnType, Value};

fn event() -> EventFields {
    EventFields {
        uid: Some("uid-1".to_string()),
        time: Some(1_756_636_800_000_000_000),
        log_provider: Some("snort-nids-alert".to_string()),
        vendor_name: Some("Snort".to_string()),
        product_name: Some("Snort NIDS".to_string()),
        disposition: None,
        class_uid: Some(2004),
        category_uid: Some(2),
        activity_id: Some(1),
        type_uid: Some(200401),
        severity_id: Some(4),
        src_ip: Some("10.1.2.3".to_string()),
        src_addr: Some(IpAddress::V4([10, 1, 2, 3])),
        src_port: Some(4455),
        dst_ip: Some("8.8.8.8".to_string()),
        dst_addr: Some(IpAddress::V4([8, 8, 8, 8])),
        dst_port: None,
        protocol_name: None,
        hostname: None,
        is_alert: None,
        finding_uid: None,
    }
}

fn nearly_empty() -> EventFields {
    EventFields {
        uid: None,
        time: Some(0),
        log_provider: None,
        vendor_name: Some(String::new()),
        product_name: Some(String::new()),
        disposition: None,
        class_uid: Some(4001),
        category_uid: Some(4),
        activity_id: Some(6),
        type_uid: Some(400106),
        severity_id: Some(1),
        src_ip: None,
        src_addr: None,
        src_port: None,
        dst_ip: None,
        dst_addr: None,
        dst_port: None,
        protocol_name: None,
        hostname: None,
        is_alert: None,
        finding_uid: None,
    }
}

fn column(row: &[Value], name: &str) -> Value {
    let index = columns()
        .iter()
        .position(|c| c.name == name)
        .expect("column is in the contract");
    row[index].clone()
}

#[test]
fn a_row_has_exactly_one_value_per_column() {
    assert_eq!(row_for(&event()).len(), columns().len());
}

#[test]
fn column_names_are_unique() {
    let mut seen = BTreeSet::new();
    for spec in columns() {
        assert!(seen.insert(spec.name), "duplicate column {}", spec.name);
    }
}

#[test]
fn values_match_their_declared_types() {
    let row = row_for(&event());
    for (spec, value) in columns().iter().zip(&row) {
        match (spec.ty, value) {
            (ColumnType::Int64, Value::Int(_)) | (ColumnType::Utf8, Value::Text(_)) => {}
            _ => panic!("{} declares {:?} but produced {value:?}", spec.name, spec.ty),
        }
    }
}

#[test]
fn known_fields_are_carried_through() {
    let row = row_for(&event());
    assert_eq!(column(&row, "event_uid"), Value::Text("uid-1".into()));
    assert_eq!(column(&row, "pack_id"), Value::Text("snort-nids-alert".into()));
    assert_eq!(column(&row, "class_uid"), Value::Int(2004));
    assert_eq!(column(&row, "src_ip"), Value::Text("10.1.2.3".into()));
    assert_eq!(column(&row, "src_port"), Value::Int(4455));
    assert_eq!(column(&row, "disposition"), Value::Text("parsed".into()));
}

#[test]
fn absent_values_use_the_documented_sentinels() {
    let row = row_for(&event());
    assert_eq!(column(&row, "dst_port"), Value::Int(ABSENT_NUMBER));
    assert_eq!(column(&row, "protocol"), Value::Text(String::new()));
    assert_eq!(column(&row, "finding_uid"), Value::Text(String::new()));
    assert_eq!(column(&row, "is_alert"), Value::Int(ABSENT_NUMBER));
}

#[test]
fn private_ranges_are_recognised() {
    assert_eq!(is_private("10.1.2.3", Some(IpAddress::V4([10, 1, 2, 3]))), Some(true));
    assert_eq!(is_private("192.168.0.1", Some(IpAddress::V4([192, 168, 0, 1]))), Some(true));
    assert_eq!(is_private("172.16.5.4", Some(IpAddress::V4([172, 16, 5, 4]))), Some(true));
    assert_eq!(is_private("127.0.0.1", Some(IpAddress::V4([127, 0, 0, 1]))), Some(true));
    assert_eq!(is_private("169.254.1.1", Some(IpAddress::V4([169, 254, 1, 1]))), Some(true));
    assert_eq!(is_private("8.8.8.8", Some(IpAddress::V4([8, 8, 8, 8]))), Some(false));
    assert_eq!(is_private("11.11.79.100", Some(IpAddress::V4([11, 11, 79, 100]))), Some(false));
    assert_eq!(is_private("fd00::1", Some(IpAddress::V6([0xfd00, 0, 0, 0, 0, 0, 0, 1]))), Some(true));
    assert_eq!(is_private("fe80::1", Some(IpAddress::V6([0xfe80, 0, 0, 0, 0, 0, 0, 1]))), Some(true));
    assert_eq!(
        is_private("2001:4860::8888", Some(IpAddress::V6([0x2001, 0x4860, 0, 0, 0, 0, 0, 0x8888]))),
        Some(false)
    );
    assert_eq!(is_private("", None), None);
    assert_eq!(is_private("not-an-address", None), Some(false));
}

#[test]
fn the_row_reflects_privacy_of_both_endpoints() {
    let row = row_for(&event());
    assert_eq!(column(&row, "src_is_private"), Value::Int(1));
    assert_eq!(column(&row, "dst_is_private"), Value::Int(0));
}

#[test]
fn derived_time_columns_agree_with_the_timestamp() {
    let row = row_for(&event());
    let Value::Int(ns) = column(&row, "time_ns") else { panic!("time_ns is a number") };
    let Value::Int(seconds) = column(&row, "epoch_seconds") else {
        panic!("epoch_seconds is a number")
    };
    assert_eq!(seconds, ns / 1_000_000_000);
    let Value::Int(hour) = column(&row, "hour_of_day") else { panic!("hour_of_day is a number") };
    let Value::Int(weekday) = column(&row, "day_of_week") else {
        panic!("day_of_week is a number")
    };
    assert!((0..24).contains(&hour), "hour {hour} out of range");
    assert!((0..7).contains(&weekday), "weekday {weekday} out of range");
}

#[test]
fn a_nearly_empty_event_still_produces_a_full_row() {
    let row = row_for(&nearly_empty());
    assert_eq!(row.len(), columns().len());
    assert_eq!(column(&row, "epoch_seconds"), Value::Int(ABSENT_NUMBER));
    assert_eq!(column(&row, "hour_of_day"), Value::Int(ABSENT_NUMBER));
    assert_eq!(column(&row, "src_is_private"), Value::Int(ABSENT_NUMBER));
}

#[test]
fn time_columns_of_a_known_instant() {
    // 2025-08-31T10:40:00Z was a Sunday.
    assert_eq!(derive_time(1_756_636_800_000_000_000), (1_756_636_800, 10, 6));
    // The epoch itself is not a positive timestamp.
    assert_eq!(derive_time(0), (ABSENT_NUMBER, ABSENT_NUMBER, ABSENT_NUMBER));
    // One second in: Thursday 1970-01-01, hour zero.
    assert_eq!(derive_time(1_000_000_000), (1, 0, 3));
}

#[test]
fn private_flags_are_one_zero_or_absent() {
    assert_eq!(private_flag("10.0.0.1", Some(IpAddress::V4([10, 0, 0, 1]))), 1);
    assert_eq!(private_flag("1.1.1.1", Some(IpAddress::V4([1, 1, 1, 1]))), 0);
    assert_eq!(private_flag("", None), ABSENT_NUMBER);
    assert_eq!(private_flag("::1", Some(IpAddress::V6([0, 0, 0, 0, 0, 0, 0, 1]))), 1);
    assert_eq!(private_flag("::", Some(IpAddress::V6([0; 8]))), 1);
    assert_eq!(private_flag("0.0.0.0", Some(IpAddress::V4([0, 0, 0, 0]))), 1);
    assert_eq!(private_flag("172.32.0.1", Some(IpAddress::V4([172, 32, 0, 1]))), 0);
}

#[test]
fn the_contract_is_versioned() {
    assert_eq!(CONTRACT_VERSION, 1);
    assert_eq!(columns().len(), 24);
}
