use ulpf::decode::csv::CsvDecoder;
use ulpf::decode::DecodeError;

#[test]
fn positional_columns_are_indexed_from_zero() {
    let f = CsvDecoder::default().decode("a,b,c").unwrap().fields;
    assert_eq!(f.get_str("col.0"), Some("a"));
    assert_eq!(f.get_str("col.1"), Some("b"));
    assert_eq!(f.get_str("col.2"), Some("c"));
    assert_eq!(f.get("col.count").unwrap().as_int(), Some(3));
}

#[test]
fn parses_a_pan_os_traffic_record_at_documented_positions() {
    let record = [
        ",2026/08/31 10:23:45,001801234567,TRAFFIC,end,2049,",
        "2026/08/31 10:23:44,10.2.4.7,8.8.8.8,203.0.113.9,8.8.8.8,",
        "allow-dns,,,dns,vsys1,trust,untrust,ethernet1/1,ethernet1/2,",
        "log-forwarding,,12345,1,53124,53,41234,53,0x400053,udp,allow,",
        "512,64,448,4,2026/08/31 10:23:40,0,dns",
    ]
    .concat();
    let f = CsvDecoder::default().decode(&record).unwrap().fields;

    assert_eq!(f.get_str("col.3"), Some("TRAFFIC"));
    assert_eq!(f.get_str("col.7"), Some("10.2.4.7"));
    assert_eq!(f.get_str("col.8"), Some("8.8.8.8"));
    assert_eq!(f.get_str("col.24"), Some("53124"));
    assert_eq!(f.get_str("col.25"), Some("53"));
    assert_eq!(f.get_str("col.30"), Some("allow"));
    assert_eq!(f.get_str("col.0"), Some(""));
}

#[test]
fn quoted_fields_may_contain_the_delimiter() {
    let f = CsvDecoder::default().decode(r#"a,"b,c,d",e"#).unwrap().fields;
    assert_eq!(f.get_str("col.1"), Some("b,c,d"));
    assert_eq!(f.get_str("col.2"), Some("e"));
    assert_eq!(f.get("col.count").unwrap().as_int(), Some(3));
}

#[test]
fn doubled_quotes_collapse_to_one() {
    let f = CsvDecoder::default().decode(r#"a,"say ""hi""",c"#).unwrap().fields;
    assert_eq!(f.get_str("col.1"), Some(r#"say "hi""#));
    assert_eq!(f.get_str("col.2"), Some("c"));
}

#[test]
fn headers_produce_named_fields_alongside_positions() {
    let d = CsvDecoder::with_headers(vec![
        "future_use".into(),
        "receive_time".into(),
        "serial".into(),
    ]);
    let f = d.decode(",2026/08/31 10:23:45,001801234567,TRAFFIC").unwrap().fields;
    assert_eq!(f.get_str("receive_time"), Some("2026/08/31 10:23:45"));
    assert_eq!(f.get_str("serial"), Some("001801234567"));
    assert_eq!(f.get_str("col.2"), Some("001801234567"));
    assert_eq!(f.get_str("col.3"), Some("TRAFFIC"));
}

#[test]
fn empty_trailing_field_is_preserved() {
    let f = CsvDecoder::default().decode("a,b,").unwrap().fields;
    assert_eq!(f.get("col.count").unwrap().as_int(), Some(3));
    assert_eq!(f.get_str("col.2"), Some(""));
}

#[test]
fn consecutive_empty_fields_hold_their_positions() {
    let f = CsvDecoder::default().decode("a,,,d").unwrap().fields;
    assert_eq!(f.get("col.count").unwrap().as_int(), Some(4));
    assert_eq!(f.get_str("col.1"), Some(""));
    assert_eq!(f.get_str("col.2"), Some(""));
    assert_eq!(f.get_str("col.3"), Some("d"));
}

#[test]
fn unterminated_quote_does_not_lose_the_record() {
    let f = CsvDecoder::default().decode(r#"a,"unclosed,b,c"#).unwrap().fields;
    assert_eq!(f.get_str("col.0"), Some("a"));
    assert_eq!(f.get_str("col.1"), Some("unclosed,b,c"));
}

#[test]
fn single_column_record_is_valid() {
    let f = CsvDecoder::default().decode("only").unwrap().fields;
    assert_eq!(f.get_str("col.0"), Some("only"));
    assert_eq!(f.get("col.count").unwrap().as_int(), Some(1));
}

#[test]
fn csv_empty_input_errors() {
    assert_eq!(CsvDecoder::default().decode("").unwrap_err(), DecodeError::Empty);
}

#[test]
fn csv_decoder_is_named_and_strips_line_endings() {
    let d = CsvDecoder::default();
    assert_eq!(d.name(), "csv");
    let f = d.decode("x,y\r\n").unwrap().fields;
    assert_eq!(f.get_str("col.1"), Some("y"));
    assert_eq!(f.get("col.count").unwrap().as_int(), Some(2));
}
