use ulpf::cli::parquet::Value;
use ulpf::cli::parquet_writer::ParquetFile;
use ulpf::cli::sinks::{
    archive_columns, archive_row, ArchiveError, HttpEndpoint, OpenSearchSink, SinkError, SplunkHecSink,
    ARCHIVE_WRITER,
};

#[test]
fn endpoint_parsing_keeps_path_and_rejects_implicit_tls() {
    let endpoint = HttpEndpoint::parse("http://127.0.0.1:9200/logs").unwrap();
    assert_eq!(endpoint.host, "127.0.0.1");
    assert_eq!(endpoint.port, 9200);
    assert_eq!(endpoint.path, "/logs");
    let ipv6 = HttpEndpoint::parse("http://[::1]:8080").unwrap();
    assert_eq!(ipv6.host, "::1");
    assert_eq!(ipv6.port, 8080);
    assert!(HttpEndpoint::parse("https://127.0.0.1:9200").is_err());
    assert!(HttpEndpoint::parse("http://bad host:9200").is_err());
}

#[test]
fn endpoint_defaults_and_refusals() {
    let e = HttpEndpoint::parse("http://collector//a/b").unwrap();
    assert_eq!(e.host, "collector");
    assert_eq!(e.port, 80);
    assert_eq!(e.path, "/a/b");
    let odd = HttpEndpoint::parse("http://host:99999").unwrap();
    assert_eq!(odd.host, "host:99999");
    assert_eq!(odd.port, 80);
    assert_eq!(HttpEndpoint::parse("http:///x"), Err(SinkError::NoHost("http:///x".into())));
    assert_eq!(HttpEndpoint::parse("http://[]:80"), Err(SinkError::NoHost("http://[]:80".into())));
    assert_eq!(HttpEndpoint::parse("ftp://h"), Err(SinkError::NotHttp("ftp://h".into())));
    assert_eq!(HttpEndpoint::parse("http://h/\u{7}"), Err(SinkError::BadPath("http://h/\u{7}".into())));
}

#[test]
fn sinks_batch_newline_delimited_records() {
    let mut os = OpenSearchSink::new("http://h:9200/logs/", "ocsf", 1, Some("tok")).unwrap();
    assert_eq!(os.batch.endpoint.path, "/logs/_bulk");
    assert_eq!(os.batch.authorization.as_deref(), Some("Bearer tok"));
    assert_eq!(os.batch.batch_size, 2);
    assert!(os.batch.pending().is_none());
    let full = os.write(b"{\"index\":{}}", b"{}");
    assert!(full);
    assert_eq!(os.batch.pending(), Some(&b"{\"index\":{}}\n{}\n"[..]));
    os.batch.sent();
    assert!(os.batch.pending().is_none());

    let mut hec = SplunkHecSink::new("http://splunk:8088/services/collector", "T", 3).unwrap();
    assert_eq!(hec.batch.authorization.as_deref(), Some("Splunk T"));
    assert!(!hec.write(b"{\"event\":1}"));
    assert_eq!(hec.batch.count, 1);
}

#[test]
fn parquet_output_has_magic_and_is_readable_by_parquet_tools() {
    let mut file = ParquetFile::new(archive_columns(), ARCHIVE_WRITER, 250);
    let row = archive_row("{\"class_uid\":4001}".to_string(), Some(4001), Some(1), Some(1_700_000_000_000)).unwrap();
    file.push(row).unwrap();
    let bytes = file.finish().unwrap();
    assert!(bytes.starts_with(b"PAR1"));
    assert!(bytes.ends_with(b"PAR1"));
    // The column names and the writer are in the footer.
    let text = String::from_utf8_lossy(&bytes);
    for name in ["event_json", "class_uid", "activity_id", "time", "ulpf parquet sink"] {
        assert!(text.contains(name), "footer lacks {name}");
    }
}

#[test]
fn an_event_without_its_scalars_is_not_archived() {
    assert_eq!(archive_row("{}".into(), None, Some(1), Some(2)), Err(ArchiveError::NoClassUid));
    assert_eq!(archive_row("{}".into(), Some(1), None, None), Err(ArchiveError::NoActivityId));
    assert_eq!(archive_row("{}".into(), Some(1), Some(1), None), Err(ArchiveError::NoTime));
    let row = archive_row("{}".into(), Some(3), Some(4), Some(5)).unwrap();
    assert_eq!(row, vec![Value::Text("{}".into()), Value::Int(3), Value::Int(4), Value::Int(5)]);
}
