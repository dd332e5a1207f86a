use ulpf::cli::parquet_writer::{ParquetFile, WriteError};
use ulpf::cli::parquet::{
    check_row, column_chunk, file_metadata, page_body, page_header, row_group, schema_element,
    zigzag_i32, zigzag_i64, ColumnMeta, ColumnSpec, ColumnType, Compact, RowError, RowGroupMeta,
    Value,
};

const COLS: &[ColumnSpec] = &[
    ColumnSpec { name: "n", ty: ColumnType::Int64 },
    ColumnSpec { name: "s", ty: ColumnType::Utf8 },
];

#[test]
fn zigzag_matches_the_thrift_definition() {
    assert_eq!(zigzag_i32(0), 0);
    assert_eq!(zigzag_i32(-1), 1);
    assert_eq!(zigzag_i32(1), 2);
    assert_eq!(zigzag_i64(1), 2);
    assert_eq!(zigzag_i64(-1), 1);
}

#[test]
fn zigzag_reaches_the_extremes() {
    assert_eq!(zigzag_i32(i32::MIN), u32::MAX as u64);
    assert_eq!(zigzag_i64(i64::MAX), u64::MAX - 1);
    assert_eq!(zigzag_i64(i64::MIN), u64::MAX);
}

#[test]
fn compact_varints_and_page_header_are_nonempty() {
    assert_eq!(zigzag_i32(-1), 1);
    assert_eq!(zigzag_i64(1), 2);
    assert!(!page_header(10, 10, 1).is_empty());
}

#[test]
fn a_page_header_is_the_thrift_compact_encoding() {
    // type=0, uncompressed=10, compressed=10, data page header {rows=1, PLAIN, RLE, RLE}
    assert_eq!(
        page_header(10, 10, 1),
        vec![0x15, 0x00, 0x15, 0x14, 0x15, 0x14, 0x2c, 0x15, 0x02, 0x15, 0x00, 0x15, 0x06, 0x15, 0x06, 0x00, 0x00]
    );
}

#[test]
fn varints_use_seven_bits_per_byte() {
    let mut c = Compact::new();
    c.varint(300);
    assert_eq!(c.bytes, vec![0xac, 0x02]);
    let mut d = Compact::new();
    d.field_i32(20, 1);
    assert_eq!(d.bytes, vec![0x05, 0x28, 0x02]);
    assert_eq!(d.last_field, 20);
}

#[test]
fn a_row_of_the_wrong_width_is_refused() {
    let mut w = ParquetFile::new(COLS.to_vec(), "test", 8);
    assert!(w.push(vec![Value::Int(1)]).is_err());
    assert_eq!(
        check_row(COLS, &[Value::Int(1)]),
        Err(RowError::WrongWidth { got: 1, want: 2 })
    );
}

#[test]
fn a_value_of_the_wrong_type_is_refused() {
    let mut w = ParquetFile::new(COLS.to_vec(), "test", 8);
    let pushed = w.push(vec![Value::Text("no".into()), Value::Text("yes".into())]);
    assert_eq!(pushed, Err(WriteError::Row(RowError::WrongType { column: "n" })));
    let err = check_row(COLS, &[Value::Text("no".into()), Value::Text("yes".into())]).unwrap_err();
    assert_eq!(err, RowError::WrongType { column: "n" });
    assert_eq!(check_row(COLS, &[Value::Int(7), Value::Text("ok".into())]), Ok(()));
}

#[test]
fn plain_pages_are_little_endian() {
    let rows = vec![
        vec![Value::Int(1), Value::Text("ab".into())],
        vec![Value::Int(-1), Value::Text("é".into())],
    ];
    assert_eq!(
        page_body(&rows, 0),
        vec![1, 0, 0, 0, 0, 0, 0, 0, 255, 255, 255, 255, 255, 255, 255, 255]
    );
    assert_eq!(page_body(&rows, 1), vec![2, 0, 0, 0, b'a', b'b', 2, 0, 0, 0, 0xc3, 0xa9]);
}

#[test]
fn footer_pieces_encode_their_fields() {
    assert_eq!(schema_element(None, b"schema", Some(2), 0, false), vec![0x35, 0x00, 0x18, 0x06, b's', b'c', b'h', b'e', b'm', b'a', 0x15, 0x04, 0x00]);
    let meta = ColumnMeta { path: "n", type_id: 2, offset: 4, page_size: 10, rows: 1 };
    let chunk = column_chunk(&meta);
    assert_eq!(&chunk[..2], &[0x26, 0x08]);
    assert_eq!(*chunk.last().unwrap(), 0);
    let group = RowGroupMeta { rows: 1, columns: vec![meta] };
    let rg = row_group(&group);
    assert_eq!(rg[0], 0x19);
    let footer = file_metadata(COLS, &[group], 1, "ulpf");
    assert_eq!(&footer[..2], &[0x15, 0x02]);
    assert!(footer.ends_with(&[0x28, 0x04, b'u', b'l', b'p', b'f', 0x00]));
    assert_eq!(ColumnSpec::new("x", ColumnType::Utf8).ty.type_id(), 6);
}

#[test]
fn writing_produces_a_file_with_the_parquet_magic_at_both_ends() {
    let mut w = ParquetFile::new(COLS.to_vec(), "test", 2);
    for i in 0..5 {
        w.push(vec![Value::Int(i), Value::Text(format!("row-{i}"))]).unwrap();
    }
    let bytes = w.finish().unwrap();
    assert!(bytes.starts_with(b"PAR1"), "missing leading magic");
    assert!(bytes.ends_with(b"PAR1"), "missing trailing magic");
    assert!(bytes.len() > 8);
}

#[test]
fn full_batches_become_row_groups_as_they_fill() {
    let mut w = ParquetFile::new(COLS.to_vec(), "test", 2);
    assert_eq!(w.bytes(), b"PAR1");
    w.push(vec![Value::Int(1), Value::Text("a".into())]).unwrap();
    assert_eq!(w.bytes().len(), 4);
    w.push(vec![Value::Int(2), Value::Text("b".into())]).unwrap();
    // Two pages now follow the magic: a header and 16 bytes of integers, a
    // header and two length-prefixed strings.
    let first = page_header(16, 16, 2);
    let second = page_header(10, 10, 2);
    assert_eq!(w.bytes().len(), 4 + first.len() + 16 + second.len() + 10);
    assert_eq!(&w.bytes()[4..4 + first.len()], &first[..]);
    w.flush().unwrap();
    let before = w.bytes().len();
    w.flush().unwrap();
    assert_eq!(w.bytes().len(), before);
}

#[test]
fn the_footer_length_precedes_the_closing_magic() {
    let w = ParquetFile::new(COLS.to_vec(), "ulpf", 4);
    let bytes = w.finish().unwrap();
    let n = bytes.len();
    let footer_len = u32::from_le_bytes([bytes[n - 8], bytes[n - 7], bytes[n - 6], bytes[n - 5]]) as usize;
    assert_eq!(4 + footer_len + 4 + 4, n);
    assert_eq!(bytes[4 + footer_len - 1], 0, "a Thrift struct ends with a stop byte");
}
