//! The bytes of a small Parquet file: plain pages and a Thrift footer.
//!
//! PLAIN encoding, uncompressed pages, every column required. The footer is
//! Thrift's compact protocol, modelled here as a list of fields each with an
//! id, a type code and an encoded payload.
use vstd::prelude::*;
use vstd::string::StringSliceAdditionalSpecFns;

verus! {

#[derive(Debug, Clone, Copy, PartialEq, Eq, Structural)]
pub enum ColumnType {
    Int64,
    Utf8,
}

/// Parquet's `Type` code: 2 is INT64, 6 is BYTE_ARRAY.
pub open spec fn type_code(t: ColumnType) -> i32 {
    match t {
        ColumnType::Int64 => 2,
        ColumnType::Utf8 => 6,
    }
}

impl ColumnType {
    pub fn type_id(self) -> (r: i32)
        ensures
            r == type_code(self),
    {
        match self {
            ColumnType::Int64 => 2,
            ColumnType::Utf8 => 6,
        }
    }
}

#[derive(Debug, Clone, Copy)]
pub struct ColumnSpec {
    pub name: &'static str,
    pub ty: ColumnType,
}

impl ColumnSpec {
    pub fn new(name: &'static str, ty: ColumnType) -> (r: Self)
        ensures
            r.name == name,
            r.ty == ty,
    {
        ColumnSpec { name, ty }
    }
}

/// One cell of a row.
#[derive(Debug, Clone, PartialEq, Eq)]
pub enum Value {
    Int(i64),
    Text(String),
}

// ---------------------------------------------------------------------------
// Thrift compact protocol
// ---------------------------------------------------------------------------

/// ULEB128: seven bits per byte, low group first, high bit set on all but
/// the last byte.
pub open spec fn varint(v: nat) -> Seq<u8>
    decreases v,
{
    if v < 128 {
        seq![v as u8]
    } else {
        seq![(v % 128 + 128) as u8] + varint(v / 128)
    }
}

/// Zigzag: 0, -1, 1, -2, 2, ... become 0, 1, 2, 3, 4, ...
pub open spec fn zigzag(v: int) -> nat {
    if v >= 0 { (2 * v) as nat } else { (-2 * v - 1) as nat }
}

/// A field header: the id as a delta from the previous field's when it is 1
/// to 15, packed with the type code; otherwise the type code, then the id.
pub open spec fn field_header(last: int, field: int, ty: int) -> Seq<u8> {
    if 1 <= field - last <= 15 {
        seq![((field - last) * 16 + ty) as u8]
    } else {
        seq![ty as u8] + varint(zigzag(field))
    }
}

/// A list header: a size under 15 packed with the element type; otherwise
/// `0xF0 | type`, then the size.
pub open spec fn list_head(n: nat, ty: int) -> Seq<u8> {
    if n < 15 { seq![(n * 16 + ty) as u8] } else { seq![(240 + ty) as u8] + varint(n) }
}

/// Length-prefixed bytes.
pub open spec fn binary(b: Seq<u8>) -> Seq<u8> {
    varint(b.len()) + b
}

pub open spec fn flat(vs: Seq<Seq<u8>>) -> Seq<u8>
    decreases vs.len(),
{
    if vs.len() == 0 { Seq::empty() } else { flat(vs.drop_last()) + vs.last() }
}

/// A field's value, as the footer needs them.
pub ghost enum TField {
    I32(int),
    I64(int),
    Bin(Seq<u8>),
    /// An already-encoded struct.
    Struct(Seq<u8>),
    ListI32(Seq<int>),
    ListBin(Seq<Seq<u8>>),
    /// A list of already-encoded structs.
    ListStruct(Seq<Seq<u8>>),
}

pub open spec fn code(f: TField) -> int {
    match f {
        TField::I32(_) => 5,
        TField::I64(_) => 6,
        TField::Bin(_) => 8,
        TField::Struct(_) => 12,
        _ => 9,
    }
}

pub open spec fn payload(f: TField) -> Seq<u8> {
    match f {
        TField::I32(v) => varint(zigzag(v)),
        TField::I64(v) => varint(zigzag(v)),
        TField::Bin(b) => binary(b),
        TField::Struct(b) => b,
        TField::ListI32(vs) => list_head(vs.len(), 5) + flat(vs.map_values(|v: int| varint(zigzag(v)))),
        TField::ListBin(bs) => list_head(bs.len(), 8) + flat(bs.map_values(|b: Seq<u8>| binary(b))),
        TField::ListStruct(ss) => list_head(ss.len(), 12) + flat(ss),
    }
}

/// The fields `fs`, each as header and payload, the first relative to `last`.
pub open spec fn encode_fields(last: int, fs: Seq<(int, TField)>) -> Seq<u8>
    decreases fs.len(),
{
    if fs.len() == 0 {
        Seq::empty()
    } else {
        encode_fields(last, fs.drop_last()) + field_header(last_id(last, fs.drop_last()), fs.last().0, code(fs.last().1))
            + payload(fs.last().1)
    }
}

pub open spec fn last_id(last: int, fs: Seq<(int, TField)>) -> int {
    if fs.len() == 0 { last } else { fs.last().0 }
}

/// A struct: its fields, then the stop byte.
pub open spec fn encode_struct(fs: Seq<(int, TField)>) -> Seq<u8> {
    encode_fields(0, fs) + seq![0u8]
}

/// A compact-protocol writer: the bytes so far and the last field id.
pub struct Compact {
    pub bytes: Vec<u8>,
    pub last_field: i16,
}

pub open spec fn zz_u64(v: int) -> u64 {
    zigzag(v) as u64
}

/// `value` zigzag-encoded, for an `i32`.
pub fn zigzag_i32(value: i32) -> (r: u64)
    ensures
        r == zigzag(value as int),
{
    let w = value as i64;
    let r = ((w << 1u32) ^ (w >> 31u32)) as u64;
    assert(w >= 0 ==> r == (2 * w) as u64) by (bit_vector)
        requires
            w == value as i64,
            r == ((w << 1u32) ^ (w >> 31u32)) as u64,
            -0x8000_0000 <= w < 0x8000_0000,
    ;
    assert(w < 0 ==> r == (-2 * w - 1) as u64) by (bit_vector)
        requires
            r == ((w << 1u32) ^ (w >> 31u32)) as u64,
            -0x8000_0000 <= w < 0x8000_0000,
    ;
    r
}

/// `value` zigzag-encoded, for an `i64`.
pub fn zigzag_i64(value: i64) -> (r: u64)
    ensures
        r == zigzag(value as int),
{
    let r = ((value << 1u32) ^ (value >> 63u32)) as u64;
    assert(value >= 0 ==> r == (2 * value) as u64) by (bit_vector)
        requires
            r == ((value << 1u32) ^ (value >> 63u32)) as u64,
    ;
    assert(value < 0 ==> r == (-2 * value - 1) as u64) by (bit_vector)
        requires
            r == ((value << 1u32) ^ (value >> 63u32)) as u64,
    ;
    r
}

impl Compact {
    pub fn new() -> (r: Self)
        ensures
            r.bytes@ == Seq::<u8>::empty(),
            r.last_field == 0,
    {
        Compact { bytes: Vec::new(), last_field: 0 }
    }

    fn push_all(&mut self, value: &[u8])
        ensures
            final(self).bytes@ == old(self).bytes@ + value@,
            final(self).last_field == old(self).last_field,
    {
        let mut i: usize = 0;
        while i < value.len()
            invariant
                i <= value@.len(),
                self.bytes@ == old(self).bytes@ + value@.take(i as int),
                self.last_field == old(self).last_field,
            decreases value@.len() - i,
        {
            self.bytes.push(value[i]);
            assert(value@.take(i + 1) == value@.take(i as int).push(value@[i as int]));
            i += 1;
        }
        assert(value@.take(value@.len() as int) == value@);
    }

    /// Appends `varint(value)`.
    pub fn varint(&mut self, value: u64)
        ensures
            final(self).bytes@ == old(self).bytes@ + varint(value as nat),
            final(self).last_field == old(self).last_field,
    {
        let mut v = value;
        while v >= 0x80
            invariant
                old(self).bytes@ + varint(value as nat) == self.bytes@ + varint(v as nat),
                self.last_field == old(self).last_field,
            decreases v,
        {
            let b = (v as u8) | 0x80u8;
            assert(b == ((v % 128) + 128) as u8) by (bit_vector)
                requires
                    b == (v as u8) | 0x80u8,
            ;
            let ghost before = self.bytes@;
            self.bytes.push(b);
            let w = v >> 7u32;
            assert(w == v / 128) by (bit_vector)
                requires
                    w == v >> 7u32,
            ;
            assert(before + varint(v as nat) == before.push(b) + varint(w as nat));
            v = w;
        }
        self.bytes.push(v as u8);
    }

    /// Appends a field header and records `field` as the last id.
    pub fn header(&mut self, field: i16, ty: u8)
        requires
            i16::MIN <= field - old(self).last_field <= i16::MAX,
            ty < 16,
        ensures
            final(self).bytes@ == old(self).bytes@ + field_header(old(self).last_field as int, field as int, ty as int),
            final(self).last_field == field,
    {
        let delta = field - self.last_field;
        if 1 <= delta && delta <= 15 {
            let d = delta as u8;
            let b = (d << 4u32) | ty;
            assert(b == (d * 16 + ty) as u8) by (bit_vector)
                requires
                    b == (d << 4u32) | ty,
                    1 <= d <= 15,
                    ty < 16,
            ;
            self.bytes.push(b);
        } else {
            self.bytes.push(ty);
            let z = zigzag_i32(field as i32);
            self.varint(z);
        }
        self.last_field = field;
    }

    /// Appends the stop byte.
    pub fn stop(&mut self)
        ensures
            final(self).bytes@ == old(self).bytes@.push(0u8),
            final(self).last_field == old(self).last_field,
    {
        self.bytes.push(0);
    }

    fn binary(&mut self, value: &[u8])
        ensures
            final(self).bytes@ == old(self).bytes@ + binary(value@),
            final(self).last_field == old(self).last_field,
    {
        self.varint(value.len() as u64);
        self.push_all(value);
    }

    fn list_header(&mut self, len: usize, ty: u8)
        requires
            ty < 16,
        ensures
            final(self).bytes@ == old(self).bytes@ + list_head(len as nat, ty as int),
            final(self).last_field == old(self).last_field,
    {
        if len < 15 {
            let n = len as u8;
            let b = (n << 4u32) | ty;
            assert(b == (n * 16 + ty) as u8) by (bit_vector)
                requires
                    b == (n << 4u32) | ty,
                    n < 15,
                    ty < 16,
            ;
            self.bytes.push(b);
        } else {
            let b = 0xf0u8 | ty;
            assert(b == (240 + ty) as u8) by (bit_vector)
                requires
                    b == 0xf0u8 | ty,
                    ty < 16,
            ;
            self.bytes.push(b);
            self.varint(len as u64);
        }
    }

    pub fn field_i32(&mut self, field: i16, value: i32)
        requires
            i16::MIN <= field - old(self).last_field <= i16::MAX,
        ensures
            final(self).bytes@ == old(self).bytes@ + field_header(old(self).last_field as int, field as int, 5)
                + payload(TField::I32(value as int)),
            final(self).last_field == field,
    {
        self.header(field, 5);
        let z = zigzag_i32(value);
        self.varint(z);
    }

    pub fn field_i64(&mut self, field: i16, value: i64)
        requires
            i16::MIN <= field - old(self).last_field <= i16::MAX,
        ensures
            final(self).bytes@ == old(self).bytes@ + field_header(old(self).last_field as int, field as int, 6)
                + payload(TField::I64(value as int)),
            final(self).last_field == field,
    {
        self.header(field, 6);
        let z = zigzag_i64(value);
        self.varint(z);
    }

    pub fn field_string(&mut self, field: i16, value: &[u8])
        requires
            i16::MIN <= field - old(self).last_field <= i16::MAX,
        ensures
            final(self).bytes@ == old(self).bytes@ + field_header(old(self).last_field as int, field as int, 8)
                + payload(TField::Bin(value@)),
            final(self).last_field == field,
    {
        self.header(field, 8);
        self.binary(value);
    }

    pub fn field_struct_bytes(&mut self, field: i16, value: &[u8])
        requires
            i16::MIN <= field - old(self).last_field <= i16::MAX,
        ensures
            final(self).bytes@ == old(self).bytes@ + field_header(old(self).last_field as int, field as int, 12)
                + payload(TField::Struct(value@)),
            final(self).last_field == field,
    {
        self.header(field, 12);
        self.push_all(value);
    }

    pub fn list_structs(&mut self, field: i16, values: &[Vec<u8>])
        requires
            i16::MIN <= field - old(self).last_field <= i16::MAX,
        ensures
            final(self).bytes@ == old(self).bytes@ + field_header(old(self).last_field as int, field as int, 9)
                + payload(TField::ListStruct(views(values@))),
            final(self).last_field == field,
    {
        self.header(field, 9);
        self.list_header(values.len(), 12);
        let ghost start = self.bytes@;
        let mut i: usize = 0;
        while i < values.len()
            invariant
                i <= values@.len(),
                self.bytes@ == start + flat(views(values@).take(i as int)),
                self.last_field == field,
            decreases values@.len() - i,
        {
            self.push_all(values[i].as_slice());
            assert(views(values@).take(i + 1).drop_last() == views(values@).take(i as int));
            i += 1;
        }
        assert(views(values@).take(values@.len() as int) == views(values@));
    }

    pub fn list_i32(&mut self, field: i16, values: &[i32])
        requires
            i16::MIN <= field - old(self).last_field <= i16::MAX,
        ensures
            final(self).bytes@ == old(self).bytes@ + field_header(old(self).last_field as int, field as int, 9)
                + payload(TField::ListI32(ints(values@))),
            final(self).last_field == field,
    {
        self.header(field, 9);
        self.list_header(values.len(), 5);
        let ghost start = self.bytes@;
        let ghost enc = ints(values@).map_values(|v: int| varint(zigzag(v)));
        let mut i: usize = 0;
        while i < values.len()
            invariant
                i <= values@.len(),
                enc == ints(values@).map_values(|v: int| varint(zigzag(v))),
                self.bytes@ == start + flat(enc.take(i as int)),
                self.last_field == field,
            decreases values@.len() - i,
        {
            let z = zigzag_i32(values[i]);
            self.varint(z);
            assert(enc.take(i + 1).drop_last() == enc.take(i as int));
            i += 1;
        }
        assert(enc.take(values@.len() as int) == enc);
    }

    pub fn list_string(&mut self, field: i16, values: &[&[u8]])
        requires
            i16::MIN <= field - old(self).last_field <= i16::MAX,
        ensures
            final(self).bytes@ == old(self).bytes@ + field_header(old(self).last_field as int, field as int, 9)
                + payload(TField::ListBin(slices(values@))),
            final(self).last_field == field,
    {
        self.header(field, 9);
        self.list_header(values.len(), 8);
        let ghost start = self.bytes@;
        let ghost enc = slices(values@).map_values(|b: Seq<u8>| binary(b));
        let mut i: usize = 0;
        while i < values.len()
            invariant
                i <= values@.len(),
                enc == slices(values@).map_values(|b: Seq<u8>| binary(b)),
                self.bytes@ == start + flat(enc.take(i as int)),
                self.last_field == field,
            decreases values@.len() - i,
        {
            self.binary(values[i]);
            assert(enc.take(i + 1).drop_last() == enc.take(i as int));
            i += 1;
        }
        assert(enc.take(values@.len() as int) == enc);
    }
}

pub open spec fn views(v: Seq<Vec<u8>>) -> Seq<Seq<u8>> {
    v.map_values(|b: Vec<u8>| b@)
}

pub open spec fn ints(v: Seq<i32>) -> Seq<int> {
    v.map_values(|x: i32| x as int)
}

pub open spec fn slices(v: Seq<&[u8]>) -> Seq<Seq<u8>> {
    v.map_values(|b: &[u8]| b@)
}


// ---------------------------------------------------------------------------
// Parquet footer structures
// ---------------------------------------------------------------------------

proof fn lemma_encode_push(fs: Seq<(int, TField)>, f: (int, TField))
    ensures
        encode_fields(0, fs.push(f)) == encode_fields(0, fs) + field_header(last_id(0, fs), f.0, code(f.1)) + payload(f.1),
{
    assert(fs.push(f).drop_last() == fs);
    assert(fs.push(f).last() == f);
}

/// `DataPageHeader`: row count, PLAIN encoding, RLE levels (unused: every
/// column is required).
pub open spec fn data_page_fields(rows: int) -> Seq<(int, TField)> {
    seq![(1int, TField::I32(rows)), (2int, TField::I32(0)), (3int, TField::I32(3)), (4int, TField::I32(3))]
}

/// `PageHeader` of an uncompressed data page.
pub open spec fn page_header_fields(uncompressed: int, compressed: int, rows: int) -> Seq<(int, TField)> {
    seq![
        (1int, TField::I32(0)),
        (2int, TField::I32(uncompressed)),
        (3int, TField::I32(compressed)),
        (5int, TField::Struct(encode_struct(data_page_fields(rows)))),
    ]
}

/// A compact writer that has written exactly the fields `fs`.
pub open spec fn wrote(c: Compact, fs: Seq<(int, TField)>) -> bool {
    &&& c.bytes@ == encode_fields(0, fs)
    &&& c.last_field == last_id(0, fs)
    &&& 0 <= c.last_field <= 1000
}

/// The Thrift `PageHeader` for one data page.
pub fn page_header(uncompressed: i32, compressed: i32, rows: i32) -> (r: Vec<u8>)
    ensures
        r@ == encode_struct(page_header_fields(uncompressed as int, compressed as int, rows as int)),
{
    let mut data = Compact::new();
    let ghost mut ds = Seq::<(int, TField)>::empty();
    data.field_i32(1, rows);
    proof { lemma_encode_push(ds, (1int, TField::I32(rows as int))); ds = ds.push((1int, TField::I32(rows as int))); }
    data.field_i32(2, 0);
    proof { lemma_encode_push(ds, (2int, TField::I32(0))); ds = ds.push((2int, TField::I32(0))); }
    data.field_i32(3, 3);
    proof { lemma_encode_push(ds, (3int, TField::I32(3))); ds = ds.push((3int, TField::I32(3))); }
    data.field_i32(4, 3);
    proof { lemma_encode_push(ds, (4int, TField::I32(3))); ds = ds.push((4int, TField::I32(3))); }
    assert(ds =~= data_page_fields(rows as int));
    data.stop();
    assert(data.bytes@ =~= encode_struct(data_page_fields(rows as int)));
    let mut out = Compact::new();
    let ghost mut fs = Seq::<(int, TField)>::empty();
    out.field_i32(1, 0);
    proof { lemma_encode_push(fs, (1int, TField::I32(0))); fs = fs.push((1int, TField::I32(0))); }
    out.field_i32(2, uncompressed);
    proof { lemma_encode_push(fs, (2int, TField::I32(uncompressed as int))); fs = fs.push((2int, TField::I32(uncompressed as int))); }
    out.field_i32(3, compressed);
    proof { lemma_encode_push(fs, (3int, TField::I32(compressed as int))); fs = fs.push((3int, TField::I32(compressed as int))); }
    out.field_struct_bytes(5, data.bytes.as_slice());
    proof { lemma_encode_push(fs, (5int, TField::Struct(data.bytes@))); fs = fs.push((5int, TField::Struct(data.bytes@))); }
    assert(fs =~= page_header_fields(uncompressed as int, compressed as int, rows as int));
    out.stop();
    out.bytes
}

/// `SchemaElement`: an optional type, the repetition, the name, an optional
/// child count, and the UTF8 converted type for text columns.
pub open spec fn schema_fields(type_id: Option<i32>, name: Seq<u8>, num_children: Option<i32>, repetition: i32, utf8: bool) -> Seq<(int, TField)> {
    let a: Seq<(int, TField)> = match type_id { Some(t) => seq![(1int, TField::I32(t as int))], None => Seq::empty() };
    let b = a + seq![(3int, TField::I32(repetition as int)), (4int, TField::Bin(name))];
    let c = match num_children { Some(n) => b.push((5int, TField::I32(n as int))), None => b };
    if utf8 { c.push((6int, TField::I32(0))) } else { c }
}

/// One schema element.
pub fn schema_element(type_id: Option<i32>, name: &[u8], num_children: Option<i32>, repetition: i32, utf8: bool) -> (r: Vec<u8>)
    ensures
        r@ == encode_struct(schema_fields(type_id, name@, num_children, repetition, utf8)),
{
    let mut element = Compact::new();
    let ghost mut fs = Seq::<(int, TField)>::empty();
    match type_id {
        Some(t) => {
            element.field_i32(1, t);
            proof { lemma_encode_push(fs, (1int, TField::I32(t as int))); fs = fs.push((1int, TField::I32(t as int))); }
        },
        None => {},
    }
    assert(wrote(element, fs));
    element.field_i32(3, repetition);
    proof { lemma_encode_push(fs, (3int, TField::I32(repetition as int))); fs = fs.push((3int, TField::I32(repetition as int))); }
    element.field_string(4, name);
    proof { lemma_encode_push(fs, (4int, TField::Bin(name@))); fs = fs.push((4int, TField::Bin(name@))); }
    match num_children {
        Some(n) => {
            element.field_i32(5, n);
            proof { lemma_encode_push(fs, (5int, TField::I32(n as int))); fs = fs.push((5int, TField::I32(n as int))); }
        },
        None => {},
    }
    if utf8 {
        element.field_i32(6, 0);
        proof { lemma_encode_push(fs, (6int, TField::I32(0))); fs = fs.push((6int, TField::I32(0))); }
    }
    assert(fs =~= schema_fields(type_id, name@, num_children, repetition, utf8));
    element.stop();
    element.bytes
}

/// Where one column's page of a row group lies.
#[derive(Debug, Clone, Copy)]
pub struct ColumnMeta {
    pub path: &'static str,
    pub type_id: i32,
    pub offset: i64,
    pub page_size: i64,
    pub rows: i64,
}

/// `ColumnMetaData`: type, PLAIN, path, UNCOMPRESSED, value count, sizes,
/// and the data page's offset.
pub open spec fn column_meta_fields(c: ColumnMeta) -> Seq<(int, TField)> {
    seq![
        (1int, TField::I32(c.type_id as int)),
        (2int, TField::ListI32(seq![0int])),
        (3int, TField::ListBin(seq![c.path.spec_bytes()])),
        (4int, TField::I32(0)),
        (5int, TField::I64(c.rows as int)),
        (6int, TField::I64(c.page_size as int)),
        (7int, TField::I64(c.page_size as int)),
        (9int, TField::I64(c.offset as int)),
    ]
}

/// `ColumnChunk`: the file offset, then the metadata.
pub open spec fn column_chunk_fields(c: ColumnMeta) -> Seq<(int, TField)> {
    seq![(2int, TField::I64(c.offset as int)), (3int, TField::Struct(encode_struct(column_meta_fields(c))))]
}

pub fn column_chunk(column: &ColumnMeta) -> (r: Vec<u8>)
    ensures
        r@ == encode_struct(column_chunk_fields(*column)),
{
    let mut metadata = Compact::new();
    let ghost mut fs = Seq::<(int, TField)>::empty();
    metadata.field_i32(1, column.type_id);
    proof { lemma_encode_push(fs, (1int, TField::I32(column.type_id as int))); fs = fs.push((1int, TField::I32(column.type_id as int))); }
    let plain: [i32; 1] = [0];
    metadata.list_i32(2, &plain);
    assert(ints(plain@) =~= seq![0int]);
    proof { lemma_encode_push(fs, (2int, TField::ListI32(seq![0int]))); fs = fs.push((2int, TField::ListI32(seq![0int]))); }
    let path_bytes = column.path.as_bytes();
    let paths: [&[u8]; 1] = [path_bytes];
    metadata.list_string(3, &paths);
    assert(slices(paths@) =~= seq![column.path.spec_bytes()]);
    proof { lemma_encode_push(fs, (3int, TField::ListBin(seq![column.path.spec_bytes()]))); fs = fs.push((3int, TField::ListBin(seq![column.path.spec_bytes()]))); }
    metadata.field_i32(4, 0);
    proof { lemma_encode_push(fs, (4int, TField::I32(0))); fs = fs.push((4int, TField::I32(0))); }
    metadata.field_i64(5, column.rows);
    proof { lemma_encode_push(fs, (5int, TField::I64(column.rows as int))); fs = fs.push((5int, TField::I64(column.rows as int))); }
    metadata.field_i64(6, column.page_size);
    proof { lemma_encode_push(fs, (6int, TField::I64(column.page_size as int))); fs = fs.push((6int, TField::I64(column.page_size as int))); }
    metadata.field_i64(7, column.page_size);
    proof { lemma_encode_push(fs, (7int, TField::I64(column.page_size as int))); fs = fs.push((7int, TField::I64(column.page_size as int))); }
    metadata.field_i64(9, column.offset);
    proof { lemma_encode_push(fs, (9int, TField::I64(column.offset as int))); fs = fs.push((9int, TField::I64(column.offset as int))); }
    assert(fs =~= column_meta_fields(*column));
    metadata.stop();
    assert(metadata.bytes@ =~= encode_struct(column_meta_fields(*column)));

    let mut chunk = Compact::new();
    let ghost mut gs = Seq::<(int, TField)>::empty();
    chunk.field_i64(2, column.offset);
    proof { lemma_encode_push(gs, (2int, TField::I64(column.offset as int))); gs = gs.push((2int, TField::I64(column.offset as int))); }
    chunk.field_struct_bytes(3, metadata.bytes.as_slice());
    proof { lemma_encode_push(gs, (3int, TField::Struct(metadata.bytes@))); gs = gs.push((3int, TField::Struct(metadata.bytes@))); }
    assert(gs =~= column_chunk_fields(*column));
    chunk.stop();
    chunk.bytes
}

/// One row group: its rows and the pages of its columns.
#[derive(Debug, Clone)]
pub struct RowGroupMeta {
    pub rows: i64,
    pub columns: Vec<ColumnMeta>,
}

pub open spec fn sum_sizes(cs: Seq<ColumnMeta>) -> int
    decreases cs.len(),
{
    if cs.len() == 0 { 0 } else { sum_sizes(cs.drop_last()) + cs.last().page_size }
}

pub open spec fn chunk_structs(cs: Seq<ColumnMeta>) -> Seq<Seq<u8>> {
    cs.map_values(|c: ColumnMeta| encode_struct(column_chunk_fields(c)))
}

/// `RowGroup`: the column chunks, their total size, the row count.
pub open spec fn row_group_fields(g: RowGroupMeta) -> Seq<(int, TField)> {
    seq![
        (1int, TField::ListStruct(chunk_structs(g.columns@))),
        (2int, TField::I64(sum_sizes(g.columns@))),
        (3int, TField::I64(g.rows as int)),
    ]
}

/// The page sizes of `cs` add up without leaving `i64`, at every prefix.
pub open spec fn sizes_fit(cs: Seq<ColumnMeta>) -> bool {
    forall|k: int| 0 <= k <= cs.len() ==> i64::MIN <= #[trigger] sum_sizes(cs.take(k)) <= i64::MAX
}

pub fn row_group(group: &RowGroupMeta) -> (r: Vec<u8>)
    requires
        sizes_fit(group.columns@),
    ensures
        r@ == encode_struct(row_group_fields(*group)),
{
    let mut chunks: Vec<Vec<u8>> = Vec::new();
    let mut total: i64 = 0;
    let mut i: usize = 0;
    let ghost cs = group.columns@;
    assert(cs.take(0) == Seq::<ColumnMeta>::empty());
    while i < group.columns.len()
        invariant
            i <= cs.len(),
            cs == group.columns@,
            sizes_fit(cs),
            i64::MIN <= sum_sizes(cs.take(i as int)) <= i64::MAX,
            views(chunks@) == chunk_structs(cs.take(i as int)),
            total == sum_sizes(cs.take(i as int)),
        decreases cs.len() - i,
    {
        let c = column_chunk(&group.columns[i]);
        let ghost cv = c@;
        let ghost before = chunks@;
        chunks.push(c);
        assert(cs.take(i + 1) == cs.take(i as int).push(cs[i as int]));
        assert(chunk_structs(cs.take(i + 1)) =~= chunk_structs(cs.take(i as int)).push(cv));
        assert(views(chunks@) =~= views(before).push(cv));
        assert(i64::MIN <= sum_sizes(cs.take(i + 1)) <= i64::MAX);
        assert(cs.take(i + 1).drop_last() == cs.take(i as int));
        assert(cs.take(i + 1).last() == cs[i as int]);
        assert(sum_sizes(cs.take(i + 1)) == sum_sizes(cs.take(i as int)) + cs[i as int].page_size);
        total = total + group.columns[i].page_size;
        i += 1;
    }
    assert(cs.take(cs.len() as int) == cs);
    let mut out = Compact::new();
    let ghost mut fs = Seq::<(int, TField)>::empty();
    out.list_structs(1, chunks.as_slice());
    proof { lemma_encode_push(fs, (1int, TField::ListStruct(views(chunks@)))); fs = fs.push((1int, TField::ListStruct(views(chunks@)))); }
    out.field_i64(2, total);
    proof { lemma_encode_push(fs, (2int, TField::I64(total as int))); fs = fs.push((2int, TField::I64(total as int))); }
    out.field_i64(3, group.rows);
    proof { lemma_encode_push(fs, (3int, TField::I64(group.rows as int))); fs = fs.push((3int, TField::I64(group.rows as int))); }
    assert(fs =~= row_group_fields(*group));
    out.stop();
    out.bytes
}

/// The schema: a root element naming the column count, then one element
/// per column (required; UTF8 for text).
pub open spec fn schema_structs(columns: Seq<ColumnSpec>) -> Seq<Seq<u8>> {
    seq![encode_struct(schema_fields(None, "schema"@.map_values(|c: char| c as u8), Some(columns.len() as i32), 0, false))]
        + columns.map_values(|c: ColumnSpec| encode_struct(schema_fields(Some(type_code(c.ty)), c.name.spec_bytes(), None, 0, c.ty == ColumnType::Utf8)))
}

pub open spec fn group_structs(gs: Seq<RowGroupMeta>) -> Seq<Seq<u8>> {
    gs.map_values(|g: RowGroupMeta| encode_struct(row_group_fields(g)))
}

/// `FileMetaData`: version 1, the schema, the row count, the row groups and
/// who wrote the file.
pub open spec fn file_metadata_fields(columns: Seq<ColumnSpec>, groups: Seq<RowGroupMeta>, total_rows: i64, created_by: Seq<u8>) -> Seq<(int, TField)> {
    seq![
        (1int, TField::I32(1)),
        (2int, TField::ListStruct(schema_structs(columns))),
        (3int, TField::I64(total_rows as int)),
        (4int, TField::ListStruct(group_structs(groups))),
        (6int, TField::Bin(created_by)),
    ]
}

pub fn file_metadata(columns: &[ColumnSpec], groups: &[RowGroupMeta], total_rows: i64, created_by: &str) -> (r: Vec<u8>)
    requires
        columns@.len() <= i32::MAX,
        forall|k: int| 0 <= k < groups@.len() ==> sizes_fit(#[trigger] groups@[k].columns@),
    ensures
        r@ == encode_struct(file_metadata_fields(columns@, groups@, total_rows, created_by.spec_bytes())),
{
    let mut schema: Vec<Vec<u8>> = Vec::new();
    let root_name: [u8; 6] = [115, 99, 104, 101, 109, 97];
    proof {
        reveal_strlit("schema");
        assert(root_name@ =~= "schema"@.map_values(|c: char| c as u8));
    }
    schema.push(schema_element(None, &root_name, Some(columns.len() as i32), 0, false));
    let ghost cols = columns@;
    let ghost per = cols.map_values(|c: ColumnSpec| encode_struct(schema_fields(Some(type_code(c.ty)), c.name.spec_bytes(), None, 0, c.ty == ColumnType::Utf8)));
    let ghost root = encode_struct(schema_fields(None, "schema"@.map_values(|c: char| c as u8), Some(cols.len() as i32), 0, false));
    let mut i: usize = 0;
    while i < columns.len()
        invariant
            i <= cols.len(),
            cols == columns@,
            per == cols.map_values(|c: ColumnSpec| encode_struct(schema_fields(Some(type_code(c.ty)), c.name.spec_bytes(), None, 0, c.ty == ColumnType::Utf8))),
            views(schema@) == seq![root] + per.take(i as int),
        decreases cols.len() - i,
    {
        let spec_i = columns[i];
        let e = schema_element(Some(spec_i.ty.type_id()), spec_i.name.as_bytes(), None, 0, spec_i.ty == ColumnType::Utf8);
        let ghost ev = e@;
        let ghost before = schema@;
        assert(ev == per[i as int]);
        schema.push(e);
        assert(per.take(i + 1) == per.take(i as int).push(per[i as int]));
        assert(views(schema@) =~= views(before).push(ev));
        assert(views(schema@) =~= seq![root] + per.take(i + 1));
        i += 1;
    }
    assert(per.take(cols.len() as int) == per);
    assert(views(schema@) == schema_structs(cols));
    let mut rgs: Vec<Vec<u8>> = Vec::new();
    let ghost gs = groups@;
    let mut j: usize = 0;
    while j < groups.len()
        invariant
            j <= gs.len(),
            gs == groups@,
            forall|k: int| 0 <= k < gs.len() ==> sizes_fit(#[trigger] gs[k].columns@),
            views(rgs@) == group_structs(gs.take(j as int)),
        decreases gs.len() - j,
    {
        let g = row_group(&groups[j]);
        let ghost gv = g@;
        let ghost before = rgs@;
        rgs.push(g);
        assert(gs.take(j + 1) == gs.take(j as int).push(gs[j as int]));
        assert(group_structs(gs.take(j + 1)) =~= group_structs(gs.take(j as int)).push(gv));
        assert(views(rgs@) =~= views(before).push(gv));
        j += 1;
    }
    assert(gs.take(gs.len() as int) == gs);
    let mut out = Compact::new();
    let ghost mut fs = Seq::<(int, TField)>::empty();
    out.field_i32(1, 1);
    proof { lemma_encode_push(fs, (1int, TField::I32(1))); fs = fs.push((1int, TField::I32(1))); }
    out.list_structs(2, schema.as_slice());
    proof { lemma_encode_push(fs, (2int, TField::ListStruct(views(schema@)))); fs = fs.push((2int, TField::ListStruct(views(schema@)))); }
    out.field_i64(3, total_rows);
    proof { lemma_encode_push(fs, (3int, TField::I64(total_rows as int))); fs = fs.push((3int, TField::I64(total_rows as int))); }
    out.list_structs(4, rgs.as_slice());
    proof { lemma_encode_push(fs, (4int, TField::ListStruct(views(rgs@)))); fs = fs.push((4int, TField::ListStruct(views(rgs@)))); }
    out.field_string(6, created_by.as_bytes());
    proof { lemma_encode_push(fs, (6int, TField::Bin(created_by.spec_bytes()))); fs = fs.push((6int, TField::Bin(created_by.spec_bytes()))); }
    assert(fs =~= file_metadata_fields(cols, gs, total_rows, created_by.spec_bytes()));
    out.stop();
    out.bytes
}


// ---------------------------------------------------------------------------
// Rows and pages
// ---------------------------------------------------------------------------

/// Why a row was refused.
#[derive(Debug, Clone, PartialEq, Eq)]
pub enum RowError {
    /// The row has `got` values but the schema declares `want` columns.
    WrongWidth { got: usize, want: usize },
    /// The named column was given a value of the wrong type.
    WrongType { column: &'static str },
}

pub open spec fn fits(t: ColumnType, v: Value) -> bool {
    match (t, v) {
        (ColumnType::Int64, Value::Int(_)) => true,
        (ColumnType::Utf8, Value::Text(_)) => true,
        _ => false,
    }
}

/// A row is accepted when it has one value per column, each of the
/// column's type; the first column that does not fit is named.
pub fn check_row(columns: &[ColumnSpec], row: &[Value]) -> (r: Result<(), RowError>)
    ensures
        r is Ok <==> row@.len() == columns@.len() && forall|i: int| 0 <= i < row@.len() ==> fits(columns@[i].ty, #[trigger] row@[i]),
        r matches Err(RowError::WrongWidth { got, want }) ==> got == row@.len() && want == columns@.len() && got != want,
        r matches Err(RowError::WrongType { column }) ==> row@.len() == columns@.len()
            && exists|i: int| 0 <= i < row@.len() && !fits(columns@[i].ty, #[trigger] row@[i]) && columns@[i].name == column
                && forall|j: int| 0 <= j < i ==> fits(columns@[j].ty, #[trigger] row@[j]),
{
    if row.len() != columns.len() {
        return Err(RowError::WrongWidth { got: row.len(), want: columns.len() });
    }
    let mut i: usize = 0;
    while i < row.len()
        invariant
            i <= row@.len() == columns@.len(),
            forall|j: int| 0 <= j < i ==> fits(columns@[j].ty, #[trigger] row@[j]),
        decreases row@.len() - i,
    {
        let ok = match (columns[i].ty, &row[i]) {
            (ColumnType::Int64, Value::Int(_)) => true,
            (ColumnType::Utf8, Value::Text(_)) => true,
            _ => false,
        };
        if !ok {
            assert(!fits(columns@[i as int].ty, row@[i as int]));
            return Err(RowError::WrongType { column: columns[i].name });
        }
        i += 1;
    }
    Ok(())
}

/// The `n` low bytes of `v`, least significant first.
pub open spec fn le_bytes(v: nat, n: nat) -> Seq<u8>
    decreases n,
{
    if n == 0 { Seq::empty() } else { seq![(v % 256) as u8] + le_bytes(v / 256, (n - 1) as nat) }
}

/// A PLAIN-encoded value: an `i64` as eight little-endian bytes; text as its
/// byte length (four little-endian bytes) then its UTF-8 bytes.
pub open spec fn cell_bytes(v: Value) -> Seq<u8> {
    match v {
        Value::Int(i) => le_bytes((i as u64) as nat, 8),
        Value::Text(s) => le_bytes((vstd::utf8::encode_utf8(s@).len() as u32) as nat, 4) + vstd::utf8::encode_utf8(s@),
    }
}

pub(crate) fn push_le(out: &mut Vec<u8>, x: u64, n: usize)
    ensures
        final(out)@ == old(out)@ + le_bytes(x as nat, n as nat),
{
    let mut v = x;
    let mut k: usize = 0;
    while k < n
        invariant
            k <= n,
            old(out)@ + le_bytes(x as nat, n as nat) == out@ + le_bytes(v as nat, (n - k) as nat),
        decreases n - k,
    {
        let b = (v & 0xff) as u8;
        assert(b == (v % 256) as u8) by (bit_vector)
            requires
                b == (v & 0xff) as u8,
        ;
        let w = v >> 8u32;
        assert(w == v / 256) by (bit_vector)
            requires
                w == v >> 8u32,
        ;
        let ghost before = out@;
        out.push(b);
        assert(before + le_bytes(v as nat, (n - k) as nat) == out@ + le_bytes(w as nat, (n - k - 1) as nat));
        v = w;
        k += 1;
    }
    assert(le_bytes(v as nat, 0) == Seq::<u8>::empty());
}

pub open spec fn column_cells(rows: Seq<Vec<Value>>, index: int) -> Seq<Seq<u8>> {
    rows.map_values(|row: Vec<Value>| cell_bytes(row@[index]))
}

/// The PLAIN page of column `index` over `rows`.
pub fn page_body(rows: &[Vec<Value>], index: usize) -> (r: Vec<u8>)
    requires
        forall|k: int| 0 <= k < rows@.len() ==> index < (#[trigger] rows@[k])@.len(),
    ensures
        r@ == flat(column_cells(rows@, index as int)),
{
    let mut body: Vec<u8> = Vec::new();
    let ghost cells = column_cells(rows@, index as int);
    let mut k: usize = 0;
    while k < rows.len()
        invariant
            k <= rows@.len(),
            cells == column_cells(rows@, index as int),
            forall|m: int| 0 <= m < rows@.len() ==> index < (#[trigger] rows@[m])@.len(),
            body@ == flat(cells.take(k as int)),
        decreases rows@.len() - k,
    {
        let ghost before = body@;
        match &rows[k][index] {
            Value::Int(v) => {
                push_le(&mut body, *v as u64, 8);
            },
            Value::Text(v) => {
                let bytes = v.as_str().as_bytes();
                push_le(&mut body, bytes.len() as u32 as u64, 4);
                let mut j: usize = 0;
                let ghost mid = body@;
                while j < bytes.len()
                    invariant
                        j <= bytes@.len(),
                        body@ == mid + bytes@.take(j as int),
                    decreases bytes@.len() - j,
                {
                    body.push(bytes[j]);
                    assert(bytes@.take(j + 1) == bytes@.take(j as int).push(bytes@[j as int]));
                    j += 1;
                }
                assert(bytes@.take(bytes@.len() as int) == bytes@);
            },
        }
        assert(body@ == before + cells[k as int]);
        assert(cells.take(k + 1).drop_last() == cells.take(k as int));
        k += 1;
    }
    assert(cells.take(rows@.len() as int) == cells);
    body
}


// ---------------------------------------------------------------------------
// Laws: what a reader gets back
// ---------------------------------------------------------------------------

/// The number a ULEB128 reader takes from the front of `b`, and how many
/// bytes it reads; `None` when the bytes end first.
pub open spec fn read_varint(b: Seq<u8>) -> Option<(nat, nat)>
    decreases b.len(),
{
    if b.len() == 0 {
        None
    } else if b[0] < 128 {
        Some((b[0] as nat, 1))
    } else {
        match read_varint(b.drop_first()) {
            Some(x) => Some((((b[0] - 128) + 128 * x.0) as nat, x.1 + 1)),
            None => None,
        }
    }
}

/// Zigzag undone.
pub open spec fn unzigzag(n: nat) -> int {
    if n % 2 == 0 { (n / 2) as int } else { -((n + 1) / 2) }
}

/// A varint is read back whole, whatever follows it.
pub proof fn varint_reads_back(v: nat, rest: Seq<u8>)
    ensures
        read_varint(varint(v) + rest) == Some((v, varint(v).len())),
    decreases v,
{
    if v < 128 {
        assert((varint(v) + rest)[0] == v as u8);
    } else {
        varint_reads_back(v / 128, rest);
        let b = varint(v) + rest;
        assert(b[0] == (v % 128 + 128) as u8);
        assert(b.drop_first() == varint(v / 128) + rest);
        assert((v % 128 + 128) - 128 + 128 * (v / 128) == v);
    }
}

/// Zigzag loses nothing: every integer comes back from its code.
pub proof fn zigzag_reads_back(v: int)
    ensures
        unzigzag(zigzag(v)) == v,
{
}

} // verus!
