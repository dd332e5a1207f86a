//! A Parquet file assembled in memory, row group by row group: the leading
//! magic, one page per column for each batch of rows, and at the end the
//! footer, its length and the magic again. Where the bytes go (a file per
//! day's partition) is the caller's business.
use vstd::prelude::*;
use vstd::string::StringSliceAdditionalSpecFns;
use crate::cli::parquet::{
    check_row, column_cells, encode_struct, file_metadata, file_metadata_fields, fits, flat,
    group_structs, le_bytes, page_body, page_header, page_header_fields, push_le, row_group_fields,
    sizes_fit, sum_sizes, type_code, ColumnMeta, ColumnSpec, RowError, RowGroupMeta, Value,
};

verus! {

/// `PAR1`, at both ends of every file.
pub open spec fn magic() -> Seq<u8> {
    seq![0x50u8, 0x41u8, 0x52u8, 0x31u8]
}

/// The page of column `c` over `rows`: its header, then its PLAIN values.
pub open spec fn page_of(rows: Seq<Vec<Value>>, c: int) -> Seq<u8> {
    let body = flat(column_cells(rows, c));
    encode_struct(page_header_fields(body.len() as int, body.len() as int, rows.len() as int)) + body
}

/// The pages of the first `n` columns, one after another.
pub open spec fn pages_upto(rows: Seq<Vec<Value>>, n: int) -> Seq<u8>
    decreases n,
{
    if n <= 0 { Seq::empty() } else { pages_upto(rows, n - 1) + page_of(rows, n - 1) }
}

/// Where each column's page of a batch lies when the batch starts at byte
/// `start`.
pub open spec fn batch_metas(columns: Seq<ColumnSpec>, rows: Seq<Vec<Value>>, start: int) -> Seq<ColumnMeta> {
    Seq::new(columns.len(), |c: int| ColumnMeta {
        path: columns[c].name,
        type_id: type_code(columns[c].ty),
        offset: (start + pages_upto(rows, c).len()) as i64,
        page_size: page_of(rows, c).len() as i64,
        rows: rows.len() as i64,
    })
}

/// Every number a batch's pages and footer entries record fits its field:
/// page lengths and the row count in `i32`, offsets and running sizes in
/// `i64`, and the file's row total in `i64`.
pub open spec fn batch_fits(columns: Seq<ColumnSpec>, rows: Seq<Vec<Value>>, start: int, total: int) -> bool {
    &&& rows.len() <= i32::MAX
    &&& forall|c: int| 0 <= c < columns.len() ==> #[trigger] flat(column_cells(rows, c)).len() <= i32::MAX
    &&& start + pages_upto(rows, columns.len() as int).len() <= i64::MAX
    &&& total + rows.len() <= i64::MAX
}

/// A Parquet file under construction.
pub ghost struct ParquetFileV {
    pub columns: Seq<ColumnSpec>,
    /// The UTF-8 bytes of who wrote the file.
    pub created_by: Seq<u8>,
    pub batch_size: nat,
    /// The bytes written so far.
    pub bytes: Seq<u8>,
    /// Rows waiting for the next row group.
    pub rows: Seq<Vec<Value>>,
    /// The row groups written.
    pub groups: Seq<RowGroupMeta>,
    pub total_rows: int,
}

pub struct ParquetFile {
    columns: Vec<ColumnSpec>,
    created_by: String,
    batch_size: usize,
    bytes: Vec<u8>,
    rows: Vec<Vec<Value>>,
    groups: Vec<RowGroupMeta>,
    total_rows: i64,
}

impl View for ParquetFile {
    type V = ParquetFileV;

    closed spec fn view(&self) -> ParquetFileV {
        ParquetFileV {
            columns: self.columns@,
            created_by: vstd::utf8::encode_utf8(self.created_by@),
            batch_size: self.batch_size as nat,
            bytes: self.bytes@,
            rows: self.rows@,
            groups: self.groups@,
            total_rows: self.total_rows as int,
        }
    }
}

/// Why a file cannot take more rows.
#[derive(Debug, Clone, PartialEq, Eq)]
pub enum WriteError {
    /// The row does not fit the schema.
    Row(RowError),
    /// A page, offset or count would not fit the field that records it.
    TooLarge,
}

/// The file once finished: everything written, the footer, its length in
/// four little-endian bytes, and the magic.
pub open spec fn finished(bytes: Seq<u8>, footer: Seq<u8>) -> Seq<u8> {
    bytes + footer + le_bytes(footer.len(), 4) + magic()
}

fn magic_bytes() -> (r: Vec<u8>)
    ensures
        r@ == magic(),
{
    let mut bytes: Vec<u8> = Vec::new();
    bytes.push(0x50);
    bytes.push(0x41);
    bytes.push(0x52);
    bytes.push(0x31);
    assert(bytes@ =~= magic());
    bytes
}

/// `v` is `old` with its waiting rows written as a row group (or `old`
/// itself when none wait).
pub open spec fn flushed_to(old: ParquetFileV, v: ParquetFileV) -> bool {
    &&& v.columns == old.columns
    &&& v.created_by == old.created_by
    &&& v.rows.len() == 0
    &&& if old.rows.len() == 0 {
        &&& v.bytes == old.bytes
        &&& v.groups == old.groups
        &&& v.total_rows == old.total_rows
    } else {
        &&& v.bytes == old.bytes + pages_upto(old.rows, old.columns.len() as int)
        &&& v.groups.len() == old.groups.len() + 1
        &&& v.groups.take(old.groups.len() as int) == old.groups
        &&& v.groups.last().rows == old.rows.len()
        &&& v.groups.last().columns@ == batch_metas(old.columns, old.rows, old.bytes.len() as int)
        &&& v.total_rows == old.total_rows + old.rows.len()
    }
}

/// The footer of `v`.
pub open spec fn footer_of(v: ParquetFileV) -> Seq<u8> {
    encode_struct(file_metadata_fields(v.columns, v.groups, v.total_rows as i64, v.created_by))
}

impl ParquetFile {
    #[verifier::type_invariant]
    closed spec fn wf(self) -> bool {
        &&& self.columns@.len() <= i32::MAX
        &&& self.batch_size >= 1
        &&& forall|k: int| 0 <= k < self.rows@.len() ==> (#[trigger] self.rows@[k])@.len() == self.columns@.len()
        &&& forall|k: int| 0 <= k < self.rows@.len() ==> forall|c: int| 0 <= c < self.columns@.len() ==> fits(self.columns@[c].ty, #[trigger] (#[trigger] self.rows@[k])@[c])
        &&& forall|k: int| 0 <= k < self.groups@.len() ==> sizes_fit(#[trigger] self.groups@[k].columns@)
        &&& self.total_rows >= 0
        &&& self.rows@.len() < self.batch_size
        &&& self.bytes@.len() >= 4 && self.bytes@.take(4) == magic()
    }

    /// A new file with these columns: the magic and nothing else yet. The
    /// batch size is at least one row.
    pub fn new(columns: Vec<ColumnSpec>, created_by: &str, batch_size: usize) -> (r: Self)
        requires
            columns@.len() <= i32::MAX,
        ensures
            r@.columns == columns@,
            r@.created_by == created_by.spec_bytes(),
            r@.batch_size == if batch_size < 1 { 1 } else { batch_size },
            r@.bytes == magic(),
            r@.rows.len() == 0,
            r@.groups.len() == 0,
            r@.total_rows == 0,
    {
        let bytes = magic_bytes();
        assert(bytes@.take(4) =~= magic());
        ParquetFile {
            columns,
            created_by: crate::text::owned(created_by),
            batch_size: if batch_size < 1 { 1 } else { batch_size },
            bytes,
            rows: Vec::new(),
            groups: Vec::new(),
            total_rows: 0,
        }
    }

    /// The bytes written so far.
    pub fn bytes(&self) -> (r: &[u8])
        ensures
            r@ == self@.bytes,
    {
        self.bytes.as_slice()
    }

    /// Writes `rows` as one row group: for each column, a page header and
    /// the column's values, in column order.
    fn write_group(&mut self, rows: &Vec<Vec<Value>>) -> (r: Result<(), WriteError>)
        requires
            rows@.len() >= 1,
            forall|k: int| 0 <= k < rows@.len() ==> (#[trigger] rows@[k])@.len() == old(self)@.columns.len(),
        ensures
            r is Ok <==> batch_fits(old(self)@.columns, rows@, old(self)@.bytes.len() as int, old(self)@.total_rows),
            r is Err ==> final(self)@ == old(self)@ && r == Err::<(), WriteError>(WriteError::TooLarge),
            r is Ok ==> {
                &&& final(self)@.bytes == old(self)@.bytes + pages_upto(rows@, old(self)@.columns.len() as int)
                &&& final(self)@.groups.len() == old(self)@.groups.len() + 1
                &&& final(self)@.groups.take(old(self)@.groups.len() as int) == old(self)@.groups
                &&& final(self)@.groups.last().rows == rows@.len()
                &&& final(self)@.groups.last().columns@ == batch_metas(old(self)@.columns, rows@, old(self)@.bytes.len() as int)
                &&& final(self)@.rows == old(self)@.rows
                &&& final(self)@.total_rows == old(self)@.total_rows + rows@.len()
                &&& final(self)@.columns == old(self)@.columns
                &&& final(self)@.created_by == old(self)@.created_by
                &&& final(self)@.batch_size == old(self)@.batch_size
            },
    {
        proof {
            use_type_invariant(&*self);
        }
        let ghost s = self@;
        let ghost rs = rows@;
        let ghost cols = self.columns@;
        let n = rows.len();
        let start = self.bytes.len();
        let ncols = self.columns.len();
        let mut out: Vec<u8> = Vec::new();
        let mut metas: Vec<ColumnMeta> = Vec::new();
        let mut c: usize = 0;
        let mut ok = (n as u64) <= (i32::MAX as u64) && (start as u64) <= (i64::MAX as u64);
        proof {
            assert(metas@ =~= batch_metas(cols, rs, start as int).take(0));
        }
        while c < ncols && ok
            invariant
                c <= ncols == cols.len(),
                n == rs.len(),
                start == s.bytes.len(),
                s == self@,
                rs == rows@,
                cols == self.columns@,
                forall|k: int| 0 <= k < rs.len() ==> (#[trigger] rs[k])@.len() == cols.len(),
                ok ==> n <= i32::MAX,
                ok ==> out@ == pages_upto(rs, c as int),
                ok ==> metas@ == batch_metas(cols, rs, start as int).take(c as int),
                ok ==> forall|q: int| 0 <= q < c ==> #[trigger] flat(column_cells(rs, q)).len() <= i32::MAX,
                ok ==> start + out@.len() <= i64::MAX,
                ok ==> forall|k: int| 0 <= k <= c ==> i64::MIN <= #[trigger] sum_sizes(metas@.take(k)) <= i64::MAX,
                !ok ==> !batch_fits(cols, rs, start as int, s.total_rows),
            decreases ncols - c, if ok { 1int } else { 0int },
        {
            let body = page_body(rows, c);
            if body.len() > i32::MAX as usize {
                ok = false;
            } else {
                let b = body.len() as i32;
                let header = page_header(b, b, n as i32);
                assert(header@ + body@ == page_of(rs, c as int));
                proof {
                    lemma_pages_grow(rs, c as int + 1, cols.len() as int);
                }
                let room: u64 = (i64::MAX as u64) - (start as u64);
                let hl = header.len() as u64;
                let bl = body.len() as u64;
                let ol = out.len() as u64;
                if hl > room || bl > room - hl || ol > room - hl - bl {
                    ok = false;
                } else {
                    let size: u64 = hl + bl;
                    let offset = ((start as u64) + ol) as i64;
                    let meta = ColumnMeta {
                        path: self.columns[c].name,
                        type_id: self.columns[c].ty.type_id(),
                        offset,
                        page_size: size as i64,
                        rows: n as i64,
                    };
                    let ghost before = out@;
                    let mut k: usize = 0;
                    while k < header.len()
                        invariant
                            k <= header@.len(),
                            out@ == before + header@.take(k as int),
                        decreases header@.len() - k,
                    {
                        out.push(header[k]);
                        assert(header@.take(k + 1) == header@.take(k as int).push(header@[k as int]));
                        k += 1;
                    }
                    assert(header@.take(header@.len() as int) == header@);
                    let mut j: usize = 0;
                    while j < body.len()
                        invariant
                            j <= body@.len(),
                            out@ == before + header@ + body@.take(j as int),
                        decreases body@.len() - j,
                    {
                        out.push(body[j]);
                        assert(body@.take(j + 1) == body@.take(j as int).push(body@[j as int]));
                        j += 1;
                    }
                    assert(body@.take(body@.len() as int) == body@);
                    metas.push(meta);
                    proof {
                        assert(out@ == pages_upto(rs, c + 1));
                        let bm = batch_metas(cols, rs, start as int);
                        assert(meta == bm[c as int]);
                        assert(metas@ =~= bm.take(c + 1));
                        assert(start + out@.len() <= i64::MAX);
                        assert forall|k: int| 0 <= k <= c + 1 implies i64::MIN <= #[trigger] sum_sizes(metas@.take(k)) <= i64::MAX by {
                            assert forall|q: int| 0 <= q < k implies #[trigger] page_of(rs, q).len() <= i64::MAX by {
                                lemma_page_in_pages(rs, q, c + 1);
                            }
                            lemma_sum_sizes_pages(cols, rs, start as int, k);
                            assert(metas@.take(k) == bm.take(k));
                            lemma_pages_grow(rs, k, c + 1);
                        }
                    }
                }
            }
            c += 1;
        }
        if !ok {
            return Err(WriteError::TooLarge);
        }
        if self.total_rows > i64::MAX - (n as i64) {
            return Err(WriteError::TooLarge);
        }
        proof {
            assert(metas@ == batch_metas(cols, rs, start as int));
            assert(metas@.take(metas@.len() as int) == metas@);
            assert(sizes_fit(metas@));
        }
        let mut bytes = magic_bytes();
        assert(bytes@.take(4) =~= magic());
        std::mem::swap(&mut bytes, &mut self.bytes);
        let mut k: usize = 0;
        let ghost before = bytes@;
        assert(before == s.bytes);
        while k < out.len()
            invariant
                k <= out@.len(),
                bytes@ == before + out@.take(k as int),
            decreases out@.len() - k,
        {
            bytes.push(out[k]);
            assert(out@.take(k + 1) == out@.take(k as int).push(out@[k as int]));
            k += 1;
        }
        assert(out@.take(out@.len() as int) == out@);
        assert(bytes@.take(4) =~= before.take(4));
        self.bytes = bytes;
        let mut groups: Vec<RowGroupMeta> = Vec::new();
        std::mem::swap(&mut groups, &mut self.groups);
        groups.push(RowGroupMeta { rows: n as i64, columns: metas });
        self.groups = groups;
        self.total_rows = self.total_rows + n as i64;
        assert(self@.groups.take(s.groups.len() as int) =~= s.groups);
        Ok(())
    }

    /// Writes the waiting rows, if any, as a row group.
    pub fn flush(&mut self) -> (r: Result<(), WriteError>)
        ensures
            old(self)@.rows.len() == 0 ==> r is Ok && final(self)@ == old(self)@,
            old(self)@.rows.len() > 0 ==> (r is Ok <==> batch_fits(old(self)@.columns, old(self)@.rows, old(self)@.bytes.len() as int, old(self)@.total_rows)),
            r is Err ==> final(self)@ == old(self)@ && r == Err::<(), WriteError>(WriteError::TooLarge),
            r is Ok && old(self)@.rows.len() > 0 ==> {
                &&& final(self)@.bytes == old(self)@.bytes + pages_upto(old(self)@.rows, old(self)@.columns.len() as int)
                &&& final(self)@.groups.len() == old(self)@.groups.len() + 1
                &&& final(self)@.groups.take(old(self)@.groups.len() as int) == old(self)@.groups
                &&& final(self)@.groups.last().rows == old(self)@.rows.len()
                &&& final(self)@.groups.last().columns@ == batch_metas(old(self)@.columns, old(self)@.rows, old(self)@.bytes.len() as int)
                &&& final(self)@.rows.len() == 0
                &&& final(self)@.total_rows == old(self)@.total_rows + old(self)@.rows.len()
                &&& final(self)@.columns == old(self)@.columns
                &&& final(self)@.created_by == old(self)@.created_by
            },
    {
        proof {
            use_type_invariant(&*self);
        }
        let ghost s = self@;
        let mut rows: Vec<Vec<Value>> = Vec::new();
        std::mem::swap(&mut rows, &mut self.rows);
        if rows.len() == 0 {
            self.rows = rows;
            return Ok(());
        }
        match self.write_group(&rows) {
            Ok(()) => Ok(()),
            Err(e) => {
                self.rows = rows;
                Err(e)
            },
        }
    }

    /// The finished file: the waiting rows written as a last row group,
    /// then the footer, its length and the magic.
    pub fn finish(self) -> (r: Result<Vec<u8>, WriteError>)
        ensures
            r is Ok <==> (self@.rows.len() == 0 || batch_fits(self@.columns, self@.rows, self@.bytes.len() as int, self@.total_rows))
                && forall|v: ParquetFileV| #[trigger] flushed_to(self@, v) ==> footer_of(v).len() <= u32::MAX,
            r is Err ==> r == Err::<Vec<u8>, WriteError>(WriteError::TooLarge),
            r matches Ok(b) ==> exists|v: ParquetFileV| #[trigger] flushed_to(self@, v) && b@ == finished(v.bytes, footer_of(v)),
            r matches Ok(b) ==> b@.len() >= 8 && b@.take(4) == magic() && b@.skip(b@.len() - 4) == magic(),
    {
        proof {
            use_type_invariant(&self);
        }
        let ghost s = self@;
        let mut me = self;
        match me.flush() {
            Ok(()) => {},
            Err(e) => {
                return Err(e);
            },
        }
        proof {
            use_type_invariant(&me);
            if s.rows.len() > 0 {
                assert(me@.groups =~= s.groups.push(me@.groups.last()));
            }
            assert(flushed_to(s, me@));
            assert forall|v: ParquetFileV| #[trigger] flushed_to(s, v) implies footer_of(v) == footer_of(me@) by {
                if s.rows.len() > 0 {
                    let g = v.groups.last();
                    let h = me@.groups.last();
                    assert(group_structs(v.groups) =~= group_structs(me@.groups)) by {
                        assert forall|i: int| 0 <= i < v.groups.len() implies
                            #[trigger] group_structs(v.groups)[i] == group_structs(me@.groups)[i] by {
                            if i < s.groups.len() {
                                assert(v.groups[i] == s.groups[i]);
                                assert(me@.groups[i] == s.groups[i]);
                            } else {
                                assert(v.groups[i] == g && me@.groups[i] == h);
                                assert(row_group_fields(g) == row_group_fields(h));
                            }
                        }
                    }
                }
            }
        }
        let footer = file_metadata(&me.columns, &me.groups, me.total_rows, me.created_by.as_str());
        if footer.len() as u64 > u32::MAX as u64 {
            return Err(WriteError::TooLarge);
        }
        let mut bytes = magic_bytes();
        assert(bytes@.take(4) =~= magic());
        std::mem::swap(&mut bytes, &mut me.bytes);
        let ghost base = bytes@;
        let mut k: usize = 0;
        while k < footer.len()
            invariant
                k <= footer@.len(),
                bytes@ == base + footer@.take(k as int),
            decreases footer@.len() - k,
        {
            bytes.push(footer[k]);
            assert(footer@.take(k + 1) == footer@.take(k as int).push(footer@[k as int]));
            k += 1;
        }
        assert(footer@.take(footer@.len() as int) == footer@);
        push_le(&mut bytes, footer.len() as u64, 4);
        bytes.push(0x50);
        bytes.push(0x41);
        bytes.push(0x52);
        bytes.push(0x31);
        assert(bytes@ =~= finished(base, footer@));
        assert(bytes@.take(4) =~= base.take(4));
        assert(bytes@.skip(bytes@.len() - 4) =~= magic());
        Ok(bytes)
    }

    /// Adds one row. The row must have one value per column, each of its
    /// column's type; a full batch is written out as a row group.
    pub fn push(&mut self, row: Vec<Value>) -> (r: Result<(), WriteError>)
        ensures
            match r {
                Err(WriteError::Row(e)) => final(self)@ == old(self)@ && (row@.len() != old(self)@.columns.len()
                    || exists|c: int| 0 <= c < row@.len() && !fits(old(self)@.columns[c].ty, #[trigger] row@[c])),
                Err(WriteError::TooLarge) => final(self)@ == old(self)@
                    && row@.len() == old(self)@.columns.len()
                    && forall|c: int| 0 <= c < row@.len() ==> fits(old(self)@.columns[c].ty, #[trigger] row@[c]),
                Ok(()) => {
                    let rows = old(self)@.rows.push(row);
                    &&& row@.len() == old(self)@.columns.len()
                    &&& forall|c: int| 0 <= c < row@.len() ==> fits(old(self)@.columns[c].ty, #[trigger] row@[c])
                    &&& final(self)@.columns == old(self)@.columns
                    &&& if rows.len() < old(self)@.batch_size {
                        &&& final(self)@.rows == rows
                        &&& final(self)@.bytes == old(self)@.bytes
                        &&& final(self)@.groups == old(self)@.groups
                        &&& final(self)@.total_rows == old(self)@.total_rows
                    } else {
                        &&& final(self)@.rows.len() == 0
                        &&& final(self)@.bytes == old(self)@.bytes + pages_upto(rows, old(self)@.columns.len() as int)
                        &&& final(self)@.groups.len() == old(self)@.groups.len() + 1
                        &&& final(self)@.groups.last().columns@ == batch_metas(old(self)@.columns, rows, old(self)@.bytes.len() as int)
                        &&& final(self)@.total_rows == old(self)@.total_rows + rows.len()
                    }
                },
            },
    {
        proof {
            use_type_invariant(&*self);
        }
        match check_row(&self.columns, &row) {
            Err(e) => {
                return Err(WriteError::Row(e));
            },
            Ok(()) => {},
        }
        let ghost s = self@;
        let mut rows: Vec<Vec<Value>> = Vec::new();
        std::mem::swap(&mut rows, &mut self.rows);
        rows.push(row);
        if rows.len() < self.batch_size {
            self.rows = rows;
            return Ok(());
        }
        match self.write_group(&rows) {
            Ok(()) => Ok(()),
            Err(e) => {
                rows.pop();
                self.rows = rows;
                assert(self@.rows =~= s.rows);
                Err(e)
            },
        }
    }
}

/// The pages written for the first `k` columns are the sum of their page
/// sizes.
proof fn lemma_sum_sizes_pages(cols: Seq<ColumnSpec>, rows: Seq<Vec<Value>>, start: int, k: int)
    requires
        0 <= k <= cols.len(),
        forall|c: int| 0 <= c < k ==> #[trigger] page_of(rows, c).len() <= i64::MAX,
    ensures
        sum_sizes(batch_metas(cols, rows, start).take(k)) == pages_upto(rows, k).len(),
    decreases k,
{
    if k > 0 {
        let bm = batch_metas(cols, rows, start);
        assert(bm.take(k).drop_last() == bm.take(k - 1));
        lemma_sum_sizes_pages(cols, rows, start, k - 1);
    }
}

/// Each page lies within the pages written up to a later column.
proof fn lemma_page_in_pages(rows: Seq<Vec<Value>>, c: int, k: int)
    requires
        0 <= c < k,
    ensures
        page_of(rows, c).len() <= pages_upto(rows, k).len(),
{
    lemma_pages_grow(rows, c + 1, k);
}

/// The pages only grow as columns are added.
proof fn lemma_pages_grow(rows: Seq<Vec<Value>>, a: int, b: int)
    requires
        0 <= a <= b,
    ensures
        pages_upto(rows, a).len() <= pages_upto(rows, b).len(),
    decreases b - a,
{
    if a < b {
        lemma_pages_grow(rows, a, b - 1);
    }
}

} // verus!
