//! Positional CSV body decoding, as emitted by Palo Alto PAN-OS.
//!
//! The decoder emits `col.N` for every column by index; a header list gives
//! named fields as well. A field that starts with a quote is RFC 4180 quoted:
//! `""` is a literal quote and the delimiter is ordinary text inside it.
use vstd::prelude::*;
use crate::decode::{DecodeError, Decoded, Outcome, outcome};
use crate::field::{Entries, FieldMap, Value, ValueV};
use crate::text::{
    chars_of, dec, eq_char, find, find_char, lemma_find_p, owned, part, push_char, push_dec,
    trail,
};

verus! {

/// Decodes a delimited record into positional or named columns.
#[derive(Debug, Clone)]
pub struct CsvDecoder {
    pub delimiter: char,
    /// Column names. Columns past the list fall back to `col.N`.
    pub headers: Vec<String>,
    /// Also emit `col.N` when headers are present.
    pub keep_positional: bool,
}

/// Where the closing quote of a quoted field is, scanning `s` from `i`:
/// a `"` not followed by another `"`.
pub open spec fn quote_close(s: Seq<char>, i: int) -> Option<int>
    decreases s.len() + 1 - i,
{
    if i < 0 || i >= s.len() {
        None
    } else if s[i] == '"' {
        if i + 1 < s.len() && s[i + 1] == '"' {
            quote_close(s, i + 2)
        } else {
            Some(i)
        }
    } else {
        quote_close(s, i + 1)
    }
}

pub proof fn lemma_quote_close_bound(s: Seq<char>, i: int)
    ensures
        quote_close(s, i) matches Some(k) ==> 0 <= i <= k < s.len(),
    decreases s.len() + 1 - i,
{
    if 0 <= i < s.len() {
        if s[i] == '"' {
            if i + 1 < s.len() && s[i + 1] == '"' {
                lemma_quote_close_bound(s, i + 2);
            }
        } else {
            lemma_quote_close_bound(s, i + 1);
        }
    }
}

/// `s.replace("\"\"", "\"")`.
pub open spec fn collapse_quotes(s: Seq<char>) -> Seq<char>
    decreases s.len(),
{
    if s.len() >= 2 && s[0] == '"' && s[1] == '"' {
        seq!['"'] + collapse_quotes(s.skip(2))
    } else if s.len() > 0 {
        seq![s[0]] + collapse_quotes(s.drop_first())
    } else {
        Seq::empty()
    }
}

/// The fields of one record.
pub open spec fn csv_fields(rest: Seq<char>, d: char) -> Seq<Seq<char>>
    decreases rest.len(),
{
    if rest.len() > 0 && rest[0] == '"' {
        let inner = rest.drop_first();
        match quote_close(inner, 0) {
            Some(i) => {
                proof {
                    lemma_quote_close_bound(inner, 0);
                }
                let v = collapse_quotes(inner.take(i));
                let after = inner.skip(i + 1);
                if after.len() > 0 && after[0] == d {
                    seq![v] + csv_fields(after.drop_first(), d)
                } else {
                    seq![v]
                }
            },
            None => seq![inner],
        }
    } else {
        match find(rest, d) {
            Some(i) => {
                proof {
                    lemma_find_p(rest, eq_char(d));
                }
                seq![rest.take(i)] + csv_fields(rest.skip(i + 1), d)
            },
            None => seq![rest],
        }
    }
}

pub open spec fn col_key(i: nat) -> Seq<char> {
    "col."@ + dec(i)
}

/// The entries column `i` with value `v` contributes.
pub open spec fn column_entries(h: Seq<Seq<char>>, keep: bool, i: nat, v: Seq<char>) -> Entries {
    if i < h.len() && h[i as int].len() > 0 {
        if keep {
            seq![(h[i as int], ValueV::Str(v)), (col_key(i), ValueV::Str(v))]
        } else {
            seq![(h[i as int], ValueV::Str(v))]
        }
    } else {
        seq![(col_key(i), ValueV::Str(v))]
    }
}

/// The entries of the first `n` columns.
pub open spec fn columns_entries(h: Seq<Seq<char>>, keep: bool, cols: Seq<Seq<char>>, n: nat) -> Entries
    decreases n,
{
    if n == 0 {
        Seq::empty()
    } else {
        columns_entries(h, keep, cols, (n - 1) as nat) + column_entries(h, keep, (n - 1) as nat, cols[n - 1])
    }
}

pub open spec fn cr_lf_p() -> spec_fn(char) -> bool {
    |c: char| c == '\r' || c == '\n'
}

pub open spec fn header_names(h: Seq<String>) -> Seq<Seq<char>> {
    h.map_values(|x: String| x@)
}

/// What decoding `input` yields.
pub open spec fn csv_outcome(k: CsvDecoder, input: Seq<char>) -> Outcome {
    let t = input.take(input.len() - trail(input, cr_lf_p()));
    if t.len() == 0 {
        Outcome::Empty
    } else {
        let cols = csv_fields(t, k.delimiter);
        Outcome::Fields(
            columns_entries(header_names(k.headers@), k.keep_positional, cols, cols.len())
                .push(("col.count"@, ValueV::Int(cols.len() as i64))),
            None,
        )
    }
}

/// `quote_close(s[lo..hi], 0)`, as an index into `s`.
fn scan_quoted(s: &[char], lo: usize, hi: usize) -> (r: Option<usize>)
    requires
        lo <= hi <= s@.len(),
    ensures
        match quote_close(part(s@, lo as int, hi as int), 0) {
            Some(k) => r == Some((lo + k) as usize),
            None => r is None,
        },
{
    let ghost t = part(s@, lo as int, hi as int);
    let mut i = lo;
    while i < hi
        invariant
            lo <= i,
            hi <= s@.len(),
            t == part(s@, lo as int, hi as int),
            quote_close(t, 0) == quote_close(t, i - lo),
        decreases hi - i,
    {
        assert(t[i - lo] == s@[i as int]);
        if s[i] == '"' {
            if i + 1 < hi && s[i + 1] == '"' {
                assert(t[i - lo + 1] == s@[i + 1]);
                if hi - i <= 2 {
                    assert(quote_close(t, i - lo + 2) is None);
                    return None;
                }
                i += 2;
            } else {
                return Some(i);
            }
        } else {
            i += 1;
        }
    }
    None
}

/// `collapse_quotes(s[lo..hi])`.
fn collapsed(s: &[char], lo: usize, hi: usize) -> (r: String)
    requires
        lo <= hi <= s@.len(),
    ensures
        r@ == collapse_quotes(part(s@, lo as int, hi as int)),
{
    let mut out = String::new();
    let mut i = lo;
    while i < hi
        invariant
            lo <= i <= hi <= s@.len(),
            collapse_quotes(part(s@, lo as int, hi as int)) == out@ + collapse_quotes(part(s@, i as int, hi as int)),
        decreases hi - i,
    {
        let ghost t = part(s@, i as int, hi as int);
        let ghost before = out@;
        assert(t[0] == s@[i as int]);
        if i + 1 < hi && s[i] == '"' && s[i + 1] == '"' {
            assert(t[1] == s@[i + 1]);
            push_char(&mut out, '"');
            assert(t.skip(2) == part(s@, i + 2, hi as int));
            assert(before + collapse_quotes(t) == out@ + collapse_quotes(part(s@, i + 2, hi as int)));
            i += 2;
        } else {
            if i + 1 < hi {
                assert(t[1] == s@[i + 1]);
            }
            push_char(&mut out, s[i]);
            assert(t.drop_first() == part(s@, i + 1, hi as int));
            assert(before + collapse_quotes(t) == out@ + collapse_quotes(part(s@, i + 1, hi as int)));
            i += 1;
        }
    }
    assert(collapse_quotes(part(s@, hi as int, hi as int)) == Seq::<char>::empty());
    assert(Seq::<char>::empty() + collapse_quotes(part(s@, lo as int, hi as int)) == collapse_quotes(part(s@, lo as int, hi as int)));
    out
}

/// Split one record of `s[lo..hi]`, honouring double quotes.
fn split_record(s: &[char], lo: usize, hi: usize, d: char) -> (r: Vec<String>)
    requires
        lo <= hi <= s@.len(),
    ensures
        r@.map_values(|x: String| x@) == csv_fields(part(s@, lo as int, hi as int), d),
{
    let mut out: Vec<String> = Vec::new();
    let mut p = lo;
    let ghost whole = csv_fields(part(s@, lo as int, hi as int), d);
    loop
        invariant_except_break
            whole == out@.map_values(|x: String| x@) + csv_fields(part(s@, p as int, hi as int), d),
        invariant
            lo <= p <= hi <= s@.len(),
            whole == csv_fields(part(s@, lo as int, hi as int), d),
        ensures
            whole == out@.map_values(|x: String| x@),
        decreases hi - p,
    {
        let ghost rest = part(s@, p as int, hi as int);
        let ghost before = out@;
        if p < hi && s[p] == '"' {
            assert(rest[0] == '"');
            let ghost inner = rest.drop_first();
            assert(inner == part(s@, p + 1, hi as int));
            match scan_quoted(s, p + 1, hi) {
                Some(i) => {
                    proof {
                        lemma_quote_close_bound(inner, 0);
                    }
                    assert(inner.take(i - p - 1) == part(s@, p + 1, i as int));
                    assert(inner.skip(i - p) == part(s@, i + 1, hi as int));
                    let v = collapsed(s, p + 1, i);
                    out.push(v);
                    assert(out@.map_values(|x: String| x@) == before.map_values(|x: String| x@) + seq![v@]);
                    if i + 1 < hi && s[i + 1] == d {
                        assert(part(s@, i + 1, hi as int)[0] == s@[i + 1]);
                        assert(part(s@, i + 1, hi as int).drop_first() == part(s@, i + 2, hi as int));
                        p = i + 2;
                    } else {
                        if i + 1 < hi {
                            assert(part(s@, i + 1, hi as int)[0] == s@[i + 1]);
                        }
                        break;
                    }
                },
                None => {
                    let v = crate::text::string_range(s, p + 1, hi);
                    out.push(v);
                    assert(out@.map_values(|x: String| x@) == before.map_values(|x: String| x@) + seq![v@]);
                    break;
                },
            }
        } else {
            if p < hi {
                assert(rest[0] == s@[p as int]);
            }
            match find_char(s, p, hi, d) {
                Some(i) => {
                    assert(rest.take(i - p) == part(s@, p as int, i as int));
                    assert(rest.skip(i - p + 1) == part(s@, i + 1, hi as int));
                    let v = crate::text::string_range(s, p, i);
                    out.push(v);
                    assert(out@.map_values(|x: String| x@) == before.map_values(|x: String| x@) + seq![v@]);
                    p = i + 1;
                },
                None => {
                    let v = crate::text::string_range(s, p, hi);
                    out.push(v);
                    assert(out@.map_values(|x: String| x@) == before.map_values(|x: String| x@) + seq![v@]);
                    break;
                },
            }
        }
    }
    out
}

fn col_key_string(i: usize) -> (r: String)
    ensures
        r@ == col_key(i as nat),
{
    let mut k = owned("col.");
    push_dec(&mut k, i as u64);
    k
}

impl CsvDecoder {
    /// Comma-delimited, positional columns only.
    pub fn default() -> (r: Self)
        ensures
            r.delimiter == ',' && r.headers@.len() == 0 && r.keep_positional,
    {
        CsvDecoder { delimiter: ',', headers: Vec::new(), keep_positional: true }
    }

    pub fn with_headers(headers: Vec<String>) -> (r: Self)
        ensures
            r.delimiter == ',' && r.headers == headers && r.keep_positional,
    {
        CsvDecoder { delimiter: ',', headers, keep_positional: true }
    }

    pub fn name(&self) -> (r: &'static str)
        ensures
            r@ == "csv"@,
    {
        "csv"
    }

    /// Decode one delimited record.
    pub fn decode(&self, input: &str) -> (r: Result<Decoded, DecodeError>)
        ensures
            outcome(r) == csv_outcome(*self, input@),
    {
        let cs = chars_of(input);
        let n = cs.len();
        let mut hi = n;
        assert(part(cs@, 0, n as int) == cs@);
        while hi > 0 && (cs[hi - 1] == '\r' || cs[hi - 1] == '\n')
            invariant
                hi <= n == cs@.len(),
                trail(cs@, cr_lf_p()) == (n - hi) + trail(part(cs@, 0, hi as int), cr_lf_p()),
            decreases hi,
        {
            assert(part(cs@, 0, hi as int).drop_last() == part(cs@, 0, hi - 1));
            assert(part(cs@, 0, hi as int).last() == cs@[hi - 1]);
            hi -= 1;
        }
        if hi > 0 {
            assert(part(cs@, 0, hi as int).last() == cs@[hi - 1]);
        }
        assert(cs@.take(n - trail(cs@, cr_lf_p())) == part(cs@, 0, hi as int));
        if hi == 0 {
            return Err(DecodeError::Empty);
        }
        let columns = split_record(&cs, 0, hi, self.delimiter);
        let ghost cols = columns@.map_values(|x: String| x@);
        let ghost h = header_names(self.headers@);
        let mut fields = FieldMap::new();
        let mut i: usize = 0;
        while i < columns.len()
            invariant
                i <= columns@.len(),
                cols == columns@.map_values(|x: String| x@),
                h == header_names(self.headers@),
                fields@ == columns_entries(h, self.keep_positional, cols, i as nat),
            decreases columns.len() - i,
        {
            let ghost before = fields@;
            let raw = &columns[i];
            assert(cols[i as int] == raw@);
            let mut named = false;
            if i < self.headers.len() {
                let name = &self.headers[i];
                assert(h[i as int] == name@);
                if !name.as_str().is_empty() {
                    named = true;
                    fields.push_unchecked(name.as_str(), Value::Str(crate::text::owned(raw.as_str())));
                    if self.keep_positional {
                        let k = col_key_string(i);
                        fields.push_unchecked(k.as_str(), Value::Str(crate::text::owned(raw.as_str())));
                    }
                }
            }
            if !named {
                let k = col_key_string(i);
                fields.push_unchecked(k.as_str(), Value::Str(crate::text::owned(raw.as_str())));
            }
            assert(fields@ =~= before + column_entries(h, self.keep_positional, i as nat, cols[i as int]));
            i += 1;
        }
        fields.push_unchecked("col.count", Value::Int(columns.len() as i64));
        Ok(Decoded::terminal(fields))
    }
}

// ---------------------------------------------------------------------------
// Columns are read in order
// ---------------------------------------------------------------------------

/// The fields `fs` joined by `d`.
pub open spec fn joined_by(fs: Seq<Seq<char>>, d: char) -> Seq<char>
    decreases fs.len(),
{
    if fs.len() <= 1 {
        if fs.len() == 1 { fs[0] } else { Seq::empty() }
    } else {
        fs[0] + seq![d] + joined_by(fs.drop_first(), d)
    }
}

/// A field written without quoting: no delimiter, no leading quote.
pub open spec fn unquoted(f: Seq<char>, d: char) -> bool {
    !f.contains(d) && !(f.len() > 0 && f[0] == '"')
}

proof fn lemma_fields_of_joined(fs: Seq<Seq<char>>, d: char)
    requires
        fs.len() >= 1,
        d != '"',
        forall|k: int| 0 <= k < fs.len() ==> unquoted(#[trigger] fs[k], d),
    ensures
        csv_fields(joined_by(fs, d), d) == fs,
    decreases fs.len(),
{
    let f = fs[0];
    assert(unquoted(fs[0], d));
    assert forall|j: int| 0 <= j < f.len() implies !(eq_char(d))(#[trigger] f[j]) by {
        if f[j] == d {
            assert(f.contains(d));
        }
    }
    if fs.len() == 1 {
        crate::text::lemma_find_p_none(f, eq_char(d));
        assert(seq![f] =~= fs);
    } else {
        let rest = fs.drop_first();
        assert forall|k: int| 0 <= k < rest.len() implies unquoted(#[trigger] rest[k], d) by {
            assert(rest[k] == fs[k + 1]);
        }
        lemma_fields_of_joined(rest, d);
        let tail = joined_by(rest, d);
        let t = f + seq![d] + tail;
        assert forall|j: int| 0 <= j < f.len() implies !(eq_char(d))(#[trigger] t[j]) by {
            assert(t[j] == f[j]);
        }
        crate::text::lemma_find_p_first(t, eq_char(d), f.len() as int);
        assert(t.take(f.len() as int) =~= f);
        assert(t.skip(f.len() as int + 1) =~= tail);
        if f.len() == 0 {
            assert(t[0] == d);
        } else {
            assert(t[0] == f[0]);
        }
        assert(seq![f] + rest =~= fs);
    }
}

proof fn lemma_positional(keep: bool, cols: Seq<Seq<char>>, n: nat)
    requires
        n <= cols.len(),
    ensures
        columns_entries(Seq::empty(), keep, cols, n) == Seq::new(n, |i: int| (col_key(i as nat), ValueV::Str(cols[i]))),
    decreases n,
{
    if n > 0 {
        lemma_positional(keep, cols, (n - 1) as nat);
    }
    assert(columns_entries(Seq::empty(), keep, cols, n) =~= Seq::new(n, |i: int| (col_key(i as nat), ValueV::Str(cols[i]))));
}

proof fn lemma_named(h: Seq<Seq<char>>, cols: Seq<Seq<char>>, n: nat)
    requires
        n <= cols.len(),
        n <= h.len(),
        forall|i: int| 0 <= i < h.len() ==> (#[trigger] h[i]).len() > 0,
    ensures
        columns_entries(h, false, cols, n) == Seq::new(n, |i: int| (h[i], ValueV::Str(cols[i]))),
    decreases n,
{
    if n > 0 {
        lemma_named(h, cols, (n - 1) as nat);
        assert(h[n - 1].len() > 0);
    }
    assert(columns_entries(h, false, cols, n) =~= Seq::new(n, |i: int| (h[i], ValueV::Str(cols[i]))));
}

/// A record of unquoted fields, read without headers, gives each field as
/// `col.0`, `col.1`, ... in order, then `col.count`, their number.
pub proof fn columns_are_numbered_in_order(k: CsvDecoder, fs: Seq<Seq<char>>)
    requires
        k.headers@.len() == 0,
        k.delimiter != '"',
        fs.len() >= 1,
        forall|i: int| 0 <= i < fs.len() ==> unquoted(#[trigger] fs[i], k.delimiter),
        joined_by(fs, k.delimiter).len() > 0,
        !(joined_by(fs, k.delimiter).last() == '\r' || joined_by(fs, k.delimiter).last() == '\n'),
        fs.len() <= i64::MAX,
    ensures
        csv_outcome(k, joined_by(fs, k.delimiter)) == Outcome::Fields(
            Seq::new(fs.len(), |i: int| (col_key(i as nat), ValueV::Str(fs[i]))).push(("col.count"@, ValueV::Int(fs.len() as i64))),
            None,
        ),
{
    let t = joined_by(fs, k.delimiter);
    assert(trail(t, cr_lf_p()) == 0);
    assert(t.take(t.len() as int) =~= t);
    lemma_fields_of_joined(fs, k.delimiter);
    assert(header_names(k.headers@) =~= Seq::<Seq<char>>::empty());
    lemma_positional(k.keep_positional, fs, fs.len());
}

/// With a name for every column, and positional keys not kept, each field
/// is given under its column's name, in order, then `col.count`.
pub proof fn columns_take_their_header_names(k: CsvDecoder, fs: Seq<Seq<char>>)
    requires
        !k.keep_positional,
        k.headers@.len() >= fs.len(),
        forall|i: int| 0 <= i < k.headers@.len() ==> (#[trigger] k.headers@[i])@.len() > 0,
        k.delimiter != '"',
        fs.len() >= 1,
        forall|i: int| 0 <= i < fs.len() ==> unquoted(#[trigger] fs[i], k.delimiter),
        joined_by(fs, k.delimiter).len() > 0,
        !(joined_by(fs, k.delimiter).last() == '\r' || joined_by(fs, k.delimiter).last() == '\n'),
        fs.len() <= i64::MAX,
    ensures
        csv_outcome(k, joined_by(fs, k.delimiter)) == Outcome::Fields(
            Seq::new(fs.len(), |i: int| (k.headers@[i]@, ValueV::Str(fs[i]))).push(("col.count"@, ValueV::Int(fs.len() as i64))),
            None,
        ),
{
    let t = joined_by(fs, k.delimiter);
    assert(trail(t, cr_lf_p()) == 0);
    assert(t.take(t.len() as int) =~= t);
    lemma_fields_of_joined(fs, k.delimiter);
    let h = header_names(k.headers@);
    assert forall|i: int| 0 <= i < h.len() implies (#[trigger] h[i]).len() > 0 by {
        assert(h[i] == k.headers@[i]@);
    }
    lemma_named(h, fs, fs.len());
    assert(Seq::new(fs.len(), |i: int| (h[i], ValueV::Str(fs[i]))) =~= Seq::new(fs.len(), |i: int| (k.headers@[i]@, ValueV::Str(fs[i]))));
}

} // verus!
