//! Built-in wire-format decoders.
//!
//! A decoder turns text into a [`FieldMap`] and, where the format has an
//! envelope, hands back the inner body for the next decoder in the chain.
use vstd::prelude::*;
use crate::decode::cef::{CefDecoder, cef_outcome};
use crate::decode::csv::{CsvDecoder, csv_outcome};
use crate::decode::json::{JsonDecoder, json_outcome};
use crate::decode::keyvalue::{KeyValueDecoder, kv_outcome};
use crate::decode::leef::{LeefDecoder, leef_outcome};
use crate::decode::syslog::{Dialect, SyslogDecoder, syslog_outcome};
use crate::decode::xml::{XmlDecoder, xml_outcome};
use crate::field::{Entries, FieldMap};
use crate::generator::llm::statics;
use crate::text::{part, push_char, str_eq};

pub mod cef;
pub mod csv;
pub mod generic;
pub mod json;
pub mod keyvalue;
pub mod leef;
pub mod regex_dec;
pub mod salvage;
pub mod syslog;
pub mod xml;

verus! {

/// What a decoder produced.
#[derive(Debug, Clone, PartialEq)]
pub struct Decoded {
    /// Fields extracted from this layer.
    pub fields: FieldMap,
    /// The inner payload, for envelope formats. `None` means this decoder
    /// consumed the whole input.
    pub body: Option<String>,
}

impl Decoded {
    pub fn terminal(fields: FieldMap) -> (r: Self)
        ensures
            r.fields@ == fields@,
            r.body is None,
    {
        Decoded { fields, body: None }
    }

    pub fn with_body(fields: FieldMap, body: String) -> (r: Self)
        ensures
            r.fields@ == fields@,
            r.body matches Some(b) && b@ == body@,
    {
        Decoded { fields, body: Some(body) }
    }
}

#[derive(Debug, PartialEq, Eq)]
pub enum DecodeError {
    /// The input is empty.
    Empty,
    /// The input is not this decoder's format.
    NotThisFormat { format: &'static str, detail: String },
    /// The input is this format but broken at `offset`.
    Malformed { format: &'static str, offset: usize, detail: String },
}

/// What a decode call produced: fields and body, or the error with its
/// format, offset and detail.
pub ghost enum Outcome {
    Fields(Entries, Option<Seq<char>>),
    Empty,
    NotThisFormat(Seq<char>, Seq<char>),
    Malformed(Seq<char>, int, Seq<char>),
}

pub open spec fn outcome(r: Result<Decoded, DecodeError>) -> Outcome {
    match r {
        Ok(d) => Outcome::Fields(
            d.fields@,
            match d.body {
                Some(b) => Some(b@),
                None => None,
            },
        ),
        Err(DecodeError::Empty) => Outcome::Empty,
        Err(DecodeError::NotThisFormat { format, detail }) => Outcome::NotThisFormat(format@, detail@),
        Err(DecodeError::Malformed { format, offset, detail }) => Outcome::Malformed(format@, offset as int, detail@),
    }
}

/// The escape `\\c` denotes: newline, return and tab for `n`, `r`, `t`, and
/// the character itself otherwise.
pub open spec fn escaped(c: char) -> char {
    if c == 'n' {
        '\n'
    } else if c == 'r' {
        '\r'
    } else if c == 't' {
        '\t'
    } else {
        c
    }
}

/// `s` with backslash escapes resolved; a lone trailing backslash stays.
pub open spec fn unescape(s: Seq<char>) -> Seq<char>
    decreases s.len(),
{
    if s.len() == 0 {
        Seq::empty()
    } else if s[0] != '\\' {
        seq![s[0]] + unescape(s.drop_first())
    } else if s.len() == 1 {
        seq!['\\']
    } else {
        seq![escaped(s[1])] + unescape(s.skip(2))
    }
}

/// Whether `s` holds a backslash.
pub open spec fn has_backslash(s: Seq<char>) -> bool {
    s.contains('\\')
}

/// Appends `unescape(s[lo..hi])` to `out`.
pub fn push_unescaped(out: &mut String, s: &[char], lo: usize, hi: usize)
    requires
        lo <= hi <= s@.len(),
    ensures
        final(out)@ == old(out)@ + unescape(part(s@, lo as int, hi as int)),
{
    let mut i = lo;
    while i < hi
        invariant
            lo <= i <= hi <= s@.len(),
            old(out)@ + unescape(part(s@, lo as int, hi as int)) == out@ + unescape(part(s@, i as int, hi as int)),
        decreases hi - i,
    {
        let ghost t = part(s@, i as int, hi as int);
        let ghost before = out@;
        let c = s[i];
        assert(t[0] == c);
        if c != '\\' {
            push_char(out, c);
            assert(t.drop_first() == part(s@, i + 1, hi as int));
            assert(before + unescape(t) == out@ + unescape(part(s@, i + 1, hi as int)));
            i += 1;
        } else if i + 1 == hi {
            push_char(out, '\\');
            assert(t.len() == 1);
            assert(before + unescape(t) == out@ + unescape(part(s@, hi as int, hi as int)));
            i += 1;
        } else {
            let n = s[i + 1];
            assert(t[1] == n);
            let e = if n == 'n' { '\n' } else if n == 'r' { '\r' } else if n == 't' { '\t' } else { n };
            push_char(out, e);
            assert(t.skip(2) == part(s@, i + 2, hi as int));
            assert(before + unescape(t) == out@ + unescape(part(s@, i + 2, hi as int)));
            i += 2;
        }
    }
    assert(unescape(part(s@, hi as int, hi as int)) == Seq::<char>::empty());
}

/// Whether `s[lo..hi]` holds a backslash.
pub fn contains_backslash(s: &[char], lo: usize, hi: usize) -> (r: bool)
    requires
        lo <= hi <= s@.len(),
    ensures
        r == has_backslash(part(s@, lo as int, hi as int)),
{
    let mut i = lo;
    while i < hi
        invariant
            lo <= i <= hi <= s@.len(),
            forall|j: int| lo <= j < i ==> s@[j] != '\\',
        decreases hi - i,
    {
        if s[i] == '\\' {
            assert(part(s@, lo as int, hi as int)[i - lo] == '\\');
            return true;
        }
        i += 1;
    }
    assert forall|j: int| 0 <= j < hi - lo implies part(s@, lo as int, hi as int)[j] != '\\' by {
        assert(part(s@, lo as int, hi as int)[j] == s@[lo + j]);
    }
    false
}

// ---------------------------------------------------------------------------
// The built-in decoders by name
// ---------------------------------------------------------------------------

/// A built-in decoder, as a Source Pack's extraction plan names it.
#[derive(Debug, Clone)]
pub enum Builtin {
    Syslog(SyslogDecoder),
    KeyValue(KeyValueDecoder),
    Csv(CsvDecoder),
    Cef(CefDecoder),
    Json(JsonDecoder),
    Xml(XmlDecoder),
    Leef(LeefDecoder),
}

/// The names a pack may use for a decoder. `regex` is among them but takes
/// its patterns from the pack, so it has no zero-argument form.
pub open spec fn advertised() -> Seq<Seq<char>> {
    seq![
        "syslog"@, "syslog_rfc3164"@, "syslog_rfc5424"@, "keyvalue"@, "csv"@, "cef"@, "json"@,
        "xml"@, "leef"@, "regex"@,
    ]
}

/// The name a built-in decoder answers to.
pub open spec fn builtin_name(d: Builtin) -> Seq<char> {
    match d {
        Builtin::Syslog(s) => match s.dialect {
            Dialect::Auto => "syslog"@,
            Dialect::Rfc3164 => "syslog_rfc3164"@,
            Dialect::Rfc5424 => "syslog_rfc5424"@,
        },
        Builtin::KeyValue(_) => "keyvalue"@,
        Builtin::Csv(_) => "csv"@,
        Builtin::Cef(_) => "cef"@,
        Builtin::Json(_) => "json"@,
        Builtin::Xml(_) => "xml"@,
        Builtin::Leef(_) => "leef"@,
    }
}

/// `d` is the decoder `name` denotes, with its default settings.
pub open spec fn builtin_fits(name: Seq<char>, d: Builtin) -> bool {
    match d {
        Builtin::Syslog(s) => name == builtin_name(d),
        Builtin::KeyValue(k) => name == "keyvalue"@ && k.separator == '=' && k.delimiter == ' ' && k.unquote,
        Builtin::Csv(c) => name == "csv"@ && c.delimiter == ',' && c.headers@.len() == 0 && c.keep_positional,
        _ => name == builtin_name(d),
    }
}

/// The names `builtin` resolves: all advertised but `regex`.
pub open spec fn is_builtin_name(name: Seq<char>) -> bool {
    advertised().contains(name) && name != "regex"@
}

/// What decoding `input` with `d` gives.
pub open spec fn builtin_outcome(d: Builtin, input: Seq<char>) -> Outcome {
    match d {
        Builtin::Syslog(s) => syslog_outcome(s.dialect, input),
        Builtin::KeyValue(k) => kv_outcome(k, input),
        Builtin::Csv(c) => csv_outcome(c, input),
        Builtin::Cef(_) => cef_outcome(input),
        Builtin::Json(_) => json_outcome(input),
        Builtin::Xml(_) => xml_outcome(input),
        Builtin::Leef(_) => leef_outcome(input),
    }
}

impl Builtin {
    /// The name a pack uses for this decoder.
    pub fn name(&self) -> (r: &'static str)
        ensures
            r@ == builtin_name(*self),
    {
        match self {
            Builtin::Syslog(d) => d.name(),
            Builtin::KeyValue(d) => d.name(),
            Builtin::Csv(d) => d.name(),
            Builtin::Cef(d) => d.name(),
            Builtin::Json(d) => d.name(),
            Builtin::Xml(d) => d.name(),
            Builtin::Leef(d) => d.name(),
        }
    }

    pub fn decode(&self, input: &str) -> (r: Result<Decoded, DecodeError>)
        ensures
            outcome(r) == builtin_outcome(*self, input@),
    {
        match self {
            Builtin::Syslog(d) => d.decode(input),
            Builtin::KeyValue(d) => d.decode(input),
            Builtin::Csv(d) => d.decode(input),
            Builtin::Cef(d) => d.decode(input),
            Builtin::Json(d) => d.decode(input),
            Builtin::Xml(d) => d.decode(input),
            Builtin::Leef(d) => d.decode(input),
        }
    }
}

/// The names of every decoder a pack may use, `regex` included.
pub fn builtin_names() -> (r: Vec<&'static str>)
    ensures
        statics(r@) == advertised(),
{
    let r = vec!["syslog", "syslog_rfc3164", "syslog_rfc5424", "keyvalue", "csv", "cef", "json", "xml", "leef", "regex"];
    assert(statics(r@) =~= advertised());
    r
}

/// The built-in decoder a pack names, with its default settings; `None`
/// for an unknown name and for `regex`, which a pack builds from its
/// patterns.
pub fn builtin(name: &str) -> (r: Option<Builtin>)
    ensures
        match r {
            Some(d) => builtin_fits(name@, d),
            None => !is_builtin_name(name@),
        },
{
    if str_eq(name, "syslog") {
        Some(Builtin::Syslog(SyslogDecoder::new()))
    } else if str_eq(name, "syslog_rfc3164") {
        Some(Builtin::Syslog(SyslogDecoder::rfc3164_only()))
    } else if str_eq(name, "syslog_rfc5424") {
        Some(Builtin::Syslog(SyslogDecoder::rfc5424_only()))
    } else if str_eq(name, "keyvalue") {
        Some(Builtin::KeyValue(KeyValueDecoder::default()))
    } else if str_eq(name, "csv") {
        Some(Builtin::Csv(CsvDecoder::default()))
    } else if str_eq(name, "cef") {
        Some(Builtin::Cef(CefDecoder))
    } else if str_eq(name, "json") {
        Some(Builtin::Json(JsonDecoder))
    } else if str_eq(name, "xml") {
        Some(Builtin::Xml(XmlDecoder))
    } else if str_eq(name, "leef") {
        Some(Builtin::Leef(LeefDecoder))
    } else {
        assert(!advertised().contains(name@) || name@ == "regex"@) by {
            if advertised().contains(name@) {
                let i = choose|i: int| 0 <= i < advertised().len() && advertised()[i] == name@;
                assert(0 <= i < 10);
            }
        }
        None
    }
}

/// Every advertised name but `regex` resolves, to a decoder that answers to
/// that name.
pub proof fn advertised_decoders_resolve(name: Seq<char>, d: Builtin)
    requires
        builtin_fits(name, d),
    ensures
        builtin_name(d) == name,
        is_builtin_name(name),
{
    reveal_strlit("syslog");
    reveal_strlit("syslog_rfc3164");
    reveal_strlit("syslog_rfc5424");
    reveal_strlit("keyvalue");
    reveal_strlit("csv");
    reveal_strlit("cef");
    reveal_strlit("json");
    reveal_strlit("xml");
    reveal_strlit("leef");
    reveal_strlit("regex");
    assert(advertised()[0] == "syslog"@);
    assert(advertised()[1] == "syslog_rfc3164"@);
    assert(advertised()[2] == "syslog_rfc5424"@);
    assert(advertised()[3] == "keyvalue"@);
    assert(advertised()[4] == "csv"@);
    assert(advertised()[5] == "cef"@);
    assert(advertised()[6] == "json"@);
    assert(advertised()[7] == "xml"@);
    assert(advertised()[8] == "leef"@);
}

/// A body any built-in decoder hands to the next one in the chain is a
/// stretch of the text it was given; only syslog hands one on.
pub proof fn a_body_is_a_slice_of_the_input(d: Builtin, input: Seq<char>)
    ensures
        builtin_outcome(d, input) matches Outcome::Fields(_, Some(b))
            ==> exists|lo: int, hi: int| 0 <= lo <= hi <= input.len() && b == #[trigger] input.subrange(lo, hi),
{
    match d {
        Builtin::Syslog(s) => crate::decode::syslog::body_is_a_slice_of_the_input(s.dialect, input),
        _ => {},
    }
}

} // verus!
