//! ArcSight Common Event Format.
//!
//! `CEF:Version|Vendor|Product|Version|SignatureID|Name|Severity|Extension`
//!
//! In the header, `\|` is a literal pipe. In the extension, `\=` is a literal
//! equals and pipes are ordinary characters; a value runs to the next
//! unescaped ` key=`.
use vstd::prelude::*;
use crate::decode::{
    DecodeError, Decoded, Outcome, contains_backslash, has_backslash, outcome, push_unescaped,
    unescape,
};
use crate::decode::csv::cr_lf_p;
use crate::field::{Entries, FieldMap, Value, ValueV, insert_entry};
use crate::text::{
    back_ws, byte_len, chars_of, chars_sized, find_seq, find_str, lemma_find_seq, lemma_lead_bound,
    lemma_utf8_len_sub, owned, part, push_char, skip_ws, string_range, trail, trim, trim_end,
    trim_range, trim_start, utf8_len, ws_p,
};

verus! {

/// Decodes a CEF record into header and extension fields.
#[derive(Debug, Clone, Copy)]
pub struct CefDecoder;

/// Where the `|` ending the header field scanned from `i` is, and whether a
/// backslash escape was seen on the way.
pub open spec fn header_end(s: Seq<char>, i: int, esc: bool) -> Option<(int, bool)>
    decreases s.len() + 1 - i,
{
    if i < 0 || i >= s.len() {
        None
    } else if s[i] == '\\' {
        header_end(s, i + 2, true)
    } else if s[i] == '|' {
        Some((i, esc))
    } else {
        header_end(s, i + 1, esc)
    }
}

pub proof fn lemma_header_end_bound(s: Seq<char>, i: int, esc: bool)
    ensures
        header_end(s, i, esc) matches Some((k, _)) ==> 0 <= i <= k < s.len(),
    decreases s.len() + 1 - i,
{
    if 0 <= i < s.len() {
        if s[i] == '\\' {
            lemma_header_end_bound(s, i + 2, true);
        } else if s[i] != '|' {
            lemma_header_end_bound(s, i + 1, esc);
        }
    }
}

/// Header unescaping: a backslash makes the next character literal.
pub open spec fn unescape_header(s: Seq<char>) -> Seq<char>
    decreases s.len(),
{
    if s.len() == 0 {
        Seq::empty()
    } else if s[0] != '\\' {
        seq![s[0]] + unescape_header(s.drop_first())
    } else if s.len() == 1 {
        seq!['\\']
    } else {
        seq![s[1]] + unescape_header(s.skip(2))
    }
}

/// One `|`-delimited header field and the text after its pipe.
pub open spec fn header_field(s: Seq<char>) -> Option<(Seq<char>, Seq<char>)> {
    match header_end(s, 0, false) {
        None => None,
        Some((i, esc)) => Some((if esc { unescape_header(s.take(i)) } else { s.take(i) }, s.skip(i + 1))),
    }
}

/// The first `n` header fields of `s`, and the text after them.
pub open spec fn header_fields(s: Seq<char>, n: nat) -> Option<(Seq<Seq<char>>, Seq<char>)>
    decreases n,
{
    if n == 0 {
        Some((Seq::empty(), s))
    } else {
        match header_fields(s, (n - 1) as nat) {
            None => None,
            Some((vs, rest)) => match header_field(rest) {
                None => None,
                Some((v, r)) => Some((vs.push(v), r)),
            },
        }
    }
}

pub open spec fn header_keys() -> Seq<Seq<char>> {
    seq![
        "cef.version"@, "cef.device_vendor"@, "cef.device_product"@, "cef.device_version"@,
        "cef.signature_id"@, "cef.name"@, "cef.severity"@,
    ]
}

/// Index of the first `c` not escaped by a backslash, from `i`.
pub open spec fn unescaped_find(s: Seq<char>, i: int, c: char) -> Option<int>
    decreases s.len() + 1 - i,
{
    if i < 0 || i >= s.len() {
        None
    } else if s[i] == '\\' {
        unescaped_find(s, i + 2, c)
    } else if s[i] == c {
        Some(i)
    } else {
        unescaped_find(s, i + 1, c)
    }
}

pub proof fn lemma_unescaped_find_bound(s: Seq<char>, i: int, c: char)
    ensures
        unescaped_find(s, i, c) matches Some(k) ==> 0 <= i <= k < s.len(),
    decreases s.len() + 1 - i,
{
    if 0 <= i < s.len() {
        if s[i] == '\\' {
            lemma_unescaped_find_bound(s, i + 2, c);
        } else if s[i] != c {
            lemma_unescaped_find_bound(s, i + 1, c);
        }
    }
}

/// Whether the token starting at `j` is a key: it holds an unescaped `=`
/// after at least one character, before any space.
pub open spec fn key_ahead(s: Seq<char>, j: int, saw: bool) -> bool
    decreases s.len() + 1 - j,
{
    if j < 0 || j >= s.len() {
        false
    } else if s[j] == '\\' {
        key_ahead(s, j + 2, true)
    } else if s[j] == '=' && saw {
        true
    } else if s[j] == ' ' {
        false
    } else {
        key_ahead(s, j + 1, true)
    }
}

/// The space before the next `key=` from `i`.
pub open spec fn next_key(s: Seq<char>, i: int) -> Option<int>
    decreases s.len() + 1 - i,
{
    if i < 0 || i >= s.len() {
        None
    } else if s[i] == '\\' {
        next_key(s, i + 2)
    } else if s[i] == ' ' && key_ahead(s, i + 1, false) {
        Some(i)
    } else {
        next_key(s, i + 1)
    }
}

pub proof fn lemma_next_key_bound(s: Seq<char>, i: int)
    ensures
        next_key(s, i) matches Some(k) ==> 0 <= i <= k < s.len(),
    decreases s.len() + 1 - i,
{
    if 0 <= i < s.len() {
        if s[i] == '\\' {
            lemma_next_key_bound(s, i + 2);
        } else if !(s[i] == ' ' && key_ahead(s, i + 1, false)) {
            lemma_next_key_bound(s, i + 1);
        }
    }
}

/// The `key=value` pairs of the extension `rest`.
pub open spec fn extension(rest: Seq<char>, e: Entries) -> Entries
    decreases rest.len(),
{
    match unescaped_find(rest, 0, '=') {
        None => e,
        Some(eq) => {
            proof {
                lemma_unescaped_find_bound(rest, 0, '=');
            }
            let key = trim(rest.take(eq));
            let after = rest.skip(eq + 1);
            let end = match next_key(after, 0) {
                Some(k) => k,
                None => after.len() as int,
            };
            let raw = trim_end(after.take(end));
            let e2 = if key.len() > 0 && !key.contains(' ') {
                insert_entry(e, key, ValueV::Str(if has_backslash(raw) { unescape(raw) } else { raw }))
            } else {
                e
            };
            if end >= after.len() {
                e2
            } else {
                proof {
                    lemma_next_key_bound(after, 0);
                    lemma_lead_bound(after.skip(end), ws_p());
                }
                extension(trim_start(after.skip(end)), e2)
            }
        },
    }
}

/// What decoding `input` yields.
pub open spec fn cef_outcome(input: Seq<char>) -> Outcome {
    let t = input.take(input.len() - trail(input, cr_lf_p()));
    match find_seq(t, "CEF:"@) {
        None => Outcome::NotThisFormat("cef"@, "no `CEF:` marker"@),
        Some(start) => match header_fields(t.skip(start + 4), 7) {
            None => Outcome::Malformed("cef"@, utf8_len(t.take(start)) as int, "truncated header"@),
            Some((vs, rest)) => Outcome::Fields(
                extension(
                    trim_start(rest),
                    Seq::new(7, |k: int| (header_keys()[k], ValueV::Str(vs[k]))),
                ),
                None,
            ),
        },
    }
}

/// `header_field(s[lo..hi])`: the value and where the rest starts.
fn take_header_field(s: &[char], lo: usize, hi: usize) -> (r: Option<(String, usize)>)
    requires
        lo <= hi <= s@.len(),
    ensures
        match header_field(part(s@, lo as int, hi as int)) {
            Some((v, rest)) => r matches Some((x, k)) && x@ == v && lo <= k <= hi && part(s@, k as int, hi as int) == rest,
            None => r is None,
        },
{
    let ghost t = part(s@, lo as int, hi as int);
    let mut i = lo;
    let mut escaped = false;
    while i < hi
        invariant
            lo <= i,
            hi <= s@.len(),
            t == part(s@, lo as int, hi as int),
            header_end(t, 0, false) == header_end(t, i - lo, escaped),
        decreases hi - i,
    {
        assert(t[i - lo] == s@[i as int]);
        if s[i] == '\\' {
            escaped = true;
            if hi - i <= 2 {
                assert(header_end(t, i - lo + 2, true) is None);
                return None;
            }
            i += 2;
        } else if s[i] == '|' {
            assert(t.take(i - lo) == part(s@, lo as int, i as int));
            assert(t.skip(i - lo + 1) == part(s@, i + 1, hi as int));
            let v = if escaped { header_unescaped(s, lo, i) } else { string_range(s, lo, i) };
            return Some((v, i + 1));
        } else {
            i += 1;
        }
    }
    None
}

/// `unescape_header(s[lo..hi])`.
fn header_unescaped(s: &[char], lo: usize, hi: usize) -> (r: String)
    requires
        lo <= hi <= s@.len(),
    ensures
        r@ == unescape_header(part(s@, lo as int, hi as int)),
{
    let mut out = String::new();
    let mut i = lo;
    while i < hi
        invariant
            lo <= i <= hi <= s@.len(),
            unescape_header(part(s@, lo as int, hi as int)) == out@ + unescape_header(part(s@, i as int, hi as int)),
        decreases hi - i,
    {
        let ghost t = part(s@, i as int, hi as int);
        let ghost before = out@;
        assert(t[0] == s@[i as int]);
        if s[i] != '\\' {
            push_char(&mut out, s[i]);
            assert(t.drop_first() == part(s@, i + 1, hi as int));
            assert(before + unescape_header(t) == out@ + unescape_header(part(s@, i + 1, hi as int)));
            i += 1;
        } else if i + 1 == hi {
            push_char(&mut out, '\\');
            assert(before + unescape_header(t) == out@ + unescape_header(part(s@, hi as int, hi as int)));
            i += 1;
        } else {
            assert(t[1] == s@[i + 1]);
            push_char(&mut out, s[i + 1]);
            assert(t.skip(2) == part(s@, i + 2, hi as int));
            assert(before + unescape_header(t) == out@ + unescape_header(part(s@, i + 2, hi as int)));
            i += 2;
        }
    }
    assert(unescape_header(part(s@, hi as int, hi as int)) == Seq::<char>::empty());
    assert(Seq::<char>::empty() + unescape_header(part(s@, lo as int, hi as int)) == unescape_header(part(s@, lo as int, hi as int)));
    out
}

/// `unescaped_find(s[lo..hi], 0, c)`, as an index into `s`.
fn find_unescaped(s: &[char], lo: usize, hi: usize, c: char) -> (r: Option<usize>)
    requires
        lo <= hi <= s@.len(),
    ensures
        match unescaped_find(part(s@, lo as int, hi as int), 0, c) {
            Some(k) => r == Some((lo + k) as usize),
            None => r is None,
        },
{
    let ghost t = part(s@, lo as int, hi as int);
    let mut i = lo;
    while i < hi
        invariant
            lo <= i,
            hi <= s@.len(),
            t == part(s@, lo as int, hi as int),
            unescaped_find(t, 0, c) == unescaped_find(t, i - lo, c),
        decreases hi - i,
    {
        assert(t[i - lo] == s@[i as int]);
        if s[i] == '\\' {
            if hi - i <= 2 {
                assert(unescaped_find(t, i - lo + 2, c) is None);
                return None;
            }
            i += 2;
        } else if s[i] == c {
            return Some(i);
        } else {
            i += 1;
        }
    }
    None
}

/// `key_ahead(s[lo..hi], j - lo, false)`.
fn key_ahead_at(s: &[char], lo: usize, hi: usize, j0: usize) -> (r: bool)
    requires
        lo <= j0 <= hi <= s@.len(),
    ensures
        r == key_ahead(part(s@, lo as int, hi as int), j0 - lo, false),
{
    let ghost t = part(s@, lo as int, hi as int);
    let mut j = j0;
    let mut saw = false;
    while j < hi
        invariant
            lo <= j0 <= j,
            hi <= s@.len(),
            t == part(s@, lo as int, hi as int),
            key_ahead(t, j0 - lo, false) == key_ahead(t, j - lo, saw),
        decreases hi - j,
    {
        assert(t[j - lo] == s@[j as int]);
        if s[j] == '\\' {
            saw = true;
            if hi - j <= 2 {
                assert(key_ahead(t, j - lo + 2, true) == false);
                return false;
            }
            j += 2;
        } else if s[j] == '=' && saw {
            return true;
        } else if s[j] == ' ' {
            return false;
        } else {
            saw = true;
            j += 1;
        }
    }
    false
}

/// `next_key(s[lo..hi], 0)`, as an index into `s`.
fn next_key_start(s: &[char], lo: usize, hi: usize) -> (r: Option<usize>)
    requires
        lo <= hi <= s@.len(),
    ensures
        match next_key(part(s@, lo as int, hi as int), 0) {
            Some(k) => r == Some((lo + k) as usize),
            None => r is None,
        },
{
    let ghost t = part(s@, lo as int, hi as int);
    let mut i = lo;
    while i < hi
        invariant
            lo <= i,
            hi <= s@.len(),
            t == part(s@, lo as int, hi as int),
            next_key(t, 0) == next_key(t, i - lo),
        decreases hi - i,
    {
        assert(t[i - lo] == s@[i as int]);
        if s[i] == '\\' {
            if hi - i <= 2 {
                assert(next_key(t, i - lo + 2) is None);
                return None;
            }
            i += 2;
        } else if s[i] == ' ' && key_ahead_at(s, lo, hi, i + 1) {
            return Some(i);
        } else {
            i += 1;
        }
    }
    None
}

fn contains_space(s: &[char], lo: usize, hi: usize) -> (r: bool)
    requires
        lo <= hi <= s@.len(),
    ensures
        r == part(s@, lo as int, hi as int).contains(' '),
{
    match crate::text::find_char(s, lo, hi, ' ') {
        Some(i) => {
            proof {
                crate::text::lemma_find_p(part(s@, lo as int, hi as int), crate::text::eq_char(' '));
            }
            assert(part(s@, lo as int, hi as int)[i - lo] == ' ');
            true
        },
        None => {
            proof {
                crate::text::lemma_find_p(part(s@, lo as int, hi as int), crate::text::eq_char(' '));
            }
            false
        },
    }
}

/// The extension pairs of `s[lo..hi]`.
#[verifier::rlimit(40)]
fn parse_extension(s: &[char], lo: usize, hi: usize, fields: &mut FieldMap)
    requires
        lo <= hi <= s@.len(),
    ensures
        final(fields)@ == extension(part(s@, lo as int, hi as int), old(fields)@),
{
    let mut p = lo;
    loop
        invariant_except_break
            extension(part(s@, lo as int, hi as int), old(fields)@) == extension(part(s@, p as int, hi as int), fields@),
        invariant
            lo <= p <= hi <= s@.len(),
        ensures
            final(fields)@ == extension(part(s@, lo as int, hi as int), old(fields)@),
        decreases hi - p,
    {
        let ghost rest = part(s@, p as int, hi as int);
        let ghost e0 = fields@;
        let eq = match find_unescaped(s, p, hi, '=') {
            Some(e) => e,
            None => {
                break;
            },
        };
        proof {
            lemma_unescaped_find_bound(rest, 0, '=');
        }
        let (ka, kb) = trim_range(s, p, eq);
        assert(rest.take(eq - p) == part(s@, p as int, eq as int));
        let ghost after = rest.skip(eq - p + 1);
        assert(after == part(s@, eq + 1, hi as int));
        let end = match next_key_start(s, eq + 1, hi) {
            Some(k) => k,
            None => hi,
        };
        proof {
            lemma_next_key_bound(after, 0);
        }
        let rb = back_ws(s, eq + 1, end);
        assert(after.take(end - eq - 1) == part(s@, eq + 1, end as int));
        assert(part(s@, eq + 1, rb as int) == trim_end(part(s@, eq + 1, end as int)));
        if ka < kb && !contains_space(s, ka, kb) {
            let v = if contains_backslash(s, eq + 1, rb) {
                let mut out = String::new();
                push_unescaped(&mut out, s, eq + 1, rb);
                assert(out@ == unescape(part(s@, eq + 1, rb as int)));
                Value::Str(out)
            } else {
                Value::Str(string_range(s, eq + 1, rb))
            };
            let key = string_range(s, ka, kb);
            fields.insert(key.as_str(), v);
        }
        if end >= hi {
            break;
        }
        let next = skip_ws(s, end, hi);
        assert(after.skip(end - eq - 1) == part(s@, end as int, hi as int));
        assert(part(s@, next as int, hi as int) == part(s@, end as int, hi as int).skip(next - end));
        p = next;
    }
}

impl CefDecoder {
    pub fn name(&self) -> (r: &'static str)
        ensures
            r@ == "cef"@,
    {
        "cef"
    }

    /// Decode one CEF record.
    pub fn decode(&self, input: &str) -> (r: Result<Decoded, DecodeError>)
        ensures
            outcome(r) == cef_outcome(input@),
    {
        let cs = chars_sized(input);
        let n = cs.len();
        let mut hi = n;
        assert(part(cs@, 0, n as int) == cs@);
        while hi > 0 && (cs[hi - 1] == '\r' || cs[hi - 1] == '\n')
            invariant
                hi <= n == cs@.len(),
                trail(cs@, cr_lf_p()) == (n - hi) + trail(part(cs@, 0, hi as int), cr_lf_p()),
            decreases hi,
        {
            assert(part(cs@, 0, hi as int).drop_last() == part(cs@, 0, hi - 1));
            assert(part(cs@, 0, hi as int).last() == cs@[hi - 1]);
            hi -= 1;
        }
        if hi > 0 {
            assert(part(cs@, 0, hi as int).last() == cs@[hi - 1]);
        }
        let ghost t = part(cs@, 0, hi as int);
        assert(cs@.take(n - trail(cs@, cr_lf_p())) == t);
        let marker = chars_of("CEF:");
        let start = match find_str(&cs, 0, hi, &marker) {
            Some(i) => i,
            None => {
                return Err(DecodeError::NotThisFormat { format: "cef", detail: owned("no `CEF:` marker") });
            },
        };
        proof {
            reveal_strlit("CEF:");
            lemma_find_seq(t, "CEF:"@);
        }
        assert(t.skip(start + 4) == part(cs@, start + 4, hi as int));
        let ghost hdr = t.skip(start + 4);
        let keys: [&str; 7] = [
            "cef.version", "cef.device_vendor", "cef.device_product", "cef.device_version",
            "cef.signature_id", "cef.name", "cef.severity",
        ];
        let mut fields = FieldMap::with_capacity(24);
        let mut p = start + 4;
        let mut k: usize = 0;
        while k < 7
            invariant
                start + 4 <= p <= hi <= cs@.len(),
                k <= 7,
                utf8_len(cs@) <= usize::MAX,
                cs@ == input@,
                t == input@.take(input@.len() - trail(input@, cr_lf_p())),
                find_seq(t, "CEF:"@) == Some(start as int),
                hdr == part(cs@, start + 4, hi as int),
                t == part(cs@, 0, hi as int),
                keys@ == seq!["cef.version", "cef.device_vendor", "cef.device_product", "cef.device_version",
                    "cef.signature_id", "cef.name", "cef.severity"],
                header_fields(hdr, k as nat) matches Some((vs, rest)) && rest == part(cs@, p as int, hi as int)
                    && vs.len() == k && fields@ == Seq::new(k as nat, |j: int| (header_keys()[j], ValueV::Str(vs[j]))),
            decreases 7 - k,
        {
            let ghost vs = header_fields(hdr, k as nat)->Some_0.0;
            match take_header_field(&cs, p, hi) {
                Some((v, next)) => {
                    let ghost before = fields@;
                    let ghost vv = v@;
                    fields.push_unchecked(keys[k], Value::Str(v));
                    proof {
                        reveal_strlit("cef.version");
                        reveal_strlit("cef.device_vendor");
                        reveal_strlit("cef.device_product");
                        reveal_strlit("cef.device_version");
                        reveal_strlit("cef.signature_id");
                        reveal_strlit("cef.name");
                        reveal_strlit("cef.severity");
                    }
                    assert(keys[k as int]@ == header_keys()[k as int]);
                    assert(header_fields(hdr, (k + 1) as nat) == Some((vs.push(vv), part(cs@, next as int, hi as int))));
                    assert forall|j: int| 0 <= j < k + 1 implies fields@[j] == (header_keys()[j], ValueV::Str(#[trigger] vs.push(vv)[j])) by {
                        if j < k {
                            assert(fields@[j] == before[j]);
                        }
                    }
                    assert(fields@ =~= Seq::new((k + 1) as nat, |j: int| (header_keys()[j], ValueV::Str(vs.push(vv)[j]))));
                    p = next;
                    k += 1;
                },
                None => {
                    proof {
                        lemma_header_fields_stuck(hdr, k as nat, 7);
                        lemma_utf8_len_sub(cs@, 0, start as int);
                    }
                    assert(t.take(start as int) == part(cs@, 0, start as int));
                    let off = byte_len(&cs, 0, start);
                    assert(t.skip(start + 4) =~= hdr);
                    assert(header_fields(t.skip(start + 4), 7) is None);
                    assert(off == utf8_len(t.take(start as int)));
                    return Err(DecodeError::Malformed { format: "cef", offset: off, detail: owned("truncated header") });
                },
            }
        }
        let e = skip_ws(&cs, p, hi);
        assert(part(cs@, e as int, hi as int) == trim_start(part(cs@, p as int, hi as int)));
        parse_extension(&cs, e, hi, &mut fields);
        Ok(Decoded::terminal(fields))
    }
}

proof fn lemma_header_fields_stuck(s: Seq<char>, k: nat, m: nat)
    requires
        k < m,
        header_fields(s, k) matches Some((_, rest)) && header_field(rest) is None,
    ensures
        header_fields(s, m) is None,
    decreases m,
{
    if m > k + 1 {
        lemma_header_fields_stuck(s, k, (m - 1) as nat);
    }
}

// ---------------------------------------------------------------------------
// The header, field by field
// ---------------------------------------------------------------------------

/// The fields `fs`, each followed by a `|`, then `tail`.
pub open spec fn piped(fs: Seq<Seq<char>>, tail: Seq<char>) -> Seq<char>
    decreases fs.len(),
{
    if fs.len() == 0 {
        tail
    } else {
        fs[0] + seq!['|'] + piped(fs.drop_first(), tail)
    }
}

/// A header field written without `|` or backslash.
pub open spec fn plain_field(f: Seq<char>) -> bool {
    !f.contains('|') && !f.contains('\\')
}

proof fn lemma_header_end_plain(f: Seq<char>, y: Seq<char>, i: int)
    requires
        plain_field(f),
        0 <= i <= f.len(),
    ensures
        header_end(f + seq!['|'] + y, i, false) == Some((f.len() as int, false)),
    decreases f.len() - i,
{
    let s = f + seq!['|'] + y;
    if i < f.len() {
        assert(s[i] == f[i]);
        if f[i] == '\\' {
            assert(f.contains('\\'));
        }
        if f[i] == '|' {
            assert(f.contains('|'));
        }
        lemma_header_end_plain(f, y, i + 1);
    }
}

proof fn lemma_header_fields_plain(fs: Seq<Seq<char>>, tail: Seq<char>, n: nat)
    requires
        n <= fs.len(),
        forall|k: int| 0 <= k < fs.len() ==> plain_field(#[trigger] fs[k]),
    ensures
        header_fields(piped(fs, tail), n) == Some((fs.take(n as int), piped(fs.skip(n as int), tail))),
    decreases n,
{
    if n == 0 {
        assert(fs.take(0) =~= Seq::<Seq<char>>::empty());
        assert(fs.skip(0) =~= fs);
    } else {
        let m = (n - 1) as nat;
        lemma_header_fields_plain(fs, tail, m);
        let rest = fs.skip(m as int);
        let f = rest[0];
        let y = piped(rest.drop_first(), tail);
        assert(piped(rest, tail) == f + seq!['|'] + y);
        assert(f == fs[m as int]);
        lemma_header_end_plain(f, y, 0);
        let s = f + seq!['|'] + y;
        assert(s.take(f.len() as int) =~= f);
        assert(s.skip(f.len() as int + 1) =~= y);
        assert(rest.drop_first() =~= fs.skip(n as int));
        assert(fs.take(m as int).push(f) =~= fs.take(n as int));
    }
}

/// The header entries of a record whose seven header fields are `fs`.
pub open spec fn cef_header_entries(fs: Seq<Seq<char>>) -> Entries {
    seq![
        ("cef.version"@, ValueV::Str(fs[0])),
        ("cef.device_vendor"@, ValueV::Str(fs[1])),
        ("cef.device_product"@, ValueV::Str(fs[2])),
        ("cef.device_version"@, ValueV::Str(fs[3])),
        ("cef.signature_id"@, ValueV::Str(fs[4])),
        ("cef.name"@, ValueV::Str(fs[5])),
        ("cef.severity"@, ValueV::Str(fs[6])),
    ]
}

/// A record `CEF:version|vendor|product|device version|signature id|name|
/// severity|extension` gives those seven header fields, in that order and
/// each under its own key, then the `key=value` pairs of the extension.
pub proof fn cef_header_fields_are_read_in_order(fs: Seq<Seq<char>>, ext: Seq<char>)
    requires
        fs.len() == 7,
        forall|k: int| 0 <= k < 7 ==> plain_field(#[trigger] fs[k]),
        !(("CEF:"@ + piped(fs, ext)).last() == '\r' || ("CEF:"@ + piped(fs, ext)).last() == '\n'),
    ensures
        cef_outcome("CEF:"@ + piped(fs, ext)) == Outcome::Fields(extension(trim_start(ext), cef_header_entries(fs)), None),
{
    reveal_strlit("CEF:");
    let input = "CEF:"@ + piped(fs, ext);
    assert(trail(input, cr_lf_p()) == 0);
    assert(input.take(input.len() as int) =~= input);
    assert(input.subrange(0, 4) =~= "CEF:"@);
    assert(find_seq(input, "CEF:"@) == Some(0int));
    assert(input.skip(4) =~= piped(fs, ext));
    lemma_header_fields_plain(fs, ext, 7);
    assert(fs.take(7) =~= fs);
    assert(fs.skip(7) =~= Seq::<Seq<char>>::empty());
    assert(Seq::new(7, |k: int| (header_keys()[k], ValueV::Str(fs[k]))) =~= cef_header_entries(fs));
}

} // verus!
