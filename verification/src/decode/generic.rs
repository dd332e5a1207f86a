//! Structure recovered from a line no Source Pack claims.
//!
//! Salvage keeps the entities of an unknown record; this keeps the names the
//! device gave its values (`outcome=deny peer=203.0.113.44`), for OCSF
//! `unmapped`. It assigns no OCSF attribute and interprets nothing. A JSON
//! object is read as JSON (top-level scalars only); anything else is scanned
//! for `key=value`. Output is capped and deterministic.
use vstd::prelude::*;
use crate::decode::json::{JsonLevel, JsonV, json_level, json_tree, level_fits, parses_to};
use crate::field::parse_u64;
use crate::text::{
    alnum, chars_of, chars_sized, eq_char, find, find_char, find_p, find_ws, is_alnum, lemma_find_p,
    lemma_utf8_len_concat, owned, part, seq_eq, string_range, trim, trim_range, trim_start, utf8_len,
    utf8_width, char_width, ws_p, skip_ws,
};
use crate::field::parse_uint;

verus! {

/// Cap on the number of fields kept from one line.
pub const MAX_FIELDS: usize = 64;
/// Longest key kept, in bytes.
pub const MAX_KEY_LEN: usize = 64;
/// Longest value kept, in bytes; longer values are cut on a character
/// boundary.
pub const MAX_VALUE_LEN: usize = 512;

pub type Pairs = Seq<(Seq<char>, Seq<char>)>;

/// Named values and the syslog severity recovered from one unclaimed line.
#[derive(Debug, Clone, PartialEq, Eq)]
pub struct GenericFields {
    /// `key`/`value` pairs in the order first seen, deduplicated by key.
    pub fields: Vec<(String, String)>,
    /// RFC 5424 severity code 0-7, when the line carried a `<PRI>` header.
    pub syslog_severity: Option<u8>,
}

pub open spec fn pairs_view(v: Seq<(String, String)>) -> Pairs {
    v.map_values(|p: (String, String)| (p.0@, p.1@))
}

impl View for GenericFields {
    type V = (Pairs, Option<u8>);

    open spec fn view(&self) -> (Pairs, Option<u8>) {
        (pairs_view(self.fields@), self.syslog_severity)
    }
}

impl Default for GenericFields {
    fn default() -> (r: Self)
        ensures
            r@ == (Seq::<(Seq<char>, Seq<char>)>::empty(), None::<u8>),
    {
        let r = GenericFields { fields: Vec::new(), syslog_severity: None };
        assert(pairs_view(r.fields@) =~= Seq::<(Seq<char>, Seq<char>)>::empty());
        r
    }
}

impl GenericFields {
    /// Nothing was recovered.
    pub fn is_empty(&self) -> (r: bool)
        ensures
            r == (self.fields@.len() == 0 && self.syslog_severity is None),
    {
        self.fields.len() == 0 && self.syslog_severity.is_none()
    }
}

// ---------------------------------------------------------------------------
// The syslog severity
// ---------------------------------------------------------------------------

/// RFC 5424: `<PRI>` is `facility * 8 + severity`; a priority above 191 is
/// not a priority. The `<` may follow leading whitespace.
pub open spec fn severity_of(line: Seq<char>) -> Option<u8> {
    let t = trim_start(line);
    if t.len() == 0 || t[0] != '<' {
        None
    } else {
        let rest = t.drop_first();
        match find(rest, '>') {
            None => None,
            Some(close) => if close == 0 || close > 3 {
                None
            } else {
                match parse_u64(rest.take(close)) {
                    Some(p) => if p <= 191 { Some((p % 8) as u8) } else { None },
                    None => None,
                }
            },
        }
    }
}

fn syslog_severity(s: &[char]) -> (r: Option<u8>)
    ensures
        r == severity_of(s@),
{
    let n = s.len();
    let a = skip_ws(s, 0, n);
    assert(part(s@, 0, n as int) == s@);
    let ghost t = part(s@, a as int, n as int);
    assert(t == trim_start(s@));
    if a == n || s[a] != '<' {
        assert(a < n ==> t[0] == s@[a as int]);
        return None;
    }
    assert(t[0] == s@[a as int]);
    assert(t.drop_first() == part(s@, a + 1, n as int));
    let close = match find_char(s, a + 1, n, '>') {
        Some(c) => c,
        None => {
            return None;
        },
    };
    let k = close - (a + 1);
    if k == 0 || k > 3 {
        return None;
    }
    assert(t.drop_first().take(k as int) == part(s@, a + 1, close as int));
    match parse_uint(s, a + 1, close) {
        Some(p) => {
            if p <= 191 {
                Some((p % 8) as u8)
            } else {
                None
            }
        },
        None => None,
    }
}

// ---------------------------------------------------------------------------
// `key=value` scanning
// ---------------------------------------------------------------------------

pub open spec fn key_char(c: char) -> bool {
    is_alnum(c) || c == '_' || c == '-' || c == '.'
}

/// Walking back from `j` over key characters, not below `i`.
pub open spec fn key_start(s: Seq<char>, i: int, j: int) -> int
    decreases j - i,
{
    if j > i && key_char(s[j - 1]) {
        key_start(s, i, j - 1)
    } else {
        j
    }
}

pub proof fn lemma_key_start(s: Seq<char>, i: int, j: int)
    requires
        i <= j,
    ensures
        i <= key_start(s, i, j) <= j,
        forall|m: int| key_start(s, i, j) <= m < j ==> key_char(#[trigger] s[m]),
    decreases j - i,
{
    if j > i && key_char(s[j - 1]) {
        lemma_key_start(s, i, j - 1);
    }
}

/// The value after the `=` at `eq`, and where scanning resumes: a quoted
/// value runs to the closing quote (or, unclosed, the rest of the line,
/// quote included); a bare one to the next whitespace.
pub open spec fn value_at(s: Seq<char>, eq: int) -> (Seq<char>, int) {
    let after = eq + 1;
    if after < s.len() && s[after] == '"' {
        match find(s.skip(after + 1), '"') {
            Some(end) => (s.subrange(after + 1, after + 1 + end), after + end + 2),
            None => (s.skip(after), s.len() as int),
        }
    } else {
        match find_p(s.skip(after), ws_p()) {
            Some(p) => (s.subrange(after, after + p), after + p),
            None => (s.skip(after), s.len() as int),
        }
    }
}

pub proof fn lemma_value_at(s: Seq<char>, eq: int)
    requires
        0 <= eq < s.len(),
    ensures
        eq + 1 <= value_at(s, eq).1 <= s.len(),
{
    let after = eq + 1;
    if after < s.len() && s[after] == '"' {
        lemma_find_p(s.skip(after + 1), eq_char('"'));
    } else {
        lemma_find_p(s.skip(after), ws_p());
    }
}

/// The `key=value` pairs of `s` from `i`, appended to `acc`.
pub open spec fn kv_scan(s: Seq<char>, i: int, acc: Pairs) -> Pairs
    decreases s.len() - i,
{
    if i < 0 || i >= s.len() {
        acc
    } else {
        match find(s.skip(i), '=') {
            None => acc,
            Some(p) => {
                proof {
                    lemma_find_p(s.skip(i), eq_char('='));
                    lemma_value_at(s, i + p);
                }
                let eq = i + p;
                let start = key_start(s, i, eq);
                if start == eq {
                    kv_scan(s, eq + 1, acc)
                } else {
                    let (value, next) = value_at(s, eq);
                    let acc2 = if value.len() > 0 { acc.push((s.subrange(start, eq), value)) } else { acc };
                    kv_scan(s, next, acc2)
                }
            },
        }
    }
}

pub open spec fn strings_view(v: Seq<(String, String)>) -> Pairs {
    pairs_view(v)
}

/// Split a line into `key=value` pairs, respecting double quotes.
fn kv_pairs(s: &[char]) -> (r: Vec<(String, String)>)
    ensures
        pairs_view(r@) == kv_scan(s@, 0, Seq::empty()),
{
    let n = s.len();
    let mut out: Vec<(String, String)> = Vec::new();
    let mut i: usize = 0;
    assert(pairs_view(out@) =~= Seq::<(Seq<char>, Seq<char>)>::empty());
    while i < n
        invariant
            i <= n == s@.len(),
            kv_scan(s@, 0, Seq::empty()) == kv_scan(s@, i as int, pairs_view(out@)),
        decreases n - i,
    {
        let ghost rest = s@.skip(i as int);
        assert(rest == part(s@, i as int, n as int));
        let eq = match find_char(s, i, n, '=') {
            Some(e) => e,
            None => {
                return out;
            },
        };
        let mut start = eq;
        while start > i && (alnum(s[start - 1]) || s[start - 1] == '_' || s[start - 1] == '-' || s[start - 1] == '.')
            invariant
                i <= start <= eq < n == s@.len(),
                key_start(s@, i as int, eq as int) == key_start(s@, i as int, start as int),
            decreases start - i,
        {
            start -= 1;
        }
        proof {
            lemma_value_at(s@, eq as int);
        }
        if start == eq {
            i = eq + 1;
        } else {
            let after = eq + 1;
            let (vlo, vhi, next) = if after < n && s[after] == '"' {
                match find_char(s, after + 1, n, '"') {
                    Some(end) => {
                        assert(part(s@, after + 1, n as int) == s@.skip(after + 1));
                        (after + 1, end, end + 1)
                    },
                    None => {
                        assert(part(s@, after + 1, n as int) == s@.skip(after + 1));
                        assert(s@.skip(after as int) == s@.subrange(after as int, n as int));
                        (after, n, n)
                    },
                }
            } else {
                match find_ws(s, after, n) {
                    Some(e) => {
                        assert(part(s@, after as int, n as int) == s@.skip(after as int));
                        (after, e, e)
                    },
                    None => {
                        assert(part(s@, after as int, n as int) == s@.skip(after as int));
                        assert(s@.skip(after as int) == s@.subrange(after as int, n as int));
                        (after, n, n)
                    },
                }
            };
            assert(value_at(s@, eq as int) == (s@.subrange(vlo as int, vhi as int), next as int));
            if vlo < vhi {
                let key = string_range(s, start, eq);
                let value = string_range(s, vlo, vhi);
                let ghost before = out@;
                out.push((key, value));
                assert(pairs_view(out@) =~= pairs_view(before).push((s@.subrange(start as int, eq as int), s@.subrange(vlo as int, vhi as int))));
            }
            i = next;
        }
    }
    out
}

// ---------------------------------------------------------------------------
// Keeping a pair
// ---------------------------------------------------------------------------

/// How many leading characters of `v` fit in `budget` bytes.
pub open spec fn fit(v: Seq<char>, budget: int) -> nat
    decreases v.len(),
{
    if v.len() == 0 || utf8_width(v[0]) > budget {
        0
    } else {
        1 + fit(v.drop_first(), budget - utf8_width(v[0]))
    }
}

/// `v`, cut to [`MAX_VALUE_LEN`] bytes on a character boundary when longer.
pub open spec fn cap_value(v: Seq<char>) -> Seq<char> {
    if utf8_len(v) > MAX_VALUE_LEN {
        v.take(fit(v, MAX_VALUE_LEN as int) as int)
    } else {
        v
    }
}

pub open spec fn has_key(fs: Pairs, k: Seq<char>) -> bool {
    exists|j: int| 0 <= j < fs.len() && (#[trigger] fs[j]).0 == k
}

/// `fs` with the pair `(key, value)` kept, trimmed: unless the list is
/// full, either part is empty, the key is longer than [`MAX_KEY_LEN`] bytes,
/// or the key was seen before (the first occurrence wins).
pub open spec fn keep_pair(fs: Pairs, key: Seq<char>, value: Seq<char>) -> Pairs {
    let k = trim(key);
    let v = trim(value);
    if fs.len() >= MAX_FIELDS || k.len() == 0 || v.len() == 0 || utf8_len(k) > MAX_KEY_LEN || has_key(fs, k) {
        fs
    } else {
        fs.push((k, cap_value(v)))
    }
}

/// The pairs `ps` kept into `fs` in order.
pub open spec fn keep_all(fs: Pairs, ps: Pairs) -> Pairs
    decreases ps.len(),
{
    if ps.len() == 0 {
        fs
    } else {
        keep_all(keep_pair(fs, ps[0].0, ps[0].1), ps.drop_first())
    }
}

proof fn lemma_fit_step(v: Seq<char>, i: int, budget: int)
    requires
        0 <= i < v.len(),
        fit(v, budget) >= i,
    ensures
        fit(v, budget) == i + fit(v.skip(i), budget - utf8_len(v.take(i))),
    decreases i,
{
    if i > 0 {
        assert(v.len() > 0 && utf8_width(v[0]) <= budget);
        lemma_fit_step(v.drop_first(), i - 1, budget - utf8_width(v[0]));
        assert(v.drop_first().skip(i - 1) == v.skip(i));
        lemma_utf8_len_concat(seq![v[0]], v.drop_first().take(i - 1));
        assert(seq![v[0]] + v.drop_first().take(i - 1) == v.take(i));
        assert(seq![v[0]].drop_last() == Seq::<char>::empty());
        assert(seq![v[0]].last() == v[0]);
        assert(utf8_len(Seq::<char>::empty()) == 0);
        assert(utf8_len(seq![v[0]]) == utf8_width(v[0]));
    } else {
        assert(v.skip(0) == v);
        assert(v.take(0) == Seq::<char>::empty());
    }
}

/// Number of characters of `v` within `MAX_VALUE_LEN` bytes.
fn fit_len(v: &[char]) -> (r: usize)
    ensures
        r == fit(v@, MAX_VALUE_LEN as int),
        r <= v@.len(),
{
    let mut i: usize = 0;
    let mut used: usize = 0;
    assert(v@.take(0) == Seq::<char>::empty());
    assert(v@.skip(0) == v@);
    while i < v.len() && used + char_width(v[i]) <= MAX_VALUE_LEN
        invariant
            i <= v@.len(),
            used <= MAX_VALUE_LEN,
            used == utf8_len(v@.take(i as int)),
            fit(v@, MAX_VALUE_LEN as int) == i + fit(v@.skip(i as int), MAX_VALUE_LEN - used),
        decreases v@.len() - i,
    {
        let w = char_width(v[i]);
        assert(v@.skip(i as int)[0] == v@[i as int]);
        assert(v@.skip(i as int).drop_first() == v@.skip(i + 1));
        assert(v@.take(i + 1).drop_last() == v@.take(i as int));
        used = used + w;
        i += 1;
    }
    if i < v.len() {
        assert(v@.skip(i as int)[0] == v@[i as int]);
    }
    i
}

/// `keep_pair` on the out list.
fn keep(out: &mut Vec<(String, String)>, key: &str, value: &str)
    ensures
        pairs_view(final(out)@) == keep_pair(pairs_view(old(out)@), key@, value@),
{
    if out.len() >= MAX_FIELDS {
        return;
    }
    let kc = chars_sized(key);
    let vc = chars_sized(value);
    let (ka, kb) = trim_range(&kc, 0, kc.len());
    let (va, vb) = trim_range(&vc, 0, vc.len());
    assert(part(kc@, 0, kc@.len() as int) == key@);
    assert(part(vc@, 0, vc@.len() as int) == value@);
    if ka == kb || va == vb {
        return;
    }
    proof {
        crate::text::lemma_utf8_len_sub(kc@, ka as int, kb as int);
        crate::text::lemma_utf8_len_sub(vc@, va as int, vb as int);
    }
    if crate::text::byte_len(&kc, ka, kb) > MAX_KEY_LEN {
        return;
    }
    let ghost k = part(kc@, ka as int, kb as int);
    let mut j: usize = 0;
    while j < out.len()
        invariant
            j <= out@.len(),
            out@ == old(out)@,
            ka <= kb <= kc@.len(),
            k == part(kc@, ka as int, kb as int),
            k == trim(key@),
            forall|m: int| 0 <= m < j ==> (#[trigger] pairs_view(out@)[m]).0 != k,
        decreases out@.len() - j,
    {
        let oc = chars_of(out[j].0.as_str());
        assert(pairs_view(out@)[j as int].0 == oc@);
        assert(oc@.subrange(0, oc@.len() as int) == oc@);
        if seq_eq(&oc, 0, oc.len(), &kc, ka, kb) {
            assert(has_key(pairs_view(out@), k));
            return;
        }
        j += 1;
    }
    let key_s = string_range(&kc, ka, kb);
    let v = if crate::text::byte_len(&vc, va, vb) > MAX_VALUE_LEN {
        let piece = crate::decode::generic::slice_of(&vc, va, vb);
        let cut = fit_len(&piece);
        string_range(&piece, 0, cut)
    } else {
        string_range(&vc, va, vb)
    };
    let ghost before = out@;
    out.push((key_s, v));
    assert(pairs_view(out@) =~= pairs_view(before).push((k, cap_value(part(vc@, va as int, vb as int)))));
}

/// `s[lo..hi]` as its own buffer.
fn slice_of(s: &[char], lo: usize, hi: usize) -> (r: Vec<char>)
    requires
        lo <= hi <= s@.len(),
    ensures
        r@ == part(s@, lo as int, hi as int),
{
    let mut out: Vec<char> = Vec::new();
    let mut i = lo;
    while i < hi
        invariant
            lo <= i <= hi <= s@.len(),
            out@ == part(s@, lo as int, i as int),
        decreases hi - i,
    {
        out.push(s[i]);
        assert(part(s@, lo as int, i + 1) == part(s@, lo as int, i as int).push(s@[i as int]));
        i += 1;
    }
    out
}

// ---------------------------------------------------------------------------
// Extraction
// ---------------------------------------------------------------------------

/// The text a top-level JSON scalar is kept as; `None` for null, arrays and
/// objects.
pub open spec fn scalar_text(t: JsonV) -> Option<Seq<char>> {
    match t {
        JsonV::Str(s) => Some(s),
        JsonV::Number(_, s) => Some(s),
        JsonV::Bool(b) => Some(if b { "true"@ } else { "false"@ }),
        _ => None,
    }
}

/// The members of a JSON object that have a scalar text, in order.
pub open spec fn json_pairs(m: Seq<(Seq<char>, JsonV)>) -> Pairs
    decreases m.len(),
{
    if m.len() == 0 {
        Seq::empty()
    } else {
        let head: Pairs = match scalar_text(m[0].1) {
            Some(x) => seq![(m[0].0, x)],
            None => Seq::empty(),
        };
        head + json_pairs(m.drop_first())
    }
}

/// The top-level members of `line` read as a JSON object, when it is one
/// (leading whitespace allowed, then `{`).
pub open spec fn json_members(line: Seq<char>) -> Option<Seq<(Seq<char>, JsonV)>> {
    let t = trim_start(line);
    if t.len() > 0 && t[0] == '{' {
        match json_tree(t) {
            Ok(JsonV::Object(m)) => Some(m),
            _ => None,
        }
    } else {
        None
    }
}

/// What [`extract`] recovers from `line`.
pub open spec fn extracted(line: Seq<char>) -> (Pairs, Option<u8>) {
    let found = match json_members(line) {
        Some(m) => json_pairs(m),
        None => kv_scan(line, 0, Seq::empty()),
    };
    (keep_all(Seq::empty(), found), severity_of(line))
}

proof fn lemma_keep_all_push(fs: Pairs, ps: Pairs, p: (Seq<char>, Seq<char>))
    ensures
        keep_all(fs, ps.push(p)) == keep_pair(keep_all(fs, ps), p.0, p.1),
    decreases ps.len(),
{
    let e = Seq::<(Seq<char>, Seq<char>)>::empty();
    if ps.len() == 0 {
        assert(ps.push(p).drop_first() == e);
        assert(ps.push(p)[0] == p);
        assert(keep_all(keep_pair(fs, p.0, p.1), e) == keep_pair(fs, p.0, p.1));
        assert(keep_all(fs, ps) == fs);
    } else {
        let fs1 = keep_pair(fs, ps[0].0, ps[0].1);
        assert(ps.push(p).drop_first() == ps.drop_first().push(p));
        assert(ps.push(p)[0] == ps[0]);
        lemma_keep_all_push(fs1, ps.drop_first(), p);
        assert(keep_all(fs, ps.push(p)) == keep_all(fs1, ps.drop_first().push(p)));
        assert(keep_all(fs, ps) == keep_all(fs1, ps.drop_first()));
    }
}

proof fn lemma_json_pairs_push(m: Seq<(Seq<char>, JsonV)>, x: (Seq<char>, JsonV))
    ensures
        json_pairs(m.push(x)) == json_pairs(m) + match scalar_text(x.1) {
            Some(t) => seq![(x.0, t)],
            None => Seq::<(Seq<char>, Seq<char>)>::empty(),
        },
    decreases m.len(),
{
    if m.len() == 0 {
        assert(m.push(x).drop_first() == Seq::<(Seq<char>, JsonV)>::empty());
        assert(json_pairs(Seq::<(Seq<char>, JsonV)>::empty()) == Seq::<(Seq<char>, Seq<char>)>::empty());
    } else {
        assert(m.push(x).drop_first() == m.drop_first().push(x));
        lemma_json_pairs_push(m.drop_first(), x);
    }
}

/// Recover named fields and the syslog severity from an arbitrary line.
pub fn extract(line: &str) -> (r: GenericFields)
    ensures
        r@ == extracted(line@),
{
    let cs = chars_of(line);
    let severity = syslog_severity(&cs);
    let mut fields: Vec<(String, String)> = Vec::new();
    assert(pairs_view(fields@) =~= Seq::<(Seq<char>, Seq<char>)>::empty());
    let n = cs.len();
    let a = skip_ws(&cs, 0, n);
    assert(part(cs@, 0, n as int) == line@);
    assert(part(cs@, a as int, n as int) == trim_start(line@));
    if a < n && cs[a] == '{' {
        let text = string_range(&cs, a, n);
        assert(trim_start(line@)[0] == cs@[a as int]);
        match json_level(text.as_str()) {
            Ok(JsonLevel::Object(members)) => {
                let ghost m = json_tree(text@)->Ok_0->Object_0;
                assert(json_members(line@) == Some(m));
                let mut k: usize = 0;
                while k < members.len()
                    invariant
                        k <= members@.len(),
                        members@.len() == m.len(),
                        forall|j: int| 0 <= j < m.len() ==> (#[trigger] members@[j]).0@ == m[j].0 && parses_to(members@[j].1@, m[j].1),
                        pairs_view(fields@) == keep_all(Seq::empty(), json_pairs(m.take(k as int))),
                    decreases members@.len() - k,
                {
                    assert(m.take(k + 1) == m.take(k as int).push(m[k as int]));
                    proof {
                        lemma_json_pairs_push(m.take(k as int), m[k as int]);
                    }
                    assert(parses_to(members@[k as int].1@, m[k as int].1));
                    match json_level(members[k].1.as_str()) {
                        Ok(JsonLevel::Str(s)) => {
                            assert(scalar_text(m[k as int].1) == Some(s@));
                            assert(json_pairs(m.take(k as int)) + seq![(m[k as int].0, s@)] == json_pairs(m.take(k as int)).push((m[k as int].0, s@)));
                            proof {
                                lemma_keep_all_push(Seq::empty(), json_pairs(m.take(k as int)), (m[k as int].0, s@));
                            }
                            keep(&mut fields, members[k].0.as_str(), s.as_str());
                        },
                        Ok(JsonLevel::Number(_, s)) => {
                            assert(scalar_text(m[k as int].1) == Some(s@));
                            assert(json_pairs(m.take(k as int)) + seq![(m[k as int].0, s@)] == json_pairs(m.take(k as int)).push((m[k as int].0, s@)));
                            proof {
                                lemma_keep_all_push(Seq::empty(), json_pairs(m.take(k as int)), (m[k as int].0, s@));
                            }
                            keep(&mut fields, members[k].0.as_str(), s.as_str());
                        },
                        Ok(JsonLevel::Bool(b)) => {
                            let s = if b { "true" } else { "false" };
                            assert(scalar_text(m[k as int].1) == Some(s@));
                            assert(json_pairs(m.take(k as int)) + seq![(m[k as int].0, s@)] == json_pairs(m.take(k as int)).push((m[k as int].0, s@)));
                            proof {
                                lemma_keep_all_push(Seq::empty(), json_pairs(m.take(k as int)), (m[k as int].0, s@));
                            }
                            keep(&mut fields, members[k].0.as_str(), s);
                        },
                        _ => {
                            assert(scalar_text(m[k as int].1) is None);
                            assert(json_pairs(m.take(k + 1)) =~= json_pairs(m.take(k as int)));
                        },
                    }
                    k += 1;
                }
                assert(m.take(m.len() as int) == m);
                return GenericFields { fields, syslog_severity: severity };
            },
            Ok(l) => {
                assert(json_members(line@) is None);
            },
            Err(_) => {
                assert(json_members(line@) is None);
            },
        }
    } else {
        assert(a < n ==> trim_start(line@)[0] == cs@[a as int]);
        assert(json_members(line@) is None);
    }
    let pairs = kv_pairs(&cs);
    let ghost ps = pairs_view(pairs@);
    let mut k: usize = 0;
    while k < pairs.len()
        invariant
            k <= pairs@.len(),
            ps == pairs_view(pairs@),
            pairs_view(fields@) == keep_all(Seq::empty(), ps.take(k as int)),
        decreases pairs@.len() - k,
    {
        assert(ps.take(k + 1) == ps.take(k as int).push(ps[k as int]));
        proof {
            lemma_keep_all_push(Seq::empty(), ps.take(k as int), ps[k as int]);
        }
        keep(&mut fields, pairs[k].0.as_str(), pairs[k].1.as_str());
        k += 1;
    }
    assert(ps.take(ps.len() as int) == ps);
    GenericFields { fields, syslog_severity: severity }
}

} // verus!
