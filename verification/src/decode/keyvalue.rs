//! `key=value` body decoding, as emitted by FortiGate, Sophos, Check Point and
//! most appliances that did not choose CSV.
//!
//! Values may be bare, quoted with embedded spaces, quoted with embedded
//! escapes, or empty. A bare value ends at the next delimiter; a quoted one at
//! the next unescaped quote; an unterminated quote takes the rest of the line.
use vstd::prelude::*;
use crate::decode::{
    DecodeError, Decoded, Outcome, contains_backslash, has_backslash, outcome, push_unescaped,
    unescape,
};
use crate::decode::syslog::{lemma_unescaped_quote_bound, unescaped_quote};
use crate::field::{Entries, FieldMap, Value, ValueV, insert_entry};
use crate::text::{
    chars_of, eq_char, find, find_char, lead, lemma_find_p, lemma_lead_bound, owned, part,
    push_range, string_range, trim, trim_range,
};

verus! {

/// Decodes a `key=value` body into fields.
#[derive(Debug, Clone)]
pub struct KeyValueDecoder {
    /// Character separating a key from its value.
    pub separator: char,
    /// Character separating one pair from the next.
    pub delimiter: char,
    /// Strip surrounding quotes from values.
    pub unquote: bool,
}

/// The text after the last `d` in `s`.
pub open spec fn last_segment(s: Seq<char>, d: char) -> Seq<char>
    decreases s.len(),
{
    match find(s, d) {
        None => s,
        Some(i) => {
            proof {
                lemma_find_p(s, eq_char(d));
            }
            last_segment(s.skip(i + 1), d)
        },
    }
}

/// One value off the front of `input`, and what follows it.
pub open spec fn take_value(k: KeyValueDecoder, input: Seq<char>) -> (ValueV, Seq<char>) {
    if k.unquote && input.len() > 0 && input[0] == '"' {
        let inner = input.drop_first();
        match unescaped_quote(inner, 0) {
            Some(end) => {
                let raw = inner.take(end);
                (
                    ValueV::Str(if has_backslash(raw) { unescape(raw) } else { raw }),
                    inner.skip(end + 1),
                )
            },
            None => (ValueV::Str(inner), Seq::empty()),
        }
    } else {
        match find(input, k.delimiter) {
            Some(i) => (ValueV::Str(input.take(i)), input.skip(i)),
            None => (ValueV::Str(input), Seq::empty()),
        }
    }
}

pub proof fn lemma_take_value_shorter(k: KeyValueDecoder, input: Seq<char>)
    ensures
        take_value(k, input).1.len() <= input.len(),
{
    if k.unquote && input.len() > 0 && input[0] == '"' {
        lemma_unescaped_quote_bound(input.drop_first(), 0);
    } else {
        lemma_find_p(input, eq_char(k.delimiter));
    }
}

/// The pairs of `rest`, added to `e`; and whether any had a key.
pub open spec fn kv_pairs(k: KeyValueDecoder, rest: Seq<char>, e: Entries, found: bool) -> (Entries, bool)
    decreases rest.len(),
{
    let r = rest.skip(lead(rest, eq_char(k.delimiter)) as int);
    if rest.len() == 0 || r.len() == 0 {
        (e, found)
    } else {
        match find(r, k.separator) {
            None => (e, found),
            Some(sep) => {
                proof {
                    lemma_lead_bound(rest, eq_char(k.delimiter));
                    lemma_find_p(r, eq_char(k.separator));
                    lemma_take_value_shorter(k, r.skip(sep + 1));
                }
                let key = trim(last_segment(r.take(sep), k.delimiter));
                let (value, remainder) = take_value(k, r.skip(sep + 1));
                if key.len() > 0 {
                    kv_pairs(k, remainder, insert_entry(e, key, value), true)
                } else {
                    kv_pairs(k, remainder, e, found)
                }
            },
        }
    }
}

/// What decoding `input` yields.
pub open spec fn kv_outcome(k: KeyValueDecoder, input: Seq<char>) -> Outcome {
    let t = trim(input);
    if t.len() == 0 {
        Outcome::Empty
    } else {
        let (e, found) = kv_pairs(k, t, Seq::empty(), false);
        if found { Outcome::Fields(e, None) } else { Outcome::NotThisFormat("keyvalue"@, "no key=value pairs found"@) }
    }
}

impl KeyValueDecoder {
    /// `=` between key and value, a space between pairs, values unquoted.
    pub fn default() -> (r: Self)
        ensures
            r.separator == '=' && r.delimiter == ' ' && r.unquote,
    {
        KeyValueDecoder { separator: '=', delimiter: ' ', unquote: true }
    }

    pub fn new(separator: char, delimiter: char) -> (r: Self)
        ensures
            r.separator == separator && r.delimiter == delimiter && r.unquote,
    {
        KeyValueDecoder { separator, delimiter, unquote: true }
    }

    pub fn name(&self) -> (r: &'static str)
        ensures
            r@ == "keyvalue"@,
    {
        "keyvalue"
    }

    /// Start of `last_segment(s[lo..hi])`.
    fn last_segment_start(&self, s: &[char], lo: usize, hi: usize) -> (r: usize)
        requires
            lo <= hi <= s@.len(),
        ensures
            lo <= r <= hi,
            part(s@, r as int, hi as int) == last_segment(part(s@, lo as int, hi as int), self.delimiter),
    {
        let mut p = lo;
        loop
            invariant
                lo <= p <= hi <= s@.len(),
                last_segment(part(s@, lo as int, hi as int), self.delimiter) == last_segment(part(s@, p as int, hi as int), self.delimiter),
            decreases hi - p,
        {
            match find_char(s, p, hi, self.delimiter) {
                None => return p,
                Some(i) => {
                    assert(part(s@, p as int, hi as int).skip(i - p + 1) == part(s@, i + 1, hi as int));
                    p = i + 1;
                },
            }
        }
    }

    /// One value off the front of `s[lo..hi]`: the value and where the rest
    /// starts.
    fn take_value_at(&self, s: &[char], lo: usize, hi: usize) -> (r: (Value, usize))
        requires
            lo <= hi <= s@.len(),
        ensures
            lo <= r.1 <= hi,
            r.0@ == take_value(*self, part(s@, lo as int, hi as int)).0,
            part(s@, r.1 as int, hi as int) == take_value(*self, part(s@, lo as int, hi as int)).1,
    {
        let ghost input = part(s@, lo as int, hi as int);
        if self.unquote && lo < hi && s[lo] == '"' {
            assert(input.drop_first() == part(s@, lo + 1, hi as int));
            match crate::decode::syslog::find_unescaped_quote(s, lo + 1, hi) {
                Some(end) => {
                    proof {
                        lemma_unescaped_quote_bound(part(s@, lo + 1, hi as int), 0);
                    }
                    assert(part(s@, lo + 1, hi as int).take(end - lo - 1) == part(s@, lo + 1, end as int));
                    assert(part(s@, lo + 1, hi as int).skip(end - lo) == part(s@, end + 1, hi as int));
                    let v = if contains_backslash(s, lo + 1, end) {
                        let mut out = String::new();
                        push_unescaped(&mut out, s, lo + 1, end);
                        assert(out@ == unescape(part(s@, lo + 1, end as int)));
                        Value::Str(out)
                    } else {
                        Value::Str(string_range(s, lo + 1, end))
                    };
                    return (v, end + 1);
                },
                None => {
                    assert(part(s@, hi as int, hi as int) == Seq::<char>::empty());
                    return (Value::Str(string_range(s, lo + 1, hi)), hi);
                },
            }
        }
        match find_char(s, lo, hi, self.delimiter) {
            Some(i) => {
                assert(input.take(i - lo) == part(s@, lo as int, i as int));
                assert(input.skip(i - lo) == part(s@, i as int, hi as int));
                (Value::Str(string_range(s, lo, i)), i)
            },
            None => {
                assert(part(s@, hi as int, hi as int) == Seq::<char>::empty());
                (Value::Str(string_range(s, lo, hi)), hi)
            },
        }
    }

    /// Decode a `key=value` body.
    pub fn decode(&self, input: &str) -> (r: Result<Decoded, DecodeError>)
        ensures
            outcome(r) == kv_outcome(*self, input@),
    {
        let cs = chars_of(input);
        let (a, b) = trim_range(&cs, 0, cs.len());
        assert(part(cs@, 0, cs@.len() as int) == cs@);
        if a == b {
            return Err(DecodeError::Empty);
        }
        let mut fields = FieldMap::with_capacity(24);
        let mut p = a;
        let mut found = false;
        let ghost t = part(cs@, a as int, b as int);
        while p < b
            invariant_except_break
                kv_pairs(*self, t, Seq::empty(), false) == kv_pairs(*self, part(cs@, p as int, b as int), fields@, found),
            invariant
                a <= p <= b <= cs@.len(),
                t == part(cs@, a as int, b as int),
            ensures
                kv_pairs(*self, t, Seq::empty(), false) == (fields@, found),
            decreases b - p,
        {
            let ghost rest = part(cs@, p as int, b as int);
            let mut q = p;
            while q < b && cs[q] == self.delimiter
                invariant
                    p <= q <= b <= cs@.len(),
                    lead(rest, eq_char(self.delimiter)) == (q - p) + lead(part(cs@, q as int, b as int), eq_char(self.delimiter)),
                decreases b - q,
            {
                assert(part(cs@, q as int, b as int).drop_first() == part(cs@, q + 1, b as int));
                q += 1;
            }
            if q < b {
                assert(part(cs@, q as int, b as int)[0] == cs@[q as int]);
            }
            assert(lead(part(cs@, q as int, b as int), eq_char(self.delimiter)) == 0);
            assert(rest.skip(q - p) == part(cs@, q as int, b as int));
            if q == b {
                break;
            }
            let ghost r = part(cs@, q as int, b as int);
            let sep = match find_char(&cs, q, b, self.separator) {
                Some(x) => x,
                None => {
                    break;
                },
            };
            assert(r.take(sep - q) == part(cs@, q as int, sep as int));
            assert(r.skip(sep - q + 1) == part(cs@, sep + 1, b as int));
            let ks = self.last_segment_start(&cs, q, sep);
            let (ka, kb) = trim_range(&cs, ks, sep);
            let (value, next) = self.take_value_at(&cs, sep + 1, b);
            if ka < kb {
                found = true;
                let key = string_range(&cs, ka, kb);
                fields.insert(key.as_str(), value);
            }
            p = next;
        }
        if !found {
            return Err(DecodeError::NotThisFormat { format: "keyvalue", detail: owned("no key=value pairs found") });
        }
        Ok(Decoded::terminal(fields))
    }
}

// ---------------------------------------------------------------------------
// A pair is read as written
// ---------------------------------------------------------------------------

/// A key as written: not empty, no surrounding whitespace, and holding
/// neither the separator nor the delimiter.
pub open spec fn plain_key(k: KeyValueDecoder, key: Seq<char>) -> bool {
    &&& key.len() > 0
    &&& trim(key) == key
    &&& !key.contains(k.separator)
    &&& !key.contains(k.delimiter)
}

/// A bare value: no delimiter, and not opening a quote that is stripped
/// (an empty one, when the delimiter is itself a quote).
pub open spec fn bare_value(k: KeyValueDecoder, value: Seq<char>) -> bool {
    &&& !value.contains(k.delimiter)
    &&& !(k.unquote && value.len() > 0 && value[0] == '"')
    &&& !(k.unquote && value.len() == 0 && k.delimiter == '"')
}

proof fn lemma_find_absent(s: Seq<char>, c: char)
    requires
        !s.contains(c),
    ensures
        find(s, c) is None,
{
    lemma_find_p(s, eq_char(c));
    if let Some(i) = find(s, c) {
        assert(s[i] == c);
    }
}

proof fn lemma_find_after_plain(x: Seq<char>, y: Seq<char>, c: char)
    requires
        !x.contains(c),
    ensures
        find(x + seq![c] + y, c) == Some(x.len() as int),
{
    let s = x + seq![c] + y;
    assert forall|j: int| 0 <= j < x.len() implies !(eq_char(c))(#[trigger] s[j]) by {
        assert(s[j] == x[j]);
    }
    crate::text::lemma_find_p_first(s, eq_char(c), x.len() as int);
}

/// Reading the first pair of `key sep value tail`.
proof fn lemma_first_pair(k: KeyValueDecoder, key: Seq<char>, value: Seq<char>, tail: Seq<char>, e: Entries, found: bool)
    requires
        k.separator != k.delimiter,
        plain_key(k, key),
        bare_value(k, value),
        tail.len() == 0 || tail[0] == k.delimiter,
    ensures
        kv_pairs(k, key + seq![k.separator] + value + tail, e, found)
            == kv_pairs(k, tail, insert_entry(e, key, ValueV::Str(value)), true),
{
    let t = key + seq![k.separator] + value + tail;
    assert(t[0] == key[0]);
    assert(key[0] != k.delimiter) by {
        if key[0] == k.delimiter {
            assert(key.contains(k.delimiter));
        }
    }
    assert(lead(t, eq_char(k.delimiter)) == 0);
    assert(t.skip(0) =~= t);
    assert(t =~= key + seq![k.separator] + (value + tail));
    lemma_find_after_plain(key, value + tail, k.separator);
    assert(t.take(key.len() as int) =~= key);
    lemma_find_absent(key, k.delimiter);
    assert(last_segment(key, k.delimiter) == key);
    let v = t.skip(key.len() as int + 1);
    assert(v =~= value + tail);
    if tail.len() == 0 {
        assert(v =~= value);
        lemma_find_absent(value, k.delimiter);
    } else {
        assert(v =~= value + seq![k.delimiter] + tail.drop_first());
        lemma_find_after_plain(value, tail.drop_first(), k.delimiter);
        assert(v.take(value.len() as int) =~= value);
        assert(v.skip(value.len() as int) =~= tail);
        if value.len() == 0 {
            assert(v[0] == k.delimiter);
        } else {
            assert(v[0] == value[0]);
        }
    }
    assert(take_value(k, v) == (ValueV::Str(value), tail));
    assert(trim(last_segment(t.take(key.len() as int), k.delimiter)) == key);
}

/// A line that is one `key=value` pair decodes to exactly that field.
pub proof fn a_single_pair_is_read_as_written(k: KeyValueDecoder, key: Seq<char>, value: Seq<char>)
    requires
        k.separator != k.delimiter,
        plain_key(k, key),
        bare_value(k, value),
        trim(key + seq![k.separator] + value) == key + seq![k.separator] + value,
    ensures
        kv_outcome(k, key + seq![k.separator] + value) == Outcome::Fields(seq![(key, ValueV::Str(value))], None),
{
    let empty = Seq::<char>::empty();
    assert(key + seq![k.separator] + value + empty =~= key + seq![k.separator] + value);
    lemma_first_pair(k, key, value, empty, Seq::empty(), false);
    crate::field::lemma_key_index_none(Seq::<(Seq<char>, ValueV)>::empty(), key);
    assert(insert_entry(Seq::empty(), key, ValueV::Str(value)) =~= seq![(key, ValueV::Str(value))]);
}

/// The pairs after the first never make it stop being the first field,
/// under its own key.
proof fn lemma_first_stays(k: KeyValueDecoder, rest: Seq<char>, e: Entries, found: bool)
    requires
        e.len() >= 1,
    ensures
        kv_pairs(k, rest, e, found).0.len() >= 1,
        kv_pairs(k, rest, e, found).0[0].0 == e[0].0,
        found ==> kv_pairs(k, rest, e, found).1,
    decreases rest.len(),
{
    let r = rest.skip(lead(rest, eq_char(k.delimiter)) as int);
    if !(rest.len() == 0 || r.len() == 0) {
        lemma_lead_bound(rest, eq_char(k.delimiter));
        lemma_find_p(r, eq_char(k.separator));
        if let Some(sep) = find(r, k.separator) {
            lemma_take_value_shorter(k, r.skip(sep + 1));
            let key = trim(last_segment(r.take(sep), k.delimiter));
            let (value, remainder) = take_value(k, r.skip(sep + 1));
            if key.len() > 0 {
                let e2 = insert_entry(e, key, value);
                crate::field::lemma_key_index(e, key);
                assert(e2.len() >= 1 && e2[0].0 == e[0].0);
                lemma_first_stays(k, remainder, e2, true);
            } else {
                lemma_first_stays(k, remainder, e, found);
            }
        }
    }
}

/// A line that opens with a `key=value` pair decodes to fields whose first
/// is that key; when nothing after it holds the separator, that pair is the
/// only field.
pub proof fn the_first_pair_leads(k: KeyValueDecoder, key: Seq<char>, value: Seq<char>, rest: Seq<char>)
    requires
        k.separator != k.delimiter,
        plain_key(k, key),
        bare_value(k, value),
        trim(key + seq![k.separator] + value + seq![k.delimiter] + rest) == key + seq![k.separator] + value + seq![k.delimiter] + rest,
    ensures
        kv_outcome(k, key + seq![k.separator] + value + seq![k.delimiter] + rest) matches Outcome::Fields(e, None) && {
            &&& e.len() >= 1
            &&& e[0].0 == key
            &&& !rest.contains(k.separator) ==> e == seq![(key, ValueV::Str(value))]
        },
{
    let tail = seq![k.delimiter] + rest;
    assert(key + seq![k.separator] + value + seq![k.delimiter] + rest =~= key + seq![k.separator] + value + tail);
    lemma_first_pair(k, key, value, tail, Seq::empty(), false);
    crate::field::lemma_key_index_none(Seq::<(Seq<char>, ValueV)>::empty(), key);
    let e1 = insert_entry(Seq::empty(), key, ValueV::Str(value));
    assert(e1 =~= seq![(key, ValueV::Str(value))]);
    lemma_first_stays(k, tail, e1, true);
    if !rest.contains(k.separator) {
        let r = tail.skip(lead(tail, eq_char(k.delimiter)) as int);
        lemma_lead_bound(tail, eq_char(k.delimiter));
        assert forall|j: int| 0 <= j < r.len() implies r[j] != k.separator by {
            let l = lead(tail, eq_char(k.delimiter)) as int;
            assert(r[j] == tail[j + l]);
            if j + l >= 1 {
                assert(tail[j + l] == rest[j + l - 1]);
                if rest[j + l - 1] == k.separator {
                    assert(rest.contains(k.separator));
                }
            }
        }
        if !(tail.len() == 0 || r.len() == 0) {
            assert(!r.contains(k.separator));
            lemma_find_absent(r, k.separator);
        }
    }
}

} // verus!
