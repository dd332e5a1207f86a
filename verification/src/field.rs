//! The flat field map produced by a decoder chain.
//!
//! Nested structures are flattened with dotted keys (`a.b.0.c`). Values are
//! owned strings or scalars; the map keeps insertion order.
use vstd::prelude::*;
use crate::base::Error;
use crate::text::{
    chars_of, digit, is_digit, lower, owned, seq_eq, to_lower, trim, trim_range,
};

verus! {

/// A single extracted value.
///
/// A JSON number that is not an `i64` is kept as `Float` holding the decimal
/// text serde_json renders for it.
#[derive(Debug, Clone, PartialEq)]
pub enum Value {
    Str(String),
    Int(i64),
    Float(String),
    Bool(bool),
    Null,
}

/// The mathematical content of a [`Value`].
pub ghost enum ValueV {
    Str(Seq<char>),
    Int(i64),
    Float(Seq<char>),
    Bool(bool),
    Null,
}

impl View for Value {
    type V = ValueV;

    open spec fn view(&self) -> ValueV {
        match self {
            Value::Str(s) => ValueV::Str(s@),
            Value::Int(i) => ValueV::Int(*i),
            Value::Float(s) => ValueV::Float(s@),
            Value::Bool(b) => ValueV::Bool(*b),
            Value::Null => ValueV::Null,
        }
    }
}

pub open spec fn sv(s: &str) -> ValueV {
    ValueV::Str(s@)
}

// ---------------------------------------------------------------------------
// Decimal integers
// ---------------------------------------------------------------------------

pub open spec fn all_digits(s: Seq<char>) -> bool {
    forall|i: int| 0 <= i < s.len() ==> is_digit(#[trigger] s[i])
}

/// The number a string of decimal digits denotes.
pub open spec fn dec_num(s: Seq<char>) -> nat
    decreases s.len(),
{
    if s.len() == 0 {
        0
    } else {
        dec_num(s.drop_last()) * 10 + (s.last() as nat - 48) as nat
    }
}

/// `str::parse::<i64>`: an optional sign, then one or more decimal digits,
/// denoting a number in range.
pub open spec fn parse_i64(s: Seq<char>) -> Option<i64> {
    let neg = s.len() > 0 && s[0] == '-';
    let d = if s.len() > 0 && (s[0] == '+' || s[0] == '-') { s.drop_first() } else { s };
    if d.len() > 0 && all_digits(d) {
        if neg {
            if dec_num(d) <= 0x8000_0000_0000_0000 { Some((0 - dec_num(d)) as i64) } else { None }
        } else {
            if dec_num(d) <= 0x7fff_ffff_ffff_ffff { Some(dec_num(d) as i64) } else { None }
        }
    } else {
        None
    }
}

/// `str::parse::<u64>`: an optional `+`, then one or more decimal digits in
/// range.
pub open spec fn parse_u64(s: Seq<char>) -> Option<u64> {
    let d = if s.len() > 0 && s[0] == '+' { s.drop_first() } else { s };
    if d.len() > 0 && all_digits(d) && dec_num(d) <= u64::MAX {
        Some(dec_num(d) as u64)
    } else {
        None
    }
}

proof fn lemma_dec_num_step(s: Seq<char>, i: int)
    requires
        0 <= i < s.len(),
    ensures
        dec_num(s.take(i + 1)) == dec_num(s.take(i)) * 10 + (s[i] as nat - 48) as nat,
{
    assert(s.take(i + 1).drop_last() == s.take(i));
}

proof fn lemma_dec_num_grows(s: Seq<char>, i: int, j: int)
    requires
        0 <= i <= j <= s.len(),
    ensures
        dec_num(s.take(i)) <= dec_num(s.take(j)),
    decreases j - i,
{
    if i < j {
        lemma_dec_num_grows(s, i, j - 1);
        lemma_dec_num_step(s, j - 1);
    }
}

/// Reads the digits `s[lo..hi]` as an unsigned number, if they are all digits
/// and the number fits in a `u64`. `None` also when the range is empty.
pub fn parse_digits(s: &[char], lo: usize, hi: usize) -> (r: Option<u64>)
    requires
        lo <= hi <= s@.len(),
    ensures
        ({
            let d = s@.subrange(lo as int, hi as int);
            r == (if d.len() > 0 && all_digits(d) && dec_num(d) <= u64::MAX {
                Some(dec_num(d) as u64)
            } else {
                None::<u64>
            })
        }),
{
    let ghost d = s@.subrange(lo as int, hi as int);
    if lo == hi {
        return None;
    }
    let mut acc: u64 = 0;
    let mut i: usize = lo;
    while i < hi
        invariant
            lo <= i <= hi <= s@.len(),
            d == s@.subrange(lo as int, hi as int),
            d.len() > 0,
            acc == dec_num(d.take(i - lo)),
            forall|j: int| 0 <= j < i - lo ==> is_digit(#[trigger] d[j]),
        decreases hi - i,
    {
        let c = s[i];
        if !digit(c) {
            assert(!is_digit(d[i - lo]));
            return None;
        }
        let v = (c as u32 - 48) as u64;
        proof {
            lemma_dec_num_step(d, i - lo);
        }
        if acc > (u64::MAX - v) / 10 {
            proof {
                assert(acc * 10 + v > u64::MAX) by (nonlinear_arith)
                    requires
                        acc > (u64::MAX - v) / 10,
                        v < 10,
                ;
                lemma_dec_num_grows(d, i - lo + 1, d.len() as int);
                assert(d.take(d.len() as int) == d);
            }
            return None;
        }
        proof {
            assert(acc * 10 + v <= u64::MAX) by (nonlinear_arith)
                requires
                    acc <= (u64::MAX - v) / 10,
                    v < 10,
            ;
        }
        acc = acc * 10 + v;
        i += 1;
    }
    assert(d.take(d.len() as int) == d);
    Some(acc)
}

/// `s[lo..hi].parse::<i64>()`, as an option.
pub fn parse_int(s: &[char], lo: usize, hi: usize) -> (r: Option<i64>)
    requires
        lo <= hi <= s@.len(),
    ensures
        r == parse_i64(s@.subrange(lo as int, hi as int)),
{
    let ghost w = s@.subrange(lo as int, hi as int);
    let mut start = lo;
    let mut neg = false;
    if lo < hi && (s[lo] == '+' || s[lo] == '-') {
        neg = s[lo] == '-';
        start = lo + 1;
        assert(s@.subrange(start as int, hi as int) =~= w.drop_first());
    } else {
        assert(s@.subrange(start as int, hi as int) =~= w);
    }
    match parse_digits(s, start, hi) {
        None => None,
        Some(m) => {
            if neg {
                if m <= 0x8000_0000_0000_0000 {
                    if m == 0x8000_0000_0000_0000 {
                        Some(i64::MIN)
                    } else {
                        Some(0 - (m as i64))
                    }
                } else {
                    None
                }
            } else {
                if m <= 0x7fff_ffff_ffff_ffff {
                    Some(m as i64)
                } else {
                    None
                }
            }
        },
    }
}

/// `s[lo..hi].parse::<u64>()`, as an option.
pub fn parse_uint(s: &[char], lo: usize, hi: usize) -> (r: Option<u64>)
    requires
        lo <= hi <= s@.len(),
    ensures
        r == parse_u64(s@.subrange(lo as int, hi as int)),
{
    let ghost w = s@.subrange(lo as int, hi as int);
    if lo < hi && s[lo] == '+' {
        assert(s@.subrange(lo + 1, hi as int) =~= w.drop_first());
        parse_digits(s, lo + 1, hi)
    } else {
        assert(s@.subrange(lo as int, hi as int) =~= w);
        parse_digits(s, lo, hi)
    }
}

// ---------------------------------------------------------------------------
// Spellings
// ---------------------------------------------------------------------------

/// ASCII case-insensitive equality.
pub open spec fn eq_ignore_case(a: Seq<char>, b: Seq<char>) -> bool {
    a.len() == b.len() && forall|i: int| 0 <= i < a.len() ==> lower(#[trigger] a[i]) == lower(b[i])
}

pub open spec fn lower_seq(s: Seq<char>) -> Seq<char> {
    s.map_values(|c: char| lower(c))
}

/// Whether `s[lo..hi]` equals `w` ignoring ASCII case.
pub fn eq_ignore_case_at(s: &[char], lo: usize, hi: usize, w: &[char]) -> (r: bool)
    requires
        lo <= hi <= s@.len(),
    ensures
        r == eq_ignore_case(s@.subrange(lo as int, hi as int), w@),
{
    let ghost a = s@.subrange(lo as int, hi as int);
    if hi - lo != w.len() {
        return false;
    }
    let mut i: usize = 0;
    while i < w.len()
        invariant
            lo <= hi <= s@.len(),
            hi - lo == w@.len(),
            a == s@.subrange(lo as int, hi as int),
            i <= w@.len(),
            forall|j: int| 0 <= j < i ==> lower(#[trigger] a[j]) == lower(w@[j]),
        decreases w.len() - i,
    {
        if to_lower(s[lo + i]) != to_lower(w[i]) {
            assert(lower(a[i as int]) != lower(w@[i as int]));
            return false;
        }
        i += 1;
    }
    true
}

pub open spec fn marker_words() -> Seq<Seq<char>> {
    seq![seq!['n', '/', 'a'], seq!['n', 'u', 'l', 'l'], seq!['n', 'o', 'n', 'e'], seq!['u', 'n', 'k', 'n', 'o', 'w', 'n']]
}

pub open spec fn true_words() -> Seq<Seq<char>> {
    seq![seq!['t', 'r', 'u', 'e'], seq!['y', 'e', 's'], seq!['y'], seq!['1'], seq!['o', 'n'],
        seq!['e', 'n', 'a', 'b', 'l', 'e'], seq!['e', 'n', 'a', 'b', 'l', 'e', 'd']]
}

pub open spec fn false_words() -> Seq<Seq<char>> {
    seq![seq!['f', 'a', 'l', 's', 'e'], seq!['n', 'o'], seq!['n'], seq!['0'], seq!['o', 'f', 'f'],
        seq!['d', 'i', 's', 'a', 'b', 'l', 'e'], seq!['d', 'i', 's', 'a', 'b', 'l', 'e', 'd']]
}

/// Whether `s` matches one of `words` ignoring ASCII case.
pub open spec fn any_word(s: Seq<char>, words: Seq<Seq<char>>) -> bool {
    exists|k: int| 0 <= k < words.len() && eq_ignore_case(s, #[trigger] words[k])
}

fn word_list(words: &[&str]) -> (r: Vec<Vec<char>>)
    ensures
        r@.len() == words@.len(),
        forall|k: int| 0 <= k < r@.len() ==> (#[trigger] r@[k])@ == words@[k]@,
{
    let mut out: Vec<Vec<char>> = Vec::new();
    let mut k: usize = 0;
    while k < words.len()
        invariant
            k <= words@.len(),
            out@.len() == k,
            forall|j: int| 0 <= j < k ==> (#[trigger] out@[j])@ == words@[j]@,
        decreases words.len() - k,
    {
        out.push(chars_of(words[k]));
        k += 1;
    }
    out
}

fn matches_any(s: &[char], lo: usize, hi: usize, words: &Vec<Vec<char>>) -> (r: bool)
    requires
        lo <= hi <= s@.len(),
    ensures
        r == exists|k: int| 0 <= k < words@.len() && eq_ignore_case(s@.subrange(lo as int, hi as int), (#[trigger] words@[k])@),
{
    let mut k: usize = 0;
    while k < words.len()
        invariant
            lo <= hi <= s@.len(),
            k <= words@.len(),
            forall|j: int| 0 <= j < k ==> !eq_ignore_case(s@.subrange(lo as int, hi as int), (#[trigger] words@[j])@),
        decreases words.len() - k,
    {
        if eq_ignore_case_at(s, lo, hi, &words[k]) {
            return true;
        }
        k += 1;
    }
    false
}

proof fn lemma_words(s: Seq<char>, t: Seq<Vec<char>>, w: Seq<Seq<char>>)
    requires
        t.len() == w.len(),
        forall|k: int| 0 <= k < t.len() ==> (#[trigger] t[k])@ == w[k],
    ensures
        (exists|k: int| 0 <= k < t.len() && eq_ignore_case(s, (#[trigger] t[k])@)) == any_word(s, w),
{
    if exists|k: int| 0 <= k < t.len() && eq_ignore_case(s, (#[trigger] t[k])@) {
        let k = choose|k: int| 0 <= k < t.len() && eq_ignore_case(s, (#[trigger] t[k])@);
        assert(eq_ignore_case(s, w[k]));
    }
    if any_word(s, w) {
        let k = choose|k: int| 0 <= k < w.len() && eq_ignore_case(s, #[trigger] w[k]);
        assert(eq_ignore_case(s, t[k]@));
    }
}

/// Whether `s` is blank or one of the absence markers devices write.
pub open spec fn is_marker_text(s: Seq<char>) -> bool {
    let t = trim(s);
    t.len() == 0 || t == seq!['-'] || any_word(t, marker_words())
}

/// `s.trim().parse::<i64>()` for a `Value::Str`, and the integral reading
/// of a `Value::Float`'s text (digits, optionally followed by `.` and zeros).
pub open spec fn float_int(t: Seq<char>) -> Option<i64> {
    match crate::text::find(t, '.') {
        None => parse_i64(t),
        Some(i) => if i + 1 < t.len() && (forall|j: int| i < j < t.len() ==> t[j] == '0') {
            parse_i64(t.take(i))
        } else {
            None
        },
    }
}

pub open spec fn value_as_int(v: ValueV) -> Option<i64> {
    match v {
        ValueV::Int(i) => Some(i),
        ValueV::Float(t) => float_int(t),
        ValueV::Str(s) => parse_i64(trim(s)),
        ValueV::Bool(b) => Some(if b { 1 } else { 0 }),
        ValueV::Null => None,
    }
}

pub open spec fn value_as_bool(v: ValueV) -> Option<bool> {
    match v {
        ValueV::Bool(b) => Some(b),
        ValueV::Int(i) => Some(i != 0),
        ValueV::Str(s) => if any_word(trim(s), true_words()) {
            Some(true)
        } else if any_word(trim(s), false_words()) {
            Some(false)
        } else {
            None
        },
        _ => None,
    }
}

pub open spec fn value_is_empty_marker(v: ValueV) -> bool {
    match v {
        ValueV::Null => true,
        ValueV::Str(s) => is_marker_text(s),
        _ => false,
    }
}

pub open spec fn variant_name_of(v: ValueV) -> Seq<char> {
    match v {
        ValueV::Str(_) => seq!['s', 't', 'r', 'i', 'n', 'g'],
        ValueV::Int(_) => seq!['i', 'n', 't', 'e', 'g', 'e', 'r'],
        ValueV::Float(_) => seq!['f', 'l', 'o', 'a', 't'],
        ValueV::Bool(_) => seq!['b', 'o', 'o', 'l', 'e', 'a', 'n'],
        ValueV::Null => seq!['n', 'u', 'l', 'l'],
    }
}

impl Value {
    /// A string value.
    pub fn borrowed(s: &str) -> (r: Self)
        ensures
            r@ == ValueV::Str(s@),
    {
        Value::Str(owned(s))
    }

    /// A string value from an owned string.
    pub fn owned(s: String) -> (r: Self)
        ensures
            r@ == ValueV::Str(s@),
    {
        Value::Str(s)
    }

    /// Name of the variant, for error messages.
    pub fn variant_name(&self) -> (r: &'static str)
        ensures
            r@ == variant_name_of(self@),
    {
        proof {
            reveal_strlit("string");
            reveal_strlit("integer");
            reveal_strlit("float");
            reveal_strlit("boolean");
            reveal_strlit("null");
        }
        match self {
            Value::Str(_) => "string",
            Value::Int(_) => "integer",
            Value::Float(_) => "float",
            Value::Bool(_) => "boolean",
            Value::Null => "null",
        }
    }

    pub fn as_str(&self) -> (r: Option<&str>)
        ensures
            match self@ {
                ValueV::Str(s) => r matches Some(x) && x@ == s,
                _ => r is None,
            },
    {
        match self {
            Value::Str(s) => Some(s.as_str()),
            _ => None,
        }
    }

    /// Interpret the value as an integer, parsing a string if necessary.
    pub fn as_int(&self) -> (r: Option<i64>)
        ensures
            r == value_as_int(self@),
    {
        match self {
            Value::Int(i) => Some(*i),
            Value::Float(t) => {
                let cs = chars_of(t.as_str());
                assert(cs@.subrange(0, cs@.len() as int) == cs@);
                match crate::text::find_char(&cs, 0, cs.len(), '.') {
                    None => parse_int(&cs, 0, cs.len()),
                    Some(i) => {
                        if i + 1 >= cs.len() {
                            return None;
                        }
                        let mut j = i + 1;
                        while j < cs.len()
                            invariant
                                i < j <= cs@.len(),
                                i + 1 < cs@.len(),
                                cs@ == t@,
                                self@ == ValueV::Float(t@),
                                crate::text::find(cs@, '.') == Some(i as int),
                                forall|k: int| i < k < j ==> cs@[k] == '0',
                            decreases cs.len() - j,
                        {
                            if cs[j] != '0' {
                                assert(cs@[j as int] != '0');
                                return None;
                            }
                            j += 1;
                        }
                        assert(cs@.subrange(0, i as int) == cs@.take(i as int));
                        parse_int(&cs, 0, i)
                    },
                }
            },
            Value::Str(s) => {
                let cs = chars_of(s.as_str());
                let (a, b) = trim_range(&cs, 0, cs.len());
                assert(cs@.subrange(0, cs@.len() as int) == cs@);
                parse_int(&cs, a, b)
            },
            Value::Bool(b) => Some(if *b { 1 } else { 0 }),
            Value::Null => None,
        }
    }

    /// Interpret the value as a boolean, accepting device spellings.
    pub fn as_bool(&self) -> (r: Option<bool>)
        ensures
            r == value_as_bool(self@),
    {
        match self {
            Value::Bool(b) => Some(*b),
            Value::Int(i) => Some(*i != 0),
            Value::Str(s) => {
                let cs = chars_of(s.as_str());
                let (a, b) = trim_range(&cs, 0, cs.len());
                assert(cs@.subrange(0, cs@.len() as int) == cs@);
                let t = word_list(&["true", "yes", "y", "1", "on", "enable", "enabled"]);
                let f = word_list(&["false", "no", "n", "0", "off", "disable", "disabled"]);
                proof {
                    reveal_strlit("true");
                    reveal_strlit("yes");
                    reveal_strlit("y");
                    reveal_strlit("1");
                    reveal_strlit("on");
                    reveal_strlit("enable");
                    reveal_strlit("enabled");
                    reveal_strlit("false");
                    reveal_strlit("no");
                    reveal_strlit("n");
                    reveal_strlit("0");
                    reveal_strlit("off");
                    reveal_strlit("disable");
                    reveal_strlit("disabled");
                    assert forall|k: int| 0 <= k < 7 implies (#[trigger] t@[k])@ == true_words()[k] by {}
                    assert forall|k: int| 0 <= k < 7 implies (#[trigger] f@[k])@ == false_words()[k] by {}
                }
                proof {
                    lemma_words(cs@.subrange(a as int, b as int), t@, true_words());
                    lemma_words(cs@.subrange(a as int, b as int), f@, false_words());
                }
                if matches_any(&cs, a, b, &t) {
                    Some(true)
                } else if matches_any(&cs, a, b, &f) {
                    Some(false)
                } else {
                    None
                }
            },
            _ => None,
        }
    }

    /// Whether this value carries no information and should not be mapped.
    pub fn is_empty_marker(&self) -> (r: bool)
        ensures
            r == value_is_empty_marker(self@),
    {
        match self {
            Value::Null => true,
            Value::Str(s) => {
                let cs = chars_of(s.as_str());
                let (a, b) = trim_range(&cs, 0, cs.len());
                assert(cs@.subrange(0, cs@.len() as int) == cs@);
                if a == b {
                    return true;
                }
                if b - a == 1 && cs[a] == '-' {
                    assert(cs@.subrange(a as int, b as int) =~= seq!['-']);
                    return true;
                }
                assert(cs@.subrange(a as int, b as int) != seq!['-']) by {
                    if b - a == 1 {
                        assert(cs@.subrange(a as int, b as int)[0] == cs@[a as int]);
                        assert(seq!['-'][0] == '-');
                    } else {
                        assert(seq!['-'].len() == 1);
                    }
                }
                let m = word_list(&["n/a", "null", "none", "unknown"]);
                proof {
                    reveal_strlit("n/a");
                    reveal_strlit("null");
                    reveal_strlit("none");
                    reveal_strlit("unknown");
                    assert forall|k: int| 0 <= k < 4 implies (#[trigger] m@[k])@ == marker_words()[k] by {}
                }
                let r = matches_any(&cs, a, b, &m);
                proof {
                    lemma_words(cs@.subrange(a as int, b as int), m@, marker_words());
                }
                r
            },
            _ => false,
        }
    }

    /// Detach from the source buffer; values are already owned.
    pub fn into_owned(self) -> (r: Value)
        ensures
            r@ == self@,
    {
        self
    }
}

// ---------------------------------------------------------------------------
// The map
// ---------------------------------------------------------------------------

pub type Entries = Seq<(Seq<char>, ValueV)>;

pub open spec fn entries_view(v: Seq<(String, Value)>) -> Entries {
    v.map_values(|e: (String, Value)| (e.0@, e.1@))
}

/// Index of the first entry keyed `k`.
pub open spec fn key_index(e: Entries, k: Seq<char>) -> Option<int>
    decreases e.len(),
{
    if e.len() == 0 {
        None
    } else if e[0].0 == k {
        Some(0)
    } else {
        match key_index(e.drop_first(), k) {
            Some(i) => Some(i + 1),
            None => None,
        }
    }
}

pub proof fn lemma_key_index(e: Entries, k: Seq<char>)
    ensures
        key_index(e, k) matches Some(i) ==> 0 <= i < e.len() && e[i].0 == k && forall|j: int| 0 <= j < i ==> (#[trigger] e[j]).0 != k,
        key_index(e, k) is None ==> forall|j: int| 0 <= j < e.len() ==> (#[trigger] e[j]).0 != k,
    decreases e.len(),
{
    if e.len() > 0 && e[0].0 != k {
        lemma_key_index(e.drop_first(), k);
        assert forall|j: int| 1 <= j < e.len() implies e[j] == e.drop_first()[j - 1] by {}
    }
}

pub proof fn lemma_key_index_first(e: Entries, k: Seq<char>, i: int)
    requires
        0 <= i < e.len(),
        e[i].0 == k,
        forall|j: int| 0 <= j < i ==> (#[trigger] e[j]).0 != k,
    ensures
        key_index(e, k) == Some(i),
{
    lemma_key_index(e, k);
    match key_index(e, k) {
        Some(x) => {
            if x < i {
                assert(e[x].0 != k);
            } else if x > i {
                assert(e[i].0 != k);
            }
        },
        None => {
            assert(e[i].0 != k);
        },
    }
}

pub proof fn lemma_key_index_none(e: Entries, k: Seq<char>)
    requires
        forall|j: int| 0 <= j < e.len() ==> (#[trigger] e[j]).0 != k,
    ensures
        key_index(e, k) is None,
{
    lemma_key_index(e, k);
    if let Some(x) = key_index(e, k) {
        assert(e[x].0 != k);
    }
}

pub open spec fn has_key(e: Entries, k: Seq<char>) -> bool {
    key_index(e, k) is Some
}

/// The value under the first entry keyed `k`.
pub open spec fn lookup(e: Entries, k: Seq<char>) -> Option<ValueV> {
    match key_index(e, k) {
        Some(i) => Some(e[i].1),
        None => None,
    }
}

/// Insert replacing: an existing key keeps its position and takes `v`.
pub open spec fn insert_entry(e: Entries, k: Seq<char>, v: ValueV) -> Entries {
    match key_index(e, k) {
        Some(i) => e.update(i, (k, v)),
        None => e.push((k, v)),
    }
}

/// Add `(k, v)` unless `k` is already present.
pub open spec fn insert_absent(e: Entries, k: Seq<char>, v: ValueV) -> Entries {
    if has_key(e, k) { e } else { e.push((k, v)) }
}

/// Merge keeping existing keys, in the order `o` lists its entries.
pub open spec fn merge_keep(e: Entries, o: Entries) -> Entries
    decreases o.len(),
{
    if o.len() == 0 {
        e
    } else {
        merge_keep(insert_absent(e, o[0].0, o[0].1), o.drop_first())
    }
}

/// An insertion-ordered map of extracted fields.
#[derive(Debug, Clone, PartialEq)]
pub struct FieldMap {
    entries: Vec<(String, Value)>,
}

impl View for FieldMap {
    type V = Entries;

    closed spec fn view(&self) -> Entries {
        entries_view(self.entries@)
    }
}

impl FieldMap {
    pub fn new() -> (r: Self)
        ensures
            r@ == Seq::<(Seq<char>, ValueV)>::empty(),
    {
        let r = FieldMap { entries: Vec::new() };
        assert(r@ =~= Seq::<(Seq<char>, ValueV)>::empty());
        r
    }

    pub fn with_capacity(n: usize) -> (r: Self)
        ensures
            r@ == Seq::<(Seq<char>, ValueV)>::empty(),
    {
        FieldMap::new()
    }

    fn find_index(&self, key: &[char]) -> (r: Option<usize>)
        ensures
            r matches Some(i) ==> i < self.entries@.len() && key_index(self@, key@) == Some(i as int),
            r is None ==> key_index(self@, key@) is None,
            self@.len() == self.entries@.len(),
    {
        let mut i: usize = 0;
        while i < self.entries.len()
            invariant
                i <= self.entries@.len(),
                self@.len() == self.entries@.len(),
                forall|j: int| 0 <= j < i ==> (#[trigger] self@[j]).0 != key@,
            decreases self.entries.len() - i,
        {
            let k = chars_of(self.entries[i].0.as_str());
            assert(self@[i as int].0 == self.entries@[i as int].0@);
            assert(k@.subrange(0, k@.len() as int) == k@);
            assert(key@.subrange(0, key@.len() as int) == key@);
            if seq_eq(&k, 0, k.len(), key, 0, key.len()) {
                proof {
                    lemma_key_index_first(self@, key@, i as int);
                }
                return Some(i);
            }
            i += 1;
        }
        proof {
            lemma_key_index_none(self@, key@);
        }
        None
    }

    /// Insert a field, replacing any existing value for the same key.
    pub fn insert(&mut self, key: &str, value: Value)
        ensures
            final(self)@ == insert_entry(old(self)@, key@, value@),
    {
        let kc = chars_of(key);
        match self.find_index(&kc) {
            Some(i) => {
                let ghost before = self.entries@;
                self.entries.set(i, (owned(key), value));
                assert(self@ =~= old(self)@.update(i as int, (key@, value@)));
            },
            None => {
                self.entries.push((owned(key), value));
                assert(self@ =~= old(self)@.push((key@, value@)));
            },
        }
    }

    /// Insert without checking for an existing key.
    pub fn push_unchecked(&mut self, key: &str, value: Value)
        ensures
            final(self)@ == old(self)@.push((key@, value@)),
    {
        self.entries.push((owned(key), value));
        assert(self@ =~= old(self)@.push((key@, value@)));
    }

    pub fn get(&self, key: &str) -> (r: Option<&Value>)
        ensures
            match lookup(self@, key@) {
                Some(v) => r matches Some(x) && x@ == v,
                None => r is None,
            },
    {
        let kc = chars_of(key);
        match self.find_index(&kc) {
            Some(i) => {
                assert(self@[i as int].1 == self.entries@[i as int].1@);
                Some(&self.entries[i].1)
            },
            None => None,
        }
    }

    /// Look up a field, treating empty markers as absent.
    pub fn get_present(&self, key: &str) -> (r: Option<&Value>)
        ensures
            match lookup(self@, key@) {
                Some(v) => if value_is_empty_marker(v) { r is None } else { r matches Some(x) && x@ == v },
                None => r is None,
            },
    {
        match self.get(key) {
            Some(v) => if v.is_empty_marker() { None } else { Some(v) },
            None => None,
        }
    }

    pub fn get_str(&self, key: &str) -> (r: Option<&str>)
        ensures
            match lookup(self@, key@) {
                Some(ValueV::Str(s)) => r matches Some(x) && x@ == s,
                _ => r is None,
            },
    {
        match self.get(key) {
            Some(v) => v.as_str(),
            None => None,
        }
    }

    /// Look up a field that must be present.
    pub fn require(&self, key: &str) -> (r: Result<&Value, Error>)
        ensures
            match lookup(self@, key@) {
                Some(v) => if value_is_empty_marker(v) {
                    r matches Err(Error::MissingField(k)) && k@ == key@
                } else {
                    r matches Ok(x) && x@ == v
                },
                None => r matches Err(Error::MissingField(k)) && k@ == key@,
            },
    {
        match self.get_present(key) {
            Some(v) => Ok(v),
            None => Err(Error::MissingField(owned(key))),
        }
    }

    pub fn contains(&self, key: &str) -> (r: bool)
        ensures
            r == has_key(self@, key@),
    {
        let kc = chars_of(key);
        self.find_index(&kc).is_some()
    }

    pub fn len(&self) -> (r: usize)
        ensures
            r == self@.len(),
    {
        self.entries.len()
    }

    pub fn is_empty(&self) -> (r: bool)
        ensures
            r == (self@.len() == 0),
    {
        self.entries.len() == 0
    }

    /// The entries, in insertion order.
    pub fn iter(&self) -> (r: Vec<(&str, &Value)>)
        ensures
            r@.len() == self@.len(),
            forall|i: int| 0 <= i < r@.len() ==> (#[trigger] r@[i]).0@ == self@[i].0 && r@[i].1@ == self@[i].1,
    {
        let mut out: Vec<(&str, &Value)> = Vec::new();
        let mut i: usize = 0;
        while i < self.entries.len()
            invariant
                i <= self.entries@.len(),
                self@.len() == self.entries@.len(),
                out@.len() == i,
                forall|j: int| 0 <= j < i ==> (#[trigger] out@[j]).0@ == self@[j].0 && out@[j].1@ == self@[j].1,
            decreases self.entries.len() - i,
        {
            let e = &self.entries[i];
            out.push((e.0.as_str(), &e.1));
            i += 1;
        }
        out
    }

    /// The keys, in insertion order.
    pub fn keys(&self) -> (r: Vec<&str>)
        ensures
            r@.len() == self@.len(),
            forall|i: int| 0 <= i < r@.len() ==> (#[trigger] r@[i])@ == self@[i].0,
    {
        let mut out: Vec<&str> = Vec::new();
        let mut i: usize = 0;
        while i < self.entries.len()
            invariant
                i <= self.entries@.len(),
                self@.len() == self.entries@.len(),
                out@.len() == i,
                forall|j: int| 0 <= j < i ==> (#[trigger] out@[j])@ == self@[j].0,
            decreases self.entries.len() - i,
        {
            out.push(self.entries[i].0.as_str());
            i += 1;
        }
        out
    }

    /// Merge another map into this one. Existing keys are kept.
    pub fn merge_keeping_existing(&mut self, other: FieldMap)
        ensures
            final(self)@ == merge_keep(old(self)@, other@),
    {
        let ghost o = other@;
        let mut rest = other.entries;
        let ghost mut i: int = 0;
        while rest.len() > 0
            invariant
                0 <= i <= o.len(),
                entries_view(rest@) == o.skip(i),
                merge_keep(old(self)@, o) == merge_keep(self@, o.skip(i)),
            decreases rest.len(),
        {
            let ghost before = self@;
            let ghost rv = rest@;
            assert(entries_view(rv).len() == rv.len());
            let (k, v) = rest.remove(0);
            assert(o.skip(i).drop_first() == o.skip(i + 1));
            assert(o.skip(i)[0] == (k@, v@)) by {
                assert(entries_view(rv)[0] == (rv[0].0@, rv[0].1@));
            }
            assert(entries_view(rest@) =~= o.skip(i + 1)) by {
                assert forall|j: int| 0 <= j < rest@.len() implies
                    #[trigger] entries_view(rest@)[j] == o.skip(i + 1)[j] by {
                    assert(rest@[j] == rv[j + 1]);
                    assert(entries_view(rv)[j + 1] == (rv[j + 1].0@, rv[j + 1].1@));
                }
            }
            if !self.contains(k.as_str()) {
                self.entries.push((k, v));
                assert(self@ =~= before.push((k@, v@)));
            }
            proof {
                i = i + 1;
            }
        }
        assert(o.skip(i) =~= Seq::<(Seq<char>, ValueV)>::empty()) by {
            assert(entries_view(rest@).len() == 0);
        }
    }

    /// Prefix every key, for namespacing one decoder's output within a chain.
    pub fn prefixed(self, prefix: &str) -> (r: FieldMap)
        ensures
            r@.len() == self@.len(),
            forall|i: int| 0 <= i < r@.len() ==> (#[trigger] r@[i]).0 == prefix@ + self@[i].0 && r@[i].1 == self@[i].1,
    {
        let ghost s = self@;
        let mut rest = self.entries;
        let mut out: Vec<(String, Value)> = Vec::new();
        let ghost mut i: int = 0;
        while rest.len() > 0
            invariant
                0 <= i <= s.len(),
                entries_view(rest@) == s.skip(i),
                out@.len() == i,
                forall|j: int| 0 <= j < i ==> (#[trigger] out@[j]).0@ == prefix@ + s[j].0 && out@[j].1@ == s[j].1,
            decreases rest.len(),
        {
            let ghost rv = rest@;
            assert(entries_view(rv).len() == rv.len());
            let (k, v) = rest.remove(0);
            assert(s.skip(i)[0] == (k@, v@)) by {
                assert(entries_view(rv)[0] == (rv[0].0@, rv[0].1@));
            }
            assert(s[i] == s.skip(i)[0]);
            assert(entries_view(rest@) =~= s.skip(i + 1)) by {
                assert forall|j: int| 0 <= j < rest@.len() implies
                    #[trigger] entries_view(rest@)[j] == s.skip(i + 1)[j] by {
                    assert(rest@[j] == rv[j + 1]);
                    assert(entries_view(rv)[j + 1] == (rv[j + 1].0@, rv[j + 1].1@));
                }
            }
            let mut key = owned(prefix);
            crate::text::push_str(&mut key, k.as_str());
            out.push((key, v));
            proof {
                i = i + 1;
            }
        }
        assert(s.skip(i).len() == 0) by {
            assert(entries_view(rest@).len() == 0);
        }
        let r = FieldMap { entries: out };
        assert forall|j: int| 0 <= j < r@.len() implies (#[trigger] r@[j]).0 == prefix@ + s[j].0 && r@[j].1 == s[j].1 by {
            assert(r@[j] == (out@[j].0@, out@[j].1@));
        }
        r
    }

    /// Detach every entry from the source buffer; entries are already owned.
    pub fn into_owned(self) -> (r: FieldMap)
        ensures
            r@ == self@,
    {
        self
    }
}


/// What a read gives back of a write: after inserting `v` under `k`, `k`
/// reads `v`; every other key reads what it read before; a key already
/// present keeps its position; and one entry is added only for a new key.
pub proof fn insert_then_lookup(e: Entries, k: Seq<char>, v: ValueV, other: Seq<char>)
    ensures
        lookup(insert_entry(e, k, v), k) == Some(v),
        other != k ==> lookup(insert_entry(e, k, v), other) == lookup(e, other),
        has_key(e, k) ==> key_index(insert_entry(e, k, v), k) == key_index(e, k),
        insert_entry(e, k, v).len() == if has_key(e, k) { e.len() } else { e.len() + 1 },
{
    let f = insert_entry(e, k, v);
    lemma_key_index(e, k);
    lemma_key_index(e, other);
    match key_index(e, k) {
        Some(i) => {
            lemma_key_index_first(f, k, i);
            if other != k {
                match key_index(e, other) {
                    Some(j) => {
                        lemma_key_index_first(f, other, j);
                    },
                    None => {
                        lemma_key_index_none(f, other);
                    },
                }
            }
        },
        None => {
            lemma_key_index_first(f, k, e.len() as int);
            if other != k {
                match key_index(e, other) {
                    Some(j) => {
                        lemma_key_index_first(f, other, j);
                    },
                    None => {
                        lemma_key_index_none(f, other);
                    },
                }
            }
        },
    }
}

} // verus!
