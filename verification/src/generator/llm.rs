//! The deterministic rules around drafting a Source Pack from samples: which
//! literals may become detectors, which decoder chain the bytes call for,
//! which names are fields, and how a model's looping reply is cut short.
//!
//! The model itself is reached over HTTP by the application. What it answers
//! is held to these rules before it becomes part of a pack (see
//! `generator::assemble`).
use vstd::prelude::*;
use crate::field::{eq_ignore_case, eq_ignore_case_at, lower_seq};
pub use crate::generator::names::available_field_names;
pub use crate::generator::repetition::trim_degenerate_repetition;
use crate::generator::rank::{insert_ranked, ranked, sized, take_top, texts, top, strings_of};
use crate::text::{
    alnum, alpha, byte_len, chars_of, chars_sized, digit, find, find_char, find_seq, find_str,
    is_alnum, is_alpha, is_digit, is_prefix, lemma_find_p, lemma_find_seq, lemma_utf8_len_sub,
    lower, part, seq_eq, skip_ws, starts_with_at, to_lower, trim, trim_range, trim_start, utf8_len,
    word_ranges, words, owned, push_str,
};

verus! {

/// Which local model server to talk to.
#[derive(Debug, Clone, Copy, PartialEq, Eq)]
pub enum Backend {
    /// Ollama: `POST /api/generate`.
    Ollama,
    /// llama.cpp server: `POST /completion`.
    LlamaCpp,
}

/// One turn in a conversation.
#[derive(Debug, Clone)]
pub struct ChatMessage {
    /// `system`, `user` or `assistant`.
    pub role: String,
    pub content: String,
}

pub fn default_endpoint() -> (r: &'static str)
    ensures
        r@ == "http://127.0.0.1:11434"@,
{
    "http://127.0.0.1:11434"
}

pub fn default_model() -> (r: &'static str)
    ensures
        r@ == "qwen2.5:1.5b-instruct"@,
{
    "qwen2.5:1.5b-instruct"
}

// ---------------------------------------------------------------------------
// Character classes over a range
// ---------------------------------------------------------------------------

/// Classes of characters the rules below look for.
pub open spec fn class_p(k: u8) -> spec_fn(char) -> bool {
    if k == 0 {
        |c: char| is_digit(c)
    } else if k == 1 {
        |c: char| is_alpha(c)
    } else if k == 2 {
        |c: char| c == '=' || c == ':' || c == '[' || c == ']' || c == '/' || c == '"' || c == '|' || c == '_'
    } else if k == 3 {
        |c: char| c == ':'
    } else if k == 4 {
        |c: char| c == ' '
    } else if k == 5 {
        |c: char| is_alnum(c) || c == '_'
    } else if k == 6 {
        |c: char| is_alnum(c) || c == '_' || c == '-' || c == '.'
    } else {
        |c: char| is_alnum(c) || c == '_' || c == '.'
    }
}

pub open spec fn any(t: Seq<char>, p: spec_fn(char) -> bool) -> bool {
    exists|i: int| 0 <= i < t.len() && p(#[trigger] t[i])
}

pub open spec fn all(t: Seq<char>, p: spec_fn(char) -> bool) -> bool {
    forall|i: int| 0 <= i < t.len() ==> p(#[trigger] t[i])
}

fn in_class(c: char, k: u8) -> (r: bool)
    ensures
        r == class_p(k)(c),
{
    if k == 0 {
        digit(c)
    } else if k == 1 {
        alpha(c)
    } else if k == 2 {
        c == '=' || c == ':' || c == '[' || c == ']' || c == '/' || c == '"' || c == '|' || c == '_'
    } else if k == 3 {
        c == ':'
    } else if k == 4 {
        c == ' '
    } else if k == 5 {
        alnum(c) || c == '_'
    } else if k == 6 {
        alnum(c) || c == '_' || c == '-' || c == '.'
    } else {
        alnum(c) || c == '_' || c == '.'
    }
}

/// Whether some character of `s[lo..hi]` is in class `k`.
pub(crate) fn any_in(s: &[char], lo: usize, hi: usize, k: u8) -> (r: bool)
    requires
        lo <= hi <= s@.len(),
    ensures
        r == any(part(s@, lo as int, hi as int), class_p(k)),
{
    let ghost t = part(s@, lo as int, hi as int);
    let mut i = lo;
    while i < hi
        invariant
            lo <= i <= hi <= s@.len(),
            t == part(s@, lo as int, hi as int),
            forall|j: int| 0 <= j < i - lo ==> !class_p(k)(#[trigger] t[j]),
        decreases hi - i,
    {
        assert(t[i - lo] == s@[i as int]);
        if in_class(s[i], k) {
            return true;
        }
        i += 1;
    }
    false
}

/// Whether every character of `s[lo..hi]` is in class `k`.
pub(crate) fn all_in(s: &[char], lo: usize, hi: usize, k: u8) -> (r: bool)
    requires
        lo <= hi <= s@.len(),
    ensures
        r == all(part(s@, lo as int, hi as int), class_p(k)),
{
    let ghost t = part(s@, lo as int, hi as int);
    let mut i = lo;
    while i < hi
        invariant
            lo <= i <= hi <= s@.len(),
            t == part(s@, lo as int, hi as int),
            forall|j: int| 0 <= j < i - lo ==> class_p(k)(#[trigger] t[j]),
        decreases hi - i,
    {
        assert(t[i - lo] == s@[i as int]);
        if !in_class(s[i], k) {
            assert(!class_p(k)(t[i - lo]));
            return false;
        }
        i += 1;
    }
    true
}

// ---------------------------------------------------------------------------
// Stable literals
// ---------------------------------------------------------------------------

/// Three ASCII digits in a row at `i`.
pub open spec fn digits3_at(t: Seq<char>, i: int) -> bool {
    0 <= i && i + 2 < t.len() && is_digit(t[i]) && is_digit(t[i + 1]) && is_digit(t[i + 2])
}

pub open spec fn has_digit_run(t: Seq<char>) -> bool {
    exists|i: int| #[trigger] digits3_at(t, i)
}

/// Month abbreviations and weekday names.
pub open spec fn calendar_words() -> Seq<Seq<char>> {
    seq![
        "jan"@, "feb"@, "mar"@, "apr"@, "may"@, "jun"@, "jul"@, "aug"@, "sep"@, "oct"@, "nov"@,
        "dec"@, "mon"@, "tue"@, "wed"@, "thu"@, "fri"@, "sat"@, "sun"@,
    ]
}

/// A literal that can claim future traffic of the same source: 3 to 40
/// bytes once trimmed, no run of three digits, no clock-like `:` with
/// digits, not a calendar word, and with a letter and either format
/// punctuation or at least 8 bytes.
pub open spec fn stable_literal(s: Seq<char>) -> bool {
    let t = trim(s);
    &&& 3 <= utf8_len(t) <= 40
    &&& !has_digit_run(t)
    &&& !(any(t, class_p(3)) && any(t, class_p(0)))
    &&& !calendar_words().contains(lower_seq(t))
    &&& (any(t, class_p(2)) || utf8_len(t) >= 8)
    &&& any(t, class_p(1))
}

pub(crate) fn digit_run_in(s: &[char], lo: usize, hi: usize) -> (r: bool)
    requires
        lo <= hi <= s@.len(),
    ensures
        r == has_digit_run(part(s@, lo as int, hi as int)),
{
    let ghost t = part(s@, lo as int, hi as int);
    let mut i = lo;
    while hi - i >= 3
        invariant
            lo <= i <= hi <= s@.len(),
            t == part(s@, lo as int, hi as int),
            forall|j: int| 0 <= j < i - lo ==> !#[trigger] digits3_at(t, j),
        decreases hi - i,
    {
        if digit(s[i]) && digit(s[i + 1]) && digit(s[i + 2]) {
            assert(digits3_at(t, i - lo));
            return true;
        }
        i += 1;
    }
    assert forall|j: int| !#[trigger] digits3_at(t, j) by {
        if 0 <= j && j + 2 < t.len() && j >= i - lo {
            assert(false);
        }
    }
    false
}

/// Whether the lowered `s[lo..hi]` is one of the first `n` calendar words.
fn is_calendar(s: &[char], lo: usize, hi: usize, n: usize) -> (r: bool)
    requires
        lo <= hi <= s@.len(),
        n <= 19,
    ensures
        r == calendar_words().take(n as int).contains(lower_seq(part(s@, lo as int, hi as int))),
{
    let mut low: Vec<char> = Vec::new();
    let mut i = lo;
    while i < hi
        invariant
            lo <= i <= hi <= s@.len(),
            low@ == lower_seq(part(s@, lo as int, i as int)),
        decreases hi - i,
    {
        low.push(to_lower(s[i]));
        assert(lower_seq(part(s@, lo as int, i + 1)) == lower_seq(part(s@, lo as int, i as int)).push(lower(s@[i as int])));
        i += 1;
    }
    let words: [&str; 19] = [
        "jan", "feb", "mar", "apr", "may", "jun", "jul", "aug", "sep", "oct", "nov", "dec", "mon",
        "tue", "wed", "thu", "fri", "sat", "sun",
    ];
    let ghost cw = calendar_words();
    assert(low@.subrange(0, low@.len() as int) == low@);
    let mut k: usize = 0;
    while k < n
        invariant
            k <= n <= 19,
            cw == calendar_words(),
            low@ == lower_seq(part(s@, lo as int, hi as int)),
            words@.len() == 19,
            forall|j: int| 0 <= j < 19 ==> (#[trigger] words@[j])@ == cw[j],
            forall|j: int| 0 <= j < k ==> cw[j] != low@,
            low@.subrange(0, low@.len() as int) == low@,
        decreases n - k,
    {
        let w = chars_of(words[k]);
        assert(w@.subrange(0, w@.len() as int) == w@);
        if seq_eq(&low, 0, low.len(), &w, 0, w.len()) {
            assert(cw.take(n as int)[k as int] == low@);
            return true;
        }
        k += 1;
    }
    proof {
        if cw.take(n as int).contains(low@) {
            let j = choose|j: int| 0 <= j < n && cw.take(n as int)[j] == low@;
            assert(cw[j] != low@);
        }
    }
    false
}

/// `stable_literal(s[lo..hi])`, with `s` sized.
pub(crate) fn stable_at(s: &[char], lo: usize, hi: usize) -> (r: bool)
    requires
        lo <= hi <= s@.len(),
        utf8_len(s@) <= usize::MAX,
    ensures
        r == stable_literal(part(s@, lo as int, hi as int)),
{
    let (a, b) = trim_range(s, lo, hi);
    proof {
        lemma_utf8_len_sub(s@, a as int, b as int);
    }
    let n = byte_len(s, a, b);
    if n < 3 || n > 40 {
        return false;
    }
    if digit_run_in(s, a, b) {
        return false;
    }
    if any_in(s, a, b, 3) && any_in(s, a, b, 0) {
        return false;
    }
    if is_calendar(s, a, b, 19) {
        assert(calendar_words().take(19) == calendar_words());
        return false;
    }
    assert(calendar_words().take(19) == calendar_words());
    (any_in(s, a, b, 2) || n >= 8) && any_in(s, a, b, 1)
}

/// Reject detector literals that would only ever match the sample they came
/// from: times, dates, ports, addresses, calendar words and bare host labels.
pub fn is_stable_literal(s: &str) -> (r: bool)
    ensures
        r == stable_literal(s@),
{
    let cs = chars_sized(s);
    assert(part(cs@, 0, cs@.len() as int) == s@);
    stable_at(&cs, 0, cs.len())
}

// ---------------------------------------------------------------------------
// Field keys and names
// ---------------------------------------------------------------------------

/// A token before `=` that looks like a field name rather than prose.
pub open spec fn field_key(key: Seq<char>) -> bool {
    &&& key.len() > 0
    &&& utf8_len(key) <= 40
    &&& any(key, class_p(1))
    &&& all(key, class_p(6))
}

fn field_key_at(s: &[char], lo: usize, hi: usize) -> (r: bool)
    requires
        lo <= hi <= s@.len(),
        utf8_len(s@) <= usize::MAX,
    ensures
        r == field_key(part(s@, lo as int, hi as int)),
{
    proof {
        lemma_utf8_len_sub(s@, lo as int, hi as int);
    }
    lo < hi && byte_len(s, lo, hi) <= 40 && any_in(s, lo, hi, 1) && all_in(s, lo, hi, 6)
}

/// Whether a token before `=` looks like a field name rather than prose.
pub fn is_field_key(key: &str) -> (r: bool)
    ensures
        r == field_key(key@),
{
    let cs = chars_sized(key);
    assert(part(cs@, 0, cs@.len() as int) == key@);
    field_key_at(&cs, 0, cs.len())
}

/// `"Unknown"` for a blank string; otherwise the string.
pub fn blank_to_unknown(s: String) -> (r: String)
    ensures
        r@ == if trim(s@).len() == 0 { "Unknown"@ } else { s@ },
{
    let cs = chars_of(s.as_str());
    let (a, b) = trim_range(&cs, 0, cs.len());
    assert(part(cs@, 0, cs@.len() as int) == s@);
    if a == b {
        crate::text::owned("Unknown")
    } else {
        s
    }
}

/// Whether `candidate` plausibly names a field the decoders will produce:
/// a positional `col.N`, or a name some sample uses as a key (`name=` or
/// `"name"`). Blank names, names with a space and `unknown` never are.
pub open spec fn field_name_ok(candidate: Seq<char>, samples: Seq<Seq<char>>) -> bool {
    let name = trim(candidate);
    if name.len() == 0 || eq_ignore_case(name, "unknown"@) || name.contains(' ') {
        false
    } else if is_prefix("col."@, name) {
        true
    } else {
        exists|k: int| 0 <= k < samples.len() && (find_seq(#[trigger] samples[k], name + "="@) is Some
            || find_seq(samples[k], "\""@ + name + "\""@) is Some)
    }
}

pub open spec fn strings(v: Seq<String>) -> Seq<Seq<char>> {
    v.map_values(|s: String| s@)
}

pub fn looks_like_a_field_name(candidate: &str, samples: &[String]) -> (r: bool)
    ensures
        r == field_name_ok(candidate@, strings(samples@)),
{
    let cs = chars_of(candidate);
    let (a, b) = trim_range(&cs, 0, cs.len());
    assert(part(cs@, 0, cs@.len() as int) == candidate@);
    let ghost name = part(cs@, a as int, b as int);
    let unknown = chars_of("unknown");
    if a == b || eq_ignore_case_at(&cs, a, b, &unknown) {
        return false;
    }
    match find_char(&cs, a, b, ' ') {
        Some(i) => {
            proof {
                lemma_find_p(name, crate::text::eq_char(' '));
            }
            assert(name[i - a] == ' ');
            return false;
        },
        None => {
            proof {
                lemma_find_p(name, crate::text::eq_char(' '));
                if name.contains(' ') {
                    let j = choose|j: int| 0 <= j < name.len() && name[j] == ' ';
                    assert(!crate::text::eq_char(' ')(name[j]));
                }
            }
        },
    }
    let col = chars_of("col.");
    if starts_with_at(&cs, a, b, &col) {
        return true;
    }
    let mut as_kv: Vec<char> = Vec::new();
    let mut as_json: Vec<char> = Vec::new();
    as_json.push('"');
    let mut i = a;
    while i < b
        invariant
            a <= i <= b <= cs@.len(),
            as_kv@ == part(cs@, a as int, i as int),
            as_json@ == seq!['"'] + part(cs@, a as int, i as int),
        decreases b - i,
    {
        as_kv.push(cs[i]);
        as_json.push(cs[i]);
        assert(part(cs@, a as int, i + 1) == part(cs@, a as int, i as int).push(cs@[i as int]));
        i += 1;
    }
    as_kv.push('=');
    as_json.push('"');
    proof {
        reveal_strlit("=");
        reveal_strlit("\"");
    }
    assert(as_kv@ == name + "="@);
    assert(as_json@ == "\""@ + name + "\""@);
    let ghost ss = strings(samples@);
    assert(name == trim(candidate@));
    let mut k: usize = 0;
    while k < samples.len()
        invariant
            k <= samples@.len(),
            ss == strings(samples@),
            name == trim(candidate@),
            name.len() > 0,
            !eq_ignore_case(name, "unknown"@),
            !name.contains(' '),
            !is_prefix("col."@, name),
            as_kv@ == name + "="@,
            as_json@ == "\""@ + name + "\""@,
            forall|j: int| 0 <= j < k ==> !(find_seq(#[trigger] ss[j], name + "="@) is Some || find_seq(ss[j], "\""@ + name + "\""@) is Some),
        decreases samples@.len() - k,
    {
        let sc = chars_of(samples[k].as_str());
        assert(sc@.subrange(0, sc@.len() as int) == ss[k as int]);
        let hit = match find_str(&sc, 0, sc.len(), &as_kv) {
            Some(_) => true,
            None => match find_str(&sc, 0, sc.len(), &as_json) {
                Some(_) => true,
                None => false,
            },
        };
        if hit {
            assert(find_seq(ss[k as int], name + "="@) is Some || find_seq(ss[k as int], "\""@ + name + "\""@) is Some);
            return true;
        }
        k += 1;
    }
    false
}

// ---------------------------------------------------------------------------
// Decoder chain
// ---------------------------------------------------------------------------

/// The samples joined with newlines.
pub open spec fn joined(ss: Seq<Seq<char>>) -> Seq<char>
    decreases ss.len(),
{
    if ss.len() == 0 {
        Seq::empty()
    } else if ss.len() == 1 {
        ss[0]
    } else {
        joined(ss.drop_last()) + seq!['\n'] + ss.last()
    }
}

/// A whitespace token that is a `key=value` pair with a plain key.
pub open spec fn kv_word(w: Seq<char>) -> bool {
    match find(w, '=') {
        Some(i) => i > 0 && all(w.take(i), class_p(5)),
        None => false,
    }
}

pub open spec fn count_kv(ws: Seq<Seq<char>>) -> nat
    decreases ws.len(),
{
    if ws.len() == 0 { 0 } else { count_kv(ws.drop_last()) + if kv_word(ws.last()) { 1nat } else { 0nat } }
}

fn count_kv_pairs(s: &[char]) -> (r: usize)
    ensures
        r == count_kv(words(s@)),
{
    let ws = word_ranges(s, 0, s.len());
    assert(s@.subrange(0, s@.len() as int) == s@);
    let ghost all_words = words(s@);
    let mut n: usize = 0;
    let mut k: usize = 0;
    while k < ws.len()
        invariant
            k <= ws@.len(),
            ws@.len() == all_words.len(),
            all_words == words(s@),
            forall|j: int| 0 <= j < ws@.len() ==> {
                &&& (#[trigger] ws@[j]).0 < ws@[j].1 <= s@.len()
                &&& s@.subrange(ws@[j].0 as int, ws@[j].1 as int) == all_words[j]
            },
            n == count_kv(all_words.take(k as int)),
            n <= k,
        decreases ws@.len() - k,
    {
        let (a, b) = ws[k];
        let ghost w = all_words[k as int];
        assert(part(s@, a as int, b as int) == w);
        let is_kv = match find_char(s, a, b, '=') {
            Some(i) => {
                assert(w.take(i - a) == part(s@, a as int, i as int));
                i > a && all_in(s, a, i, 5)
            },
            None => false,
        };
        assert(is_kv == kv_word(w));
        assert(all_words.take(k + 1).drop_last() == all_words.take(k as int));
        if is_kv {
            n += 1;
        }
        k += 1;
    }
    assert(all_words.take(ws@.len() as int) == all_words);
    n
}

/// The month abbreviations a syslog timestamp starts with.
pub open spec fn months() -> Seq<Seq<char>> {
    calendar_words().take(12)
}

/// The decoder chain the shape of the samples calls for: `syslog` first
/// when the first sample is syslog-framed (a `<PRI>` or a month as its
/// first word); then the body format, by the first test that holds: `CEF:`
/// or `LEEF:` anywhere, a JSON object, XML, two `key=value` pairs, five
/// commas in the first sample; `keyvalue` when nothing else was chosen.
pub open spec fn decoder_chain(samples: Seq<Seq<char>>) -> Seq<Seq<char>> {
    let j = joined(samples);
    let first = if samples.len() > 0 { samples[0] } else { Seq::empty() };
    let fw = words(first);
    let framed = (first.len() > 0 && first[0] == '<') || (fw.len() > 0 && months().contains(lower_seq(fw[0])));
    let head: Seq<Seq<char>> = if framed { seq!["syslog"@] } else { Seq::empty() };
    let t = trim_start(first);
    let body: Seq<Seq<char>> = if find_seq(j, "CEF:"@) is Some {
        seq!["cef"@]
    } else if find_seq(j, "LEEF:"@) is Some {
        seq!["leef"@]
    } else if t.len() > 0 && t[0] == '{' {
        seq!["json"@]
    } else if t.len() > 0 && t[0] == '<' && find_seq(first, "</"@) is Some {
        seq!["xml"@]
    } else if count_kv(words(j)) >= 2 {
        seq!["keyvalue"@]
    } else if crate::decode::salvage::count(first, ',') >= 5 {
        seq!["csv"@]
    } else {
        Seq::empty()
    };
    if head.len() + body.len() == 0 { seq!["keyvalue"@] } else { head + body }
}

pub open spec fn statics(v: Seq<&'static str>) -> Seq<Seq<char>> {
    v.map_values(|s: &'static str| s@)
}

/// Decide the decoder chain from the shape of the samples.
pub fn infer_decoders(samples: &[String]) -> (r: Vec<&'static str>)
    ensures
        statics(r@) == decoder_chain(strings(samples@)),
{
    let ghost ss = strings(samples@);
    // The joined text.
    let mut j: Vec<char> = Vec::new();
    let mut k: usize = 0;
    while k < samples.len()
        invariant
            k <= samples@.len(),
            ss == strings(samples@),
            j@ == joined(ss.take(k as int)),
        decreases samples@.len() - k,
    {
        let sc = chars_of(samples[k].as_str());
        if k > 0 {
            j.push('\n');
        }
        let ghost before = j@;
        let mut i: usize = 0;
        while i < sc.len()
            invariant
                i <= sc@.len(),
                j@ == before + sc@.take(i as int),
            decreases sc@.len() - i,
        {
            j.push(sc[i]);
            assert(sc@.take(i + 1) == sc@.take(i as int).push(sc@[i as int]));
            i += 1;
        }
        assert(sc@.take(sc@.len() as int) == sc@);
        assert(ss.take(k + 1).drop_last() == ss.take(k as int));
        assert(ss.take(k + 1).last() == ss[k as int]);
        if k == 0 {
            assert(ss.take(1).len() == 1);
            assert(ss.take(0) == Seq::<Seq<char>>::empty());
        }
        k += 1;
    }
    assert(ss.take(samples@.len() as int) == ss);
    let first: Vec<char> = if samples.len() > 0 { chars_of(samples[0].as_str()) } else { Vec::new() };
    assert(first@ == (if ss.len() > 0 { ss[0] } else { Seq::<char>::empty() }));
    let fn_ = first.len();
    assert(first@.subrange(0, fn_ as int) == first@);
    assert(j@.subrange(0, j@.len() as int) == j@);
    let mut chain: Vec<&'static str> = Vec::new();
    // Framing.
    let mut framed = fn_ > 0 && first[0] == '<';
    if !framed {
        let fw = word_ranges(&first, 0, fn_);
        if fw.len() > 0 {
            let (a, b) = fw[0];
            framed = is_calendar(&first, a, b, 12);
        }
    }
    if framed {
        chain.push("syslog");
    }
    let t0 = skip_ws(&first, 0, fn_);
    assert(part(first@, t0 as int, fn_ as int) == trim_start(first@));
    let cef = chars_of("CEF:");
    let leef = chars_of("LEEF:");
    let close = chars_of("</");
    if find_str(&j, 0, j.len(), &cef).is_some() {
        chain.push("cef");
    } else if find_str(&j, 0, j.len(), &leef).is_some() {
        chain.push("leef");
    } else if t0 < fn_ && first[t0] == '{' {
        chain.push("json");
    } else if t0 < fn_ && first[t0] == '<' && find_str(&first, 0, fn_, &close).is_some() {
        chain.push("xml");
    } else if count_kv_pairs(&j) >= 2 {
        chain.push("keyvalue");
    } else if crate::decode::salvage::count_char(&first, 0, fn_, ',') >= 5 {
        chain.push("csv");
    }
    if chain.len() == 0 {
        chain.push("keyvalue");
    }
    assert(statics(chain@) =~= decoder_chain(ss));
    chain
}


// ---------------------------------------------------------------------------
// Detectors
// ---------------------------------------------------------------------------

/// What one token of the first sample offers as a detector: the key of a
/// `key=value` pair with a field-like key (as `key=`); otherwise the token,
/// if it is a stable literal.
pub open spec fn detector_cand(token: Seq<char>) -> Option<Seq<char>> {
    match find(token, '=') {
        Some(i) => if field_key(token.take(i)) {
            Some(token.take(i) + "="@)
        } else if stable_literal(token) {
            Some(token)
        } else {
            None
        },
        None => if stable_literal(token) { Some(token) } else { None },
    }
}

pub open spec fn detector_cands(ws: Seq<Seq<char>>) -> Seq<Seq<char>>
    decreases ws.len(),
{
    if ws.len() == 0 {
        Seq::empty()
    } else {
        detector_cands(ws.drop_last()) + match detector_cand(ws.last()) {
            Some(c) => seq![c],
            None => Seq::<Seq<char>>::empty(),
        }
    }
}

/// Present in every sample after the first.
pub open spec fn in_rest(samples: Seq<Seq<char>>, t: Seq<char>) -> bool {
    forall|k: int| 1 <= k < samples.len() ==> find_seq(#[trigger] samples[k], t) is Some
}

/// The candidates of the first `n` words of the first sample that every
/// other sample contains.
pub open spec fn shared_upto(samples: Seq<Seq<char>>, n: int) -> Set<Seq<char>> {
    Set::new(|t: Seq<char>| samples.len() > 0 && detector_cands(words(samples[0]).take(n)).contains(t) && in_rest(samples, t))
}

/// The detector literals of a cluster: the candidates of the first sample
/// that every sample contains.
pub open spec fn shared_literals(samples: Seq<Seq<char>>) -> Set<Seq<char>> {
    shared_upto(samples, if samples.len() > 0 { words(samples[0]).len() as int } else { 0 })
}

proof fn lemma_cands_step(ws: Seq<Seq<char>>, w: int)
    requires
        0 <= w < ws.len(),
    ensures
        detector_cands(ws.take(w + 1)) == detector_cands(ws.take(w)) + match detector_cand(ws[w]) {
            Some(c) => seq![c],
            None => Seq::<Seq<char>>::empty(),
        },
{
    assert(ws.take(w + 1).drop_last() == ws.take(w));
    assert(ws.take(w + 1).last() == ws[w]);
}

pub(crate) proof fn lemma_contains_push(a: Seq<Seq<char>>, c: Seq<char>, t: Seq<char>)
    ensures
        a.push(c).contains(t) <==> (a.contains(t) || t == c),
{
    if a.contains(t) {
        let i = choose|i: int| 0 <= i < a.len() && a[i] == t;
        assert(a.push(c)[i] == t);
    }
    if t == c {
        assert(a.push(c)[a.len() as int] == c);
    }
    if a.push(c).contains(t) {
        let i = choose|i: int| 0 <= i < a.len() + 1 && a.push(c)[i] == t;
        if i < a.len() {
            assert(a[i] == t);
        }
    }
}

/// `(text, bytes)` of `s[lo..hi]`, with `=` appended when `eq`.
pub(crate) fn candidate_of(s: &[char], lo: usize, hi: usize, eq: bool) -> (r: (Vec<char>, usize))
    requires
        lo <= hi <= s@.len(),
        eq ==> hi < s@.len(),
        utf8_len(s@) <= usize::MAX,
    ensures
        r.0@ == if eq { part(s@, lo as int, hi as int) + "="@ } else { part(s@, lo as int, hi as int) },
        r.1 == utf8_len(r.0@),
{
    let mut v: Vec<char> = Vec::new();
    let mut i = lo;
    while i < hi
        invariant
            lo <= i <= hi <= s@.len(),
            v@ == part(s@, lo as int, i as int),
        decreases hi - i,
    {
        v.push(s[i]);
        assert(part(s@, lo as int, i + 1) == part(s@, lo as int, i as int).push(s@[i as int]));
        i += 1;
    }
    proof {
        lemma_utf8_len_sub(s@, lo as int, hi as int);
        if eq {
            lemma_utf8_len_sub(s@, lo as int, hi + 1);
            assert(part(s@, lo as int, hi + 1).drop_last() == part(s@, lo as int, hi as int));
            assert(utf8_len(part(s@, lo as int, hi + 1)) == utf8_len(part(s@, lo as int, hi as int)) + crate::text::utf8_width(part(s@, lo as int, hi + 1).last()));
        }
    }
    let n = byte_len(s, lo, hi);
    if eq {
        let ghost before = v@;
        v.push('=');
        proof {
            reveal_strlit("=");
            assert("="@ =~= seq!['=']);
            assert(v@ =~= before + seq!['=']);
            crate::text::lemma_utf8_len_concat(before, seq!['=']);
            assert(seq!['='].drop_last() == Seq::<char>::empty());
            assert(utf8_len(Seq::<char>::empty()) == 0);
            assert(utf8_len(seq!['=']) == 1);
        }
        assert(v@ == before + "="@);
        (v, n + 1)
    } else {
        (v, n)
    }
}

/// `detector_cand(s[lo..hi])`.
fn detector_cand_at(s: &[char], lo: usize, hi: usize) -> (r: Option<(Vec<char>, usize)>)
    requires
        lo <= hi <= s@.len(),
        utf8_len(s@) <= usize::MAX,
    ensures
        match detector_cand(part(s@, lo as int, hi as int)) {
            Some(c) => r matches Some(x) && x.0@ == c && x.1 == utf8_len(c),
            None => r is None,
        },
{
    let ghost t = part(s@, lo as int, hi as int);
    match find_char(s, lo, hi, '=') {
        Some(i) => {
            assert(t.take(i - lo) == part(s@, lo as int, i as int));
            if field_key_at(s, lo, i) {
                return Some(candidate_of(s, lo, i, true));
            }
        },
        None => {},
    }
    if stable_at(s, lo, hi) {
        Some(candidate_of(s, lo, hi, false))
    } else {
        None
    }
}

/// Derive the `contains_all` literals that will claim this source: from
/// the first sample's tokens, keys of `key=value` pairs (as `key=`) and
/// stable literals, kept when every sample contains them; ranked tags
/// before field names, longer first, then alphabetically; the best three.
pub fn derive_detectors(samples: &[String]) -> (r: Vec<String>)
    ensures
        top(true, strings_of(r@), shared_literals(strings(samples@)), 3),
{
    let ghost ss = strings(samples@);
    let mut acc: Vec<(Vec<char>, usize)> = Vec::new();
    assert(texts(acc@).to_set() =~= Set::<Seq<char>>::empty());
    if samples.len() == 0 {
        assert(shared_literals(ss) =~= Set::<Seq<char>>::empty());
        return take_top(&acc, true, 3);
    }
    let mut others: Vec<Vec<char>> = Vec::new();
    let mut k: usize = 1;
    while k < samples.len()
        invariant
            1 <= k <= samples@.len(),
            ss == strings(samples@),
            others@.len() == k - 1,
            forall|j: int| 0 <= j < others@.len() ==> (#[trigger] others@[j])@ == ss[j + 1],
        decreases samples@.len() - k,
    {
        others.push(chars_of(samples[k].as_str()));
        k += 1;
    }
    let first = chars_sized(samples[0].as_str());
    let n = first.len();
    let ws = word_ranges(&first, 0, n);
    assert(first@.subrange(0, n as int) == first@);
    let ghost all_words = words(first@);
    let mut w: usize = 0;
    assert(all_words.take(0) == Seq::<Seq<char>>::empty());
    assert(shared_upto(ss, 0) =~= Set::<Seq<char>>::empty());
    while w < ws.len()
        invariant
            w <= ws@.len() == all_words.len(),
            all_words == words(first@),
            first@ == ss[0],
            ss == strings(samples@),
            samples@.len() >= 1,
            utf8_len(first@) <= usize::MAX,
            others@.len() == samples@.len() - 1,
            forall|j: int| 0 <= j < others@.len() ==> (#[trigger] others@[j])@ == ss[j + 1],
            forall|j: int| 0 <= j < ws@.len() ==> {
                &&& (#[trigger] ws@[j]).0 < ws@[j].1 <= first@.len()
                &&& first@.subrange(ws@[j].0 as int, ws@[j].1 as int) == all_words[j]
            },
            ranked(true, texts(acc@)),
            sized(acc@),
            texts(acc@).to_set() == shared_upto(ss, w as int),
        decreases ws@.len() - w,
    {
        let (a, b) = ws[w];
        let ghost word = all_words[w as int];
        assert(part(first@, a as int, b as int) == word);
        assert(all_words.take(w + 1).drop_last() == all_words.take(w as int));
        assert(all_words.take(w + 1).last() == word);
        let ghost before = texts(acc@).to_set();
        match detector_cand_at(&first, a, b) {
            Some(c) => {
                let mut everywhere = true;
                let mut o: usize = 0;
                while o < others.len()
                    invariant
                        o <= others@.len() == samples@.len() - 1,
                        forall|j: int| 0 <= j < others@.len() ==> (#[trigger] others@[j])@ == ss[j + 1],
                        everywhere == forall|j: int| 1 <= j < o + 1 ==> find_seq(#[trigger] ss[j], c.0@) is Some,
                    decreases others@.len() - o,
                {
                    let oc = &others[o];
                    assert(oc@.subrange(0, oc@.len() as int) == oc@);
                    let found = find_str(oc.as_slice(), 0, oc.len(), c.0.as_slice()).is_some();
                    assert(found == (find_seq(ss[o + 1], c.0@) is Some));
                    if !found {
                        everywhere = false;
                    }
                    o += 1;
                }
                assert(everywhere == in_rest(ss, c.0@));
                let ghost cv = c.0@;
                proof {
                    lemma_cands_step(all_words, w as int);
                    assert(detector_cands(all_words.take(w + 1)) =~= detector_cands(all_words.take(w as int)).push(cv));
                    assert forall|t: Seq<char>| detector_cands(all_words.take(w + 1)).contains(t)
                        <==> (detector_cands(all_words.take(w as int)).contains(t) || t == cv) by {
                        lemma_contains_push(detector_cands(all_words.take(w as int)), cv, t);
                    }
                }
                if everywhere {
                    assert(before == shared_upto(ss, w as int));
                    assert(in_rest(ss, cv));
                    assert forall|t: Seq<char>| #[trigger] shared_upto(ss, w + 1).contains(t) <==> before.insert(cv).contains(t) by {
                        assert(shared_upto(ss, w + 1).contains(t) == (ss.len() > 0 && detector_cands(all_words.take(w + 1)).contains(t) && in_rest(ss, t)));
                        assert(shared_upto(ss, w as int).contains(t) == (ss.len() > 0 && detector_cands(all_words.take(w as int)).contains(t) && in_rest(ss, t)));
                        assert(detector_cands(all_words.take(w + 1)).contains(t) <==> (detector_cands(all_words.take(w as int)).contains(t) || t == cv));
                    }
                    insert_ranked(&mut acc, true, c);
                    assert(texts(acc@).to_set() =~= shared_upto(ss, w + 1));
                } else {
                    assert(texts(acc@).to_set() =~= shared_upto(ss, w + 1));
                }
            },
            None => {
                proof {
                    lemma_cands_step(all_words, w as int);
                }
                assert(detector_cands(all_words.take(w + 1)) =~= detector_cands(all_words.take(w as int)));
                assert(texts(acc@).to_set() =~= shared_upto(ss, w + 1));
            },
        }
        w += 1;
    }
    assert(all_words.take(ws@.len() as int) == all_words);
    take_top(&acc, true, 3)
}


// ---------------------------------------------------------------------------
// Laws of the detectors
// ---------------------------------------------------------------------------

/// A text that occurs in `s` is found in it.
pub proof fn lemma_occurs_found(s: Seq<char>, p: Seq<char>, a: int)
    requires
        0 <= a,
        a + p.len() <= s.len(),
        s.subrange(a, a + p.len()) == p,
    ensures
        find_seq(s, p) is Some,
    decreases a,
{
    if a == 0 {
        assert(is_prefix(p, s));
    } else if !is_prefix(p, s) {
        assert(s.drop_first().subrange(a - 1, a - 1 + p.len()) == p);
        lemma_occurs_found(s.drop_first(), p, a - 1);
    }
}

/// Each word of `s` is a piece of it.
proof fn lemma_words_in(s: Seq<char>)
    ensures
        forall|k: int| 0 <= k < words(s).len() ==> exists|a: int, b: int| 0 <= a <= b <= s.len() && s.subrange(a, b) == #[trigger] words(s)[k],
    decreases s.len(),
{
    crate::text::lemma_lead_stop(s, crate::text::ws_p());
    let l = crate::text::lead(s, crate::text::ws_p()) as int;
    let t = trim_start(s);
    if t.len() > 0 {
        lemma_find_p(t, crate::text::ws_p());
        match crate::text::find_p(t, crate::text::ws_p()) {
            None => {
                assert(words(s)[0] == s.subrange(l, s.len() as int));
            },
            Some(i) => {
                let rest = t.skip(i);
                lemma_words_in(rest);
                assert forall|k: int| 0 <= k < words(s).len() implies exists|a: int, b: int| 0 <= a <= b <= s.len() && s.subrange(a, b) == #[trigger] words(s)[k] by {
                    if k == 0 {
                        assert(s.subrange(l, l + i) == words(s)[0]);
                    } else {
                        assert(words(s)[k] == words(rest)[k - 1]);
                        let (a, b) = choose|a: int, b: int| 0 <= a <= b <= rest.len() && rest.subrange(a, b) == #[trigger] words(rest)[k - 1];
                        assert(s.subrange(l + i + a, l + i + b) == rest.subrange(a, b));
                    }
                }
            },
        }
    }
}

proof fn lemma_cands_from(ws: Seq<Seq<char>>, t: Seq<char>)
    requires
        detector_cands(ws).contains(t),
    ensures
        exists|k: int| 0 <= k < ws.len() && detector_cand(#[trigger] ws[k]) == Some(t),
    decreases ws.len(),
{
    let prev = detector_cands(ws.drop_last());
    lemma_contains_push(prev, t, t);
    match detector_cand(ws.last()) {
        Some(c) => {
            lemma_contains_push(prev, c, t);
            assert(detector_cands(ws) == prev.push(c));
            if t == c {
                assert(detector_cand(ws[ws.len() - 1]) == Some(t));
            } else {
                lemma_cands_from(ws.drop_last(), t);
                let k = choose|k: int| 0 <= k < ws.drop_last().len() && detector_cand(#[trigger] ws.drop_last()[k]) == Some(t);
                assert(ws[k] == ws.drop_last()[k]);
            }
        },
        None => {
            assert(detector_cands(ws) == prev + Seq::<Seq<char>>::empty());
            assert(prev + Seq::<Seq<char>>::empty() == prev);
            lemma_cands_from(ws.drop_last(), t);
            let k = choose|k: int| 0 <= k < ws.drop_last().len() && detector_cand(#[trigger] ws.drop_last()[k]) == Some(t);
            assert(ws[k] == ws.drop_last()[k]);
        },
    }
}

/// Every detector literal of a cluster occurs in every sample of it.
pub proof fn detectors_occur_in_every_sample(samples: Seq<Seq<char>>, t: Seq<char>)
    requires
        shared_literals(samples).contains(t),
    ensures
        forall|k: int| 0 <= k < samples.len() ==> find_seq(#[trigger] samples[k], t) is Some,
{
    let s0 = samples[0];
    let ws = words(s0);
    assert(ws.take(ws.len() as int) == ws);
    lemma_cands_from(ws, t);
    let k = choose|k: int| 0 <= k < ws.len() && detector_cand(#[trigger] ws[k]) == Some(t);
    let w = ws[k];
    lemma_words_in(s0);
    let (a, b) = choose|a: int, b: int| 0 <= a <= b <= s0.len() && s0.subrange(a, b) == #[trigger] ws[k];
    match find(w, '=') {
        Some(i) if field_key(w.take(i)) => {
            lemma_find_p(w, crate::text::eq_char('='));
            reveal_strlit("=");
            assert(t == w.take(i + 1));
            assert(s0.subrange(a, a + i + 1) == t);
        },
        _ => {
            assert(t == w);
        },
    }
    lemma_occurs_found(s0, t, a);
}

// ---------------------------------------------------------------------------
// Field mapping by naming convention
// ---------------------------------------------------------------------------

/// The OCSF attribute each rule targets, in the order the rules are tried.
pub open spec fn rule_paths() -> Seq<Seq<char>> {
    seq!["src_endpoint.port"@, "dst_endpoint.port"@, "src_endpoint.ip"@, "dst_endpoint.ip"@, "connection_info.protocol_name"@, "device.hostname"@, "actor.user.name"@, "url.url_string"@, "message"@]
}

/// Every rule's source-name patterns, rule after rule, more specific
/// spellings first.
pub open spec fn pattern_list() -> Seq<Seq<char>> {
    seq!["srcport"@, "src_port"@, "src_prt"@, "sport"@, "spt"@, "sourceport"@, "dstport"@, "dst_port"@, "dst_prt"@, "dport"@, "dpt"@, "destport"@, "destinationport"@, "srcip"@, "src_ip"@, "src_addr"@, "saddr"@, "sourceip"@, "source_ip"@, "src"@, "dstip"@, "dst_ip"@, "dst_addr"@, "daddr"@, "destip"@, "destination_ip"@, "dst"@, "proto"@, "protocol"@, "ipproto"@, "transport"@, "devname"@, "hostname"@, "host"@, "device"@, "dvchost"@, "devid"@, "user"@, "username"@, "usr"@, "suser"@, "srcuser"@, "account"@, "url"@, "request"@, "uri"@, "requesturl"@, "cs_uri"@, "msg"@, "message"@, "evt"@, "event"@, "reason"@, "description"@]
}

/// Where each rule's patterns start in [`pattern_list`].
pub open spec fn rule_starts() -> Seq<int> {
    seq![0int, 6, 13, 20, 27, 31, 37, 43, 48, 54]
}

pub open spec fn patterns_of(r: int) -> Seq<Seq<char>> {
    pattern_list().subrange(rule_starts()[r], rule_starts()[r + 1])
}

/// `s` lowered, keeping only ASCII letters and digits.
pub open spec fn normalise(s: Seq<char>) -> Seq<char>
    decreases s.len(),
{
    if s.len() == 0 {
        Seq::empty()
    } else {
        normalise(s.drop_last()) + if is_alnum(s.last()) { seq![lower(s.last())] } else { Seq::empty() }
    }
}

/// The first name from `i` that normalises to `target` and is not used.
pub open spec fn free_match(avail: Seq<Seq<char>>, target: Seq<char>, used: Seq<Seq<char>>, i: int) -> Option<int>
    decreases avail.len() - i,
{
    if i < 0 || i >= avail.len() {
        None
    } else if normalise(avail[i]) == target && !used.contains(avail[i]) {
        Some(i)
    } else {
        free_match(avail, target, used, i + 1)
    }
}

/// The name rule `r` picks: the first pattern (from `j`) some free name
/// matches.
pub open spec fn rule_pick(avail: Seq<Seq<char>>, r: int, used: Seq<Seq<char>>, j: int) -> Option<int>
    decreases patterns_of(r).len() - j,
{
    if j < 0 || j >= patterns_of(r).len() {
        None
    } else {
        match free_match(avail, normalise(patterns_of(r)[j]), used, 0) {
            Some(i) => Some(i),
            None => rule_pick(avail, r, used, j + 1),
        }
    }
}

/// The names picked so far.
pub open spec fn used_names(avail: Seq<Seq<char>>, p: Seq<Option<int>>) -> Seq<Seq<char>>
    decreases p.len(),
{
    if p.len() == 0 {
        Seq::empty()
    } else {
        used_names(avail, p.drop_last()) + match p.last() {
            Some(i) => seq![avail[i]],
            None => Seq::<Seq<char>>::empty(),
        }
    }
}

/// The picks of the first `n` rules, each blind to the names taken before.
pub open spec fn picks(avail: Seq<Seq<char>>, n: nat) -> Seq<Option<int>>
    decreases n,
{
    if n == 0 {
        Seq::empty()
    } else {
        let p = picks(avail, (n - 1) as nat);
        p.push(rule_pick(avail, n - 1, used_names(avail, p), 0))
    }
}

/// The rules in ascending order of their paths.
pub open spec fn path_order() -> Seq<int> {
    seq![6int, 4, 5, 3, 1, 8, 2, 0, 7]
}

/// The pairs of the first `k` rules of [`path_order`] that picked a name.
pub open spec fn emitted(avail: Seq<Seq<char>>, p: Seq<Option<int>>, k: nat) -> Seq<(Seq<char>, Seq<char>)>
    decreases k,
{
    if k == 0 {
        Seq::empty()
    } else {
        let r = path_order()[k - 1];
        emitted(avail, p, (k - 1) as nat) + match p[r] {
            Some(i) => seq![(rule_paths()[r], avail[i])],
            None => Seq::<(Seq<char>, Seq<char>)>::empty(),
        }
    }
}

/// The OCSF path -> source name map, in ascending path order.
pub open spec fn field_map(avail: Seq<Seq<char>>) -> Seq<(Seq<char>, Seq<char>)> {
    emitted(avail, picks(avail, 9), 9)
}

fn normalise_chars(s: &[char]) -> (r: Vec<char>)
    ensures
        r@ == normalise(s@),
{
    let mut out: Vec<char> = Vec::new();
    let mut i: usize = 0;
    while i < s.len()
        invariant
            i <= s@.len(),
            out@ == normalise(s@.take(i as int)),
        decreases s@.len() - i,
    {
        assert(s@.take(i + 1).drop_last() == s@.take(i as int));
        assert(s@.take(i + 1).last() == s@[i as int]);
        if alnum(s[i]) {
            out.push(to_lower(s[i]));
        }
        assert(out@ =~= normalise(s@.take(i + 1)));
        i += 1;
    }
    assert(s@.take(s@.len() as int) == s@);
    out
}

fn same(a: &[char], b: &[char]) -> (r: bool)
    ensures
        r == (a@ == b@),
{
    assert(a@.subrange(0, a@.len() as int) == a@);
    assert(b@.subrange(0, b@.len() as int) == b@);
    seq_eq(a, 0, a.len(), b, 0, b.len())
}

pub open spec fn char_vecs(v: Seq<Vec<char>>) -> Seq<Seq<char>> {
    v.map_values(|x: Vec<char>| x@)
}

/// `used.contains(name)`.
pub(crate) fn is_used(used: &Vec<Vec<char>>, name: &[char]) -> (r: bool)
    ensures
        r == char_vecs(used@).contains(name@),
{
    let mut i: usize = 0;
    while i < used.len()
        invariant
            i <= used@.len(),
            forall|j: int| 0 <= j < i ==> char_vecs(used@)[j] != name@,
        decreases used@.len() - i,
    {
        if same(used[i].as_slice(), name) {
            assert(char_vecs(used@)[i as int] == name@);
            return true;
        }
        i += 1;
    }
    false
}

/// The first free name from the start that normalises to `target`.
fn free_index(avail: &Vec<Vec<char>>, norm: &Vec<Vec<char>>, used: &Vec<Vec<char>>, target: &[char]) -> (r: Option<usize>)
    requires
        norm@.len() == avail@.len(),
        forall|q: int| 0 <= q < avail@.len() ==> (#[trigger] norm@[q])@ == normalise(avail@[q]@),
    ensures
        opt_int(r) == free_match(char_vecs(avail@), target@, char_vecs(used@), 0),
        r matches Some(x) ==> x < avail@.len(),
{
    let ghost av = char_vecs(avail@);
    let mut m: usize = 0;
    while m < avail.len()
        invariant
            m <= avail@.len() == norm@.len(),
            av == char_vecs(avail@),
            forall|q: int| 0 <= q < avail@.len() ==> (#[trigger] norm@[q])@ == normalise(avail@[q]@),
            free_match(av, target@, char_vecs(used@), 0) == free_match(av, target@, char_vecs(used@), m as int),
        decreases avail@.len() - m,
    {
        assert(av[m as int] == avail@[m as int]@);
        if same(norm[m].as_slice(), target) && !is_used(used, avail[m].as_slice()) {
            return Some(m);
        }
        m += 1;
    }
    None
}

pub open spec fn opt_int(o: Option<usize>) -> Option<int> {
    match o {
        Some(x) => Some(x as int),
        None => None,
    }
}

/// The name rule `r` picks.
fn pick_rule(avail: &Vec<Vec<char>>, norm: &Vec<Vec<char>>, used: &Vec<Vec<char>>, r: usize) -> (res: Option<usize>)
    requires
        r < 9,
        norm@.len() == avail@.len(),
        forall|q: int| 0 <= q < avail@.len() ==> (#[trigger] norm@[q])@ == normalise(avail@[q]@),
    ensures
        opt_int(res) == rule_pick(char_vecs(avail@), r as int, char_vecs(used@), 0),
        res matches Some(x) ==> x < avail@.len(),
{
    let flat: [&str; 54] = ["srcport", "src_port", "src_prt", "sport", "spt", "sourceport", "dstport", "dst_port", "dst_prt", "dport", "dpt", "destport", "destinationport", "srcip", "src_ip", "src_addr", "saddr", "sourceip", "source_ip", "src", "dstip", "dst_ip", "dst_addr", "daddr", "destip", "destination_ip", "dst", "proto", "protocol", "ipproto", "transport", "devname", "hostname", "host", "device", "dvchost", "devid", "user", "username", "usr", "suser", "srcuser", "account", "url", "request", "uri", "requesturl", "cs_uri", "msg", "message", "evt", "event", "reason", "description"];
    let starts: [usize; 10] = [0, 6, 13, 20, 27, 31, 37, 43, 48, 54];
    let ghost av = char_vecs(avail@);
    let ghost u = char_vecs(used@);
    assert(pattern_list() =~= flat@.map_values(|x: &str| x@));
    let lo = starts[r];
    let hi = starts[r + 1];
    assert(rule_starts()[r as int] == lo as int);
    assert(rule_starts()[r + 1] == hi as int);
    assert(patterns_of(r as int).len() == hi - lo);
    let mut j = lo;
    while j < hi
        invariant
            lo <= j <= hi <= 54,
            flat@.len() == 54,
            patterns_of(r as int) == pattern_list().subrange(lo as int, hi as int),
            pattern_list() == flat@.map_values(|x: &str| x@),
            av == char_vecs(avail@),
            u == char_vecs(used@),
            norm@.len() == avail@.len(),
            forall|q: int| 0 <= q < avail@.len() ==> (#[trigger] norm@[q])@ == normalise(avail@[q]@),
            rule_pick(av, r as int, u, 0) == rule_pick(av, r as int, u, j - lo),
        decreases hi - j,
    {
        let pc = chars_of(flat[j]);
        let target = normalise_chars(pc.as_slice());
        assert(patterns_of(r as int)[j - lo] == flat@[j as int]@);
        match free_index(avail, norm, used, target.as_slice()) {
            Some(x) => {
                return Some(x);
            },
            None => {},
        }
        j += 1;
    }
    None
}

proof fn lemma_used_push(av: Seq<Seq<char>>, p: Seq<Option<int>>, o: Option<int>)
    ensures
        used_names(av, p.push(o)) == used_names(av, p) + match o {
            Some(i) => seq![av[i]],
            None => Seq::<Seq<char>>::empty(),
        },
{
    assert(p.push(o).drop_last() == p);
    assert(p.push(o).last() == o);
}

/// Map the fields the samples contain onto OCSF by naming convention: for
/// each rule in turn, the first pattern that some not yet used name
/// matches (compared lowered, letters and digits only) picks the first
/// such name. A name is never used for two attributes.
pub fn infer_field_map(available: &[String]) -> (r: Vec<(String, String)>)
    ensures
        pair_strings(r@) == field_map(strings(available@)),
{
    let paths: [&str; 9] = ["src_endpoint.port", "dst_endpoint.port", "src_endpoint.ip", "dst_endpoint.ip", "connection_info.protocol_name", "device.hostname", "actor.user.name", "url.url_string", "message"];
    let order: [usize; 9] = [6, 4, 5, 3, 1, 8, 2, 0, 7];
    let mut avail: Vec<Vec<char>> = Vec::new();
    let mut norm: Vec<Vec<char>> = Vec::new();
    let mut i: usize = 0;
    while i < available.len()
        invariant
            i <= available@.len(),
            avail@.len() == i && norm@.len() == i,
            forall|j: int| 0 <= j < i ==> (#[trigger] avail@[j])@ == available@[j]@ && norm@[j]@ == normalise(avail@[j]@),
        decreases available@.len() - i,
    {
        let a = chars_of(available[i].as_str());
        norm.push(normalise_chars(a.as_slice()));
        avail.push(a);
        i += 1;
    }
    let ghost av = char_vecs(avail@);
    assert(av =~= strings(available@));
    let mut used: Vec<Vec<char>> = Vec::new();
    let mut picked: Vec<Option<usize>> = Vec::new();
    let mut r: usize = 0;
    assert(char_vecs(used@) =~= used_names(av, Seq::<Option<int>>::empty()));
    assert(opts(picked@) =~= picks(av, 0));
    while r < 9
        invariant
            r <= 9,
            av == char_vecs(avail@),
            norm@.len() == avail@.len(),
            forall|q: int| 0 <= q < avail@.len() ==> (#[trigger] norm@[q])@ == normalise(avail@[q]@),
            opts(picked@) == picks(av, r as nat),
            picked@.len() == r,
            forall|q: int| 0 <= q < r ==> ((#[trigger] picked@[q]) matches Some(x) ==> x < avail@.len()),
            char_vecs(used@) == used_names(av, picks(av, r as nat)),
        decreases 9 - r,
    {
        let found = pick_rule(&avail, &norm, &used, r);
        let ghost p0 = picks(av, r as nat);
        proof {
            lemma_used_push(av, p0, opt_int(found));
        }
        match found {
            Some(x) => {
                let name = avail[x].clone();
                let ghost before = used@;
                used.push(name);
                assert(char_vecs(used@) =~= char_vecs(before).push(av[x as int]));
            },
            None => {},
        }
        picked.push(found);
        assert(opts(picked@) =~= picks(av, (r + 1) as nat));
        assert(char_vecs(used@) =~= used_names(av, picks(av, (r + 1) as nat)));
        r += 1;
    }
    let mut out: Vec<(String, String)> = Vec::new();
    let mut k: usize = 0;
    assert(pair_strings(out@) =~= emitted(av, picks(av, 9), 0));
    while k < 9
        invariant
            k <= 9,
            order@ == seq![6usize, 4, 5, 3, 1, 8, 2, 0, 7],
            paths@.len() == 9,
            forall|q: int| 0 <= q < 9 ==> (#[trigger] paths@[q])@ == rule_paths()[q],
            opts(picked@) == picks(av, 9),
            picked@.len() == 9,
            forall|q: int| 0 <= q < 9 ==> ((#[trigger] picked@[q]) matches Some(x) ==> x < avail@.len()),
            av == char_vecs(avail@),
            pair_strings(out@) == emitted(av, picks(av, 9), k as nat),
        decreases 9 - k,
    {
        let rr = order[k];
        assert(path_order()[k as int] == rr as int);
        assert(opts(picked@)[rr as int] == opt_int(picked@[rr as int]));
        match picked[rr] {
            Some(x) => {
                let ghost before = out@;
                out.push((crate::text::owned(paths[rr]), crate::text::string_of(avail[x].as_slice())));
                assert(pair_strings(out@) =~= pair_strings(before).push((rule_paths()[rr as int], av[x as int])));
            },
            None => {},
        }
        assert(pair_strings(out@) =~= emitted(av, picks(av, 9), (k + 1) as nat));
        k += 1;
    }
    out
}

// ---------------------------------------------------------------------------
// Laws of the field mapping
// ---------------------------------------------------------------------------

proof fn lemma_free_match(avail: Seq<Seq<char>>, target: Seq<char>, used: Seq<Seq<char>>, i: int)
    ensures
        free_match(avail, target, used, i) matches Some(x) ==> 0 <= x < avail.len() && !used.contains(avail[x]),
    decreases avail.len() - i,
{
    if 0 <= i < avail.len() && !(normalise(avail[i]) == target && !used.contains(avail[i])) {
        lemma_free_match(avail, target, used, i + 1);
    }
}

proof fn lemma_rule_pick(avail: Seq<Seq<char>>, r: int, used: Seq<Seq<char>>, j: int)
    ensures
        rule_pick(avail, r, used, j) matches Some(x) ==> 0 <= x < avail.len() && !used.contains(avail[x]),
    decreases patterns_of(r).len() - j,
{
    if 0 <= j < patterns_of(r).len() {
        lemma_free_match(avail, normalise(patterns_of(r)[j]), used, 0);
        lemma_rule_pick(avail, r, used, j + 1);
    }
}

/// The picks of the first `n` rules are a prefix of the picks of more.
proof fn lemma_picks_prefix(avail: Seq<Seq<char>>, n: nat, m: nat)
    requires
        m <= n,
    ensures
        picks(avail, n).len() == n,
        picks(avail, n).take(m as int) == picks(avail, m),
    decreases n,
{
    if n > 0 {
        lemma_picks_prefix(avail, (n - 1) as nat, if m < n { m } else { (n - 1) as nat });
        if m == n {
            assert(picks(avail, n).take(m as int) == picks(avail, n));
        } else {
            assert(picks(avail, n).take(m as int) == picks(avail, (n - 1) as nat).take(m as int));
        }
    }
}

/// Each name picked is among the names used from then on.
proof fn lemma_used_contains(avail: Seq<Seq<char>>, p: Seq<Option<int>>, r: int)
    requires
        0 <= r < p.len(),
        p[r] is Some,
    ensures
        used_names(avail, p).contains(avail[p[r]->Some_0]),
    decreases p.len(),
{
    let x = avail[p[r]->Some_0];
    if r == p.len() - 1 {
        assert(used_names(avail, p) == used_names(avail, p.drop_last()) + seq![x]);
        assert(used_names(avail, p)[used_names(avail, p.drop_last()).len() as int] == x);
    } else {
        lemma_used_contains(avail, p.drop_last(), r);
        let u = used_names(avail, p.drop_last());
        let k = choose|k: int| 0 <= k < u.len() && u[k] == x;
        assert(used_names(avail, p)[k] == x);
    }
}

/// Two rules never pick the same name.
proof fn lemma_picks_distinct(avail: Seq<Seq<char>>, r1: int, r2: int)
    requires
        0 <= r1 < r2 < 9,
        picks(avail, 9)[r1] is Some,
        picks(avail, 9)[r2] is Some,
    ensures
        avail[picks(avail, 9)[r1]->Some_0] != avail[picks(avail, 9)[r2]->Some_0],
{
    let p = picks(avail, 9);
    lemma_picks_prefix(avail, 9, (r2 + 1) as nat);
    lemma_picks_prefix(avail, (r2 + 1) as nat, r2 as nat);
    let before = picks(avail, r2 as nat);
    assert(p[r2] == picks(avail, (r2 + 1) as nat)[r2]);
    assert(picks(avail, (r2 + 1) as nat)[r2] == rule_pick(avail, r2, used_names(avail, before), 0));
    lemma_rule_pick(avail, r2, used_names(avail, before), 0);
    lemma_picks_prefix(avail, 9, r2 as nat);
    assert(before[r1] == p[r1]);
    lemma_used_contains(avail, before, r1);
}

/// What the first `k` emitted pairs are made of.
spec fn emitted_from(avail: Seq<Seq<char>>, p: Seq<Option<int>>, k: nat, e: (Seq<char>, Seq<char>)) -> bool {
    exists|q: int| 0 <= q < k && #[trigger] p[path_order()[q]] is Some && e.1 == avail[p[path_order()[q]]->Some_0]
}

proof fn lemma_emitted_distinct(avail: Seq<Seq<char>>, k: nat)
    requires
        k <= 9,
    ensures
        forall|a: int| 0 <= a < emitted(avail, picks(avail, 9), k).len() ==> emitted_from(avail, picks(avail, 9), k, #[trigger] emitted(avail, picks(avail, 9), k)[a]),
        forall|a: int, b: int| 0 <= a < b < emitted(avail, picks(avail, 9), k).len() ==> (#[trigger] emitted(avail, picks(avail, 9), k)[a]).1 != (#[trigger] emitted(avail, picks(avail, 9), k)[b]).1,
    decreases k,
{
    let p = picks(avail, 9);
    lemma_picks_prefix(avail, 9, 9);
    if k > 0 {
        lemma_emitted_distinct(avail, (k - 1) as nat);
        let prev = emitted(avail, p, (k - 1) as nat);
        let cur = emitted(avail, p, k);
        let r = path_order()[k - 1];
        assert forall|a: int| 0 <= a < prev.len() implies emitted_from(avail, p, k, #[trigger] prev[a]) by {
            assert(emitted_from(avail, p, (k - 1) as nat, prev[a]));
            let q = choose|q: int| 0 <= q < k - 1 && #[trigger] p[path_order()[q]] is Some && prev[a].1 == avail[p[path_order()[q]]->Some_0];
            assert(p[path_order()[q]] is Some);
        }
        match p[r] {
            Some(i) => {
                let x = (rule_paths()[r], avail[i]);
                assert(cur == prev.push(x));
                assert(emitted_from(avail, p, k, x)) by {
                    assert(p[path_order()[k - 1]] is Some);
                }
                assert forall|a: int| 0 <= a < prev.len() implies (#[trigger] prev[a]).1 != x.1 by {
                    assert(emitted_from(avail, p, (k - 1) as nat, prev[a]));
                    let q = choose|q: int| 0 <= q < k - 1 && #[trigger] p[path_order()[q]] is Some && prev[a].1 == avail[p[path_order()[q]]->Some_0];
                    let rq = path_order()[q];
                    assert(rq != r);
                    if rq < r {
                        lemma_picks_distinct(avail, rq, r);
                    } else {
                        lemma_picks_distinct(avail, r, rq);
                    }
                }
                assert forall|a: int| 0 <= a < cur.len() implies emitted_from(avail, p, k, #[trigger] cur[a]) by {
                    if a < prev.len() {
                        assert(cur[a] == prev[a]);
                    }
                }
                assert forall|a: int, b: int| 0 <= a < b < cur.len() implies (#[trigger] cur[a]).1 != (#[trigger] cur[b]).1 by {
                    if b == prev.len() {
                        assert(cur[a] == prev[a]);
                    } else {
                        assert(cur[a] == prev[a] && cur[b] == prev[b]);
                    }
                }
            },
            None => {
                assert(cur == prev);
            },
        }
    }
}

/// No source name is mapped onto two OCSF attributes.
pub proof fn a_source_name_is_never_reused(avail: Seq<Seq<char>>)
    ensures
        forall|a: int, b: int| 0 <= a < b < field_map(avail).len() ==> (#[trigger] field_map(avail)[a]).1 != (#[trigger] field_map(avail)[b]).1,
{
    lemma_emitted_distinct(avail, 9);
}

pub open spec fn opts(v: Seq<Option<usize>>) -> Seq<Option<int>> {
    v.map_values(|o: Option<usize>| match o {
        Some(x) => Some(x as int),
        None => None,
    })
}

pub open spec fn pair_strings(v: Seq<(String, String)>) -> Seq<(Seq<char>, Seq<char>)> {
    v.map_values(|p: (String, String)| (p.0@, p.1@))
}


/// Why no JSON object could be taken from a model reply.
#[derive(Debug, Clone, Copy, PartialEq, Eq, Structural)]
pub enum ReplyError {
    /// The reply holds no `{`.
    NoObject,
    /// The reply holds no `}`.
    NoClosingBrace,
    /// The last `}` comes before the first `{`.
    Malformed,
}

/// The JSON object a model reply carries: the trimmed reply from its first
/// `{` through its last `}`. Models wrap their answer in prose or a code
/// fence; this is what is left for the JSON parser.
pub open spec fn object_span(raw: Seq<char>) -> Result<Seq<char>, ReplyError> {
    let t = trim(raw);
    match find(t, '{') {
        None => Err(ReplyError::NoObject),
        Some(start) => match crate::decode::salvage::rfind(t, '}') {
            None => Err(ReplyError::NoClosingBrace),
            Some(end) => if end <= start {
                Err(ReplyError::Malformed)
            } else {
                Ok(t.subrange(start, end + 1))
            },
        },
    }
}

/// The text of the JSON object in a model reply, for the caller to parse.
pub fn json_object_text(raw: &str) -> (r: Result<String, ReplyError>)
    ensures
        match r {
            Ok(s) => object_span(raw@) == Ok::<Seq<char>, ReplyError>(s@),
            Err(e) => object_span(raw@) == Err::<Seq<char>, ReplyError>(e),
        },
{
    let cs = chars_of(raw);
    let (lo, hi) = trim_range(&cs, 0, cs.len());
    assert(cs@.subrange(0, cs@.len() as int) == raw@);
    let ghost t = cs@.subrange(lo as int, hi as int);
    proof {
        crate::decode::salvage::lemma_rfind(t, '}');
    }
    let start = match find_char(&cs, lo, hi, '{') {
        None => return Err(ReplyError::NoObject),
        Some(i) => i,
    };
    let end = match crate::decode::salvage::rfind_char(&cs, lo, hi, '}') {
        None => return Err(ReplyError::NoClosingBrace),
        Some(j) => j,
    };
    if end <= start {
        return Err(ReplyError::Malformed);
    }
    assert(t.subrange(start - lo, end + 1 - lo) == cs@.subrange(start as int, end + 1));
    Ok(crate::text::string_range(&cs, start, end + 1))
}


// ---------------------------------------------------------------------------
// Prompt
// ---------------------------------------------------------------------------

/// The OCSF attributes a drafted mapping may name.
pub open spec fn allowed_fields() -> Seq<Seq<char>> {
    seq!["src_endpoint.ip"@, "src_endpoint.port"@, "dst_endpoint.ip"@, "dst_endpoint.port"@, "connection_info.protocol_name"@, "device.hostname"@, "actor.user.name"@, "url.url_string"@, "message"@]
}

pub fn allowed_field_list() -> (r: Vec<String>)
    ensures
        strings(r@) == allowed_fields(),
{
    let r = vec![
        owned("src_endpoint.ip"), owned("src_endpoint.port"), owned("dst_endpoint.ip"),
        owned("dst_endpoint.port"), owned("connection_info.protocol_name"), owned("device.hostname"),
        owned("actor.user.name"), owned("url.url_string"), owned("message"),
    ];
    assert(strings(r@) =~= allowed_fields());
    r
}

/// `items` with `sep` between each two.
pub open spec fn sep_join(items: Seq<Seq<char>>, sep: Seq<char>) -> Seq<char>
    decreases items.len(),
{
    if items.len() == 0 {
        Seq::empty()
    } else if items.len() == 1 {
        items[0]
    } else {
        sep_join(items.drop_last(), sep) + sep + items.last()
    }
}

fn push_joined(out: &mut String, items: &[String], lead: &str, sep: &str)
    ensures
        final(out)@ == old(out)@ + sep_join(strings(items@).map_values(|s: Seq<char>| lead@ + s), sep@),
{
    let ghost start = out@;
    let ghost ls = strings(items@).map_values(|s: Seq<char>| lead@ + s);
    let mut i: usize = 0;
    while i < items.len()
        invariant
            i <= items@.len(),
            ls == strings(items@).map_values(|s: Seq<char>| lead@ + s),
            out@ == start + sep_join(ls.take(i as int), sep@),
        decreases items@.len() - i,
    {
        if i > 0 {
            push_str(out, sep);
        }
        push_str(out, lead);
        push_str(out, items[i].as_str());
        proof {
            let next = ls.take(i + 1);
            assert(next.drop_last() == ls.take(i as int));
            assert(next.last() == lead@ + items@[i as int]@);
            if i == 0 {
                assert(sep_join(next, sep@) == next[0]);
            }
        }
        i += 1;
    }
    assert(ls.take(items@.len() as int) == ls);
}

/// The prompt sent to the model for one cluster: the fixed instructions,
/// the allowed OCSF attributes, the field names found in the samples, and
/// the sample lines last, one per line after `- `.
pub open spec fn prompt(samples: Seq<Seq<char>>, available: Seq<Seq<char>>) -> Seq<char> {
    "You analyse security log formats. Answer ONLY with a JSON object.\n\n         Keys and the value each must hold:\n         \"vendor\": the vendor that most likely produced these lines, else \"Unknown\"\n         \"product\": the product name, else \"Unknown\"\n         \"log_format\": a short hyphenated label describing the shape you see\n         \"fields\": object mapping an OCSF attribute to ONE name from the          AVAILABLE NAMES list. Use the name itself, never the value it holds.          Omit an attribute if no name fits. Allowed attributes: "@
        + sep_join(allowed_fields(), ", "@)
        + "\n\n         AVAILABLE NAMES (choose only from these): "@
        + sep_join(available, ", "@)
        + "\n\n         LOG LINES:\n"@
        + sep_join(samples.map_values(|s: Seq<char>| "- "@ + s), "\n"@)
}

pub fn build_prompt(samples: &[String], available: &[String]) -> (r: String)
    ensures
        r@ == prompt(strings(samples@), strings(available@)),
{
    let allowed = allowed_field_list();
    proof {
        reveal_strlit("");
        assert(strings(allowed@).map_values(|s: Seq<char>| ""@ + s) =~= allowed_fields());
        assert(strings(available@).map_values(|s: Seq<char>| ""@ + s) =~= strings(available@));
    }
    let mut out = owned("You analyse security log formats. Answer ONLY with a JSON object.\n\n         Keys and the value each must hold:\n         \"vendor\": the vendor that most likely produced these lines, else \"Unknown\"\n         \"product\": the product name, else \"Unknown\"\n         \"log_format\": a short hyphenated label describing the shape you see\n         \"fields\": object mapping an OCSF attribute to ONE name from the          AVAILABLE NAMES list. Use the name itself, never the value it holds.          Omit an attribute if no name fits. Allowed attributes: ");
    push_joined(&mut out, &allowed, "", ", ");
    push_str(&mut out, "\n\n         AVAILABLE NAMES (choose only from these): ");
    push_joined(&mut out, available, "", ", ");
    push_str(&mut out, "\n\n         LOG LINES:\n");
    push_joined(&mut out, samples, "- ", "\n");
    out
}

// ---------------------------------------------------------------------------
// The body decoder follows the header markers
// ---------------------------------------------------------------------------

/// `p` occurs in `s` at `i`.
pub open spec fn occurs_at(s: Seq<char>, p: Seq<char>, i: int) -> bool {
    0 <= i && i + p.len() <= s.len() && s.subrange(i, i + p.len()) == p
}

proof fn lemma_found_occurs(s: Seq<char>, p: Seq<char>)
    requires
        find_seq(s, p) is Some,
    ensures
        occurs_at(s, p, find_seq(s, p)->Some_0),
{
    crate::text::lemma_find_seq(s, p);
}

/// Where a pattern without a newline occurs in samples joined by newlines,
/// it occurs in one of the samples.
proof fn lemma_joined_occurs(ss: Seq<Seq<char>>, p: Seq<char>, i: int)
    requires
        !p.contains('\n'),
        p.len() > 0,
        occurs_at(joined(ss), p, i),
    ensures
        exists|k: int| 0 <= k < ss.len() && #[trigger] find_seq(ss[k], p) is Some,
    decreases ss.len(),
{
    if ss.len() == 1 {
        lemma_occurs_found(ss[0], p, i);
    } else if ss.len() > 1 {
        let a = joined(ss.drop_last());
        let b = ss.last();
        let j = a + seq!['\n'] + b;
        if i + p.len() <= a.len() {
            assert(a.subrange(i, i + p.len()) =~= j.subrange(i, i + p.len()));
            lemma_joined_occurs(ss.drop_last(), p, i);
            let k = choose|k: int| 0 <= k < ss.drop_last().len() && #[trigger] find_seq(ss.drop_last()[k], p) is Some;
            assert(ss[k] == ss.drop_last()[k]);
        } else if i > a.len() {
            assert(b.subrange(i - a.len() - 1, i - a.len() - 1 + p.len()) =~= j.subrange(i, i + p.len()));
            lemma_occurs_found(b, p, i - a.len() - 1);
            assert(find_seq(ss[ss.len() - 1], p) is Some);
        } else {
            assert(p[a.len() - i] == j[a.len() as int]);
            assert(p.contains('\n'));
        }
    }
}

/// A sample's occurrence is an occurrence in the joined samples.
proof fn lemma_sample_in_joined(ss: Seq<Seq<char>>, p: Seq<char>, k: int, i: int)
    requires
        0 <= k < ss.len(),
        occurs_at(ss[k], p, i),
    ensures
        find_seq(joined(ss), p) is Some,
    decreases ss.len(),
{
    if ss.len() == 1 {
        lemma_occurs_found(ss[0], p, i);
    } else {
        let a = joined(ss.drop_last());
        let j = a + seq!['\n'] + ss.last();
        if k == ss.len() - 1 {
            let q = a.len() + 1 + i;
            assert(j.subrange(q, q + p.len()) =~= ss[k].subrange(i, i + p.len()));
            lemma_occurs_found(j, p, q);
        } else {
            assert(ss.drop_last()[k] == ss[k]);
            lemma_sample_in_joined(ss.drop_last(), p, k, i);
            lemma_found_occurs(a, p);
            let q = find_seq(a, p)->Some_0;
            assert(j.subrange(q, q + p.len()) =~= a.subrange(q, q + p.len()));
            lemma_occurs_found(j, p, q);
        }
    }
}

/// A sample that holds `CEF:` makes the chain end in the CEF decoder.
pub proof fn cef_samples_end_in_cef(ss: Seq<Seq<char>>, k: int)
    requires
        0 <= k < ss.len(),
        find_seq(ss[k], "CEF:"@) is Some,
    ensures
        decoder_chain(ss).last() == "cef"@,
{
    lemma_found_occurs(ss[k], "CEF:"@);
    lemma_sample_in_joined(ss, "CEF:"@, k, find_seq(ss[k], "CEF:"@)->Some_0);
}

/// Where no sample holds `CEF:` and one holds `LEEF:`, the chain ends in
/// the LEEF decoder.
pub proof fn leef_samples_end_in_leef(ss: Seq<Seq<char>>, k: int)
    requires
        0 <= k < ss.len(),
        forall|m: int| 0 <= m < ss.len() ==> find_seq(#[trigger] ss[m], "CEF:"@) is None,
        find_seq(ss[k], "LEEF:"@) is Some,
    ensures
        decoder_chain(ss).last() == "leef"@,
{
    reveal_strlit("CEF:");
    lemma_found_occurs(ss[k], "LEEF:"@);
    lemma_sample_in_joined(ss, "LEEF:"@, k, find_seq(ss[k], "LEEF:"@)->Some_0);
    if find_seq(joined(ss), "CEF:"@) is Some {
        lemma_found_occurs(joined(ss), "CEF:"@);
        assert(!"CEF:"@.contains('\n')) by {
            if "CEF:"@.contains('\n') {
                let x = choose|x: int| 0 <= x < "CEF:"@.len() && "CEF:"@[x] == '\n';
            }
        }
        lemma_joined_occurs(ss, "CEF:"@, find_seq(joined(ss), "CEF:"@)->Some_0);
    }
}

/// A first sample that opens with `<` puts the syslog decoder first in the
/// chain, ahead of the body decoder.
pub proof fn a_priority_prefix_puts_syslog_first(ss: Seq<Seq<char>>)
    requires
        ss.len() > 0,
        ss[0].len() > 0,
        ss[0][0] == '<',
    ensures
        decoder_chain(ss)[0] == "syslog"@,
        decoder_chain(ss).len() <= 2,
{
}

/// Where no sample holds `CEF:` or `LEEF:`, a first sample that opens (after
/// whitespace) with `{` makes the chain end in the JSON decoder.
pub proof fn object_samples_end_in_json(ss: Seq<Seq<char>>)
    requires
        ss.len() > 0,
        forall|m: int| 0 <= m < ss.len() ==> find_seq(#[trigger] ss[m], "CEF:"@) is None,
        forall|m: int| 0 <= m < ss.len() ==> find_seq(#[trigger] ss[m], "LEEF:"@) is None,
        trim_start(ss[0]).len() > 0,
        trim_start(ss[0])[0] == '{',
    ensures
        decoder_chain(ss).last() == "json"@,
{
    reveal_strlit("CEF:");
    reveal_strlit("LEEF:");
    assert(!"CEF:"@.contains('\n')) by {
        if "CEF:"@.contains('\n') {
            let x = choose|x: int| 0 <= x < "CEF:"@.len() && "CEF:"@[x] == '\n';
        }
    }
    assert(!"LEEF:"@.contains('\n')) by {
        if "LEEF:"@.contains('\n') {
            let x = choose|x: int| 0 <= x < "LEEF:"@.len() && "LEEF:"@[x] == '\n';
        }
    }
    if find_seq(joined(ss), "CEF:"@) is Some {
        lemma_found_occurs(joined(ss), "CEF:"@);
        lemma_joined_occurs(ss, "CEF:"@, find_seq(joined(ss), "CEF:"@)->Some_0);
    }
    if find_seq(joined(ss), "LEEF:"@) is Some {
        lemma_found_occurs(joined(ss), "LEEF:"@);
        lemma_joined_occurs(ss, "LEEF:"@, find_seq(joined(ss), "LEEF:"@)->Some_0);
    }
}

} // verus!
