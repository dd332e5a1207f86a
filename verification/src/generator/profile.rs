//! The evidence rules of profiling records no Source Pack claims: which
//! vendor and product signatures the text carries, what a CEF or LEEF header
//! names explicitly, whether records are syslog-framed, and the vocabulary
//! the source-family markers are looked up in.
//!
//! Confidences here are exact thousandths; the weighted family scores and
//! the fractions of samples are the application's.
use vstd::prelude::*;
use crate::field::{lower_seq};
use crate::generator::llm::{all_in, any, class_p, joined, strings};
use crate::generator::tokens::{runs, split_p};
use crate::decode::salvage::{text_lt, lemma_text_lt_irrefl, lemma_text_lt_total, lemma_text_lt_trans};
use crate::text::{
    alnum, chars_of, find, find_p, find_seq, find_str, lower, part, push_char, push_range,
    push_str, skip_ws, str_eq, string_of, to_lower, trim, trim_range, ws_p, word_ranges, words,
};

verus! {

// ---------------------------------------------------------------------------
// Explicit identity in a CEF or LEEF header
// ---------------------------------------------------------------------------

/// The header fields from the start of `t`, split at unescaped `|`, a
/// backslash escaping the next character; the walk stops once three fields
/// are complete.
pub open spec fn pipe_fields(t: Seq<char>, cur: Seq<char>, esc: bool, acc: Seq<Seq<char>>) -> Seq<Seq<char>>
    decreases t.len(),
{
    if acc.len() >= 3 || t.len() == 0 {
        acc
    } else if esc {
        pipe_fields(t.drop_first(), cur.push(t[0]), false, acc)
    } else if t[0] == '\\' {
        pipe_fields(t.drop_first(), cur, true, acc)
    } else if t[0] == '|' {
        pipe_fields(t.drop_first(), Seq::empty(), false, acc.push(cur))
    } else {
        pipe_fields(t.drop_first(), cur.push(t[0]), false, acc)
    }
}

/// The marker a wire format's header starts with.
pub open spec fn header_marker(wire_format: Seq<char>) -> Option<Seq<char>> {
    if wire_format == "cef"@ {
        Some("CEF:"@)
    } else if wire_format == "leef"@ {
        Some("LEEF:"@)
    } else {
        None
    }
}

/// The vendor and product a CEF or LEEF header names: its second and third
/// fields, trimmed, when both are present and not blank.
pub open spec fn envelope_identity(text: Seq<char>, wire_format: Seq<char>) -> Option<(Seq<char>, Seq<char>)> {
    match header_marker(wire_format) {
        None => None,
        Some(m) => match find_seq(text, m) {
            None => None,
            Some(s) => {
                let f = pipe_fields(text.skip(s), Seq::empty(), false, Seq::empty());
                if f.len() < 3 || trim(f[1]).len() == 0 || trim(f[2]).len() == 0 {
                    None
                } else {
                    Some((trim(f[1]), trim(f[2])))
                }
            },
        },
    }
}

/// The vendor and product a CEF or LEEF header in `text` names.
pub fn explicit_envelope_identity(text: &str, wire_format: &str) -> (r: Option<(String, String)>)
    ensures
        match envelope_identity(text@, wire_format@) {
            Some(vp) => r matches Some(x) && x.0@ == vp.0 && x.1@ == vp.1,
            None => r is None,
        },
{
    let is_cef = str_eq(wire_format, "cef");
    let is_leef = str_eq(wire_format, "leef");
    if !is_cef && !is_leef {
        return None;
    }
    let marker = if is_cef { chars_of("CEF:") } else { chars_of("LEEF:") };
    assert(header_marker(wire_format@) == Some(marker@));
    let cs = chars_of(text);
    assert(cs@.subrange(0, cs@.len() as int) == text@);
    let start = match find_str(&cs, 0, cs.len(), &marker) {
        Some(s) => s,
        None => return None,
    };
    proof {
        crate::text::lemma_find_seq(text@, marker@);
    }
    let mut fields: Vec<Vec<char>> = Vec::new();
    let mut cur: Vec<char> = Vec::new();
    let mut esc = false;
    let mut i = start;
    assert(crate::generator::llm::char_vecs(fields@) =~= Seq::<Seq<char>>::empty());
    assert(cur@ =~= Seq::<char>::empty());
    while i < cs.len() && fields.len() < 3
        invariant
            start <= i <= cs@.len(),
            cs@ == text@,
            pipe_fields(text@.skip(start as int), Seq::empty(), false, Seq::empty())
                == pipe_fields(cs@.skip(i as int), cur@, esc, crate::generator::llm::char_vecs(fields@)),
        decreases cs@.len() - i,
    {
        let c = cs[i];
        assert(cs@.skip(i as int)[0] == c);
        assert(cs@.skip(i as int).drop_first() == cs@.skip(i + 1));
        let ghost acc = crate::generator::llm::char_vecs(fields@);
        if esc {
            cur.push(c);
            esc = false;
        } else if c == '\\' {
            esc = true;
        } else if c == '|' {
            let done = cur;
            fields.push(done);
            cur = Vec::new();
            assert(crate::generator::llm::char_vecs(fields@) =~= acc.push(done@));
            assert(cur@ =~= Seq::<char>::empty());
        } else {
            cur.push(c);
        }
        i += 1;
    }
    let ghost f = pipe_fields(text@.skip(start as int), Seq::empty(), false, Seq::empty());
    assert(f == crate::generator::llm::char_vecs(fields@));
    if fields.len() < 3 {
        return None;
    }
    assert(f[1] == fields@[1]@ && f[2] == fields@[2]@);
    let (va, vb) = trim_range(fields[1].as_slice(), 0, fields[1].len());
    let (pa, pb) = trim_range(fields[2].as_slice(), 0, fields[2].len());
    assert(fields@[1]@.subrange(0, fields@[1]@.len() as int) == fields@[1]@);
    assert(fields@[2]@.subrange(0, fields@[2]@.len() as int) == fields@[2]@);
    if va == vb || pa == pb {
        return None;
    }
    let vendor = crate::text::string_range(fields[1].as_slice(), va, vb);
    let product = crate::text::string_range(fields[2].as_slice(), pa, pb);
    Some((vendor, product))
}

// ---------------------------------------------------------------------------
// Framing and pairs
// ---------------------------------------------------------------------------

/// The first whitespace-separated word of `s`, empty when there is none.
pub open spec fn first_word(s: Seq<char>) -> Seq<char> {
    if words(s).len() > 0 { words(s)[0] } else { Seq::empty() }
}

/// A syslog-like envelope: the first word is a `<PRI>` (a `<` with a `>`
/// after it) or a month abbreviation, in any case.
pub open spec fn syslog_framed(s: Seq<char>) -> bool {
    let w = first_word(s);
    (w.len() > 0 && w[0] == '<' && find(w, '>') is Some) || crate::generator::llm::months().contains(lower_seq(w))
}

/// Whether the record looks syslog-framed.
pub fn looks_syslog_framed(s: &str) -> (r: bool)
    ensures
        r == syslog_framed(s@),
{
    let cs = chars_of(s);
    let ws = word_ranges(&cs, 0, cs.len());
    assert(cs@.subrange(0, cs@.len() as int) == s@);
    let mut w: Vec<char> = Vec::new();
    if ws.len() > 0 {
        let (a, b) = ws[0];
        w = crate::text::chars_range(&cs, a, b);
    }
    assert(w@ == first_word(s@));
    if w.len() > 0 && w[0] == '<' && crate::text::find_char(&w, 0, w.len(), '>').is_some() {
        assert(w@.subrange(0, w@.len() as int) == w@);
        return true;
    }
    assert(w@.subrange(0, w@.len() as int) == w@);
    let lowered = lower_chars(&w);
    let months: [&str; 12] = ["jan", "feb", "mar", "apr", "may", "jun", "jul", "aug", "sep", "oct", "nov", "dec"];
    let mut i: usize = 0;
    while i < 12
        invariant
            i <= 12,
            months@.len() == 12,
            forall|j: int| 0 <= j < 12 ==> (#[trigger] months@[j])@ == crate::generator::llm::months()[j],
            lowered@ == lower_seq(w@),
            w@ == first_word(s@),
            forall|j: int| 0 <= j < i ==> crate::generator::llm::months()[j] != lowered@,
        decreases 12 - i,
    {
        let m = chars_of(months[i]);
        if same_chars(&m, &lowered) {
            assert(crate::generator::llm::months()[i as int] == lowered@);
            assert(crate::generator::llm::months().len() == 12);
            assert(crate::generator::llm::months().contains(lowered@));
            return true;
        }
        i += 1;
    }
    false
}

fn same_chars(a: &Vec<char>, b: &Vec<char>) -> (r: bool)
    ensures
        r == (a@ == b@),
{
    assert(a@.subrange(0, a@.len() as int) == a@);
    assert(b@.subrange(0, b@.len() as int) == b@);
    crate::text::seq_eq(a.as_slice(), 0, a.len(), b.as_slice(), 0, b.len())
}

/// The characters lowered (ASCII).
fn lower_chars(s: &Vec<char>) -> (r: Vec<char>)
    ensures
        r@ == lower_seq(s@),
{
    let mut out: Vec<char> = Vec::new();
    let mut i: usize = 0;
    while i < s.len()
        invariant
            i <= s@.len(),
            out@ == lower_seq(s@.take(i as int)),
        decreases s@.len() - i,
    {
        out.push(to_lower(s[i]));
        assert(lower_seq(s@.take(i + 1)) =~= lower_seq(s@.take(i as int)).push(lower(s@[i as int])));
        i += 1;
    }
    assert(s@.take(s@.len() as int) == s@);
    out
}

/// A whitespace token `key=value` whose key is letters, digits, `_`, `-`
/// and `.`, at least one of them.
pub open spec fn pair_token(w: Seq<char>) -> bool {
    match find(w, '=') {
        Some(i) => i > 0 && crate::generator::llm::all(w.take(i), class_p(6)),
        None => false,
    }
}

pub open spec fn count_pairs(ws: Seq<Seq<char>>) -> nat
    decreases ws.len(),
{
    if ws.len() == 0 { 0 } else { count_pairs(ws.drop_last()) + if pair_token(ws.last()) { 1nat } else { 0nat } }
}

/// How many whitespace tokens of `s` are `key=value` pairs with a plain key.
pub fn count_key_values(s: &str) -> (r: usize)
    ensures
        r == count_pairs(words(s@)),
{
    let cs = chars_of(s);
    let ws = word_ranges(&cs, 0, cs.len());
    assert(cs@.subrange(0, cs@.len() as int) == s@);
    let ghost all_words = words(s@);
    let mut n: usize = 0;
    let mut k: usize = 0;
    while k < ws.len()
        invariant
            k <= ws@.len(),
            cs@ == s@,
            ws@.len() == all_words.len(),
            all_words == words(s@),
            forall|j: int| 0 <= j < ws@.len() ==> {
                &&& (#[trigger] ws@[j]).0 < ws@[j].1 <= cs@.len()
                &&& cs@.subrange(ws@[j].0 as int, ws@[j].1 as int) == all_words[j]
            },
            n == count_pairs(all_words.take(k as int)),
            n <= k,
        decreases ws@.len() - k,
    {
        let (a, b) = ws[k];
        let ghost w = all_words[k as int];
        assert(part(cs@, a as int, b as int) == w);
        let is_pair = match crate::text::find_char(&cs, a, b, '=') {
            Some(i) => {
                assert(w.take(i - a) == part(cs@, a as int, i as int));
                i > a && all_in(&cs, a, i, 6)
            },
            None => false,
        };
        assert(is_pair == pair_token(w));
        assert(all_words.take(k + 1).drop_last() == all_words.take(k as int));
        if is_pair {
            n += 1;
        }
        k += 1;
    }
    assert(all_words.take(ws@.len() as int) == all_words);
    n
}

// ---------------------------------------------------------------------------
// Vocabulary
// ---------------------------------------------------------------------------

/// What the family markers are looked up in.
pub ghost struct VocabV {
    /// The samples joined with newlines.
    pub original: Seq<char>,
    /// The same, lowered.
    pub joined: Seq<char>,
    /// The lowered runs of letters, digits, `_`, `-` and `.`.
    pub tokens: Set<Seq<char>>,
    /// The lowered field names.
    pub keys: Set<Seq<char>>,
}

pub open spec fn vocab_of(samples: Seq<Seq<char>>, fields: Seq<Seq<char>>) -> VocabV {
    let original = joined(samples);
    VocabV {
        original: original,
        joined: lower_seq(original),
        tokens: runs(lower_seq(original), split_p(2)).to_set(),
        keys: fields.map_values(|f: Seq<char>| lower_seq(f)).to_set(),
    }
}

/// A marker is present: as a field name, as a token, or (when it holds
/// other characters than letters and digits) anywhere in the text; case
/// ignored.
pub open spec fn vocab_has(v: VocabV, marker: Seq<char>) -> bool {
    let m = lower_seq(marker);
    v.keys.contains(m) || v.tokens.contains(m) || (any(m, |c: char| !crate::text::is_alnum(c)) && find_seq(v.joined, m) is Some)
}

pub struct Vocabulary {
    original: String,
    joined: Vec<char>,
    tokens: Vec<Vec<char>>,
    keys: Vec<Vec<char>>,
}

impl View for Vocabulary {
    type V = VocabV;

    closed spec fn view(&self) -> VocabV {
        VocabV {
            original: self.original@,
            joined: self.joined@,
            tokens: crate::generator::llm::char_vecs(self.tokens@).to_set(),
            keys: crate::generator::llm::char_vecs(self.keys@).to_set(),
        }
    }
}

/// Whether `v` holds `x`.
fn holds(v: &Vec<Vec<char>>, x: &Vec<char>) -> (r: bool)
    ensures
        r == crate::generator::llm::char_vecs(v@).to_set().contains(x@),
{
    crate::generator::llm::is_used(v, x.as_slice())
}

impl Vocabulary {
    pub fn new(samples: &[String], fields: &[String]) -> (r: Self)
        ensures
            r@ == vocab_of(strings(samples@), strings(fields@)),
    {
        let ghost ss = strings(samples@);
        // The samples joined with newlines.
        let mut original = String::new();
        let mut k: usize = 0;
        while k < samples.len()
            invariant
                k <= samples@.len(),
                ss == strings(samples@),
                original@ == joined(ss.take(k as int)),
            decreases samples@.len() - k,
        {
            if k > 0 {
                push_char(&mut original, '\n');
            }
            push_str(&mut original, samples[k].as_str());
            proof {
                assert(ss.take(k + 1).drop_last() == ss.take(k as int));
                assert(ss.take(k + 1).last() == samples@[k as int]@);
                if k == 0 {
                    assert(ss.take(0).len() == 0);
                    assert(Seq::<char>::empty() + samples@[0]@ == samples@[0]@);
                }
            }
            k += 1;
        }
        assert(ss.take(samples@.len() as int) == ss);
        let oc = chars_of(original.as_str());
        let lowered = lower_chars(&oc);
        let low_text = string_of(lowered.as_slice());
        let toks = crate::generator::tokens::split_tokens(low_text.as_str(), 2);
        let mut tokens: Vec<Vec<char>> = Vec::new();
        let mut i: usize = 0;
        while i < toks.len()
            invariant
                i <= toks@.len(),
                tokens@.len() == i,
                forall|j: int| 0 <= j < i ==> (#[trigger] tokens@[j])@ == toks@[j]@,
            decreases toks@.len() - i,
        {
            tokens.push(chars_of(toks[i].as_str()));
            i += 1;
        }
        assert(crate::generator::llm::char_vecs(tokens@) =~= strings(toks@));
        let ghost fs = strings(fields@);
        let mut keys: Vec<Vec<char>> = Vec::new();
        let mut j: usize = 0;
        while j < fields.len()
            invariant
                j <= fields@.len(),
                fs == strings(fields@),
                keys@.len() == j,
                forall|q: int| 0 <= q < j ==> (#[trigger] keys@[q])@ == lower_seq(fs[q]),
            decreases fields@.len() - j,
        {
            let f = chars_of(fields[j].as_str());
            keys.push(lower_chars(&f));
            j += 1;
        }
        assert(crate::generator::llm::char_vecs(keys@) =~= fs.map_values(|f: Seq<char>| lower_seq(f)));
        Vocabulary { original, joined: lowered, tokens, keys }
    }

    /// Whether a family marker is present.
    pub fn has(&self, marker: &str) -> (r: bool)
        ensures
            r == vocab_has(self@, marker@),
    {
        let mc = chars_of(marker);
        let m = lower_chars(&mc);
        if holds(&self.keys, &m) || holds(&self.tokens, &m) {
            return true;
        }
        let mut other = false;
        let mut i: usize = 0;
        while i < m.len()
            invariant
                i <= m@.len(),
                other == exists|j: int| 0 <= j < i && !crate::text::is_alnum(#[trigger] m@[j]),
            decreases m@.len() - i,
        {
            if !alnum(m[i]) {
                other = true;
            }
            i += 1;
        }
        if !other {
            return false;
        }
        assert(self.joined@.subrange(0, self.joined@.len() as int) == self.joined@);
        find_str(self.joined.as_slice(), 0, self.joined.len(), m.as_slice()).is_some()
    }
}

// ---------------------------------------------------------------------------
// Vendor and product signatures
// ---------------------------------------------------------------------------

/// A vendor/product hypothesis, with its confidence in thousandths and the
/// evidence for it.
#[derive(Debug, Clone)]
pub struct ProductHypothesis {
    pub vendor: String,
    pub product: String,
    pub confidence_permille: u32,
    pub evidence: Vec<String>,
}

pub ghost struct HypV {
    pub vendor: Seq<char>,
    pub product: Seq<char>,
    pub confidence: nat,
    pub evidence: Seq<Seq<char>>,
}

impl View for ProductHypothesis {
    type V = HypV;

    open spec fn view(&self) -> HypV {
        HypV {
            vendor: self.vendor@,
            product: self.product@,
            confidence: self.confidence_permille as nat,
            evidence: strings(self.evidence@),
        }
    }
}

pub open spec fn hyp_views(v: Seq<ProductHypothesis>) -> Seq<HypV> {
    v.map_values(|h: ProductHypothesis| h@)
}

/// The signatures: vendor, product, confidence in thousandths, and the
/// literals that must all occur (case ignored).
pub open spec fn signatures() -> Seq<(Seq<char>, Seq<char>, nat, Seq<Seq<char>>)> {
    seq![
        ("Cisco"@, "ASA"@, 990nat, seq!["%asa-"@]),
        ("Fortinet"@, "FortiGate"@, 970nat, seq!["devname="@, "srcip="@, "dstip="@]),
        ("Linux"@, "netfilter/iptables"@, 960nat, seq!["kernel:"@, "src="@, "dst="@, "proto="@]),
        ("OISF"@, "Suricata EVE"@, 980nat, seq!["\"event_type\""@, "\"flow_id\""@]),
        ("Snort"@, "NIDS"@, 970nat, seq!["[**]"@, "[classification:"@]),
        ("pfSense"@, "filterlog"@, 980nat, seq!["filterlog:"@]),
        ("OpenBSD"@, "OpenSSH"@, 970nat, seq!["sshd["@]),
        ("Zeek"@, "Connection Log"@, 980nat, seq!["#fields"@, "id.orig_h"@, "id.resp_h"@]),
        ("Check Point"@, "Firewall"@, 920nat, seq!["orig="@, "action="@, "xlatesrc="@]),
    ]
}

/// Every literal occurs in the lowered text.
pub open spec fn all_occur(text: Seq<char>, terms: Seq<Seq<char>>) -> bool {
    forall|k: int| 0 <= k < terms.len() ==> find_seq(text, lower_seq(#[trigger] terms[k])) is Some
}

/// `literal `t``, the evidence for one literal.
pub open spec fn literal_evidence(t: Seq<char>) -> Seq<char> {
    "literal `"@ + t + "`"@
}

/// The hypotheses of the signatures from `i` on whose literals all occur.
pub open spec fn signature_hyps(text: Seq<char>, i: int) -> Seq<HypV>
    decreases signatures().len() - i,
{
    if i < 0 || i >= signatures().len() {
        Seq::empty()
    } else {
        let s = signatures()[i];
        let rest = signature_hyps(text, i + 1);
        if all_occur(text, s.3) {
            seq![HypV { vendor: s.0, product: s.1, confidence: s.2, evidence: s.3.map_values(|t: Seq<char>| literal_evidence(t)) }] + rest
        } else {
            rest
        }
    }
}

/// The hypothesis a CEF or LEEF header adds: the identity it names, or an
/// unknown vendor of that envelope.
pub open spec fn envelope_hyp(original: Seq<char>, wire_format: Seq<char>) -> Option<HypV> {
    match envelope_identity(original, wire_format) {
        Some(vp) => Some(HypV {
            vendor: vp.0,
            product: vp.1,
            confidence: 990,
            evidence: seq!["The "@ + wire_format + " header explicitly names vendor `"@ + vp.0 + "` and product `"@ + vp.1 + "`."@],
        }),
        None => if wire_format == "cef"@ || wire_format == "leef"@ {
            Some(HypV {
                vendor: "Unknown"@,
                product: if wire_format == "cef"@ { "CEF"@ } else { "LEEF"@ },
                confidence: 650,
                evidence: seq!["A "@ + wire_format + " envelope is visible, but its embedded vendor/product still needs validation."@],
            })
        } else {
            None
        },
    }
}

/// Where `x` goes among `r`, kept most confident first and stable: after
/// every hypothesis at least as confident.
pub open spec fn conf_slot(r: Seq<HypV>, x: HypV, i: int) -> int
    decreases r.len() - i,
{
    if i < 0 || i >= r.len() {
        r.len() as int
    } else if x.confidence > r[i].confidence {
        i
    } else {
        conf_slot(r, x, i + 1)
    }
}

/// The hypotheses most confident first, in their order on a tie.
pub open spec fn by_confidence(hs: Seq<HypV>) -> Seq<HypV>
    decreases hs.len(),
{
    if hs.len() == 0 {
        Seq::empty()
    } else {
        let r = by_confidence(hs.drop_last());
        let k = conf_slot(r, hs.last(), 0);
        r.take(k) + seq![hs.last()] + r.skip(k)
    }
}

/// Runs of the same vendor and product reduced to their first.
pub open spec fn dedup_identity(hs: Seq<HypV>) -> Seq<HypV>
    decreases hs.len(),
{
    if hs.len() == 0 {
        Seq::empty()
    } else {
        let r = dedup_identity(hs.drop_last());
        let x = hs.last();
        if r.len() > 0 && r.last().vendor == x.vendor && r.last().product == x.product { r } else { r.push(x) }
    }
}

/// The vendor/product hypotheses of a vocabulary: each signature whose
/// literals all occur, and what a CEF or LEEF header says; most confident
/// first; a repeated identity once.
pub open spec fn product_hyps(v: VocabV, wire_format: Seq<char>) -> Seq<HypV> {
    let found = signature_hyps(v.joined, 0);
    let all = match envelope_hyp(v.original, wire_format) {
        Some(h) => found.push(h),
        None => found,
    };
    dedup_identity(by_confidence(all))
}

/// The signature table.
fn signature_table() -> (r: Vec<(&'static str, &'static str, u32, Vec<&'static str>)>)
    ensures
        r@.len() == signatures().len(),
        forall|i: int| 0 <= i < r@.len() ==> {
            &&& (#[trigger] r@[i]).0@ == signatures()[i].0
            &&& r@[i].1@ == signatures()[i].1
            &&& r@[i].2 as nat == signatures()[i].2
            &&& crate::generator::llm::statics(r@[i].3@) == signatures()[i].3
        },
{
    let r = vec![
        ("Cisco", "ASA", 990u32, vec!["%asa-"]),
        ("Fortinet", "FortiGate", 970u32, vec!["devname=", "srcip=", "dstip="]),
        ("Linux", "netfilter/iptables", 960u32, vec!["kernel:", "src=", "dst=", "proto="]),
        ("OISF", "Suricata EVE", 980u32, vec!["\"event_type\"", "\"flow_id\""]),
        ("Snort", "NIDS", 970u32, vec!["[**]", "[classification:"]),
        ("pfSense", "filterlog", 980u32, vec!["filterlog:"]),
        ("OpenBSD", "OpenSSH", 970u32, vec!["sshd["]),
        ("Zeek", "Connection Log", 980u32, vec!["#fields", "id.orig_h", "id.resp_h"]),
        ("Check Point", "Firewall", 920u32, vec!["orig=", "action=", "xlatesrc="]),
    ];
    assert forall|i: int| 0 <= i < r@.len() implies crate::generator::llm::statics((#[trigger] r@[i]).3@) == signatures()[i].3 by {
        assert(crate::generator::llm::statics(r@[i].3@) =~= signatures()[i].3);
    }
    r
}

/// `all_occur(text, terms)`.
fn all_present(text: &Vec<char>, terms: &Vec<&'static str>) -> (r: bool)
    ensures
        r == all_occur(text@, crate::generator::llm::statics(terms@)),
{
    let ghost ts = crate::generator::llm::statics(terms@);
    assert(text@.subrange(0, text@.len() as int) == text@);
    let mut k: usize = 0;
    while k < terms.len()
        invariant
            k <= terms@.len(),
            ts == crate::generator::llm::statics(terms@),
            text@.subrange(0, text@.len() as int) == text@,
            forall|j: int| 0 <= j < k ==> find_seq(text@, lower_seq(#[trigger] ts[j])) is Some,
        decreases terms@.len() - k,
    {
        let t = chars_of(terms[k]);
        let low = lower_chars(&t);
        assert(ts[k as int] == t@);
        if find_str(text.as_slice(), 0, text.len(), low.as_slice()).is_none() {
            return false;
        }
        k += 1;
    }
    true
}

fn copy_strings(v: &Vec<String>) -> (r: Vec<String>)
    ensures
        strings(r@) == strings(v@),
{
    let mut out: Vec<String> = Vec::new();
    let mut i: usize = 0;
    while i < v.len()
        invariant
            i <= v@.len(),
            out@.len() == i,
            forall|j: int| 0 <= j < i ==> (#[trigger] out@[j])@ == v@[j]@,
        decreases v@.len() - i,
    {
        out.push(v[i].clone());
        i += 1;
    }
    assert(strings(out@) =~= strings(v@));
    out
}

fn copy_hyp(h: &ProductHypothesis) -> (r: ProductHypothesis)
    ensures
        r@ == h@,
{
    ProductHypothesis {
        vendor: h.vendor.clone(),
        product: h.product.clone(),
        confidence_permille: h.confidence_permille,
        evidence: copy_strings(&h.evidence),
    }
}

/// `conf_slot(hs, x, 0)`.
fn conf_position(hs: &Vec<ProductHypothesis>, x: &ProductHypothesis) -> (k: usize)
    ensures
        k as int == conf_slot(hyp_views(hs@), x@, 0),
        k <= hs@.len(),
{
    let ghost r = hyp_views(hs@);
    let mut k: usize = 0;
    while k < hs.len()
        invariant
            k <= hs@.len(),
            r == hyp_views(hs@),
            conf_slot(r, x@, 0) == conf_slot(r, x@, k as int),
        decreases hs@.len() - k,
    {
        assert(r[k as int] == hs@[k as int]@);
        if x.confidence_permille > hs[k].confidence_permille {
            return k;
        }
        k += 1;
    }
    k
}

/// The vendor/product hypotheses the vocabulary supports, most confident
/// first, each identity once.
pub fn infer_products(v: &Vocabulary, wire_format: &str) -> (r: Vec<ProductHypothesis>)
    ensures
        hyp_views(r@) == product_hyps(v@, wire_format@),
{
    let table = signature_table();
    let ghost text = v@.joined;
    let mut found: Vec<ProductHypothesis> = Vec::new();
    let mut i: usize = 0;
    assert(hyp_views(found@) =~= Seq::<HypV>::empty());
    while i < table.len()
        invariant
            i <= table@.len() == signatures().len(),
            text == v@.joined,
            forall|q: int| 0 <= q < table@.len() ==> {
                &&& (#[trigger] table@[q]).0@ == signatures()[q].0
                &&& table@[q].1@ == signatures()[q].1
                &&& table@[q].2 as nat == signatures()[q].2
                &&& crate::generator::llm::statics(table@[q].3@) == signatures()[q].3
            },
            signature_hyps(text, 0) == hyp_views(found@) + signature_hyps(text, i as int),
        decreases table@.len() - i,
    {
        let ghost before = hyp_views(found@);
        let (vendor, product, conf, terms) = (table[i].0, table[i].1, table[i].2, &table[i].3);
        if all_present(&v.joined, terms) {
            let ghost ts = crate::generator::llm::statics(terms@);
            let mut evidence: Vec<String> = Vec::new();
            let mut k: usize = 0;
            while k < terms.len()
                invariant
                    k <= terms@.len(),
                    ts == crate::generator::llm::statics(terms@),
                    evidence@.len() == k,
                    forall|q: int| 0 <= q < k ==> (#[trigger] evidence@[q])@ == literal_evidence(ts[q]),
                decreases terms@.len() - k,
            {
                let mut e = String::new();
                push_str(&mut e, "literal `");
                push_str(&mut e, terms[k]);
                push_str(&mut e, "`");
                assert(e@ == literal_evidence(ts[k as int]));
                evidence.push(e);
                k += 1;
            }
            let h = ProductHypothesis { vendor: vendor.to_string(), product: product.to_string(), confidence_permille: conf, evidence };
            assert(h@.evidence =~= ts.map_values(|t: Seq<char>| literal_evidence(t)));
            found.push(h);
            assert(hyp_views(found@) =~= before.push(h@));
            assert(before.push(h@) + signature_hyps(text, i + 1) =~= before + (seq![h@] + signature_hyps(text, i + 1)));
        }
        i += 1;
    }
    assert(hyp_views(found@) + Seq::<HypV>::empty() =~= hyp_views(found@));
    // What a CEF or LEEF header says.
    let ghost found_v = hyp_views(found@);
    match explicit_envelope_identity(v.original.as_str(), wire_format) {
        Some((vendor, product)) => {
            let mut e = owned_str("The ");
            push_str(&mut e, wire_format);
            push_str(&mut e, " header explicitly names vendor `");
            push_str(&mut e, vendor.as_str());
            push_str(&mut e, "` and product `");
            push_str(&mut e, product.as_str());
            push_str(&mut e, "`.");
            let ghost ev = e@;
            let mut evidence: Vec<String> = Vec::new();
            evidence.push(e);
            assert(strings(evidence@) =~= seq![ev]);
            let h = ProductHypothesis { vendor, product, confidence_permille: 990, evidence };
            assert(h@ == envelope_hyp(v@.original, wire_format@)->Some_0);
            found.push(h);
            assert(hyp_views(found@) =~= found_v.push(envelope_hyp(v@.original, wire_format@)->Some_0));
        },
        None => {
            let cef = str_eq(wire_format, "cef");
            if cef || str_eq(wire_format, "leef") {
                let mut e = owned_str("A ");
                push_str(&mut e, wire_format);
                push_str(&mut e, " envelope is visible, but its embedded vendor/product still needs validation.");
                let ghost ev = e@;
                let mut evidence: Vec<String> = Vec::new();
                evidence.push(e);
                assert(strings(evidence@) =~= seq![ev]);
                let product = if cef { owned_str("CEF") } else { owned_str("LEEF") };
                let h = ProductHypothesis { vendor: owned_str("Unknown"), product, confidence_permille: 650, evidence };
                assert(h@ == envelope_hyp(v@.original, wire_format@)->Some_0);
                found.push(h);
                assert(hyp_views(found@) =~= found_v.push(envelope_hyp(v@.original, wire_format@)->Some_0));
            }
        },
    }
    let ghost all = hyp_views(found@);
    // Most confident first, stable.
    let mut sorted: Vec<ProductHypothesis> = Vec::new();
    let mut j: usize = 0;
    assert(all.take(0) =~= Seq::<HypV>::empty());
    while j < found.len()
        invariant
            j <= found@.len(),
            all == hyp_views(found@),
            hyp_views(sorted@) == by_confidence(all.take(j as int)),
        decreases found@.len() - j,
    {
        let h = copy_hyp(&found[j]);
        let ghost r = hyp_views(sorted@);
        assert(all.take(j + 1).drop_last() == all.take(j as int));
        assert(all.take(j + 1).last() == h@);
        let k = conf_position(&sorted, &h);
        sorted.insert(k, h);
        assert(hyp_views(sorted@) =~= r.take(k as int) + seq![all[j as int]] + r.skip(k as int));
        j += 1;
    }
    assert(all.take(found@.len() as int) == all);
    // Each identity once.
    let ghost ranked = hyp_views(sorted@);
    let mut out: Vec<ProductHypothesis> = Vec::new();
    let mut q: usize = 0;
    assert(ranked.take(0) =~= Seq::<HypV>::empty());
    while q < sorted.len()
        invariant
            q <= sorted@.len(),
            ranked == hyp_views(sorted@),
            hyp_views(out@) == dedup_identity(ranked.take(q as int)),
        decreases sorted@.len() - q,
    {
        let ghost prev = hyp_views(out@);
        assert(ranked.take(q + 1).drop_last() == ranked.take(q as int));
        assert(ranked.take(q + 1).last() == sorted@[q as int]@);
        let repeat = out.len() > 0
            && str_eq(out[out.len() - 1].vendor.as_str(), sorted[q].vendor.as_str())
            && str_eq(out[out.len() - 1].product.as_str(), sorted[q].product.as_str());
        if !repeat {
            let h = copy_hyp(&sorted[q]);
            out.push(h);
            assert(hyp_views(out@) =~= prev.push(sorted@[q as int]@));
        } else {
            assert(prev.last() == out@[out@.len() - 1]@);
        }
        q += 1;
    }
    assert(ranked.take(sorted@.len() as int) == ranked);
    out
}

fn owned_str(s: &str) -> (r: String)
    ensures
        r@ == s@,
{
    s.to_string()
}


// ---------------------------------------------------------------------------
// Source families
// ---------------------------------------------------------------------------

/// The source families: name, the OCSF class a family suggests, and its
/// vocabulary markers with their weights in tenths.
pub open spec fn family_rules() -> Seq<(Seq<char>, Option<i64>, Seq<(Seq<char>, nat)>)> {
    seq![
        ("network-firewall"@, Some(4001i64), seq![("firewall"@, 30nat), ("iptables"@, 40nat), ("filterlog"@, 40nat), ("deny"@, 18nat), ("drop"@, 18nat), ("accept"@, 12nat), ("action"@, 11nat), ("srcip"@, 15nat), ("dstip"@, 15nat), ("proto"@, 10nat)]),
        ("intrusion-detection"@, Some(2004i64), seq![("suricata"@, 50nat), ("snort"@, 50nat), ("signature_id"@, 30nat), ("event_type"@, 20nat), ("classification"@, 25nat), ("alert"@, 18nat), ("sid"@, 15nat), ("intrusion"@, 25nat), ("priority"@, 10nat)]),
        ("web-or-proxy"@, Some(4002i64), seq![("http"@, 23nat), ("https"@, 12nat), ("request"@, 15nat), ("uri"@, 18nat), ("url"@, 18nat), ("user_agent"@, 20nat), ("status"@, 10nat), ("proxy"@, 30nat), ("squid"@, 50nat), ("connect"@, 11nat)]),
        ("identity-or-authentication"@, Some(3002i64), seq![("sshd"@, 50nat), ("authentication"@, 30nat), ("login"@, 20nat), ("logon"@, 20nat), ("logout"@, 20nat), ("password"@, 20nat), ("account"@, 13nat), ("username"@, 13nat), ("failed"@, 8nat)]),
        ("email"@, Some(4009i64), seq![("sendmail"@, 50nat), ("postfix"@, 50nat), ("smtp"@, 30nat), ("message-id"@, 25nat), ("recipient"@, 15nat), ("relay"@, 12nat)]),
        ("operating-system-or-audit"@, Some(1008i64), seq![("kernel"@, 22nat), ("systemd"@, 30nat), ("auditd"@, 50nat), ("eventid"@, 20nat), ("process"@, 10nat), ("pid"@, 10nat), ("service"@, 8nat), ("cbs"@, 30nat)]),
        ("cloud-or-container"@, None, seq![("kubernetes"@, 50nat), ("container"@, 20nat), ("docker"@, 40nat), ("pod"@, 20nat), ("namespace"@, 15nat), ("aws"@, 30nat), ("azure"@, 30nat), ("gcp"@, 30nat), ("cloud"@, 18nat)]),
        ("database"@, None, seq![("postgres"@, 50nat), ("mysql"@, 50nat), ("mongodb"@, 50nat), ("database"@, 25nat), ("query"@, 17nat), ("sql"@, 20nat), ("transaction"@, 12nat)]),
        ("endpoint-security"@, Some(2004i64), seq![("malware"@, 40nat), ("antivirus"@, 40nat), ("edr"@, 40nat), ("quarantine"@, 30nat), ("threat"@, 20nat), ("process_hash"@, 25nat), ("detection"@, 15nat)]),
    ]
}

/// No two families share a name.
pub proof fn family_names_are_distinct()
    ensures
        forall|i: int, j: int| 0 <= i < j < family_rules().len() ==> (#[trigger] family_rules()[i]).0 != (#[trigger] family_rules()[j]).0,
{
    reveal_strlit("network-firewall");
    reveal_strlit("intrusion-detection");
    reveal_strlit("web-or-proxy");
    reveal_strlit("identity-or-authentication");
    reveal_strlit("email");
    reveal_strlit("operating-system-or-audit");
    reveal_strlit("cloud-or-container");
    reveal_strlit("database");
    reveal_strlit("endpoint-security");
    let f = family_rules();
    assert forall|i: int, j: int| 0 <= i < j < f.len() implies (#[trigger] f[i]).0 != (#[trigger] f[j]).0 by {
        if f[i].0.len() == f[j].0.len() {
            assert(f[i].0[0] != f[j].0[0]);
        }
    }
}

/// One source family.
pub struct FamilyRule {
    pub name: &'static str,
    pub class_uid: Option<i64>,
    /// Vocabulary markers with their weights in tenths.
    pub markers: Vec<(&'static str, u32)>,
}

pub open spec fn marker_view(ms: Seq<(&'static str, u32)>) -> Seq<(Seq<char>, nat)> {
    ms.map_values(|m: (&'static str, u32)| (m.0@, m.1 as nat))
}

/// The family table.
pub fn family_table() -> (r: Vec<FamilyRule>)
    ensures
        r@.len() == family_rules().len(),
        forall|i: int| 0 <= i < r@.len() ==> {
            &&& (#[trigger] r@[i]).name@ == family_rules()[i].0
            &&& r@[i].class_uid == family_rules()[i].1
            &&& marker_view(r@[i].markers@) == family_rules()[i].2
            &&& r@[i].markers@.len() <= 10
            &&& forall|k: int| 0 <= k < r@[i].markers@.len() ==> (#[trigger] r@[i].markers@[k]).1 <= 50
        },
{
    let r = vec![
        FamilyRule { name: "network-firewall", class_uid: Some(4001i64), markers: vec![("firewall", 30u32), ("iptables", 40u32), ("filterlog", 40u32), ("deny", 18u32), ("drop", 18u32), ("accept", 12u32), ("action", 11u32), ("srcip", 15u32), ("dstip", 15u32), ("proto", 10u32)] },
        FamilyRule { name: "intrusion-detection", class_uid: Some(2004i64), markers: vec![("suricata", 50u32), ("snort", 50u32), ("signature_id", 30u32), ("event_type", 20u32), ("classification", 25u32), ("alert", 18u32), ("sid", 15u32), ("intrusion", 25u32), ("priority", 10u32)] },
        FamilyRule { name: "web-or-proxy", class_uid: Some(4002i64), markers: vec![("http", 23u32), ("https", 12u32), ("request", 15u32), ("uri", 18u32), ("url", 18u32), ("user_agent", 20u32), ("status", 10u32), ("proxy", 30u32), ("squid", 50u32), ("connect", 11u32)] },
        FamilyRule { name: "identity-or-authentication", class_uid: Some(3002i64), markers: vec![("sshd", 50u32), ("authentication", 30u32), ("login", 20u32), ("logon", 20u32), ("logout", 20u32), ("password", 20u32), ("account", 13u32), ("username", 13u32), ("failed", 8u32)] },
        FamilyRule { name: "email", class_uid: Some(4009i64), markers: vec![("sendmail", 50u32), ("postfix", 50u32), ("smtp", 30u32), ("message-id", 25u32), ("recipient", 15u32), ("relay", 12u32)] },
        FamilyRule { name: "operating-system-or-audit", class_uid: Some(1008i64), markers: vec![("kernel", 22u32), ("systemd", 30u32), ("auditd", 50u32), ("eventid", 20u32), ("process", 10u32), ("pid", 10u32), ("service", 8u32), ("cbs", 30u32)] },
        FamilyRule { name: "cloud-or-container", class_uid: None, markers: vec![("kubernetes", 50u32), ("container", 20u32), ("docker", 40u32), ("pod", 20u32), ("namespace", 15u32), ("aws", 30u32), ("azure", 30u32), ("gcp", 30u32), ("cloud", 18u32)] },
        FamilyRule { name: "database", class_uid: None, markers: vec![("postgres", 50u32), ("mysql", 50u32), ("mongodb", 50u32), ("database", 25u32), ("query", 17u32), ("sql", 20u32), ("transaction", 12u32)] },
        FamilyRule { name: "endpoint-security", class_uid: Some(2004i64), markers: vec![("malware", 40u32), ("antivirus", 40u32), ("edr", 40u32), ("quarantine", 30u32), ("threat", 20u32), ("process_hash", 25u32), ("detection", 15u32)] },
    ];
    assert forall|i: int| 0 <= i < r@.len() implies marker_view((#[trigger] r@[i]).markers@) == family_rules()[i].2 by {
        assert(marker_view(r@[i].markers@) =~= family_rules()[i].2);
    }
    r
}

/// The summed weight of the markers present.
pub open spec fn weight_of(v: VocabV, ms: Seq<(Seq<char>, nat)>) -> nat
    decreases ms.len(),
{
    if ms.len() == 0 {
        0
    } else {
        weight_of(v, ms.drop_last()) + if vocab_has(v, ms.last().0) { ms.last().1 } else { 0 }
    }
}

/// The markers present, in table order.
pub open spec fn hits_of(v: VocabV, ms: Seq<(Seq<char>, nat)>) -> Seq<Seq<char>>
    decreases ms.len(),
{
    if ms.len() == 0 {
        Seq::empty()
    } else {
        hits_of(v, ms.drop_last()) + if vocab_has(v, ms.last().0) { seq![ms.last().0] } else { Seq::empty() }
    }
}

pub open spec fn family_score(v: VocabV, i: int) -> nat {
    weight_of(v, family_rules()[i].2)
}

/// Family `i` ranks before family `j`: a higher score, or the same score
/// and a name earlier in the alphabet.
pub open spec fn outranks(v: VocabV, i: int, j: int) -> bool {
    family_score(v, i) > family_score(v, j)
        || (family_score(v, i) == family_score(v, j) && text_lt(family_rules()[i].0, family_rules()[j].0))
}

/// Below 2.5 no family is named.
pub const FAMILY_THRESHOLD_TENTHS: u32 = 25;

/// The family the vocabulary points to.
#[derive(Debug, Clone)]
pub struct FamilyVerdict {
    /// The leading family, or `unknown` under the threshold.
    pub name: String,
    pub class_uid: Option<i64>,
    /// The leading family's score, in tenths.
    pub score_tenths: u32,
    /// The best score among the other families, in tenths.
    pub runner_up_tenths: u32,
    /// The leading family's markers found, in table order; none under the
    /// threshold.
    pub hits: Vec<String>,
    /// The runner-up scores at least 80% of the leader.
    pub ambiguous: bool,
}

/// What `r` says of the vocabulary `v`, with `b` the leading family.
pub open spec fn verdict_for(v: VocabV, b: int, r: FamilyVerdict) -> bool {
    let f = family_rules();
    &&& 0 <= b < f.len()
    &&& forall|j: int| 0 <= j < f.len() && j != b ==> #[trigger] outranks(v, b, j)
    &&& r.score_tenths == family_score(v, b)
    &&& (forall|j: int| 0 <= j < f.len() && j != b ==> #[trigger] family_score(v, j) <= r.runner_up_tenths)
    &&& (exists|j: int| 0 <= j < f.len() && j != b && #[trigger] family_score(v, j) == r.runner_up_tenths)
    &&& if family_score(v, b) < FAMILY_THRESHOLD_TENTHS {
        &&& r.name@ == "unknown"@
        &&& r.class_uid is None
        &&& r.hits@.len() == 0
        &&& !r.ambiguous
    } else {
        &&& r.name@ == f[b].0
        &&& r.class_uid == f[b].1
        &&& strings(r.hits@) == hits_of(v, f[b].2)
        &&& r.ambiguous == (10 * r.runner_up_tenths >= 8 * family_score(v, b))
    }
}

proof fn lemma_outranks(v: VocabV, i: int, j: int, k: int)
    requires
        0 <= i < family_rules().len(),
        0 <= j < family_rules().len(),
        0 <= k < family_rules().len(),
    ensures
        !outranks(v, i, i),
        outranks(v, i, j) && outranks(v, j, k) ==> outranks(v, i, k),
        i != j ==> outranks(v, i, j) || outranks(v, j, i),
{
    family_names_are_distinct();
    let f = family_rules();
    lemma_text_lt_irrefl(f[i].0);
    lemma_text_lt_total(f[i].0, f[j].0);
    if text_lt(f[i].0, f[j].0) && text_lt(f[j].0, f[k].0) {
        lemma_text_lt_trans(f[i].0, f[j].0, f[k].0);
    }
    if i != j {
        if i < j {
            assert(f[i].0 != f[j].0);
        } else {
            assert(f[j].0 != f[i].0);
        }
    }
}

/// The score of one family and the markers it found.
fn score_family(v: &Vocabulary, rule: &FamilyRule) -> (r: (u32, Vec<String>))
    requires
        rule.markers@.len() <= 10,
        forall|k: int| 0 <= k < rule.markers@.len() ==> (#[trigger] rule.markers@[k]).1 <= 50,
    ensures
        r.0 as nat == weight_of(v@, marker_view(rule.markers@)),
        strings(r.1@) == hits_of(v@, marker_view(rule.markers@)),
        r.0 <= 500,
{
    let ghost ms = marker_view(rule.markers@);
    let mut score: u32 = 0;
    let mut hits: Vec<String> = Vec::new();
    let mut k: usize = 0;
    while k < rule.markers.len()
        invariant
            k <= rule.markers@.len() <= 10,
            ms == marker_view(rule.markers@),
            forall|q: int| 0 <= q < rule.markers@.len() ==> (#[trigger] rule.markers@[q]).1 <= 50,
            score as nat == weight_of(v@, ms.take(k as int)),
            strings(hits@) == hits_of(v@, ms.take(k as int)),
            score <= 50 * k,
        decreases rule.markers@.len() - k,
    {
        let (m, w) = rule.markers[k];
        assert(ms.take(k + 1).drop_last() == ms.take(k as int));
        assert(ms.take(k + 1).last() == (m@, w as nat));
        if v.has(m) {
            score = score + w;
            hits.push(crate::text::owned(m));
        }
        k += 1;
    }
    assert(ms.take(rule.markers@.len() as int) == ms);
    (score, hits)
}

/// The source family the vocabulary suggests: the highest-scoring family
/// (ties go to the earlier name), named only at a score of 2.5 or more, and
/// ambiguous when the runner-up scores 80% of it or more.
pub fn infer_family(v: &Vocabulary) -> (r: FamilyVerdict)
    ensures
        exists|b: int| verdict_for(v@, b, r),
{
    let table = family_table();
    let ghost f = family_rules();
    let mut scores: Vec<u32> = Vec::new();
    let mut found: Vec<Vec<String>> = Vec::new();
    let mut i: usize = 0;
    while i < table.len()
        invariant
            i <= table@.len() == f.len(),
            f == family_rules(),
            scores@.len() == i && found@.len() == i,
            forall|q: int| 0 <= q < table@.len() ==> {
                &&& (#[trigger] table@[q]).name@ == f[q].0
                &&& table@[q].class_uid == f[q].1
                &&& marker_view(table@[q].markers@) == f[q].2
                &&& table@[q].markers@.len() <= 10
                &&& forall|k: int| 0 <= k < table@[q].markers@.len() ==> (#[trigger] table@[q].markers@[k]).1 <= 50
            },
            forall|q: int| 0 <= q < i ==> (#[trigger] scores@[q]) as nat == family_score(v@, q) && scores@[q] <= 500,
            forall|q: int| 0 <= q < i ==> strings((#[trigger] found@[q])@) == hits_of(v@, f[q].2),
        decreases table@.len() - i,
    {
        let (s, h) = score_family(v, &table[i]);
        scores.push(s);
        found.push(h);
        i += 1;
    }
    // The leader, and the best of the rest.
    let mut b: usize = 0;
    let mut runner: u32 = 0;
    let mut j: usize = 1;
    while j < table.len()
        invariant
            1 <= j <= table@.len() == f.len() == scores@.len(),
            f == family_rules(),
            b < j,
            forall|q: int| 0 <= q < table@.len() ==> (#[trigger] table@[q]).name@ == f[q].0,
            forall|q: int| 0 <= q < scores@.len() ==> (#[trigger] scores@[q]) as nat == family_score(v@, q) && scores@[q] <= 500,
            forall|q: int| 0 <= q < j && q != b ==> #[trigger] outranks(v@, b as int, q),
            forall|q: int| 0 <= q < j && q != b ==> #[trigger] family_score(v@, q) <= runner,
            j >= 2 ==> exists|q: int| 0 <= q < j && q != b && #[trigger] family_score(v@, q) == runner,
            j == 1 ==> runner == 0,
            runner <= 500,
        decreases table@.len() - j,
    {
        let sj = scores[j];
        let sb = scores[b];
        let jn = chars_of(table[j].name);
        let bn = chars_of(table[b].name);
        let ahead = sj > sb || (sj == sb && crate::decode::salvage::text_less(&jn, &bn));
        assert(ahead == outranks(v@, j as int, b as int));
        let ghost old_b = b as int;
        let ghost old_runner = runner;
        if ahead {
            if sb > runner || j == 1 {
                runner = sb;
            }
            b = j;
            proof {
                assert forall|q: int| 0 <= q < j + 1 && q != b implies #[trigger] outranks(v@, b as int, q) by {
                    lemma_outranks(v@, j as int, old_b, q);
                }
                assert forall|q: int| 0 <= q < j + 1 && q != b implies #[trigger] family_score(v@, q) <= runner by {
                    if q != old_b {
                        lemma_outranks(v@, j as int, old_b, q);
                    }
                }
                assert(family_score(v@, old_b) == runner || (old_runner == runner && j >= 2));
                if family_score(v@, old_b) == runner {
                    assert(0 <= old_b < j + 1 && old_b != b);
                } else {
                    let q = choose|q: int| 0 <= q < j && q != old_b && #[trigger] family_score(v@, q) == old_runner;
                    assert(q != b);
                }
            }
        } else {
            if sj > runner || j == 1 {
                runner = sj;
            }
            proof {
                lemma_outranks(v@, j as int, b as int, b as int);
                assert forall|q: int| 0 <= q < j + 1 && q != b implies #[trigger] outranks(v@, b as int, q) by {
                    if q == j {
                        lemma_outranks(v@, b as int, j as int, j as int);
                    }
                }
                if family_score(v@, j as int) == runner {
                    assert(0 <= j < j + 1 && j != b);
                } else {
                    let q = choose|q: int| 0 <= q < j && q != b && #[trigger] family_score(v@, q) == old_runner;
                }
            }
        }
        j += 1;
    }
    let best = scores[b];
    let r = if best < FAMILY_THRESHOLD_TENTHS {
        FamilyVerdict {
            name: crate::text::owned("unknown"),
            class_uid: None,
            score_tenths: best,
            runner_up_tenths: runner,
            hits: Vec::new(),
            ambiguous: false,
        }
    } else {
        let hits = found[b].clone();
        FamilyVerdict {
            name: crate::text::owned(table[b].name),
            class_uid: table[b].class_uid,
            score_tenths: best,
            runner_up_tenths: runner,
            hits,
            ambiguous: 10 * runner >= 8 * best,
        }
    };
    assert(verdict_for(v@, b as int, r));
    r
}


// ---------------------------------------------------------------------------
// Wire format
// ---------------------------------------------------------------------------

/// The record starts, after leading whitespace, with `<`, holds `</` and
/// ends with `>`.
pub open spec fn xml_like(s: Seq<char>) -> bool {
    let t = crate::text::trim_start(s);
    t.len() > 0 && t[0] == '<' && find_seq(t, "</"@) is Some && t.last() == '>'
}

/// How many samples satisfy each body and envelope test.
#[derive(Debug, Clone, Copy, PartialEq, Eq, Structural)]
pub struct FormatCounts {
    pub total: usize,
    /// Parse as a JSON document.
    pub json: usize,
    pub cef: usize,
    pub leef: usize,
    pub xml: usize,
    /// Hold at least two `key=value` pairs.
    pub keyvalue: usize,
    pub syslog: usize,
}

pub open spec fn count_where(ss: Seq<Seq<char>>, p: spec_fn(Seq<char>) -> bool) -> nat
    decreases ss.len(),
{
    if ss.len() == 0 { 0 } else { count_where(ss.drop_last(), p) + if p(ss.last()) { 1nat } else { 0nat } }
}

pub open spec fn format_counts_of(ss: Seq<Seq<char>>) -> FormatCounts {
    FormatCounts {
        total: ss.len() as usize,
        json: count_where(ss, |s: Seq<char>| crate::decode::json::json_tree(s) is Ok) as usize,
        cef: count_where(ss, |s: Seq<char>| find_seq(s, "CEF:"@) is Some) as usize,
        leef: count_where(ss, |s: Seq<char>| find_seq(s, "LEEF:"@) is Some) as usize,
        xml: count_where(ss, |s: Seq<char>| xml_like(s)) as usize,
        keyvalue: count_where(ss, |s: Seq<char>| count_pairs(words(s)) >= 2) as usize,
        syslog: count_where(ss, |s: Seq<char>| syslog_framed(s)) as usize,
    }
}

proof fn lemma_count_where_le(ss: Seq<Seq<char>>, p: spec_fn(Seq<char>) -> bool)
    ensures
        count_where(ss, p) <= ss.len(),
    decreases ss.len(),
{
    if ss.len() > 0 {
        lemma_count_where_le(ss.drop_last(), p);
    }
}

fn xml_shaped(s: &str) -> (r: bool)
    ensures
        r == xml_like(s@),
{
    let cs = chars_of(s);
    let (a, b) = trim_range(&cs, 0, cs.len());
    assert(cs@.subrange(0, cs@.len() as int) == s@);
    let n = cs.len();
    let ghost t = crate::text::trim_start(s@);
    assert(t == cs@.subrange(a as int, n as int));
    if a >= n || cs[a] != '<' || cs[n - 1] != '>' {
        return false;
    }
    let close = ['<', '/'];
    proof {
        reveal_strlit("</");
        assert(close@ =~= "</"@);
    }
    find_str(&cs, a, n, &close).is_some()
}

/// The body and envelope tests, counted over the samples.
pub fn format_counts(samples: &[String]) -> (r: FormatCounts)
    ensures
        r == format_counts_of(strings(samples@)),
        r.total == samples@.len(),
        r.json <= r.total && r.cef <= r.total && r.leef <= r.total,
        r.xml <= r.total && r.keyvalue <= r.total && r.syslog <= r.total,
{
    let ghost ss = strings(samples@);
    let mut c = FormatCounts { total: 0, json: 0, cef: 0, leef: 0, xml: 0, keyvalue: 0, syslog: 0 };
    let cef_mark = ['C', 'E', 'F', ':'];
    let leef_mark = ['L', 'E', 'E', 'F', ':'];
    proof {
        reveal_strlit("CEF:");
        reveal_strlit("LEEF:");
        assert(cef_mark@ =~= "CEF:"@);
        assert(leef_mark@ =~= "LEEF:"@);
    }
    let mut i: usize = 0;
    while i < samples.len()
        invariant
            i <= samples@.len(),
            ss == strings(samples@),
            cef_mark@ == "CEF:"@,
            leef_mark@ == "LEEF:"@,
            c == format_counts_of(ss.take(i as int)),
            c.total == i,
            c.json <= i && c.cef <= i && c.leef <= i && c.xml <= i && c.keyvalue <= i && c.syslog <= i,
        decreases samples@.len() - i,
    {
        let ghost t = ss.take(i + 1);
        assert(t.drop_last() == ss.take(i as int));
        assert(t.last() == samples@[i as int]@);
        proof {
            lemma_count_where_le(ss.take(i as int), |s: Seq<char>| crate::decode::json::json_tree(s) is Ok);
            lemma_count_where_le(ss.take(i as int), |s: Seq<char>| find_seq(s, "CEF:"@) is Some);
            lemma_count_where_le(ss.take(i as int), |s: Seq<char>| find_seq(s, "LEEF:"@) is Some);
            lemma_count_where_le(ss.take(i as int), |s: Seq<char>| xml_like(s));
            lemma_count_where_le(ss.take(i as int), |s: Seq<char>| count_pairs(words(s)) >= 2);
            lemma_count_where_le(ss.take(i as int), |s: Seq<char>| syslog_framed(s));
        }
        let s = samples[i].as_str();
        let cs = chars_of(s);
        assert(cs@.subrange(0, cs@.len() as int) == cs@);
        let is_json = crate::decode::json::json_level(s).is_ok();
        let is_cef = find_str(&cs, 0, cs.len(), &cef_mark).is_some();
        let is_leef = find_str(&cs, 0, cs.len(), &leef_mark).is_some();
        let is_xml = xml_shaped(s);
        let is_kv = count_key_values(s) >= 2;
        let is_syslog = looks_syslog_framed(s);
        c = FormatCounts {
            total: c.total + 1,
            json: if is_json { c.json + 1 } else { c.json },
            cef: if is_cef { c.cef + 1 } else { c.cef },
            leef: if is_leef { c.leef + 1 } else { c.leef },
            xml: if is_xml { c.xml + 1 } else { c.xml },
            keyvalue: if is_kv { c.keyvalue + 1 } else { c.keyvalue },
            syslog: if is_syslog { c.syslog + 1 } else { c.syslog },
        };
        i += 1;
    }
    assert(ss.take(samples@.len() as int) == ss);
    c
}

/// The body format the samples mostly share.
#[derive(Debug, Clone, Copy, PartialEq, Eq, Structural)]
pub enum BodyFormat {
    Cef,
    Leef,
    Json,
    Xml,
    KeyValue,
    Delimited,
    Unstructured,
}

/// At least half the samples.
pub open spec fn majority(n: usize, total: usize) -> bool {
    2 * n >= total
}

/// The first body format, in order CEF, LEEF, JSON, XML, key-value, that at
/// least half the samples show; else delimited when the decoder chain reads
/// CSV; else unstructured text.
pub open spec fn body_of(c: FormatCounts, delimited: bool) -> BodyFormat {
    if majority(c.cef, c.total) {
        BodyFormat::Cef
    } else if majority(c.leef, c.total) {
        BodyFormat::Leef
    } else if majority(c.json, c.total) {
        BodyFormat::Json
    } else if majority(c.xml, c.total) {
        BodyFormat::Xml
    } else if majority(c.keyvalue, c.total) {
        BodyFormat::KeyValue
    } else if delimited {
        BodyFormat::Delimited
    } else {
        BodyFormat::Unstructured
    }
}

pub open spec fn body_name(b: BodyFormat) -> Seq<char> {
    match b {
        BodyFormat::Cef => "cef"@,
        BodyFormat::Leef => "leef"@,
        BodyFormat::Json => "json"@,
        BodyFormat::Xml => "xml"@,
        BodyFormat::KeyValue => "keyvalue"@,
        BodyFormat::Delimited => "delimited"@,
        BodyFormat::Unstructured => "unstructured-text"@,
    }
}

/// The wire format: the body's name, behind `syslog-` when at least half
/// the samples are syslog-framed and the body is neither CEF nor LEEF.
pub open spec fn wire_format_of(c: FormatCounts, delimited: bool) -> Seq<char> {
    let b = body_of(c, delimited);
    if majority(c.syslog, c.total) && b != BodyFormat::Cef && b != BodyFormat::Leef {
        "syslog-"@ + body_name(b)
    } else {
        body_name(b)
    }
}

pub fn body_format(c: &FormatCounts, delimited: bool) -> (r: BodyFormat)
    requires
        c.cef <= c.total && c.leef <= c.total && c.json <= c.total && c.xml <= c.total && c.keyvalue <= c.total,
    ensures
        r == body_of(*c, delimited),
{
    if c.cef >= c.total - c.cef {
        BodyFormat::Cef
    } else if c.leef >= c.total - c.leef {
        BodyFormat::Leef
    } else if c.json >= c.total - c.json {
        BodyFormat::Json
    } else if c.xml >= c.total - c.xml {
        BodyFormat::Xml
    } else if c.keyvalue >= c.total - c.keyvalue {
        BodyFormat::KeyValue
    } else if delimited {
        BodyFormat::Delimited
    } else {
        BodyFormat::Unstructured
    }
}

pub fn body_format_name(b: BodyFormat) -> (r: &'static str)
    ensures
        r@ == body_name(b),
{
    match b {
        BodyFormat::Cef => "cef",
        BodyFormat::Leef => "leef",
        BodyFormat::Json => "json",
        BodyFormat::Xml => "xml",
        BodyFormat::KeyValue => "keyvalue",
        BodyFormat::Delimited => "delimited",
        BodyFormat::Unstructured => "unstructured-text",
    }
}

/// The wire format label of samples with counts `c`; `delimited` says
/// whether the decoder chain reads CSV.
pub fn wire_format(c: &FormatCounts, delimited: bool) -> (r: String)
    requires
        c.cef <= c.total && c.leef <= c.total && c.json <= c.total && c.xml <= c.total && c.keyvalue <= c.total,
        c.syslog <= c.total,
    ensures
        r@ == wire_format_of(*c, delimited),
{
    let b = body_format(c, delimited);
    let name = body_format_name(b);
    if c.syslog >= c.total - c.syslog && b != BodyFormat::Cef && b != BodyFormat::Leef {
        let mut out = crate::text::owned("syslog-");
        push_str(&mut out, name);
        out
    } else {
        crate::text::owned(name)
    }
}


// ---------------------------------------------------------------------------
// What a profile reads, warns of and recommends
// ---------------------------------------------------------------------------

/// At most this many records are profiled.
pub const PROFILE_RECORDS: usize = 100;

/// The records a profile reads: each trimmed, blank ones dropped, the first
/// [`PROFILE_RECORDS`] of what is left.
pub open spec fn profiled_records(ss: Seq<Seq<char>>) -> Seq<Seq<char>> {
    let t = ss.map_values(|l: Seq<char>| trim(l)).filter(|l: Seq<char>| l.len() > 0);
    if t.len() <= PROFILE_RECORDS { t } else { t.take(PROFILE_RECORDS as int) }
}

proof fn lemma_filter_prefix(t: Seq<Seq<char>>, f: spec_fn(Seq<char>) -> bool, i: int, j: int)
    requires
        0 <= i <= j <= t.len(),
    ensures
        t.take(i).filter(f).len() <= t.take(j).filter(f).len(),
        t.take(j).filter(f).take(t.take(i).filter(f).len() as int) == t.take(i).filter(f),
    decreases j - i,
{
    if i < j {
        lemma_filter_prefix(t, f, i, j - 1);
        assert(t.take(j) == t.take(j - 1) + seq![t[j - 1]]);
        Seq::filter_distributes_over_add(t.take(j - 1), seq![t[j - 1]], f);
        reveal_with_fuel(Seq::filter, 2);
        let a = t.take(i).filter(f);
        let b = t.take(j - 1).filter(f);
        assert(t.take(j).filter(f).take(a.len() as int) =~= b.take(a.len() as int));
    } else {
        assert(t.take(j).filter(f).take(t.take(i).filter(f).len() as int) =~= t.take(i).filter(f));
    }
}

/// The records of `samples` that a profile reads.
pub fn profile_records(samples: &[String]) -> (r: Vec<String>)
    ensures
        strings(r@) == profiled_records(strings(samples@)),
{
    let ghost ss = strings(samples@);
    let ghost t = ss.map_values(|l: Seq<char>| trim(l));
    let ghost keep = |l: Seq<char>| l.len() > 0;
    let mut out: Vec<String> = Vec::new();
    let mut i: usize = 0;
    while i < samples.len() && out.len() < PROFILE_RECORDS
        invariant
            i <= samples@.len(),
            ss == strings(samples@),
            t == ss.map_values(|l: Seq<char>| trim(l)),
            keep == (|l: Seq<char>| l.len() > 0),
            out@.len() <= PROFILE_RECORDS,
            strings(out@) == t.take(i as int).filter(keep),
        decreases samples@.len() - i,
    {
        let cs = chars_of(samples[i].as_str());
        let (a, b) = trim_range(&cs, 0, cs.len());
        let ghost before = strings(out@);
        proof {
            assert(cs@.subrange(0, cs@.len() as int) == ss[i as int]);
            assert(t.take(i + 1) == t.take(i as int) + seq![t[i as int]]);
            Seq::filter_distributes_over_add(t.take(i as int), seq![t[i as int]], keep);
            reveal_with_fuel(Seq::filter, 2);
        }
        if b > a {
            out.push(crate::text::string_range(&cs, a, b));
            assert(strings(out@) =~= before.push(t[i as int]));
        }
        i += 1;
    }
    proof {
        assert(t.take(t.len() as int) == t);
        lemma_filter_prefix(t, keep, i as int, t.len() as int);
        if i < samples@.len() {
            assert(out@.len() == PROFILE_RECORDS);
        }
    }
    out
}

/// Something a reader of a profile should know before trusting it.
#[derive(Debug, Clone, Copy, PartialEq, Eq)]
pub enum ProfileWarning {
    /// There were no non-blank records.
    NoRecords,
    /// One record shows no variation.
    OneRecord,
    /// The best two source families scored close together.
    CloseFamilies,
    /// No vendor or product signature matched.
    NoSignature,
    /// No literal occurs in every record.
    NoDetector,
    /// The fields are positional.
    Positional,
}

/// The warnings of a profile of `records` records, in this order.
pub open spec fn warnings_for(records: nat, close_families: bool, hypotheses: nat, detectors: nat, delimited: bool) -> Seq<ProfileWarning> {
    if records == 0 {
        seq![ProfileWarning::NoRecords]
    } else {
        (if records == 1 { seq![ProfileWarning::OneRecord] } else { Seq::empty() })
            + (if close_families { seq![ProfileWarning::CloseFamilies] } else { Seq::empty() })
            + (if hypotheses == 0 { seq![ProfileWarning::NoSignature] } else { Seq::empty() })
            + (if detectors == 0 { seq![ProfileWarning::NoDetector] } else { Seq::empty() })
            + (if delimited { seq![ProfileWarning::Positional] } else { Seq::empty() })
    }
}

/// The warnings of a profile read from `records` records, whose families
/// scored close or not, with `hypotheses` product hypotheses, `detectors`
/// stable literals, and positional fields or not.
pub fn profile_warnings(records: usize, close_families: bool, hypotheses: usize, detectors: usize, delimited: bool) -> (r: Vec<ProfileWarning>)
    ensures
        r@ == warnings_for(records as nat, close_families, hypotheses as nat, detectors as nat, delimited),
{
    let mut out: Vec<ProfileWarning> = Vec::new();
    if records == 0 {
        out.push(ProfileWarning::NoRecords);
        assert(out@ =~= seq![ProfileWarning::NoRecords]);
        return out;
    }
    if records == 1 {
        out.push(ProfileWarning::OneRecord);
    }
    if close_families {
        out.push(ProfileWarning::CloseFamilies);
    }
    if hypotheses == 0 {
        out.push(ProfileWarning::NoSignature);
    }
    if detectors == 0 {
        out.push(ProfileWarning::NoDetector);
    }
    if delimited {
        out.push(ProfileWarning::Positional);
    }
    assert(out@ =~= warnings_for(records as nat, close_families, hypotheses as nat, detectors as nat, delimited));
    out
}

/// What to do after a profile.
#[derive(Debug, Clone, Copy, PartialEq, Eq)]
pub enum NextStep {
    /// Nothing was read: collect representative records.
    CollectRecords,
    /// No literal identifies the source yet: collect more and find one.
    FindMarker,
    /// Draft under an Unknown identity.
    DraftUnknown,
    /// Draft a candidate and verify it.
    DraftCandidate,
}

/// The step after a profile of `records` records with `detectors` stable
/// literals and `hypotheses` product hypotheses.
pub open spec fn step_for(records: nat, detectors: nat, hypotheses: nat) -> NextStep {
    if records == 0 {
        NextStep::CollectRecords
    } else if detectors == 0 {
        NextStep::FindMarker
    } else if hypotheses == 0 {
        NextStep::DraftUnknown
    } else {
        NextStep::DraftCandidate
    }
}

pub fn next_step(records: usize, detectors: usize, hypotheses: usize) -> (r: NextStep)
    ensures
        r == step_for(records as nat, detectors as nat, hypotheses as nat),
{
    if records == 0 {
        NextStep::CollectRecords
    } else if detectors == 0 {
        NextStep::FindMarker
    } else if hypotheses == 0 {
        NextStep::DraftUnknown
    } else {
        NextStep::DraftCandidate
    }
}

} // verus!
