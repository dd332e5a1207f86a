//! Syslog envelope decoding: RFC 3164 (BSD) and RFC 5424.
//!
//! The two formats share a `<PRI>` prefix and diverge after it, so one
//! decoder handles both and dispatches on what follows. Every field after
//! `<PRI>` is optional, and anything that does not match is left in the body
//! for the next decoder.
use vstd::prelude::*;
use crate::decode::{DecodeError, Decoded, Outcome, outcome};
use crate::field::{
    Entries, FieldMap, Value, ValueV, insert_entry, parse_u64, parse_uint,
};
use crate::text::{
    alnum, byte_len, chars_of, chars_sized, digit, eq_char, find, find_char, find_p, is_alnum,
    is_digit, lead, lemma_find_p, lemma_find_p_first, lemma_find_p_none, lemma_lead_bound, lemma_trail_bound,
    lemma_utf8_len_sub, owned, part, push_char, push_range, skip_ws, string_range, trail, trim,
    trim_range, trim_start, utf8_len, ws_p,
};

verus! {

/// Which syslog dialects to accept.
#[derive(Debug, Clone, Copy, PartialEq, Eq, Structural)]
pub enum Dialect {
    Auto,
    Rfc3164,
    Rfc5424,
}

/// Decodes the syslog envelope, leaving the message body for the next decoder.
#[derive(Debug, Clone)]
pub struct SyslogDecoder {
    pub dialect: Dialect,
}

// ---------------------------------------------------------------------------
// The format, as a function of the text
// ---------------------------------------------------------------------------

pub open spec fn strip_space(s: Seq<char>) -> Seq<char> {
    if s.len() > 0 && s[0] == ' ' { s.drop_first() } else { s }
}

/// Split off the next space-delimited token.
pub open spec fn token(s: Seq<char>) -> (Seq<char>, Seq<char>) {
    match find(s, ' ') {
        Some(i) => (s.take(i), s.skip(i + 1)),
        None => (s, Seq::empty()),
    }
}

pub open spec fn crlf0_p() -> spec_fn(char) -> bool {
    |c: char| c == '\r' || c == '\n' || c == '\0'
}

/// `s.trim_end_matches(['\r', '\n', '\0'])`.
pub open spec fn trim_crlf0(s: Seq<char>) -> Seq<char> {
    s.take(s.len() - trail(s, crlf0_p()))
}

/// `<NNN>` with one to three digits denoting at most 191, and what follows.
pub open spec fn pri(s: Seq<char>) -> Option<(u16, Seq<char>)> {
    if s.len() > 0 && s[0] == '<' {
        let rest = s.drop_first();
        match find(rest, '>') {
            None => None,
            Some(close) => if close == 0 || close > 3 {
                None
            } else {
                match parse_u64(rest.take(close)) {
                    None => None,
                    Some(p) => if p > 191 { None } else { Some((p as u16, rest.skip(close + 1))) },
                }
            },
        }
    } else {
        None
    }
}

pub open spec fn digit_p() -> spec_fn(char) -> bool {
    |c: char| is_digit(c)
}

/// RFC 5424 starts with a one- or two-digit version followed by a space.
pub open spec fn looks_5424(s: Seq<char>) -> bool {
    let k = lead(s, digit_p());
    1 <= k <= 2 && k < s.len() && s[k as int] == ' '
}

/// Where the structured-data element that starts `s` ends, scanning from `i`
/// with nesting `depth` and quote state `q`.
pub open spec fn sd_end(s: Seq<char>, i: int, depth: int, q: bool) -> Option<int>
    decreases s.len() + 1 - i,
{
    if i < 0 || i >= s.len() {
        None
    } else {
        let c = s[i];
        if c == '\\' && q {
            sd_end(s, i + 2, depth, q)
        } else if c == '"' {
            sd_end(s, i + 1, depth, !q)
        } else if c == '[' && !q {
            sd_end(s, i + 1, depth + 1, q)
        } else if c == ']' && !q {
            if depth - 1 == 0 {
                Some(i)
            } else {
                sd_end(s, i + 1, depth - 1, q)
            }
        } else {
            sd_end(s, i + 1, depth, q)
        }
    }
}

pub proof fn lemma_sd_end_bound(s: Seq<char>, i: int, depth: int, q: bool)
    ensures
        sd_end(s, i, depth, q) matches Some(k) ==> 0 <= i <= k < s.len() && s[k] == ']',
    decreases s.len() + 1 - i,
{
    if 0 <= i < s.len() {
        let c = s[i];
        if c == '\\' && q {
            lemma_sd_end_bound(s, i + 2, depth, q);
        } else if c == '"' {
            lemma_sd_end_bound(s, i + 1, depth, !q);
        } else if c == '[' && !q {
            lemma_sd_end_bound(s, i + 1, depth + 1, q);
        } else if c == ']' && !q {
            if depth - 1 != 0 {
                lemma_sd_end_bound(s, i + 1, depth - 1, q);
            }
        } else {
            lemma_sd_end_bound(s, i + 1, depth, q);
        }
    }
}

/// The `[...]` element that starts `s`, and what follows it.
pub open spec fn take_sd(s: Seq<char>) -> Option<(Seq<char>, Seq<char>)> {
    match sd_end(s, 0, 0, false) {
        Some(i) => Some((s.take(i + 1), s.skip(i + 1))),
        None => None,
    }
}

/// Index of the first `"` not escaped by a backslash, from `i`.
pub open spec fn unescaped_quote(s: Seq<char>, i: int) -> Option<int>
    decreases s.len() + 1 - i,
{
    if i < 0 || i >= s.len() {
        None
    } else if s[i] == '\\' {
        unescaped_quote(s, i + 2)
    } else if s[i] == '"' {
        Some(i)
    } else {
        unescaped_quote(s, i + 1)
    }
}

pub proof fn lemma_unescaped_quote_bound(s: Seq<char>, i: int)
    ensures
        unescaped_quote(s, i) matches Some(k) ==> 0 <= i <= k < s.len(),
    decreases s.len() + 1 - i,
{
    if 0 <= i < s.len() {
        if s[i] == '\\' {
            lemma_unescaped_quote_bound(s, i + 2);
        } else if s[i] != '"' {
            lemma_unescaped_quote_bound(s, i + 1);
        }
    }
}

pub open spec fn sd_key(id: Seq<char>) -> Seq<char> {
    "syslog.sd."@ + id
}

pub open spec fn sd_param_key(id: Seq<char>, key: Seq<char>) -> Seq<char> {
    "syslog.sd."@ + id + seq!['.'] + key
}

/// The `key="value"` parameters of one element named `id`.
pub open spec fn sd_params(id: Seq<char>, params: Seq<char>, e: Entries) -> Entries
    decreases params.len(),
{
    match find(params, '=') {
        None => e,
        Some(eq) => {
            proof {
                lemma_find_p(params, eq_char('='));
            }
            let key = trim(params.take(eq));
            let after_eq = params.skip(eq + 1);
            if !(after_eq.len() > 0 && after_eq[0] == '"') {
                e
            } else {
                let rest_q = after_eq.drop_first();
                match unescaped_quote(rest_q, 0) {
                    None => e,
                    Some(end) => {
                        proof {
                            lemma_unescaped_quote_bound(rest_q, 0);
                            lemma_lead_bound(rest_q.skip(end + 1), ws_p());
                        }
                        let e2 = if key.len() > 0 {
                            insert_entry(e, sd_param_key(id, key), ValueV::Str(rest_q.take(end)))
                        } else {
                            e
                        };
                        sd_params(id, trim_start(rest_q.skip(end + 1)), e2)
                    },
                }
            }
        },
    }
}

/// Every structured-data element in `rest`.
pub open spec fn sd_elements(rest: Seq<char>, e: Entries) -> Entries
    decreases rest.len(),
{
    match find(rest, '[') {
        None => e,
        Some(open) => {
            proof {
                lemma_find_p(rest, eq_char('['));
            }
            let tail = rest.skip(open);
            match take_sd(tail) {
                None => e,
                Some((element, after)) => {
                    proof {
                        lemma_sd_end_bound(tail, 0, 0, false);
                    }
                    let inner = element.subrange(1, element.len() - 1);
                    let id = token(inner).0;
                    let params = token(inner).1;
                    let e1 = if id.len() > 0 {
                        insert_entry(e, sd_key(id), ValueV::Str(id))
                    } else {
                        e
                    };
                    sd_elements(after, sd_params(id, params, e1))
                },
            }
        },
    }
}

/// Push `key = t` unless `t` is empty or the nil value `-`.
pub open spec fn push_present(e: Entries, key: Seq<char>, t: Seq<char>) -> Entries {
    if t.len() > 0 && t != seq!['-'] { e.push((key, ValueV::Str(t))) } else { e }
}

pub open spec fn strip_bom(s: Seq<char>) -> Seq<char> {
    if s.len() > 0 && s[0] == '\u{feff}' { s.drop_first() } else { s }
}

/// RFC 5424 after `<PRI>`: the fields, and the message body; or, when the
/// structured data never closes, the byte length of the text from it on.
pub open spec fn parse_5424(input: Seq<char>, e: Entries) -> Result<(Entries, Seq<char>), nat> {
    let (version, r0) = token(input);
    let e0 = e.push(("syslog.version"@, ValueV::Str(version)));
    let (ts, r1) = token(r0);
    let e1 = push_present(e0, "syslog.timestamp"@, ts);
    let (host, r2) = token(r1);
    let e2 = push_present(e1, "syslog.hostname"@, host);
    let (app, r3) = token(r2);
    let e3 = push_present(e2, "syslog.appname"@, app);
    let (procid, r4) = token(r3);
    let e4 = push_present(e3, "syslog.procid"@, procid);
    let (msgid, rest) = token(r4);
    let e5 = push_present(e4, "syslog.msgid"@, msgid);
    if rest.len() > 0 && rest[0] == '-' {
        Ok((e5, strip_bom(strip_space(rest.drop_first()))))
    } else if rest.len() > 0 && rest[0] == '[' {
        match take_sd(rest) {
            None => Err(utf8_len(rest)),
            Some((sd, r)) => Ok((sd_elements(sd, e5), strip_bom(strip_space(r)))),
        }
    } else {
        Ok((e5, strip_bom(rest)))
    }
}

pub open spec fn months() -> Seq<Seq<char>> {
    seq![
        seq!['J', 'a', 'n'], seq!['F', 'e', 'b'], seq!['M', 'a', 'r'], seq!['A', 'p', 'r'],
        seq!['M', 'a', 'y'], seq!['J', 'u', 'n'], seq!['J', 'u', 'l'], seq!['A', 'u', 'g'],
        seq!['S', 'e', 'p'], seq!['O', 'c', 't'], seq!['N', 'o', 'v'], seq!['D', 'e', 'c'],
    ]
}

/// `HH:MM:SS`, exactly eight characters.
pub open spec fn is_hms(s: Seq<char>) -> bool {
    s.len() == 8 && s[2] == ':' && s[5] == ':' && is_digit(s[0]) && is_digit(s[1]) && is_digit(s[3])
        && is_digit(s[4]) && is_digit(s[6]) && is_digit(s[7])
}

/// `MMM d HH:MM:SS` (fifteen characters, day space-padded), or the
/// `MMM d YYYY HH:MM:SS` variant; and the text after it and one space.
pub open spec fn ts_3164(s: Seq<char>) -> Option<(Seq<char>, Seq<char>)> {
    if s.len() < 15 || !months().contains(s.take(3)) {
        None
    } else if !(s[3] == ' ' && (is_digit(s[4]) || s[4] == ' ') && is_digit(s[5]) && s[6] == ' ') {
        None
    } else if is_hms(s.subrange(7, 15)) {
        Some((s.take(15), strip_space(s.skip(15))))
    } else if s.len() >= 20 && is_digit(s[7]) && is_digit(s[8]) && is_digit(s[9]) && is_digit(s[10])
        && s[11] == ' ' && is_hms(s.subrange(12, 20)) {
        Some((s.take(20), strip_space(s.skip(20))))
    } else {
        None
    }
}

pub open spec fn is_host_char(c: char) -> bool {
    is_alnum(c) || c == '.' || c == '-' || c == '_'
}

/// A token that can be a hostname rather than the start of a message.
pub open spec fn plausible_host(t: Seq<char>) -> bool {
    0 < t.len() <= 255 && forall|i: int| 0 <= i < t.len() ==> is_host_char(#[trigger] t[i])
}

pub open spec fn is_tag_char(c: char) -> bool {
    is_alnum(c) || c == '-' || c == '_' || c == '.' || c == '/'
}

pub open spec fn tag_like(t: Seq<char>) -> bool {
    t.len() > 0 && forall|i: int| 0 <= i < t.len() ==> is_tag_char(#[trigger] t[i])
}

/// `tag[pid]:` or `tag:` with the colon within the first forty characters;
/// the tag, the pid, and the text after the colon and one space.
pub open spec fn tag_3164(s: Seq<char>) -> Option<(Seq<char>, Option<Seq<char>>, Seq<char>)> {
    match find(s, ':') {
        None => None,
        Some(colon) => if colon == 0 || colon > 40 {
            None
        } else {
            let head = s.take(colon);
            let rest = strip_space(s.skip(colon + 1));
            match find(head, '[') {
                Some(open) => if open + 1 > head.len() - 1 {
                    None
                } else {
                    let pid = head.subrange(open + 1, head.len() - 1);
                    if head.last() != ']' || !(forall|i: int| 0 <= i < pid.len() ==> is_digit(#[trigger] pid[i])) {
                        None
                    } else if !tag_like(head.take(open)) {
                        None
                    } else {
                        Some((head.take(open), Some(pid), rest))
                    }
                },
                None => if !tag_like(head) {
                    None
                } else {
                    Some((head, None, rest))
                },
            }
        },
    }
}

/// RFC 3164 after `<PRI>`: every header part optional; the body is what is
/// left.
pub open spec fn parse_3164(input: Seq<char>, e: Entries) -> (Entries, Seq<char>) {
    let (e1, r1) = match ts_3164(input) {
        Some((ts, r)) => {
            let e_ts = e.push(("syslog.timestamp"@, ValueV::Str(ts)));
            let (cand, after) = token(r);
            if plausible_host(cand) {
                (e_ts.push(("syslog.hostname"@, ValueV::Str(cand))), after)
            } else {
                (e_ts, r)
            }
        },
        None => (e, input),
    };
    match tag_3164(r1) {
        Some((tag, pid, r)) => {
            let e2 = e1.push(("syslog.appname"@, ValueV::Str(tag)));
            (
                match pid {
                    Some(p) => e2.push(("syslog.procid"@, ValueV::Str(p))),
                    None => e2,
                },
                r,
            )
        },
        None => (e1, r1),
    }
}

/// The priority fields `<PRI>` decomposes into.
pub open spec fn pri_entries(p: u16) -> Entries {
    seq![
        ("syslog.priority"@, ValueV::Int(p as i64)),
        ("syslog.facility"@, ValueV::Int((p / 8) as i64)),
        ("syslog.severity"@, ValueV::Int((p % 8) as i64)),
    ]
}

/// What decoding `input` yields under `dialect`.
pub open spec fn syslog_outcome(dialect: Dialect, input: Seq<char>) -> Outcome {
    let t = trim_crlf0(input);
    if t.len() == 0 {
        Outcome::Empty
    } else if pri(t) is None && dialect != Dialect::Auto {
        Outcome::NotThisFormat("syslog"@, "missing <PRI> prefix"@)
    } else {
        let (e, rest) = match pri(t) {
            Some((p, r)) => (pri_entries(p), r),
            None => (Seq::empty(), t),
        };
        let use_5424 = match dialect {
            Dialect::Rfc5424 => true,
            Dialect::Rfc3164 => false,
            Dialect::Auto => looks_5424(rest),
        };
        if use_5424 {
            match parse_5424(rest, e) {
                Ok((e2, body)) => Outcome::Fields(e2, Some(body)),
                Err(off) => Outcome::Malformed("syslog_rfc5424"@, off as int, "unterminated structured data"@),
            }
        } else {
            Outcome::Fields(parse_3164(rest, e).0, Some(parse_3164(rest, e).1))
        }
    }
}

// ---------------------------------------------------------------------------
// The code
// ---------------------------------------------------------------------------

/// `token(s[lo..hi])`, as `(end of token, start of rest)`.
fn take_token(s: &[char], lo: usize, hi: usize) -> (r: (usize, usize))
    requires
        lo <= hi <= s@.len(),
    ensures
        lo <= r.0 <= r.1 <= hi,
        token(part(s@, lo as int, hi as int)) == (part(s@, lo as int, (r.0) as int), part(s@, (r.1) as int, hi as int)),
{
    let ghost t = part(s@, lo as int, hi as int);
    match find_char(s, lo, hi, ' ') {
        Some(i) => {
            assert(t.take(i - lo) == part(s@, lo as int, i as int));
            assert(t.skip(i - lo + 1) == part(s@, (i + 1) as int, hi as int));
            (i, i + 1)
        },
        None => {
            assert(part(s@, hi as int, hi as int) == Seq::<char>::empty());
            (hi, hi)
        },
    }
}

/// Start of `strip_space(s[lo..hi])`.
fn skip_space(s: &[char], lo: usize, hi: usize) -> (r: usize)
    requires
        lo <= hi <= s@.len(),
    ensures
        lo <= r <= hi,
        part(s@, r as int, hi as int) == strip_space(part(s@, lo as int, hi as int)),
{
    if lo < hi && s[lo] == ' ' {
        assert(part(s@, (lo + 1) as int, hi as int) == part(s@, lo as int, hi as int).drop_first());
        lo + 1
    } else {
        lo
    }
}

/// Start of `strip_bom(s[lo..hi])`.
fn skip_bom(s: &[char], lo: usize, hi: usize) -> (r: usize)
    requires
        lo <= hi <= s@.len(),
    ensures
        lo <= r <= hi,
        part(s@, r as int, hi as int) == strip_bom(part(s@, lo as int, hi as int)),
{
    if lo < hi && s[lo] == '\u{feff}' {
        assert(part(s@, (lo + 1) as int, hi as int) == part(s@, lo as int, hi as int).drop_first());
        lo + 1
    } else {
        lo
    }
}

/// `<NNN>`: the priority and where the rest starts.
fn parse_pri(s: &[char], lo: usize, hi: usize) -> (r: Option<(u16, usize)>)
    requires
        lo <= hi <= s@.len(),
    ensures
        match pri(part(s@, lo as int, hi as int)) {
            Some((p, rest)) => r matches Some((q, k)) && q == p && lo <= k <= hi && part(s@, k as int, hi as int) == rest,
            None => r is None,
        },
{
    let ghost t = part(s@, lo as int, hi as int);
    if !(lo < hi && s[lo] == '<') {
        return None;
    }
    let ghost rest = t.drop_first();
    assert(rest == part(s@, (lo + 1) as int, hi as int));
    let close = match find_char(s, lo + 1, hi, '>') {
        Some(i) => i,
        None => return None,
    };
    let c = close - (lo + 1);
    if c == 0 || c > 3 {
        return None;
    }
    assert(rest.take(c as int) == part(s@, (lo + 1) as int, close as int));
    let p = match parse_uint(s, lo + 1, close) {
        Some(p) => p,
        None => return None,
    };
    if p > 191 {
        return None;
    }
    assert(rest.skip(c + 1) == part(s@, (close + 1) as int, hi as int));
    Some((p as u16, close + 1))
}

/// Whether `s[lo..hi]` starts with a one- or two-digit version and a space.
fn looks_5424_at(s: &[char], lo: usize, hi: usize) -> (r: bool)
    requires
        lo <= hi <= s@.len(),
    ensures
        r == looks_5424(part(s@, lo as int, hi as int)),
{
    let ghost t = part(s@, lo as int, hi as int);
    let mut i = lo;
    while i < hi && i - lo < 3 && digit(s[i])
        invariant
            lo <= i <= hi <= s@.len(),
            i - lo <= 3,
            t == part(s@, lo as int, hi as int),
            lead(t, digit_p()) == (i - lo) + lead(part(s@, i as int, hi as int), digit_p()),
        decreases hi - i,
    {
        assert(part(s@, i as int, hi as int).drop_first() == part(s@, (i + 1) as int, hi as int));
        i += 1;
    }
    let k = i - lo;
    if k >= 3 {
        proof {
            lemma_lead_bound(part(s@, i as int, hi as int), digit_p());
        }
        return false;
    }
    if i < hi {
        assert(part(s@, i as int, hi as int)[0] == s@[i as int]);
        assert(!is_digit(s@[i as int]));
        assert(lead(part(s@, i as int, hi as int), digit_p()) == 0);
        assert(t[k as int] == s@[i as int]);
        k >= 1 && s[i] == ' '
    } else {
        false
    }
}

/// Whether `rest` begins the way an RFC 5424 message does.
pub fn looks_like_rfc5424(rest: &str) -> (r: bool)
    ensures
        r == looks_5424(rest@),
{
    let cs = chars_of(rest);
    assert(part(cs@, 0 as int, (cs.len()) as int) == cs@);
    looks_5424_at(&cs, 0, cs.len())
}

/// End of the structured-data element starting at `lo`.
fn take_structured_data(s: &[char], lo: usize, hi: usize) -> (r: Option<usize>)
    requires
        lo < hi <= s@.len(),
        s@[lo as int] == '[',
    ensures
        match sd_end(part(s@, lo as int, hi as int), 0, 0, false) {
            Some(k) => r == Some((lo + k) as usize),
            None => r is None,
        },
{
    let ghost t = part(s@, lo as int, hi as int);
    let mut i: usize = lo;
    let mut depth: usize = 0;
    let mut in_quotes = false;
    while i < hi
        invariant
            lo <= i,
            lo < hi <= s@.len(),
            s@[lo as int] == '[',
            t == part(s@, lo as int, hi as int),
            i > lo ==> depth >= 1,
            i == lo ==> depth == 0 && !in_quotes,
            depth <= i - lo,
            sd_end(t, 0, 0, false) == sd_end(t, i - lo, depth as int, in_quotes),
        decreases hi - i,
    {
        let c = s[i];
        assert(t[i - lo] == c);
        if c == '\\' && in_quotes {
            if hi - i <= 2 {
                assert(sd_end(t, i - lo + 2, depth as int, in_quotes) is None);
                return None;
            }
            i = i + 2;
        } else if c == '"' {
            in_quotes = !in_quotes;
            i += 1;
        } else if c == '[' && !in_quotes {
            depth += 1;
            i += 1;
        } else if c == ']' && !in_quotes {
            if depth - 1 == 0 {
                return Some(i);
            }
            depth -= 1;
            i += 1;
        } else {
            i += 1;
        }
    }
    None
}

/// `unescaped_quote(s[lo..hi], 0)`, as an index into `s`.
pub fn find_unescaped_quote(s: &[char], lo: usize, hi: usize) -> (r: Option<usize>)
    requires
        lo <= hi <= s@.len(),
    ensures
        match unescaped_quote(part(s@, lo as int, hi as int), 0) {
            Some(k) => r == Some((lo + k) as usize),
            None => r is None,
        },
{
    let ghost t = part(s@, lo as int, hi as int);
    let mut i: usize = lo;
    while i < hi
        invariant
            lo <= i,
            hi <= s@.len(),
            t == part(s@, lo as int, hi as int),
            unescaped_quote(t, 0) == unescaped_quote(t, i - lo),
        decreases hi - i,
    {
        assert(t[i - lo] == s@[i as int]);
        if s[i] == '\\' {
            if hi - i <= 2 {
                assert(unescaped_quote(t, i - lo + 2) is None);
                return None;
            }
            i = i + 2;
        } else if s[i] == '"' {
            return Some(i);
        } else {
            i += 1;
        }
    }
    None
}

fn sd_key_string(s: &[char], id_lo: usize, id_hi: usize) -> (r: String)
    requires
        id_lo <= id_hi <= s@.len(),
    ensures
        r@ == sd_key(part(s@, id_lo as int, id_hi as int)),
{
    let mut k = owned("syslog.sd.");
    push_range(&mut k, s, id_lo, id_hi);
    k
}

/// Extract `key="value"` parameters of the element named `s[id_lo..id_hi]`.
fn parse_params(s: &[char], id_lo: usize, id_hi: usize, lo: usize, hi: usize, fields: &mut FieldMap)
    requires
        id_lo <= id_hi <= s@.len(),
        lo <= hi <= s@.len(),
    ensures
        final(fields)@ == sd_params(part(s@, id_lo as int, id_hi as int), part(s@, lo as int, hi as int), old(fields)@),
{
    let ghost id = part(s@, id_lo as int, id_hi as int);
    let mut p = lo;
    while p < hi
        invariant
            lo <= p <= hi <= s@.len(),
            id_lo <= id_hi <= s@.len(),
            id == part(s@, id_lo as int, id_hi as int),
            sd_params(id, part(s@, lo as int, hi as int), old(fields)@) == sd_params(id, part(s@, p as int, hi as int), fields@),
        decreases hi - p,
    {
        let ghost params = part(s@, p as int, hi as int);
        let eq = match find_char(s, p, hi, '=') {
            Some(e) => e,
            None => {
                return;
            },
        };
        let (ka, kb) = trim_range(s, p, eq);
        assert(params.take(eq - p) == part(s@, p as int, eq as int));
        let ghost after_eq = params.skip(eq - p + 1);
        assert(after_eq == part(s@, (eq + 1) as int, hi as int));
        if !(eq + 1 < hi && s[eq + 1] == '"') {
            return;
        }
        let q = eq + 2;
        assert(after_eq.drop_first() == part(s@, q as int, hi as int));
        let end = match find_unescaped_quote(s, q, hi) {
            Some(e) => e,
            None => {
                return;
            },
        };
        proof {
            lemma_unescaped_quote_bound(part(s@, q as int, hi as int), 0);
        }
        assert(part(s@, q as int, hi as int).take(end - q) == part(s@, q as int, end as int));
        let ghost e_before = fields@;
        let ghost rest_q = after_eq.drop_first();
        let ghost key_v = part(s@, ka as int, kb as int);
        assert(key_v == trim(params.take(eq - p)));
        assert(after_eq[0] == s@[eq + 1]);
        assert(unescaped_quote(rest_q, 0) == Some(end - q));
        if ka < kb {
            let mut key = sd_key_string(s, id_lo, id_hi);
            push_char(&mut key, '.');
            push_range(&mut key, s, ka, kb);
            assert(key@ == sd_param_key(id, key_v));
            let v = Value::Str(string_range(s, q, end));
            fields.insert(key.as_str(), v);
        }
        let next = skip_ws(s, end + 1, hi);
        assert(part(s@, q as int, hi as int).skip(end - q + 1) == part(s@, (end + 1) as int, hi as int));
        assert(part(s@, next as int, hi as int) == part(s@, (end + 1) as int, hi as int).skip(next - end - 1));
        assert(part(s@, next as int, hi as int) == trim_start(rest_q.skip(end - q + 1)));
        assert(sd_params(id, params, e_before) == sd_params(id, part(s@, next as int, hi as int), fields@));
        p = next;
    }
    assert(part(s@, p as int, hi as int) == Seq::<char>::empty());
}

/// Extract every structured-data element of `s[lo..hi]`.
fn parse_structured_data(s: &[char], lo: usize, hi: usize, fields: &mut FieldMap)
    requires
        lo <= hi <= s@.len(),
    ensures
        final(fields)@ == sd_elements(part(s@, lo as int, hi as int), old(fields)@),
{
    let mut p = lo;
    while p < hi
        invariant
            lo <= p <= hi <= s@.len(),
            sd_elements(part(s@, lo as int, hi as int), old(fields)@) == sd_elements(part(s@, p as int, hi as int), fields@),
        decreases hi - p,
    {
        let ghost rest = part(s@, p as int, hi as int);
        let open = match find_char(s, p, hi, '[') {
            Some(o) => o,
            None => {
                return;
            },
        };
        assert(rest.skip(open - p) == part(s@, open as int, hi as int));
        proof {
            lemma_find_p(rest, eq_char('['));
            assert(rest[open - p] == s@[open as int]);
        }
        let close = match take_structured_data(s, open, hi) {
            Some(c) => c,
            None => {
                return;
            },
        };
        proof {
            lemma_sd_end_bound(part(s@, open as int, hi as int), 0, 0, false);
        }
        let ghost element = part(s@, open as int, hi as int).take(close - open + 1);
        assert(element == part(s@, open as int, close + 1));
        assert(part(s@, open as int, hi as int).skip(close - open + 1) == part(s@, (close + 1) as int, hi as int));
        // `element` is `[` ... `]` with at least one character between the
        // two ends counted, since the opening bracket raises the depth.
        assert(close > open) by {
            if close == open {
                assert(part(s@, open as int, hi as int)[0] == '[');
            }
        }
        assert(element.subrange(1, element.len() - 1) == part(s@, (open + 1) as int, (close as int) as int));
        let (a, b) = take_token(s, open + 1, close);
        if a > open + 1 {
            let key = sd_key_string(s, open + 1, a);
            let v = Value::Str(string_range(s, open + 1, a));
            fields.insert(key.as_str(), v);
        }
        parse_params(s, open + 1, a, b, close, fields);
        p = close + 1;
    }
    assert(part(s@, p as int, hi as int) == Seq::<char>::empty());
}

fn push_field(fields: &mut FieldMap, key: &str, s: &[char], lo: usize, hi: usize)
    requires
        lo <= hi <= s@.len(),
    ensures
        final(fields)@ == old(fields)@.push((key@, ValueV::Str(part(s@, lo as int, hi as int)))),
{
    fields.push_unchecked(key, Value::Str(string_range(s, lo, hi)));
}

fn push_if_present(fields: &mut FieldMap, key: &str, s: &[char], lo: usize, hi: usize)
    requires
        lo <= hi <= s@.len(),
    ensures
        final(fields)@ == push_present(old(fields)@, key@, part(s@, lo as int, hi as int)),
{
    let present = hi > lo && !(hi - lo == 1 && s[lo] == '-');
    assert(present == (part(s@, lo as int, hi as int).len() > 0 && part(s@, lo as int, hi as int) != seq!['-'])) by {
        if hi - lo == 1 {
            assert(part(s@, lo as int, hi as int)[0] == s@[lo as int]);
            assert(seq!['-'][0] == '-');
            if s@[lo as int] == '-' {
                assert(part(s@, lo as int, hi as int) =~= seq!['-']);
            }
        } else {
            assert(seq!['-'].len() == 1);
        }
    }
    if present {
        push_field(fields, key, s, lo, hi);
    }
}

/// RFC 5424 after `<PRI>`: `Ok(body start)` or `Err(byte offset)`.
fn parse_5424_at(s: &[char], lo: usize, hi: usize, fields: &mut FieldMap) -> (r: Result<usize, usize>)
    requires
        lo <= hi <= s@.len(),
        utf8_len(s@) <= usize::MAX,
    ensures
        match parse_5424(part(s@, lo as int, hi as int), old(fields)@) {
            Ok((e, body)) => r matches Ok(b) && lo <= b <= hi && final(fields)@ == e && part(s@, b as int, hi as int) == body,
            Err(off) => r matches Err(o) && o == off,
        },
{
    let (a, r0) = take_token(s, lo, hi);
    push_field(fields, "syslog.version", s, lo, a);
    let (a1, r1) = take_token(s, r0, hi);
    push_if_present(fields, "syslog.timestamp", s, r0, a1);
    let (a2, r2) = take_token(s, r1, hi);
    push_if_present(fields, "syslog.hostname", s, r1, a2);
    let (a3, r3) = take_token(s, r2, hi);
    push_if_present(fields, "syslog.appname", s, r2, a3);
    let (a4, r4) = take_token(s, r3, hi);
    push_if_present(fields, "syslog.procid", s, r3, a4);
    let (a5, rest) = take_token(s, r4, hi);
    push_if_present(fields, "syslog.msgid", s, r4, a5);
    let ghost rs = part(s@, rest as int, hi as int);
    if rest < hi && s[rest] == '-' {
        assert(rs.drop_first() == part(s@, (rest + 1) as int, hi as int));
        let b = skip_space(s, rest + 1, hi);
        let b2 = skip_bom(s, b, hi);
        return Ok(b2);
    }
    if rest < hi && s[rest] == '[' {
        match take_structured_data(s, rest, hi) {
            None => {
                proof {
                    lemma_utf8_len_sub(s@, rest as int, hi as int);
                }
                return Err(byte_len(s, rest, hi));
            },
            Some(close) => {
                proof {
                    lemma_sd_end_bound(rs, 0, 0, false);
                }
                assert(rs.take(close - rest + 1) == part(s@, rest as int, close + 1));
                assert(rs.skip(close - rest + 1) == part(s@, (close + 1) as int, hi as int));
                parse_structured_data(s, rest, close + 1, fields);
                let b = skip_space(s, close + 1, hi);
                let b2 = skip_bom(s, b, hi);
                return Ok(b2);
            },
        }
    }
    let b = skip_bom(s, rest, hi);
    Ok(b)
}

fn is_month(a: char, b: char, c: char) -> (r: bool)
    ensures
        r == months().contains(seq![a, b, c]),
{
    let r = (a == 'J' && b == 'a' && c == 'n') || (a == 'F' && b == 'e' && c == 'b')
        || (a == 'M' && b == 'a' && c == 'r') || (a == 'A' && b == 'p' && c == 'r')
        || (a == 'M' && b == 'a' && c == 'y') || (a == 'J' && b == 'u' && c == 'n')
        || (a == 'J' && b == 'u' && c == 'l') || (a == 'A' && b == 'u' && c == 'g')
        || (a == 'S' && b == 'e' && c == 'p') || (a == 'O' && b == 'c' && c == 't')
        || (a == 'N' && b == 'o' && c == 'v') || (a == 'D' && b == 'e' && c == 'c');
    proof {
        let m = months();
        let w = seq![a, b, c];
        if r {
            assert(exists|k: int| 0 <= k < m.len() && m[k] == w) by {
                if a == 'J' && b == 'a' && c == 'n' { assert(m[0] == w); }
                else if a == 'F' { assert(m[1] == w); }
                else if a == 'M' && b == 'a' && c == 'r' { assert(m[2] == w); }
                else if a == 'A' && b == 'p' { assert(m[3] == w); }
                else if a == 'M' && b == 'a' && c == 'y' { assert(m[4] == w); }
                else if a == 'J' && b == 'u' && c == 'n' { assert(m[5] == w); }
                else if a == 'J' && b == 'u' && c == 'l' { assert(m[6] == w); }
                else if a == 'A' && b == 'u' { assert(m[7] == w); }
                else if a == 'S' { assert(m[8] == w); }
                else if a == 'O' { assert(m[9] == w); }
                else if a == 'N' { assert(m[10] == w); }
                else { assert(m[11] == w); }
            }
        } else {
            assert forall|k: int| 0 <= k < m.len() implies m[k] != w by {
                assert(m[k].len() == 3);
                if m[k] == w {
                    assert(m[k][0] == a && m[k][1] == b && m[k][2] == c);
                }
            }
        }
    }
    r
}

fn hms_at(s: &[char], i: usize) -> (r: bool)
    requires
        i + 8 <= s@.len(),
    ensures
        r == is_hms(part(s@, i as int, ((i + 8) as usize) as int)),
{
    digit(s[i]) && digit(s[i + 1]) && s[i + 2] == ':' && digit(s[i + 3]) && digit(s[i + 4])
        && s[i + 5] == ':' && digit(s[i + 6]) && digit(s[i + 7])
}

/// The RFC 3164 timestamp at the start of `s[lo..hi]`: its end, and the
/// start of the text after it.
fn take_3164_timestamp(s: &[char], lo: usize, hi: usize) -> (r: Option<(usize, usize)>)
    requires
        lo <= hi <= s@.len(),
    ensures
        match ts_3164(part(s@, lo as int, hi as int)) {
            Some((ts, rest)) => r matches Some((e, k)) && lo <= e <= k <= hi && part(s@, lo as int, e as int) == ts && part(s@, k as int, hi as int) == rest,
            None => r is None,
        },
{
    let ghost t = part(s@, lo as int, hi as int);
    if hi - lo < 15 {
        return None;
    }
    assert(t.take(3) == seq![s@[lo as int], s@[lo + 1], s@[lo + 2]]);
    if !is_month(s[lo], s[lo + 1], s[lo + 2]) {
        return None;
    }
    let day_ok = s[lo + 3] == ' ' && (digit(s[lo + 4]) || s[lo + 4] == ' ') && digit(s[lo + 5]) && s[lo + 6] == ' ';
    if !day_ok {
        return None;
    }
    assert(t.subrange(7, 15) == part(s@, (lo + 7) as int, (lo + 15) as int));
    if hms_at(s, lo + 7) {
        let k = skip_space(s, lo + 15, hi);
        assert(t.take(15) == part(s@, lo as int, lo + 15));
        assert(t.skip(15) == part(s@, (lo + 15) as int, (hi as int) as int));
        return Some((lo + 15, k));
    }
    if hi - lo >= 20 {
        assert(t.subrange(12, 20) == part(s@, (lo + 12) as int, (lo + 20) as int));
        let year_ok = digit(s[lo + 7]) && digit(s[lo + 8]) && digit(s[lo + 9]) && digit(s[lo + 10]) && s[lo + 11] == ' ';
        if year_ok && hms_at(s, lo + 12) {
            let k = skip_space(s, lo + 20, hi);
            assert(t.take(20) == part(s@, lo as int, lo + 20));
            assert(t.skip(20) == part(s@, (lo + 20) as int, (hi as int) as int));
            return Some((lo + 20, k));
        }
    }
    None
}

fn host_char(c: char) -> (r: bool)
    ensures
        r == is_host_char(c),
{
    alnum(c) || c == '.' || c == '-' || c == '_'
}

fn tag_char(c: char) -> (r: bool)
    ensures
        r == is_tag_char(c),
{
    alnum(c) || c == '-' || c == '_' || c == '.' || c == '/'
}

fn is_plausible_hostname(s: &[char], lo: usize, hi: usize) -> (r: bool)
    requires
        lo <= hi <= s@.len(),
    ensures
        r == plausible_host(part(s@, lo as int, hi as int)),
{
    let ghost t = part(s@, lo as int, hi as int);
    if hi == lo || hi - lo > 255 {
        return false;
    }
    let mut i = lo;
    while i < hi
        invariant
            lo <= i <= hi <= s@.len(),
            t == part(s@, lo as int, hi as int),
            forall|j: int| 0 <= j < i - lo ==> is_host_char(#[trigger] t[j]),
        decreases hi - i,
    {
        if !host_char(s[i]) {
            assert(!is_host_char(t[i - lo]));
            return false;
        }
        i += 1;
    }
    true
}

fn is_tag_like(s: &[char], lo: usize, hi: usize) -> (r: bool)
    requires
        lo <= hi <= s@.len(),
    ensures
        r == tag_like(part(s@, lo as int, hi as int)),
{
    let ghost t = part(s@, lo as int, hi as int);
    if hi == lo {
        return false;
    }
    let mut i = lo;
    while i < hi
        invariant
            lo <= i <= hi <= s@.len(),
            t == part(s@, lo as int, hi as int),
            forall|j: int| 0 <= j < i - lo ==> is_tag_char(#[trigger] t[j]),
        decreases hi - i,
    {
        if !tag_char(s[i]) {
            assert(!is_tag_char(t[i - lo]));
            return false;
        }
        i += 1;
    }
    true
}

fn all_digits_at(s: &[char], lo: usize, hi: usize) -> (r: bool)
    requires
        lo <= hi <= s@.len(),
    ensures
        r == (forall|i: int| 0 <= i < part(s@, lo as int, hi as int).len() ==> is_digit(#[trigger] part(s@, lo as int, hi as int)[i])),
{
    let ghost t = part(s@, lo as int, hi as int);
    let mut i = lo;
    while i < hi
        invariant
            lo <= i <= hi <= s@.len(),
            t == part(s@, lo as int, hi as int),
            forall|j: int| 0 <= j < i - lo ==> is_digit(#[trigger] t[j]),
        decreases hi - i,
    {
        if !digit(s[i]) {
            assert(!is_digit(t[i - lo]));
            return false;
        }
        i += 1;
    }
    true
}

/// The RFC 3164 tag at the start of `s[lo..hi]`: tag end, pid range, and
/// where the rest starts.
fn take_3164_tag(s: &[char], lo: usize, hi: usize) -> (r: Option<(usize, Option<(usize, usize)>, usize)>)
    requires
        lo <= hi <= s@.len(),
    ensures
        match tag_3164(part(s@, lo as int, hi as int)) {
            Some((tag, pid, rest)) => r matches Some((te, pr, k)) && lo <= te <= hi && lo <= k <= hi
                && part(s@, lo as int, te as int) == tag && part(s@, k as int, hi as int) == rest
                && match pid {
                    Some(p) => pr matches Some((pa, pb)) && pa <= pb <= hi && part(s@, pa as int, pb as int) == p,
                    None => pr is None,
                },
            None => r is None,
        },
{
    let ghost t = part(s@, lo as int, hi as int);
    let colon = match find_char(s, lo, hi, ':') {
        Some(c) => c,
        None => return None,
    };
    if colon == lo || colon - lo > 40 {
        return None;
    }
    let ghost head = t.take(colon - lo);
    assert(head == part(s@, lo as int, colon as int));
    assert(t.skip(colon - lo + 1) == part(s@, (colon + 1) as int, hi as int));
    let k = skip_space(s, colon + 1, hi);
    match find_char(s, lo, colon, '[') {
        Some(open) => {
            if open + 1 > colon - 1 {
                return None;
            }
            assert(head.subrange(open - lo + 1, head.len() - 1) == part(s@, (open + 1) as int, (colon - 1) as int));
            assert(head.last() == s@[colon - 1]);
            if s[colon - 1] != ']' || !all_digits_at(s, open + 1, colon - 1) {
                return None;
            }
            assert(head.take(open - lo) == part(s@, lo as int, open as int));
            if !is_tag_like(s, lo, open) {
                return None;
            }
            Some((open, Some((open + 1, colon - 1)), k))
        },
        None => {
            if !is_tag_like(s, lo, colon) {
                return None;
            }
            Some((colon, None, k))
        },
    }
}

/// RFC 3164 after `<PRI>`: the start of the body.
fn parse_3164_at(s: &[char], lo: usize, hi: usize, fields: &mut FieldMap) -> (r: usize)
    requires
        lo <= hi <= s@.len(),
    ensures
        lo <= r <= hi,
        final(fields)@ == parse_3164(part(s@, lo as int, hi as int), old(fields)@).0,
        part(s@, r as int, hi as int) == parse_3164(part(s@, lo as int, hi as int), old(fields)@).1,
{
    let mut rest = lo;
    match take_3164_timestamp(s, lo, hi) {
        Some((e, k)) => {
            push_field(fields, "syslog.timestamp", s, lo, e);
            rest = k;
            let (a, b) = take_token(s, k, hi);
            if is_plausible_hostname(s, k, a) {
                push_field(fields, "syslog.hostname", s, k, a);
                rest = b;
            }
        },
        None => {},
    }
    match take_3164_tag(s, rest, hi) {
        Some((te, pid, k)) => {
            push_field(fields, "syslog.appname", s, rest, te);
            match pid {
                Some((pa, pb)) => {
                    push_field(fields, "syslog.procid", s, pa, pb);
                },
                None => {},
            }
            rest = k;
        },
        None => {},
    }
    rest
}

impl SyslogDecoder {
    /// Accept either dialect, dispatching on what follows `<PRI>`.
    pub fn new() -> (r: Self)
        ensures
            r.dialect == Dialect::Auto,
    {
        SyslogDecoder { dialect: Dialect::Auto }
    }

    pub fn rfc3164_only() -> (r: Self)
        ensures
            r.dialect == Dialect::Rfc3164,
    {
        SyslogDecoder { dialect: Dialect::Rfc3164 }
    }

    pub fn rfc5424_only() -> (r: Self)
        ensures
            r.dialect == Dialect::Rfc5424,
    {
        SyslogDecoder { dialect: Dialect::Rfc5424 }
    }

    pub fn name(&self) -> (r: &'static str)
        ensures
            r@ == (match self.dialect {
                Dialect::Auto => "syslog"@,
                Dialect::Rfc3164 => "syslog_rfc3164"@,
                Dialect::Rfc5424 => "syslog_rfc5424"@,
            }),
    {
        match self.dialect {
            Dialect::Auto => "syslog",
            Dialect::Rfc3164 => "syslog_rfc3164",
            Dialect::Rfc5424 => "syslog_rfc5424",
        }
    }

    /// Decode the envelope of one line.
    pub fn decode(&self, input: &str) -> (r: Result<Decoded, DecodeError>)
        ensures
            outcome(r) == syslog_outcome(self.dialect, input@),
    {
        let cs = chars_sized(input);
        let n = cs.len();
        let mut hi = n;
        assert(part(cs@, 0, n as int) == cs@);
        while hi > 0 && (cs[hi - 1] == '\r' || cs[hi - 1] == '\n' || cs[hi - 1] == '\0')
            invariant
                hi <= n == cs@.len(),
                trail(cs@, crlf0_p()) == (n - hi) + trail(part(cs@, 0 as int, hi as int), crlf0_p()),
            decreases hi,
        {
            assert(part(cs@, 0 as int, hi as int).drop_last() == part(cs@, 0 as int, ((hi - 1) as usize) as int));
            assert(part(cs@, 0 as int, hi as int).last() == cs@[hi - 1]);
            hi -= 1;
        }
        proof {
            if hi > 0 {
                assert(part(cs@, 0 as int, hi as int).last() == cs@[hi - 1]);
            }
            assert(part(cs@, 0 as int, n as int) == cs@);
            assert(trim_crlf0(cs@) == part(cs@, 0 as int, hi as int));
        }
        let ghost t = part(cs@, 0 as int, hi as int);
        if hi == 0 {
            return Err(DecodeError::Empty);
        }
        let mut fields = FieldMap::with_capacity(8);
        let rest = match parse_pri(&cs, 0, hi) {
            Some((p, r)) => {
                fields.push_unchecked("syslog.priority", Value::Int(p as i64));
                fields.push_unchecked("syslog.facility", Value::Int((p / 8) as i64));
                fields.push_unchecked("syslog.severity", Value::Int((p % 8) as i64));
                assert(fields@ =~= pri_entries(p));
                r
            },
            None => {
                if self.dialect != Dialect::Auto {
                    return Err(DecodeError::NotThisFormat { format: "syslog", detail: owned("missing <PRI> prefix") });
                }
                0
            },
        };
        let use_5424 = match self.dialect {
            Dialect::Rfc5424 => true,
            Dialect::Rfc3164 => false,
            Dialect::Auto => looks_5424_at(&cs, rest, hi),
        };
        let b = if use_5424 {
            match parse_5424_at(&cs, rest, hi, &mut fields) {
                Ok(b) => b,
                Err(off) => {
                    return Err(DecodeError::Malformed {
                        format: "syslog_rfc5424",
                        offset: off,
                        detail: owned("unterminated structured data"),
                    });
                },
            }
        } else {
            parse_3164_at(&cs, rest, hi, &mut fields)
        };
        Ok(Decoded::with_body(fields, string_range(&cs, b, hi)))
    }
}

// ---------------------------------------------------------------------------
// The body is a stretch of the input
// ---------------------------------------------------------------------------

/// `a` is what is left of `s` after some leading characters.
pub open spec fn tail_of(a: Seq<char>, s: Seq<char>) -> bool {
    exists|k: int| 0 <= k <= s.len() && a == #[trigger] s.skip(k)
}

proof fn lemma_tail_self(s: Seq<char>)
    ensures
        tail_of(s, s),
{
    assert(s == s.skip(0));
}

proof fn lemma_tail_skip(s: Seq<char>, k: int)
    requires
        0 <= k <= s.len(),
    ensures
        tail_of(s.skip(k), s),
{
}

proof fn lemma_tail_trans(a: Seq<char>, b: Seq<char>, c: Seq<char>)
    requires
        tail_of(a, b),
        tail_of(b, c),
    ensures
        tail_of(a, c),
{
    let k1 = choose|k: int| 0 <= k <= b.len() && a == #[trigger] b.skip(k);
    let k2 = choose|k: int| 0 <= k <= c.len() && b == #[trigger] c.skip(k);
    assert(a =~= c.skip(k1 + k2));
}

proof fn lemma_tail_strip(s: Seq<char>)
    ensures
        tail_of(strip_space(s), s),
        tail_of(strip_bom(s), s),
{
    lemma_tail_self(s);
    if s.len() > 0 {
        lemma_tail_skip(s, 1);
    }
}

proof fn lemma_tail_token(s: Seq<char>)
    ensures
        tail_of(token(s).1, s),
{
    lemma_find_p(s, eq_char(' '));
    match find(s, ' ') {
        Some(i) => lemma_tail_skip(s, i + 1),
        None => {
            assert(Seq::<char>::empty() =~= s.skip(s.len() as int));
        },
    }
}

proof fn lemma_tail_5424(input: Seq<char>, e: Entries)
    ensures
        parse_5424(input, e) matches Ok((_, body)) ==> tail_of(body, input),
{
    let r0 = token(input).1;
    let r1 = token(r0).1;
    let r2 = token(r1).1;
    let r3 = token(r2).1;
    let r4 = token(r3).1;
    let rest = token(r4).1;
    lemma_tail_token(input);
    lemma_tail_token(r0);
    lemma_tail_token(r1);
    lemma_tail_token(r2);
    lemma_tail_token(r3);
    lemma_tail_token(r4);
    lemma_tail_trans(r1, r0, input);
    lemma_tail_trans(r2, r1, input);
    lemma_tail_trans(r3, r2, input);
    lemma_tail_trans(r4, r3, input);
    lemma_tail_trans(rest, r4, input);
    if rest.len() > 0 && rest[0] == '-' {
        let a = rest.drop_first();
        lemma_tail_skip(rest, 1);
        assert(a == rest.skip(1));
        lemma_tail_strip(a);
        lemma_tail_strip(strip_space(a));
        lemma_tail_trans(a, rest, input);
        lemma_tail_trans(strip_space(a), a, input);
        lemma_tail_trans(strip_bom(strip_space(a)), strip_space(a), input);
    } else if rest.len() > 0 && rest[0] == '[' {
        lemma_sd_end_bound(rest, 0, 0, false);
        if let Some((_, r)) = take_sd(rest) {
            let i = sd_end(rest, 0, 0, false)->Some_0;
            lemma_tail_skip(rest, i + 1);
            lemma_tail_trans(r, rest, input);
            lemma_tail_strip(r);
            lemma_tail_strip(strip_space(r));
            lemma_tail_trans(strip_space(r), r, input);
            lemma_tail_trans(strip_bom(strip_space(r)), strip_space(r), input);
        }
    } else {
        lemma_tail_strip(rest);
        lemma_tail_trans(strip_bom(rest), rest, input);
    }
}

proof fn lemma_tail_3164(input: Seq<char>, e: Entries)
    ensures
        tail_of(parse_3164(input, e).1, input),
{
    lemma_tail_self(input);
    let r1 = match ts_3164(input) {
        Some((ts, r)) => {
            let k: int = if is_hms(input.subrange(7, 15)) { 15 } else { 20 };
            lemma_tail_skip(input, k);
            lemma_tail_strip(input.skip(k));
            lemma_tail_trans(r, input.skip(k), input);
            lemma_tail_token(r);
            lemma_tail_trans(token(r).1, r, input);
            if plausible_host(token(r).0) { token(r).1 } else { r }
        },
        None => input,
    };
    assert(tail_of(r1, input));
    match find(r1, ':') {
        Some(colon) => {
            lemma_find_p(r1, eq_char(':'));
            lemma_tail_skip(r1, colon + 1);
            lemma_tail_strip(r1.skip(colon + 1));
            lemma_tail_trans(strip_space(r1.skip(colon + 1)), r1.skip(colon + 1), r1);
            lemma_tail_trans(strip_space(r1.skip(colon + 1)), r1, input);
        },
        None => {},
    }
}

/// A body a syslog decode hands on is a stretch of its input: never more
/// than was read, never text from elsewhere.
pub proof fn body_is_a_slice_of_the_input(dialect: Dialect, input: Seq<char>)
    ensures
        syslog_outcome(dialect, input) matches Outcome::Fields(_, Some(b))
            ==> exists|lo: int, hi: int| 0 <= lo <= hi <= input.len() && b == #[trigger] input.subrange(lo, hi),
{
    let t = trim_crlf0(input);
    lemma_trail_bound(input, crlf0_p());
    let n = t.len() as int;
    if t.len() > 0 && !(pri(t) is None && dialect != Dialect::Auto) {
        lemma_tail_self(t);
        let rest = match pri(t) {
            Some((p, r)) => {
                let d = t.drop_first();
                lemma_find_p(d, eq_char('>'));
                let close = find(d, '>')->Some_0;
                lemma_tail_skip(d, close + 1);
                lemma_tail_skip(t, 1);
                assert(d == t.skip(1));
                lemma_tail_trans(r, d, t);
                r
            },
            None => t,
        };
        assert(tail_of(rest, t));
        let e = match pri(t) {
            Some((p, r)) => pri_entries(p),
            None => Seq::<(Seq<char>, ValueV)>::empty(),
        };
        let use_5424 = match dialect {
            Dialect::Rfc5424 => true,
            Dialect::Rfc3164 => false,
            Dialect::Auto => looks_5424(rest),
        };
        if use_5424 {
            lemma_tail_5424(rest, e);
            if let Ok((_, b)) = parse_5424(rest, e) {
                lemma_tail_trans(b, rest, t);
                let k = choose|k: int| 0 <= k <= t.len() && b == #[trigger] t.skip(k);
                assert(b =~= input.subrange(k, n));
            }
        } else {
            lemma_tail_3164(rest, e);
            let b = parse_3164(rest, e).1;
            lemma_tail_trans(b, rest, t);
            let k = choose|k: int| 0 <= k <= t.len() && b == #[trigger] t.skip(k);
            assert(b =~= input.subrange(k, n));
        }
    }
}

// ---------------------------------------------------------------------------
// The RFC 5424 header, field by field
// ---------------------------------------------------------------------------

proof fn lemma_first_at(x: Seq<char>, y: Seq<char>, c: char)
    requires
        !x.contains(c),
    ensures
        find(x + seq![c] + y, c) == Some(x.len() as int),
{
    let s = x + seq![c] + y;
    assert forall|j: int| 0 <= j < x.len() implies !(eq_char(c))(#[trigger] s[j]) by {
        assert(s[j] == x[j]);
    }
    lemma_find_p_first(s, eq_char(c), x.len() as int);
}

proof fn lemma_token_split(x: Seq<char>, y: Seq<char>)
    requires
        !x.contains(' '),
    ensures
        token(x + seq![' '] + y) == (x, y),
{
    let s = x + seq![' '] + y;
    lemma_first_at(x, y, ' ');
    assert(s.take(x.len() as int) =~= x);
    assert(s.skip(x.len() as int + 1) =~= y);
}

proof fn lemma_push_keeps(e: Entries, x: (Seq<char>, ValueV), y: (Seq<char>, ValueV))
    requires
        e.contains(x),
    ensures
        e.push(y).contains(x),
{
    let i = choose|i: int| 0 <= i < e.len() && e[i] == x;
    assert(e.push(y)[i] == x);
}

proof fn lemma_present_keeps(e: Entries, x: (Seq<char>, ValueV), key: Seq<char>, t: Seq<char>)
    requires
        e.contains(x),
    ensures
        push_present(e, key, t).contains(x),
{
    if t.len() > 0 && t != seq!['-'] {
        lemma_push_keeps(e, x, (key, ValueV::Str(t)));
    }
}

proof fn lemma_present_adds(e: Entries, key: Seq<char>, t: Seq<char>)
    requires
        t.len() > 0 && t != seq!['-'],
    ensures
        push_present(e, key, t).contains((key, ValueV::Str(t))),
{
    assert(push_present(e, key, t)[e.len() as int] == (key, ValueV::Str(t)));
}

/// The RFC 5424 text after `<PRI>`: the six header tokens `hs` (version,
/// timestamp, hostname, app-name, procid, msgid), each followed by a space,
/// then `rest`.
pub open spec fn header_5424(hs: Seq<Seq<char>>, rest: Seq<char>) -> Seq<char> {
    hs[0] + seq![' '] + (hs[1] + seq![' '] + (hs[2] + seq![' '] + (hs[3] + seq![' '] + (hs[4] + seq![' '] + (hs[5] + seq![' '] + rest)))))
}

/// `<d>` followed by the RFC 5424 header `hs` and `rest`.
pub open spec fn line_5424(d: Seq<char>, hs: Seq<Seq<char>>, rest: Seq<char>) -> Seq<char> {
    seq!['<'] + d + seq!['>'] + header_5424(hs, rest)
}

/// A header token that names a value: neither empty nor the nil `-`.
pub open spec fn names_value(t: Seq<char>) -> bool {
    t.len() > 0 && t != seq!['-']
}

/// The entries the RFC 5424 header tokens `hs` add to `e`.
pub open spec fn entries_5424(e: Entries, hs: Seq<Seq<char>>) -> Entries {
    push_present(
        push_present(
            push_present(
                push_present(
                    push_present(e.push(("syslog.version"@, ValueV::Str(hs[0]))), "syslog.timestamp"@, hs[1]),
                    "syslog.hostname"@,
                    hs[2],
                ),
                "syslog.appname"@,
                hs[3],
            ),
            "syslog.procid"@,
            hs[4],
        ),
        "syslog.msgid"@,
        hs[5],
    )
}

proof fn lemma_5424_parsed(hs: Seq<Seq<char>>, rest: Seq<char>, e: Entries)
    requires
        hs.len() == 6,
        forall|k: int| 0 <= k < 6 ==> !(#[trigger] hs[k]).contains(' '),
        rest.len() == 0 || rest[0] != '[',
    ensures
        parse_5424(header_5424(hs, rest), e) matches Ok((e2, _)) && e2 == entries_5424(e, hs),
{
    let r1 = hs[1] + seq![' '] + (hs[2] + seq![' '] + (hs[3] + seq![' '] + (hs[4] + seq![' '] + (hs[5] + seq![' '] + rest))));
    let r2 = hs[2] + seq![' '] + (hs[3] + seq![' '] + (hs[4] + seq![' '] + (hs[5] + seq![' '] + rest)));
    let r3 = hs[3] + seq![' '] + (hs[4] + seq![' '] + (hs[5] + seq![' '] + rest));
    let r4 = hs[4] + seq![' '] + (hs[5] + seq![' '] + rest);
    let r5 = hs[5] + seq![' '] + rest;
    lemma_token_split(hs[0], r1);
    lemma_token_split(hs[1], r2);
    lemma_token_split(hs[2], r3);
    lemma_token_split(hs[3], r4);
    lemma_token_split(hs[4], r5);
    lemma_token_split(hs[5], rest);
}

proof fn lemma_5424_keeps(e: Entries, hs: Seq<Seq<char>>, x: (Seq<char>, ValueV))
    requires
        hs.len() == 6,
        e.contains(x),
    ensures
        entries_5424(e, hs).contains(x),
{
    let e0 = e.push(("syslog.version"@, ValueV::Str(hs[0])));
    let e1 = push_present(e0, "syslog.timestamp"@, hs[1]);
    let e2 = push_present(e1, "syslog.hostname"@, hs[2]);
    let e3 = push_present(e2, "syslog.appname"@, hs[3]);
    let e4 = push_present(e3, "syslog.procid"@, hs[4]);
    lemma_push_keeps(e, x, ("syslog.version"@, ValueV::Str(hs[0])));
    lemma_present_keeps(e0, x, "syslog.timestamp"@, hs[1]);
    lemma_present_keeps(e1, x, "syslog.hostname"@, hs[2]);
    lemma_present_keeps(e2, x, "syslog.appname"@, hs[3]);
    lemma_present_keeps(e3, x, "syslog.procid"@, hs[4]);
    lemma_present_keeps(e4, x, "syslog.msgid"@, hs[5]);
}

proof fn lemma_5424_adds(e: Entries, hs: Seq<Seq<char>>)
    requires
        hs.len() == 6,
    ensures
        entries_5424(e, hs).contains(("syslog.version"@, ValueV::Str(hs[0]))),
        names_value(hs[1]) ==> entries_5424(e, hs).contains(("syslog.timestamp"@, ValueV::Str(hs[1]))),
        names_value(hs[2]) ==> entries_5424(e, hs).contains(("syslog.hostname"@, ValueV::Str(hs[2]))),
        names_value(hs[3]) ==> entries_5424(e, hs).contains(("syslog.appname"@, ValueV::Str(hs[3]))),
        names_value(hs[4]) ==> entries_5424(e, hs).contains(("syslog.procid"@, ValueV::Str(hs[4]))),
        names_value(hs[5]) ==> entries_5424(e, hs).contains(("syslog.msgid"@, ValueV::Str(hs[5]))),
{
    let ver = ("syslog.version"@, ValueV::Str(hs[0]));
    let e0 = e.push(ver);
    let e1 = push_present(e0, "syslog.timestamp"@, hs[1]);
    let e2 = push_present(e1, "syslog.hostname"@, hs[2]);
    let e3 = push_present(e2, "syslog.appname"@, hs[3]);
    let e4 = push_present(e3, "syslog.procid"@, hs[4]);
    assert(e0[e.len() as int] == ver);
    lemma_present_keeps(e0, ver, "syslog.timestamp"@, hs[1]);
    lemma_present_keeps(e1, ver, "syslog.hostname"@, hs[2]);
    lemma_present_keeps(e2, ver, "syslog.appname"@, hs[3]);
    lemma_present_keeps(e3, ver, "syslog.procid"@, hs[4]);
    lemma_present_keeps(e4, ver, "syslog.msgid"@, hs[5]);
    if names_value(hs[1]) {
        let x = ("syslog.timestamp"@, ValueV::Str(hs[1]));
        lemma_present_adds(e0, "syslog.timestamp"@, hs[1]);
        lemma_present_keeps(e1, x, "syslog.hostname"@, hs[2]);
        lemma_present_keeps(e2, x, "syslog.appname"@, hs[3]);
        lemma_present_keeps(e3, x, "syslog.procid"@, hs[4]);
        lemma_present_keeps(e4, x, "syslog.msgid"@, hs[5]);
    }
    if names_value(hs[2]) {
        let x = ("syslog.hostname"@, ValueV::Str(hs[2]));
        lemma_present_adds(e1, "syslog.hostname"@, hs[2]);
        lemma_present_keeps(e2, x, "syslog.appname"@, hs[3]);
        lemma_present_keeps(e3, x, "syslog.procid"@, hs[4]);
        lemma_present_keeps(e4, x, "syslog.msgid"@, hs[5]);
    }
    if names_value(hs[3]) {
        let x = ("syslog.appname"@, ValueV::Str(hs[3]));
        lemma_present_adds(e2, "syslog.appname"@, hs[3]);
        lemma_present_keeps(e3, x, "syslog.procid"@, hs[4]);
        lemma_present_keeps(e4, x, "syslog.msgid"@, hs[5]);
    }
    if names_value(hs[4]) {
        let x = ("syslog.procid"@, ValueV::Str(hs[4]));
        lemma_present_adds(e3, "syslog.procid"@, hs[4]);
        lemma_present_keeps(e4, x, "syslog.msgid"@, hs[5]);
    }
    if names_value(hs[5]) {
        lemma_present_adds(e4, "syslog.msgid"@, hs[5]);
    }
}

/// An RFC 5424 record keeps its header: the priority with the facility
/// (priority / 8) and severity (priority % 8) it encodes, the version, and
/// each of timestamp, hostname, app-name, procid and msgid that is not nil,
/// each under its own key; a body is handed on.
pub proof fn rfc5424_header_fields_are_kept(dialect: Dialect, d: Seq<char>, hs: Seq<Seq<char>>, rest: Seq<char>)
    requires
        hs.len() == 6,
        forall|k: int| 0 <= k < 6 ==> !(#[trigger] hs[k]).contains(' '),
        1 <= d.len() <= 3,
        crate::field::all_digits(d),
        crate::field::dec_num(d) <= 191,
        rest.len() == 0 || rest[0] != '[',
        !(line_5424(d, hs, rest).last() == '\r' || line_5424(d, hs, rest).last() == '\n' || line_5424(d, hs, rest).last() == '\0'),
        dialect == Dialect::Rfc5424 || (dialect == Dialect::Auto && looks_5424(header_5424(hs, rest))),
    ensures
        syslog_outcome(dialect, line_5424(d, hs, rest)) matches Outcome::Fields(e, Some(_)) && {
            &&& e.contains(("syslog.priority"@, ValueV::Int(crate::field::dec_num(d) as i64)))
            &&& e.contains(("syslog.facility"@, ValueV::Int((crate::field::dec_num(d) / 8) as i64)))
            &&& e.contains(("syslog.severity"@, ValueV::Int((crate::field::dec_num(d) % 8) as i64)))
            &&& e.contains(("syslog.version"@, ValueV::Str(hs[0])))
            &&& names_value(hs[1]) ==> e.contains(("syslog.timestamp"@, ValueV::Str(hs[1])))
            &&& names_value(hs[2]) ==> e.contains(("syslog.hostname"@, ValueV::Str(hs[2])))
            &&& names_value(hs[3]) ==> e.contains(("syslog.appname"@, ValueV::Str(hs[3])))
            &&& names_value(hs[4]) ==> e.contains(("syslog.procid"@, ValueV::Str(hs[4])))
            &&& names_value(hs[5]) ==> e.contains(("syslog.msgid"@, ValueV::Str(hs[5])))
        },
{
    let h = header_5424(hs, rest);
    let input = line_5424(d, hs, rest);
    assert(input =~= seq!['<'] + d + seq!['>'] + h);
    assert(trail(input, crlf0_p()) == 0);
    assert(trim_crlf0(input) =~= input);
    lemma_pri_parsed(d, h);
    let p = crate::field::dec_num(d);
    let e = pri_entries(p as u16);
    lemma_5424_parsed(hs, rest, e);
    let pr = ("syslog.priority"@, ValueV::Int(p as i64));
    let fac = ("syslog.facility"@, ValueV::Int((p / 8) as i64));
    let sev = ("syslog.severity"@, ValueV::Int((p % 8) as i64));
    assert(e[0] == pr && e[1] == fac && e[2] == sev);
    lemma_5424_keeps(e, hs, pr);
    lemma_5424_keeps(e, hs, fac);
    lemma_5424_keeps(e, hs, sev);
    lemma_5424_adds(e, hs);
}

// ---------------------------------------------------------------------------
// The RFC 3164 header, part by part
// ---------------------------------------------------------------------------

/// A fifteen-character RFC 3164 timestamp, `Mmm dd hh:mm:ss` with the day
/// space-padded.
pub open spec fn timestamp_3164(ts: Seq<char>) -> bool {
    &&& ts.len() == 15
    &&& months().contains(ts.take(3))
    &&& ts[3] == ' '
    &&& (is_digit(ts[4]) || ts[4] == ' ')
    &&& is_digit(ts[5])
    &&& ts[6] == ' '
    &&& is_hms(ts.subrange(7, 15))
}

/// `<d>ts host tag[pid]: msg`.
pub open spec fn line_3164(d: Seq<char>, ts: Seq<char>, host: Seq<char>, tag: Seq<char>, pid: Seq<char>, msg: Seq<char>) -> Seq<char> {
    seq!['<'] + d + seq!['>'] + (ts + seq![' '] + (host + seq![' '] + (tag + seq!['['] + pid + seq![']', ':', ' '] + msg)))
}

proof fn lemma_pri_parsed(d: Seq<char>, x: Seq<char>)
    requires
        1 <= d.len() <= 3,
        crate::field::all_digits(d),
        crate::field::dec_num(d) <= 191,
    ensures
        pri(seq!['<'] + d + seq!['>'] + x) == Some((crate::field::dec_num(d) as u16, x)),
{
    let input = seq!['<'] + d + seq!['>'] + x;
    let r0 = input.drop_first();
    assert(r0 =~= d + seq!['>'] + x);
    assert(!d.contains('>')) by {
        if d.contains('>') {
            let i = choose|i: int| 0 <= i < d.len() && d[i] == '>';
            assert(is_digit(d[i]));
        }
    }
    lemma_first_at(d, x, '>');
    assert(r0.take(d.len() as int) =~= d);
    assert(r0.skip(d.len() as int + 1) =~= x);
    assert(is_digit(d[0]));
    let p = crate::field::dec_num(d);
    assert(crate::field::parse_u64(d) == Some(p as u64));
}

proof fn lemma_ts_parsed(ts: Seq<char>, hr: Seq<char>)
    requires
        timestamp_3164(ts),
    ensures
        ts_3164(ts + seq![' '] + hr) == Some((ts, hr)),
        !looks_5424(ts + seq![' '] + hr),
{
    let x = ts + seq![' '] + hr;
    let mi = choose|i: int| 0 <= i < months().len() && months()[i] == ts.take(3);
    assert(ts[0] == months()[mi][0]);
    assert(!is_digit(x[0])) by {
        assert(x[0] == ts[0]);
        assert(0 <= mi < 12);
        if mi == 0 {} else if mi == 1 {} else if mi == 2 {} else if mi == 3 {} else if mi == 4 {} else if mi == 5 {}
        else if mi == 6 {} else if mi == 7 {} else if mi == 8 {} else if mi == 9 {} else if mi == 10 {} else {}
    }
    assert(lead(x, digit_p()) == 0);
    assert(x.take(3) =~= ts.take(3));
    assert(x.subrange(7, 15) =~= ts.subrange(7, 15));
    assert(x.take(15) =~= ts);
    assert(x.skip(15) =~= seq![' '] + hr);
    assert(strip_space(x.skip(15)) =~= hr);
}

proof fn lemma_tag_parsed(tag: Seq<char>, pid: Seq<char>, msg: Seq<char>)
    requires
        tag_like(tag),
        crate::field::all_digits(pid),
        tag.len() + pid.len() + 2 <= 40,
    ensures
        tag_3164(tag + seq!['['] + pid + seq![']', ':', ' '] + msg) == Some((tag, Some(pid), msg)),
{
    let r = tag + seq!['['] + pid + seq![']', ':', ' '] + msg;
    let colon = tag.len() + pid.len() + 2;
    let head = tag + seq!['['] + pid + seq![']'];
    assert(r =~= head + seq![':'] + (seq![' '] + msg));
    assert(!head.contains(':')) by {
        if head.contains(':') {
            let i = choose|i: int| 0 <= i < head.len() && head[i] == ':';
            if i < tag.len() {
                assert(head[i] == tag[i]);
                assert(is_tag_char(tag[i]));
            } else if tag.len() < i < tag.len() + 1 + pid.len() {
                assert(head[i] == pid[i - tag.len() - 1]);
                assert(is_digit(pid[i - tag.len() - 1]));
            }
        }
    }
    lemma_first_at(head, seq![' '] + msg, ':');
    assert(head.len() == colon);
    assert(r.take(colon as int) =~= head);
    assert(r.skip(colon as int + 1) =~= seq![' '] + msg);
    assert(strip_space(seq![' '] + msg) =~= msg);
    assert(!tag.contains('[')) by {
        if tag.contains('[') {
            let i = choose|i: int| 0 <= i < tag.len() && tag[i] == '[';
            assert(is_tag_char(tag[i]));
        }
    }
    lemma_first_at(tag, pid + seq![']'], '[');
    assert(head =~= tag + seq!['['] + (pid + seq![']']));
    assert(head.subrange(tag.len() as int + 1, head.len() - 1) =~= pid);
    assert(head.take(tag.len() as int) =~= tag);
    assert(head.last() == ']');
}

/// An RFC 3164 record `<PRI>Mmm dd hh:mm:ss host tag[pid]: msg` gives the
/// priority, timestamp, hostname, app-name (the tag) and procid (the pid),
/// and hands on `msg` as the body.
pub proof fn rfc3164_header_parts_are_kept(
    dialect: Dialect,
    d: Seq<char>,
    ts: Seq<char>,
    host: Seq<char>,
    tag: Seq<char>,
    pid: Seq<char>,
    msg: Seq<char>,
)
    requires
        dialect != Dialect::Rfc5424,
        1 <= d.len() <= 3,
        crate::field::all_digits(d),
        crate::field::dec_num(d) <= 191,
        timestamp_3164(ts),
        plausible_host(host),
        tag_like(tag),
        crate::field::all_digits(pid),
        tag.len() + pid.len() + 2 <= 40,
        !(line_3164(d, ts, host, tag, pid, msg).last() == '\r' || line_3164(d, ts, host, tag, pid, msg).last() == '\n'
            || line_3164(d, ts, host, tag, pid, msg).last() == '\0'),
    ensures
        syslog_outcome(dialect, line_3164(d, ts, host, tag, pid, msg)) matches Outcome::Fields(e, Some(b)) && {
            &&& b == msg
            &&& e.contains(("syslog.priority"@, ValueV::Int(crate::field::dec_num(d) as i64)))
            &&& e.contains(("syslog.timestamp"@, ValueV::Str(ts)))
            &&& e.contains(("syslog.hostname"@, ValueV::Str(host)))
            &&& e.contains(("syslog.appname"@, ValueV::Str(tag)))
            &&& e.contains(("syslog.procid"@, ValueV::Str(pid)))
        },
{
    let input = line_3164(d, ts, host, tag, pid, msg);
    let r = tag + seq!['['] + pid + seq![']', ':', ' '] + msg;
    let hr = host + seq![' '] + r;
    let x = ts + seq![' '] + hr;
    assert(input =~= seq!['<'] + d + seq!['>'] + x);
    assert(trail(input, crlf0_p()) == 0);
    assert(trim_crlf0(input) =~= input);
    lemma_pri_parsed(d, x);
    let p = crate::field::dec_num(d);
    let e = pri_entries(p as u16);
    let pr = ("syslog.priority"@, ValueV::Int(p as i64));
    assert(e[0] == pr);
    lemma_ts_parsed(ts, hr);
    assert(!host.contains(' ')) by {
        if host.contains(' ') {
            let i = choose|i: int| 0 <= i < host.len() && host[i] == ' ';
            assert(is_host_char(host[i]));
        }
    }
    lemma_token_split(host, r);
    lemma_tag_parsed(tag, pid, msg);
    let ets = e.push(("syslog.timestamp"@, ValueV::Str(ts)));
    let e1 = ets.push(("syslog.hostname"@, ValueV::Str(host)));
    let e2 = e1.push(("syslog.appname"@, ValueV::Str(tag)));
    let e3 = e2.push(("syslog.procid"@, ValueV::Str(pid)));
    assert(parse_3164(x, e) == (e3, msg));
    assert(e3[0] == pr);
    assert(e3[3] == ("syslog.timestamp"@, ValueV::Str(ts)));
    assert(e3[4] == ("syslog.hostname"@, ValueV::Str(host)));
    assert(e3[5] == ("syslog.appname"@, ValueV::Str(tag)));
    assert(e3[6] == ("syslog.procid"@, ValueV::Str(pid)));
}

} // verus!
