//! Universal salvage extraction: getting something out of a line no pack
//! claims.
//!
//! Salvage reads any line and pulls out the entities that appear in perimeter
//! telemetry regardless of vendor: addresses, ports, MAC addresses, URLs,
//! email addresses, hostnames, taking the value side of any `key=value` pair.
//! It never guesses a role for what it finds, and it is deterministic: the
//! result is ordered and free of duplicates, so the same bytes always yield
//! the same list.
use vstd::prelude::*;
use crate::base::{split, split_ranges};
use crate::field::{all_digits, dec_num, parse_digits};
use crate::text::{
    alnum, alpha, chars_of, digit, eq_char, find, find_char, find_p, hex, is_alnum, is_alpha,
    is_digit, is_hex, is_prefix, is_ws, lead, lemma_find_p, lemma_find_p_first, lemma_find_p_none,
    lemma_lead_bound, lemma_trail_bound, part, starts_with_at, string_of, trail, ws,
};

verus! {

/// OCSF `observable.type_id` of a hostname.
pub const HOSTNAME: u8 = 1;
/// OCSF `observable.type_id` of an IP address.
pub const IP_ADDRESS: u8 = 2;
/// OCSF `observable.type_id` of a MAC address.
pub const MAC_ADDRESS: u8 = 3;
/// OCSF `observable.type_id` of an email address.
pub const EMAIL: u8 = 5;
/// OCSF `observable.type_id` of a URL.
pub const URL: u8 = 6;
/// OCSF `observable.type_id` of a port.
pub const PORT: u8 = 11;
/// Cap on entities returned from one line.
pub const MAX_PER_RECORD: usize = 32;

// ---------------------------------------------------------------------------
// Small text facts
// ---------------------------------------------------------------------------

/// How many times `c` occurs in `s`.
pub open spec fn count(s: Seq<char>, c: char) -> nat
    decreases s.len(),
{
    if s.len() == 0 {
        0
    } else {
        count(s.drop_last(), c) + if s.last() == c { 1nat } else { 0nat }
    }
}

/// Index of the last `c` in `s`.
pub open spec fn rfind(s: Seq<char>, c: char) -> Option<int>
    decreases s.len(),
{
    if s.len() == 0 {
        None
    } else if s.last() == c {
        Some(s.len() - 1)
    } else {
        rfind(s.drop_last(), c)
    }
}

pub proof fn lemma_rfind(s: Seq<char>, c: char)
    ensures
        rfind(s, c) matches Some(k) ==> 0 <= k < s.len() && s[k] == c && forall|j: int| k < j < s.len() ==> s[j] != c,
        rfind(s, c) is None ==> forall|j: int| 0 <= j < s.len() ==> s[j] != c,
    decreases s.len(),
{
    if s.len() > 0 && s.last() != c {
        lemma_rfind(s.drop_last(), c);
        assert forall|j: int| 0 <= j < s.len() - 1 implies s[j] == s.drop_last()[j] by {}
    }
}

/// Whether two consecutive characters of `s` are both `c`.
pub open spec fn has_pair(s: Seq<char>, c: char) -> bool {
    exists|i: int| 0 <= i && i + 1 < s.len() && s[i] == c && #[trigger] s[i + 1] == c
}

/// `s` with the leading and trailing characters of class `p` removed.
pub open spec fn strip(s: Seq<char>, p: spec_fn(char) -> bool) -> Seq<char> {
    let a = s.skip(lead(s, p) as int);
    a.take(a.len() - trail(a, p))
}

pub open spec fn quote_p() -> spec_fn(char) -> bool {
    |c: char| c == '\'' || c == '"' || c == ',' || c == ';'
}

pub open spec fn bracket_p() -> spec_fn(char) -> bool {
    |c: char| c == '[' || c == ']'
}

/// How many times `c` occurs in `s[lo..hi]`.
pub(crate) fn count_char(s: &[char], lo: usize, hi: usize, c: char) -> (r: usize)
    requires
        lo <= hi <= s@.len(),
    ensures
        r == count(part(s@, lo as int, hi as int), c),
{
    let mut n: usize = 0;
    let mut i = lo;
    while i < hi
        invariant
            lo <= i <= hi <= s@.len(),
            n == count(part(s@, lo as int, i as int), c),
            n <= i - lo,
        decreases hi - i,
    {
        assert(part(s@, lo as int, i + 1).drop_last() == part(s@, lo as int, i as int));
        if s[i] == c {
            n += 1;
        }
        i += 1;
    }
    n
}

/// The index of the last `c` in `s[lo..hi]`.
pub(crate) fn rfind_char(s: &[char], lo: usize, hi: usize, c: char) -> (r: Option<usize>)
    requires
        lo <= hi <= s@.len(),
    ensures
        match rfind(part(s@, lo as int, hi as int), c) {
            Some(k) => r == Some((lo + k) as usize),
            None => r is None,
        },
{
    let mut j = hi;
    while j > lo
        invariant
            lo <= j <= hi <= s@.len(),
            rfind(part(s@, lo as int, hi as int), c) == rfind(part(s@, lo as int, j as int), c),
        decreases j - lo,
    {
        assert(part(s@, lo as int, j as int).last() == s@[j - 1]);
        assert(part(s@, lo as int, j as int).drop_last() == part(s@, lo as int, j - 1));
        if s[j - 1] == c {
            return Some(j - 1);
        }
        j -= 1;
    }
    None
}

/// Whether `s[lo..hi]` holds `c` twice in a row.
fn pair_in(s: &[char], lo: usize, hi: usize, c: char) -> (r: bool)
    requires
        lo <= hi <= s@.len(),
    ensures
        r == has_pair(part(s@, lo as int, hi as int), c),
{
    let ghost t = part(s@, lo as int, hi as int);
    let mut i = lo;
    while hi - i >= 2
        invariant
            lo <= i <= hi <= s@.len(),
            t == part(s@, lo as int, hi as int),
            forall|j: int| 0 <= j < i - lo ==> !(t[j] == c && #[trigger] t[j + 1] == c),
        decreases hi - i,
    {
        if s[i] == c && s[i + 1] == c {
            assert(t[i - lo] == c && t[i - lo + 1] == c);
            return true;
        }
        i += 1;
    }
    assert forall|j: int| 0 <= j && j + 1 < t.len() && t[j] == c implies !(#[trigger] t[j + 1] == c) by {
        assert(!(t[j] == c && t[j + 1] == c));
    }
    false
}

fn strip_class(c: char, brackets: bool) -> (r: bool)
    ensures
        r == (if brackets { bracket_p() } else { quote_p() })(c),
{
    if brackets {
        c == '[' || c == ']'
    } else {
        c == '\'' || c == '"' || c == ',' || c == ';'
    }
}

/// The bounds of `strip(s[lo..hi], quote_p())` (or of `bracket_p()` when
/// `brackets`) inside `s`.
pub(crate) fn strip_range(s: &[char], lo: usize, hi: usize, brackets: bool) -> (r: (usize, usize))
    requires
        lo <= hi <= s@.len(),
    ensures
        lo <= r.0 <= r.1 <= hi,
        part(s@, r.0 as int, r.1 as int) == strip(part(s@, lo as int, hi as int), if brackets { bracket_p() } else { quote_p() }),
{
    let ghost p = if brackets { bracket_p() } else { quote_p() };
    let ghost t = part(s@, lo as int, hi as int);
    let mut a = lo;
    while a < hi && strip_class(s[a], brackets)
        invariant
            lo <= a <= hi <= s@.len(),
            p == (if brackets { bracket_p() } else { quote_p() }),
            lead(t, p) == (a - lo) + lead(part(s@, a as int, hi as int), p),
            t == part(s@, lo as int, hi as int),
        decreases hi - a,
    {
        assert(part(s@, a as int, hi as int).drop_first() == part(s@, a + 1, hi as int));
        a += 1;
    }
    if a < hi {
        assert(part(s@, a as int, hi as int)[0] == s@[a as int]);
    }
    assert(lead(part(s@, a as int, hi as int), p) == 0);
    let ghost m = part(s@, a as int, hi as int);
    assert(t.skip(a - lo) == m);
    let mut b = hi;
    while b > a && strip_class(s[b - 1], brackets)
        invariant
            lo <= a <= b <= hi <= s@.len(),
            p == (if brackets { bracket_p() } else { quote_p() }),
            m == part(s@, a as int, hi as int),
            trail(m, p) == (hi - b) + trail(part(s@, a as int, b as int), p),
        decreases b - a,
    {
        assert(part(s@, a as int, b as int).drop_last() == part(s@, a as int, b - 1));
        assert(part(s@, a as int, b as int).last() == s@[b - 1]);
        b -= 1;
    }
    if b > a {
        assert(part(s@, a as int, b as int).last() == s@[b - 1]);
    }
    assert(m.take(m.len() - trail(m, p)) == part(s@, a as int, b as int));
    (a, b)
}

// ---------------------------------------------------------------------------
// Entity tests
// ---------------------------------------------------------------------------

/// Starts with `http://`, `https://` or `ftp://`.
pub open spec fn is_url(s: Seq<char>) -> bool {
    is_prefix("http://"@, s) || is_prefix("https://"@, s) || is_prefix("ftp://"@, s)
}

/// One dotted-quad octet: one to three digits, at most 255.
pub open spec fn octet(p: Seq<char>) -> bool {
    1 <= p.len() <= 3 && all_digits(p) && dec_num(p) <= 255
}

/// Four dot-separated octets.
pub open spec fn is_ipv4(s: Seq<char>) -> bool {
    let ps = split(s, '.');
    ps.len() == 4 && forall|k: int| 0 <= k < 4 ==> octet(#[trigger] ps[k])
}

pub open spec fn v6_char(c: char) -> bool {
    is_hex(c) || c == ':' || c == '.'
}

/// The IPv6 forms that appear in logs: two or more colons, only hex digits,
/// colons and dots, and a `::` run or a hex letter, which a clock time
/// (`10:23:45`) never has.
pub open spec fn is_ipv6(s: Seq<char>) -> bool {
    &&& count(s, ':') >= 2
    &&& s.len() >= 3
    &&& forall|i: int| 0 <= i < s.len() ==> v6_char(#[trigger] s[i])
    &&& (has_pair(s, ':') || exists|i: int| 0 <= i < s.len() && is_alpha(#[trigger] s[i]))
}

pub open spec fn mac_part(p: Seq<char>) -> bool {
    p.len() == 2 && is_hex(p[0]) && is_hex(p[1])
}

/// Six pairs of hex digits joined by `:` (or, failing five colons, by `-`).
pub open spec fn is_mac(s: Seq<char>) -> bool {
    &&& (count(s, ':') == 5 || count(s, '-') == 5)
    &&& all_mac_parts(split(s, mac_sep(s)))
}

/// The separator a MAC address is split on.
pub open spec fn mac_sep(s: Seq<char>) -> char {
    if count(s, ':') == 5 { ':' } else { '-' }
}

pub open spec fn all_mac_parts(ps: Seq<Seq<char>>) -> bool {
    forall|k: int| 0 <= k < ps.len() ==> mac_part(#[trigger] ps[k])
}

/// One to five digits denoting 1 to 65535.
pub open spec fn is_port(s: Seq<char>) -> bool {
    1 <= s.len() <= 5 && all_digits(s) && 1 <= dec_num(s) <= 65535
}

pub open spec fn host_char(c: char) -> bool {
    is_alnum(c) || c == '.' || c == '-' || c == '_'
}

/// The text after the last dot.
pub open spec fn tld(s: Seq<char>) -> Seq<char> {
    match rfind(s, '.') {
        Some(k) => s.skip(k + 1),
        None => s,
    }
}

/// A conservative hostname: 4 to 253 characters of letters, digits, `.`,
/// `-`, `_`, with a dot, no empty label, and an alphabetic last label of at
/// least two letters.
pub open spec fn is_hostname(s: Seq<char>) -> bool {
    &&& 4 <= s.len() <= 253
    &&& s.contains('.')
    &&& s[0] != '.'
    &&& s.last() != '.'
    &&& !has_pair(s, '.')
    &&& forall|i: int| 0 <= i < s.len() ==> host_char(#[trigger] s[i])
    &&& tld(s).len() >= 2
    &&& forall|i: int| 0 <= i < tld(s).len() ==> is_alpha(#[trigger] tld(s)[i])
}

pub open spec fn local_char(c: char) -> bool {
    is_alnum(c) || c == '.' || c == '-' || c == '_' || c == '+'
}

/// `local@domain`, split at the first `@`, with a plain local part of at most
/// 64 characters and a hostname after it.
pub open spec fn is_email(s: Seq<char>) -> bool {
    match find(s, '@') {
        None => false,
        Some(i) => {
            let local = s.take(i);
            &&& 0 < local.len() <= 64
            &&& is_hostname(s.skip(i + 1))
            &&& forall|j: int| 0 <= j < local.len() ==> local_char(#[trigger] local[j])
        },
    }
}

fn url_at(s: &[char], lo: usize, hi: usize) -> (r: bool)
    requires
        lo <= hi <= s@.len(),
    ensures
        r == is_url(part(s@, lo as int, hi as int)),
{
    let a = chars_of("http://");
    let b = chars_of("https://");
    let c = chars_of("ftp://");
    starts_with_at(s, lo, hi, &a) || starts_with_at(s, lo, hi, &b) || starts_with_at(s, lo, hi, &c)
}

/// `octet(s[lo..hi])`.
fn octet_at(s: &[char], lo: usize, hi: usize) -> (r: bool)
    requires
        lo <= hi <= s@.len(),
    ensures
        r == octet(part(s@, lo as int, hi as int)),
{
    if hi - lo < 1 || hi - lo > 3 {
        return false;
    }
    match parse_digits(s, lo, hi) {
        Some(v) => v <= 255,
        None => false,
    }
}

fn ipv4_at(s: &[char], lo: usize, hi: usize) -> (r: bool)
    requires
        lo <= hi <= s@.len(),
    ensures
        r == is_ipv4(part(s@, lo as int, hi as int)),
{
    let ps = split_ranges(s, lo, hi, '.');
    if ps.len() != 4 {
        return false;
    }
    let ghost whole = split(part(s@, lo as int, hi as int), '.');
    let mut k: usize = 0;
    while k < 4
        invariant
            k <= 4,
            ps@.len() == 4,
            lo <= hi <= s@.len(),
            whole == split(part(s@, lo as int, hi as int), '.'),
            whole.len() == 4,
            forall|j: int| 0 <= j < 4 ==> {
                &&& lo <= (#[trigger] ps@[j]).0 <= ps@[j].1 <= hi
                &&& part(s@, ps@[j].0 as int, ps@[j].1 as int) == whole[j]
            },
            forall|j: int| 0 <= j < k ==> octet(#[trigger] whole[j]),
        decreases 4 - k,
    {
        let (a, b) = ps[k];
        assert(part(s@, ps@[k as int].0 as int, ps@[k as int].1 as int) == whole[k as int]);
        if !octet_at(s, a, b) {
            return false;
        }
        k += 1;
    }
    true
}

fn ipv6_at(s: &[char], lo: usize, hi: usize) -> (r: bool)
    requires
        lo <= hi <= s@.len(),
    ensures
        r == is_ipv6(part(s@, lo as int, hi as int)),
{
    let ghost t = part(s@, lo as int, hi as int);
    if count_char(s, lo, hi, ':') < 2 || hi - lo < 3 {
        return false;
    }
    let mut alpha_seen = false;
    let mut i = lo;
    while i < hi
        invariant
            lo <= i <= hi <= s@.len(),
            t == part(s@, lo as int, hi as int),
            forall|j: int| 0 <= j < i - lo ==> v6_char(#[trigger] t[j]),
            alpha_seen == exists|j: int| 0 <= j < i - lo && is_alpha(#[trigger] t[j]),
        decreases hi - i,
    {
        let c = s[i];
        assert(t[i - lo] == c);
        if !(hex(c) || c == ':' || c == '.') {
            return false;
        }
        if alpha(c) {
            alpha_seen = true;
        }
        i += 1;
    }
    pair_in(s, lo, hi, ':') || alpha_seen
}

fn mac_at(s: &[char], lo: usize, hi: usize) -> (r: bool)
    requires
        lo <= hi <= s@.len(),
    ensures
        r == is_mac(part(s@, lo as int, hi as int)),
{
    let sep = if count_char(s, lo, hi, ':') == 5 {
        ':'
    } else if count_char(s, lo, hi, '-') == 5 {
        '-'
    } else {
        return false;
    };
    let ps = split_ranges(s, lo, hi, sep);
    let ghost whole = split(part(s@, lo as int, hi as int), sep);
    let mut k: usize = 0;
    while k < ps.len()
        invariant
            k <= ps@.len(),
            lo <= hi <= s@.len(),
            whole == split(part(s@, lo as int, hi as int), sep),
            sep == mac_sep(part(s@, lo as int, hi as int)),
            count(part(s@, lo as int, hi as int), ':') == 5 || count(part(s@, lo as int, hi as int), '-') == 5,
            ps@.len() == whole.len(),
            forall|j: int| 0 <= j < ps@.len() ==> {
                &&& lo <= (#[trigger] ps@[j]).0 <= ps@[j].1 <= hi
                &&& part(s@, ps@[j].0 as int, ps@[j].1 as int) == whole[j]
            },
            forall|j: int| 0 <= j < k ==> mac_part(#[trigger] whole[j]),
        decreases ps@.len() - k,
    {
        let (a, b) = ps[k];
        assert(part(s@, ps@[k as int].0 as int, ps@[k as int].1 as int) == whole[k as int]);
        if b - a != 2 {
            assert(!mac_part(whole[k as int]));
            assert(!all_mac_parts(whole));
            return false;
        }
        assert(whole[k as int][0] == s@[a as int] && whole[k as int][1] == s@[a + 1]);
        if !(hex(s[a]) && hex(s[a + 1])) {
            assert(!mac_part(whole[k as int]));
            assert(!all_mac_parts(whole));
            return false;
        }
        k += 1;
    }
    true
}

fn port_at(s: &[char], lo: usize, hi: usize) -> (r: bool)
    requires
        lo <= hi <= s@.len(),
    ensures
        r == is_port(part(s@, lo as int, hi as int)),
{
    if hi - lo < 1 || hi - lo > 5 {
        return false;
    }
    match parse_digits(s, lo, hi) {
        Some(v) => 1 <= v && v <= 65535,
        None => false,
    }
}

fn hostname_at(s: &[char], lo: usize, hi: usize) -> (r: bool)
    requires
        lo <= hi <= s@.len(),
    ensures
        r == is_hostname(part(s@, lo as int, hi as int)),
{
    let ghost t = part(s@, lo as int, hi as int);
    if hi - lo < 4 || hi - lo > 253 {
        return false;
    }
    let dot = match rfind_char(s, lo, hi, '.') {
        Some(d) => d,
        None => {
            proof {
                lemma_rfind(t, '.');
                if t.contains('.') {
                    let j = choose|j: int| 0 <= j < t.len() && t[j] == '.';
                    assert(t[j] != '.');
                }
            }
            return false;
        },
    };
    proof {
        lemma_rfind(t, '.');
    }
    assert(t[dot - lo] == '.');
    assert(t.contains('.'));
    assert(t[0] == s@[lo as int]);
    assert(t.last() == s@[hi - 1]);
    if s[lo] == '.' || s[hi - 1] == '.' || pair_in(s, lo, hi, '.') {
        return false;
    }
    let mut i = lo;
    while i < hi
        invariant
            lo <= i <= hi <= s@.len(),
            t == part(s@, lo as int, hi as int),
            forall|j: int| 0 <= j < i - lo ==> host_char(#[trigger] t[j]),
        decreases hi - i,
    {
        let c = s[i];
        assert(t[i - lo] == c);
        if !(alnum(c) || c == '.' || c == '-' || c == '_') {
            return false;
        }
        i += 1;
    }
    assert(tld(t) == part(s@, dot + 1, hi as int));
    if hi - (dot + 1) < 2 {
        return false;
    }
    let mut j = dot + 1;
    while j < hi
        invariant
            dot + 1 <= j <= hi <= s@.len(),
            t == part(s@, lo as int, hi as int),
            tld(t) == part(s@, dot + 1, hi as int),
            forall|m: int| 0 <= m < j - (dot + 1) ==> is_alpha(#[trigger] part(s@, dot + 1, hi as int)[m]),
        decreases hi - j,
    {
        assert(part(s@, dot + 1, hi as int)[j - (dot + 1)] == s@[j as int]);
        if !alpha(s[j]) {
            assert(!is_alpha(tld(t)[j - (dot + 1)]));
            return false;
        }
        j += 1;
    }
    true
}

fn email_at(s: &[char], lo: usize, hi: usize) -> (r: bool)
    requires
        lo <= hi <= s@.len(),
    ensures
        r == is_email(part(s@, lo as int, hi as int)),
{
    let ghost t = part(s@, lo as int, hi as int);
    let at = match find_char(s, lo, hi, '@') {
        Some(a) => a,
        None => {
            return false;
        },
    };
    assert(t.take(at - lo) == part(s@, lo as int, at as int));
    assert(t.skip(at - lo + 1) == part(s@, at + 1, hi as int));
    if at == lo || at - lo > 64 || !hostname_at(s, at + 1, hi) {
        return false;
    }
    let mut i = lo;
    while i < at
        invariant
            lo <= i <= at < hi <= s@.len(),
            t == part(s@, lo as int, hi as int),
            find(t, '@') == Some(at - lo),
            t.take(at - lo) == part(s@, lo as int, at as int),
            forall|j: int| 0 <= j < i - lo ==> local_char(#[trigger] part(s@, lo as int, at as int)[j]),
        decreases at - i,
    {
        let c = s[i];
        assert(part(s@, lo as int, at as int)[i - lo] == c);
        if !(alnum(c) || c == '.' || c == '-' || c == '_' || c == '+') {
            assert(!local_char(t.take(at - lo)[i - lo]));
            return false;
        }
        i += 1;
    }
    true
}


// ---------------------------------------------------------------------------
// Classification of one token
// ---------------------------------------------------------------------------

/// One entity: an observable type and the text found.
pub type Obs = (u8, Seq<char>);

/// The value side of a `key=value` token, when it is not empty; otherwise
/// the token itself.
pub open spec fn pair_value(t: Seq<char>) -> Seq<char> {
    match find(t, '=') {
        Some(i) => if i + 1 < t.len() { t.skip(i + 1) } else { t },
        None => t,
    }
}

/// `host:port` split at the last colon, when the port is a port and the
/// host (brackets stripped) is an IPv4 address or a hostname.
pub open spec fn endpoint(c: Seq<char>) -> Option<Seq<Obs>> {
    match rfind(c, ':') {
        None => None,
        Some(k) => {
            let port = c.skip(k + 1);
            let h = strip(c.take(k), bracket_p());
            if k > 0 && is_port(port) {
                if is_ipv4(h) {
                    Some(seq![(IP_ADDRESS, h), (PORT, port)])
                } else if is_hostname(h) {
                    Some(seq![(HOSTNAME, h), (PORT, port)])
                } else {
                    None
                }
            } else {
                None
            }
        },
    }
}

/// What one token contributes, in the order the tests are tried: a URL
/// whole; otherwise the (pair-value, quote-stripped) candidate as a URL,
/// email, MAC, IPv6 address, `host:port` endpoint, IPv4 address or hostname.
pub open spec fn classify(t: Seq<char>) -> Seq<Obs> {
    let c = strip(pair_value(t), quote_p());
    if is_url(t) {
        seq![(URL, t)]
    } else if c.len() == 0 {
        Seq::empty()
    } else if is_url(c) {
        seq![(URL, c)]
    } else if is_email(c) {
        seq![(EMAIL, c)]
    } else if is_mac(c) {
        seq![(MAC_ADDRESS, c)]
    } else if is_ipv6(c) {
        seq![(IP_ADDRESS, c)]
    } else if endpoint(c) is Some {
        endpoint(c)->Some_0
    } else if is_ipv4(c) {
        seq![(IP_ADDRESS, c)]
    } else if is_hostname(c) {
        seq![(HOSTNAME, c)]
    } else {
        Seq::empty()
    }
}

/// `r` names, by type and range of `s`, exactly the entities `c`.
pub open spec fn denotes(s: Seq<char>, r: Seq<(u8, usize, usize)>, c: Seq<Obs>, lo: int, hi: int) -> bool {
    &&& r.len() == c.len()
    &&& forall|k: int| 0 <= k < r.len() ==> {
        &&& lo <= (#[trigger] r[k]).1 <= r[k].2 <= hi
        &&& (r[k].0, part(s, r[k].1 as int, r[k].2 as int)) == c[k]
    }
}

fn endpoint_at(s: &[char], lo: usize, hi: usize) -> (r: Option<Vec<(u8, usize, usize)>>)
    requires
        lo <= hi <= s@.len(),
    ensures
        match endpoint(part(s@, lo as int, hi as int)) {
            None => r is None,
            Some(v) => r matches Some(x) && denotes(s@, x@, v, lo as int, hi as int),
        },
{
    let ghost c = part(s@, lo as int, hi as int);
    let k = match rfind_char(s, lo, hi, ':') {
        Some(k) => k,
        None => {
            return None;
        },
    };
    proof {
        lemma_rfind(c, ':');
    }
    assert(c.skip(k - lo + 1) == part(s@, k + 1, hi as int));
    assert(c.take(k - lo) == part(s@, lo as int, k as int));
    if k == lo || !port_at(s, k + 1, hi) {
        return None;
    }
    let (ha, hb) = strip_range(s, lo, k, true);
    let mut out: Vec<(u8, usize, usize)> = Vec::new();
    if ipv4_at(s, ha, hb) {
        out.push((IP_ADDRESS, ha, hb));
        out.push((PORT, k + 1, hi));
        return Some(out);
    }
    if hostname_at(s, ha, hb) {
        out.push((HOSTNAME, ha, hb));
        out.push((PORT, k + 1, hi));
        return Some(out);
    }
    None
}

/// The entities of the token `s[lo..hi]`, as ranges of `s`.
fn classify_at(s: &[char], lo: usize, hi: usize) -> (r: Vec<(u8, usize, usize)>)
    requires
        lo <= hi <= s@.len(),
    ensures
        denotes(s@, r@, classify(part(s@, lo as int, hi as int)), lo as int, hi as int),
{
    let ghost t = part(s@, lo as int, hi as int);
    let mut out: Vec<(u8, usize, usize)> = Vec::new();
    if url_at(s, lo, hi) {
        out.push((URL, lo, hi));
        return out;
    }
    let mut vlo = lo;
    match find_char(s, lo, hi, '=') {
        Some(i) => {
            if i + 1 < hi {
                vlo = i + 1;
                assert(t.skip(i - lo + 1) == part(s@, vlo as int, hi as int));
            }
        },
        None => {},
    }
    assert(pair_value(t) == part(s@, vlo as int, hi as int));
    let (a, b) = strip_range(s, vlo, hi, false);
    let ghost c = part(s@, a as int, b as int);
    assert(c == strip(pair_value(t), quote_p()));
    if a == b {
        return out;
    }
    if url_at(s, a, b) {
        out.push((URL, a, b));
    } else if email_at(s, a, b) {
        out.push((EMAIL, a, b));
    } else if mac_at(s, a, b) {
        out.push((MAC_ADDRESS, a, b));
    } else if ipv6_at(s, a, b) {
        out.push((IP_ADDRESS, a, b));
    } else {
        match endpoint_at(s, a, b) {
            Some(v) => {
                return v;
            },
            None => {},
        }
        if ipv4_at(s, a, b) {
            out.push((IP_ADDRESS, a, b));
        } else if hostname_at(s, a, b) {
            out.push((HOSTNAME, a, b));
        }
    }
    out
}

// ---------------------------------------------------------------------------
// Ordering
// ---------------------------------------------------------------------------

/// Lexicographic order of texts by code point, which is the byte order of
/// their UTF-8 encodings and so the order of `String`.
pub open spec fn text_lt(a: Seq<char>, b: Seq<char>) -> bool
    decreases a.len(),
{
    if a.len() == 0 {
        b.len() > 0
    } else if b.len() == 0 {
        false
    } else if a[0] != b[0] {
        a[0] < b[0]
    } else {
        text_lt(a.drop_first(), b.drop_first())
    }
}

/// The order of [`Salvaged`]: by type, then by text.
pub open spec fn obs_lt(a: Obs, b: Obs) -> bool {
    a.0 < b.0 || (a.0 == b.0 && text_lt(a.1, b.1))
}

/// Strictly increasing.
pub open spec fn sorted(s: Seq<Obs>) -> bool {
    forall|i: int, j: int| 0 <= i < j < s.len() ==> obs_lt(#[trigger] s[i], #[trigger] s[j])
}

pub proof fn lemma_text_lt_irrefl(a: Seq<char>)
    ensures
        !text_lt(a, a),
    decreases a.len(),
{
    if a.len() > 0 {
        lemma_text_lt_irrefl(a.drop_first());
    }
}

pub proof fn lemma_text_lt_trans(a: Seq<char>, b: Seq<char>, c: Seq<char>)
    requires
        text_lt(a, b),
        text_lt(b, c),
    ensures
        text_lt(a, c),
    decreases a.len(),
{
    if a.len() > 0 && a[0] == b[0] && b[0] == c[0] {
        lemma_text_lt_trans(a.drop_first(), b.drop_first(), c.drop_first());
    }
}

pub proof fn lemma_text_lt_total(a: Seq<char>, b: Seq<char>)
    ensures
        a == b || text_lt(a, b) || text_lt(b, a),
    decreases a.len(),
{
    if a.len() == 0 && b.len() == 0 {
        assert(a =~= b);
    } else if a.len() > 0 && b.len() > 0 && a[0] == b[0] {
        lemma_text_lt_total(a.drop_first(), b.drop_first());
        if a.drop_first() == b.drop_first() {
            assert(a.drop_first().len() == b.drop_first().len());
            assert(a.len() == b.len());
            assert forall|i: int| 0 <= i < a.len() implies a[i] == b[i] by {
                if i > 0 {
                    assert(a[i] == a.drop_first()[i - 1]);
                    assert(b[i] == b.drop_first()[i - 1]);
                }
            }
            assert(a =~= b);
        }
    }
}

pub proof fn lemma_obs_lt_facts(a: Obs, b: Obs, c: Obs)
    ensures
        !obs_lt(a, a),
        obs_lt(a, b) && obs_lt(b, c) ==> obs_lt(a, c),
        a == b || obs_lt(a, b) || obs_lt(b, a),
        obs_lt(a, b) ==> !obs_lt(b, a),
{
    lemma_text_lt_irrefl(a.1);
    lemma_text_lt_total(a.1, b.1);
    if obs_lt(a, b) && obs_lt(b, c) && a.0 == b.0 && b.0 == c.0 {
        lemma_text_lt_trans(a.1, b.1, c.1);
    }
    if obs_lt(a, b) && obs_lt(b, a) && a.0 == b.0 {
        lemma_text_lt_trans(a.1, b.1, a.1);
    }
}

/// `text_lt(a, b)`.
pub(crate) fn text_less(a: &[char], b: &[char]) -> (r: bool)
    ensures
        r == text_lt(a@, b@),
{
    let mut i: usize = 0;
    assert(a@.skip(0) == a@);
    assert(b@.skip(0) == b@);
    while i < a.len() && i < b.len()
        invariant
            i <= a@.len(),
            i <= b@.len(),
            text_lt(a@, b@) == text_lt(a@.skip(i as int), b@.skip(i as int)),
        decreases a@.len() - i,
    {
        assert(a@.skip(i as int)[0] == a@[i as int]);
        assert(b@.skip(i as int)[0] == b@[i as int]);
        if a[i] != b[i] {
            return a[i] < b[i];
        }
        assert(a@.skip(i as int).drop_first() == a@.skip(i + 1));
        assert(b@.skip(i as int).drop_first() == b@.skip(i + 1));
        i += 1;
    }
    i == a.len() && i < b.len()
}

pub open spec fn keyed(v: Seq<(u8, Vec<char>)>) -> Seq<Obs> {
    v.map_values(|e: (u8, Vec<char>)| (e.0, e.1@))
}

/// Adds `(ty, v)` to the strictly increasing `acc`, unless it is there.
fn insert_sorted(acc: &mut Vec<(u8, Vec<char>)>, ty: u8, v: Vec<char>)
    requires
        sorted(keyed(old(acc)@)),
    ensures
        sorted(keyed(final(acc)@)),
        keyed(final(acc)@).to_set() == keyed(old(acc)@).to_set().insert((ty, v@)),
{
    let ghost x: Obs = (ty, v@);
    let ghost k0 = keyed(acc@);
    let mut i: usize = 0;
    while i < acc.len()
        invariant
            i <= acc@.len(),
            acc@ == old(acc)@,
            k0 == keyed(acc@),
            x == (ty, v@),
            sorted(k0),
            forall|j: int| 0 <= j < i ==> obs_lt(#[trigger] k0[j], x),
        ensures
            i <= acc@.len(),
            acc@ == old(acc)@,
            forall|j: int| 0 <= j < i ==> obs_lt(#[trigger] k0[j], x),
            i < acc@.len() ==> !obs_lt(k0[i as int], x),
        decreases acc@.len() - i,
    {
        let less = acc[i].0 < ty || (acc[i].0 == ty && text_less(&acc[i].1, &v));
        assert(k0[i as int] == (acc@[i as int].0, acc@[i as int].1@));
        if !less {
            break;
        }
        i += 1;
    }
    if i < acc.len() && acc[i].0 == ty && crate::text::seq_eq(&acc[i].1, 0, acc[i].1.len(), &v, 0, v.len()) {
        assert(acc@[i as int].1@.subrange(0, acc@[i as int].1@.len() as int) == acc@[i as int].1@);
        assert(v@.subrange(0, v@.len() as int) == v@);
        assert(k0[i as int] == x);
        assert(k0.to_set().insert(x) =~= k0.to_set());
        return;
    }
    if i < acc.len() {
        assert(k0[i as int] == (acc@[i as int].0, acc@[i as int].1@));
        proof {
            lemma_obs_lt_facts(k0[i as int], x, x);
            if k0[i as int] == x {
                assert(acc@[i as int].1@.subrange(0, acc@[i as int].1@.len() as int) == acc@[i as int].1@);
                assert(v@.subrange(0, v@.len() as int) == v@);
            }
        }
        assert(obs_lt(x, k0[i as int]));
    }
    acc.insert(i, (ty, v));
    let ghost k1 = keyed(acc@);
    assert(k1 =~= k0.insert(i as int, x));
    assert forall|a: int, b: int| 0 <= a < b < k1.len() implies obs_lt(#[trigger] k1[a], #[trigger] k1[b]) by {
        if b < i {
            assert(k1[a] == k0[a] && k1[b] == k0[b]);
        } else if b == i {
            assert(k1[a] == k0[a] && k1[b] == x);
        } else if a == i {
            assert(k1[b] == k0[b - 1]);
            if b - 1 > i {
                lemma_obs_lt_facts(x, k0[i as int], k0[b - 1]);
            }
        } else if a < i {
            assert(k1[a] == k0[a] && k1[b] == k0[b - 1]);
        } else {
            assert(k1[a] == k0[a - 1] && k1[b] == k0[b - 1]);
        }
    }
    assert forall|y: Obs| k1.to_set().contains(y) <==> k0.to_set().insert(x).contains(y) by {
        if k1.contains(y) {
            let j = choose|j: int| 0 <= j < k1.len() && k1[j] == y;
            if j < i {
                assert(k0[j] == y);
            } else if j > i {
                assert(k0[j - 1] == y);
            }
        }
        if k0.contains(y) {
            let j = choose|j: int| 0 <= j < k0.len() && k0[j] == y;
            if j < i {
                assert(k1[j] == y);
            } else {
                assert(k1[j + 1] == y);
            }
        }
        if y == x {
            assert(k1[i as int] == x);
        }
    }
    assert(k1.to_set() =~= k0.to_set().insert(x));
}

// ---------------------------------------------------------------------------
// Salvage
// ---------------------------------------------------------------------------

/// One entity recovered from an unparsed line.
#[derive(Debug, Clone, PartialEq, Eq, PartialOrd, Ord)]
pub struct Salvaged {
    /// OCSF `observable.type_id`.
    pub type_id: u8,
    /// The literal text found.
    pub value: String,
}

impl View for Salvaged {
    type V = Obs;

    open spec fn view(&self) -> Obs {
        (self.type_id, self.value@)
    }
}

/// The characters that separate tokens: whitespace and `|,;()[]<>"`.
pub open spec fn is_delim(c: char) -> bool {
    is_ws(c) || c == '|' || c == ',' || c == ';' || c == '(' || c == ')' || c == '[' || c == ']'
        || c == '<' || c == '>' || c == '"'
}

pub open spec fn delim_p() -> spec_fn(char) -> bool {
    |c: char| is_delim(c)
}

/// `acc` with the entities of the token `t`; an empty token adds nothing.
pub open spec fn add_token(acc: Set<Obs>, t: Seq<char>) -> Set<Obs> {
    if t.len() == 0 {
        acc
    } else {
        acc.union(classify(t).to_set())
    }
}

/// The entities of the tokens of `s`, added to `acc` token by token, until
/// there are at least [`MAX_PER_RECORD`] of them.
pub open spec fn gather(s: Seq<char>, acc: Set<Obs>) -> Set<Obs>
    decreases s.len(),
{
    match find_p(s, delim_p()) {
        None => add_token(acc, s),
        Some(i) => {
            proof {
                lemma_find_p(s, delim_p());
            }
            let a = add_token(acc, s.take(i));
            if a.len() >= MAX_PER_RECORD {
                a
            } else {
                gather(s.skip(i + 1), a)
            }
        },
    }
}

/// Every entity salvage finds in `input`, before the cap on the output.
pub open spec fn found(input: Seq<char>) -> Set<Obs> {
    gather(input, Set::empty())
}

/// `r` lists, in increasing order, the [`MAX_PER_RECORD`] smallest entities
/// of `set` (all of them when there are fewer).
pub open spec fn listing(r: Seq<Obs>, set: Set<Obs>) -> bool {
    &&& sorted(r)
    &&& r.len() == if set.len() < MAX_PER_RECORD { set.len() } else { MAX_PER_RECORD as nat }
    &&& forall|k: int| 0 <= k < r.len() ==> set.contains(#[trigger] r[k])
    &&& forall|x: Obs| #[trigger] set.contains(x) && !r.contains(x) ==> forall|k: int| 0 <= k < r.len() ==> obs_lt(#[trigger] r[k], x)
}

pub open spec fn salvaged_view(r: Seq<Salvaged>) -> Seq<Obs> {
    r.map_values(|x: Salvaged| x@)
}

fn delim(c: char) -> (r: bool)
    ensures
        r == is_delim(c),
{
    ws(c) || c == '|' || c == ',' || c == ';' || c == '(' || c == ')' || c == '[' || c == ']' || c == '<'
        || c == '>' || c == '"'
}

/// The first delimiter in `s[lo..hi]`.
fn find_delim(s: &[char], lo: usize, hi: usize) -> (r: Option<usize>)
    requires
        lo <= hi <= s@.len(),
    ensures
        match find_p(part(s@, lo as int, hi as int), delim_p()) {
            Some(k) => r == Some((lo + k) as usize),
            None => r is None,
        },
{
    let ghost t = part(s@, lo as int, hi as int);
    let mut i = lo;
    while i < hi
        invariant
            lo <= i <= hi <= s@.len(),
            t == part(s@, lo as int, hi as int),
            forall|j: int| 0 <= j < i - lo ==> !delim_p()(#[trigger] t[j]),
        decreases hi - i,
    {
        assert(t[i - lo] == s@[i as int]);
        if delim(s[i]) {
            proof {
                lemma_find_p_first(t, delim_p(), i - lo);
            }
            return Some(i);
        }
        i += 1;
    }
    proof {
        lemma_find_p_none(t, delim_p());
    }
    None
}

proof fn lemma_sorted_set_len(s: Seq<Obs>)
    requires
        sorted(s),
    ensures
        s.to_set().len() == s.len(),
        s.to_set().finite(),
{
    assert forall|i: int, j: int| 0 <= i < s.len() && 0 <= j < s.len() && i != j implies s[i] != s[j] by {
        lemma_obs_lt_facts(s[i], s[i], s[i]);
        if i < j {
            assert(obs_lt(s[i], s[j]));
        } else {
            assert(obs_lt(s[j], s[i]));
        }
    }
    assert(s.no_duplicates());
    s.unique_seq_to_set();
    vstd::seq_lib::seq_to_set_is_finite(s);
}

/// Adds the entities of the token `s[lo..hi]` to `acc`.
fn add_token_at(acc: &mut Vec<(u8, Vec<char>)>, s: &[char], lo: usize, hi: usize)
    requires
        lo <= hi <= s@.len(),
        sorted(keyed(old(acc)@)),
    ensures
        sorted(keyed(final(acc)@)),
        keyed(final(acc)@).to_set() == add_token(keyed(old(acc)@).to_set(), part(s@, lo as int, hi as int)),
{
    if lo == hi {
        return;
    }
    let items = classify_at(s, lo, hi);
    let ghost cls = classify(part(s@, lo as int, hi as int));
    let ghost start = keyed(acc@).to_set();
    let mut k: usize = 0;
    while k < items.len()
        invariant
            k <= items@.len(),
            lo <= hi <= s@.len(),
            denotes(s@, items@, cls, lo as int, hi as int),
            sorted(keyed(acc@)),
            keyed(acc@).to_set() == start.union(cls.take(k as int).to_set()),
        decreases items@.len() - k,
    {
        let (ty, a, b) = items[k];
        let mut v: Vec<char> = Vec::new();
        let mut j = a;
        while j < b
            invariant
                a <= j <= b <= s@.len(),
                v@ == part(s@, a as int, j as int),
            decreases b - j,
        {
            v.push(s[j]);
            assert(part(s@, a as int, j + 1) == part(s@, a as int, j as int).push(s@[j as int]));
            j += 1;
        }
        let ghost before = keyed(acc@).to_set();
        insert_sorted(acc, ty, v);
        assert(cls[k as int] == (ty, part(s@, a as int, b as int)));
        assert(cls.take(k + 1) == cls.take(k as int).push(cls[k as int]));
        proof {
            cls.take(k as int).lemma_push_to_set_commute(cls[k as int]);
        }
        assert(start.union(cls.take(k + 1).to_set()) =~= start.union(cls.take(k as int).to_set()).insert(cls[k as int]));
        k += 1;
    }
    assert(cls.take(items@.len() as int) == cls);
}

/// Extract every recognisable entity from an arbitrary line.
///
/// Results are deduplicated and ordered, so the same input always produces
/// the same list, and there are at most [`MAX_PER_RECORD`] of them.
pub fn salvage(input: &str) -> (r: Vec<Salvaged>)
    ensures
        listing(salvaged_view(r@), found(input@)),
{
    let cs = chars_of(input);
    let n = cs.len();
    let mut acc: Vec<(u8, Vec<char>)> = Vec::new();
    let mut pos: usize = 0;
    assert(part(cs@, 0, n as int) == input@);
    assert(keyed(acc@).to_set() =~= Set::<Obs>::empty());
    loop
        invariant_except_break
            found(input@) == gather(part(cs@, pos as int, n as int), keyed(acc@).to_set()),
        invariant
            pos <= n == cs@.len(),
            cs@ == input@,
            sorted(keyed(acc@)),
        ensures
            found(input@) == keyed(acc@).to_set(),
        decreases n - pos,
    {
        let ghost rest = part(cs@, pos as int, n as int);
        match find_delim(&cs, pos, n) {
            None => {
                add_token_at(&mut acc, &cs, pos, n);
                break;
            },
            Some(i) => {
                proof {
                    lemma_find_p(rest, delim_p());
                }
                assert(rest.take(i - pos) == part(cs@, pos as int, i as int));
                assert(rest.skip(i - pos + 1) == part(cs@, i + 1, n as int));
                add_token_at(&mut acc, &cs, pos, i);
                proof {
                    lemma_sorted_set_len(keyed(acc@));
                }
                if acc.len() >= MAX_PER_RECORD {
                    break;
                }
                pos = i + 1;
            },
        }
    }
    proof {
        lemma_sorted_set_len(keyed(acc@));
    }
    let ghost ks = keyed(acc@);
    let m = if acc.len() < MAX_PER_RECORD { acc.len() } else { MAX_PER_RECORD };
    let mut out: Vec<Salvaged> = Vec::new();
    let mut k: usize = 0;
    while k < m
        invariant
            k <= m <= acc@.len(),
            ks == keyed(acc@),
            salvaged_view(out@) == ks.take(k as int),
        decreases m - k,
    {
        let value = string_of(&acc[k].1);
        let ghost before = out@;
        out.push(Salvaged { type_id: acc[k].0, value });
        assert(salvaged_view(out@) =~= salvaged_view(before).push(ks[k as int]));
        assert(ks.take(k + 1) == ks.take(k as int).push(ks[k as int]));
        k += 1;
    }
    let ghost rv = salvaged_view(out@);
    assert(rv == ks.take(m as int));
    assert forall|x: Obs| #[trigger] found(input@).contains(x) && !rv.contains(x) implies forall|k: int| 0 <= k < rv.len() ==> obs_lt(#[trigger] rv[k], x) by {
        assert(ks.contains(x));
        let j = choose|j: int| 0 <= j < ks.len() && ks[j] == x;
        if j < m {
            assert(rv[j] == x);
        }
        assert forall|k: int| 0 <= k < rv.len() implies obs_lt(#[trigger] rv[k], x) by {
            assert(rv[k] == ks[k]);
        }
    }
    assert forall|k: int| 0 <= k < rv.len() implies found(input@).contains(#[trigger] rv[k]) by {
        assert(rv[k] == ks[k]);
        assert(ks.contains(ks[k]));
    }
    assert forall|a: int, b: int| 0 <= a < b < rv.len() implies obs_lt(#[trigger] rv[a], #[trigger] rv[b]) by {
        assert(rv[a] == ks[a] && rv[b] == ks[b]);
    }
    out
}


proof fn lemma_listing_not_less(r1: Seq<Obs>, r2: Seq<Obs>, set: Set<Obs>, i: int)
    requires
        listing(r1, set),
        listing(r2, set),
        0 <= i < r1.len(),
        r1.len() == r2.len(),
        forall|j: int| 0 <= j < i ==> r1[j] == r2[j],
    ensures
        !obs_lt(r1[i], r2[i]),
{
    if obs_lt(r1[i], r2[i]) {
        assert(set.contains(r1[i]));
        if r2.contains(r1[i]) {
            let j = choose|j: int| 0 <= j < r2.len() && r2[j] == r1[i];
            lemma_obs_lt_facts(r1[i], r2[i], r1[i]);
            if j < i {
                assert(r1[j] == r1[i]);
                assert(obs_lt(r1[j], r1[i]));
            } else if j > i {
                assert(obs_lt(r2[i], r2[j]));
            }
        } else {
            assert(obs_lt(r2[i], r1[i]));
            lemma_obs_lt_facts(r1[i], r2[i], r1[i]);
        }
    }
}

proof fn lemma_listing_prefix(r1: Seq<Obs>, r2: Seq<Obs>, set: Set<Obs>, i: int)
    requires
        listing(r1, set),
        listing(r2, set),
        0 <= i <= r1.len(),
    ensures
        forall|j: int| 0 <= j < i ==> r1[j] == r2[j],
    decreases i,
{
    if i > 0 {
        lemma_listing_prefix(r1, r2, set, i - 1);
        lemma_listing_not_less(r1, r2, set, i - 1);
        lemma_listing_not_less(r2, r1, set, i - 1);
        lemma_obs_lt_facts(r1[i - 1], r2[i - 1], r1[i - 1]);
    }
}

/// A set has exactly one listing: what salvage returns for an input is
/// fixed by the input alone, holds no duplicates and at most
/// [`MAX_PER_RECORD`] entities.
pub proof fn listing_is_unique(r1: Seq<Obs>, r2: Seq<Obs>, set: Set<Obs>)
    requires
        listing(r1, set),
        listing(r2, set),
    ensures
        r1 == r2,
        r1.no_duplicates(),
        r1.len() <= MAX_PER_RECORD,
{
    lemma_listing_prefix(r1, r2, set, r1.len() as int);
    assert(r1 =~= r2);
    assert forall|i: int, j: int| 0 <= i < r1.len() && 0 <= j < r1.len() && i != j implies r1[i] != r1[j] by {
        lemma_obs_lt_facts(r1[i], r1[i], r1[i]);
        if i < j {
            assert(obs_lt(r1[i], r1[j]));
        } else {
            assert(obs_lt(r1[j], r1[i]));
        }
    }
}

// ---------------------------------------------------------------------------
// A URL token is kept whole
// ---------------------------------------------------------------------------

/// Nothing gathered is ever lost.
proof fn lemma_gather_keeps(s: Seq<char>, acc: Set<Obs>)
    ensures
        acc.subset_of(gather(s, acc)),
    decreases s.len(),
{
    lemma_find_p(s, delim_p());
    match find_p(s, delim_p()) {
        None => {},
        Some(i) => {
            let a = add_token(acc, s.take(i));
            if a.len() < MAX_PER_RECORD {
                lemma_gather_keeps(s.skip(i + 1), a);
            }
        },
    }
}

/// `t` holds no delimiter: it is one whole token wherever it stands.
pub open spec fn one_token(t: Seq<char>) -> bool {
    forall|i: int| 0 <= i < t.len() ==> !is_delim(#[trigger] t[i])
}

/// A token that starts with `http://`, `https://` or `ftp://` is salvaged
/// whole as a URL: at the end of the text, or followed by any delimiter and
/// anything else, and whatever was gathered before it.
pub proof fn a_url_token_is_salvaged_whole(acc: Set<Obs>, t: Seq<char>, d: char, rest: Seq<char>)
    requires
        is_prefix("http://"@, t) || is_prefix("https://"@, t) || is_prefix("ftp://"@, t),
        one_token(t),
        is_delim(d),
    ensures
        gather(t, acc).contains((URL, t)),
        gather(t + seq![d] + rest, acc).contains((URL, t)),
{
    reveal_strlit("http://");
    reveal_strlit("https://");
    reveal_strlit("ftp://");
    assert(t.len() > 0);
    assert(classify(t) == seq![(URL, t)]);
    assert(classify(t).to_set().contains((URL, t))) by {
        assert(classify(t)[0] == (URL, t));
    }
    // Alone.
    assert forall|j: int| 0 <= j < t.len() implies !(delim_p())(#[trigger] t[j]) by {}
    crate::text::lemma_find_p_none(t, delim_p());
    // Followed by a delimiter.
    let s = t + seq![d] + rest;
    assert forall|j: int| 0 <= j < t.len() implies !(delim_p())(#[trigger] s[j]) by {
        assert(s[j] == t[j]);
    }
    crate::text::lemma_find_p_first(s, delim_p(), t.len() as int);
    assert(s.take(t.len() as int) =~= t);
    let a = add_token(acc, t);
    assert(a.contains((URL, t)));
    if a.len() < MAX_PER_RECORD {
        lemma_gather_keeps(s.skip(t.len() as int + 1), a);
    }
}

/// A line that is one URL token salvages to exactly that URL.
pub proof fn a_lone_url_is_the_only_entity(t: Seq<char>)
    requires
        is_prefix("http://"@, t) || is_prefix("https://"@, t) || is_prefix("ftp://"@, t),
        one_token(t),
    ensures
        found(t) == set![(URL, t)],
{
    reveal_strlit("http://");
    reveal_strlit("https://");
    reveal_strlit("ftp://");
    assert forall|j: int| 0 <= j < t.len() implies !(delim_p())(#[trigger] t[j]) by {}
    crate::text::lemma_find_p_none(t, delim_p());
    assert(classify(t) == seq![(URL, t)]);
    assert(seq![(URL, t)].to_set() =~= set![(URL, t)]) by {
        assert forall|x: Obs| seq![(URL, t)].to_set().contains(x) <==> set![(URL, t)].contains(x) by {
            if x == (URL, t) {
                assert(seq![(URL, t)][0] == x);
            }
        }
    }
    assert(Set::<Obs>::empty().union(set![(URL, t)]) =~= set![(URL, t)]);
}

} // verus!
