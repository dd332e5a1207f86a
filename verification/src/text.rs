//! Character-level text primitives shared by every decoder.
//!
//! Text is handled as sequences of `char`. Positions are character indices
//! into a buffer, and a piece of text is named by a half-open range
//! `[lo, hi)` of that buffer.
use vstd::prelude::*;

verus! {

// ---------------------------------------------------------------------------
// Character classes
// ---------------------------------------------------------------------------

pub open spec fn is_digit(c: char) -> bool {
    '0' <= c && c <= '9'
}

pub open spec fn is_alpha(c: char) -> bool {
    ('a' <= c && c <= 'z') || ('A' <= c && c <= 'Z')
}

pub open spec fn is_alnum(c: char) -> bool {
    is_digit(c) || is_alpha(c)
}

pub open spec fn is_hex(c: char) -> bool {
    is_digit(c) || ('a' <= c && c <= 'f') || ('A' <= c && c <= 'F')
}

/// The Unicode `White_Space` property, which is what `char::is_whitespace`
/// tests.
pub open spec fn is_ws(c: char) -> bool {
    c == '\t' || c == '\n' || c == '\u{0B}' || c == '\u{0C}' || c == '\r' || c == ' '
        || c == '\u{85}' || c == '\u{A0}' || c == '\u{1680}'
        || ('\u{2000}' <= c && c <= '\u{200A}')
        || c == '\u{2028}' || c == '\u{2029}' || c == '\u{202F}' || c == '\u{205F}'
        || c == '\u{3000}'
}

/// ASCII whitespace as `u8::is_ascii_whitespace` defines it.
pub open spec fn is_ascii_ws(c: char) -> bool {
    c == '\t' || c == '\n' || c == '\u{0C}' || c == '\r' || c == ' '
}

pub open spec fn lower(c: char) -> char {
    if 'A' <= c && c <= 'Z' {
        ((c as u32) + 32) as char
    } else {
        c
    }
}

pub fn digit(c: char) -> (r: bool)
    ensures
        r == is_digit(c),
{
    '0' <= c && c <= '9'
}

pub fn alpha(c: char) -> (r: bool)
    ensures
        r == is_alpha(c),
{
    ('a' <= c && c <= 'z') || ('A' <= c && c <= 'Z')
}

pub fn alnum(c: char) -> (r: bool)
    ensures
        r == is_alnum(c),
{
    digit(c) || alpha(c)
}

pub fn hex(c: char) -> (r: bool)
    ensures
        r == is_hex(c),
{
    digit(c) || ('a' <= c && c <= 'f') || ('A' <= c && c <= 'F')
}

pub fn ws(c: char) -> (r: bool)
    ensures
        r == is_ws(c),
{
    c == '\t' || c == '\n' || c == '\u{0B}' || c == '\u{0C}' || c == '\r' || c == ' '
        || c == '\u{85}' || c == '\u{A0}' || c == '\u{1680}'
        || ('\u{2000}' <= c && c <= '\u{200A}')
        || c == '\u{2028}' || c == '\u{2029}' || c == '\u{202F}' || c == '\u{205F}'
        || c == '\u{3000}'
}

pub fn ascii_ws(c: char) -> (r: bool)
    ensures
        r == is_ascii_ws(c),
{
    c == '\t' || c == '\n' || c == '\u{0C}' || c == '\r' || c == ' '
}

pub fn to_lower(c: char) -> (r: char)
    ensures
        r == lower(c),
{
    if 'A' <= c && c <= 'Z' {
        let v: u32 = c as u32;
        assert(v + 32 <= 0x7f);
        let b: u8 = (v + 32) as u8;
        b as char
    } else {
        c
    }
}

// ---------------------------------------------------------------------------
// Conversions between `str`, `String` and character buffers
// ---------------------------------------------------------------------------

/// The characters of `s`, in order.
pub fn chars_of(s: &str) -> (r: Vec<char>)
    ensures
        r@ == s@,
{
    let mut out: Vec<char> = Vec::new();
    for c in it: s.chars()
        invariant
            out@ == it.seq().take(it.index() as int),
            it.seq() == s@,
    {
        out.push(c);
    }
    out
}

/// The characters of `s[lo..hi]` as a vector of their own.
pub fn chars_range(s: &[char], lo: usize, hi: usize) -> (r: Vec<char>)
    requires
        lo <= hi <= s@.len(),
    ensures
        r@ == s@.subrange(lo as int, hi as int),
{
    let mut out: Vec<char> = Vec::new();
    let mut i = lo;
    while i < hi
        invariant
            lo <= i <= hi <= s@.len(),
            out@ == s@.subrange(lo as int, i as int),
        decreases hi - i,
    {
        out.push(s[i]);
        assert(s@.subrange(lo as int, i + 1) == s@.subrange(lo as int, i as int).push(s@[i as int]));
        i += 1;
    }
    out
}

/// Appends one character to a string (`String::push`).
#[verifier::external_body]
pub fn push_char(s: &mut String, c: char)
    ensures
        final(s)@ == old(s)@.push(c),
{
    s.push(c);
}

/// Appends `cs[lo..hi]` to `out`.
pub fn push_range(out: &mut String, cs: &[char], lo: usize, hi: usize)
    requires
        lo <= hi <= cs@.len(),
    ensures
        final(out)@ == old(out)@ + cs@.subrange(lo as int, hi as int),
{
    let ghost start = out@;
    let mut i: usize = lo;
    while i < hi
        invariant
            lo <= i <= hi <= cs@.len(),
            out@ == start + cs@.subrange(lo as int, i as int),
        decreases hi - i,
    {
        push_char(out, cs[i]);
        assert(cs@.subrange(lo as int, i + 1) == cs@.subrange(lo as int, i as int).push(cs@[i as int]));
        i += 1;
    }
}

/// The string holding exactly `cs[lo..hi]`.
pub fn string_range(cs: &[char], lo: usize, hi: usize) -> (r: String)
    requires
        lo <= hi <= cs@.len(),
    ensures
        r@ == cs@.subrange(lo as int, hi as int),
{
    let mut out = String::new();
    push_range(&mut out, cs, lo, hi);
    assert(Seq::<char>::empty() + cs@.subrange(lo as int, hi as int) == cs@.subrange(lo as int, hi as int));
    out
}

/// The string holding exactly `cs`.
pub fn string_of(cs: &[char]) -> (r: String)
    ensures
        r@ == cs@,
{
    let r = string_range(cs, 0, cs.len());
    assert(cs@.subrange(0, cs@.len() as int) == cs@);
    r
}

/// A string from a literal.
pub fn owned(s: &str) -> (r: String)
    ensures
        r@ == s@,
{
    s.to_owned()
}

/// Appends a string slice to `out`.
pub fn push_str(out: &mut String, s: &str)
    ensures
        final(out)@ == old(out)@ + s@,
{
    let cs = chars_of(s);
    push_range(out, &cs, 0, cs.len());
    assert(cs@.subrange(0, cs@.len() as int) == cs@);
}

/// `a@ == b@`, on executable strings.
pub fn str_eq(a: &str, b: &str) -> (r: bool)
    ensures
        r == (a@ == b@),
{
    let x = chars_of(a);
    let y = chars_of(b);
    assert(x@.subrange(0, x@.len() as int) == x@);
    assert(y@.subrange(0, y@.len() as int) == y@);
    seq_eq(&x, 0, x.len(), &y, 0, y.len())
}

/// Whether `a[alo..ahi]` and `b[blo..bhi]` hold the same characters.
pub fn seq_eq(a: &[char], alo: usize, ahi: usize, b: &[char], blo: usize, bhi: usize) -> (r: bool)
    requires
        alo <= ahi <= a@.len(),
        blo <= bhi <= b@.len(),
    ensures
        r == (a@.subrange(alo as int, ahi as int) == b@.subrange(blo as int, bhi as int)),
{
    if ahi - alo != bhi - blo {
        assert(a@.subrange(alo as int, ahi as int).len() != b@.subrange(blo as int, bhi as int).len());
        return false;
    }
    let n = ahi - alo;
    let ghost sa = a@.subrange(alo as int, ahi as int);
    let ghost sb = b@.subrange(blo as int, bhi as int);
    let mut i: usize = 0;
    while i < n
        invariant
            alo <= ahi <= a@.len(),
            blo <= bhi <= b@.len(),
            n == ahi - alo,
            n == bhi - blo,
            i <= n,
            sa == a@.subrange(alo as int, ahi as int),
            sb == b@.subrange(blo as int, bhi as int),
            forall|j: int| 0 <= j < i ==> sa[j] == #[trigger] sb[j],
        decreases n - i,
    {
        if a[alo + i] != b[blo + i] {
            assert(sa[i as int] != sb[i as int]);
            return false;
        }
        i += 1;
    }
    assert(a@.subrange(alo as int, ahi as int) =~= b@.subrange(blo as int, bhi as int));
    true
}

/// Whether `s[lo..hi]` starts with `p`.
pub fn starts_with_at(s: &[char], lo: usize, hi: usize, p: &[char]) -> (r: bool)
    requires
        lo <= hi <= s@.len(),
    ensures
        r == is_prefix(p@, s@.subrange(lo as int, hi as int)),
{
    if p.len() > hi - lo {
        return false;
    }
    let r = seq_eq(s, lo, lo + p.len(), p, 0, p.len());
    assert(s@.subrange(lo as int, hi as int).subrange(0, p@.len() as int) == s@.subrange(lo as int, lo + p@.len()));
    assert(p@.subrange(0, p@.len() as int) == p@);
    r
}

/// The piece `s[lo..hi]`.
pub open spec fn part(s: Seq<char>, lo: int, hi: int) -> Seq<char> {
    s.subrange(lo, hi)
}

// ---------------------------------------------------------------------------
// Searching
// ---------------------------------------------------------------------------

pub open spec fn is_prefix(p: Seq<char>, s: Seq<char>) -> bool {
    p.len() <= s.len() && s.subrange(0, p.len() as int) == p
}

pub open spec fn is_suffix(p: Seq<char>, s: Seq<char>) -> bool {
    p.len() <= s.len() && s.subrange(s.len() - p.len(), s.len() as int) == p
}

/// Index of the first character of `s` satisfying `p`.
pub open spec fn find_p(s: Seq<char>, p: spec_fn(char) -> bool) -> Option<int>
    decreases s.len(),
{
    if s.len() == 0 {
        None
    } else if p(s[0]) {
        Some(0)
    } else {
        match find_p(s.drop_first(), p) {
            Some(i) => Some(i + 1),
            None => None,
        }
    }
}

pub open spec fn eq_char(c: char) -> spec_fn(char) -> bool {
    |x: char| x == c
}

/// Index of the first occurrence of `c` in `s`.
pub open spec fn find(s: Seq<char>, c: char) -> Option<int> {
    find_p(s, eq_char(c))
}

pub open spec fn is_first_p(s: Seq<char>, p: spec_fn(char) -> bool, i: int) -> bool {
    &&& 0 <= i < s.len()
    &&& p(s[i])
    &&& forall|j: int| 0 <= j < i ==> !p(#[trigger] s[j])
}

pub proof fn lemma_find_p(s: Seq<char>, p: spec_fn(char) -> bool)
    ensures
        find_p(s, p) matches Some(i) ==> is_first_p(s, p, i),
        find_p(s, p) is None ==> forall|j: int| 0 <= j < s.len() ==> !p(#[trigger] s[j]),
    decreases s.len(),
{
    if s.len() > 0 && !p(s[0]) {
        lemma_find_p(s.drop_first(), p);
        assert forall|j: int| 1 <= j < s.len() implies s[j] == s.drop_first()[j - 1] by {}
        if let Some(i) = find_p(s.drop_first(), p) {
            assert forall|j: int| 0 <= j < i + 1 implies !p(#[trigger] s[j]) by {
                if j > 0 {
                    assert(s[j] == s.drop_first()[j - 1]);
                }
            }
        } else {
            assert forall|j: int| 0 <= j < s.len() implies !p(#[trigger] s[j]) by {
                if j > 0 {
                    assert(s[j] == s.drop_first()[j - 1]);
                }
            }
        }
    }
}

pub proof fn lemma_find_p_first(s: Seq<char>, p: spec_fn(char) -> bool, i: int)
    requires
        is_first_p(s, p, i),
    ensures
        find_p(s, p) == Some(i),
{
    lemma_find_p(s, p);
    match find_p(s, p) {
        Some(k) => {
            if k < i {
                assert(!p(s[k]));
            } else if k > i {
                assert(!p(s[i]));
            }
        },
        None => {
            assert(!p(s[i]));
        },
    }
}

pub proof fn lemma_find_p_none(s: Seq<char>, p: spec_fn(char) -> bool)
    requires
        forall|j: int| 0 <= j < s.len() ==> !p(#[trigger] s[j]),
    ensures
        find_p(s, p) is None,
{
    lemma_find_p(s, p);
    if let Some(k) = find_p(s, p) {
        assert(p(s[k]));
    }
}

/// The first index in `[lo, hi)` holding `c`.
pub fn find_char(s: &[char], lo: usize, hi: usize, c: char) -> (r: Option<usize>)
    requires
        lo <= hi <= s@.len(),
    ensures
        r matches Some(i) ==> lo <= i < hi && find(s@.subrange(lo as int, hi as int), c) == Some(i - lo),
        r is None ==> find(s@.subrange(lo as int, hi as int), c) is None,
{
    let ghost sub = s@.subrange(lo as int, hi as int);
    let mut i: usize = lo;
    while i < hi
        invariant
            lo <= i <= hi <= s@.len(),
            sub == s@.subrange(lo as int, hi as int),
            forall|j: int| 0 <= j < i - lo ==> !eq_char(c)(#[trigger] sub[j]),
        decreases hi - i,
    {
        if s[i] == c {
            proof {
                lemma_find_p_first(sub, eq_char(c), i - lo);
            }
            return Some(i);
        }
        i += 1;
    }
    proof {
        lemma_find_p_none(sub, eq_char(c));
    }
    None
}

/// The first index in `[lo, hi)` holding whitespace.
pub fn find_ws(s: &[char], lo: usize, hi: usize) -> (r: Option<usize>)
    requires
        lo <= hi <= s@.len(),
    ensures
        r matches Some(i) ==> lo <= i < hi && find_p(s@.subrange(lo as int, hi as int), |c: char| is_ws(c)) == Some(i - lo),
        r is None ==> find_p(s@.subrange(lo as int, hi as int), |c: char| is_ws(c)) is None,
{
    let ghost sub = s@.subrange(lo as int, hi as int);
    let ghost p = |c: char| is_ws(c);
    let mut i: usize = lo;
    while i < hi
        invariant
            lo <= i <= hi <= s@.len(),
            sub == s@.subrange(lo as int, hi as int),
            p == |c: char| is_ws(c),
            forall|j: int| 0 <= j < i - lo ==> !p(#[trigger] sub[j]),
        decreases hi - i,
    {
        if ws(s[i]) {
            proof {
                lemma_find_p_first(sub, p, i - lo);
            }
            return Some(i);
        }
        i += 1;
    }
    proof {
        lemma_find_p_none(sub, p);
    }
    None
}

/// Index of the first occurrence of the text `p` in `s`.
pub open spec fn find_seq(s: Seq<char>, p: Seq<char>) -> Option<int>
    decreases s.len(),
{
    if is_prefix(p, s) {
        Some(0)
    } else if s.len() == 0 {
        None
    } else {
        match find_seq(s.drop_first(), p) {
            Some(i) => Some(i + 1),
            None => None,
        }
    }
}

pub proof fn lemma_find_seq(s: Seq<char>, p: Seq<char>)
    ensures
        find_seq(s, p) matches Some(i) ==> 0 <= i && i + p.len() <= s.len() && s.subrange(i, i + p.len()) == p,
    decreases s.len(),
{
    if !is_prefix(p, s) && s.len() > 0 {
        lemma_find_seq(s.drop_first(), p);
        if let Some(i) = find_seq(s.drop_first(), p) {
            assert(s.subrange(i + 1, i + 1 + p.len()) == s.drop_first().subrange(i, i + p.len()));
        }
    }
}

/// Whether `s[i..]` starts with `p` (within `hi`).
fn at_prefix(s: &[char], i: usize, hi: usize, p: &[char]) -> (r: bool)
    requires
        i <= hi <= s@.len(),
    ensures
        r == is_prefix(p@, s@.subrange(i as int, hi as int)),
{
    starts_with_at(s, i, hi, p)
}

/// The first index in `[lo, hi)` where `p` occurs within `s[lo..hi]`.
pub fn find_str(s: &[char], lo: usize, hi: usize, p: &[char]) -> (r: Option<usize>)
    requires
        lo <= hi <= s@.len(),
    ensures
        match find_seq(s@.subrange(lo as int, hi as int), p@) {
            Some(k) => r == Some((lo + k) as usize),
            None => r is None,
        },
{
    let mut i = lo;
    while i < hi
        invariant
            lo <= i <= hi <= s@.len(),
            find_seq(s@.subrange(lo as int, hi as int), p@) == match find_seq(s@.subrange(i as int, hi as int), p@) {
                Some(k) => Some(k + (i - lo)),
                None => None,
            },
        decreases hi - i,
    {
        if at_prefix(s, i, hi, p) {
            return Some(i);
        }
        assert(s@.subrange(i as int, hi as int).drop_first() == s@.subrange(i + 1, hi as int));
        i += 1;
    }
    if at_prefix(s, hi, hi, p) {
        return Some(hi);
    }
    None
}

// ---------------------------------------------------------------------------
// Trimming
// ---------------------------------------------------------------------------

/// How many leading characters satisfy `p`.
pub open spec fn lead(s: Seq<char>, p: spec_fn(char) -> bool) -> nat
    decreases s.len(),
{
    if s.len() > 0 && p(s[0]) {
        1 + lead(s.drop_first(), p)
    } else {
        0
    }
}

/// How many trailing characters satisfy `p`.
pub open spec fn trail(s: Seq<char>, p: spec_fn(char) -> bool) -> nat
    decreases s.len(),
{
    if s.len() > 0 && p(s.last()) {
        1 + trail(s.drop_last(), p)
    } else {
        0
    }
}

pub proof fn lemma_lead_bound(s: Seq<char>, p: spec_fn(char) -> bool)
    ensures
        lead(s, p) <= s.len(),
    decreases s.len(),
{
    if s.len() > 0 && p(s[0]) {
        lemma_lead_bound(s.drop_first(), p);
    }
}

pub proof fn lemma_trail_bound(s: Seq<char>, p: spec_fn(char) -> bool)
    ensures
        trail(s, p) <= s.len(),
    decreases s.len(),
{
    if s.len() > 0 && p(s.last()) {
        lemma_trail_bound(s.drop_last(), p);
    }
}

pub open spec fn ws_p() -> spec_fn(char) -> bool {
    |c: char| is_ws(c)
}

pub open spec fn trim_start(s: Seq<char>) -> Seq<char> {
    s.skip(lead(s, ws_p()) as int)
}

pub open spec fn trim_end(s: Seq<char>) -> Seq<char> {
    s.take(s.len() - trail(s, ws_p()))
}

pub open spec fn trim(s: Seq<char>) -> Seq<char> {
    trim_end(trim_start(s))
}

/// Skips characters satisfying the class `p` forward from `lo`, within `hi`.
pub fn skip_ws(s: &[char], lo: usize, hi: usize) -> (r: usize)
    requires
        lo <= hi <= s@.len(),
    ensures
        lo <= r <= hi,
        r - lo == lead(s@.subrange(lo as int, hi as int), ws_p()),
{
    let mut i: usize = lo;
    while i < hi && ws(s[i])
        invariant
            lo <= i <= hi <= s@.len(),
            lead(s@.subrange(lo as int, hi as int), ws_p()) == (i - lo) + lead(s@.subrange(i as int, hi as int), ws_p()),
        decreases hi - i,
    {
        assert(s@.subrange(i as int, hi as int).drop_first() == s@.subrange(i + 1, hi as int));
        i += 1;
    }
    proof { r_lemma_lead_stop(s@, i as int, hi as int); }
    i
}

proof fn r_lemma_lead_stop(s: Seq<char>, i: int, hi: int)
    requires
        0 <= i <= hi <= s.len(),
        i == hi || !is_ws(s[i]),
    ensures
        lead(s.subrange(i, hi), ws_p()) == 0,
{
    if i < hi {
        assert(s.subrange(i, hi)[0] == s[i]);
    }
}

/// Moves `hi` back over trailing whitespace, not below `lo`.
pub fn back_ws(s: &[char], lo: usize, hi: usize) -> (r: usize)
    requires
        lo <= hi <= s@.len(),
    ensures
        lo <= r <= hi,
        hi - r == trail(s@.subrange(lo as int, hi as int), ws_p()),
{
    let mut j: usize = hi;
    while j > lo && ws(s[j - 1])
        invariant
            lo <= j <= hi <= s@.len(),
            trail(s@.subrange(lo as int, hi as int), ws_p()) == (hi - j) + trail(s@.subrange(lo as int, j as int), ws_p()),
        decreases j - lo,
    {
        assert(s@.subrange(lo as int, j as int).drop_last() == s@.subrange(lo as int, j - 1));
        assert(s@.subrange(lo as int, j as int).last() == s@[j - 1]);
        j -= 1;
    }
    if j > lo {
        assert(s@.subrange(lo as int, j as int).last() == s@[j - 1]);
    }
    j
}

/// The bounds of `trim(s[lo..hi])` inside `s`.
pub fn trim_range(s: &[char], lo: usize, hi: usize) -> (r: (usize, usize))
    requires
        lo <= hi <= s@.len(),
    ensures
        lo <= r.0 <= r.1 <= hi,
        s@.subrange(r.0 as int, r.1 as int) == trim(s@.subrange(lo as int, hi as int)),
        s@.subrange(r.0 as int, hi as int) == trim_start(s@.subrange(lo as int, hi as int)),
{
    let a = skip_ws(s, lo, hi);
    let b = back_ws(s, a, hi);
    assert(s@.subrange(a as int, hi as int) == s@.subrange(lo as int, hi as int).skip(a - lo));
    assert(s@.subrange(a as int, b as int) == s@.subrange(a as int, hi as int).take(b - a));
    (a, b)
}

// ---------------------------------------------------------------------------
// Decimal numerals
// ---------------------------------------------------------------------------

/// The decimal numeral of `n`, without leading zeros.
pub open spec fn dec(n: nat) -> Seq<char>
    decreases n,
{
    if n < 10 {
        seq![(48 + n) as char]
    } else {
        dec(n / 10).push((48 + n % 10) as char)
    }
}

/// Appends `dec(n)` to `out`.
pub fn push_dec(out: &mut String, n: u64)
    ensures
        final(out)@ == old(out)@ + dec(n as nat),
    decreases n,
{
    if n >= 10 {
        push_dec(out, n / 10);
    }
    let d = (n % 10) as u8;
    let ghost before = out@;
    push_char(out, (48u8 + d) as char);
    if n < 10 {
        assert(out@ == old(out)@ + dec(n as nat));
    } else {
        assert(out@ =~= old(out)@ + dec(n as nat));
    }
}

// ---------------------------------------------------------------------------
// UTF-8 length
// ---------------------------------------------------------------------------

/// Bytes `c` takes in UTF-8.
pub open spec fn utf8_width(c: char) -> nat {
    let v = c as u32;
    if v < 0x80 {
        1
    } else if v < 0x800 {
        2
    } else if v <= 0xFFFF && !(0xD800 <= v <= 0xDFFF) {
        3
    } else {
        4
    }
}

/// Bytes `s` takes in UTF-8, which is what `str::len` reports.
pub open spec fn utf8_len(s: Seq<char>) -> nat
    decreases s.len(),
{
    if s.len() == 0 {
        0
    } else {
        utf8_len(s.drop_last()) + utf8_width(s.last())
    }
}

pub fn char_width(c: char) -> (r: usize)
    ensures
        r == utf8_width(c),
{
    let v = c as u32;
    if v < 0x80 {
        1
    } else if v < 0x800 {
        2
    } else if v <= 0xFFFF && !(0xD800 <= v && v <= 0xDFFF) {
        3
    } else {
        4
    }
}

pub proof fn lemma_utf8_len_concat(a: Seq<char>, b: Seq<char>)
    ensures
        utf8_len(a + b) == utf8_len(a) + utf8_len(b),
    decreases b.len(),
{
    if b.len() > 0 {
        lemma_utf8_len_concat(a, b.drop_last());
        assert((a + b).drop_last() == a + b.drop_last());
    } else {
        assert(a + b == a);
    }
}

/// A piece of a text takes no more bytes than the text.
pub proof fn lemma_utf8_len_sub(s: Seq<char>, lo: int, hi: int)
    requires
        0 <= lo <= hi <= s.len(),
    ensures
        utf8_len(s.subrange(lo, hi)) <= utf8_len(s),
{
    lemma_utf8_len_concat(s.subrange(0, lo), s.subrange(lo, hi));
    lemma_utf8_len_concat(s.subrange(0, hi), s.subrange(hi, s.len() as int));
    assert(s.subrange(0, lo) + s.subrange(lo, hi) == s.subrange(0, hi));
    assert(s.subrange(0, hi) + s.subrange(hi, s.len() as int) == s);
}

proof fn lemma_encode_len(s: Seq<char>)
    ensures
        vstd::utf8::encode_utf8(s).len() == utf8_len(s),
    decreases s.len(),
{
    if s.len() > 0 {
        lemma_encode_len(s.drop_first());
        let c = s[0];
        let v = c as u32;
        assert(vstd::utf8::encode_scalar(v).len() == utf8_width(c));
        lemma_utf8_len_concat(seq![c], s.drop_first());
        assert(seq![c] + s.drop_first() == s);
        assert(seq![c].drop_last() == Seq::<char>::empty());
        assert(seq![c].last() == c);
        assert(utf8_len(Seq::<char>::empty()) == 0);
        assert(utf8_len(seq![c]) == utf8_len(seq![c].drop_last()) + utf8_width(seq![c].last()));
        assert(utf8_len(seq![c]) == utf8_width(c));
        assert(utf8_len(s) == utf8_width(c) + utf8_len(s.drop_first()));
    }
}

/// The characters of `s`, together with the fact that they take `s.len()`
/// bytes.
pub fn chars_sized(s: &str) -> (r: Vec<char>)
    ensures
        r@ == s@,
        utf8_len(s@) <= usize::MAX,
{
    let b = s.as_bytes();
    let n = b.len();
    proof {
        lemma_encode_len(s@);
    }
    chars_of(s)
}

/// `utf8_len(s[lo..hi])`.
pub fn byte_len(s: &[char], lo: usize, hi: usize) -> (r: usize)
    requires
        lo <= hi <= s@.len(),
        utf8_len(s@) <= usize::MAX,
    ensures
        r == utf8_len(s@.subrange(lo as int, hi as int)),
{
    let mut n: usize = 0;
    let mut i: usize = lo;
    while i < hi
        invariant
            lo <= i <= hi <= s@.len(),
            utf8_len(s@) <= usize::MAX,
            n == utf8_len(s@.subrange(lo as int, i as int)),
        decreases hi - i,
    {
        proof {
            assert(s@.subrange(lo as int, i + 1).drop_last() == s@.subrange(lo as int, i as int));
            lemma_utf8_len_sub(s@, lo as int, i + 1);
        }
        n = n + char_width(s[i]);
        i += 1;
    }
    n
}


/// The end of `s` with trailing `/` removed.
pub fn back_ws_like_slash(s: &[char]) -> (r: usize)
    ensures
        r <= s@.len(),
        s@.len() - r == trail(s@, eq_char('/')),
{
    let mut j: usize = s.len();
    assert(s@.subrange(0, s@.len() as int) == s@);
    while j > 0 && s[j - 1] == '/'
        invariant
            j <= s@.len(),
            trail(s@, eq_char('/')) == (s@.len() - j) + trail(s@.subrange(0, j as int), eq_char('/')),
        decreases j,
    {
        assert(s@.subrange(0, j as int).drop_last() == s@.subrange(0, j - 1));
        assert(s@.subrange(0, j as int).last() == s@[j - 1]);
        j -= 1;
    }
    if j > 0 {
        assert(s@.subrange(0, j as int).last() == s@[j - 1]);
    }
    j
}


// ---------------------------------------------------------------------------
// Words
// ---------------------------------------------------------------------------

pub proof fn lemma_lead_stop(s: Seq<char>, p: spec_fn(char) -> bool)
    ensures
        lead(s, p) <= s.len(),
        lead(s, p) < s.len() ==> !p(s[lead(s, p) as int]),
        forall|j: int| 0 <= j < lead(s, p) ==> p(#[trigger] s[j]),
    decreases s.len(),
{
    if s.len() > 0 && p(s[0]) {
        lemma_lead_stop(s.drop_first(), p);
        assert forall|j: int| 1 <= j < s.len() implies s[j] == s.drop_first()[j - 1] by {}
    }
}

/// `str::split_whitespace`: the maximal runs of non-whitespace.
pub open spec fn words(s: Seq<char>) -> Seq<Seq<char>>
    decreases s.len(),
{
    let t = trim_start(s);
    if t.len() == 0 {
        Seq::empty()
    } else {
        match find_p(t, ws_p()) {
            None => seq![t],
            Some(i) => {
                proof {
                    lemma_lead_stop(s, ws_p());
                    lemma_find_p(t, ws_p());
                }
                seq![t.take(i)] + words(t.skip(i))
            },
        }
    }
}

/// The ranges of `words(s[lo..hi])` within `s`.
pub fn word_ranges(s: &[char], lo: usize, hi: usize) -> (r: Vec<(usize, usize)>)
    requires
        lo <= hi <= s@.len(),
    ensures
        r@.len() == words(s@.subrange(lo as int, hi as int)).len(),
        forall|k: int| 0 <= k < r@.len() ==> {
            &&& lo <= (#[trigger] r@[k]).0 < r@[k].1 <= hi
            &&& s@.subrange(r@[k].0 as int, r@[k].1 as int) == words(s@.subrange(lo as int, hi as int))[k]
        },
{
    let ghost whole = words(s@.subrange(lo as int, hi as int));
    let mut out: Vec<(usize, usize)> = Vec::new();
    let mut pos = lo;
    loop
        invariant_except_break
            whole == out@.map_values(|p: (usize, usize)| s@.subrange(p.0 as int, p.1 as int))
                + words(s@.subrange(pos as int, hi as int)),
        invariant
            lo <= pos <= hi <= s@.len(),
            whole == words(s@.subrange(lo as int, hi as int)),
            forall|k: int| 0 <= k < out@.len() ==> lo <= (#[trigger] out@[k]).0 < out@[k].1 <= hi,
        ensures
            whole == out@.map_values(|p: (usize, usize)| s@.subrange(p.0 as int, p.1 as int)),
        decreases hi - pos,
    {
        let ghost rest = s@.subrange(pos as int, hi as int);
        let ghost before = out@;
        let a = skip_ws(s, pos, hi);
        assert(s@.subrange(a as int, hi as int) == trim_start(rest));
        if a == hi {
            assert(words(rest) == Seq::<Seq<char>>::empty());
            assert(out@.map_values(|p: (usize, usize)| s@.subrange(p.0 as int, p.1 as int)) + Seq::<Seq<char>>::empty()
                == out@.map_values(|p: (usize, usize)| s@.subrange(p.0 as int, p.1 as int)));
            break;
        }
        proof {
            lemma_lead_stop(rest, ws_p());
        }
        assert(!is_ws(s@[a as int]));
        match find_ws(s, a, hi) {
            Some(e) => {
                assert(e > a) by {
                    crate::text::lemma_find_p(s@.subrange(a as int, hi as int), |c: char| is_ws(c));
                    assert(s@.subrange(a as int, hi as int)[0] == s@[a as int]);
                }
                assert(ws_p() == |c: char| is_ws(c));
                assert(trim_start(rest).take(e - a) == s@.subrange(a as int, e as int));
                assert(trim_start(rest).skip(e - a) == s@.subrange(e as int, hi as int));
                out.push((a, e));
                assert(out@.map_values(|p: (usize, usize)| s@.subrange(p.0 as int, p.1 as int))
                    == before.map_values(|p: (usize, usize)| s@.subrange(p.0 as int, p.1 as int)).push(s@.subrange(a as int, e as int)));
                pos = e;
            },
            None => {
                assert(ws_p() == |c: char| is_ws(c));
                out.push((a, hi));
                assert(out@.map_values(|p: (usize, usize)| s@.subrange(p.0 as int, p.1 as int))
                    == before.map_values(|p: (usize, usize)| s@.subrange(p.0 as int, p.1 as int)).push(s@.subrange(a as int, hi as int)));
                break;
            },
        }
    }
    assert forall|k: int| 0 <= k < out@.len() implies s@.subrange(out@[k].0 as int, out@[k].1 as int) == whole[k] by {
        assert(out@.map_values(|p: (usize, usize)| s@.subrange(p.0 as int, p.1 as int))[k] == s@.subrange(out@[k].0 as int, out@[k].1 as int));
    }
    out
}

} // verus!
