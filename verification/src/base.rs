//! Core types shared across the pipeline: how an event arrived, where its raw
//! bytes live in the vault, and what became of it.
use vstd::prelude::*;
use crate::decode::salvage::text_lt;
use crate::text::{
    chars_of, eq_char, find, find_char, hex, is_hex, is_prefix, lemma_find_p, lemma_find_p_first,
    lemma_find_p_none, push_char, push_range, starts_with_at,
};

verus! {

/// Errors raised by the core types.
#[derive(Debug)]
pub enum Error {
    /// The whole locator is malformed.
    BadLocator(String),
    /// One named locator field is missing or not valid hex.
    LocatorField(&'static str),
    /// A field held a value of the wrong type.
    FieldType { field: String, expected: &'static str, found: &'static str },
    /// A required field is absent.
    MissingField(String),
}

/// How an event reached the collector.
#[derive(Debug, Clone, Copy, PartialEq, Eq, Structural)]
pub enum Transport {
    SyslogUdp,
    File,
    Http,
    Stdin,
}

pub open spec fn transport_label(t: Transport) -> Seq<char> {
    match t {
        Transport::SyslogUdp => seq!['s', 'y', 's', 'l', 'o', 'g', '-', 'u', 'd', 'p'],
        Transport::File => seq!['f', 'i', 'l', 'e'],
        Transport::Http => seq!['h', 't', 't', 'p'],
        Transport::Stdin => seq!['s', 't', 'd', 'i', 'n'],
    }
}

impl Transport {
    /// Stable lower-case label of the transport.
    pub fn as_str(&self) -> (r: &'static str)
        ensures
            r@ == transport_label(*self),
    {
        match self {
            Transport::SyslogUdp => {
                proof { reveal_strlit("syslog-udp"); }
                "syslog-udp"
            },
            Transport::File => {
                proof { reveal_strlit("file"); }
                "file"
            },
            Transport::Http => {
                proof { reveal_strlit("http"); }
                "http"
            },
            Transport::Stdin => {
                proof { reveal_strlit("stdin"); }
                "stdin"
            },
        }
    }

    /// Whether the transport preserves message boundaries on its own.
    pub fn is_datagram(&self) -> (r: bool)
        ensures
            r == (*self == Transport::SyslogUdp),
    {
        matches!(self, Transport::SyslogUdp)
    }
}

/// A durable pointer to the exact bytes of an event in the raw vault.
#[derive(Debug, Clone, Copy, PartialEq, Eq, Hash, Structural)]
pub struct RawRef {
    /// Segment number within a vault.
    pub segment: u64,
    /// Byte offset of the record header within the uncompressed frame stream.
    pub offset: u64,
    /// Length in bytes of the original payload.
    pub len: u32,
}

// ---------------------------------------------------------------------------
// Fixed-width hexadecimal
// ---------------------------------------------------------------------------

/// Lower-case hexadecimal digit for `d < 16`.
pub open spec fn hex_char(d: nat) -> char {
    if d < 10 {
        (48 + d) as char
    } else {
        (87 + d) as char
    }
}

/// The value of a hexadecimal digit (either case).
pub open spec fn hex_val(c: char) -> nat {
    if '0' <= c && c <= '9' {
        (c as nat - 48) as nat
    } else if 'a' <= c && c <= 'f' {
        (c as nat - 87) as nat
    } else {
        (c as nat - 55) as nat
    }
}

/// `v mod 16^width`, written as exactly `width` lower-case hex digits.
pub open spec fn hex_fixed(v: nat, width: nat) -> Seq<char>
    decreases width,
{
    if width == 0 {
        Seq::empty()
    } else {
        hex_fixed(v / 16, (width - 1) as nat).push(hex_char(v % 16))
    }
}

/// The number a string of hexadecimal digits denotes.
pub open spec fn hex_num(s: Seq<char>) -> nat
    decreases s.len(),
{
    if s.len() == 0 {
        0
    } else {
        hex_num(s.drop_last()) * 16 + hex_val(s.last())
    }
}

pub open spec fn all_hex(s: Seq<char>) -> bool {
    forall|i: int| 0 <= i < s.len() ==> is_hex(#[trigger] s[i])
}

/// `u64::from_str_radix(s, 16)`: an optional `+`, then one or more hex
/// digits whose value fits in a `u64`.
pub open spec fn parse_hex_u64(s: Seq<char>) -> Option<u64> {
    let d = if s.len() > 0 && s[0] == '+' { s.drop_first() } else { s };
    if d.len() > 0 && all_hex(d) && hex_num(d) <= u64::MAX {
        Some(hex_num(d) as u64)
    } else {
        None
    }
}

pub open spec fn pow16(w: nat) -> nat
    decreases w,
{
    if w == 0 { 1 } else { 16 * pow16((w - 1) as nat) }
}

pub open spec fn colon() -> Seq<char> {
    seq![':']
}

pub open spec fn locator_prefix() -> Seq<char> {
    seq!['u', 'l', 'p', 'f', ':', 'r', 'a', 'w', ':']
}

/// `ulpf:raw:<segment>:<offset>:<len>` with 16, 16 and 8 hex digits.
pub open spec fn locator(r: RawRef) -> Seq<char> {
    locator_prefix() + hex_fixed(r.segment as nat, 16) + colon() + hex_fixed(r.offset as nat, 16)
        + colon() + hex_fixed(r.len as nat, 8)
}

/// Why a locator was refused.
pub ghost enum LocatorFault {
    /// No `ulpf:raw:` prefix, or fields after `len`.
    Bad,
    /// The named field is missing or not valid hex.
    Field(Seq<char>),
}

pub open spec fn word_segment() -> Seq<char> {
    seq!['s', 'e', 'g', 'm', 'e', 'n', 't']
}

pub open spec fn word_offset() -> Seq<char> {
    seq!['o', 'f', 'f', 's', 'e', 't']
}

pub open spec fn word_len() -> Seq<char> {
    seq!['l', 'e', 'n']
}

/// What `RawRef::from_locator` makes of a string.
pub open spec fn parse_locator(s: Seq<char>) -> Result<RawRef, LocatorFault> {
    if !is_prefix(locator_prefix(), s) {
        Err(LocatorFault::Bad)
    } else {
        let parts = split(s.skip(9), ':');
        match parse_hex_u64(parts[0]) {
            None => Err(LocatorFault::Field(word_segment())),
            Some(segment) => if parts.len() < 2 {
                Err(LocatorFault::Field(word_offset()))
            } else {
                match parse_hex_u64(parts[1]) {
                    None => Err(LocatorFault::Field(word_offset())),
                    Some(offset) => if parts.len() < 3 {
                        Err(LocatorFault::Field(word_len()))
                    } else {
                        match parse_hex_u64(parts[2]) {
                            None => Err(LocatorFault::Field(word_len())),
                            Some(len) => if parts.len() > 3 {
                                Err(LocatorFault::Bad)
                            } else if len > u32::MAX {
                                Err(LocatorFault::Field(word_len()))
                            } else {
                                Ok(RawRef { segment, offset, len: len as u32 })
                            },
                        }
                    },
                }
            },
        }
    }
}

// ---------------------------------------------------------------------------
// Splitting
// ---------------------------------------------------------------------------

/// `s.split(c)`: the pieces between occurrences of `c`.
pub open spec fn split(s: Seq<char>, c: char) -> Seq<Seq<char>>
    decreases s.len(),
{
    match find(s, c) {
        None => seq![s],
        Some(i) => {
            proof {
                lemma_find_p(s, eq_char(c));
            }
            seq![s.take(i)] + split(s.skip(i + 1), c)
        },
    }
}

pub proof fn lemma_split_nonempty(s: Seq<char>, c: char)
    ensures
        split(s, c).len() >= 1,
    decreases s.len(),
{
    lemma_find_p(s, eq_char(c));
}

/// The ranges of `s[lo..hi]` between occurrences of `c`.
pub fn split_ranges(s: &[char], lo: usize, hi: usize, c: char) -> (r: Vec<(usize, usize)>)
    requires
        lo <= hi <= s@.len(),
    ensures
        r@.len() == split(s@.subrange(lo as int, hi as int), c).len(),
        forall|k: int| 0 <= k < r@.len() ==> {
            &&& lo <= (#[trigger] r@[k]).0 <= r@[k].1 <= hi
            &&& s@.subrange(r@[k].0 as int, r@[k].1 as int) == split(s@.subrange(lo as int, hi as int), c)[k]
        },
{
    let mut out: Vec<(usize, usize)> = Vec::new();
    let mut pos: usize = lo;
    let ghost whole = split(s@.subrange(lo as int, hi as int), c);
    loop
        invariant_except_break
            whole == out@.map_values(|p: (usize, usize)| s@.subrange(p.0 as int, p.1 as int))
                + split(s@.subrange(pos as int, hi as int), c),
        invariant
            lo <= pos <= hi <= s@.len(),
            whole == split(s@.subrange(lo as int, hi as int), c),
            forall|k: int| 0 <= k < out@.len() ==> lo <= (#[trigger] out@[k]).0 <= out@[k].1 <= hi,
        ensures
            whole == out@.map_values(|p: (usize, usize)| s@.subrange(p.0 as int, p.1 as int)),
        decreases hi - pos,
    {
        let ghost sub = s@.subrange(pos as int, hi as int);
        let ghost before = out@;
        match find_char(s, pos, hi, c) {
            Some(i) => {
                assert(sub.take(i - pos) == s@.subrange(pos as int, i as int));
                assert(sub.skip(i - pos + 1) == s@.subrange(i + 1, hi as int));
                out.push((pos, i));
                assert(out@.map_values(|p: (usize, usize)| s@.subrange(p.0 as int, p.1 as int))
                    == before.map_values(|p: (usize, usize)| s@.subrange(p.0 as int, p.1 as int))
                        + seq![s@.subrange(pos as int, i as int)]);
                pos = i + 1;
            },
            None => {
                out.push((pos, hi));
                assert(out@.map_values(|p: (usize, usize)| s@.subrange(p.0 as int, p.1 as int))
                    == before.map_values(|p: (usize, usize)| s@.subrange(p.0 as int, p.1 as int))
                        + seq![sub]);
                break;
            },
        }
    }
    assert forall|k: int| 0 <= k < out@.len() implies s@.subrange(out@[k].0 as int, out@[k].1 as int)
        == whole[k] by {
        assert(out@.map_values(|p: (usize, usize)| s@.subrange(p.0 as int, p.1 as int))[k]
            == s@.subrange(out@[k].0 as int, out@[k].1 as int));
    }
    out
}

// ---------------------------------------------------------------------------
// Hex parsing and printing
// ---------------------------------------------------------------------------

pub fn hex_digit_value(c: char) -> (r: u64)
    requires
        is_hex(c),
    ensures
        r == hex_val(c),
        r < 16,
{
    let v = c as u32;
    if '0' <= c && c <= '9' {
        (v - 48) as u64
    } else if 'a' <= c && c <= 'f' {
        (v - 87) as u64
    } else {
        (v - 55) as u64
    }
}

proof fn lemma_hex_num_step(s: Seq<char>, i: int)
    requires
        0 <= i < s.len(),
    ensures
        hex_num(s.take(i + 1)) == hex_num(s.take(i)) * 16 + hex_val(s[i]),
{
    assert(s.take(i + 1).drop_last() == s.take(i));
}

proof fn lemma_hex_num_grows(s: Seq<char>, i: int, j: int)
    requires
        0 <= i <= j <= s.len(),
    ensures
        hex_num(s.take(i)) <= hex_num(s.take(j)),
    decreases j - i,
{
    if i < j {
        lemma_hex_num_grows(s, i, j - 1);
        lemma_hex_num_step(s, j - 1);
    }
}

/// `u64::from_str_radix(s[lo..hi], 16)`, as an option.
pub fn parse_hex(s: &[char], lo: usize, hi: usize) -> (r: Option<u64>)
    requires
        lo <= hi <= s@.len(),
    ensures
        r == parse_hex_u64(s@.subrange(lo as int, hi as int)),
{
    let ghost whole = s@.subrange(lo as int, hi as int);
    let mut start = lo;
    if lo < hi && s[lo] == '+' {
        start = lo + 1;
    }
    let ghost d = s@.subrange(start as int, hi as int);
    if start > lo {
        assert(d =~= whole.drop_first());
    } else {
        assert(d =~= whole);
    }
    if start == hi {
        return None;
    }
    let mut acc: u64 = 0;
    let mut i: usize = start;
    while i < hi
        invariant
            lo <= start <= i <= hi <= s@.len(),
            d == s@.subrange(start as int, hi as int),
            whole == s@.subrange(lo as int, hi as int),
            d == (if whole.len() > 0 && whole[0] == '+' { whole.drop_first() } else { whole }),
            d.len() > 0,
            acc == hex_num(d.take(i - start)),
            forall|j: int| 0 <= j < i - start ==> is_hex(#[trigger] d[j]),
        decreases hi - i,
    {
        let c = s[i];
        if !hex(c) {
            assert(!is_hex(d[i - start]));
            return None;
        }
        let v = hex_digit_value(c);
        proof {
            lemma_hex_num_step(d, i - start);
        }
        if acc > (u64::MAX - v) / 16 {
            proof {
                assert(acc * 16 + v > u64::MAX) by (nonlinear_arith)
                    requires
                        acc > (u64::MAX - v) / 16,
                        v < 16,
                ;
                lemma_hex_num_grows(d, i - start + 1, d.len() as int);
                assert(d.take(d.len() as int) == d);
            }
            return None;
        }
        proof {
            assert(acc * 16 + v <= u64::MAX) by (nonlinear_arith)
                requires
                    acc <= (u64::MAX - v) / 16,
                    v < 16,
            ;
        }
        acc = acc * 16 + v;
        i += 1;
    }
    assert(d.take(d.len() as int) == d);
    Some(acc)
}

/// Appends `hex_fixed(v, width)` to `out`.
pub fn push_hex(out: &mut String, v: u64, width: usize)
    ensures
        final(out)@ == old(out)@ + hex_fixed(v as nat, width as nat),
    decreases width,
{
    if width == 0 {
        assert(old(out)@ + Seq::<char>::empty() == old(out)@);
        return;
    }
    push_hex(out, v / 16, width - 1);
    let d = (v % 16) as u8;
    let c = if d < 10 { (48u8 + d) as char } else { (87u8 + d) as char };
    assert(c == hex_char((v % 16) as nat));
    let ghost before = out@;
    push_char(out, c);
    assert(before.push(c) == old(out)@ + hex_fixed(v as nat, width as nat));
}

impl RawRef {
    pub fn new(segment: u64, offset: u64, len: u32) -> (r: Self)
        ensures
            r == (RawRef { segment, offset, len }),
    {
        RawRef { segment, offset, len }
    }

    /// Compact textual form, safe to embed in an OCSF string field.
    pub fn to_locator(&self) -> (r: String)
        ensures
            r@ == locator(*self),
    {
        let mut out = String::new();
        let p = chars_of("ulpf:raw:");
        proof {
            reveal_strlit("ulpf:raw:");
        }
        assert(p@ == locator_prefix());
        push_range(&mut out, &p, 0, p.len());
        assert(p@.subrange(0, 9) == p@);
        push_hex(&mut out, self.segment, 16);
        push_char(&mut out, ':');
        push_hex(&mut out, self.offset, 16);
        push_char(&mut out, ':');
        push_hex(&mut out, self.len as u64, 8);
        assert(out@ =~= locator(*self));
        out
    }

    /// Parse a locator produced by [`RawRef::to_locator`].
    pub fn from_locator(s: &str) -> (r: Result<Self, Error>)
        ensures
            match parse_locator(s@) {
                Ok(v) => r == Ok::<RawRef, Error>(v),
                Err(LocatorFault::Bad) => r matches Err(Error::BadLocator(m)) && m@ == s@,
                Err(LocatorFault::Field(w)) => r matches Err(Error::LocatorField(f)) && f@ == w,
            },
    {
        proof {
            reveal_strlit("segment");
            reveal_strlit("offset");
            reveal_strlit("len");
            reveal_strlit("ulpf:raw:");
        }
        let cs = chars_of(s);
        let p = chars_of("ulpf:raw:");
        assert(p@ == locator_prefix());
        assert(cs@.subrange(0, cs@.len() as int) == cs@);
        if !starts_with_at(&cs, 0, cs.len(), &p) {
            return Err(Error::BadLocator(s.to_owned()));
        }
        assert(cs@.subrange(9, cs@.len() as int) == cs@.skip(9));
        let parts = split_ranges(&cs, 9, cs.len(), ':');
        proof {
            lemma_split_nonempty(cs@.skip(9), ':');
        }
        let segment = match parse_hex(&cs, parts[0].0, parts[0].1) {
            Some(v) => v,
            None => return Err(Error::LocatorField("segment")),
        };
        if parts.len() < 2 {
            return Err(Error::LocatorField("offset"));
        }
        let offset = match parse_hex(&cs, parts[1].0, parts[1].1) {
            Some(v) => v,
            None => return Err(Error::LocatorField("offset")),
        };
        if parts.len() < 3 {
            return Err(Error::LocatorField("len"));
        }
        let len = match parse_hex(&cs, parts[2].0, parts[2].1) {
            Some(v) => v,
            None => return Err(Error::LocatorField("len")),
        };
        if parts.len() > 3 {
            return Err(Error::BadLocator(s.to_owned()));
        }
        if len > 0xffff_ffff {
            return Err(Error::LocatorField("len"));
        }
        Ok(RawRef { segment, offset, len: len as u32 })
    }
}

// ---------------------------------------------------------------------------
// Laws of the locator
// ---------------------------------------------------------------------------

proof fn lemma_hex_fixed_len(v: nat, w: nat)
    ensures
        hex_fixed(v, w).len() == w,
    decreases w,
{
    if w > 0 {
        lemma_hex_fixed_len(v / 16, (w - 1) as nat);
    }
}

proof fn lemma_hex_char(d: nat)
    requires
        d < 16,
    ensures
        is_hex(hex_char(d)),
        hex_val(hex_char(d)) == d,
        hex_char(d) != ':',
        hex_char(d) != '+',
{
}

proof fn lemma_hex_fixed_digits(v: nat, w: nat)
    ensures
        all_hex(hex_fixed(v, w)),
        forall|i: int| 0 <= i < hex_fixed(v, w).len() ==> #[trigger] hex_fixed(v, w)[i] != ':',
        hex_num(hex_fixed(v, w)) == v % pow16(w),
    decreases w,
{
    lemma_hex_fixed_len(v, w);
    if w > 0 {
        let h = hex_fixed(v / 16, (w - 1) as nat);
        lemma_hex_fixed_digits(v / 16, (w - 1) as nat);
        vstd::arithmetic::div_mod::lemma_mod_bound(v as int, 16);
        lemma_hex_char(v % 16);
        assert(hex_fixed(v, w).drop_last() == h);
        assert(pow16(w) == 16 * pow16((w - 1) as nat));
        lemma_pow16_pos((w - 1) as nat);
        vstd::arithmetic::div_mod::lemma_mod_breakdown(v as int, 16, pow16((w - 1) as nat) as int);
        assert(hex_num(hex_fixed(v, w)) == hex_num(h) * 16 + v % 16);
        let q = (v as int / 16) % (pow16((w - 1) as nat) as int);
        assert(q * 16 == 16 * q) by (nonlinear_arith);
    }
}

proof fn lemma_pow16_pos(w: nat)
    ensures
        pow16(w) > 0,
    decreases w,
{
    if w > 0 {
        lemma_pow16_pos((w - 1) as nat);
    }
}

proof fn lemma_pow16_values()
    ensures
        pow16(8) == 0x1_0000_0000,
        pow16(16) == 0x1_0000_0000_0000_0000,
{
    reveal_with_fuel(pow16, 17);
}

proof fn lemma_no_colon_find(h: Seq<char>, rest: Seq<char>)
    requires
        forall|i: int| 0 <= i < h.len() ==> #[trigger] h[i] != ':',
    ensures
        find(h, ':') is None,
        find(h + colon() + rest, ':') == Some(h.len() as int),
{
    lemma_find_p_none(h, eq_char(':'));
    let t = h + colon() + rest;
    assert forall|j: int| 0 <= j < h.len() implies !eq_char(':')(#[trigger] t[j]) by {
        assert(t[j] == h[j]);
    }
    assert(t[h.len() as int] == ':');
    lemma_find_p_first(t, eq_char(':'), h.len() as int);
}

proof fn lemma_parse_hex_fixed(v: nat, w: nat)
    requires
        w > 0,
        v < pow16(w),
        pow16(w) <= 0x1_0000_0000_0000_0000,
    ensures
        parse_hex_u64(hex_fixed(v, w)) == Some(v as u64),
{
    lemma_hex_fixed_digits(v, w);
    lemma_hex_fixed_len(v, w);
    assert(hex_fixed(v, w)[0] != '+') by {
        lemma_hex_char(v % 16);
        let h = hex_fixed(v, w);
        assert(is_hex(h[0]));
    }
    assert(v % pow16(w) == v) by {
        vstd::arithmetic::div_mod::lemma_small_mod(v, pow16(w));
    }
}

/// Law: a locator reads back as the reference it was written from.
pub proof fn locator_round_trip(r: RawRef)
    ensures
        parse_locator(locator(r)) == Ok::<RawRef, LocatorFault>(r),
{
    let a = hex_fixed(r.segment as nat, 16);
    let b = hex_fixed(r.offset as nat, 16);
    let c = hex_fixed(r.len as nat, 8);
    lemma_hex_fixed_digits(r.segment as nat, 16);
    lemma_hex_fixed_digits(r.offset as nat, 16);
    lemma_hex_fixed_digits(r.len as nat, 8);
    lemma_hex_fixed_len(r.segment as nat, 16);
    lemma_hex_fixed_len(r.offset as nat, 16);
    lemma_hex_fixed_len(r.len as nat, 8);
    lemma_pow16_values();
    let s = locator(r);
    assert(s.subrange(0, 9) == locator_prefix());
    let rest = s.skip(9);
    assert(rest == a + colon() + (b + colon() + c));
    lemma_no_colon_find(a, b + colon() + c);
    assert((a + colon() + (b + colon() + c)).take(16) == a);
    assert((a + colon() + (b + colon() + c)).skip(17) == b + colon() + c);
    lemma_no_colon_find(b, c);
    assert((b + colon() + c).take(16) == b);
    assert((b + colon() + c).skip(17) == c);
    lemma_no_colon_find(c, Seq::empty());
    assert(split(c, ':') == seq![c]);
    assert(split(b + colon() + c, ':') == seq![b] + seq![c]);
    assert(split(rest, ':') == seq![a] + (seq![b] + seq![c]));
    let parts = split(rest, ':');
    assert(parts =~= seq![a, b, c]);
    lemma_parse_hex_fixed(r.segment as nat, 16);
    lemma_parse_hex_fixed(r.offset as nat, 16);
    lemma_parse_hex_fixed(r.len as nat, 8);
}

// ---------------------------------------------------------------------------
// Locator order
// ---------------------------------------------------------------------------

/// `a` lies before `b`: an earlier segment; or the same segment and an
/// earlier offset; or both the same and a shorter payload.
pub open spec fn position_lt(a: RawRef, b: RawRef) -> bool {
    a.segment < b.segment || (a.segment == b.segment && (a.offset < b.offset || (a.offset == b.offset && a.len < b.len)))
}

proof fn lemma_lt_common_prefix(p: Seq<char>, x: Seq<char>, y: Seq<char>)
    ensures
        text_lt(p + x, p + y) == text_lt(x, y),
    decreases p.len(),
{
    if p.len() > 0 {
        assert((p + x)[0] == p[0] && (p + y)[0] == p[0]);
        assert((p + x).drop_first() == p.drop_first() + x);
        assert((p + y).drop_first() == p.drop_first() + y);
        lemma_lt_common_prefix(p.drop_first(), x, y);
    } else {
        assert(p + x == x && p + y == y);
    }
}

proof fn lemma_lt_extend(x: Seq<char>, y: Seq<char>, c: Seq<char>, d: Seq<char>)
    requires
        x.len() == y.len(),
        text_lt(x, y),
    ensures
        text_lt(x + c, y + d),
    decreases x.len(),
{
    assert((x + c)[0] == x[0] && (y + d)[0] == y[0]);
    if x[0] == y[0] {
        assert((x + c).drop_first() == x.drop_first() + c);
        assert((y + d).drop_first() == y.drop_first() + d);
        lemma_lt_extend(x.drop_first(), y.drop_first(), c, d);
    }
}

proof fn lemma_hex_fixed_lt(v1: nat, v2: nat, w: nat)
    requires
        v1 < v2 < pow16(w),
    ensures
        text_lt(hex_fixed(v1, w), hex_fixed(v2, w)),
    decreases w,
{
    let q1 = v1 / 16;
    let q2 = v2 / 16;
    let h1 = hex_fixed(q1, (w - 1) as nat);
    let h2 = hex_fixed(q2, (w - 1) as nat);
    lemma_hex_fixed_len(q1, (w - 1) as nat);
    lemma_hex_fixed_len(q2, (w - 1) as nat);
    assert(hex_fixed(v1, w) == h1 + seq![hex_char(v1 % 16)]);
    assert(hex_fixed(v2, w) == h2 + seq![hex_char(v2 % 16)]);
    assert(q2 < pow16((w - 1) as nat)) by (nonlinear_arith)
        requires
            v2 < pow16(w),
            pow16(w) == 16 * pow16((w - 1) as nat),
            q2 == v2 / 16;
    if q1 < q2 {
        lemma_hex_fixed_lt(q1, q2, (w - 1) as nat);
        lemma_lt_extend(h1, h2, seq![hex_char(v1 % 16)], seq![hex_char(v2 % 16)]);
    } else {
        assert(q1 == q2);
        assert(v1 % 16 < v2 % 16);
        lemma_lt_common_prefix(h1, seq![hex_char(v1 % 16)], seq![hex_char(v2 % 16)]);
        assert(hex_char(v1 % 16) < hex_char(v2 % 16));
        assert(seq![hex_char(v1 % 16)].drop_first() == Seq::<char>::empty());
    }
}

/// Locators sort as the positions they name: fixed-width hex fields make
/// the text order the order of segment, then offset, then length.
pub proof fn locators_sort_by_position(a: RawRef, b: RawRef)
    requires
        position_lt(a, b),
    ensures
        text_lt(locator(a), locator(b)),
{
    lemma_pow16_values();
    let sa = hex_fixed(a.segment as nat, 16);
    let sb = hex_fixed(b.segment as nat, 16);
    let oa = hex_fixed(a.offset as nat, 16);
    let ob = hex_fixed(b.offset as nat, 16);
    let la = hex_fixed(a.len as nat, 8);
    let lb = hex_fixed(b.len as nat, 8);
    lemma_hex_fixed_len(a.segment as nat, 16);
    lemma_hex_fixed_len(b.segment as nat, 16);
    lemma_hex_fixed_len(a.offset as nat, 16);
    lemma_hex_fixed_len(b.offset as nat, 16);
    let p = locator_prefix();
    let ra = colon() + oa + colon() + la;
    let rb = colon() + ob + colon() + lb;
    assert(locator(a) == p + (sa + ra));
    assert(locator(b) == p + (sb + rb));
    lemma_lt_common_prefix(p, sa + ra, sb + rb);
    if a.segment < b.segment {
        lemma_hex_fixed_lt(a.segment as nat, b.segment as nat, 16);
        lemma_lt_extend(sa, sb, ra, rb);
    } else {
        assert(sa == sb);
        let q = sa + colon();
        assert(sa + ra == q + (oa + (colon() + la)));
        assert(sb + rb == q + (ob + (colon() + lb)));
        lemma_lt_common_prefix(q, oa + (colon() + la), ob + (colon() + lb));
        if a.offset < b.offset {
            lemma_hex_fixed_lt(a.offset as nat, b.offset as nat, 16);
            lemma_lt_extend(oa, ob, colon() + la, colon() + lb);
        } else {
            assert(oa == ob);
            lemma_lt_common_prefix(oa + colon(), la, lb);
            assert(oa + (colon() + la) == (oa + colon()) + la);
            assert(ob + (colon() + lb) == (oa + colon()) + lb);
            lemma_hex_fixed_lt(a.len as nat, b.len as nat, 8);
        }
    }
}

// ---------------------------------------------------------------------------
// Disposition
// ---------------------------------------------------------------------------

/// Outcome of trying to interpret one raw event.
#[derive(Debug, Clone, PartialEq, Eq)]
pub enum Disposition {
    /// A pack claimed the event and extraction succeeded.
    Parsed { pack_id: String },
    /// No pack matched.
    Unidentified,
    /// A pack matched but its extraction plan failed.
    ExtractFailed { pack_id: String, reason: String },
    /// Extraction succeeded but the result did not satisfy the OCSF schema.
    NormalizeFailed { pack_id: String, reason: String },
}

/// Short stable label of each outcome.
pub open spec fn disposition_label(d: Disposition) -> Seq<char> {
    match d {
        Disposition::Parsed { .. } => seq!['p', 'a', 'r', 's', 'e', 'd'],
        Disposition::Unidentified => seq!['u', 'n', 'i', 'd', 'e', 'n', 't', 'i', 'f', 'i', 'e', 'd'],
        Disposition::ExtractFailed { .. } => seq!['e', 'x', 't', 'r', 'a', 'c', 't', '_', 'f', 'a', 'i', 'l', 'e', 'd'],
        Disposition::NormalizeFailed { .. } => seq!['n', 'o', 'r', 'm', 'a', 'l', 'i', 'z', 'e', '_', 'f', 'a', 'i', 'l', 'e', 'd'],
    }
}

impl Disposition {
    pub fn is_parsed(&self) -> (r: bool)
        ensures
            r == (*self is Parsed),
    {
        matches!(self, Disposition::Parsed { .. })
    }

    /// The pack involved, if any.
    pub fn pack_id(&self) -> (r: Option<&str>)
        ensures
            match *self {
                Disposition::Parsed { pack_id } => r matches Some(p) && p@ == pack_id@,
                Disposition::ExtractFailed { pack_id, .. } => r matches Some(p) && p@ == pack_id@,
                Disposition::NormalizeFailed { pack_id, .. } => r matches Some(p) && p@ == pack_id@,
                Disposition::Unidentified => r is None,
            },
    {
        match self {
            Disposition::Parsed { pack_id } => Some(pack_id.as_str()),
            Disposition::ExtractFailed { pack_id, .. } => Some(pack_id.as_str()),
            Disposition::NormalizeFailed { pack_id, .. } => Some(pack_id.as_str()),
            Disposition::Unidentified => None,
        }
    }

    /// Short stable label, used as a metrics dimension.
    pub fn label(&self) -> (r: &'static str)
        ensures
            r@ == disposition_label(*self),
    {
        proof {
            reveal_strlit("parsed");
            reveal_strlit("unidentified");
            reveal_strlit("extract_failed");
            reveal_strlit("normalize_failed");
        }
        match self {
            Disposition::Parsed { .. } => "parsed",
            Disposition::Unidentified => "unidentified",
            Disposition::ExtractFailed { .. } => "extract_failed",
            Disposition::NormalizeFailed { .. } => "normalize_failed",
        }
    }
}

} // verus!
