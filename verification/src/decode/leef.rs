//! IBM QRadar LEEF (Log Event Extended Format).
//!
//! `LEEF:version|vendor|product|version|eventID|delimiter?|key=value...`
//!
//! LEEF 1.0 has no delimiter field and tab-separated extensions; LEEF 2.0
//! names its delimiter in the field after the event id.
use vstd::prelude::*;
use crate::base::{split, split_ranges};
use crate::decode::{DecodeError, Decoded, Outcome, outcome};
use crate::field::{Entries, FieldMap, Value, ValueV, insert_entry};
use crate::text::{
    char_width, chars_of, eq_char, find, find_char, is_prefix, lemma_find_p, owned, part,
    starts_with_at, string_range, trim, trim_range, utf8_len,
};

verus! {

#[derive(Debug, Clone, Copy)]
pub struct LeefDecoder;

/// The text after the `n`-th `|` of `s`.
pub open spec fn after_pipe(s: Seq<char>, n: nat) -> Option<Seq<char>>
    decreases n,
{
    if n == 0 {
        Some(s)
    } else {
        match after_pipe(s, (n - 1) as nat) {
            None => None,
            Some(t) => match find(t, '|') {
                None => None,
                Some(i) => Some(t.skip(i + 1)),
            },
        }
    }
}

/// The text up to the first `|` of `t` (all of it, without one).
pub open spec fn before_pipe(t: Seq<char>) -> Seq<char> {
    match find(t, '|') {
        Some(i) => t.take(i),
        None => t,
    }
}

/// Header field `k` (from zero) of `s`.
pub open spec fn header(s: Seq<char>, k: nat) -> Seq<char> {
    before_pipe(after_pipe(s, k)->Some_0)
}

/// One `key=value` piece, trimmed, added to `e`.
pub open spec fn leef_pair(e: Entries, piece: Seq<char>) -> Entries {
    let q = trim(piece);
    match find(q, '=') {
        None => e,
        Some(eq) => {
            let key = trim(q.take(eq));
            if key.len() == 0 {
                e
            } else {
                insert_entry(e, key, ValueV::Str(trim(q.skip(eq + 1))))
            }
        },
    }
}

/// The pieces `ps`, added to `e` in order.
pub open spec fn leef_pairs(ps: Seq<Seq<char>>, e: Entries) -> Entries
    decreases ps.len(),
{
    if ps.len() == 0 {
        e
    } else {
        leef_pairs(ps.drop_first(), leef_pair(e, ps[0]))
    }
}

/// The extension `input`, split on `delim`, added to `e`.
pub open spec fn extensions(input: Seq<char>, delim: char, e: Entries) -> Entries {
    leef_pairs(split(input, delim), e)
}

/// LEEF 2.0's delimiter and where its extensions start, from the text after
/// the fifth pipe: a one-byte field names the delimiter; `0x09` or an empty
/// field means tab; otherwise (or with no sixth pipe) tab and the whole text.
pub open spec fn delimiter_and_rest(after: Seq<char>) -> (char, Seq<char>) {
    match find(after, '|') {
        Some(q) => {
            let d = after.take(q);
            if utf8_len(d) == 1 {
                (d[0], after.skip(q + 1))
            } else if d == "0x09"@ || d.len() == 0 {
                ('\t', after.skip(q + 1))
            } else {
                ('\t', after)
            }
        },
        None => ('\t', after),
    }
}

/// The first tab or pipe in `s`.
pub open spec fn find_tab_or_pipe(s: Seq<char>) -> Option<int> {
    crate::text::find_p(s, |c: char| c == '\t' || c == '|')
}

/// The header fields every version has.
pub open spec fn leef_head(rest: Seq<char>) -> Entries {
    seq![
        ("leef.version"@, ValueV::Str(header(rest, 0))),
        ("leef.vendor"@, ValueV::Str(header(rest, 1))),
        ("leef.product"@, ValueV::Str(header(rest, 2))),
        ("leef.product_version"@, ValueV::Str(header(rest, 3))),
    ]
}

/// What decoding `input` yields.
pub open spec fn leef_outcome(input: Seq<char>) -> Outcome {
    let t = trim(input);
    let rest = t.skip(5);
    if t.len() == 0 {
        Outcome::Empty
    } else if !is_prefix("LEEF:"@, t) {
        Outcome::NotThisFormat("leef"@, "input does not start with 'LEEF:'"@)
    } else if after_pipe(rest, 4) is None {
        Outcome::Malformed("leef"@, 0, "expected at least 4 pipe separators"@)
    } else {
        let head = leef_head(rest);
        let version = header(rest, 0);
        if version.len() > 0 && version[0] == '2' && after_pipe(rest, 5) is Some {
            let (d, ext) = delimiter_and_rest(after_pipe(rest, 5)->Some_0);
            Outcome::Fields(
                extensions(ext, d, head.push(("leef.event_id"@, ValueV::Str(header(rest, 4))))),
                None,
            )
        } else {
            let eir = after_pipe(rest, 4)->Some_0;
            match find_tab_or_pipe(eir) {
                Some(k) => Outcome::Fields(
                    extensions(eir.skip(k + 1), '\t', head.push(("leef.event_id"@, ValueV::Str(eir.take(k))))),
                    None,
                ),
                None => Outcome::Fields(head.push(("leef.event_id"@, ValueV::Str(eir))), None),
            }
        }
    }
}

/// Where the text after the `n`-th pipe of `s[lo..hi]` starts.
fn pipe_after(s: &[char], lo: usize, hi: usize, n: usize) -> (r: Option<usize>)
    requires
        lo <= hi <= s@.len(),
    ensures
        match after_pipe(part(s@, lo as int, hi as int), n as nat) {
            Some(t) => r matches Some(p) && lo <= p <= hi && part(s@, p as int, hi as int) == t,
            None => r is None,
        },
{
    let mut p = lo;
    let mut k: usize = 0;
    assert(after_pipe(part(s@, lo as int, hi as int), 0) == Some(part(s@, lo as int, hi as int)));
    while k < n
        invariant
            k <= n,
            lo <= p <= hi <= s@.len(),
            after_pipe(part(s@, lo as int, hi as int), k as nat) == Some(part(s@, p as int, hi as int)),
        decreases n - k,
    {
        match find_char(s, p, hi, '|') {
            Some(i) => {
                assert(part(s@, p as int, hi as int).skip(i - p + 1) == part(s@, i + 1, hi as int));
                p = i + 1;
            },
            None => {
                proof {
                    lemma_after_pipe_stuck(part(s@, lo as int, hi as int), (k + 1) as nat, n as nat);
                }
                return None;
            },
        }
        k += 1;
    }
    Some(p)
}

proof fn lemma_after_pipe_stuck(s: Seq<char>, k: nat, m: nat)
    requires
        k <= m,
        after_pipe(s, k) is None,
    ensures
        after_pipe(s, m) is None,
    decreases m,
{
    if m > k {
        lemma_after_pipe_stuck(s, k, (m - 1) as nat);
    }
}

/// `before_pipe(s[lo..hi])`, as an end index.
fn pipe_end(s: &[char], lo: usize, hi: usize) -> (r: usize)
    requires
        lo <= hi <= s@.len(),
    ensures
        lo <= r <= hi,
        part(s@, lo as int, r as int) == before_pipe(part(s@, lo as int, hi as int)),
{
    match find_char(s, lo, hi, '|') {
        Some(i) => {
            assert(part(s@, lo as int, hi as int).take(i - lo) == part(s@, lo as int, i as int));
            i
        },
        None => {
            hi
        },
    }
}

/// Adds the extension pairs of `s[lo..hi]`, split on `delim`, to `fields`.
fn parse_extensions(s: &[char], lo: usize, hi: usize, delim: char, fields: &mut FieldMap)
    requires
        lo <= hi <= s@.len(),
    ensures
        final(fields)@ == extensions(part(s@, lo as int, hi as int), delim, old(fields)@),
{
    let ps = split_ranges(s, lo, hi, delim);
    let ghost pieces = split(part(s@, lo as int, hi as int), delim);
    let mut k: usize = 0;
    assert(pieces.skip(0) == pieces);
    while k < ps.len()
        invariant
            k <= ps@.len(),
            lo <= hi <= s@.len(),
            pieces == split(part(s@, lo as int, hi as int), delim),
            ps@.len() == pieces.len(),
            forall|j: int| 0 <= j < ps@.len() ==> {
                &&& lo <= (#[trigger] ps@[j]).0 <= ps@[j].1 <= hi
                &&& part(s@, ps@[j].0 as int, ps@[j].1 as int) == pieces[j]
            },
            leef_pairs(pieces, old(fields)@) == leef_pairs(pieces.skip(k as int), fields@),
        decreases ps@.len() - k,
    {
        let (a, b) = ps[k];
        let ghost piece = pieces[k as int];
        assert(part(s@, a as int, b as int) == piece);
        assert(pieces.skip(k as int).drop_first() == pieces.skip(k + 1));
        assert(pieces.skip(k as int)[0] == piece);
        let (qa, qb) = trim_range(s, a, b);
        let ghost q = part(s@, qa as int, qb as int);
        match find_char(s, qa, qb, '=') {
            None => {},
            Some(eq) => {
                proof {
                    lemma_find_p(q, eq_char('='));
                }
                let (ka, kb) = trim_range(s, qa, eq);
                assert(q.take(eq - qa) == part(s@, qa as int, eq as int));
                if ka < kb {
                    let (va, vb) = trim_range(s, eq + 1, qb);
                    assert(q.skip(eq - qa + 1) == part(s@, eq + 1, qb as int));
                    let key = string_range(s, ka, kb);
                    let value = string_range(s, va, vb);
                    fields.insert(key.as_str(), Value::Str(value));
                }
            },
        }
        k += 1;
    }
    assert(pieces.skip(ps@.len() as int) == Seq::<Seq<char>>::empty());
}

impl LeefDecoder {
    pub fn name(&self) -> (r: &'static str)
        ensures
            r@ == "leef"@,
    {
        "leef"
    }

    /// Decode one LEEF record.
    #[verifier::rlimit(40)]
    pub fn decode(&self, input: &str) -> (r: Result<Decoded, DecodeError>)
        ensures
            outcome(r) == leef_outcome(input@),
    {
        let cs = chars_of(input);
        let (lo, hi) = trim_range(&cs, 0, cs.len());
        assert(part(cs@, 0, cs@.len() as int) == input@);
        let ghost t = part(cs@, lo as int, hi as int);
        if lo == hi {
            return Err(DecodeError::Empty);
        }
        let marker = chars_of("LEEF:");
        if !starts_with_at(&cs, lo, hi, &marker) {
            return Err(DecodeError::NotThisFormat { format: "leef", detail: owned("input does not start with 'LEEF:'") });
        }
        proof {
            reveal_strlit("LEEF:");
        }
        let r0 = lo + 5;
        let ghost rest = part(cs@, r0 as int, hi as int);
        assert(t.skip(5) == rest);
        let p4 = match pipe_after(&cs, r0, hi, 4) {
            Some(p) => p,
            None => {
                return Err(DecodeError::Malformed { format: "leef", offset: 0, detail: owned("expected at least 4 pipe separators") });
            },
        };
        let mut fields = FieldMap::with_capacity(24);
        let mut k: usize = 0;
        let names: [&str; 4] = ["leef.version", "leef.vendor", "leef.product", "leef.product_version"];
        let mut v_end: usize = r0;
        while k < 4
            invariant
                k <= 4,
                r0 <= hi <= cs@.len(),
                r0 <= v_end <= hi,
                rest == part(cs@, r0 as int, hi as int),
                after_pipe(rest, 4) is Some,
                names@ == seq!["leef.version", "leef.vendor", "leef.product", "leef.product_version"],
                fields@ == leef_head(rest).take(k as int),
                k > 0 ==> part(cs@, r0 as int, v_end as int) == header(rest, 0),
            decreases 4 - k,
        {
            proof {
                lemma_after_pipe_some(rest, k as nat, 4);
            }
            let a = match pipe_after(&cs, r0, hi, k) {
                Some(a) => a,
                None => {
                    return Err(DecodeError::Empty);
                },
            };
            let b = pipe_end(&cs, a, hi);
            let ghost before = fields@;
            fields.push_unchecked(names[k], Value::Str(string_range(&cs, a, b)));
            proof {
                reveal_strlit("leef.version");
                reveal_strlit("leef.vendor");
                reveal_strlit("leef.product");
                reveal_strlit("leef.product_version");
            }
            assert(names[k as int]@ == leef_head(rest)[k as int].0);
            assert(leef_head(rest).take(k + 1) == leef_head(rest).take(k as int).push(leef_head(rest)[k as int]));
            if k == 0 {
                v_end = b;
                assert(a == r0);
            }
            k += 1;
        }
        assert(leef_head(rest).take(4) == leef_head(rest));
        let v2 = v_end > r0 && cs[r0] == '2';
        assert(v2 ==> header(rest, 0)[0] == cs@[r0 as int]);
        match pipe_after(&cs, r0, hi, 5) {
            Some(p5) if v2 => {
                let e4 = pipe_end(&cs, p4, hi);
                let ghost after = part(cs@, p5 as int, hi as int);
                let ghost head = fields@;
                fields.push_unchecked("leef.event_id", Value::Str(string_range(&cs, p4, e4)));
                proof {
                    reveal_strlit("leef.event_id");
                }
                let (d, ext) = match find_char(&cs, p5, hi, '|') {
                    Some(q) => {
                        assert(after.take(q - p5) == part(cs@, p5 as int, q as int));
                        assert(after.skip(q - p5 + 1) == part(cs@, q + 1, hi as int));
                        let width = if q > p5 { char_width(cs[p5]) } else { 0 };
                        proof {
                            lemma_utf8_len_one(part(cs@, p5 as int, q as int));
                        }
                        let zx = chars_of("0x09");
                        if q == p5 + 1 && width == 1 {
                            (cs[p5], q + 1)
                        } else if q == p5 || starts_with_at(&cs, p5, q, &zx) && q - p5 == 4 {
                            proof {
                                reveal_strlit("0x09");
                                if q - p5 == 4 {
                                    assert(part(cs@, p5 as int, q as int) == part(cs@, p5 as int, q as int).subrange(0, 4));
                                }
                            }
                            ('\t', q + 1)
                        } else {
                            proof {
                                reveal_strlit("0x09");
                                if part(cs@, p5 as int, q as int) == "0x09"@ {
                                    assert(part(cs@, p5 as int, q as int).subrange(0, 4) == "0x09"@);
                                }
                            }
                            ('\t', p5)
                        }
                    },
                    None => ('\t', p5),
                };
                assert(delimiter_and_rest(after) == (d, part(cs@, ext as int, hi as int)));
                parse_extensions(&cs, ext, hi, d, &mut fields);
            },
            _ => {
                let ghost eir = part(cs@, p4 as int, hi as int);
                let mut j = p4;
                while j < hi && cs[j] != '\t' && cs[j] != '|'
                    invariant
                        p4 <= j <= hi <= cs@.len(),
                        eir == part(cs@, p4 as int, hi as int),
                        forall|m: int| 0 <= m < j - p4 ==> !(|c: char| c == '\t' || c == '|')(#[trigger] eir[m]),
                    decreases hi - j,
                {
                    assert(eir[j - p4] == cs@[j as int]);
                    j += 1;
                }
                fields.push_unchecked("leef.event_id", Value::Str(string_range(&cs, p4, j)));
                proof {
                    reveal_strlit("leef.event_id");
                }
                if j < hi {
                    assert(eir[j - p4] == cs@[j as int]);
                    proof {
                        crate::text::lemma_find_p_first(eir, |c: char| c == '\t' || c == '|', j - p4);
                    }
                    assert(eir.take(j - p4) == part(cs@, p4 as int, j as int));
                    assert(eir.skip(j - p4 + 1) == part(cs@, j + 1, hi as int));
                    parse_extensions(&cs, j + 1, hi, '\t', &mut fields);
                } else {
                    proof {
                        crate::text::lemma_find_p_none(eir, |c: char| c == '\t' || c == '|');
                    }
                    assert(eir == part(cs@, p4 as int, j as int));
                }
            },
        }
        Ok(Decoded::terminal(fields))
    }
}

proof fn lemma_after_pipe_some(s: Seq<char>, k: nat, m: nat)
    requires
        k <= m,
        after_pipe(s, m) is Some,
    ensures
        after_pipe(s, k) is Some,
    decreases m,
{
    if m > k {
        lemma_after_pipe_some(s, k, (m - 1) as nat);
    }
}

proof fn lemma_utf8_len_one(d: Seq<char>)
    ensures
        utf8_len(d) == 1 <==> d.len() == 1 && crate::text::utf8_width(d[0]) == 1,
    decreases d.len(),
{
    if d.len() > 0 {
        lemma_utf8_len_pos(d.drop_last());
        assert(utf8_len(d) == utf8_len(d.drop_last()) + crate::text::utf8_width(d.last()));
        assert(crate::text::utf8_width(d.last()) >= 1);
        if d.len() == 1 {
            assert(d.drop_last().len() == 0);
            assert(utf8_len(d.drop_last()) == 0);
            assert(d.last() == d[0]);
        } else {
            assert(utf8_len(d.drop_last()) >= 1);
        }
    }
}

proof fn lemma_utf8_len_pos(d: Seq<char>)
    ensures
        d.len() > 0 ==> utf8_len(d) >= d.len(),
    decreases d.len(),
{
    if d.len() > 0 {
        lemma_utf8_len_pos(d.drop_last());
    }
}

// ---------------------------------------------------------------------------
// The header, field by field
// ---------------------------------------------------------------------------

proof fn lemma_find_after(x: Seq<char>, y: Seq<char>, c: char)
    requires
        !x.contains(c),
    ensures
        find(x + seq![c] + y, c) == Some(x.len() as int),
{
    let s = x + seq![c] + y;
    assert forall|j: int| 0 <= j < x.len() implies !(eq_char(c))(#[trigger] s[j]) by {
        assert(s[j] == x[j]);
    }
    crate::text::lemma_find_p_first(s, eq_char(c), x.len() as int);
}

proof fn lemma_find_none(x: Seq<char>, c: char)
    requires
        !x.contains(c),
    ensures
        find(x, c) is None,
{
    assert forall|j: int| 0 <= j < x.len() implies !(eq_char(c))(#[trigger] x[j]) by {
        if x[j] == c {
            assert(x.contains(c));
        }
    }
    crate::text::lemma_find_p_none(x, eq_char(c));
}

/// Past a pipe-free field and its pipe, the `n + 1`-th pipe of the text is
/// the `n`-th of what follows.
proof fn lemma_after_field(x: Seq<char>, y: Seq<char>, n: nat)
    requires
        !x.contains('|'),
    ensures
        after_pipe(x + seq!['|'] + y, n + 1) == after_pipe(y, n),
    decreases n,
{
    let s = x + seq!['|'] + y;
    if n == 0 {
        lemma_find_after(x, y, '|');
        assert(s.skip(x.len() as int + 1) =~= y);
    } else {
        let m = (n - 1) as nat;
        lemma_after_field(x, y, m);
        assert(after_pipe(s, m + 1) == after_pipe(y, m));
        assert(n + 1 == (m + 1) + 1);
        assert(after_pipe(s, (m + 1) + 1) == match after_pipe(s, m + 1) {
            None => None,
            Some(t) => match find(t, '|') {
                None => None,
                Some(i) => Some(t.skip(i + 1)),
            },
        });
        assert(after_pipe(y, m + 1) == match after_pipe(y, m) {
            None => None,
            Some(t) => match find(t, '|') {
                None => None,
                Some(i) => Some(t.skip(i + 1)),
            },
        });
    }
}

/// The header text `v|vendor|product|pv|eid` followed by `tail`.
pub open spec fn leef_header_text(fs: Seq<Seq<char>>, tail: Seq<char>) -> Seq<char> {
    fs[0] + seq!['|'] + (fs[1] + seq!['|'] + (fs[2] + seq!['|'] + (fs[3] + seq!['|'] + (fs[4] + tail))))
}

proof fn lemma_header_fields(fs: Seq<Seq<char>>, tail: Seq<char>)
    requires
        fs.len() == 5,
        forall|k: int| 0 <= k < 5 ==> !(#[trigger] fs[k]).contains('|'),
    ensures
        after_pipe(leef_header_text(fs, tail), 4) == Some(fs[4] + tail),
        forall|k: nat| k < 4 ==> #[trigger] header(leef_header_text(fs, tail), k) == fs[k as int],
{
    let r4 = fs[4] + tail;
    let r3 = fs[3] + seq!['|'] + r4;
    let r2 = fs[2] + seq!['|'] + r3;
    let r1 = fs[1] + seq!['|'] + r2;
    let r0 = fs[0] + seq!['|'] + r1;
    assert(r0 == leef_header_text(fs, tail));
    lemma_after_field(fs[0], r1, 0);
    lemma_after_field(fs[0], r1, 1);
    lemma_after_field(fs[0], r1, 2);
    lemma_after_field(fs[0], r1, 3);
    lemma_after_field(fs[1], r2, 0);
    lemma_after_field(fs[1], r2, 1);
    lemma_after_field(fs[1], r2, 2);
    lemma_after_field(fs[2], r3, 0);
    lemma_after_field(fs[2], r3, 1);
    lemma_after_field(fs[3], r4, 0);
    assert(after_pipe(r0, 0) == Some(r0));
    assert(after_pipe(r1, 0) == Some(r1));
    assert(after_pipe(r2, 0) == Some(r2));
    assert(after_pipe(r3, 0) == Some(r3));
    lemma_find_after(fs[0], r1, '|');
    lemma_find_after(fs[1], r2, '|');
    lemma_find_after(fs[2], r3, '|');
    lemma_find_after(fs[3], r4, '|');
    assert(r0.take(fs[0].len() as int) =~= fs[0]);
    assert(r1.take(fs[1].len() as int) =~= fs[1]);
    assert(r2.take(fs[2].len() as int) =~= fs[2]);
    assert(r3.take(fs[3].len() as int) =~= fs[3]);
    assert forall|k: nat| k < 4 implies #[trigger] header(r0, k) == fs[k as int] by {
        if k == 0 {
        } else if k == 1 {
        } else if k == 2 {
        } else {
        }
    }
}

/// The header entries of a record whose five header fields are `fs`.
pub open spec fn header_entries(fs: Seq<Seq<char>>) -> Entries {
    seq![
        ("leef.version"@, ValueV::Str(fs[0])),
        ("leef.vendor"@, ValueV::Str(fs[1])),
        ("leef.product"@, ValueV::Str(fs[2])),
        ("leef.product_version"@, ValueV::Str(fs[3])),
        ("leef.event_id"@, ValueV::Str(fs[4])),
    ]
}

/// A record `LEEF:version|vendor|product|product version|event id` gives
/// exactly those five header fields, each under its own key, in that order.
pub proof fn header_fields_are_read_in_order(fs: Seq<Seq<char>>)
    requires
        fs.len() == 5,
        forall|k: int| 0 <= k < 5 ==> !(#[trigger] fs[k]).contains('|'),
        !fs[4].contains('\t'),
        trim("LEEF:"@ + leef_header_text(fs, Seq::empty())) == "LEEF:"@ + leef_header_text(fs, Seq::empty()),
    ensures
        leef_outcome("LEEF:"@ + leef_header_text(fs, Seq::empty())) == Outcome::Fields(header_entries(fs), None),
{
    let body = leef_header_text(fs, Seq::empty());
    let input = "LEEF:"@ + body;
    reveal_strlit("LEEF:");
    lemma_header_fields(fs, Seq::empty());
    assert(fs[4] + Seq::<char>::empty() == fs[4]);
    assert(input.skip(5) =~= body);
    assert(input.subrange(0, 5) =~= "LEEF:"@);
    lemma_find_none(fs[4], '|');
    assert(after_pipe(body, 5) is None);
    assert forall|j: int| 0 <= j < fs[4].len() implies !(#[trigger] fs[4][j] == '\t' || fs[4][j] == '|') by {
        if fs[4][j] == '\t' {
            assert(fs[4].contains('\t'));
        }
        if fs[4][j] == '|' {
            assert(fs[4].contains('|'));
        }
    }
    crate::text::lemma_find_p_none(fs[4], |c: char| c == '\t' || c == '|');
    assert(header(body, 0) == fs[0]);
    assert(header(body, 1) == fs[1]);
    assert(header(body, 2) == fs[2]);
    assert(header(body, 3) == fs[3]);
    assert(leef_head(body).push(("leef.event_id"@, ValueV::Str(fs[4]))) =~= header_entries(fs));
}

/// A LEEF 1.0 record `LEEF:version|vendor|product|product version|event
/// id|extension` gives those five header fields, in that order, with the
/// tab-separated `key=value` pairs of the extension added after them.
pub proof fn extension_follows_the_header(fs: Seq<Seq<char>>, ext: Seq<char>)
    requires
        fs.len() == 5,
        forall|k: int| 0 <= k < 5 ==> !(#[trigger] fs[k]).contains('|'),
        !fs[4].contains('\t'),
        !(fs[0].len() > 0 && fs[0][0] == '2'),
        trim("LEEF:"@ + leef_header_text(fs, seq!['|'] + ext)) == "LEEF:"@ + leef_header_text(fs, seq!['|'] + ext),
    ensures
        leef_outcome("LEEF:"@ + leef_header_text(fs, seq!['|'] + ext))
            == Outcome::Fields(extensions(ext, '\t', header_entries(fs)), None),
{
    let tail = seq!['|'] + ext;
    let body = leef_header_text(fs, tail);
    let input = "LEEF:"@ + body;
    reveal_strlit("LEEF:");
    lemma_header_fields(fs, tail);
    assert(input.skip(5) =~= body);
    assert(input.subrange(0, 5) =~= "LEEF:"@);
    let eir = fs[4] + tail;
    assert(eir == fs[4] + seq!['|'] + ext);
    let p = |c: char| c == '\t' || c == '|';
    assert forall|j: int| 0 <= j < fs[4].len() implies !p(#[trigger] eir[j]) by {
        assert(eir[j] == fs[4][j]);
        if fs[4][j] == '\t' {
            assert(fs[4].contains('\t'));
        }
        if fs[4][j] == '|' {
            assert(fs[4].contains('|'));
        }
    }
    crate::text::lemma_find_p_first(eir, p, fs[4].len() as int);
    assert(eir.take(fs[4].len() as int) =~= fs[4]);
    assert(eir.skip(fs[4].len() as int + 1) =~= ext);
    assert(header(body, 0) == fs[0]);
    assert(header(body, 1) == fs[1]);
    assert(header(body, 2) == fs[2]);
    assert(header(body, 3) == fs[3]);
    assert(leef_head(body).push(("leef.event_id"@, ValueV::Str(fs[4]))) =~= header_entries(fs));
}

} // verus!
