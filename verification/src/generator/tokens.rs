//! Splitting a record into tokens at separator characters.
//!
//! Whitespace alone is not enough: pipe- and comma-delimited appliance
//! records carry no spaces in their leading fields. Two separator sets are
//! in use: the template clusterer's (whitespace, `|`, `,`, `;`) and the
//! diversity sampler's, which also splits `key=value` and `key:value`.
use vstd::prelude::*;
use crate::generator::llm::strings;
use crate::text::{alnum, chars_of, find_p, is_alnum, is_ws, lead, lemma_find_p, lemma_lead_stop, string_range, ws};

verus! {

/// Separator class `k`: 0 for the clusterer, 1 for the sampler, any other
/// for the profiler's vocabulary (everything but letters, digits, `_`, `-`
/// and `.`).
pub open spec fn split_p(k: u8) -> spec_fn(char) -> bool {
    if k == 0 {
        |c: char| is_ws(c) || c == '|' || c == ',' || c == ';' || c == '\t'
    } else if k == 1 {
        |c: char| is_ws(c) || c == '|' || c == ',' || c == ';' || c == '=' || c == ':'
    } else {
        |c: char| !(is_alnum(c) || c == '_' || c == '-' || c == '.')
    }
}

/// The maximal runs of `s` of characters outside `p`, in order.
pub open spec fn runs(s: Seq<char>, p: spec_fn(char) -> bool) -> Seq<Seq<char>>
    decreases s.len(),
{
    let t = s.skip(lead(s, p) as int);
    if lead(s, p) > s.len() || t.len() == 0 {
        Seq::empty()
    } else {
        match find_p(t, p) {
            None => seq![t],
            Some(i) => if 0 < i <= t.len() {
                seq![t.take(i)] + runs(t.skip(i), p)
            } else {
                Seq::empty()
            },
        }
    }
}

fn splits(c: char, k: u8) -> (r: bool)
    ensures
        r == split_p(k)(c),
{
    if k == 0 {
        ws(c) || c == '|' || c == ',' || c == ';' || c == '\t'
    } else if k == 1 {
        ws(c) || c == '|' || c == ',' || c == ';' || c == '=' || c == ':'
    } else {
        !(alnum(c) || c == '_' || c == '-' || c == '.')
    }
}

/// The tokens of `raw` under separator class `k`.
pub fn split_tokens(raw: &str, k: u8) -> (r: Vec<String>)
    ensures
        strings(r@) == runs(raw@, split_p(k)),
{
    let ghost p = split_p(k);
    let s = chars_of(raw);
    let mut out: Vec<String> = Vec::new();
    let mut pos: usize = 0;
    assert(s@.skip(0) == s@);
    loop
        invariant_except_break
            runs(raw@, p) == strings(out@) + runs(s@.skip(pos as int), p),
        invariant
            pos <= s@.len(),
            s@ == raw@,
            p == split_p(k),
        ensures
            runs(raw@, p) == strings(out@),
        decreases s@.len() - pos,
    {
        let ghost rest = s@.skip(pos as int);
        let ghost before = strings(out@);
        let mut a = pos;
        while a < s.len() && splits(s[a], k)
            invariant
                pos <= a <= s@.len(),
                rest == s@.skip(pos as int),
                p == split_p(k),
                lead(rest, p) == (a - pos) + lead(s@.skip(a as int), p),
            decreases s@.len() - a,
        {
            assert(s@.skip(a as int)[0] == s@[a as int]);
            assert(s@.skip(a as int).drop_first() == s@.skip(a + 1));
            a += 1;
        }
        proof {
            if a < s@.len() {
                assert(s@.skip(a as int)[0] == s@[a as int]);
            }
            assert(lead(s@.skip(a as int), p) == 0);
            lemma_lead_stop(rest, p);
            assert(rest.skip(a - pos) == s@.skip(a as int));
        }
        if a == s.len() {
            assert(s@.skip(a as int).len() == 0);
            assert(strings(out@) + Seq::<Seq<char>>::empty() == strings(out@));
            break;
        }
        let mut b = a;
        while b < s.len() && !splits(s[b], k)
            invariant
                a <= b <= s@.len(),
                p == split_p(k),
                forall|j: int| a <= j < b ==> !p(#[trigger] s@[j]),
            decreases s@.len() - b,
        {
            b += 1;
        }
        let ghost t = s@.skip(a as int);
        proof {
            lemma_find_p(t, p);
            assert forall|j: int| 0 <= j < b - a implies !p(#[trigger] t[j]) by {
                assert(t[j] == s@[a + j]);
            }
            if b < s@.len() {
                assert(t[b - a] == s@[b as int]);
                crate::text::lemma_find_p_first(t, p, b - a);
                assert(t.take(b - a) == s@.subrange(a as int, b as int));
                assert(t.skip(b - a) == s@.skip(b as int));
            } else {
                crate::text::lemma_find_p_none(t, p);
                assert(t == s@.subrange(a as int, b as int));
                assert(s@.skip(b as int).len() == 0);
            }
        }
        let tok = string_range(&s, a, b);
        out.push(tok);
        assert(strings(out@) == before.push(tok@));
        assert(before + (seq![tok@] + runs(s@.skip(b as int), p)) == before.push(tok@) + runs(s@.skip(b as int), p));
        pos = b;
    }
    out
}

} // verus!
