//! The deterministic rules of drafting candidate packs from dead letters:
//! which literals every record of a cluster offers as a detector, and the
//! shape a record is grouped by.
use vstd::prelude::*;
use vstd::string::StringSliceAdditionalSpecFns;
use crate::generator::drain::tokens;
use crate::field::{lower_seq, parse_u64, parse_uint};
use crate::generator::llm::{all, any, any_in, candidate_of, class_p, digit_run_in, has_digit_run, stable_at, stable_literal, strings};
use crate::generator::rank::{insert_ranked, ranked, rank_lt, sized, strings_of, take_top, texts, top};
use crate::generator::tokens::split_tokens;
use crate::decode::salvage::{text_lt, text_less, lemma_text_lt_irrefl, lemma_text_lt_trans, lemma_text_lt_total};
use crate::generator::assemble::{all_known, lemma_conventions_known, convention_entries, entries_of, expect_view, push_convention_entries, MapChoice, MapV, PackDraft};
use crate::generator::llm::{decoder_chain, field_map, infer_decoders, statics};
use crate::generator::names::field_names;
use crate::generator::ocsf_paths::known_paths;
use crate::text::{
    dec, owned, push_dec, byte_len, chars_of, chars_sized, find, find_char, hex, is_hex, part, push_char, push_range, push_str, to_lower,
    utf8_len,
};

verus! {

/// One record that no pack claimed.
#[derive(Debug, Clone)]
pub struct DeadLetter {
    pub raw_text: String,
}

pub open spec fn raws(v: Seq<DeadLetter>) -> Seq<Seq<char>> {
    v.map_values(|d: DeadLetter| d.raw_text@)
}

// ---------------------------------------------------------------------------
// Detectors
// ---------------------------------------------------------------------------

/// The literal a token offers: `key=` for a `key=value` pair, else the
/// token itself.
pub open spec fn offered(tok: Seq<char>) -> Seq<char> {
    match find(tok, '=') {
        Some(i) => tok.take(i) + "="@,
        None => tok,
    }
}

/// The stable literals the tokens offer, in order (repeats kept).
pub open spec fn offer_list(ts: Seq<Seq<char>>) -> Seq<Seq<char>>
    decreases ts.len(),
{
    if ts.len() == 0 {
        Seq::empty()
    } else {
        offer_list(ts.drop_last()) + if stable_literal(offered(ts.last())) { seq![offered(ts.last())] } else { Seq::empty() }
    }
}

/// The stable literals a record's tokens offer.
pub open spec fn record_offers(raw: Seq<char>) -> Set<Seq<char>> {
    offer_list(tokens(raw)).to_set()
}

/// The stable literals each of the first `n` records offers.
pub open spec fn offers_upto(records: Seq<Seq<char>>, n: int) -> Set<Seq<char>> {
    Set::new(|c: Seq<char>| forall|r: int| 0 <= r < n ==> #[trigger] record_offers(records[r]).contains(c))
}

/// The stable literals every record of the cluster offers.
pub open spec fn cluster_offers(records: Seq<Seq<char>>) -> Set<Seq<char>> {
    Set::new(|c: Seq<char>| records.len() > 0 && forall|r: int| 0 <= r < records.len() ==> #[trigger] record_offers(records[r]).contains(c))
}

/// The stable literals one record offers, each with its length in bytes
/// (repeats possible).
fn offers_of(raw: &str) -> (r: Vec<(Vec<char>, usize)>)
    ensures
        sized(r@),
        texts(r@) == offer_list(tokens(raw@)),
{
    let toks = split_tokens(raw, 0);
    let ghost ts = strings(toks@);
    let mut out: Vec<(Vec<char>, usize)> = Vec::new();
    let mut k: usize = 0;
    while k < toks.len()
        invariant
            k <= toks@.len(),
            ts == strings(toks@),
            sized(out@),
            texts(out@) == offer_list(ts.take(k as int)),
        decreases toks@.len() - k,
    {
        let t = chars_sized(toks[k].as_str());
        let ghost tk = ts[k as int];
        assert(t@ == tk);
        assert(part(t@, 0, t@.len() as int) == tk);
        let cand = match find_char(&t, 0, t.len(), '=') {
            Some(i) => {
                assert(tk.take(i as int) == part(t@, 0, i as int));
                candidate_of(&t, 0, i, true)
            },
            None => candidate_of(&t, 0, t.len(), false),
        };
        assert(cand.0@ == offered(tk));
        assert(cand.0@.subrange(0, cand.0@.len() as int) == cand.0@);
        let keep = stable_at(&cand.0, 0, cand.0.len());
        let ghost before = texts(out@);
        assert(ts.take(k + 1).drop_last() == ts.take(k as int));
        assert(ts.take(k + 1).last() == tk);
        if keep {
            out.push(cand);
            assert(texts(out@) =~= before.push(offered(tk)));
            assert(before.push(offered(tk)) =~= before + seq![offered(tk)]);
        } else {
            assert(before + Seq::<Seq<char>>::empty() =~= before);
        }
        k += 1;
    }
    assert(ts.take(toks@.len() as int) == ts);
    out
}

/// The entries of the rank-sorted `acc` whose text `list` holds, in order.
fn keep_offered(acc: &Vec<(Vec<char>, usize)>, list: &Vec<(Vec<char>, usize)>) -> (r: Vec<(Vec<char>, usize)>)
    requires
        ranked(false, texts(acc@)),
        sized(acc@),
    ensures
        ranked(false, texts(r@)),
        sized(r@),
        texts(r@).to_set() == texts(acc@).to_set().intersect(texts(list@).to_set()),
{
    let ghost ka = texts(acc@);
    let ghost kl = texts(list@);
    let mut out: Vec<(Vec<char>, usize)> = Vec::new();
    let mut i: usize = 0;
    assert(texts(out@).to_set() =~= ka.take(0).to_set().intersect(kl.to_set()));
    while i < acc.len()
        invariant
            i <= acc@.len(),
            ka == texts(acc@),
            kl == texts(list@),
            ranked(false, ka),
            sized(acc@),
            sized(out@),
            ranked(false, texts(out@)),
            forall|a: int, b: int| 0 <= a < texts(out@).len() && i <= b < ka.len() ==> rank_lt(false, #[trigger] texts(out@)[a], #[trigger] ka[b]),
            texts(out@).to_set() == ka.take(i as int).to_set().intersect(kl.to_set()),
        decreases acc@.len() - i,
    {
        let ghost before = texts(out@);
        let mut found = false;
        let mut j: usize = 0;
        while j < list.len()
            invariant
                j <= list@.len(),
                kl == texts(list@),
                i < acc@.len(),
                ka == texts(acc@),
                found ==> kl.contains(ka[i as int]),
                !found ==> forall|q: int| 0 <= q < j ==> kl[q] != ka[i as int],
            decreases list@.len() - j,
        {
            let a = acc[i].0.as_slice();
            let b = list[j].0.as_slice();
            assert(a@.subrange(0, a@.len() as int) == a@);
            assert(b@.subrange(0, b@.len() as int) == b@);
            assert(ka[i as int] == a@ && kl[j as int] == b@);
            if crate::text::seq_eq(a, 0, a.len(), b, 0, b.len()) {
                found = true;
            }
            j += 1;
        }
        let ghost x = ka[i as int];
        assert(found == kl.contains(x));
        assert(ka.take(i + 1) =~= ka.take(i as int).push(x));
        if found {
            out.push((acc[i].0.clone(), acc[i].1));
            assert(texts(out@) =~= before.push(x));
            assert forall|a: int, b: int| 0 <= a < b < texts(out@).len() implies rank_lt(false, #[trigger] texts(out@)[a], #[trigger] texts(out@)[b]) by {
                if b == before.len() {
                    assert(texts(out@)[b] == ka[i as int]);
                    assert(texts(out@)[a] == before[a]);
                } else {
                    assert(texts(out@)[a] == before[a] && texts(out@)[b] == before[b]);
                }
            }
            assert forall|a: int, b: int| 0 <= a < texts(out@).len() && i + 1 <= b < ka.len() implies rank_lt(false, #[trigger] texts(out@)[a], #[trigger] ka[b]) by {
                if a == before.len() {
                    assert(texts(out@)[a] == ka[i as int]);
                } else {
                    assert(texts(out@)[a] == before[a]);
                }
            }
            assert(sized(out@)) by {
                assert forall|q: int| 0 <= q < out@.len() implies (#[trigger] out@[q]).1 == utf8_len(out@[q].0@) by {
                    if q == before.len() {
                        assert(out@[q].0@ == acc@[i as int].0@);
                    }
                }
            }
        }
        assert(texts(out@).to_set() =~= ka.take(i + 1).to_set().intersect(kl.to_set())) by {
            assert forall|c: Seq<char>| #[trigger] texts(out@).to_set().contains(c) <==> ka.take(i + 1).to_set().intersect(kl.to_set()).contains(c) by {
                crate::generator::llm::lemma_contains_push(ka.take(i as int), x, c);
                crate::generator::llm::lemma_contains_push(before, x, c);
                assert(before.to_set().contains(c) == before.contains(c));
                assert(ka.take(i as int).to_set().contains(c) == ka.take(i as int).contains(c));
            }
        }
        i += 1;
    }
    assert(ka.take(acc@.len() as int) == ka);
    out
}

/// The detector literals of a cluster: the stable literals (`key=` for a
/// `key=value` token, else the token) that every record offers; longest
/// first, then alphabetically; the best three.
pub fn infer_detector(records: &[DeadLetter]) -> (r: Vec<String>)
    ensures
        top(false, strings_of(r@), cluster_offers(raws(records@)), 3),
{
    let ghost rs = raws(records@);
    let mut acc: Vec<(Vec<char>, usize)> = Vec::new();
    assert(texts(acc@).to_set() =~= Set::<Seq<char>>::empty());
    if records.len() == 0 {
        assert(cluster_offers(rs) =~= Set::<Seq<char>>::empty());
        return take_top(&acc, false, 3);
    }
    let first = offers_of(records[0].raw_text.as_str());
    let mut i: usize = 0;
    while i < first.len()
        invariant
            i <= first@.len(),
            sized(first@),
            ranked(false, texts(acc@)),
            sized(acc@),
            texts(acc@).to_set() == texts(first@).take(i as int).to_set(),
        decreases first@.len() - i,
    {
        let item = (first[i].0.clone(), first[i].1);
        let ghost before = texts(acc@).to_set();
        insert_ranked(&mut acc, false, item);
        assert(texts(first@).take(i + 1) =~= texts(first@).take(i as int).push(texts(first@)[i as int]));
        assert(texts(first@).take(i + 1).to_set() =~= texts(first@).take(i as int).to_set().insert(texts(first@)[i as int])) by {
            assert forall|c: Seq<char>| texts(first@).take(i + 1).to_set().contains(c) <==> texts(first@).take(i as int).to_set().insert(texts(first@)[i as int]).contains(c) by {
                crate::generator::llm::lemma_contains_push(texts(first@).take(i as int), texts(first@)[i as int], c);
            }
        }
        i += 1;
    }
    assert(texts(first@).take(first@.len() as int) == texts(first@));
    assert(records@[0].raw_text@ == rs[0]);
    assert(texts(acc@).to_set() =~= offers_upto(rs, 1)) by {
        assert forall|c: Seq<char>| #[trigger] offers_upto(rs, 1).contains(c) <==> record_offers(rs[0]).contains(c) by {
            if record_offers(rs[0]).contains(c) {
                assert forall|q: int| 0 <= q < 1 implies #[trigger] record_offers(rs[q]).contains(c) by {}
            }
        }
    }
    let mut r: usize = 1;
    while r < records.len()
        invariant
            1 <= r <= records@.len(),
            rs == raws(records@),
            ranked(false, texts(acc@)),
            sized(acc@),
            texts(acc@).to_set() == offers_upto(rs, r as int),
        decreases records@.len() - r,
    {
        let list = offers_of(records[r].raw_text.as_str());
        assert(records@[r as int].raw_text@ == rs[r as int]);
        let kept = keep_offered(&acc, &list);
        acc = kept;
        assert(texts(list@).to_set() =~= record_offers(rs[r as int]));
        assert(texts(acc@).to_set() =~= offers_upto(rs, r + 1)) by {
            assert forall|c: Seq<char>| #[trigger] offers_upto(rs, r + 1).contains(c) <==> offers_upto(rs, r as int).intersect(record_offers(rs[r as int])).contains(c) by {
                if offers_upto(rs, r as int).contains(c) && record_offers(rs[r as int]).contains(c) {
                    assert forall|q: int| 0 <= q < r + 1 implies #[trigger] record_offers(rs[q]).contains(c) by {}
                }
            }
        }
        r += 1;
    }
    assert(texts(acc@).to_set() =~= cluster_offers(rs));
    take_top(&acc, false, 3)
}

// ---------------------------------------------------------------------------
// Shapes
// ---------------------------------------------------------------------------

/// A token that carries per-record data: a run of three digits (a time, a
/// port, a pid, an id), or digits around a colon.
pub open spec fn volatile(t: Seq<char>) -> bool {
    has_digit_run(t) || (any(t, class_p(3)) && any(t, class_p(0)))
}

/// Whether a token varies between records that share a shape.
pub fn is_volatile_token(token: &str) -> (r: bool)
    ensures
        r == volatile(token@),
{
    let cs = chars_of(token);
    assert(part(cs@, 0, cs@.len() as int) == token@);
    digit_run_in(&cs, 0, cs.len()) || (any_in(&cs, 0, cs.len(), 3) && any_in(&cs, 0, cs.len(), 0))
}

/// What a token becomes in the shape of its record: `<ip>` for an address
/// (decided by the caller), `<number>` for a `u64`, `<hex>` for a long hex
/// run, `key=<value>` for a pair, `<value>` for a volatile token, and the
/// token in lower case otherwise.
pub open spec fn shape_of(tok: Seq<char>, is_ip: bool) -> Seq<char> {
    if is_ip {
        "<ip>"@
    } else if parse_u64(tok) is Some {
        "<number>"@
    } else if utf8_len(tok) > 24 && all(tok, |c: char| is_hex(c)) {
        "<hex>"@
    } else {
        match find(tok, '=') {
            Some(i) => tok.take(i) + "=<value>"@,
            None => if volatile(tok) { "<value>"@ } else { lower_seq(tok) },
        }
    }
}

/// The pieces joined with single spaces.
pub open spec fn spaced(ps: Seq<Seq<char>>) -> Seq<char>
    decreases ps.len(),
{
    if ps.len() == 0 {
        Seq::empty()
    } else if ps.len() == 1 {
        ps[0]
    } else {
        spaced(ps.drop_last()) + seq![' '] + ps.last()
    }
}

/// The shape of a record whose `k`-th token is an address exactly when
/// `is_ip[k]`.
pub open spec fn shape(raw: Seq<char>, is_ip: Seq<bool>) -> Seq<char> {
    spaced(Seq::new(tokens(raw).len(), |k: int| shape_of(tokens(raw)[k], is_ip[k])))
}

/// The tokens a record's shape is built from, for the caller to decide which
/// are addresses.
pub fn shape_tokens(raw: &str) -> (r: Vec<String>)
    ensures
        strings(r@) == tokens(raw@),
{
    split_tokens(raw, 0)
}

/// Appends `shape_of(tok, is_ip)`.
fn push_shape(out: &mut String, tok: &str, is_ip: bool)
    ensures
        final(out)@ == old(out)@ + shape_of(tok@, is_ip),
{
    proof {
        reveal_strlit("<ip>");
        reveal_strlit("<number>");
        reveal_strlit("<hex>");
        reveal_strlit("=<value>");
        reveal_strlit("<value>");
    }
    if is_ip {
        push_str(out, "<ip>");
        return;
    }
    let cs = chars_sized(tok);
    assert(cs@.subrange(0, cs@.len() as int) == tok@);
    if parse_uint(&cs, 0, cs.len()).is_some() {
        push_str(out, "<number>");
        return;
    }
    let n = byte_len(&cs, 0, cs.len());
    if n > 24 {
        let mut all_hex = true;
        let mut i: usize = 0;
        while i < cs.len()
            invariant
                i <= cs@.len(),
                all_hex == forall|j: int| 0 <= j < i ==> is_hex(#[trigger] cs@[j]),
            decreases cs@.len() - i,
        {
            if !hex(cs[i]) {
                all_hex = false;
            }
            i += 1;
        }
        if all_hex {
            push_str(out, "<hex>");
            return;
        }
    }
    match find_char(&cs, 0, cs.len(), '=') {
        Some(i) => {
            assert(tok@.take(i as int) == cs@.subrange(0, i as int));
            push_range(out, &cs, 0, i);
            push_str(out, "=<value>");
        },
        None => {
            if is_volatile_token(tok) {
                push_str(out, "<value>");
            } else {
                let ghost start = out@;
                let mut i: usize = 0;
                while i < cs.len()
                    invariant
                        i <= cs@.len(),
                        out@ == start + lower_seq(cs@.take(i as int)),
                    decreases cs@.len() - i,
                {
                    push_char(out, to_lower(cs[i]));
                    assert(lower_seq(cs@.take(i + 1)) =~= lower_seq(cs@.take(i as int)).push(crate::text::lower(cs@[i as int])));
                    i += 1;
                }
                assert(cs@.take(cs@.len() as int) == tok@);
            }
        },
    }
}

/// The shape a record is grouped by: its tokens, volatile values replaced by
/// placeholders, joined with single spaces. `is_ip[k]` says whether the
/// `k`-th of [`shape_tokens`] is an IP address.
pub fn template(raw: &str, is_ip: &[bool]) -> (r: String)
    requires
        is_ip@.len() == tokens(raw@).len(),
    ensures
        r@ == shape(raw@, is_ip@),
{
    let toks = split_tokens(raw, 0);
    let ghost ts = strings(toks@);
    let ghost ps = Seq::new(ts.len(), |k: int| shape_of(ts[k], is_ip@[k]));
    let mut out = String::new();
    let mut k: usize = 0;
    while k < toks.len()
        invariant
            k <= toks@.len() == is_ip@.len(),
            ts == strings(toks@),
            ps == Seq::new(ts.len(), |q: int| shape_of(ts[q], is_ip@[q])),
            out@ == spaced(ps.take(k as int)),
        decreases toks@.len() - k,
    {
        if k > 0 {
            push_char(&mut out, ' ');
        }
        push_shape(&mut out, toks[k].as_str(), is_ip[k]);
        assert(ps.take(k + 1).drop_last() == ps.take(k as int));
        assert(ps.take(k + 1).last() == ps[k as int]);
        if k == 0 {
            assert(ps.take(0).len() == 0);
        }
        k += 1;
    }
    assert(ps.take(toks@.len() as int) == ps);
    out
}

// ---------------------------------------------------------------------------
// Cluster ids
// ---------------------------------------------------------------------------

/// 64-bit FNV-1a over the bytes.
pub open spec fn fnv1a(bs: Seq<u8>) -> u64
    decreases bs.len(),
{
    if bs.len() == 0 {
        0xcbf29ce484222325u64
    } else {
        (fnv1a(bs.drop_last()) ^ (bs.last() as u64)).wrapping_mul(0x100000001b3u64)
    }
}

/// The lower-case hex digit of `d`.
pub open spec fn hex_digit(d: nat) -> char {
    if d < 10 { (48 + d) as char } else { (87 + d) as char }
}

/// The last `n` hex digits of `h`, most significant first.
pub open spec fn hex_tail(h: nat, n: nat) -> Seq<char>
    decreases n,
{
    if n == 0 {
        Seq::empty()
    } else {
        hex_tail(h / 16, (n - 1) as nat).push(hex_digit(h % 16))
    }
}

fn push_hex(out: &mut String, h: u64, n: usize)
    ensures
        final(out)@ == old(out)@ + hex_tail(h as nat, n as nat),
    decreases n,
{
    if n > 0 {
        push_hex(out, h / 16, n - 1);
        let d = h % 16;
        let c = if d < 10 { ((48 + d) as u8) as char } else { ((87 + d) as u8) as char };
        assert(c == hex_digit(d as nat));
        let ghost before = out@;
        push_char(out, c);
        assert(out@ == old(out)@ + hex_tail(h as nat, n as nat));
    }
}

/// The id of the cluster whose shape is `value`: `cluster-` and the FNV-1a
/// hash of its bytes in 16 hex digits.
pub fn short_hash(value: &str) -> (r: String)
    ensures
        r@ == "cluster-"@ + hex_tail(fnv1a(value.spec_bytes()) as nat, 16),
{
    let bytes = value.as_bytes();
    let mut hash: u64 = 0xcbf29ce484222325;
    let mut i: usize = 0;
    while i < bytes.len()
        invariant
            i <= bytes@.len(),
            bytes@ == value.spec_bytes(),
            hash == fnv1a(bytes@.take(i as int)),
        decreases bytes@.len() - i,
    {
        assert(bytes@.take(i + 1).drop_last() == bytes@.take(i as int));
        assert(bytes@.take(i + 1).last() == bytes@[i as int]);
        hash = (hash ^ (bytes[i] as u64)).wrapping_mul(0x100000001b3);
        i += 1;
    }
    assert(bytes@.take(bytes@.len() as int) == bytes@);
    let mut out = String::new();
    push_str(&mut out, "cluster-");
    proof {
        assert(Seq::<char>::empty() + "cluster-"@ == "cluster-"@);
    }
    push_hex(&mut out, hash, 16);
    out
}


// ---------------------------------------------------------------------------
// Grouping records by shape
// ---------------------------------------------------------------------------

/// The records that share one shape: the shape, and the positions of its
/// records in the input, in input order.
#[derive(Debug, Clone, PartialEq, Eq)]
pub struct TemplateGroup {
    pub key: String,
    pub members: Vec<usize>,
}

/// The positions before `n` whose shape is `k`, in order.
pub open spec fn members_of(keys: Seq<Seq<char>>, k: Seq<char>, n: int) -> Seq<usize>
    decreases n,
{
    if n <= 0 {
        Seq::empty()
    } else {
        members_of(keys, k, n - 1) + if keys[n - 1] == k { seq![(n - 1) as usize] } else { Seq::empty() }
    }
}

/// How many records have shape `k`.
pub open spec fn group_size(keys: Seq<Seq<char>>, k: Seq<char>) -> int {
    members_of(keys, k, keys.len() as int).len() as int
}

/// The drafting order of shapes: larger groups first, equal sizes in
/// ascending order of the shape.
pub open spec fn group_lt(keys: Seq<Seq<char>>, a: Seq<char>, b: Seq<char>) -> bool {
    group_size(keys, a) > group_size(keys, b) || (group_size(keys, a) == group_size(keys, b) && text_lt(a, b))
}

pub open spec fn group_keys(v: Seq<TemplateGroup>) -> Seq<Seq<char>> {
    v.map_values(|g: TemplateGroup| g.key@)
}

/// `r` holds the `max` leading groups of the shapes `keys` (all of them when
/// there are fewer), in drafting order, each with every record of its shape.
pub open spec fn leading_groups(keys: Seq<Seq<char>>, r: Seq<TemplateGroup>, max: nat) -> bool {
    let ks = group_keys(r);
    &&& forall|i: int, j: int| 0 <= i < j < r.len() ==> group_lt(keys, #[trigger] ks[i], #[trigger] ks[j])
    &&& r.len() == if keys.to_set().len() < max { keys.to_set().len() } else { max }
    &&& forall|i: int| 0 <= i < r.len() ==> keys.contains(#[trigger] ks[i]) && r[i].members@ == members_of(keys, ks[i], keys.len() as int)
    &&& forall|x: Seq<char>| keys.contains(x) && !ks.contains(x) ==> forall|i: int| 0 <= i < r.len() ==> group_lt(keys, #[trigger] ks[i], x)
}

proof fn lemma_members_absent(keys: Seq<Seq<char>>, k: Seq<char>, n: int)
    requires
        0 <= n <= keys.len(),
        !keys.take(n).contains(k),
    ensures
        members_of(keys, k, n) == Seq::<usize>::empty(),
    decreases n,
{
    if n > 0 {
        assert(keys.take(n)[n - 1] == keys[n - 1]);
        assert forall|j: int| 0 <= j < n - 1 implies #[trigger] keys.take(n - 1)[j] != k by {
            assert(keys.take(n)[j] == keys.take(n - 1)[j]);
        }
        lemma_members_absent(keys, k, n - 1);
    }
}

proof fn lemma_group_lt_facts(keys: Seq<Seq<char>>, a: Seq<char>, b: Seq<char>, c: Seq<char>)
    ensures
        !group_lt(keys, a, a),
        group_lt(keys, a, b) && group_lt(keys, b, c) ==> group_lt(keys, a, c),
        a == b || group_lt(keys, a, b) || group_lt(keys, b, a),
{
    lemma_text_lt_irrefl(a);
    lemma_text_lt_total(a, b);
    if text_lt(a, b) && text_lt(b, c) {
        lemma_text_lt_trans(a, b, c);
    }
}

pub open spec fn text_increasing(v: Seq<Seq<char>>) -> bool {
    forall|i: int, j: int| 0 <= i < j < v.len() ==> text_lt(#[trigger] v[i], #[trigger] v[j])
}

/// The distinct shapes in ascending order, each with its records.
fn groups_by_key(keys: &[String]) -> (r: (Vec<String>, Vec<Vec<usize>>))
    ensures
        r.0@.len() == r.1@.len(),
        text_increasing(strings(r.0@)),
        forall|x: Seq<char>| #[trigger] strings(r.0@).contains(x) <==> strings(keys@).contains(x),
        forall|j: int| 0 <= j < r.0@.len() ==> (#[trigger] r.1@[j])@ == members_of(strings(keys@), r.0@[j]@, keys@.len() as int),
{
    let ghost ks = strings(keys@);
    let mut gk: Vec<String> = Vec::new();
    let mut gm: Vec<Vec<usize>> = Vec::new();
    let mut i: usize = 0;
    while i < keys.len()
        invariant
            i <= keys@.len(),
            ks == strings(keys@),
            gk@.len() == gm@.len(),
            text_increasing(strings(gk@)),
            forall|x: Seq<char>| #[trigger] strings(gk@).contains(x) <==> ks.take(i as int).contains(x),
            forall|j: int| 0 <= j < gk@.len() ==> (#[trigger] gm@[j])@ == members_of(ks, gk@[j]@, i as int),
        decreases keys@.len() - i,
    {
        let ghost m = strings(gk@);
        let ghost k = ks[i as int];
        let key = chars_of(keys[i].as_str());
        let mut p: usize = 0;
        let mut done = false;
        while p < gk.len() && !done
            invariant
                p <= gk@.len(),
                m == strings(gk@),
                key@ == k,
                k == ks[i as int],
                ks == strings(keys@),
                i < keys@.len(),
                forall|j: int| 0 <= j < p ==> text_lt(#[trigger] m[j], k),
                done ==> p < gk@.len() && !text_lt(m[p as int], k),
            decreases gk@.len() - p, if done { 0int } else { 1int },
        {
            let c = chars_of(gk[p].as_str());
            if text_less(&c, &key) {
                p += 1;
            } else {
                done = true;
            }
        }
        let ghost t = ks.take(i as int);
        let ghost t1 = ks.take(i + 1);
        assert(t1 =~= t.push(k));
        if p < gk.len() && crate::text::str_eq(gk[p].as_str(), keys[i].as_str()) {
            let mut grown = gm[p].clone();
            assert(grown@ == gm@[p as int]@);
            grown.push(i);
            let ghost before = gm@;
            gm.set(p, grown);
            proof {
                assert forall|x: Seq<char>| #[trigger] strings(gk@).contains(x) <==> t1.contains(x) by {
                    if t1.contains(x) && !t.contains(x) {
                        let j = choose|j: int| 0 <= j < t1.len() && #[trigger] t1[j] == x;
                        if j < i {
                            assert(t[j] == x);
                        }
                        assert(m[p as int] == x);
                    }
                    if t.contains(x) {
                        let j = choose|j: int| 0 <= j < t.len() && #[trigger] t[j] == x;
                        assert(t1[j] == x);
                    }
                }
                assert forall|j: int| 0 <= j < gk@.len() implies (#[trigger] gm@[j])@ == members_of(ks, gk@[j]@, i + 1) by {
                    if j != p {
                        assert(gm@[j] == before[j]);
                        assert(gk@[j]@ == m[j]);
                        if m[j] == k {
                            if j < p {
                                lemma_text_lt_irrefl(k);
                            } else {
                                lemma_text_lt_trans(m[p as int], m[j], m[j]);
                                lemma_text_lt_irrefl(k);
                            }
                        }
                    }
                }
            }
        } else {
            let ghost gm0 = gm@;
            gk.insert(p, crate::text::owned(keys[i].as_str()));
            let mut fresh: Vec<usize> = Vec::new();
            fresh.push(i);
            gm.insert(p, fresh);
            let ghost m2 = strings(gk@);
            proof {
                assert(m2 =~= m.insert(p as int, k));
                if p < m.len() {
                    lemma_text_lt_total(m[p as int], k);
                }
                assert forall|a: int, b: int| 0 <= a < b < m2.len() implies text_lt(#[trigger] m2[a], #[trigger] m2[b]) by {
                    if b < p {
                    } else if a < p && b == p {
                    } else if a < p {
                        assert(m2[b] == m[b - 1]);
                    } else if a == p {
                        assert(m2[b] == m[b - 1]);
                        if b - 1 > p {
                            lemma_text_lt_trans(k, m[p as int], m[b - 1]);
                        }
                    } else {
                        assert(m2[a] == m[a - 1] && m2[b] == m[b - 1]);
                    }
                }
                assert(!t.contains(k)) by {
                    if t.contains(k) {
                        let j = choose|j: int| 0 <= j < t.len() && #[trigger] t[j] == k;
                        assert(m.contains(k));
                        let q = choose|q: int| 0 <= q < m.len() && #[trigger] m[q] == k;
                        lemma_text_lt_irrefl(k);
                        if q > p {
                            lemma_text_lt_trans(k, m[p as int], m[q]);
                        }
                    }
                }
                lemma_members_absent(ks, k, i as int);
                assert forall|x: Seq<char>| #[trigger] m2.contains(x) <==> t1.contains(x) by {
                    if m.contains(x) {
                        let j = choose|j: int| 0 <= j < m.len() && #[trigger] m[j] == x;
                        if j < p {
                            assert(m2[j] == x);
                        } else {
                            assert(m2[j + 1] == x);
                        }
                    }
                    if x == k {
                        assert(m2[p as int] == x);
                        assert(t1[i as int] == x);
                    }
                    if m2.contains(x) {
                        let j = choose|j: int| 0 <= j < m2.len() && #[trigger] m2[j] == x;
                        if j < p {
                            assert(m[j] == x);
                        } else if j > p {
                            assert(m[j - 1] == x);
                        }
                    }
                    if t1.contains(x) && !t.contains(x) {
                        let j = choose|j: int| 0 <= j < t1.len() && #[trigger] t1[j] == x;
                        if j < i {
                            assert(t[j] == x);
                        }
                    }
                    if t.contains(x) {
                        let j = choose|j: int| 0 <= j < t.len() && #[trigger] t[j] == x;
                        assert(t1[j] == x);
                    }
                }
                assert forall|j: int| 0 <= j < gk@.len() implies (#[trigger] gm@[j])@ == members_of(ks, gk@[j]@, i + 1) by {
                    if j < p {
                        assert(gm@[j] == gm0[j]);
                        assert(gk@[j]@ == m[j]);
                        if m[j] == k {
                            lemma_text_lt_irrefl(k);
                        }
                    } else if j > p {
                        assert(gm@[j] == gm0[j - 1]);
                        assert(gk@[j]@ == m[j - 1]);
                        if m[j - 1] == k {
                            lemma_text_lt_irrefl(k);
                            if j - 1 > p {
                                lemma_text_lt_trans(k, m[p as int], m[j - 1]);
                            }
                        }
                    } else {
                        assert(gk@[j]@ == k);
                        assert(members_of(ks, k, i + 1) == members_of(ks, k, i as int) + seq![i]);
                    }
                }
            }
        }
        i += 1;
    }
    assert(ks.take(keys@.len() as int) == ks);
    (gk, gm)
}



/// Whether group `g` comes before the shape `key` with `size` records.
fn ahead(g: &TemplateGroup, key: &[char], size: usize, Ghost(keys): Ghost<Seq<Seq<char>>>) -> (r: bool)
    requires
        g.members@.len() == group_size(keys, g.key@),
        size == group_size(keys, key@),
    ensures
        r == group_lt(keys, g.key@, key@),
{
    if g.members.len() != size {
        g.members.len() > size
    } else {
        let c = chars_of(g.key.as_str());
        text_less(&c, key)
    }
}

/// The records grouped by shape: the `max` largest groups, largest first,
/// equal sizes in ascending order of shape; `keys` holds each record's
/// shape.
pub fn group_by_template(keys: &[String], max: usize) -> (r: Vec<TemplateGroup>)
    ensures
        leading_groups(strings(keys@), r@, max as nat),
{
    let ghost ks = strings(keys@);
    let (gk, gm) = groups_by_key(keys);
    let ghost g = strings(gk@);
    let mut out: Vec<TemplateGroup> = Vec::new();
    let mut j: usize = 0;
    while j < gk.len()
        invariant
            j <= gk@.len() == gm@.len(),
            ks == strings(keys@),
            g == strings(gk@),
            text_increasing(g),
            forall|x: Seq<char>| #[trigger] g.contains(x) <==> ks.contains(x),
            forall|q: int| 0 <= q < gk@.len() ==> (#[trigger] gm@[q])@ == members_of(ks, g[q], ks.len() as int),
            forall|a: int, b: int| 0 <= a < b < out@.len() ==> group_lt(ks, #[trigger] group_keys(out@)[a], #[trigger] group_keys(out@)[b]),
            forall|x: Seq<char>| #[trigger] group_keys(out@).contains(x) <==> g.take(j as int).contains(x),
            forall|a: int| 0 <= a < out@.len() ==> (#[trigger] out@[a]).members@ == members_of(ks, out@[a].key@, ks.len() as int),
        decreases gk@.len() - j,
    {
        let ghost m = group_keys(out@);
        let ghost k = g[j as int];
        let key = chars_of(gk[j].as_str());
        let size = gm[j].len();
        assert(gm@[j as int]@ == members_of(ks, k, ks.len() as int));
        let mut p: usize = 0;
        let mut done = false;
        while p < out.len() && !done
            invariant
                p <= out@.len(),
                m == group_keys(out@),
                key@ == k,
                size == group_size(ks, k),
                forall|a: int| 0 <= a < out@.len() ==> (#[trigger] out@[a]).members@ == members_of(ks, out@[a].key@, ks.len() as int),
                forall|q: int| 0 <= q < p ==> group_lt(ks, #[trigger] m[q], k),
                done ==> p < out@.len() && !group_lt(ks, m[p as int], k),
            decreases out@.len() - p, if done { 0int } else { 1int },
        {
            assert(out@[p as int].key@ == m[p as int]);
            if ahead(&out[p], &key, size, Ghost(ks)) {
                p += 1;
            } else {
                done = true;
            }
        }
        // The shape is new to `out`: shapes are distinct.
        assert(!m.contains(k)) by {
            if m.contains(k) {
                assert(g.take(j as int).contains(k));
                let q = choose|q: int| 0 <= q < j && #[trigger] g.take(j as int)[q] == k;
                assert(g[q] == k);
                assert(text_lt(g[q], g[j as int]));
                lemma_text_lt_irrefl(k);
            }
        }
        let item = TemplateGroup { key: crate::text::owned(gk[j].as_str()), members: gm[j].clone() };
        assert(item.members@ == members_of(ks, k, ks.len() as int));
        out.insert(p, item);
        let ghost m2 = group_keys(out@);
        proof {
            assert(m2 =~= m.insert(p as int, k));
            if p < m.len() {
                lemma_group_lt_facts(ks, m[p as int], k, k);
                assert(m.contains(m[p as int]));
            }
            assert forall|a: int, b: int| 0 <= a < b < m2.len() implies group_lt(ks, #[trigger] m2[a], #[trigger] m2[b]) by {
                if b < p {
                } else if a < p && b == p {
                } else if a < p {
                    assert(m2[b] == m[b - 1]);
                } else if a == p {
                    assert(m2[b] == m[b - 1]);
                    if b - 1 > p {
                        lemma_group_lt_facts(ks, k, m[p as int], m[b - 1]);
                    }
                } else {
                    assert(m2[a] == m[a - 1] && m2[b] == m[b - 1]);
                }
            }
            let t = g.take(j as int);
            let t1 = g.take(j + 1);
            assert(t1 =~= t.push(k));
            assert forall|x: Seq<char>| #[trigger] m2.contains(x) <==> t1.contains(x) by {
                if m.contains(x) {
                    let q = choose|q: int| 0 <= q < m.len() && #[trigger] m[q] == x;
                    if q < p {
                        assert(m2[q] == x);
                    } else {
                        assert(m2[q + 1] == x);
                    }
                }
                if x == k {
                    assert(m2[p as int] == x);
                    assert(t1[j as int] == x);
                }
                if m2.contains(x) {
                    let q = choose|q: int| 0 <= q < m2.len() && #[trigger] m2[q] == x;
                    if q < p {
                        assert(m[q] == x);
                    } else if q > p {
                        assert(m[q - 1] == x);
                    }
                }
                if t1.contains(x) && !t.contains(x) {
                    let q = choose|q: int| 0 <= q < t1.len() && #[trigger] t1[q] == x;
                    if q < j {
                        assert(t[q] == x);
                    }
                }
                if t.contains(x) {
                    let q = choose|q: int| 0 <= q < t.len() && #[trigger] t[q] == x;
                    assert(t1[q] == x);
                }
            }
        }
        j += 1;
    }
    let ghost all = group_keys(out@);
    proof {
        assert(g.take(gk@.len() as int) == g);
        assert(all.to_set() =~= ks.to_set()) by {
            assert forall|x: Seq<char>| all.to_set().contains(x) <==> ks.to_set().contains(x) by {
                assert(all.contains(x) == g.contains(x));
            }
        }
        assert(all.no_duplicates()) by {
            assert forall|a: int, b: int| 0 <= a < all.len() && 0 <= b < all.len() && a != b implies all[a] != all[b] by {
                lemma_group_lt_facts(ks, all[a], all[b], all[a]);
                if a < b {
                    assert(group_lt(ks, all[a], all[b]));
                } else {
                    assert(group_lt(ks, all[b], all[a]));
                }
            }
        }
        all.unique_seq_to_set();
    }
    let n = if out.len() < max { out.len() } else { max };
    let ghost full = out@;
    let mut r = out;
    while r.len() > n
        invariant
            n <= r@.len() <= full.len(),
            r@ == full.take(r@.len() as int),
        decreases r@.len(),
    {
        r.pop();
        assert(r@ =~= full.take(r@.len() as int));
    }
    proof {
        let rk = group_keys(r@);
        assert(rk =~= all.take(n as int));
        assert(r@ == full.take(n as int));
        assert forall|x: Seq<char>| ks.contains(x) && !rk.contains(x) implies forall|a: int| 0 <= a < r@.len() ==> group_lt(ks, #[trigger] rk[a], x) by {
            assert(g.contains(x));
            assert(all.contains(x));
            let q = choose|q: int| 0 <= q < all.len() && #[trigger] all[q] == x;
            if q < n {
                assert(rk[q] == x);
            }
            assert forall|a: int| 0 <= a < r@.len() implies group_lt(ks, #[trigger] rk[a], x) by {
                assert(rk[a] == all[a]);
            }
        }
        assert forall|a: int| 0 <= a < r@.len() implies ks.contains(#[trigger] rk[a]) && r@[a].members@ == members_of(ks, rk[a], ks.len() as int) by {
            assert(r@[a] == full[a]);
            assert(all.contains(all[a]));
            assert(g.contains(all[a]));
        }
    }
    r
}


/// `s` padded on the left with `0` to at least `w` characters.
pub open spec fn zero_pad(s: Seq<char>, w: nat) -> Seq<char> {
    if s.len() < w {
        Seq::new((w - s.len()) as nat, |_i: int| '0') + s
    } else {
        s
    }
}

proof fn lemma_dec_len(n: nat)
    ensures
        n < 10 ==> crate::text::dec(n).len() == 1,
        10 <= n < 100 ==> crate::text::dec(n).len() == 2,
        n >= 100 ==> crate::text::dec(n).len() >= 3,
    decreases n,
{
    if n >= 10 {
        lemma_dec_len(n / 10);
    }
}

/// The id of the `n`th candidate: `ulpf-candidate-` and `n` in at least
/// three digits.
pub fn candidate_id(n: usize) -> (r: String)
    ensures
        r@ == "ulpf-candidate-"@ + zero_pad(crate::text::dec(n as nat), 3),
{
    let mut out = crate::text::owned("ulpf-candidate-");
    proof {
        lemma_dec_len(n as nat);
        reveal_strlit("00");
        reveal_strlit("0");
    }
    if n < 10 {
        push_str(&mut out, "00");
    } else if n < 100 {
        push_str(&mut out, "0");
    }
    let ghost mid = out@;
    crate::text::push_dec(&mut out, n as u64);
    proof {
        let d = crate::text::dec(n as nat);
        if n < 10 {
            assert(Seq::new(2, |_i: int| '0') =~= "00"@);
        } else if n < 100 {
            assert(Seq::new(1, |_i: int| '0') =~= "0"@);
        }
        assert(out@ =~= "ulpf-candidate-"@ + zero_pad(d, 3));
    }
    out
}


/// The class a candidate is drafted with until a human picks one: Network
/// Activity.
pub const PLACEHOLDER_CLASS_UID: i64 = 4001;

/// The activity a candidate is drafted with until a human picks one.
pub const PLACEHOLDER_ACTIVITY_ID: i64 = 1;

/// A candidate's priority: below every approved pack, so it never shadows
/// one a human approved.
pub const CANDIDATE_PRIORITY: u32 = 1000;

/// Whether a drafted mapping onto `path` casts its value to an integer: the
/// `.port` attributes do.
pub fn casts_to_int(path: &str) -> (r: bool)
    ensures
        r == crate::text::is_suffix(".port"@, path@),
{
    let cs = chars_of(path);
    let suffix = ['.', 'p', 'o', 'r', 't'];
    proof {
        reveal_strlit(".port");
        assert(suffix@ =~= ".port"@);
    }
    if cs.len() < 5 {
        return false;
    }
    let n = cs.len();
    let r = cs[n - 5] == '.' && cs[n - 4] == 'p' && cs[n - 3] == 'o' && cs[n - 2] == 'r' && cs[n - 1] == 't';
    if r {
        assert(cs@.subrange(n - 5, n as int) =~= ".port"@);
    } else {
        proof {
            let t = cs@.subrange(n - 5, n as int);
            if t == ".port"@ {
                assert(t[0] == cs@[n - 5] && t[1] == cs@[n - 4] && t[2] == cs@[n - 3]);
                assert(t[3] == cs@[n - 2] && t[4] == cs@[n - 1]);
            }
        }
    }
    r
}

/// The note on a fixture of a template-drafted candidate.
pub const GENERATED_NOTE: &'static str = "Generated representative; refine mappings before approval.";

/// Who drafted a template candidate.
pub const TEMPLATE_DRAFTER: &'static str = "deterministic-template-drafter";

/// The mapping of a template candidate: the placeholder class and activity,
/// then the naming-convention mapping of its samples.
pub open spec fn baseline_map(samples: Seq<Seq<char>>) -> Seq<(Seq<char>, MapV)> {
    seq![
        ("class_uid"@, MapV::Literal(PLACEHOLDER_CLASS_UID as int)),
        ("activity_id"@, MapV::Literal(PLACEHOLDER_ACTIVITY_ID as int)),
    ] + convention_entries(field_map(field_names(samples)))
}

/// The candidate pack `id` for the template group `cluster_key`: identity
/// Unknown, the detector `detector`, the decoder chain and mapping its
/// `samples` call for, and the `picked` samples as fixtures, each expected
/// to produce the placeholder class; drafted at `created_nanos`.
pub fn baseline_pack(
    id: &str,
    detector: &[String],
    cluster_key: &str,
    samples: &[String],
    picked: &[usize],
    created_nanos: u64,
) -> (r: PackDraft)
    requires
        forall|k: int| 0 <= k < picked@.len() ==> (#[trigger] picked@[k]) < samples@.len(),
    ensures
        r.id@ == id@,
        r.vendor@ == "Unknown"@,
        r.product@ == "Unidentified source"@,
        r.log_format@ == "unknown"@,
        strings(r.detect@) == strings(detector@),
        statics(r.decoders@) == decoder_chain(strings(samples@)),
        r.decoders_optional,
        entries_of(r.map@) == baseline_map(strings(samples@)),
        strings(r.fixtures@) == picked@.map_values(|i: usize| strings(samples@)[i as int]),
        expect_view(r.fixture_expect@) == seq![("class_uid"@, PLACEHOLDER_CLASS_UID)],
        r.fixture_note@ == GENERATED_NOTE@,
        r.priority == CANDIDATE_PRIORITY,
        r.author@ == "generated"@,
        r.created@ == dec(created_nanos as nat),
        r.approved_by is None,
        r.cluster_id matches Some(c) && c@ == "cluster-"@ + hex_tail(fnv1a(cluster_key.spec_bytes()) as nat, 16),
        r.model@ == TEMPLATE_DRAFTER@,
{
    let ghost ss = strings(samples@);
    let decoders = infer_decoders(samples);

    let mut map: Vec<(String, MapChoice)> = Vec::new();
    map.push((owned("class_uid"), MapChoice::Literal(PLACEHOLDER_CLASS_UID)));
    map.push((owned("activity_id"), MapChoice::Literal(PLACEHOLDER_ACTIVITY_ID)));
    assert(entries_of(map@) =~= seq![
        ("class_uid"@, MapV::Literal(PLACEHOLDER_CLASS_UID as int)),
        ("activity_id"@, MapV::Literal(PLACEHOLDER_ACTIVITY_ID as int)),
    ]);
    push_convention_entries(&mut map, samples);

    let mut detect: Vec<String> = Vec::new();
    let mut j: usize = 0;
    while j < detector.len()
        invariant
            j <= detector@.len(),
            strings(detect@) == strings(detector@).take(j as int),
        decreases detector@.len() - j,
    {
        detect.push(owned(detector[j].as_str()));
        assert(strings(detector@).take(j + 1) == strings(detector@).take(j as int).push(detector@[j as int]@));
        assert(strings(detect@) =~= strings(detector@).take(j + 1));
        j += 1;
    }
    assert(strings(detector@).take(detector@.len() as int) == strings(detector@));

    let ghost want = picked@.map_values(|i: usize| ss[i as int]);
    let mut fixtures: Vec<String> = Vec::new();
    let mut k: usize = 0;
    while k < picked.len()
        invariant
            k <= picked@.len(),
            ss == strings(samples@),
            want == picked@.map_values(|i: usize| ss[i as int]),
            forall|q: int| 0 <= q < picked@.len() ==> (#[trigger] picked@[q]) < samples@.len(),
            strings(fixtures@) == want.take(k as int),
        decreases picked@.len() - k,
    {
        fixtures.push(owned(samples[picked[k]].as_str()));
        assert(want.take(k + 1) == want.take(k as int).push(want[k as int]));
        assert(strings(fixtures@) =~= want.take(k + 1));
        k += 1;
    }
    assert(want.take(picked@.len() as int) == want);

    let mut expect: Vec<(String, i64)> = Vec::new();
    expect.push((owned("class_uid"), PLACEHOLDER_CLASS_UID));
    assert(expect_view(expect@) =~= seq![("class_uid"@, PLACEHOLDER_CLASS_UID)]);

    let mut created = String::new();
    push_dec(&mut created, created_nanos);
    assert(created@ =~= dec(created_nanos as nat));
    proof {
        reveal_strlit("generated");
    }
    PackDraft {
        id: owned(id),
        vendor: owned("Unknown"),
        product: owned("Unidentified source"),
        log_format: owned("unknown"),
        detect,
        decoders,
        decoders_optional: true,
        map,
        fixtures,
        fixture_expect: expect,
        fixture_note: owned(GENERATED_NOTE),
        priority: CANDIDATE_PRIORITY,
        author: owned("generated"),
        created,
        approved_by: None,
        cluster_id: Some(short_hash(cluster_key)),
        model: owned(TEMPLATE_DRAFTER),
    }
}

/// Every attribute a template candidate maps is a known OCSF path, whatever
/// its samples hold.
pub proof fn template_paths_are_known(samples: Seq<Seq<char>>)
    ensures
        all_known(baseline_map(samples)),
{
    let head = seq![
        ("class_uid"@, MapV::Literal(PLACEHOLDER_CLASS_UID as int)),
        ("activity_id"@, MapV::Literal(PLACEHOLDER_ACTIVITY_ID as int)),
    ];
    assert(known_paths()[0] == head[0].0 && known_paths()[1] == head[1].0);
    assert(all_known(head));
    lemma_conventions_known(head, samples);
}

} // verus!
