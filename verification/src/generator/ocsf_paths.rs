//! The OCSF attribute paths a generated pack may target, checked by hand
//! against the vendored schema.
use vstd::prelude::*;
use crate::text::{str_eq, chars_of, owned};
use crate::decode::salvage::{text_lt, text_less, lemma_text_lt_irrefl, lemma_text_lt_trans, lemma_text_lt_total};
use crate::generator::llm::strings;

verus! {

/// Every dotted OCSF path the generator can target.
pub open spec fn known_paths() -> Seq<Seq<char>> {
    seq![
        "class_uid"@, "activity_id"@, "severity_id"@, "message"@, "src_endpoint.ip"@,
        "src_endpoint.port"@, "dst_endpoint.ip"@, "dst_endpoint.port"@,
        "connection_info.protocol_name"@, "device.hostname"@, "actor.user.name"@,
        "url.url_string"@,
    ]
}

/// Whether `path` is one of [`known_paths`].
pub fn is_known_path(path: &str) -> (r: bool)
    ensures
        r == known_paths().contains(path@),
{
    let known: [&str; 12] = [
        "class_uid", "activity_id", "severity_id", "message", "src_endpoint.ip",
        "src_endpoint.port", "dst_endpoint.ip", "dst_endpoint.port",
        "connection_info.protocol_name", "device.hostname", "actor.user.name", "url.url_string",
    ];
    let ghost ks = known_paths();
    assert(ks.len() == 12);
    let mut i: usize = 0;
    while i < 12
        invariant
            i <= 12,
            ks == known_paths(),
            known@.len() == 12,
            forall|j: int| 0 <= j < 12 ==> (#[trigger] known@[j])@ == ks[j],
            forall|j: int| 0 <= j < i ==> ks[j] != path@,
        decreases 12 - i,
    {
        if str_eq(known[i], path) {
            assert(ks[i as int] == path@);
            return true;
        }
        i += 1;
    }
    false
}


/// Strictly ascending, so nothing occurs twice.
pub open spec fn increasing(v: Seq<Seq<char>>) -> bool {
    forall|i: int, j: int| 0 <= i < j < v.len() ==> text_lt(#[trigger] v[i], #[trigger] v[j])
}

/// Adds `s` to the ascending list `out`, unless it is there already.
fn insert_sorted(out: &mut Vec<String>, s: &str)
    requires
        increasing(strings(old(out)@)),
    ensures
        increasing(strings(final(out)@)),
        forall|x: Seq<char>| #[trigger] strings(final(out)@).contains(x) <==> strings(old(out)@).contains(x) || x == s@,
{
    let ghost m = strings(out@);
    let key = chars_of(s);
    let mut k: usize = 0;
    let mut done = false;
    while k < out.len() && !done
        invariant
            k <= out@.len(),
            m == strings(out@),
            key@ == s@,
            forall|j: int| 0 <= j < k ==> text_lt(#[trigger] m[j], s@),
            done ==> k < out@.len() && !text_lt(m[k as int], s@),
        decreases out@.len() - k, if done { 0int } else { 1int },
    {
        let c = chars_of(out[k].as_str());
        if text_less(&c, &key) {
            k += 1;
        } else {
            done = true;
        }
    }
    if k < out.len() && str_eq(out[k].as_str(), s) {
        assert(m.contains(s@)) by {
            assert(m[k as int] == s@);
        }
        return;
    }
    out.insert(k, owned(s));
    let ghost m2 = strings(out@);
    proof {
        assert(m2 =~= m.insert(k as int, s@));
        if k < m.len() {
            lemma_text_lt_total(m[k as int], s@);
        }
        assert forall|a: int, b: int| 0 <= a < b < m2.len() implies text_lt(#[trigger] m2[a], #[trigger] m2[b]) by {
            if b < k {
            } else if a < k && b == k {
            } else if a < k {
                assert(m2[b] == m[b - 1]);
            } else if a == k {
                assert(m2[b] == m[b - 1]);
                if b - 1 > k {
                    lemma_text_lt_trans(s@, m[k as int], m[b - 1]);
                }
            } else {
                assert(m2[a] == m[a - 1] && m2[b] == m[b - 1]);
            }
        }
        assert forall|x: Seq<char>| #[trigger] m2.contains(x) <==> m.contains(x) || x == s@ by {
            if m.contains(x) {
                let j = choose|j: int| 0 <= j < m.len() && #[trigger] m[j] == x;
                if j < k {
                    assert(m2[j] == x);
                } else {
                    assert(m2[j + 1] == x);
                }
            }
            if x == s@ {
                assert(m2[k as int] == x);
            }
            if m2.contains(x) {
                let j = choose|j: int| 0 <= j < m2.len() && #[trigger] m2[j] == x;
                if j < k {
                    assert(m[j] == x);
                } else if j > k {
                    assert(m[j - 1] == x);
                }
            }
        }
    }
}

/// The mapped paths that are not known OCSF attributes, each once, in
/// ascending order.
pub fn unknown_paths(paths: &[String]) -> (r: Vec<String>)
    ensures
        increasing(strings(r@)),
        forall|x: Seq<char>| #[trigger] strings(r@).contains(x) <==> strings(paths@).contains(x) && !known_paths().contains(x),
{
    let ghost ps = strings(paths@);
    let mut out: Vec<String> = Vec::new();
    let mut i: usize = 0;
    while i < paths.len()
        invariant
            i <= paths@.len(),
            ps == strings(paths@),
            increasing(strings(out@)),
            forall|x: Seq<char>| #[trigger] strings(out@).contains(x) <==> ps.take(i as int).contains(x) && !known_paths().contains(x),
        decreases paths@.len() - i,
    {
        let ghost before = strings(out@);
        let known = is_known_path(paths[i].as_str());
        if !known {
            insert_sorted(&mut out, paths[i].as_str());
        }
        proof {
            let t = ps.take(i as int);
            let t1 = ps.take(i + 1);
            assert(t1 =~= t.push(ps[i as int]));
            assert forall|x: Seq<char>| #[trigger] strings(out@).contains(x) <==> t1.contains(x) && !known_paths().contains(x) by {
                if t1.contains(x) && !t.contains(x) {
                    let j = choose|j: int| 0 <= j < t1.len() && #[trigger] t1[j] == x;
                    if j < i {
                        assert(t[j] == x);
                    }
                }
                if t.contains(x) {
                    let j = choose|j: int| 0 <= j < t.len() && #[trigger] t[j] == x;
                    assert(t1[j] == x);
                }
                if x == ps[i as int] {
                    assert(t1[i as int] == x);
                }
            }
        }
        i += 1;
    }
    assert(ps.take(paths@.len() as int) == ps);
    out
}


/// Every attribute a naming-convention rule targets is a known path.
proof fn lemma_rule_paths_known(r: int)
    requires
        0 <= r < 9,
    ensures
        known_paths().contains(crate::generator::llm::rule_paths()[r]),
{
    let k = known_paths();
    let p = crate::generator::llm::rule_paths();
    if r == 0 { assert(k[5] == p[r]); }
    else if r == 1 { assert(k[7] == p[r]); }
    else if r == 2 { assert(k[4] == p[r]); }
    else if r == 3 { assert(k[6] == p[r]); }
    else if r == 4 { assert(k[8] == p[r]); }
    else if r == 5 { assert(k[9] == p[r]); }
    else if r == 6 { assert(k[10] == p[r]); }
    else if r == 7 { assert(k[11] == p[r]); }
    else { assert(k[3] == p[r]); }
}

proof fn lemma_emitted_known(avail: Seq<Seq<char>>, p: Seq<Option<int>>, n: nat)
    requires
        n <= 9,
    ensures
        forall|k: int| 0 <= k < crate::generator::llm::emitted(avail, p, n).len()
            ==> known_paths().contains((#[trigger] crate::generator::llm::emitted(avail, p, n)[k]).0),
    decreases n,
{
    if n > 0 {
        let m = (n - 1) as nat;
        lemma_emitted_known(avail, p, m);
        let r = crate::generator::llm::path_order()[m as int];
        assert(0 <= r < 9);
        lemma_rule_paths_known(r);
        let e = crate::generator::llm::emitted(avail, p, n);
        let e0 = crate::generator::llm::emitted(avail, p, m);
        assert forall|k: int| 0 <= k < e.len() implies known_paths().contains((#[trigger] e[k]).0) by {
            if k < e0.len() {
                assert(e[k] == e0[k]);
            }
        }
    }
}

/// Every path the naming-convention field map names is a known OCSF path,
/// whatever field names the samples offer.
pub proof fn mapped_paths_are_known(avail: Seq<Seq<char>>)
    ensures
        forall|k: int| 0 <= k < crate::generator::llm::field_map(avail).len()
            ==> known_paths().contains((#[trigger] crate::generator::llm::field_map(avail)[k]).0),
{
    lemma_emitted_known(avail, crate::generator::llm::picks(avail, 9), 9);
}

} // verus!
