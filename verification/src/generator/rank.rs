//! Ranking detector literals: longer first, then alphabetical; with `tags`,
//! a literal that is not a bare `key=` ranks before any that is.
//!
//! Candidates are gathered into a strictly increasing list, so duplicates
//! fall away, and the best few are taken from its front.
use vstd::prelude::*;
use crate::decode::salvage::{lemma_text_lt_irrefl, lemma_text_lt_total, lemma_text_lt_trans, text_less, text_lt};
use crate::text::{string_of, utf8_len};

verus! {

/// 1 for a bare field name (`key=`), 0 otherwise.
pub open spec fn key_class(t: Seq<char>) -> int {
    if t.len() > 0 && t.last() == '=' { 1 } else { 0 }
}

/// The ranking: (with `tags`) tags before field names; then more bytes
/// first; then alphabetical.
pub open spec fn rank_lt(tags: bool, a: Seq<char>, b: Seq<char>) -> bool {
    let ca = if tags { key_class(a) } else { 0 };
    let cb = if tags { key_class(b) } else { 0 };
    ca < cb || (ca == cb && (utf8_len(a) > utf8_len(b) || (utf8_len(a) == utf8_len(b) && text_lt(a, b))))
}

pub proof fn lemma_rank_facts(tags: bool, a: Seq<char>, b: Seq<char>, c: Seq<char>)
    ensures
        !rank_lt(tags, a, a),
        rank_lt(tags, a, b) && rank_lt(tags, b, c) ==> rank_lt(tags, a, c),
        a == b || rank_lt(tags, a, b) || rank_lt(tags, b, a),
        rank_lt(tags, a, b) ==> !rank_lt(tags, b, a),
{
    lemma_text_lt_irrefl(a);
    lemma_text_lt_total(a, b);
    if text_lt(a, b) && text_lt(b, c) {
        lemma_text_lt_trans(a, b, c);
    }
    if text_lt(a, b) && text_lt(b, a) {
        lemma_text_lt_trans(a, b, a);
    }
}

/// Strictly increasing in rank.
pub open spec fn ranked(tags: bool, s: Seq<Seq<char>>) -> bool {
    forall|i: int, j: int| 0 <= i < j < s.len() ==> rank_lt(tags, #[trigger] s[i], #[trigger] s[j])
}

/// `r` is the `k` best of `set` (all of them when fewer), best first.
pub open spec fn top(tags: bool, r: Seq<Seq<char>>, set: Set<Seq<char>>, k: nat) -> bool {
    &&& ranked(tags, r)
    &&& r.len() == if set.len() < k { set.len() } else { k }
    &&& forall|i: int| 0 <= i < r.len() ==> set.contains(#[trigger] r[i])
    &&& forall|x: Seq<char>| #[trigger] set.contains(x) && !r.contains(x) ==> forall|i: int| 0 <= i < r.len() ==> rank_lt(tags, #[trigger] r[i], x)
}

/// A candidate and its length in bytes.
pub open spec fn texts(v: Seq<(Vec<char>, usize)>) -> Seq<Seq<char>> {
    v.map_values(|e: (Vec<char>, usize)| e.0@)
}

pub open spec fn sized(v: Seq<(Vec<char>, usize)>) -> bool {
    forall|i: int| 0 <= i < v.len() ==> (#[trigger] v[i]).1 == utf8_len(v[i].0@)
}

fn rank_less(tags: bool, a: &(Vec<char>, usize), b: &(Vec<char>, usize)) -> (r: bool)
    requires
        a.1 == utf8_len(a.0@),
        b.1 == utf8_len(b.0@),
    ensures
        r == rank_lt(tags, a.0@, b.0@),
{
    let ca: u8 = if tags && a.0.len() > 0 && a.0[a.0.len() - 1] == '=' { 1 } else { 0 };
    let cb: u8 = if tags && b.0.len() > 0 && b.0[b.0.len() - 1] == '=' { 1 } else { 0 };
    ca < cb || (ca == cb && (a.1 > b.1 || (a.1 == b.1 && text_less(a.0.as_slice(), b.0.as_slice()))))
}

fn same_text(a: &[char], b: &[char]) -> (r: bool)
    ensures
        r == (a@ == b@),
{
    assert(a@.subrange(0, a@.len() as int) == a@);
    assert(b@.subrange(0, b@.len() as int) == b@);
    crate::text::seq_eq(a, 0, a.len(), b, 0, b.len())
}

/// Adds `item` to the rank-sorted `acc`, unless its text is there.
pub fn insert_ranked(acc: &mut Vec<(Vec<char>, usize)>, tags: bool, item: (Vec<char>, usize))
    requires
        ranked(tags, texts(old(acc)@)),
        sized(old(acc)@),
        item.1 == utf8_len(item.0@),
    ensures
        ranked(tags, texts(final(acc)@)),
        sized(final(acc)@),
        texts(final(acc)@).to_set() == texts(old(acc)@).to_set().insert(item.0@),
{
    let ghost x = item.0@;
    let ghost k0 = texts(acc@);
    let mut i: usize = 0;
    while i < acc.len()
        invariant
            i <= acc@.len(),
            acc@ == old(acc)@,
            k0 == texts(acc@),
            x == item.0@,
            item.1 == utf8_len(item.0@),
            sized(acc@),
            ranked(tags, k0),
            forall|j: int| 0 <= j < i ==> rank_lt(tags, #[trigger] k0[j], x),
        ensures
            i <= acc@.len(),
            acc@ == old(acc)@,
            forall|j: int| 0 <= j < i ==> rank_lt(tags, #[trigger] k0[j], x),
            i < acc@.len() ==> !rank_lt(tags, k0[i as int], x),
        decreases acc@.len() - i,
    {
        let less = rank_less(tags, &acc[i], &item);
        if !less {
            break;
        }
        i += 1;
    }
    if i < acc.len() && same_text(acc[i].0.as_slice(), item.0.as_slice()) {
        assert(k0[i as int] == x);
        assert(k0.to_set().insert(x) =~= k0.to_set());
        return;
    }
    if i < acc.len() {
        proof {
            lemma_rank_facts(tags, k0[i as int], x, x);
        }
        assert(rank_lt(tags, x, k0[i as int]));
    }
    acc.insert(i, item);
    let ghost k1 = texts(acc@);
    assert(k1 =~= k0.insert(i as int, x));
    assert forall|a: int, b: int| 0 <= a < b < k1.len() implies rank_lt(tags, #[trigger] k1[a], #[trigger] k1[b]) by {
        if b < i {
            assert(k1[a] == k0[a] && k1[b] == k0[b]);
        } else if b == i {
            assert(k1[a] == k0[a] && k1[b] == x);
        } else if a == i {
            assert(k1[b] == k0[b - 1]);
            if b - 1 > i {
                lemma_rank_facts(tags, x, k0[i as int], k0[b - 1]);
            }
        } else if a < i {
            assert(k1[a] == k0[a] && k1[b] == k0[b - 1]);
        } else {
            assert(k1[a] == k0[a - 1] && k1[b] == k0[b - 1]);
        }
    }
    assert forall|j: int| 0 <= j < acc@.len() implies (#[trigger] acc@[j]).1 == utf8_len(acc@[j].0@) by {
        if j < i {
            assert(acc@[j] == old(acc)@[j]);
        } else if j > i {
            assert(acc@[j] == old(acc)@[j - 1]);
        }
    }
    assert forall|y: Seq<char>| k1.to_set().contains(y) <==> k0.to_set().insert(x).contains(y) by {
        if k1.contains(y) {
            let j = choose|j: int| 0 <= j < k1.len() && k1[j] == y;
            if j < i {
                assert(k0[j] == y);
            } else if j > i {
                assert(k0[j - 1] == y);
            }
        }
        if k0.contains(y) {
            let j = choose|j: int| 0 <= j < k0.len() && k0[j] == y;
            if j < i {
                assert(k1[j] == y);
            } else {
                assert(k1[j + 1] == y);
            }
        }
        if y == x {
            assert(k1[i as int] == x);
        }
    }
    assert(k1.to_set() =~= k0.to_set().insert(x));
}

proof fn lemma_ranked_set_len(tags: bool, s: Seq<Seq<char>>)
    requires
        ranked(tags, s),
    ensures
        s.to_set().len() == s.len(),
{
    assert forall|i: int, j: int| 0 <= i < s.len() && 0 <= j < s.len() && i != j implies s[i] != s[j] by {
        lemma_rank_facts(tags, s[i], s[i], s[i]);
        if i < j {
            assert(rank_lt(tags, s[i], s[j]));
        } else {
            assert(rank_lt(tags, s[j], s[i]));
        }
    }
    assert(s.no_duplicates());
    s.unique_seq_to_set();
}

/// The first `k` texts of the rank-sorted `acc`, as strings.
pub fn take_top(acc: &Vec<(Vec<char>, usize)>, tags: bool, k: usize) -> (r: Vec<String>)
    requires
        ranked(tags, texts(acc@)),
    ensures
        top(tags, strings_of(r@), texts(acc@).to_set(), k as nat),
{
    let ghost ks = texts(acc@);
    proof {
        lemma_ranked_set_len(tags, ks);
    }
    let m = if acc.len() < k { acc.len() } else { k };
    let mut out: Vec<String> = Vec::new();
    let mut i: usize = 0;
    while i < m
        invariant
            i <= m <= acc@.len(),
            ks == texts(acc@),
            strings_of(out@) == ks.take(i as int),
        decreases m - i,
    {
        let s = string_of(acc[i].0.as_slice());
        let ghost before = out@;
        out.push(s);
        assert(strings_of(out@) =~= strings_of(before).push(ks[i as int]));
        assert(ks.take(i + 1) == ks.take(i as int).push(ks[i as int]));
        i += 1;
    }
    let ghost rv = strings_of(out@);
    assert(rv == ks.take(m as int));
    assert forall|x: Seq<char>| #[trigger] ks.to_set().contains(x) && !rv.contains(x) implies forall|j: int| 0 <= j < rv.len() ==> rank_lt(tags, #[trigger] rv[j], x) by {
        assert(ks.contains(x));
        let q = choose|q: int| 0 <= q < ks.len() && ks[q] == x;
        if q < m {
            assert(rv[q] == x);
        }
        assert forall|j: int| 0 <= j < rv.len() implies rank_lt(tags, #[trigger] rv[j], x) by {
            assert(rv[j] == ks[j]);
        }
    }
    assert forall|j: int| 0 <= j < rv.len() implies ks.to_set().contains(#[trigger] rv[j]) by {
        assert(rv[j] == ks[j]);
        assert(ks.contains(ks[j]));
    }
    assert forall|a: int, b: int| 0 <= a < b < rv.len() implies rank_lt(tags, #[trigger] rv[a], #[trigger] rv[b]) by {
        assert(rv[a] == ks[a] && rv[b] == ks[b]);
    }
    out
}

pub open spec fn strings_of(v: Seq<String>) -> Seq<Seq<char>> {
    v.map_values(|s: String| s@)
}

} // verus!
