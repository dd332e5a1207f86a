//! Diversity sampling for cluster demonstrations.
//!
//! When a pack is drafted from a cluster only a handful of its records are
//! read, and which handful decides how good the draft is. Taking the first
//! *k* is the worst choice: adjacent lines of a log are its most similar.
//!
//! Greedy farthest-point traversal instead: start from the shortest record,
//! the closest to the format's skeleton, then repeatedly add whichever
//! remaining record is least similar to its nearest chosen one. Similarity
//! is the Jaccard overlap of token sets, compared as exact fractions. Ties
//! keep the lower index, so the selection is the same on every run.
use vstd::prelude::*;
use vstd::arithmetic::div_mod::{lemma_fundamental_div_mod, lemma_mod_pos_bound};
use crate::generator::llm::{char_vecs, is_used, strings};
use crate::generator::names::{add_new, with_new};
use crate::generator::tokens::{runs, split_p, split_tokens};
use crate::text::{byte_len, chars_of, chars_sized, utf8_len};

verus! {

// ---------------------------------------------------------------------------
// Similarity
// ---------------------------------------------------------------------------

/// The distinct tokens of a record, in order of first appearance; the
/// sampler splits `key=value` and `key:value` too.
pub open spec fn distinct_tokens(s: Seq<char>) -> Seq<Seq<char>> {
    with_new(Seq::empty(), runs(s, split_p(1)))
}

/// How many of `a` are in `b`.
pub open spec fn common(a: Seq<Seq<char>>, b: Seq<Seq<char>>) -> nat
    decreases a.len(),
{
    if a.len() == 0 {
        0
    } else {
        common(a.drop_last(), b) + if b.contains(a.last()) { 1nat } else { 0nat }
    }
}

/// The Jaccard similarity of two token sets, as the fraction shared over
/// combined; two empty sets are alike.
pub open spec fn jaccard(a: Seq<Seq<char>>, b: Seq<Seq<char>>) -> (nat, nat) {
    if a.len() == 0 && b.len() == 0 {
        (1, 1)
    } else {
        (common(a, b), (a.len() + b.len() - common(a, b)) as nat)
    }
}

/// The fraction `x` is smaller than `y`.
pub open spec fn below(x: (nat, nat), y: (nat, nat)) -> bool {
    x.0 * y.1 < y.0 * x.1
}

/// The greatest similarity of record `i` to the chosen ones, zero for none.
pub open spec fn nearest(ds: Seq<Seq<Seq<char>>>, chosen: Seq<int>, i: int) -> (nat, nat)
    decreases chosen.len(),
{
    if chosen.len() == 0 {
        (0, 1)
    } else {
        let m = nearest(ds, chosen.drop_last(), i);
        let s = jaccard(ds[i], ds[chosen.last()]);
        if below(m, s) { s } else { m }
    }
}

/// From index `i` on, the unchosen record least similar to its nearest
/// chosen one, the first on a tie, given the best so far.
pub open spec fn pick_from(ds: Seq<Seq<Seq<char>>>, chosen: Seq<int>, i: int, best: Option<(int, (nat, nat))>) -> Option<(int, (nat, nat))>
    decreases ds.len() - i,
{
    if i < 0 || i >= ds.len() {
        best
    } else if chosen.contains(i) {
        pick_from(ds, chosen, i + 1, best)
    } else {
        let n = nearest(ds, chosen, i);
        let better = match best {
            None => true,
            Some(b) => below(n, b.1),
        };
        pick_from(ds, chosen, i + 1, if better { Some((i, n)) } else { best })
    }
}

/// Picks until `k` records are chosen or none is left.
pub open spec fn select(ds: Seq<Seq<Seq<char>>>, k: nat, chosen: Seq<int>) -> Seq<int>
    decreases k - chosen.len(),
{
    if chosen.len() >= k {
        chosen
    } else {
        match pick_from(ds, chosen, 0, None) {
            Some(b) => select(ds, k, chosen.push(b.0)),
            None => chosen,
        }
    }
}

/// From `i` on, the index of the shortest record (in bytes), the first on a
/// tie, given the shortest so far.
pub open spec fn shortest_from(rs: Seq<Seq<char>>, i: int, best: int) -> int
    decreases rs.len() - i,
{
    if i < 0 || i >= rs.len() {
        best
    } else {
        shortest_from(rs, i + 1, if utf8_len(rs[i]) < utf8_len(rs[best]) { i } else { best })
    }
}

/// What `diverse_indices` returns: nothing for no records or `k == 0`;
/// every index when there are at most `k` records; otherwise the traversal
/// from the shortest record.
pub open spec fn diverse(rs: Seq<Seq<char>>, k: nat) -> Seq<int> {
    if rs.len() == 0 || k == 0 {
        Seq::empty()
    } else if rs.len() <= k {
        Seq::new(rs.len(), |i: int| i)
    } else {
        select(token_sets(rs), k, seq![shortest_from(rs, 1, 0)])
    }
}

/// The distinct tokens of each record.
pub open spec fn token_sets(rs: Seq<Seq<char>>) -> Seq<Seq<Seq<char>>> {
    rs.map_values(|r: Seq<char>| distinct_tokens(r))
}

pub open spec fn ints(v: Seq<usize>) -> Seq<int> {
    v.map_values(|x: usize| x as int)
}

// ---------------------------------------------------------------------------
// Exact fractions
// ---------------------------------------------------------------------------

proof fn lemma_frac_split(a: int, b: int, c: int, d: int, q1: int, r1: int, q2: int, r2: int)
    by (nonlinear_arith)
    requires
        b > 0,
        d > 0,
        a == b * q1 + r1,
        c == d * q2 + r2,
        0 <= r1 < b,
        0 <= r2 < d,
    ensures
        (a * d < c * b) == (q1 < q2 || (q1 == q2 && r1 * d < r2 * b)),
{
    assert(a * d == q1 * (b * d) + r1 * d);
    assert(c * b == q2 * (b * d) + r2 * b);
    if q1 < q2 {
        assert(q1 * (b * d) + b * d <= q2 * (b * d));
        assert(r1 * d < b * d);
    } else if q1 > q2 {
        assert(q2 * (b * d) + b * d <= q1 * (b * d));
        assert(r2 * b < b * d);
    }
}

/// `a / b < c / d`, decided by continued fractions so that nothing is
/// multiplied.
fn frac_below(a: u128, b: u128, c: u128, d: u128) -> (r: bool)
    requires
        b > 0,
        d > 0,
    ensures
        r == (a * d < c * b),
    decreases b + d,
{
    let q1 = a / b;
    let r1 = a % b;
    let q2 = c / d;
    let r2 = c % d;
    proof {
        lemma_fundamental_div_mod(a as int, b as int);
        lemma_fundamental_div_mod(c as int, d as int);
        lemma_mod_pos_bound(a as int, b as int);
        lemma_mod_pos_bound(c as int, d as int);
        lemma_frac_split(a as int, b as int, c as int, d as int, q1 as int, r1 as int, q2 as int, r2 as int);
    }
    if q1 != q2 {
        return q1 < q2;
    }
    if r2 == 0 {
        assert(r1 * d >= 0) by (nonlinear_arith) requires r1 >= 0, d > 0;
        assert(r2 * b == 0) by (nonlinear_arith) requires r2 == 0;
        return false;
    }
    if r1 == 0 {
        assert(r2 * b > 0) by (nonlinear_arith) requires r2 > 0, b > 0;
        assert(r1 * d == 0) by (nonlinear_arith) requires r1 == 0;
        return true;
    }
    let r = frac_below(d, r2, b, r1);
    assert(d * r1 == r1 * d && b * r2 == r2 * b) by (nonlinear_arith);
    r
}

// ---------------------------------------------------------------------------
// Selection
// ---------------------------------------------------------------------------

/// The distinct tokens of a record.
fn distinct_of(record: &str) -> (r: Vec<Vec<char>>)
    ensures
        char_vecs(r@) == distinct_tokens(record@),
{
    let toks = split_tokens(record, 1);
    let ghost ts = strings(toks@);
    let mut out: Vec<Vec<char>> = Vec::new();
    let mut i: usize = 0;
    assert(char_vecs(out@) =~= Seq::<Seq<char>>::empty());
    while i < toks.len()
        invariant
            i <= toks@.len(),
            ts == strings(toks@),
            char_vecs(out@) == with_new(Seq::empty(), ts.take(i as int)),
        decreases toks@.len() - i,
    {
        let key = chars_of(toks[i].as_str());
        let ghost before = char_vecs(out@);
        proof {
            assert(ts.take(i + 1).drop_last() == ts.take(i as int));
            assert(ts.take(i + 1).last() == key@);
            assert(seq![key@].drop_last() == Seq::<Seq<char>>::empty());
            assert(with_new(before, Seq::<Seq<char>>::empty()) == before);
            assert(seq![key@].last() == key@);
        }
        add_new(&mut out, key);
        assert(char_vecs(out@) == (if before.contains(key@) { before } else { before.push(key@) }));
        i += 1;
    }
    assert(ts.take(toks@.len() as int) == ts);
    out
}

proof fn lemma_common_bound(a: Seq<Seq<char>>, b: Seq<Seq<char>>)
    ensures
        common(a, b) <= a.len(),
        b.len() == 0 ==> common(a, b) == 0,
    decreases a.len(),
{
    if a.len() > 0 {
        lemma_common_bound(a.drop_last(), b);
    }
}

/// `jaccard(a, b)`.
fn jaccard_exec(a: &Vec<Vec<char>>, b: &Vec<Vec<char>>) -> (r: (u128, u128))
    ensures
        r.0 == jaccard(char_vecs(a@), char_vecs(b@)).0,
        r.1 == jaccard(char_vecs(a@), char_vecs(b@)).1,
        r.1 > 0,
{
    if a.len() == 0 && b.len() == 0 {
        return (1, 1);
    }
    let ghost av = char_vecs(a@);
    let ghost bv = char_vecs(b@);
    let mut sh: usize = 0;
    let mut i: usize = 0;
    while i < a.len()
        invariant
            i <= a@.len(),
            av == char_vecs(a@),
            bv == char_vecs(b@),
            sh == common(av.take(i as int), bv),
            sh <= i,
        decreases a@.len() - i,
    {
        assert(av.take(i + 1).drop_last() == av.take(i as int));
        assert(av.take(i + 1).last() == a@[i as int]@);
        if is_used(b, a[i].as_slice()) {
            sh += 1;
        }
        i += 1;
    }
    assert(av.take(a@.len() as int) == av);
    proof {
        lemma_common_bound(av, bv);
    }
    (sh as u128, a.len() as u128 + b.len() as u128 - sh as u128)
}

/// `nearest(ds, chosen, i)`.
fn nearest_exec(sets: &Vec<Vec<Vec<char>>>, chosen: &Vec<usize>, i: usize, Ghost(ds): Ghost<Seq<Seq<Seq<char>>>>) -> (r: (u128, u128))
    requires
        i < sets@.len() == ds.len(),
        forall|j: int| 0 <= j < sets@.len() ==> char_vecs((#[trigger] sets@[j])@) == ds[j],
        forall|j: int| 0 <= j < chosen@.len() ==> (#[trigger] chosen@[j]) < sets@.len(),
    ensures
        r.0 == nearest(ds, ints(chosen@), i as int).0,
        r.1 == nearest(ds, ints(chosen@), i as int).1,
        r.1 > 0,
{
    let ghost cs = ints(chosen@);
    let mut m: (u128, u128) = (0, 1);
    let mut j: usize = 0;
    while j < chosen.len()
        invariant
            j <= chosen@.len(),
            cs == ints(chosen@),
            i < sets@.len() == ds.len(),
            forall|q: int| 0 <= q < sets@.len() ==> char_vecs((#[trigger] sets@[q])@) == ds[q],
            forall|q: int| 0 <= q < chosen@.len() ==> (#[trigger] chosen@[q]) < sets@.len(),
            m.0 == nearest(ds, cs.take(j as int), i as int).0,
            m.1 == nearest(ds, cs.take(j as int), i as int).1,
            m.1 > 0,
        decreases chosen@.len() - j,
    {
        let c = chosen[j];
        assert(cs.take(j + 1).drop_last() == cs.take(j as int));
        assert(cs.take(j + 1).last() == c as int);
        let s = jaccard_exec(&sets[i], &sets[c]);
        if frac_below(m.0, m.1, s.0, s.1) {
            m = s;
        }
        j += 1;
    }
    assert(cs.take(chosen@.len() as int) == cs);
    m
}

/// Whether `i` is among the chosen.
fn is_chosen(chosen: &Vec<usize>, i: usize) -> (r: bool)
    ensures
        r == ints(chosen@).contains(i as int),
{
    let mut j: usize = 0;
    while j < chosen.len()
        invariant
            j <= chosen@.len(),
            forall|q: int| 0 <= q < j ==> ints(chosen@)[q] != i as int,
        decreases chosen@.len() - j,
    {
        if chosen[j] == i {
            assert(ints(chosen@)[j as int] == i as int);
            return true;
        }
        j += 1;
    }
    false
}

/// `pick_from(ds, chosen, 0, None)`.
fn pick(sets: &Vec<Vec<Vec<char>>>, chosen: &Vec<usize>, Ghost(ds): Ghost<Seq<Seq<Seq<char>>>>) -> (r: Option<usize>)
    requires
        sets@.len() == ds.len(),
        forall|j: int| 0 <= j < sets@.len() ==> char_vecs((#[trigger] sets@[j])@) == ds[j],
        forall|j: int| 0 <= j < chosen@.len() ==> (#[trigger] chosen@[j]) < sets@.len(),
    ensures
        match pick_from(ds, ints(chosen@), 0, None) {
            Some(b) => r == Some(b.0 as usize) && 0 <= b.0 < sets@.len(),
            None => r is None,
        },
{
    let ghost cs = ints(chosen@);
    let mut best: Option<usize> = None;
    let mut score: (u128, u128) = (0, 1);
    let mut i: usize = 0;
    while i < sets.len()
        invariant
            i <= sets@.len() == ds.len(),
            cs == ints(chosen@),
            forall|j: int| 0 <= j < sets@.len() ==> char_vecs((#[trigger] sets@[j])@) == ds[j],
            forall|j: int| 0 <= j < chosen@.len() ==> (#[trigger] chosen@[j]) < sets@.len(),
            score.1 > 0,
            pick_from(ds, cs, 0, None) == pick_from(ds, cs, i as int, match best {
                Some(b) => Some((b as int, (score.0 as nat, score.1 as nat))),
                None => None,
            }),
            best matches Some(b) ==> b < i,
        decreases sets@.len() - i,
    {
        if !is_chosen(chosen, i) {
            let n = nearest_exec(sets, chosen, i, Ghost(ds));
            if best.is_none() || frac_below(n.0, n.1, score.0, score.1) {
                best = Some(i);
                score = n;
            }
        }
        i += 1;
    }
    best
}

/// Chooses up to `k` records covering as much of the cluster's variation as
/// possible, and returns their indices in the order chosen.
pub fn diverse_indices(records: &[String], k: usize) -> (r: Vec<usize>)
    ensures
        ints(r@) == diverse(strings(records@), k as nat),
        forall|q: int| 0 <= q < r@.len() ==> (#[trigger] r@[q]) < records@.len(),
{
    let ghost rs = strings(records@);
    let n = records.len();
    let mut out: Vec<usize> = Vec::new();
    if n == 0 || k == 0 {
        assert(ints(out@) =~= Seq::<int>::empty());
        return out;
    }
    if n <= k {
        let mut i: usize = 0;
        while i < n
            invariant
                i <= n == records@.len(),
                ints(out@) == Seq::new(i as nat, |j: int| j),
                forall|q: int| 0 <= q < out@.len() ==> (#[trigger] out@[q]) < i,
            decreases n - i,
        {
            let ghost before = ints(out@);
            out.push(i);
            assert(ints(out@) =~= before.push(i as int));
            assert(ints(out@) =~= Seq::new((i + 1) as nat, |j: int| j));
            i += 1;
        }
        return out;
    }
    let ghost ds = token_sets(rs);
    // The distinct tokens of every record, and the shortest record.
    let mut sets: Vec<Vec<Vec<char>>> = Vec::new();
    let mut shortest: usize = 0;
    let mut shortest_len: usize = 0;
    let mut i: usize = 0;
    while i < n
        invariant
            i <= n == records@.len() == rs.len(),
            rs == strings(records@),
            ds == token_sets(rs),
            sets@.len() == i,
            forall|j: int| 0 <= j < i ==> char_vecs((#[trigger] sets@[j])@) == ds[j],
            i == 0 ==> shortest == 0,
            i > 0 ==> shortest < i && shortest_len == utf8_len(rs[shortest as int]),
            i > 0 ==> shortest_from(rs, 1, 0) == shortest_from(rs, i as int, shortest as int),
        decreases n - i,
    {
        let cs = chars_sized(records[i].as_str());
        let len = byte_len(&cs, 0, cs.len());
        assert(cs@.subrange(0, cs@.len() as int) == rs[i as int]);
        if i == 0 || len < shortest_len {
            shortest = i;
            shortest_len = len;
        }
        sets.push(distinct_of(records[i].as_str()));
        i += 1;
    }
    out.push(shortest);
    let ghost first = seq![shortest as int];
    assert(ints(out@) =~= first);
    loop
        invariant
            k < n == sets@.len() == ds.len(),
            forall|j: int| 0 <= j < sets@.len() ==> char_vecs((#[trigger] sets@[j])@) == ds[j],
            forall|j: int| 0 <= j < out@.len() ==> (#[trigger] out@[j]) < sets@.len(),
            select(ds, k as nat, first) == select(ds, k as nat, ints(out@)),
            out@.len() <= k,
        ensures
            select(ds, k as nat, first) == ints(out@),
        decreases k - out@.len(),
    {
        if out.len() >= k {
            break;
        }
        match pick(&sets, &out, Ghost(ds)) {
            Some(p) => {
                let ghost before = ints(out@);
                out.push(p);
                assert(ints(out@) =~= before.push(p as int));
            },
            None => {
                break;
            },
        }
    }
    out
}

/// [`diverse_indices`], returning the records themselves.
pub fn diverse_samples(records: &[String], k: usize) -> (r: Vec<String>)
    ensures
        strings(r@) == diverse(strings(records@), k as nat).map_values(|i: int| strings(records@)[i]),
{
    let idx = diverse_indices(records, k);
    let ghost want = diverse(strings(records@), k as nat).map_values(|i: int| strings(records@)[i]);
    let mut out: Vec<String> = Vec::new();
    let mut j: usize = 0;
    while j < idx.len()
        invariant
            j <= idx@.len(),
            ints(idx@) == diverse(strings(records@), k as nat),
            want == ints(idx@).map_values(|i: int| strings(records@)[i]),
            forall|q: int| 0 <= q < idx@.len() ==> (#[trigger] idx@[q]) < records@.len(),
            strings(out@) == want.take(j as int),
        decreases idx@.len() - j,
    {
        let ghost before = strings(out@);
        let s = records[idx[j]].clone();
        out.push(s);
        assert(strings(out@) =~= before.push(records@[idx@[j as int] as int]@));
        assert(want.take(j + 1) =~= want.take(j as int).push(want[j as int]));
        j += 1;
    }
    assert(want.take(idx@.len() as int) =~= want);
    out
}

// ---------------------------------------------------------------------------
// Laws
// ---------------------------------------------------------------------------

proof fn lemma_pick_from(ds: Seq<Seq<Seq<char>>>, chosen: Seq<int>, i: int, best: Option<(int, (nat, nat))>)
    requires
        0 <= i <= ds.len(),
        best matches Some(b) ==> 0 <= b.0 < ds.len() && !chosen.contains(b.0),
        best is None ==> forall|j: int| 0 <= j < i ==> chosen.contains(j),
    ensures
        match pick_from(ds, chosen, i, best) {
            Some(b) => 0 <= b.0 < ds.len() && !chosen.contains(b.0),
            None => forall|j: int| 0 <= j < ds.len() ==> chosen.contains(j),
        },
    decreases ds.len() - i,
{
    if i < ds.len() {
        if chosen.contains(i) {
            lemma_pick_from(ds, chosen, i + 1, best);
        } else {
            let n = nearest(ds, chosen, i);
            let better = match best {
                None => true,
                Some(b) => below(n, b.1),
            };
            lemma_pick_from(ds, chosen, i + 1, if better { Some((i, n)) } else { best });
        }
    }
}

/// Fewer distinct indices than records leave a record unchosen.
proof fn lemma_room_left(chosen: Seq<int>, n: int)
    requires
        chosen.no_duplicates(),
        chosen.len() < n,
    ensures
        exists|j: int| 0 <= j < n && !chosen.contains(j),
{
    if forall|j: int| 0 <= j < n ==> chosen.contains(j) {
        vstd::set_lib::lemma_int_range(0, n);
        chosen.unique_seq_to_set();
        assert(vstd::set_lib::set_int_range(0, n).subset_of(chosen.to_set()));
        vstd::seq_lib::seq_to_set_is_finite(chosen);
        vstd::set_lib::lemma_len_subset(vstd::set_lib::set_int_range(0, n), chosen.to_set());
    }
}

proof fn lemma_select(ds: Seq<Seq<Seq<char>>>, k: nat, chosen: Seq<int>)
    requires
        k < ds.len(),
        chosen.len() <= k,
        chosen.no_duplicates(),
        forall|j: int| 0 <= j < chosen.len() ==> 0 <= #[trigger] chosen[j] < ds.len(),
    ensures
        select(ds, k, chosen).no_duplicates(),
        select(ds, k, chosen).len() == k,
        forall|j: int| 0 <= j < select(ds, k, chosen).len() ==> 0 <= #[trigger] select(ds, k, chosen)[j] < ds.len(),
    decreases k - chosen.len(),
{
    if chosen.len() < k {
        lemma_pick_from(ds, chosen, 0, None);
        match pick_from(ds, chosen, 0, None) {
            Some(b) => {
                let next = chosen.push(b.0);
                assert forall|x: int, y: int| 0 <= x < y < next.len() implies next[x] != next[y] by {
                    if y == chosen.len() {
                        assert(chosen[x] == next[x]);
                    }
                }
                lemma_select(ds, k, next);
            },
            None => {
                lemma_room_left(chosen, ds.len() as int);
                let j = choose|j: int| 0 <= j < ds.len() && !chosen.contains(j);
                assert(chosen.contains(j));
            },
        }
    }
}

proof fn lemma_shortest_from(rs: Seq<Seq<char>>, i: int, best: int)
    requires
        0 <= best < rs.len(),
    ensures
        0 <= shortest_from(rs, i, best) < rs.len(),
    decreases rs.len() - i,
{
    if 0 <= i < rs.len() {
        lemma_shortest_from(rs, i + 1, if utf8_len(rs[i]) < utf8_len(rs[best]) { i } else { best });
    }
}

/// No record is chosen twice, every index names a record, and as many are
/// chosen as asked for, or all of them when there are fewer.
pub proof fn selection_is_distinct_and_full(rs: Seq<Seq<char>>, k: nat)
    ensures
        diverse(rs, k).no_duplicates(),
        diverse(rs, k).len() == if rs.len() <= k { rs.len() } else { k },
        forall|j: int| 0 <= j < diverse(rs, k).len() ==> 0 <= #[trigger] diverse(rs, k)[j] < rs.len(),
{
    if rs.len() > k && k > 0 {
        lemma_shortest_from(rs, 1, 0);
        let first = seq![shortest_from(rs, 1, 0)];
        lemma_select(token_sets(rs), k, first);
    }
}

} // verus!
