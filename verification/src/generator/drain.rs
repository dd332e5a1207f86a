//! Template clustering for dead-letter records.
//!
//! Groups unparsed lines into templates so the operator sees "4,812 lines of
//! this shape" rather than 4,812 rows. This is the first level of the Drain
//! algorithm: bucket by token count, match within the bucket by positional
//! agreement, and generalise disagreeing positions to a `<*>` wildcard.
//!
//! A line joins the cluster of its token count that agrees with it at the
//! most positions, provided at least 40% agree (a wildcard agrees with
//! anything); on a tie the oldest cluster wins. The number of clusters is
//! capped; a line that would need a new one past the cap is counted as
//! overflow instead.
use vstd::prelude::*;
use crate::decode::salvage::{text_less, text_lt};
use crate::generator::llm::strings;
use crate::generator::tokens::{runs, split_p, split_tokens};
use crate::text::{chars_of, dec, owned, push_char, push_dec, str_eq};

verus! {

/// Most sample lines kept per cluster.
pub const SAMPLES_PER_CLUSTER: usize = 30;

/// One template and the records that matched it.
#[derive(Debug)]
pub struct Cluster {
    pub id: String,
    pub template: Vec<String>,
    pub count: usize,
    pub samples: Vec<String>,
}

pub ghost struct ClusterV {
    pub id: Seq<char>,
    pub template: Seq<Seq<char>>,
    pub count: nat,
    pub samples: Seq<Seq<char>>,
}

impl View for Cluster {
    type V = ClusterV;

    open spec fn view(&self) -> ClusterV {
        ClusterV {
            id: self.id@,
            template: strings(self.template@),
            count: self.count as nat,
            samples: strings(self.samples@),
        }
    }
}

/// The wildcard a disagreeing position becomes.
pub open spec fn wildcard() -> Seq<char> {
    seq!['<', '*', '>']
}

/// How many template positions are still literal tokens.
pub open spec fn literal_count(t: Seq<Seq<char>>) -> nat
    decreases t.len(),
{
    if t.len() == 0 {
        0
    } else {
        literal_count(t.drop_last()) + if t.last() != wildcard() { 1nat } else { 0nat }
    }
}

impl Cluster {
    /// How many template positions are still a literal token rather than a
    /// `<*>` wildcard; over `template.len()` it is the cluster's specificity.
    pub fn literal_positions(&self) -> (r: usize)
        ensures
            r == literal_count(self@.template),
    {
        let ghost t = self@.template;
        let mut n: usize = 0;
        let mut i: usize = 0;
        while i < self.template.len()
            invariant
                i <= self.template@.len(),
                t == strings(self.template@),
                n == literal_count(t.take(i as int)),
                n <= i,
            decreases self.template@.len() - i,
        {
            assert(t.take(i + 1).drop_last() == t.take(i as int));
            assert(t.take(i + 1).last() == self.template@[i as int]@);
            proof {
                reveal_strlit("<*>");
                assert("<*>"@ =~= wildcard());
            }
            if !str_eq(self.template[i].as_str(), "<*>") {
                n += 1;
            }
            i += 1;
        }
        assert(t.take(self.template@.len() as int) == t);
        n
    }
}

// ---------------------------------------------------------------------------
// Tokens
// ---------------------------------------------------------------------------

/// The tokens of a line: its maximal runs of characters other than
/// whitespace and the usual field separators `|`, `,`, `;`.
pub open spec fn tokens(s: Seq<char>) -> Seq<Seq<char>> {
    runs(s, split_p(0))
}

// ---------------------------------------------------------------------------
// Matching
// ---------------------------------------------------------------------------

/// How many positions of `tokens` the template agrees with: the same token,
/// or a wildcard.
pub open spec fn agreement(tokens: Seq<Seq<char>>, template: Seq<Seq<char>>) -> nat
    decreases tokens.len(),
{
    if tokens.len() == 0 {
        0
    } else {
        let j = tokens.len() - 1;
        agreement(tokens.drop_last(), template) + if j < template.len() && (tokens[j] == template[j] || template[j] == wildcard()) { 1nat } else { 0nat }
    }
}

/// A cluster a line of these tokens may join: the same token count, and at
/// least 40% of the positions agreeing.
pub open spec fn eligible(c: ClusterV, tokens: Seq<Seq<char>>) -> bool {
    c.template.len() == tokens.len() && 5 * agreement(tokens, c.template) >= 2 * tokens.len()
}

/// The eligible cluster from `i` on that agrees most, the earliest on a tie,
/// given the best so far.
pub open spec fn best_from(cs: Seq<ClusterV>, tokens: Seq<Seq<char>>, i: int, best: Option<int>) -> Option<int>
    decreases cs.len() - i,
{
    if i < 0 || i >= cs.len() {
        best
    } else {
        let better = eligible(cs[i], tokens) && match best {
            None => true,
            Some(b) => agreement(tokens, cs[i].template) > agreement(tokens, cs[b].template),
        };
        best_from(cs, tokens, i + 1, if better { Some(i) } else { best })
    }
}

/// The template with the positions where `tokens` disagrees made wildcards.
pub open spec fn generalise(template: Seq<Seq<char>>, tokens: Seq<Seq<char>>) -> Seq<Seq<char>> {
    Seq::new(template.len(), |j: int|
        if j < tokens.len() && template[j] != tokens[j] && template[j] != wildcard() { wildcard() } else { template[j] })
}

/// Cluster `c` after a line `raw` with these tokens joined it.
pub open spec fn joined_by(c: ClusterV, raw: Seq<char>, tokens: Seq<Seq<char>>) -> ClusterV {
    ClusterV {
        id: c.id,
        template: generalise(c.template, tokens),
        count: c.count + 1,
        samples: if c.samples.len() < 30 { c.samples.push(raw) } else { c.samples },
    }
}

/// The id of the `n`-th cluster: `C` and `n` in at least four digits.
pub open spec fn cluster_id(n: nat) -> Seq<char> {
    seq!['C'] + (if n < 10 { seq!['0', '0', '0'] } else if n < 100 { seq!['0', '0'] } else if n < 1000 { seq!['0'] } else { Seq::empty() }) + dec(n)
}


/// `a` ranks before `b`: more lines, or as many and a smaller id.
pub open spec fn ranks_before(a: ClusterV, b: ClusterV) -> bool {
    a.count > b.count || (a.count == b.count && text_lt(a.id, b.id))
}

/// Where `x` goes among the ranked `r`, searching from `i`: before the first
/// cluster it ranks before, after all others.
pub open spec fn rank_slot(r: Seq<ClusterV>, x: ClusterV, i: int) -> int
    decreases r.len() - i,
{
    if i < 0 || i >= r.len() {
        r.len() as int
    } else if ranks_before(x, r[i]) {
        i
    } else {
        rank_slot(r, x, i + 1)
    }
}

/// The clusters most frequent first, ties by id, in a stable order.
pub open spec fn ranked(cs: Seq<ClusterV>) -> Seq<ClusterV>
    decreases cs.len(),
{
    if cs.len() == 0 {
        Seq::empty()
    } else {
        let r = ranked(cs.drop_last());
        let k = rank_slot(r, cs.last(), 0);
        r.take(k) + seq![cs.last()] + r.skip(k)
    }
}

pub open spec fn cluster_views(v: Seq<Cluster>) -> Seq<ClusterV> {
    v.map_values(|c: Cluster| c@)
}

/// The clustering state.
pub ghost struct DrainV {
    pub max_clusters: nat,
    pub clusters: Seq<ClusterV>,
    pub next_id: nat,
    pub overflow: nat,
}

/// What one line does to the state, and the id it is assigned.
pub open spec fn drain_step(d: DrainV, raw: Seq<char>) -> (DrainV, Option<Seq<char>>) {
    let ts = tokens(raw);
    if ts.len() == 0 {
        (d, None)
    } else {
        match best_from(d.clusters, ts, 0, None) {
            Some(i) => (
                DrainV { clusters: d.clusters.update(i, joined_by(d.clusters[i], raw, ts)), ..d },
                Some(d.clusters[i].id),
            ),
            None => if d.clusters.len() >= d.max_clusters {
                (DrainV { overflow: d.overflow + 1, ..d }, None)
            } else {
                (
                    DrainV {
                        clusters: d.clusters.push(ClusterV { id: cluster_id(d.next_id), template: ts, count: 1, samples: seq![raw] }),
                        next_id: d.next_id + 1,
                        ..d
                    },
                    Some(cluster_id(d.next_id)),
                )
            },
        }
    }
}

/// The state every clustering keeps: a cap of at least one that the
/// clusters stay within, every cluster holding at least one line, a
/// non-empty template and at most 30 samples (never more than its lines),
/// and the next id one past the clusters made.
pub open spec fn drain_inv(d: DrainV) -> bool {
    &&& d.max_clusters >= 1
    &&& d.clusters.len() <= d.max_clusters
    &&& d.next_id == d.clusters.len() + 1
    &&& forall|i: int| 0 <= i < d.clusters.len() ==> {
        &&& (#[trigger] d.clusters[i]).count >= 1
        &&& d.clusters[i].template.len() > 0
        &&& d.clusters[i].samples.len() <= 30
        &&& d.clusters[i].samples.len() <= d.clusters[i].count
    }
}

/// Whether the counters of `d` can take one more line.
pub open spec fn has_room(d: DrainV) -> bool {
    &&& d.next_id < usize::MAX
    &&& d.overflow < usize::MAX
    &&& forall|i: int| 0 <= i < d.clusters.len() ==> (#[trigger] d.clusters[i]).count < usize::MAX
}

pub struct Drain {
    max_clusters: usize,
    clusters: Vec<Cluster>,
    next_id: usize,
    overflow: usize,
}

impl View for Drain {
    type V = DrainV;

    closed spec fn view(&self) -> DrainV {
        DrainV {
            max_clusters: self.max_clusters as nat,
            clusters: self.clusters@.map_values(|c: Cluster| c@),
            next_id: self.next_id as nat,
            overflow: self.overflow as nat,
        }
    }
}

/// A copy of the strings.
fn copy_strings(v: &Vec<String>) -> (r: Vec<String>)
    ensures
        strings(r@) == strings(v@),
{
    let mut out: Vec<String> = Vec::new();
    let mut i: usize = 0;
    while i < v.len()
        invariant
            i <= v@.len(),
            strings(out@) == strings(v@).take(i as int),
        decreases v@.len() - i,
    {
        let ghost before = strings(out@);
        out.push(v[i].clone());
        assert(strings(out@) =~= before.push(v@[i as int]@));
        assert(strings(v@).take(i + 1) =~= strings(v@).take(i as int).push(v@[i as int]@));
        i += 1;
    }
    assert(strings(v@).take(v@.len() as int) =~= strings(v@));
    out
}

/// A copy of the cluster.
fn copy_cluster(c: &Cluster) -> (r: Cluster)
    ensures
        r@ == c@,
{
    Cluster { id: c.id.clone(), template: copy_strings(&c.template), count: c.count, samples: copy_strings(&c.samples) }
}

/// `agreement(tokens, template)`.
fn agreement_exec(tokens: &Vec<String>, template: &Vec<String>) -> (r: usize)
    ensures
        r == agreement(strings(tokens@), strings(template@)),
        r <= tokens@.len(),
{
    let ghost ts = strings(tokens@);
    let ghost tp = strings(template@);
    let mut n: usize = 0;
    let mut j: usize = 0;
    while j < tokens.len()
        invariant
            j <= tokens@.len(),
            ts == strings(tokens@),
            tp == strings(template@),
            n == agreement(ts.take(j as int), tp),
            n <= j,
        decreases tokens@.len() - j,
    {
        proof {
            reveal_strlit("<*>");
            assert("<*>"@ =~= wildcard());
            assert(ts.take(j + 1).drop_last() == ts.take(j as int));
            assert(ts.take(j + 1)[j as int] == tokens@[j as int]@);
        }
        if j < template.len() {
            assert(tp[j as int] == template@[j as int]@);
            if str_eq(tokens[j].as_str(), template[j].as_str()) || str_eq(template[j].as_str(), "<*>") {
                n += 1;
            }
        }
        j += 1;
    }
    assert(ts.take(tokens@.len() as int) == ts);
    n
}

/// The template generalised against the tokens.
fn generalise_exec(template: &Vec<String>, tokens: &Vec<String>) -> (r: Vec<String>)
    ensures
        strings(r@) == generalise(strings(template@), strings(tokens@)),
{
    let ghost tp = strings(template@);
    let ghost ts = strings(tokens@);
    let mut out: Vec<String> = Vec::new();
    let mut j: usize = 0;
    while j < template.len()
        invariant
            j <= template@.len(),
            tp == strings(template@),
            ts == strings(tokens@),
            strings(out@) == generalise(tp, ts).take(j as int),
        decreases template@.len() - j,
    {
        proof {
            reveal_strlit("<*>");
        }
        let ghost before = strings(out@);
        let keep = j >= tokens.len() || str_eq(template[j].as_str(), tokens[j].as_str()) || str_eq(template[j].as_str(), "<*>");
        let slot = if keep { template[j].clone() } else { owned("<*>") };
        assert(slot@ == generalise(tp, ts)[j as int]);
        out.push(slot);
        assert(strings(out@) =~= before.push(slot@));
        assert(generalise(tp, ts).take(j + 1) =~= generalise(tp, ts).take(j as int).push(generalise(tp, ts)[j as int]));
        j += 1;
    }
    assert(generalise(tp, ts).take(template@.len() as int) =~= generalise(tp, ts));
    out
}

/// `cluster_id(n)`.
fn cluster_id_exec(n: usize) -> (r: String)
    ensures
        r@ == cluster_id(n as nat),
{
    let mut out = String::new();
    push_char(&mut out, 'C');
    if n < 10 {
        push_char(&mut out, '0');
        push_char(&mut out, '0');
        push_char(&mut out, '0');
    } else if n < 100 {
        push_char(&mut out, '0');
        push_char(&mut out, '0');
    } else if n < 1000 {
        push_char(&mut out, '0');
    }
    push_dec(&mut out, n as u64);
    out
}

/// `rank_slot(out, c, 0)`.
fn rank_position(out: &Vec<Cluster>, c: &Cluster) -> (k: usize)
    ensures
        k as int == rank_slot(cluster_views(out@), c@, 0),
        k <= out@.len(),
{
    let ghost r = cluster_views(out@);
    let cid = chars_of(c.id.as_str());
    let mut k: usize = 0;
    while k < out.len()
        invariant
            k <= out@.len(),
            r == cluster_views(out@),
            cid@ == c@.id,
            rank_slot(r, c@, 0) == rank_slot(r, c@, k as int),
        decreases out@.len() - k,
    {
        assert(r[k as int] == out@[k as int]@);
        let other = chars_of(out[k].id.as_str());
        if c.count > out[k].count || (c.count == out[k].count && text_less(cid.as_slice(), other.as_slice())) {
            return k;
        }
        k += 1;
    }
    k
}

impl Drain {
    /// A clusterer holding at most 1000 templates.
    pub fn new() -> (r: Self)
        ensures
            r@ == (DrainV { max_clusters: 1000, clusters: Seq::empty(), next_id: 1, overflow: 0 }),
            drain_inv(r@),
    {
        Drain::with_capacity(1000)
    }

    /// A clusterer holding at most `max_clusters` templates (at least one).
    pub fn with_capacity(max_clusters: usize) -> (r: Self)
        ensures
            r@ == (DrainV { max_clusters: if max_clusters >= 1 { max_clusters as nat } else { 1 }, clusters: Seq::empty(), next_id: 1, overflow: 0 }),
            drain_inv(r@),
    {
        let d = Drain { max_clusters: if max_clusters >= 1 { max_clusters } else { 1 }, clusters: Vec::new(), next_id: 1, overflow: 0 };
        assert(d@.clusters =~= Seq::<ClusterV>::empty());
        d
    }

    /// Lines dropped because the cluster cap was reached.
    pub fn overflow(&self) -> (r: usize)
        ensures
            r == self@.overflow,
    {
        self.overflow
    }

    pub fn len(&self) -> (r: usize)
        ensures
            r == self@.clusters.len(),
    {
        self.clusters.len()
    }

    pub fn is_empty(&self) -> (r: bool)
        ensures
            r == (self@.clusters.len() == 0),
    {
        self.clusters.len() == 0
    }

    /// The clusters, most frequent first; clusters with as many lines by id.
    pub fn ranked_clusters(&self) -> (r: Vec<Cluster>)
        ensures
            cluster_views(r@) == ranked(self@.clusters),
    {
        let ghost cs = self@.clusters;
        let mut out: Vec<Cluster> = Vec::new();
        let mut i: usize = 0;
        while i < self.clusters.len()
            invariant
                i <= self.clusters@.len(),
                cs == self@.clusters,
                cs.len() == self.clusters@.len(),
                cluster_views(out@) == ranked(cs.take(i as int)),
            decreases self.clusters@.len() - i,
        {
            let c = copy_cluster(&self.clusters[i]);
            assert(c@ == cs[i as int]);
            let ghost r = cluster_views(out@);
            assert(cs.take(i + 1).drop_last() == cs.take(i as int));
            assert(cs.take(i + 1).last() == cs[i as int]);
            let k = rank_position(&out, &c);
            out.insert(k, c);
            assert(cluster_views(out@) =~= r.take(k as int) + seq![cs[i as int]] + r.skip(k as int));
            i += 1;
        }
        assert(cs.take(self.clusters@.len() as int) == cs);
        out
    }

    /// Whether the counters can take one more line without overflowing.
    pub fn has_room(&self) -> (r: bool)
        ensures
            r == has_room(self@),
    {
        if self.next_id == usize::MAX || self.overflow == usize::MAX {
            return false;
        }
        let mut i: usize = 0;
        while i < self.clusters.len()
            invariant
                i <= self.clusters@.len(),
                forall|j: int| 0 <= j < i ==> (#[trigger] self@.clusters[j]).count < usize::MAX,
            decreases self.clusters@.len() - i,
        {
            if self.clusters[i].count == usize::MAX {
                assert(self@.clusters[i as int].count == usize::MAX);
                return false;
            }
            i += 1;
        }
        true
    }

    /// Assigns one raw line to a template and returns the cluster's id;
    /// `None` for a line with no tokens, and for one that would need a new
    /// cluster once the cap is reached.
    pub fn process(&mut self, raw: &str) -> (r: Option<String>)
        requires
            drain_inv(old(self)@),
            has_room(old(self)@),
        ensures
            drain_inv(final(self)@),
            final(self)@ == drain_step(old(self)@, raw@).0,
            match r {
                Some(id) => drain_step(old(self)@, raw@).1 == Some(id@),
                None => drain_step(old(self)@, raw@).1 is None,
            },
    {
        let ghost d = self@;
        let toks = split_tokens(raw, 0);
        let ghost ts = strings(toks@);
        if toks.len() == 0 {
            return None;
        }
        let mut best: Option<usize> = None;
        let mut best_score: usize = 0;
        let mut i: usize = 0;
        while i < self.clusters.len()
            invariant
                i <= self.clusters@.len(),
                self@ == d,
                ts == strings(toks@),
                toks@.len() > 0,
                best_from(d.clusters, ts, 0, None) == best_from(d.clusters, ts, i as int, match best {
                    Some(b) => Some(b as int),
                    None => None,
                }),
                best matches Some(b) ==> b < i && best_score == agreement(ts, d.clusters[b as int].template),
            decreases self.clusters@.len() - i,
        {
            assert(d.clusters[i as int] == self.clusters@[i as int]@);
            if self.clusters[i].template.len() == toks.len() {
                let score = agreement_exec(&toks, &self.clusters[i].template);
                if 5 * (score as u128) >= 2 * (toks.len() as u128) && (best.is_none() || score > best_score) {
                    best = Some(i);
                    best_score = score;
                }
            }
            i += 1;
        }
        match best {
            Some(b) => {
                let c = &self.clusters[b];
                assert(d.clusters[b as int] == c@);
                let template = generalise_exec(&c.template, &toks);
                let mut samples = copy_strings(&c.samples);
                if samples.len() < SAMPLES_PER_CLUSTER {
                    samples.push(owned(raw));
                    assert(strings(samples@) =~= c@.samples.push(raw@));
                }
                let id = c.id.clone();
                let joined = Cluster { id: c.id.clone(), template, count: c.count + 1, samples };
                assert(joined@ == joined_by(d.clusters[b as int], raw@, ts));
                self.clusters.set(b, joined);
                assert(self@.clusters =~= d.clusters.update(b as int, joined_by(d.clusters[b as int], raw@, ts)));
                Some(id)
            },
            None => {
                if self.clusters.len() >= self.max_clusters {
                    self.overflow = self.overflow + 1;
                    return None;
                }
                let id = cluster_id_exec(self.next_id);
                let fresh = Cluster { id: id.clone(), template: toks, count: 1, samples: vec![owned(raw)] };
                assert(fresh@.samples =~= seq![raw@]);
                self.clusters.push(fresh);
                self.next_id = self.next_id + 1;
                assert(self@.clusters =~= d.clusters.push(fresh@));
                Some(id)
            },
        }
    }
}

// ---------------------------------------------------------------------------
// Laws
// ---------------------------------------------------------------------------

/// Cluster `b` is the one a line of these tokens joins: eligible, agreeing
/// at least as much as any eligible cluster and more than any earlier one.
pub open spec fn best_cluster(cs: Seq<ClusterV>, ts: Seq<Seq<char>>, b: int) -> bool {
    &&& 0 <= b < cs.len()
    &&& eligible(cs[b], ts)
    &&& forall|j: int| 0 <= j < cs.len() && #[trigger] eligible(cs[j], ts) ==> {
        &&& agreement(ts, cs[j].template) <= agreement(ts, cs[b].template)
        &&& (j < b ==> agreement(ts, cs[j].template) < agreement(ts, cs[b].template))
    }
}

/// What the scan has established after looking at clusters `0..i`.
spec fn scanned(cs: Seq<ClusterV>, ts: Seq<Seq<char>>, i: int, best: Option<int>) -> bool {
    match best {
        None => forall|j: int| 0 <= j < i ==> !#[trigger] eligible(cs[j], ts),
        Some(b) => {
            &&& 0 <= b < i
            &&& eligible(cs[b], ts)
            &&& forall|j: int| 0 <= j < i && #[trigger] eligible(cs[j], ts) ==> {
                &&& agreement(ts, cs[j].template) <= agreement(ts, cs[b].template)
                &&& (j < b ==> agreement(ts, cs[j].template) < agreement(ts, cs[b].template))
            }
        },
    }
}

proof fn lemma_best_from(cs: Seq<ClusterV>, ts: Seq<Seq<char>>, i: int, best: Option<int>)
    requires
        0 <= i <= cs.len(),
        scanned(cs, ts, i, best),
    ensures
        match best_from(cs, ts, i, best) {
            None => forall|j: int| 0 <= j < cs.len() ==> !#[trigger] eligible(cs[j], ts),
            Some(b) => best_cluster(cs, ts, b),
        },
    decreases cs.len() - i,
{
    if i < cs.len() {
        let better = eligible(cs[i], ts) && match best {
            None => true,
            Some(b) => agreement(ts, cs[i].template) > agreement(ts, cs[b].template),
        };
        let next = if better { Some(i) } else { best };
        assert(scanned(cs, ts, i + 1, next));
        lemma_best_from(cs, ts, i + 1, next);
    }
}

/// The cluster a line joins is the only one that fits the description.
proof fn lemma_best_unique(cs: Seq<ClusterV>, ts: Seq<Seq<char>>, b: int)
    requires
        best_cluster(cs, ts, b),
    ensures
        best_from(cs, ts, 0, None) == Some(b),
{
    lemma_best_from(cs, ts, 0, None);
    match best_from(cs, ts, 0, None) {
        None => {
            assert(!eligible(cs[b], ts));
        },
        Some(c) => {
            assert(eligible(cs[c], ts) && eligible(cs[b], ts));
            if c < b {
                assert(agreement(ts, cs[c].template) < agreement(ts, cs[b].template));
            } else if b < c {
                assert(agreement(ts, cs[b].template) < agreement(ts, cs[c].template));
            }
        },
    }
}

proof fn lemma_agreement_bound(ts: Seq<Seq<char>>, tp: Seq<Seq<char>>)
    ensures
        agreement(ts, tp) <= ts.len(),
    decreases ts.len(),
{
    if ts.len() > 0 {
        lemma_agreement_bound(ts.drop_last(), tp);
    }
}

proof fn lemma_agreement_full(ts: Seq<Seq<char>>, tp: Seq<Seq<char>>)
    requires
        tp.len() >= ts.len(),
        forall|j: int| 0 <= j < ts.len() ==> ts[j] == tp[j] || tp[j] == wildcard(),
    ensures
        agreement(ts, tp) == ts.len(),
    decreases ts.len(),
{
    if ts.len() > 0 {
        lemma_agreement_full(ts.drop_last(), tp);
    }
}

/// A line met twice in a row joins the same cluster both times: once a
/// line has joined (or made) a cluster, its template agrees with the line
/// everywhere.
pub proof fn identical_lines_share_one_cluster(d: DrainV, raw: Seq<char>)
    requires
        drain_inv(d),
        drain_step(d, raw).1 is Some,
    ensures
        drain_step(drain_step(d, raw).0, raw).1 == drain_step(d, raw).1,
{
    let ts = tokens(raw);
    let cs = d.clusters;
    let d2 = drain_step(d, raw).0;
    let cs2 = d2.clusters;
    lemma_best_from(cs, ts, 0, None);
    match best_from(cs, ts, 0, None) {
        Some(i) => {
            let t2 = generalise(cs[i].template, ts);
            assert forall|j: int| 0 <= j < ts.len() implies ts[j] == t2[j] || t2[j] == wildcard() by {}
            lemma_agreement_full(ts, t2);
            assert(cs2[i].template == t2);
            assert forall|j: int| 0 <= j < cs2.len() && #[trigger] eligible(cs2[j], ts) implies {
                &&& agreement(ts, cs2[j].template) <= agreement(ts, cs2[i].template)
                &&& (j < i ==> agreement(ts, cs2[j].template) < agreement(ts, cs2[i].template))
            } by {
                lemma_agreement_bound(ts, cs2[j].template);
                if j != i {
                    assert(cs2[j] == cs[j]);
                    lemma_agreement_bound(ts, cs[i].template);
                }
            }
            lemma_best_unique(cs2, ts, i);
        },
        None => {
            let m = cs.len() as int;
            assert(cs2[m].template == ts);
            assert forall|j: int| 0 <= j < ts.len() implies ts[j] == ts[j] || ts[j] == wildcard() by {}
            lemma_agreement_full(ts, ts);
            assert forall|j: int| 0 <= j < cs2.len() && #[trigger] eligible(cs2[j], ts) implies {
                &&& agreement(ts, cs2[j].template) <= agreement(ts, cs2[m].template)
                &&& (j < m ==> agreement(ts, cs2[j].template) < agreement(ts, cs2[m].template))
            } by {
                if j < m {
                    assert(cs2[j] == cs[j]);
                }
            }
            lemma_best_unique(cs2, ts, m);
        },
    }
}

/// Whatever line comes, the clusters stay within the cap, each keeps at
/// least one line and at most 30 samples, and ids keep counting up.
pub proof fn every_step_keeps_the_cap(d: DrainV, raw: Seq<char>)
    requires
        drain_inv(d),
    ensures
        drain_inv(drain_step(d, raw).0),
{
    let ts = tokens(raw);
    if ts.len() > 0 {
        lemma_best_from(d.clusters, ts, 0, None);
    }
}

impl Default for Drain {
    fn default() -> (r: Self)
        ensures
            r@ == (DrainV { max_clusters: 1000, clusters: Seq::empty(), next_id: 1, overflow: 0 }),
    {
        Drain::new()
    }
}

} // verus!
