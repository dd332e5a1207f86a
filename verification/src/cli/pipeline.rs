//! Counters for one run of the pipeline.
use vstd::prelude::*;
use crate::base::Disposition;
use crate::text::{chars_of, owned, str_eq};
use crate::decode::salvage::{Salvaged, text_lt, text_less, lemma_text_lt_irrefl, lemma_text_lt_trans, lemma_text_lt_total};

verus! {

/// Counters for one run, reported at the end.
#[derive(Debug, Clone)]
pub struct Stats {
    pub received: u64,
    pub parsed: u64,
    pub unidentified: u64,
    pub extract_failed: u64,
    pub normalize_failed: u64,
    pub bytes_in: u64,
    /// Records no pack claimed that still carry at least one indicator or
    /// named field; reported apart from `parsed` so coverage is not inflated.
    pub searchable_unidentified: u64,
    /// Events claimed, by pack id: one entry per pack, in ascending id order.
    pub by_pack: Vec<(String, u64)>,
}

pub open spec fn by_pack_view(v: Seq<(String, u64)>) -> Seq<(Seq<char>, u64)> {
    v.map_values(|e: (String, u64)| (e.0@, e.1))
}

/// The count `m` holds for `pack`, zero when it has no entry.
pub open spec fn count_of(m: Seq<(Seq<char>, u64)>, pack: Seq<char>) -> int {
    if exists|i: int| #[trigger] key_at(m, pack, i) {
        m[choose|i: int| #[trigger] key_at(m, pack, i)].1 as int
    } else {
        0
    }
}

/// Entry `i` of `m` is the one for `pack`.
pub open spec fn key_at(m: Seq<(Seq<char>, u64)>, pack: Seq<char>, i: int) -> bool {
    0 <= i < m.len() && m[i].0 == pack
}

/// Entries in strictly ascending pack id order, so each id occurs once.
pub open spec fn ascending(m: Seq<(Seq<char>, u64)>) -> bool {
    forall|i: int, j: int| 0 <= i < j < m.len() ==> text_lt((#[trigger] m[i]).0, (#[trigger] m[j]).0)
}

proof fn lemma_count_at(m: Seq<(Seq<char>, u64)>, n: int)
    requires
        ascending(m),
        0 <= n < m.len(),
    ensures
        count_of(m, m[n].0) == m[n].1,
{
    let pack = m[n].0;
    assert(key_at(m, pack, n));
    let c = choose|i: int| #[trigger] key_at(m, pack, i);
    if c != n {
        if c < n {
            assert(text_lt(m[c].0, m[n].0));
        } else {
            assert(text_lt(m[n].0, m[c].0));
        }
        lemma_text_lt_irrefl(pack);
    }

}

/// The events counted over all packs.
pub open spec fn count_sum(m: Seq<(Seq<char>, u64)>) -> int
    decreases m.len(),
{
    if m.len() == 0 { 0 } else { count_sum(m.drop_last()) + m.last().1 }
}

proof fn lemma_sum_update(m: Seq<(Seq<char>, u64)>, i: int, v: (Seq<char>, u64))
    requires
        0 <= i < m.len(),
    ensures
        count_sum(m.update(i, v)) == count_sum(m) - m[i].1 + v.1,
    decreases m.len(),
{
    let u = m.update(i, v);
    if i == m.len() - 1 {
        assert(u.drop_last() =~= m.drop_last());
    } else {
        assert(u.drop_last() =~= m.drop_last().update(i, v));
        lemma_sum_update(m.drop_last(), i, v);
    }
}

proof fn lemma_sum_insert(m: Seq<(Seq<char>, u64)>, i: int, v: (Seq<char>, u64))
    requires
        0 <= i <= m.len(),
    ensures
        count_sum(m.insert(i, v)) == count_sum(m) + v.1,
    decreases m.len(),
{
    let u = m.insert(i, v);
    if i == m.len() {
        assert(u.drop_last() =~= m);
    } else {
        assert(u.drop_last() =~= m.drop_last().insert(i, v));
        lemma_sum_insert(m.drop_last(), i, v);
    }
}

/// The position of the first entry of `v` whose id is not below `id`.
fn lower_bound(v: &Vec<(String, u64)>, id: &[char]) -> (r: usize)
    ensures
        r <= v@.len(),
        forall|j: int| 0 <= j < r ==> text_lt((#[trigger] by_pack_view(v@)[j]).0, id@),
        r < v@.len() ==> !text_lt(by_pack_view(v@)[r as int].0, id@),
{
    let mut i: usize = 0;
    while i < v.len()
        invariant
            i <= v@.len(),
            forall|j: int| 0 <= j < i ==> text_lt((#[trigger] by_pack_view(v@)[j]).0, id@),
        decreases v@.len() - i,
    {
        let key = chars_of(v[i].0.as_str());
        if !text_less(&key, id) {
            return i;
        }
        i += 1;
    }
    i
}

impl Stats {
    pub fn new() -> (r: Self)
        ensures
            r.received == 0 && r.parsed == 0 && r.unidentified == 0 && r.extract_failed == 0,
            r.normalize_failed == 0 && r.bytes_in == 0 && r.searchable_unidentified == 0,
            r.by_pack@.len() == 0,
    {
        Stats {
            received: 0,
            parsed: 0,
            unidentified: 0,
            extract_failed: 0,
            normalize_failed: 0,
            bytes_in: 0,
            searchable_unidentified: 0,
            by_pack: Vec::new(),
        }
    }

    /// Count one disposition.
    pub fn record(&mut self, disposition: &Disposition)
        requires
            old(self).parsed < u64::MAX,
            old(self).unidentified < u64::MAX,
            old(self).extract_failed < u64::MAX,
            old(self).normalize_failed < u64::MAX,
            forall|i: int| 0 <= i < old(self).by_pack@.len() ==> (#[trigger] old(self).by_pack@[i]).1 < u64::MAX,
            ascending(by_pack_view(old(self).by_pack@)),
        ensures
            ascending(by_pack_view(final(self).by_pack@)),
            count_sum(by_pack_view(final(self).by_pack@)) == count_sum(by_pack_view(old(self).by_pack@))
                + if disposition is Parsed { 1int } else { 0int },
            count_sum(by_pack_view(old(self).by_pack@)) == old(self).parsed ==> count_sum(by_pack_view(final(self).by_pack@)) == final(self).parsed,
            final(self).received == old(self).received,
            final(self).bytes_in == old(self).bytes_in,
            final(self).searchable_unidentified == old(self).searchable_unidentified,
            match *disposition {
                Disposition::Parsed { pack_id } => {
                    &&& final(self).parsed == old(self).parsed + 1
                    &&& forall|k: Seq<char>| #[trigger] count_of(by_pack_view(final(self).by_pack@), k)
                        == count_of(by_pack_view(old(self).by_pack@), k) + if k == pack_id@ { 1int } else { 0int }
                    &&& final(self).unidentified == old(self).unidentified
                    &&& final(self).extract_failed == old(self).extract_failed
                    &&& final(self).normalize_failed == old(self).normalize_failed
                },
                Disposition::Unidentified => {
                    &&& final(self).unidentified == old(self).unidentified + 1
                    &&& final(self).parsed == old(self).parsed
                    &&& final(self).extract_failed == old(self).extract_failed
                    &&& final(self).normalize_failed == old(self).normalize_failed
                    &&& final(self).by_pack@ == old(self).by_pack@
                },
                Disposition::ExtractFailed { .. } => {
                    &&& final(self).extract_failed == old(self).extract_failed + 1
                    &&& final(self).parsed == old(self).parsed
                    &&& final(self).unidentified == old(self).unidentified
                    &&& final(self).normalize_failed == old(self).normalize_failed
                    &&& final(self).by_pack@ == old(self).by_pack@
                },
                Disposition::NormalizeFailed { .. } => {
                    &&& final(self).normalize_failed == old(self).normalize_failed + 1
                    &&& final(self).parsed == old(self).parsed
                    &&& final(self).unidentified == old(self).unidentified
                    &&& final(self).extract_failed == old(self).extract_failed
                    &&& final(self).by_pack@ == old(self).by_pack@
                },
            },
    {
        match disposition {
            Disposition::Parsed { pack_id } => {
                self.parsed += 1;
                let ghost m = by_pack_view(self.by_pack@);
                let ghost pack = pack_id@;
                let id = chars_of(pack_id.as_str());
                let i = lower_bound(&self.by_pack, &id);
                let hit = i < self.by_pack.len() && str_eq(self.by_pack[i].0.as_str(), pack_id.as_str());
                if hit {
                    let n = self.by_pack[i].1;
                    self.by_pack.set(i, (owned(pack_id.as_str()), n + 1));
                    let ghost m2 = by_pack_view(self.by_pack@);
                    proof {
                        assert(m2 =~= m.update(i as int, (pack, (m[i as int].1 + 1) as u64)));
                        lemma_sum_update(m, i as int, (pack, (m[i as int].1 + 1) as u64));
                        assert forall|a: int, b: int| 0 <= a < b < m2.len() implies text_lt((#[trigger] m2[a]).0, (#[trigger] m2[b]).0) by {
                            assert(m2[a].0 == m[a].0 && m2[b].0 == m[b].0);
                        }
                        assert forall|k: Seq<char>| #[trigger] count_of(m2, k) == count_of(m, k) + if k == pack { 1int } else { 0int } by {
                            if k == pack {
                                lemma_count_at(m2, i as int);
                                lemma_count_at(m, i as int);
                            } else if exists|j: int| #[trigger] key_at(m, k, j) {
                                let j = choose|j: int| #[trigger] key_at(m, k, j);
                                lemma_count_at(m, j);
                                lemma_count_at(m2, j);
                            } else {
                                assert forall|j: int| !(#[trigger] key_at(m2, k, j)) by {
                                    if 0 <= j < m2.len() {
                                        assert(m2[j].0 == m[j].0);
                                        assert(!key_at(m, k, j));
                                    }
                                }
                            }
                        }
                    }
                } else {
                    self.by_pack.insert(i, (owned(pack_id.as_str()), 1));
                    let ghost m2 = by_pack_view(self.by_pack@);
                    proof {
                        assert(m2 =~= m.insert(i as int, (pack, 1u64)));
                        lemma_sum_insert(m, i as int, (pack, 1u64));
                        if i < m.len() {
                            lemma_text_lt_total(m[i as int].0, pack);
                        }
                        assert forall|a: int, b: int| 0 <= a < b < m2.len() implies text_lt((#[trigger] m2[a]).0, (#[trigger] m2[b]).0) by {
                            if b < i {
                            } else if a < i && b == i {
                            } else if a < i {
                                assert(m2[b] == m[b - 1]);
                            } else if a == i {
                                assert(m2[b] == m[b - 1]);
                                if b - 1 > i {
                                    lemma_text_lt_trans(pack, m[i as int].0, m[b - 1].0);
                                }
                            } else {
                                assert(m2[a] == m[a - 1] && m2[b] == m[b - 1]);
                            }
                        }
                        assert forall|j: int| 0 <= j < m.len() implies (#[trigger] m[j]).0 != pack by {
                            lemma_text_lt_irrefl(pack);
                            if j > i {
                                lemma_text_lt_trans(pack, m[i as int].0, m[j].0);
                            }
                        }
                        assert forall|k: Seq<char>| #[trigger] count_of(m2, k) == count_of(m, k) + if k == pack { 1int } else { 0int } by {
                            if k == pack {
                                lemma_count_at(m2, i as int);
                            } else if exists|j: int| #[trigger] key_at(m, k, j) {
                                let j = choose|j: int| #[trigger] key_at(m, k, j);
                                lemma_count_at(m, j);
                                if j < i {
                                    lemma_count_at(m2, j);
                                } else {
                                    assert(m2[j + 1] == m[j]);
                                    lemma_count_at(m2, j + 1);
                                }
                            } else {
                                assert forall|j: int| !(#[trigger] key_at(m2, k, j)) by {
                                    if 0 <= j < i {
                                        assert(m2[j] == m[j]);
                                        assert(!key_at(m, k, j));
                                    } else if i < j < m2.len() {
                                        assert(m2[j] == m[j - 1]);
                                        assert(!key_at(m, k, j - 1));
                                    }
                                }
                            }
                        }
                    }
                }
            },
            Disposition::Unidentified => {
                self.unidentified += 1;
            },
            Disposition::ExtractFailed { .. } => {
                self.extract_failed += 1;
            },
            Disposition::NormalizeFailed { .. } => {
                self.normalize_failed += 1;
            },
        }
    }
}

/// Why an event failed, when it did.
pub fn failure_reason(d: &Disposition) -> (r: Option<&str>)
    ensures
        match *d {
            Disposition::Parsed { .. } => r is None,
            Disposition::Unidentified => r matches Some(s) && s@ == "no pack detector matched"@,
            Disposition::ExtractFailed { reason, .. } => r matches Some(s) && s@ == reason@,
            Disposition::NormalizeFailed { reason, .. } => r matches Some(s) && s@ == reason@,
        },
{
    match d {
        Disposition::Parsed { .. } => None,
        Disposition::Unidentified => Some("no pack detector matched"),
        Disposition::ExtractFailed { reason, .. } => Some(reason.as_str()),
        Disposition::NormalizeFailed { reason, .. } => Some(reason.as_str()),
    }
}


/// The OCSF `severity_id` levels a collected event can carry, least severe
/// first.
#[derive(Debug, Clone, Copy, PartialEq, Eq, Structural)]
pub enum Severity {
    Informational,
    Low,
    Medium,
    High,
    Critical,
    Fatal,
}

/// The OCSF `severity_id` of each level.
pub open spec fn severity_id(s: Severity) -> int {
    match s {
        Severity::Informational => 1,
        Severity::Low => 2,
        Severity::Medium => 3,
        Severity::High => 4,
        Severity::Critical => 5,
        Severity::Fatal => 6,
    }
}

/// RFC 5424 severity codes (0 Emergency ... 7 Debug) on the OCSF scale.
/// Alert and Critical both become Critical; Informational and Debug, and any
/// code past Debug, become Informational.
pub open spec fn ocsf_severity(code: u8) -> Severity {
    if code == 0 {
        Severity::Fatal
    } else if code <= 2 {
        Severity::Critical
    } else if code == 3 {
        Severity::High
    } else if code == 4 {
        Severity::Medium
    } else if code == 5 {
        Severity::Low
    } else {
        Severity::Informational
    }
}

/// A syslog severity code as an OCSF severity.
pub fn syslog_severity_to_ocsf(code: u8) -> (r: Severity)
    ensures
        r == ocsf_severity(code),
{
    match code {
        0 => Severity::Fatal,
        1 | 2 => Severity::Critical,
        3 => Severity::High,
        4 => Severity::Medium,
        5 => Severity::Low,
        _ => Severity::Informational,
    }
}

/// The mapping keeps the order of the two scales: a more severe syslog code
/// (a smaller number) never lands on a less severe OCSF level.
pub proof fn severity_order_is_kept(a: u8, b: u8)
    requires
        a <= b,
    ensures
        severity_id(ocsf_severity(a)) >= severity_id(ocsf_severity(b)),
{
}

/// The salvaged indicators an event does not already name, in the order
/// salvage found them; `existing` holds the event's observables as
/// `(type_id, value)`.
pub open spec fn fresh_observables(existing: Seq<(u64, Seq<char>)>, found: Seq<(u8, Seq<char>)>) -> Seq<(u8, Seq<char>)> {
    found.filter(|o: (u8, Seq<char>)| !existing.contains((o.0 as u64, o.1)))
}

pub open spec fn existing_view(v: Seq<(u64, String)>) -> Seq<(u64, Seq<char>)> {
    v.map_values(|e: (u64, String)| (e.0, e.1@))
}

fn names(existing: &[(u64, String)], type_id: u8, value: &str) -> (r: bool)
    ensures
        r == existing_view(existing@).contains((type_id as u64, value@)),
{
    let ghost ev = existing_view(existing@);
    let mut i: usize = 0;
    while i < existing.len()
        invariant
            i <= existing@.len(),
            ev == existing_view(existing@),
            forall|j: int| 0 <= j < i ==> ev[j] != (type_id as u64, value@),
        decreases existing@.len() - i,
    {
        if existing[i].0 == type_id as u64 && str_eq(existing[i].1.as_str(), value) {
            assert(ev[i as int] == (type_id as u64, value@));
            return true;
        }
        i += 1;
    }
    false
}

/// What salvage adds to an event: the indicators found in its raw text that
/// the event does not already carry, so a pack's own mapping is never
/// repeated.
pub fn new_observables(existing: &[(u64, String)], found: Vec<Salvaged>) -> (r: Vec<Salvaged>)
    ensures
        r@.map_values(|x: Salvaged| x@) == fresh_observables(existing_view(existing@), found@.map_values(|x: Salvaged| x@)),
{
    let ghost fv = found@.map_values(|x: Salvaged| x@);
    let ghost ev = existing_view(existing@);
    let ghost pred = |o: (u8, Seq<char>)| !ev.contains((o.0 as u64, o.1));
    let mut out: Vec<Salvaged> = Vec::new();
    let mut i: usize = 0;
    while i < found.len()
        invariant
            i <= found@.len(),
            fv == found@.map_values(|x: Salvaged| x@),
            ev == existing_view(existing@),
            pred == (|o: (u8, Seq<char>)| !ev.contains((o.0 as u64, o.1))),
            out@.map_values(|x: Salvaged| x@) == fv.take(i as int).filter(pred),
        decreases found@.len() - i,
    {
        let item = &found[i];
        let ghost before = out@;
        assert(fv.take(i + 1) == fv.take(i as int) + seq![fv[i as int]]);
        proof {
            Seq::filter_distributes_over_add(fv.take(i as int), seq![fv[i as int]], pred);
            reveal_with_fuel(Seq::filter, 2);
        }
        if !names(existing, item.type_id, item.value.as_str()) {
            out.push(Salvaged { type_id: item.type_id, value: item.value.clone() });
            assert(out@.map_values(|x: Salvaged| x@) == before.map_values(|x: Salvaged| x@).push(fv[i as int]));
        } else {
            assert(out@ == before);
        }
        i += 1;
    }
    assert(fv.take(found@.len() as int) == fv);
    out
}

} // verus!
