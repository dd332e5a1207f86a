//! The rules-based drafter: which lines of a pasted log are samples, when a
//! product is named, and the candidate pack drafted from them without a
//! model.
use vstd::prelude::*;
use crate::generator::assemble::{all_known, lemma_conventions_known, convention_entries, entries_of, push_convention_entries, MapChoice, MapV, PackDraft, DRAFT_PRIORITY, SAMPLE_NOTE};
use crate::generator::llm::{decoder_chain, derive_detectors, field_map, infer_decoders, shared_literals, statics, strings};
use crate::generator::names::{available_field_names, field_names};
use crate::generator::profile::{
    format_counts, format_counts_of, infer_products, product_hyps, vocab_of, wire_format, wire_format_of,
    ProductHypothesis, HypV, Vocabulary, hyp_views,
};
use crate::generator::rank::{strings_of, top};
use crate::generator::sampler::{diverse, diverse_samples};
use crate::generator::ocsf_paths::known_paths;
use crate::generator::repetition::{lines, line_ranges, trimmed_ranges};
use crate::text::{chars_of, dec, owned, push_dec, str_eq, string_range, trim};

verus! {

/// The samples in a pasted log: every line, trimmed, blank ones dropped.
pub open spec fn sample_lines(raw: Seq<char>) -> Seq<Seq<char>> {
    lines(raw).map_values(|l: Seq<char>| trim(l)).filter(|l: Seq<char>| l.len() > 0)
}

/// Every non-blank line of `raw_log`, trimmed; empty when there is nothing
/// to learn from.
pub fn draft_samples(raw_log: &str) -> (r: Vec<String>)
    ensures
        strings(r@) == sample_lines(raw_log@),
{
    let cs = chars_of(raw_log);
    let rs = line_ranges(&cs);
    let ghost ls = lines(cs@);
    let ts = trimmed_ranges(&cs, &rs, Ghost(ls));
    let ghost tl = ls.map_values(|l: Seq<char>| trim(l));
    let ghost keep = |l: Seq<char>| l.len() > 0;
    let mut out: Vec<String> = Vec::new();
    let mut k: usize = 0;
    while k < ts.len()
        invariant
            k <= ts@.len() == ls.len() == tl.len(),
            tl == ls.map_values(|l: Seq<char>| trim(l)),
            keep == (|l: Seq<char>| l.len() > 0),
            forall|j: int| 0 <= j < ts@.len() ==> {
                &&& (#[trigger] ts@[j]).0 <= ts@[j].1 <= cs@.len()
                &&& cs@.subrange(ts@[j].0 as int, ts@[j].1 as int) == trim(ls[j])
            },
            strings(out@) == tl.take(k as int).filter(keep),
        decreases ts@.len() - k,
    {
        let (a, b) = ts[k];
        let ghost before = strings(out@);
        proof {
            assert(tl.take(k + 1) == tl.take(k as int) + seq![tl[k as int]]);
            Seq::filter_distributes_over_add(tl.take(k as int), seq![tl[k as int]], keep);
            reveal_with_fuel(Seq::filter, 2);
            assert(tl[k as int] == cs@.subrange(a as int, b as int));
        }
        if b > a {
            out.push(string_range(&cs, a, b));
            assert(strings(out@) == before.push(tl[k as int]));
        }
        k += 1;
    }
    assert(tl.take(ts@.len() as int) == tl);
    out
}

/// The first-ranked hypothesis is trusted to name the product only at 90%
/// confidence or more.
pub const NAMING_PERMILLE: u32 = 900;

/// The vendor and product a draft claims: those of the leading hypothesis
/// when it is confident enough, `Unknown` otherwise.
pub open spec fn claimed_identity(hyps: Seq<HypV>) -> (Seq<char>, Seq<char>) {
    if hyps.len() > 0 && hyps[0].confidence >= NAMING_PERMILLE {
        (hyps[0].vendor, hyps[0].product)
    } else {
        ("Unknown"@, "Unknown"@)
    }
}

pub fn draft_identity(hyps: &[ProductHypothesis]) -> (r: (String, String))
    ensures
        (r.0@, r.1@) == claimed_identity(hyp_views(hyps@)),
{
    if hyps.len() > 0 && hyps[0].confidence_permille >= NAMING_PERMILLE {
        (hyps[0].vendor.clone(), hyps[0].product.clone())
    } else {
        (owned("Unknown"), owned("Unknown"))
    }
}

/// At most this many records are profiled.
pub const PROFILE_LIMIT: usize = 100;

/// The records a profile reads: the first [`PROFILE_LIMIT`].
pub open spec fn capped(ss: Seq<Seq<char>>) -> Seq<Seq<char>> {
    if ss.len() <= PROFILE_LIMIT { ss } else { ss.take(PROFILE_LIMIT as int) }
}

/// The wire format of `ss`: delimited when the decoder chain reads CSV.
pub open spec fn profile_wire(ss: Seq<Seq<char>>) -> Seq<char> {
    wire_format_of(format_counts_of(ss), decoder_chain(ss).contains("csv"@))
}

/// The vendor and product a draft of `ss` names.
pub open spec fn profile_identity(ss: Seq<Seq<char>>) -> (Seq<char>, Seq<char>) {
    let p = capped(ss);
    claimed_identity(product_hyps(vocab_of(p, field_names(p)), profile_wire(p)))
}

/// The mapping of a rules-based draft: activity Unknown (0), severity
/// Informational (1), the convention mapping, then the class.
pub open spec fn heuristic_map(ss: Seq<Seq<char>>, class_uid: int) -> Seq<(Seq<char>, MapV)> {
    seq![("activity_id"@, MapV::Literal(0)), ("severity_id"@, MapV::Literal(1))]
        + convention_entries(field_map(field_names(ss)))
        + seq![("class_uid"@, MapV::Literal(class_uid))]
}

/// `p` is the rules-based draft of the samples `ss` under class `class_uid`.
pub open spec fn heuristic_draft(p: PackDraft, ss: Seq<Seq<char>>, class_uid: int, created_nanos: nat) -> bool {
    &&& p.id@ == "draft-heuristic"@
    &&& (p.vendor@, p.product@) == profile_identity(ss)
    &&& p.log_format@ == profile_wire(capped(ss))
    &&& top(true, strings_of(p.detect@), shared_literals(ss), 3)
    &&& statics(p.decoders@) == decoder_chain(ss)
    &&& !p.decoders_optional
    &&& entries_of(p.map@) == heuristic_map(ss, class_uid)
    &&& strings(p.fixtures@) == diverse(ss, 3).map_values(|i: int| ss[i])
    &&& p.fixture_expect@.len() == 0
    &&& p.fixture_note@ == SAMPLE_NOTE@
    &&& p.priority == DRAFT_PRIORITY
    &&& p.author@ == "generated"@
    &&& p.created@ == dec(created_nanos)
    &&& p.approved_by is None
    &&& p.cluster_id is None
    &&& p.model@ == "heuristic-v1"@
}

/// Why no draft was made.
#[derive(Debug, Clone, Copy, PartialEq, Eq)]
pub enum DraftError {
    /// The log held no non-blank line.
    NoLines,
}

impl DraftError {
    /// What the error says.
    pub fn message(&self) -> (r: &'static str)
        ensures
            match self {
                DraftError::NoLines => r@ == "no log lines to learn from"@,
            },
    {
        proof {
            reveal_strlit("no log lines to learn from");
        }
        match self {
            DraftError::NoLines => "no log lines to learn from",
        }
    }
}

/// The first [`PROFILE_LIMIT`] of `samples`.
fn first_records(samples: &Vec<String>) -> (r: Vec<String>)
    ensures
        strings(r@) == capped(strings(samples@)),
{
    let ghost ss = strings(samples@);
    let n = if samples.len() <= PROFILE_LIMIT { samples.len() } else { PROFILE_LIMIT };
    let mut out: Vec<String> = Vec::new();
    let mut i: usize = 0;
    while i < n
        invariant
            i <= n <= samples@.len(),
            n == if ss.len() <= PROFILE_LIMIT { ss.len() } else { PROFILE_LIMIT as nat },
            ss == strings(samples@),
            strings(out@) == ss.take(i as int),
        decreases n - i,
    {
        out.push(owned(samples[i].as_str()));
        assert(ss.take(i + 1) == ss.take(i as int).push(ss[i as int]));
        i += 1;
    }
    assert(ss.take(ss.len() as int) == ss);
    out
}

/// Whether the chain holds the CSV decoder.
fn reads_csv(chain: &Vec<&'static str>) -> (r: bool)
    ensures
        r == statics(chain@).contains("csv"@),
{
    let ghost cs = statics(chain@);
    let mut i: usize = 0;
    while i < chain.len()
        invariant
            i <= chain@.len(),
            cs == statics(chain@),
            forall|j: int| 0 <= j < i ==> cs[j] != "csv"@,
        decreases chain@.len() - i,
    {
        if str_eq(chain[i], "csv") {
            assert(cs[i as int] == "csv"@);
            return true;
        }
        i += 1;
    }
    false
}

/// The wire format of `samples`, as [`profile_wire`] says.
pub fn sample_wire_format(samples: &[String]) -> (r: String)
    ensures
        r@ == profile_wire(strings(samples@)),
{
    let chain = infer_decoders(samples);
    let delimited = reads_csv(&chain);
    let counts = format_counts(samples);
    wire_format(&counts, delimited)
}

/// A candidate pack drafted from the non-blank lines of `raw_log` without a
/// model: detectors, decoder chain and convention mapping from the samples,
/// the identity only where a signature is confident, the three most
/// different samples as fixtures. `class_uid` is the class the caller
/// settled on for the mapped attributes, `created_nanos` the time of the
/// draft in nanoseconds since the Unix epoch. No lines, no draft.
pub fn draft_pack(raw_log: &str, class_uid: i64, created_nanos: u64) -> (r: Result<PackDraft, DraftError>)
    ensures
        r is Err <==> sample_lines(raw_log@).len() == 0,
        r matches Ok(p) ==> heuristic_draft(p, sample_lines(raw_log@), class_uid as int, created_nanos as nat),
{
    let samples = draft_samples(raw_log);
    let ghost ss = strings(samples@);
    if samples.len() == 0 {
        return Err(DraftError::NoLines);
    }
    let first = first_records(&samples);
    let wire = sample_wire_format(first.as_slice());
    let extracted = available_field_names(first.as_slice());
    let vocabulary = Vocabulary::new(first.as_slice(), extracted.as_slice());
    let hypotheses = infer_products(&vocabulary, wire.as_str());
    let (vendor, product) = draft_identity(hypotheses.as_slice());

    let detect = derive_detectors(samples.as_slice());
    let decoders = infer_decoders(samples.as_slice());

    let mut map: Vec<(String, MapChoice)> = Vec::new();
    map.push((owned("activity_id"), MapChoice::Literal(0)));
    map.push((owned("severity_id"), MapChoice::Literal(1)));
    let ghost head = entries_of(map@);
    push_convention_entries(&mut map, samples.as_slice());
    let ghost middle = entries_of(map@);
    map.push((owned("class_uid"), MapChoice::Literal(class_uid)));
    assert(entries_of(map@) =~= middle.push(("class_uid"@, MapV::Literal(class_uid as int))));
    assert(head =~= seq![("activity_id"@, MapV::Literal(0)), ("severity_id"@, MapV::Literal(1))]);

    let fixtures = diverse_samples(samples.as_slice(), 3);
    let mut created = String::new();
    push_dec(&mut created, created_nanos);
    assert(created@ =~= dec(created_nanos as nat));
    proof {
        reveal_strlit("generated");
        reveal_strlit("heuristic-v1");
        reveal_strlit("draft-heuristic");
    }
    let p = PackDraft {
        id: owned("draft-heuristic"),
        vendor,
        product,
        log_format: wire,
        detect,
        decoders,
        decoders_optional: false,
        map,
        fixtures,
        fixture_expect: Vec::new(),
        fixture_note: owned(SAMPLE_NOTE),
        priority: DRAFT_PRIORITY,
        author: owned("generated"),
        created,
        approved_by: None,
        cluster_id: None,
        model: owned("heuristic-v1"),
    };
    assert(entries_of(p.map@) =~= heuristic_map(ss, class_uid as int));
    Ok(p)
}

/// Every attribute a rules-based draft maps is a known OCSF path, whatever
/// the samples hold.
pub proof fn drafted_paths_are_known(ss: Seq<Seq<char>>, class_uid: int)
    ensures
        all_known(heuristic_map(ss, class_uid)),
{
    let head = seq![("activity_id"@, MapV::Literal(0)), ("severity_id"@, MapV::Literal(1))];
    assert(known_paths()[1] == head[0].0 && known_paths()[2] == head[1].0);
    assert(all_known(head));
    lemma_conventions_known(head, ss);
    let mid = head + convention_entries(field_map(field_names(ss)));
    let e = mid + seq![("class_uid"@, MapV::Literal(class_uid))];
    assert(known_paths()[0] == "class_uid"@);
    assert forall|k: int| 0 <= k < e.len() implies known_paths().contains((#[trigger] e[k]).0) by {
        if k < mid.len() {
            assert(e[k] == mid[k]);
        } else {
            assert(e[k].0 == known_paths()[0]);
        }
    }
}

} // verus!
