//! Turning a model's answer into a candidate pack. What the model says is
//! checked before it is used: detectors, the decoder chain and the
//! convention mapping come from the samples; a mapping the model suggests is
//! kept only for an allowed attribute not mapped yet, with a source name
//! that is not blank and does occur as a field of the samples.
use vstd::prelude::*;
use crate::cli::generator::casts_to_int;
use crate::generator::llm::{
    allowed_field_list, allowed_fields, blank_to_unknown, decoder_chain, derive_detectors,
    field_map, field_name_ok, infer_decoders, infer_field_map, looks_like_a_field_name,
    pair_strings, shared_literals, statics, strings,
};
use crate::generator::names::{available_field_names, field_names};
use crate::generator::ocsf_paths::{known_paths, mapped_paths_are_known};
use crate::generator::rank::{strings_of, top};
use crate::text::{chars_of, dec, is_suffix, owned, push_dec, push_str, str_eq, trim, trim_range};

verus! {

/// The decision the model is asked to fill in: vendor, product, a label for
/// the format, and OCSF attribute -> source field name suggestions.
#[derive(Debug, Clone)]
pub struct DraftSpec {
    pub vendor: String,
    pub product: String,
    pub log_format: String,
    pub fields: Vec<(String, String)>,
}

/// How one OCSF attribute is filled: a constant, or a source field (cast to
/// an integer or not).
#[derive(Debug, Clone)]
pub enum MapChoice {
    Literal(i64),
    Field { from: String, cast_int: bool },
}

pub ghost enum MapV {
    Literal(int),
    Field(Seq<char>, bool),
}

pub open spec fn map_view(c: MapChoice) -> MapV {
    match c {
        MapChoice::Literal(n) => MapV::Literal(n as int),
        MapChoice::Field { from, cast_int } => MapV::Field(from@, cast_int),
    }
}

pub open spec fn entries_of(v: Seq<(String, MapChoice)>) -> Seq<(Seq<char>, MapV)> {
    v.map_values(|e: (String, MapChoice)| (e.0@, map_view(e.1)))
}

pub open spec fn expect_view(v: Seq<(String, i64)>) -> Seq<(Seq<char>, i64)> {
    v.map_values(|e: (String, i64)| (e.0@, e.1))
}

pub open spec fn keys_of(e: Seq<(Seq<char>, MapV)>) -> Seq<Seq<char>> {
    e.map_values(|x: (Seq<char>, MapV)| x.0)
}

/// A drafted candidate pack: identity, detectors, decoder chain, attribute
/// mapping (in the order the entries were decided), fixtures and
/// provenance.
#[derive(Debug, Clone)]
pub struct PackDraft {
    pub id: String,
    pub vendor: String,
    pub product: String,
    pub log_format: String,
    pub detect: Vec<String>,
    pub decoders: Vec<&'static str>,
    /// Whether a decoder step that does not fit may be skipped.
    pub decoders_optional: bool,
    pub map: Vec<(String, MapChoice)>,
    /// The raw records the candidate is tested against.
    pub fixtures: Vec<String>,
    /// The attribute values every fixture is expected to produce.
    pub fixture_expect: Vec<(String, i64)>,
    /// The note every fixture carries for whoever approves the pack.
    pub fixture_note: String,
    pub priority: u32,
    pub author: String,
    /// When the draft was made, in nanoseconds since the Unix epoch, as
    /// decimal text.
    pub created: String,
    pub approved_by: Option<String>,
    pub cluster_id: Option<String>,
    pub model: String,
}

/// A candidate's priority: below every approved pack.
pub const DRAFT_PRIORITY: u32 = 1000;

/// The note on a fixture drafted from a representative sample.
pub const SAMPLE_NOTE: &'static str = "Representative sample; confirm mappings before approval.";

/// `Unknown` for a blank answer.
pub open spec fn unknown_if_blank(s: Seq<char>) -> Seq<char> {
    if trim(s).len() == 0 { "Unknown"@ } else { s }
}

/// The placeholders every draft starts from: Network Activity, activity 6,
/// severity Informational.
pub open spec fn placeholder_entries() -> Seq<(Seq<char>, MapV)> {
    seq![("class_uid"@, MapV::Literal(4001)), ("activity_id"@, MapV::Literal(6)), ("severity_id"@, MapV::Literal(1))]
}

/// The naming-convention mapping, `.port` attributes cast to integers.
pub open spec fn convention_entries(fm: Seq<(Seq<char>, Seq<char>)>) -> Seq<(Seq<char>, MapV)> {
    fm.map_values(|e: (Seq<char>, Seq<char>)| (e.0, MapV::Field(e.1, is_suffix(".port"@, e.0))))
}

/// A model suggestion is taken: an allowed attribute not mapped yet, a
/// source name that is not blank and occurs as a field of the samples.
pub open spec fn accepted(e: Seq<(Seq<char>, MapV)>, path: Seq<char>, source: Seq<char>, samples: Seq<Seq<char>>) -> bool {
    &&& allowed_fields().contains(path)
    &&& trim(source).len() > 0
    &&& !keys_of(e).contains(path)
    &&& field_name_ok(source, samples)
}

/// The entries after the model's suggestions `fs`, taken in order.
pub open spec fn with_suggestions(e: Seq<(Seq<char>, MapV)>, fs: Seq<(Seq<char>, Seq<char>)>, samples: Seq<Seq<char>>) -> Seq<(Seq<char>, MapV)>
    decreases fs.len(),
{
    if fs.len() == 0 {
        e
    } else {
        let before = with_suggestions(e, fs.drop_last(), samples);
        let f = fs.last();
        if accepted(before, f.0, f.1, samples) { before.push((f.0, MapV::Field(f.1, false))) } else { before }
    }
}

/// The mapping of a draft: placeholders, then the convention mapping, then
/// the model's accepted suggestions.
pub open spec fn drafted_map(suggested: Seq<(Seq<char>, Seq<char>)>, samples: Seq<Seq<char>>) -> Seq<(Seq<char>, MapV)> {
    with_suggestions(placeholder_entries() + convention_entries(field_map(field_names(samples))), suggested, samples)
}

/// Whether `m` already maps `path`.
fn maps(m: &Vec<(String, MapChoice)>, path: &str) -> (r: bool)
    ensures
        r == keys_of(entries_of(m@)).contains(path@),
{
    let ghost ks = keys_of(entries_of(m@));
    let mut i: usize = 0;
    while i < m.len()
        invariant
            i <= m@.len(),
            ks == keys_of(entries_of(m@)),
            forall|j: int| 0 <= j < i ==> ks[j] != path@,
        decreases m@.len() - i,
    {
        if str_eq(m[i].0.as_str(), path) {
            assert(ks[i as int] == path@);
            return true;
        }
        i += 1;
    }
    false
}

/// Whether `list` holds `x`.
fn listed(list: &Vec<String>, x: &str) -> (r: bool)
    ensures
        r == strings(list@).contains(x@),
{
    let ghost ls = strings(list@);
    let mut i: usize = 0;
    while i < list.len()
        invariant
            i <= list@.len(),
            ls == strings(list@),
            forall|j: int| 0 <= j < i ==> ls[j] != x@,
        decreases list@.len() - i,
    {
        if str_eq(list[i].as_str(), x) {
            assert(ls[i as int] == x@);
            return true;
        }
        i += 1;
    }
    false
}

fn is_blank(s: &str) -> (r: bool)
    ensures
        r == (trim(s@).len() == 0),
{
    let cs = chars_of(s);
    let (a, b) = trim_range(&cs, 0, cs.len());
    assert(cs@.subrange(0, cs@.len() as int) == s@);
    a == b
}

/// Appends the naming-convention mapping of `samples` to `map`.
pub(crate) fn push_convention_entries(map: &mut Vec<(String, MapChoice)>, samples: &[String])
    ensures
        entries_of(final(map)@) == entries_of(old(map)@) + convention_entries(field_map(field_names(strings(samples@)))),
{
    let ghost start = entries_of(map@);
    let available = available_field_names(samples);
    let fm = infer_field_map(&available);
    let ghost conv = convention_entries(pair_strings(fm@));
    let mut i: usize = 0;
    while i < fm.len()
        invariant
            i <= fm@.len(),
            conv == convention_entries(pair_strings(fm@)),
            entries_of(map@) == start + conv.take(i as int),
        decreases fm@.len() - i,
    {
        let path = owned(fm[i].0.as_str());
        let from = owned(fm[i].1.as_str());
        let cast_int = casts_to_int(path.as_str());
        let ghost before = entries_of(map@);
        map.push((path, MapChoice::Field { from, cast_int }));
        assert(conv.take(i + 1) == conv.take(i as int).push(conv[i as int]));
        assert(entries_of(map@) =~= before.push(conv[i as int]));
        i += 1;
    }
    assert(conv.take(fm@.len() as int) == conv);
}

pub open spec fn suggestion_view(v: Seq<(String, String)>) -> Seq<(Seq<char>, Seq<char>)> {
    pair_strings(v)
}

/// The candidate pack for cluster `cluster_id`, from the model's answer
/// `spec` and the cluster's `samples`, drafted by `model` at
/// `created_nanos` (nanoseconds since the Unix epoch).
pub fn assemble_pack(cluster_id: &str, spec: DraftSpec, samples: &[String], model: &str, created_nanos: u64) -> (r: PackDraft)
    ensures
        r.created@ == dec(created_nanos as nat),
        r.id@ == "candidate-"@ + cluster_id@,
        r.vendor@ == unknown_if_blank(spec.vendor@),
        r.product@ == unknown_if_blank(spec.product@),
        r.log_format@ == unknown_if_blank(spec.log_format@),
        top(true, strings_of(r.detect@), shared_literals(strings(samples@)), 3),
        statics(r.decoders@) == if decoder_chain(strings(samples@)).len() == 0 { seq!["keyvalue"@] } else { decoder_chain(strings(samples@)) },
        entries_of(r.map@) == drafted_map(suggestion_view(spec.fields@), strings(samples@)),
        strings(r.fixtures@) == if samples@.len() <= 3 { strings(samples@) } else { strings(samples@).take(3) },
        r.decoders_optional,
        r.fixture_expect@.len() == 0,
        r.fixture_note@ == SAMPLE_NOTE@,
        r.priority == DRAFT_PRIORITY,
        r.author@ == "generated"@,
        r.approved_by is None,
        r.cluster_id matches Some(c) && c@ == cluster_id@,
        r.model@ == model@,
{
    let detect = derive_detectors(samples);
    let mut decoders = infer_decoders(samples);
    if decoders.len() == 0 {
        decoders.push("keyvalue");
        proof {
            reveal_strlit("keyvalue");
        }
        assert(statics(decoders@) =~= seq!["keyvalue"@]);
    }

    let mut map: Vec<(String, MapChoice)> = Vec::new();
    map.push((owned("class_uid"), MapChoice::Literal(4001)));
    map.push((owned("activity_id"), MapChoice::Literal(6)));
    map.push((owned("severity_id"), MapChoice::Literal(1)));
    assert(entries_of(map@) =~= placeholder_entries());
    push_convention_entries(&mut map, samples);
    let ghost ss = strings(samples@);

    let allowed = allowed_field_list();
    let ghost fs = suggestion_view(spec.fields@);
    let ghost base = entries_of(map@);
    let mut k: usize = 0;
    while k < spec.fields.len()
        invariant
            k <= spec.fields@.len(),
            fs == suggestion_view(spec.fields@),
            ss == strings(samples@),
            strings(allowed@) == allowed_fields(),
            entries_of(map@) == with_suggestions(base, fs.take(k as int), ss),
        decreases spec.fields@.len() - k,
    {
        let ghost before = entries_of(map@);
        proof {
            assert(fs.take(k + 1).drop_last() == fs.take(k as int));
            assert(fs.take(k + 1).last() == fs[k as int]);
        }
        let p = spec.fields[k].0.as_str();
        let src = spec.fields[k].1.as_str();
        let take = listed(&allowed, p) && !is_blank(src) && !maps(&map, p) && looks_like_a_field_name(src, samples);
        assert(take == accepted(before, fs[k as int].0, fs[k as int].1, ss));
        if take {
            map.push((owned(p), MapChoice::Field { from: owned(src), cast_int: false }));
            assert(entries_of(map@) =~= before.push((fs[k as int].0, MapV::Field(fs[k as int].1, false))));
        }
        k += 1;
    }
    assert(fs.take(spec.fields@.len() as int) == fs);

    let n = if samples.len() <= 3 { samples.len() } else { 3 };
    let mut fixtures: Vec<String> = Vec::new();
    let mut j: usize = 0;
    while j < n
        invariant
            j <= n <= samples@.len(),
            ss == strings(samples@),
            strings(fixtures@) == ss.take(j as int),
        decreases n - j,
    {
        fixtures.push(owned(samples[j].as_str()));
        assert(ss.take(j + 1) == ss.take(j as int).push(ss[j as int]));
        j += 1;
    }
    assert(ss.take(samples@.len() as int) == ss);

    proof {
        reveal_strlit("generated");
    }
    let mut created = String::new();
    push_dec(&mut created, created_nanos);
    assert(created@ =~= dec(created_nanos as nat));
    let mut id = owned("candidate-");
    push_str(&mut id, cluster_id);
    PackDraft {
        id,
        vendor: blank_to_unknown(spec.vendor),
        product: blank_to_unknown(spec.product),
        log_format: blank_to_unknown(spec.log_format),
        detect,
        decoders,
        decoders_optional: true,
        map,
        fixtures,
        fixture_expect: Vec::new(),
        fixture_note: owned(SAMPLE_NOTE),
        priority: DRAFT_PRIORITY,
        author: owned("generated"),
        created,
        approved_by: None,
        cluster_id: Some(owned(cluster_id)),
        model: owned(model),
    }
}

/// Every path of `e` is a known OCSF path.
pub open spec fn all_known(e: Seq<(Seq<char>, MapV)>) -> bool {
    forall|k: int| 0 <= k < e.len() ==> known_paths().contains((#[trigger] e[k]).0)
}

proof fn lemma_allowed_known()
    ensures
        forall|k: int| 0 <= k < allowed_fields().len() ==> known_paths().contains(#[trigger] allowed_fields()[k]),
{
    let a = allowed_fields();
    let kp = known_paths();
    assert(kp[4] == a[0] && kp[5] == a[1] && kp[6] == a[2] && kp[7] == a[3] && kp[8] == a[4]);
    assert(kp[9] == a[5] && kp[10] == a[6] && kp[11] == a[7] && kp[3] == a[8]);
}

proof fn lemma_suggestions_known(e: Seq<(Seq<char>, MapV)>, fs: Seq<(Seq<char>, Seq<char>)>, samples: Seq<Seq<char>>)
    requires
        all_known(e),
    ensures
        all_known(with_suggestions(e, fs, samples)),
    decreases fs.len(),
{
    if fs.len() > 0 {
        lemma_suggestions_known(e, fs.drop_last(), samples);
        let before = with_suggestions(e, fs.drop_last(), samples);
        let f = fs.last();
        if accepted(before, f.0, f.1, samples) {
            lemma_allowed_known();
            let j = choose|j: int| 0 <= j < allowed_fields().len() && allowed_fields()[j] == f.0;
            assert(known_paths().contains(allowed_fields()[j]));
            let after = before.push((f.0, MapV::Field(f.1, false)));
            assert forall|k: int| 0 <= k < after.len() implies known_paths().contains((#[trigger] after[k]).0) by {
                if k < before.len() {
                    assert(after[k] == before[k]);
                }
            }
        }
    }
}

pub(crate) proof fn lemma_conventions_known(prefix: Seq<(Seq<char>, MapV)>, samples: Seq<Seq<char>>)
    requires
        all_known(prefix),
    ensures
        all_known(prefix + convention_entries(field_map(field_names(samples)))),
{
    let fm = field_map(field_names(samples));
    mapped_paths_are_known(field_names(samples));
    let e = prefix + convention_entries(fm);
    assert forall|k: int| 0 <= k < e.len() implies known_paths().contains((#[trigger] e[k]).0) by {
        if k >= prefix.len() {
            assert(e[k].0 == fm[k - prefix.len()].0);
        }
    }
}

/// Every attribute an assembled pack maps is a known OCSF path, whatever the
/// model suggested and whatever the samples hold.
pub proof fn assembled_paths_are_known(suggested: Seq<(Seq<char>, Seq<char>)>, samples: Seq<Seq<char>>)
    ensures
        all_known(drafted_map(suggested, samples)),
{
    let p = placeholder_entries();
    assert(known_paths()[0] == p[0].0 && known_paths()[1] == p[1].0 && known_paths()[2] == p[2].0);
    assert(all_known(p));
    lemma_conventions_known(p, samples);
    lemma_suggestions_known(p + convention_entries(field_map(field_names(samples))), suggested, samples);
}

} // verus!
