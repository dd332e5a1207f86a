//! Regex extraction, for the structured-text formats that are not key-value.
//!
//! Perimeter devices often write a fixed sentence rather than named pairs:
//! iptables puts the verdict in a prefix (`INBOUND TCP:`), Snort writes
//! `[1:483:5] ICMP PING [Priority: 3]: {ICMP} 1.2.3.4 -> 5.6.7.8`. A named
//! capture group addresses each piece.
//!
//! Extraction is additive: the whole input is handed on to the next decoder
//! unless a group named `body` narrows it. Patterns are alternatives, tried
//! in order; a pattern that does not compile is refused when the decoder is
//! built, never per event. Matching itself is the `regex` crate's.
use vstd::prelude::*;
use crate::decode::{DecodeError, Decoded, Outcome, outcome};
use crate::field::{Entries, FieldMap, Value, ValueV, insert_entry};
use crate::generator::llm::strings;
use crate::text::{chars_of, dec, owned, push_dec, push_str, str_eq};

verus! {

/// Whether `regex::Regex::new` accepts `pattern`.
pub uninterp spec fn pattern_compiles(pattern: Seq<char>) -> bool;

/// What matching the regex compiled from `pattern` against `input` gives:
/// `None` when it does not match, else every capture group in the order
/// the pattern declares them (the whole match first), each with its name
/// (`None` for an unnamed group) and the text it captured (`None` for a
/// group that took no part in the match).
pub uninterp spec fn capture_groups(pattern: Seq<char>, input: Seq<char>) -> Option<Seq<(Option<Seq<char>>, Option<Seq<char>>)>>;

/// The named groups among `gs`, in order, with their text.
pub open spec fn named_only(gs: Seq<(Option<Seq<char>>, Option<Seq<char>>)>) -> Seq<(Seq<char>, Option<Seq<char>>)>
    decreases gs.len(),
{
    if gs.len() == 0 {
        Seq::empty()
    } else {
        let rest = named_only(gs.drop_last());
        match gs.last().0 {
            Some(n) => rest.push((n, gs.last().1)),
            None => rest,
        }
    }
}

/// The named groups of a match of `pattern` against `input`; unnamed groups
/// carry no field name and are ignored.
pub open spec fn named_captures(pattern: Seq<char>, input: Seq<char>) -> Option<Seq<(Seq<char>, Option<Seq<char>>)>> {
    match capture_groups(pattern, input) {
        Some(gs) => Some(named_only(gs)),
        None => None,
    }
}

pub open spec fn opt_view(o: Option<String>) -> Option<Seq<char>> {
    match o {
        Some(t) => Some(t@),
        None => None,
    }
}

pub open spec fn groups_view(v: Seq<(String, Option<String>)>) -> Seq<(Seq<char>, Option<Seq<char>>)> {
    v.map_values(|g: (String, Option<String>)| (g.0@, opt_view(g.1)))
}

pub open spec fn all_groups_view(v: Seq<(Option<String>, Option<String>)>) -> Seq<(Option<Seq<char>>, Option<Seq<char>>)> {
    v.map_values(|g: (Option<String>, Option<String>)| (opt_view(g.0), opt_view(g.1)))
}

/// Compiles `pattern` with `regex::Regex::new` and keeps only whether it
/// compiled, with `regex::Error`'s message when not. Claimed: it succeeds
/// exactly where `pattern_compiles` holds; nothing is said of the message.
#[verifier::external_body]
fn check_pattern(pattern: &str) -> (r: Result<(), String>)
    ensures
        r is Ok <==> pattern_compiles(pattern@),
{
    regex::Regex::new(pattern).map(|_| ()).map_err(|e| e.to_string())
}

/// A pattern the regex engine refused.
#[derive(Debug, Clone, PartialEq, Eq)]
pub struct PatternError {
    /// Which of the patterns, from zero.
    pub index: usize,
    /// The engine's explanation.
    pub message: String,
}

/// Compiles `pattern` (`regex::Regex::new`) and matches it against `input`
/// (`Regex::captures`), giving every group (`Regex::capture_names`, which
/// lists them by index) with its text (`Captures::get`, `Match::as_str`).
/// Claimed: the result is `capture_groups(pattern, input)`; a pattern that
/// does not compile gives `None`.
#[verifier::external_body]
fn match_groups(pattern: &str, input: &str) -> (r: Option<Vec<(Option<String>, Option<String>)>>)
    ensures
        match r {
            Some(v) => capture_groups(pattern@, input@) == Some(all_groups_view(v@)),
            None => capture_groups(pattern@, input@) is None || !pattern_compiles(pattern@),
        },
{
    let re = regex::Regex::new(pattern).ok()?;
    let caps = re.captures(input)?;
    Some(re.capture_names().enumerate().map(|(i, n)| (n.map(|s| s.to_string()), caps.get(i).map(|m| m.as_str().to_string()))).collect())
}

/// The named groups of a match, in order; the unnamed ones are dropped.
pub fn named_groups(all: &Vec<(Option<String>, Option<String>)>) -> (r: Vec<(String, Option<String>)>)
    ensures
        groups_view(r@) == named_only(all_groups_view(all@)),
{
    let ghost av = all_groups_view(all@);
    let mut out: Vec<(String, Option<String>)> = Vec::new();
    let mut k: usize = 0;
    while k < all.len()
        invariant
            k <= all@.len(),
            av == all_groups_view(all@),
            groups_view(out@) == named_only(av.take(k as int)),
        decreases all@.len() - k,
    {
        proof {
            assert(av.take(k + 1).drop_last() == av.take(k as int));
            assert(av.take(k + 1).last() == av[k as int]);
        }
        let text: Option<String> = match &all[k].1 {
            Some(t) => Some(t.clone()),
            None => None,
        };
        assert(opt_view(text) == av[k as int].1);
        match &all[k].0 {
            Some(n) => {
                let ghost before = groups_view(out@);
                out.push((n.clone(), text));
                assert(groups_view(out@) =~= before.push((n@, av[k as int].1)));
            },
            None => {},
        }
        k += 1;
    }
    assert(av.take(all@.len() as int) == av);
    out
}

/// Extracts named capture groups into fields.
#[derive(Debug)]
pub struct RegexDecoder {
    patterns: Vec<String>,
    /// Emit the index of the pattern that matched, as `regex.matched`.
    record_which: bool,
}

/// The decoder's patterns and whether it records which one matched.
pub ghost struct RegexV {
    pub patterns: Seq<Seq<char>>,
    pub record_which: bool,
}

impl View for RegexDecoder {
    type V = RegexV;

    closed spec fn view(&self) -> RegexV {
        RegexV { patterns: strings(self.patterns@), record_which: self.record_which }
    }
}

/// `input` without its trailing `\r` and `\n` characters.
pub open spec fn trim_newlines(s: Seq<char>) -> Seq<char>
    decreases s.len(),
{
    if s.len() > 0 && (s.last() == '\r' || s.last() == '\n') {
        trim_newlines(s.drop_last())
    } else {
        s
    }
}

/// The groups of one match added to `e`: each captured group as a field,
/// except `body`, which is routing and not data.
pub open spec fn group_fields(gs: Seq<(Seq<char>, Option<Seq<char>>)>, e: Entries) -> Entries
    decreases gs.len(),
{
    if gs.len() == 0 {
        e
    } else {
        let g = gs.last();
        let before = group_fields(gs.drop_last(), e);
        match g.1 {
            Some(t) => if g.0 == "body"@ { before } else { insert_entry(before, g.0, ValueV::Str(t)) },
            None => before,
        }
    }
}

/// The text of the last captured `body` group, if any.
pub open spec fn body_group(gs: Seq<(Seq<char>, Option<Seq<char>>)>) -> Option<Seq<char>>
    decreases gs.len(),
{
    if gs.len() == 0 {
        None
    } else {
        match gs.last().1 {
            Some(t) => if gs.last().0 == "body"@ { Some(t) } else { body_group(gs.drop_last()) },
            None => body_group(gs.drop_last()),
        }
    }
}

/// The first pattern from `i` on that matches `t`.
pub open spec fn first_match(ps: Seq<Seq<char>>, t: Seq<char>, i: int) -> Option<int>
    decreases ps.len() - i,
{
    if i < 0 || i >= ps.len() {
        None
    } else if named_captures(ps[i], t) is Some {
        Some(i)
    } else {
        first_match(ps, t, i + 1)
    }
}

/// What decoding `input` gives: the groups of the first pattern that matches
/// the input (trailing line breaks removed), with `regex.matched` holding
/// the pattern's index when asked for, and the `body` group, or else the
/// whole input, handed on.
pub open spec fn regex_outcome(d: RegexV, input: Seq<char>) -> Outcome {
    let t = trim_newlines(input);
    if t.len() == 0 {
        Outcome::Empty
    } else {
        match first_match(d.patterns, t, 0) {
            None => Outcome::NotThisFormat("regex"@, "no pattern matched ("@ + dec(d.patterns.len()) + " tried)"@),
            Some(i) => {
                let gs = named_captures(d.patterns[i], t)->Some_0;
                let f = group_fields(gs, Seq::empty());
                Outcome::Fields(
                    if d.record_which { insert_entry(f, "regex.matched"@, ValueV::Int(i as i64)) } else { f },
                    Some(match body_group(gs) {
                        Some(b) => b,
                        None => t,
                    }),
                )
            },
        }
    }
}

impl Clone for RegexDecoder {
    fn clone(&self) -> (r: Self)
        ensures
            r@ == self@,
    {
        proof {
            use_type_invariant(self);
        }
        let mut patterns: Vec<String> = Vec::new();
        let mut i: usize = 0;
        while i < self.patterns.len()
            invariant
                i <= self.patterns@.len(),
                patterns@.len() == i,
                forall|j: int| 0 <= j < i ==> (#[trigger] patterns@[j])@ == self.patterns@[j]@,
                forall|j: int| 0 <= j < self.patterns@.len() ==> pattern_compiles(#[trigger] self.patterns@[j]@),
            decreases self.patterns@.len() - i,
        {
            patterns.push(self.patterns[i].clone());
            i += 1;
        }
        assert(strings(patterns@) =~= strings(self.patterns@));
        RegexDecoder { patterns, record_which: self.record_which }
    }
}

impl RegexDecoder {
    /// Every pattern held compiles.
    #[verifier::type_invariant]
    spec fn compiled(self) -> bool {
        forall|i: int| 0 <= i < self.patterns@.len() ==> pattern_compiles(#[trigger] self.patterns@[i]@)
    }

    /// A decoder trying `patterns` in order; refused when one does not
    /// compile, with the error of the first that does not.
    pub fn new(patterns: &[String]) -> (r: Result<Self, PatternError>)
        ensures
            match r {
                Ok(d) => d@ == (RegexV { patterns: strings(patterns@), record_which: false }),
                Err(e) => e.index < patterns@.len() && !pattern_compiles(patterns@[e.index as int]@)
                    && forall|j: int| 0 <= j < e.index ==> pattern_compiles(#[trigger] patterns@[j]@),
            },
            r is Ok <==> forall|i: int| 0 <= i < patterns@.len() ==> pattern_compiles(#[trigger] patterns@[i]@),
    {
        let mut kept: Vec<String> = Vec::new();
        let mut i: usize = 0;
        while i < patterns.len()
            invariant
                i <= patterns@.len(),
                strings(kept@) == strings(patterns@).take(i as int),
                forall|j: int| 0 <= j < i ==> pattern_compiles(#[trigger] patterns@[j]@),
            decreases patterns@.len() - i,
        {
            match check_pattern(patterns[i].as_str()) {
                Ok(()) => {},
                Err(message) => {
                    return Err(PatternError { index: i, message });
                },
            }
            let ghost before = strings(kept@);
            kept.push(patterns[i].clone());
            assert(strings(kept@) =~= before.push(patterns@[i as int]@));
            assert(strings(patterns@).take(i + 1) =~= strings(patterns@).take(i as int).push(patterns@[i as int]@));
            i += 1;
        }
        assert(strings(patterns@).take(patterns@.len() as int) =~= strings(patterns@));
        assert forall|j: int| 0 <= j < kept@.len() implies pattern_compiles(#[trigger] kept@[j]@) by {
            assert(strings(kept@)[j] == kept@[j]@);
            assert(strings(patterns@)[j] == patterns@[j]@);
        }
        Ok(RegexDecoder { patterns: kept, record_which: false })
    }

    /// The same decoder, recording (or not) which pattern matched.
    pub fn record_which(self, yes: bool) -> (r: Self)
        ensures
            r@ == (RegexV { record_which: yes, ..self@ }),
    {
        proof {
            use_type_invariant(&self);
        }
        RegexDecoder { patterns: self.patterns, record_which: yes }
    }

    pub fn name(&self) -> (r: &'static str)
        ensures
            r@ == "regex"@,
    {
        "regex"
    }

    /// Decode one record.
    pub fn decode(&self, input: &str) -> (r: Result<Decoded, DecodeError>)
        ensures
            outcome(r) == regex_outcome(self@, input@),
    {
        proof {
            use_type_invariant(self);
        }
        let cs = chars_of(input);
        let mut end = cs.len();
        assert(cs@.take(end as int) == cs@);
        while end > 0 && (cs[end - 1] == '\r' || cs[end - 1] == '\n')
            invariant
                end <= cs@.len(),
                cs@ == input@,
                trim_newlines(input@) == trim_newlines(cs@.take(end as int)),
            decreases end,
        {
            assert(cs@.take(end as int).drop_last() == cs@.take(end - 1));
            end -= 1;
        }
        let t = crate::text::string_range(&cs, 0, end);
        assert(t@ == trim_newlines(input@));
        if end == 0 {
            return Err(DecodeError::Empty);
        }
        let ghost ps = self@.patterns;
        let mut i: usize = 0;
        while i < self.patterns.len()
            invariant
                i <= self.patterns@.len(),
                ps == strings(self.patterns@),
                ps == self@.patterns,
                forall|j: int| 0 <= j < ps.len() ==> pattern_compiles(#[trigger] ps[j]),
                first_match(ps, t@, 0) == first_match(ps, t@, i as int),
                t@ == trim_newlines(input@),
                t@.len() > 0,
            decreases self.patterns@.len() - i,
        {
            assert(ps[i as int] == self.patterns@[i as int]@);
            if let Some(all) = match_groups(self.patterns[i].as_str(), t.as_str()) {
                let groups = named_groups(&all);
                let ghost gs = groups_view(groups@);
                let mut fields = FieldMap::new();
                let mut body: Option<String> = None;
                let mut k: usize = 0;
                while k < groups.len()
                    invariant
                        k <= groups@.len(),
                        gs == groups_view(groups@),
                        fields@ == group_fields(gs.take(k as int), Seq::empty()),
                        match body {
                            Some(b) => body_group(gs.take(k as int)) == Some(b@),
                            None => body_group(gs.take(k as int)) is None,
                        },
                    decreases groups@.len() - k,
                {
                    let ghost g = gs[k as int];
                    proof {
                        reveal_strlit("body");
                        assert(gs.take(k + 1).drop_last() == gs.take(k as int));
                        assert(gs.take(k + 1).last() == g);
                    }
                    let (name, text) = (&groups[k].0, &groups[k].1);
                    match text {
                        Some(txt) => {
                            if str_eq(name.as_str(), "body") {
                                body = Some(txt.clone());
                            } else {
                                fields.insert(name.as_str(), Value::Str(txt.clone()));
                            }
                        },
                        None => {},
                    }
                    k += 1;
                }
                assert(gs.take(groups@.len() as int) == gs);
                assert(named_captures(ps[i as int], t@) == Some(gs));
                assert(first_match(ps, t@, i as int) == Some(i as int));
                if self.record_which {
                    let n = i as i64;
                    assert(n == (i as int) as i64);
                    fields.insert("regex.matched", Value::Int(n));
                }
                let handed = match body {
                    Some(b) => b,
                    None => t,
                };
                return Ok(Decoded::with_body(fields, handed));
            }
            i += 1;
        }
        let mut detail = owned("no pattern matched (");
        push_dec(&mut detail, self.patterns.len() as u64);
        push_str(&mut detail, " tried)");
        Err(DecodeError::NotThisFormat { format: "regex", detail })
    }
}

} // verus!
