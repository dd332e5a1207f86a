//! The field names that actually occur in a cluster's samples.
//!
//! Two shapes carry names, `key=value` bodies and JSON objects; delimited
//! records with neither fall back to positional `col.N`.

use vstd::prelude::*;
use crate::decode::json::{json_level, json_tree, JsonLevel, JsonV};
use crate::decode::salvage::{count, count_char};
use crate::generator::llm::{all, all_in, char_vecs, class_p, is_used, strings};
use crate::text::{chars_of, chars_range, dec, find, find_char, part, push_dec, push_str, skip_ws, string_of, trim_start, word_ranges, words};

verus! {

/// The key of a token `key=value` when the key is a plain name: letters,
/// digits, `_` and `.`, at least one of them.
pub open spec fn token_key(w: Seq<char>) -> Option<Seq<char>> {
    match find(w, '=') {
        Some(i) => if i > 0 && all(w.take(i), class_p(7)) { Some(w.take(i)) } else { None },
        None => None,
    }
}

/// The plain keys of the tokens, in order.
pub open spec fn token_keys(ws: Seq<Seq<char>>) -> Seq<Seq<char>>
    decreases ws.len(),
{
    if ws.len() == 0 {
        Seq::empty()
    } else {
        token_keys(ws.drop_last()) + match token_key(ws.last()) {
            Some(k) => seq![k],
            None => Seq::empty(),
        }
    }
}

/// The keys of the JSON object a sample holds, in the parser's order, when
/// the sample starts (after whitespace) with `{`.
pub open spec fn object_keys(s: Seq<char>) -> Seq<Seq<char>> {
    let t = trim_start(s);
    if t.len() > 0 && t[0] == '{' {
        match json_tree(s) {
            Ok(JsonV::Object(m)) => m.map_values(|e: (Seq<char>, JsonV)| e.0),
            _ => Seq::empty(),
        }
    } else {
        Seq::empty()
    }
}

/// `names` with each of `ks` appended that is not already there.
pub open spec fn with_new(names: Seq<Seq<char>>, ks: Seq<Seq<char>>) -> Seq<Seq<char>>
    decreases ks.len(),
{
    if ks.len() == 0 {
        names
    } else {
        let n = with_new(names, ks.drop_last());
        if n.contains(ks.last()) { n } else { n.push(ks.last()) }
    }
}

/// The distinct names the samples carry, in order of first appearance:
/// each sample's `key=value` keys, then its JSON object's keys.
pub open spec fn names_in(samples: Seq<Seq<char>>) -> Seq<Seq<char>>
    decreases samples.len(),
{
    if samples.len() == 0 {
        Seq::empty()
    } else {
        let s = samples.last();
        with_new(names_in(samples.drop_last()), token_keys(words(s)) + object_keys(s))
    }
}

/// `col.0`, `col.1`, ... up to `n` of them.
pub open spec fn col_names(n: nat) -> Seq<Seq<char>> {
    Seq::new(n, |i: int| "col."@ + dec(i as nat))
}

/// What `available_field_names` gives: the names found in the first five
/// samples; with none found, positional `col.N` names for the columns of
/// the first sample when it has three or more comma-separated ones (at most
/// 40); at most 60 names in all.
pub open spec fn field_names(samples: Seq<Seq<char>>) -> Seq<Seq<char>> {
    let found = names_in(if samples.len() <= 5 { samples } else { samples.take(5) });
    let names = if found.len() == 0 && samples.len() > 0 && count(samples[0], ',') >= 2 {
        col_names(if count(samples[0], ',') >= 39 { 40 } else { count(samples[0], ',') + 1 })
    } else {
        found
    };
    if names.len() <= 60 { names } else { names.take(60) }
}

/// Appends `key` to `names` unless it is already there.
pub(crate) fn add_new(names: &mut Vec<Vec<char>>, key: Vec<char>)
    ensures
        char_vecs(final(names)@) == with_new(char_vecs(old(names)@), seq![key@]),
{
    let ghost before = char_vecs(names@);
    assert(seq![key@].drop_last() == Seq::<Seq<char>>::empty());
    assert(with_new(before, Seq::<Seq<char>>::empty()) == before);
    assert(seq![key@].last() == key@);
    assert(with_new(before, seq![key@]) == if before.contains(key@) { before } else { before.push(key@) });
    if !is_used(names, key.as_slice()) {
        names.push(key);
        assert(char_vecs(names@) == before.push(key@));
    }
}

proof fn lemma_with_new_concat(names: Seq<Seq<char>>, a: Seq<Seq<char>>, b: Seq<Seq<char>>)
    ensures
        with_new(names, a + b) == with_new(with_new(names, a), b),
    decreases b.len(),
{
    if b.len() == 0 {
        assert(a + b == a);
    } else {
        lemma_with_new_concat(names, a, b.drop_last());
        assert((a + b).drop_last() == a + b.drop_last());
        assert((a + b).last() == b.last());
    }
}

/// Adds the plain `key=value` keys of one sample.
fn add_token_keys(names: &mut Vec<Vec<char>>, cs: &[char])
    ensures
        char_vecs(final(names)@) == with_new(char_vecs(old(names)@), token_keys(words(cs@))),
{
    let ws = word_ranges(cs, 0, cs.len());
    assert(cs@.subrange(0, cs@.len() as int) == cs@);
    let ghost all_words = words(cs@);
    let ghost start = char_vecs(names@);
    let mut k: usize = 0;
    while k < ws.len()
        invariant
            k <= ws@.len() == all_words.len(),
            all_words == words(cs@),
            forall|j: int| 0 <= j < ws@.len() ==> {
                &&& (#[trigger] ws@[j]).0 < ws@[j].1 <= cs@.len()
                &&& cs@.subrange(ws@[j].0 as int, ws@[j].1 as int) == all_words[j]
            },
            char_vecs(names@) == with_new(start, token_keys(all_words.take(k as int))),
        decreases ws@.len() - k,
    {
        let (a, b) = ws[k];
        let ghost w = all_words[k as int];
        let ghost prefix = token_keys(all_words.take(k as int));
        proof {
            assert(all_words.take(k + 1).drop_last() == all_words.take(k as int));
            assert(all_words.take(k + 1).last() == w);
        }
        assert(part(cs@, a as int, b as int) == w);
        match find_char(cs, a, b, '=') {
            Some(i) => {
                assert(w.take(i - a) == part(cs@, a as int, i as int));
                if i > a && all_in(cs, a, i, 7) {
                    let key = chars_range(cs, a, i);
                    proof {
                        assert(token_key(w) == Some(w.take(i - a)));
                        lemma_with_new_concat(start, prefix, seq![key@]);
                    }
                    add_new(names, key);
                } else {
                    assert(token_key(w) is None);
                    assert(prefix + Seq::<Seq<char>>::empty() == prefix);
                }
            },
            None => {
                assert(token_key(w) is None);
                assert(prefix + Seq::<Seq<char>>::empty() == prefix);
            },
        }
        k += 1;
    }
    assert(all_words.take(ws@.len() as int) == all_words);
}

/// Adds the keys of the JSON object a sample holds.
fn add_object_keys(names: &mut Vec<Vec<char>>, sample: &str, cs: &[char])
    requires
        cs@ == sample@,
    ensures
        char_vecs(final(names)@) == with_new(char_vecs(old(names)@), object_keys(sample@)),
{
    let ghost start = char_vecs(names@);
    let a = skip_ws(cs, 0, cs.len());
    assert(cs@.subrange(0, cs@.len() as int) == cs@);
    assert(cs@.subrange(a as int, cs@.len() as int) == trim_start(sample@));
    if a < cs.len() && cs[a] == '{' {
        match json_level(sample) {
            Ok(JsonLevel::Object(v)) => {
                let ghost m = json_tree(sample@)->Ok_0->Object_0;
                let ghost keys = m.map_values(|e: (Seq<char>, JsonV)| e.0);
                let mut k: usize = 0;
                while k < v.len()
                    invariant
                        k <= v@.len() == m.len() == keys.len(),
                        keys == m.map_values(|e: (Seq<char>, JsonV)| e.0),
                        forall|j: int| 0 <= j < m.len() ==> (#[trigger] v@[j]).0@ == m[j].0,
                        char_vecs(names@) == with_new(start, keys.take(k as int)),
                    decreases v@.len() - k,
                {
                    let key = chars_of(v[k].0.as_str());
                    proof {
                        assert(keys[k as int] == key@);
                        assert(keys.take(k + 1) == keys.take(k as int) + seq![key@]);
                        lemma_with_new_concat(start, keys.take(k as int), seq![key@]);
                    }
                    add_new(names, key);
                    k += 1;
                }
                assert(keys.take(v@.len() as int) == keys);
            },
            _ => {
                assert(object_keys(sample@).len() == 0);
            },
        }
    } else {
        assert(object_keys(sample@).len() == 0);
    }
}

/// Field names that actually occur in the samples: the plain keys of
/// `key=value` tokens and the keys of JSON objects in the first five
/// samples, each once, in order of first appearance; failing any, `col.N`
/// for each column of a first sample with three or more commas-separated
/// columns (at most 40); at most 60 names.
pub fn available_field_names(samples: &[String]) -> (r: Vec<String>)
    ensures
        strings(r@) == field_names(strings(samples@)),
{
    let ghost ss = strings(samples@);
    let limit: usize = if samples.len() <= 5 { samples.len() } else { 5 };
    let ghost first = if ss.len() <= 5 { ss } else { ss.take(5) };
    let mut names: Vec<Vec<char>> = Vec::new();
    let mut k: usize = 0;
    while k < limit
        invariant
            k <= limit <= samples@.len(),
            limit == (if samples@.len() <= 5 { samples@.len() } else { 5 }),
            ss == strings(samples@),
            first.len() == limit,
            first == (if ss.len() <= 5 { ss } else { ss.take(5) }),
            char_vecs(names@) == names_in(first.take(k as int)),
        decreases limit - k,
    {
        let cs = chars_of(samples[k].as_str());
        let ghost before = char_vecs(names@);
        let ghost s = first[k as int];
        assert(s == samples@[k as int]@);
        add_token_keys(&mut names, &cs);
        add_object_keys(&mut names, samples[k].as_str(), &cs);
        proof {
            lemma_with_new_concat(before, token_keys(words(s)), object_keys(s));
            assert(first.take(k + 1).drop_last() == first.take(k as int));
            assert(first.take(k + 1).last() == s);
        }
        k += 1;
    }
    assert(first.take(limit as int) == first);
    let mut out: Vec<String> = Vec::new();
    if names.len() == 0 && samples.len() > 0 {
        let cs = chars_of(samples[0].as_str());
        let commas = count_char(&cs, 0, cs.len(), ',');
        assert(part(cs@, 0, cs@.len() as int) == ss[0]);
        if commas >= 2 {
            let n: usize = if commas >= 39 { 40 } else { commas + 1 };
            let mut i: usize = 0;
            while i < n
                invariant
                    i <= n <= 40,
                    strings(out@) == col_names(n as nat).take(i as int),
                decreases n - i,
            {
                let mut name = String::new();
                push_str(&mut name, "col.");
                push_dec(&mut name, i as u64);
                proof {
                    reveal_strlit("col.");
                    assert(Seq::<char>::empty() + "col."@ == "col."@);
                }
                let ghost prev = strings(out@);
                assert(name@ == col_names(n as nat)[i as int]);
                out.push(name);
                assert(strings(out@) =~= prev.push(name@));
                assert(col_names(n as nat).take(i + 1) =~= col_names(n as nat).take(i as int).push(col_names(n as nat)[i as int]));
                i += 1;
            }
            assert(col_names(n as nat).take(n as int) == col_names(n as nat));
        }
    } else {
        let mut i: usize = 0;
        while i < names.len()
            invariant
                i <= names@.len(),
                strings(out@) == char_vecs(names@).take(i as int),
            decreases names@.len() - i,
        {
            let ghost prev = strings(out@);
            let name = string_of(names[i].as_slice());
            out.push(name);
            assert(strings(out@) =~= prev.push(name@));
            assert(char_vecs(names@).take(i + 1) =~= char_vecs(names@).take(i as int).push(char_vecs(names@)[i as int]));
            i += 1;
        }
        assert(char_vecs(names@).take(names@.len() as int) == char_vecs(names@));
    }
    out.truncate(60);
    out
}

} // verus!
