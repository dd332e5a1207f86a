//! JSON body decoding, flattened to dotted keys.
//!
//! Nested objects become `a.b.c` and arrays become `a.0`, with `a.len`
//! holding the array's length. Parsing is `serde_json`'s; what this module
//! owns is the walk over the parsed tree.
use vstd::prelude::*;
use serde_json::Value as JsonValue;
use crate::decode::{DecodeError, Decoded, Outcome, outcome};
use crate::field::{Entries, FieldMap, Value, ValueV, insert_entry};
use crate::text::{chars_of, dec, owned, part, push_char, push_dec, push_str, string_range, trim, trim_range};

verus! {

/// A parsed JSON value, as a tree. A number keeps its `i64` value, when it
/// has one, and the text `serde_json` writes for it.
pub ghost enum JsonV {
    Null,
    Bool(bool),
    Number(Option<i64>, Seq<char>),
    Str(Seq<char>),
    Array(Seq<JsonV>),
    Object(Seq<(Seq<char>, JsonV)>),
}

/// The value `serde_json::from_str::<serde_json::Value>` parses from `text`,
/// or, where it refuses the text, the message its error displays.
pub uninterp spec fn json_tree(text: Seq<char>) -> Result<JsonV, Seq<char>>;

/// `text` parses to `v`.
pub open spec fn parses_to(text: Seq<char>, v: JsonV) -> bool {
    json_tree(text) == Result::<JsonV, Seq<char>>::Ok(v)
}

/// One level of a parsed JSON value: a scalar in full, or the members of an
/// array or object, each as the JSON text that encodes it.
#[derive(Debug)]
pub enum JsonLevel {
    Null,
    Bool(bool),
    /// `as_i64` and the number's text.
    Number(Option<i64>, String),
    Str(String),
    Array(Vec<String>),
    Object(Vec<(String, String)>),
}

/// `l` is the top level of the tree `t`.
pub open spec fn level_fits(l: JsonLevel, t: JsonV) -> bool {
    match l {
        JsonLevel::Null => t is Null,
        JsonLevel::Bool(a) => t == JsonV::Bool(a),
        JsonLevel::Number(i, s) => t == JsonV::Number(i, s@),
        JsonLevel::Str(s) => t == JsonV::Str(s@),
        JsonLevel::Array(v) => t matches JsonV::Array(items) && v@.len() == items.len()
            && forall|k: int| 0 <= k < items.len() ==> parses_to(#[trigger] v@[k]@, items[k]),
        JsonLevel::Object(v) => t matches JsonV::Object(m) && v@.len() == m.len()
            && forall|k: int| 0 <= k < m.len() ==> (#[trigger] v@[k]).0@ == m[k].0 && parses_to(v@[k].1@, m[k].1),
    }
}

/// `serde_json::from_str::<serde_json::Value>(text)`, read one level deep.
///
/// Claimed of it: it fails exactly where `json_tree(text)` is an error,
/// with that error's displayed message, and otherwise its level fits that
/// tree. A scalar is given in full: a number
/// by `Number::as_i64` and `Number::to_string`. Each member of an array or
/// an object is given as the text `Value::to_string` writes for it, in the
/// order the parsed value iterates them, and parsing that text yields the
/// member again (with the `float_roundtrip` feature, floats survive this
/// exactly).
#[verifier::external_body]
pub(crate) fn json_level(text: &str) -> (r: Result<JsonLevel, String>)
    ensures
        match json_tree(text@) {
            Err(m) => r matches Err(e) && e@ == m,
            Ok(t) => r matches Ok(l) && level_fits(l, t),
        },
{
    match serde_json::from_str(text) {
        Err(e) => Err(e.to_string()),
        Ok(JsonValue::Null) => Ok(JsonLevel::Null),
        Ok(JsonValue::Bool(b)) => Ok(JsonLevel::Bool(b)),
        Ok(JsonValue::Number(n)) => Ok(JsonLevel::Number(n.as_i64(), n.to_string())),
        Ok(JsonValue::String(s)) => Ok(JsonLevel::Str(s)),
        Ok(JsonValue::Array(a)) => Ok(JsonLevel::Array(a.iter().map(JsonValue::to_string).collect())),
        Ok(JsonValue::Object(m)) => Ok(JsonLevel::Object(m.into_iter().map(|(k, v)| (k, v.to_string())).collect())),
    }
}

/// The key of member `k` under `prefix`: `k` itself at the top.
pub open spec fn member_key(prefix: Seq<char>, k: Seq<char>) -> Seq<char> {
    if prefix.len() == 0 { k } else { prefix + "."@ + k }
}

/// `t` flattened under `prefix` into `e`.
pub open spec fn flatten(prefix: Seq<char>, t: JsonV, e: Entries) -> Entries
    decreases t, 0nat,
{
    match t {
        JsonV::Null => insert_entry(e, prefix, ValueV::Null),
        JsonV::Bool(b) => insert_entry(e, prefix, ValueV::Bool(b)),
        JsonV::Number(i, s) => match i {
            Some(v) => insert_entry(e, prefix, ValueV::Int(v)),
            None => insert_entry(e, prefix, ValueV::Float(s)),
        },
        JsonV::Str(s) => insert_entry(e, prefix, ValueV::Str(s)),
        JsonV::Array(items) => flatten_items(
            prefix,
            items,
            items.len(),
            insert_entry(e, prefix + ".len"@, ValueV::Int(items.len() as i64)),
        ),
        JsonV::Object(m) => flatten_members(prefix, m, m.len(), e),
    }
}

/// The first `n` items of an array flattened under `prefix.0`, `prefix.1`, ...
pub open spec fn flatten_items(prefix: Seq<char>, items: Seq<JsonV>, n: nat, e: Entries) -> Entries
    decreases items, n,
{
    if n == 0 || n > items.len() {
        e
    } else {
        flatten(prefix + "."@ + dec((n - 1) as nat), items[n - 1], flatten_items(prefix, items, (n - 1) as nat, e))
    }
}

/// The first `n` members of an object flattened under `prefix`.
pub open spec fn flatten_members(prefix: Seq<char>, m: Seq<(Seq<char>, JsonV)>, n: nat, e: Entries) -> Entries
    decreases m, n,
{
    if n == 0 || n > m.len() {
        e
    } else {
        proof {
            assert(decreases_to!(m => m[n - 1]));
        }
        flatten(member_key(prefix, m[n - 1].0), m[n - 1].1, flatten_members(prefix, m, (n - 1) as nat, e))
    }
}

/// Decodes a JSON object (or array) into a flat field map.
#[derive(Debug, Clone, Copy)]
pub struct JsonDecoder;

/// What decoding `input` yields.
pub open spec fn json_outcome(input: Seq<char>) -> Outcome {
    let t = trim(input);
    if t.len() == 0 {
        Outcome::Empty
    } else {
        match json_tree(t) {
            Err(m) => Outcome::NotThisFormat("json"@, m),
            Ok(v) => if v is Object || v is Array {
                Outcome::Fields(flatten(Seq::empty(), v, Seq::empty()), None)
            } else {
                Outcome::NotThisFormat("json"@, "top level is a scalar, not an object"@)
            },
        }
    }
}

/// Flattens the value whose top level is `l` under `prefix`.
fn flatten_level(l: JsonLevel, Ghost(t): Ghost<JsonV>, prefix: &str, fields: &mut FieldMap)
    requires
        level_fits(l, t),
    ensures
        final(fields)@ == flatten(prefix@, t, old(fields)@),
    decreases t,
{
    match l {
        JsonLevel::Null => {
            fields.insert(prefix, Value::Null);
        },
        JsonLevel::Bool(b) => {
            fields.insert(prefix, Value::Bool(b));
        },
        JsonLevel::Number(i, s) => {
            match i {
                Some(v) => {
                    fields.insert(prefix, Value::Int(v));
                },
                None => {
                    fields.insert(prefix, Value::Float(s));
                },
            }
        },
        JsonLevel::Str(s) => {
            fields.insert(prefix, Value::Str(s));
        },
        JsonLevel::Array(v) => {
            let ghost items = t->Array_0;
            let mut key = owned(prefix);
            push_str(&mut key, ".len");
            proof {
                reveal_strlit(".len");
            }
            fields.insert(key.as_str(), Value::Int(v.len() as i64));
            let ghost start = fields@;
            let mut k: usize = 0;
            while k < v.len()
                invariant
                    k <= v@.len(),
                    t == JsonV::Array(items),
                    v@.len() == items.len(),
                    forall|j: int| 0 <= j < items.len() ==> parses_to(#[trigger] v@[j]@, items[j]),
                    fields@ == flatten_items(prefix@, items, k as nat, start),
                decreases v@.len() - k,
            {
                let mut child_key = owned(prefix);
                push_char(&mut child_key, '.');
                push_dec(&mut child_key, k as u64);
                assert(child_key@ == prefix@ + "."@ + dec(k as nat)) by {
                    reveal_strlit(".");
                    assert(prefix@.push('.') == prefix@ + "."@);
                }
                assert(parses_to(v@[k as int]@, items[k as int]));
                match json_level(v[k].as_str()) {
                    Ok(cl) => {
                        proof {
                            assert(decreases_to!(t => t->Array_0));
                            assert(decreases_to!(t->Array_0 => t->Array_0[k as int]));
                            assert(decreases_to!(t => items[k as int]));
                        }
                        flatten_level(cl, Ghost(items[k as int]), child_key.as_str(), fields);
                    },
                    Err(_) => {},
                }
                k += 1;
            }
        },
        JsonLevel::Object(v) => {
            let ghost m = t->Object_0;
            let ghost start = fields@;
            let mut k: usize = 0;
            while k < v.len()
                invariant
                    k <= v@.len(),
                    t == JsonV::Object(m),
                    v@.len() == m.len(),
                    forall|j: int| 0 <= j < m.len() ==> (#[trigger] v@[j]).0@ == m[j].0 && parses_to(v@[j].1@, m[j].1),
                    fields@ == flatten_members(prefix@, m, k as nat, start),
                decreases v@.len() - k,
            {
                let mut child_key = owned(prefix);
                if !prefix.is_empty() {
                    push_char(&mut child_key, '.');
                    push_str(&mut child_key, v[k].0.as_str());
                    assert(child_key@ == prefix@ + "."@ + v@[k as int].0@) by {
                        reveal_strlit(".");
                        assert(prefix@.push('.') == prefix@ + "."@);
                    }
                } else {
                    child_key = v[k].0.clone();
                    assert(prefix@.len() == 0);
                }
                assert(v@[k as int].0@ == m[k as int].0);
                assert(parses_to(v@[k as int].1@, m[k as int].1));
                match json_level(v[k].1.as_str()) {
                    Ok(cl) => {
                        proof {
                            assert(decreases_to!(t => t->Object_0));
                            assert(decreases_to!(t->Object_0 => t->Object_0[k as int]));
                            assert(decreases_to!(t->Object_0[k as int] => t->Object_0[k as int].1));
                            assert(decreases_to!(t => m[k as int].1));
                        }
                        flatten_level(cl, Ghost(m[k as int].1), child_key.as_str(), fields);
                    },
                    Err(_) => {},
                }
                k += 1;
            }
        },
    }
}

impl JsonDecoder {
    pub fn name(&self) -> (r: &'static str)
        ensures
            r@ == "json"@,
    {
        "json"
    }

    /// Decode one JSON record.
    pub fn decode(&self, input: &str) -> (r: Result<Decoded, DecodeError>)
        ensures
            outcome(r) == json_outcome(input@),
    {
        let cs = chars_of(input);
        let (a, b) = trim_range(&cs, 0, cs.len());
        assert(part(cs@, 0, cs@.len() as int) == input@);
        if a == b {
            return Err(DecodeError::Empty);
        }
        let text = string_range(&cs, a, b);
        assert(text@ == trim(input@));
        let l = match json_level(text.as_str()) {
            Ok(l) => l,
            Err(detail) => {
                return Err(DecodeError::NotThisFormat { format: "json", detail });
            },
        };
        let ghost t = json_tree(text@)->Ok_0;
        match l {
            JsonLevel::Array(_) | JsonLevel::Object(_) => {},
            _ => {
                return Err(DecodeError::NotThisFormat { format: "json", detail: owned("top level is a scalar, not an object") });
            },
        }
        assert(t is Object || t is Array);
        let mut fields = FieldMap::with_capacity(32);
        proof {
            reveal_strlit("");
        }
        assert(""@ == Seq::<char>::empty());
        flatten_level(l, Ghost(t), "", &mut fields);
        assert(fields@ == flatten(Seq::empty(), t, Seq::empty()));
        Ok(Decoded::terminal(fields))
    }
}

// ---------------------------------------------------------------------------
// How keys are formed
// ---------------------------------------------------------------------------

/// A member of an object nested under `prefix` is keyed `prefix.name`; at
/// the top level, by its name alone.
pub proof fn members_are_keyed_by_path(prefix: Seq<char>, name: Seq<char>, v: Seq<char>, e: Entries)
    ensures
        flatten(prefix, JsonV::Object(seq![(name, JsonV::Str(v))]), e)
            == insert_entry(e, if prefix.len() == 0 { name } else { prefix + "."@ + name }, ValueV::Str(v)),
{
    let m = seq![(name, JsonV::Str(v))];
    assert(flatten_members(prefix, m, 0, e) == e);
    assert(flatten_members(prefix, m, 1, e) == flatten(member_key(prefix, name), JsonV::Str(v), e));
}

/// An array under `prefix` gives `prefix.len`, its length, then each item
/// keyed `prefix.0`, `prefix.1`, ... in order.
pub proof fn items_are_keyed_by_index(prefix: Seq<char>, a: Seq<char>, b: Seq<char>, e: Entries)
    ensures
        flatten(prefix, JsonV::Array(seq![JsonV::Str(a), JsonV::Str(b)]), e)
            == insert_entry(
                insert_entry(insert_entry(e, prefix + ".len"@, ValueV::Int(2)), prefix + "."@ + seq!['0'], ValueV::Str(a)),
                prefix + "."@ + seq!['1'],
                ValueV::Str(b),
            ),
{
    let items = seq![JsonV::Str(a), JsonV::Str(b)];
    let e0 = insert_entry(e, prefix + ".len"@, ValueV::Int(2));
    assert(dec(0) == seq!['0']);
    assert(dec(1) == seq!['1']);
    assert(flatten_items(prefix, items, 0, e0) == e0);
    assert(flatten_items(prefix, items, 1, e0) == flatten(prefix + "."@ + dec(0), items[0], e0));
    assert(flatten_items(prefix, items, 2, e0) == flatten(prefix + "."@ + dec(1), items[1], flatten_items(prefix, items, 1, e0)));
}

/// A number is kept as an integer where it has one, else as its text; a
/// boolean and a null are kept as such.
pub proof fn scalars_keep_their_kind(prefix: Seq<char>, n: i64, text: Seq<char>, b: bool, e: Entries)
    ensures
        flatten(prefix, JsonV::Number(Some(n), text), e) == insert_entry(e, prefix, ValueV::Int(n)),
        flatten(prefix, JsonV::Number(None, text), e) == insert_entry(e, prefix, ValueV::Float(text)),
        flatten(prefix, JsonV::Bool(b), e) == insert_entry(e, prefix, ValueV::Bool(b)),
        flatten(prefix, JsonV::Null, e) == insert_entry(e, prefix, ValueV::Null),
{
}

} // verus!
