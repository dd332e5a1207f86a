//! Minimal XML element/attribute decoder.
//!
//! Security logs from Check Point SmartConsole and Windows Event Forwarding
//! arrive as small XML documents with shallow nesting. Element text and
//! attributes become dotted keys: `<Event><Data Name="x">v</Data></Event>`
//! gives `Event.Data.@Name = x` and `Event.Data = v`.
//!
//! The walk is tolerant: comments and processing instructions are skipped,
//! CDATA markers are dropped and a section's content read as plain text,
//! and malformed markup still yields whatever fields can be read. A repeated sibling element carries its index (`Data.1`,
//! `Data.2`) over its whole subtree.
use vstd::prelude::*;
use crate::decode::{DecodeError, Decoded, Outcome, outcome};
use crate::field::{Entries, FieldMap, Value, ValueV, dec_num, has_key, key_index, lemma_key_index};
use crate::generator::llm::char_vecs;
use crate::text::{
    chars_of, chars_range, dec, eq_char, find, find_char, find_p, find_seq, find_str, find_ws, is_prefix,
    is_ws, lemma_find_p, lemma_find_seq, lemma_trail_bound, owned, part, push_char, push_dec,
    starts_with_at, string_of, trail, trim, trim_range, ws_p,
};

verus! {

#[derive(Debug, Clone, Copy)]
pub struct XmlDecoder;

// ---------------------------------------------------------------------------
// Entities
// ---------------------------------------------------------------------------

/// `s` with each occurrence of `pat`, taken left to right without overlap,
/// replaced by `rep` (`str::replace`).
pub open spec fn replace(s: Seq<char>, pat: Seq<char>, rep: char) -> Seq<char>
    decreases s.len(),
{
    if pat.len() == 0 {
        s
    } else {
        match find_seq(s, pat) {
            Some(i) => if 0 <= i && i + pat.len() <= s.len() {
                s.take(i) + seq![rep] + replace(s.skip(i + pat.len()), pat, rep)
            } else {
                s
            },
            None => s,
        }
    }
}

/// The five predefined entities expanded, `&amp;` last so that `&amp;lt;`
/// stays the text `&lt;`.
pub open spec fn entities(s: Seq<char>) -> Seq<char> {
    replace(
        replace(replace(replace(replace(s, "&lt;"@, '<'), "&gt;"@, '>'), "&quot;"@, '"'), "&apos;"@, '\''),
        "&amp;"@,
        '&',
    )
}

proof fn lemma_replace_step(t: Seq<char>, pat: Seq<char>, rep: char)
    requires
        pat.len() > 0,
        t.len() > 0,
        !is_prefix(pat, t),
    ensures
        replace(t, pat, rep) == seq![t[0]] + replace(t.drop_first(), pat, rep),
{
    lemma_find_seq(t, pat);
    lemma_find_seq(t.drop_first(), pat);
    match find_seq(t.drop_first(), pat) {
        Some(j) => {
            assert(t.take(j + 1) == seq![t[0]] + t.drop_first().take(j));
            assert(t.skip(j + 1 + pat.len()) == t.drop_first().skip(j + pat.len()));
            assert(seq![t[0]] + (t.drop_first().take(j) + seq![rep] + replace(t.drop_first().skip(j + pat.len()), pat, rep))
                == t.take(j + 1) + seq![rep] + replace(t.skip(j + 1 + pat.len()), pat, rep));
        },
        None => {
            assert(t == seq![t[0]] + t.drop_first());
        },
    }
}

/// `replace(s[lo..hi], pat, rep)`.
fn replace_range(s: &[char], lo: usize, hi: usize, pat: &[char], rep: char) -> (r: Vec<char>)
    requires
        lo <= hi <= s@.len(),
        pat@.len() > 0,
    ensures
        r@ == replace(s@.subrange(lo as int, hi as int), pat@, rep),
{
    let mut out: Vec<char> = Vec::new();
    let mut i = lo;
    while i < hi
        invariant
            lo <= i <= hi <= s@.len(),
            pat@.len() > 0,
            out@ + replace(s@.subrange(i as int, hi as int), pat@, rep) == replace(s@.subrange(lo as int, hi as int), pat@, rep),
        decreases hi - i,
    {
        let ghost t = s@.subrange(i as int, hi as int);
        let ghost before = out@;
        if starts_with_at(s, i, hi, pat) {
            proof {
                assert(find_seq(t, pat@) == Some(0int));
                assert(t.take(0) + seq![rep] + replace(t.skip(pat@.len() as int), pat@, rep) == seq![rep] + replace(t.skip(pat@.len() as int), pat@, rep));
                assert(t.skip(pat@.len() as int) == s@.subrange(i + pat@.len(), hi as int));
            }
            out.push(rep);
            assert(out@ + replace(s@.subrange(i + pat@.len(), hi as int), pat@, rep) == before + replace(t, pat@, rep));
            i = i + pat.len();
        } else {
            proof {
                lemma_replace_step(t, pat@, rep);
                assert(t[0] == s@[i as int]);
                assert(t.drop_first() == s@.subrange(i + 1, hi as int));
            }
            out.push(s[i]);
            assert(out@ + replace(s@.subrange(i + 1, hi as int), pat@, rep) == before + replace(t, pat@, rep));
            i += 1;
        }
    }
    assert(replace(s@.subrange(hi as int, hi as int), pat@, rep) == Seq::<char>::empty());
    assert(out@ + Seq::<char>::empty() == out@);
    out
}

/// `entities(s[lo..hi])`.
fn expand_entities(s: &[char], lo: usize, hi: usize) -> (r: Vec<char>)
    requires
        lo <= hi <= s@.len(),
    ensures
        r@ == entities(s@.subrange(lo as int, hi as int)),
{
    let lt = chars_of("&lt;");
    let gt = chars_of("&gt;");
    let quot = chars_of("&quot;");
    let apos = chars_of("&apos;");
    let amp = chars_of("&amp;");
    proof {
        reveal_strlit("&lt;");
        reveal_strlit("&gt;");
        reveal_strlit("&quot;");
        reveal_strlit("&apos;");
        reveal_strlit("&amp;");
    }
    let a = replace_range(s, lo, hi, &lt, '<');
    assert(a@.subrange(0, a@.len() as int) == a@);
    let b = replace_range(&a, 0, a.len(), &gt, '>');
    assert(b@.subrange(0, b@.len() as int) == b@);
    let c = replace_range(&b, 0, b.len(), &quot, '"');
    assert(c@.subrange(0, c@.len() as int) == c@);
    let d = replace_range(&c, 0, c.len(), &apos, '\'');
    assert(d@.subrange(0, d@.len() as int) == d@);
    replace_range(&d, 0, d.len(), &amp, '&')
}

// ---------------------------------------------------------------------------
// Keys
// ---------------------------------------------------------------------------

/// The first `n` from `m` on, up to `e.len()`, such that `key.n` is not yet
/// a key of `e`. When `key` itself is a key of `e` there always is one: at
/// most `e.len() - 1` of the names `key.1`, ..., `key.{e.len()}` can be taken.
pub open spec fn first_free(e: Entries, key: Seq<char>, m: nat) -> Option<nat>
    decreases e.len() + 1 - m,
{
    if m > e.len() {
        None
    } else if !has_key(e, key + seq!['.'] + dec(m)) {
        Some(m)
    } else {
        first_free(e, key, m + 1)
    }
}

/// Adds `(key, v)` without displacing an entry that already holds `key`: a
/// taken key gets the first free suffix `.1`, `.2`, ...
pub open spec fn insert_unique(e: Entries, key: Seq<char>, v: ValueV) -> Entries {
    if !has_key(e, key) {
        e.push((key, v))
    } else {
        match first_free(e, key, 1) {
            Some(n) => e.push((key + seq!['.'] + dec(n), v)),
            None => e,
        }
    }
}

/// `key.n` as a string.
fn numbered(key: &[char], n: u64) -> (r: String)
    ensures
        r@ == key@ + seq!['.'] + dec(n as nat),
{
    let mut out = string_of(key);
    push_char(&mut out, '.');
    push_dec(&mut out, n);
    out
}

fn insert_unique_exec(fields: &mut FieldMap, key: &[char], value: Value)
    ensures
        final(fields)@ == insert_unique(old(fields)@, key@, value@),
{
    let k = string_of(key);
    if !fields.contains(k.as_str()) {
        fields.push_unchecked(k.as_str(), value);
        return;
    }
    let bound = fields.len();
    let mut n: usize = 1;
    while n <= bound
        invariant
            1 <= n,
            bound == fields@.len(),
            fields@ == old(fields)@,
            has_key(fields@, key@),
            first_free(fields@, key@, 1) == first_free(fields@, key@, n as nat),
        decreases bound + 1 - n,
    {
        let cand = numbered(key, n as u64);
        if !fields.contains(cand.as_str()) {
            fields.push_unchecked(cand.as_str(), value);
            return;
        }
        if n == bound {
            assert(first_free(fields@, key@, (n + 1) as nat) is None);
            return;
        }
        n += 1;
    }
}

/// How many times `x` occurs in `v`.
pub open spec fn count_in(v: Seq<Seq<char>>, x: Seq<char>) -> nat
    decreases v.len(),
{
    if v.len() == 0 {
        0
    } else {
        count_in(v.drop_last(), x) + if v.last() == x { 1nat } else { 0nat }
    }
}

fn count_in_exec(v: &Vec<Vec<char>>, x: &[char]) -> (r: usize)
    ensures
        r == count_in(char_vecs(v@), x@),
{
    let ghost cv = char_vecs(v@);
    let mut n: usize = 0;
    let mut i: usize = 0;
    while i < v.len()
        invariant
            i <= v@.len(),
            cv == char_vecs(v@),
            n == count_in(cv.take(i as int), x@),
            n <= i,
        decreases v@.len() - i,
    {
        assert(cv.take(i + 1).drop_last() == cv.take(i as int));
        assert(cv.take(i + 1).last() == v@[i as int]@);
        let a = v[i].as_slice();
        assert(a@.subrange(0, a@.len() as int) == a@);
        assert(x@.subrange(0, x@.len() as int) == x@);
        if crate::text::seq_eq(a, 0, a.len(), x, 0, x.len()) {
            n += 1;
        }
        i += 1;
    }
    assert(cv.take(v@.len() as int) == cv);
    n
}

// ---------------------------------------------------------------------------
// Attributes
// ---------------------------------------------------------------------------

/// The attribute `name="value"` of the element keyed `key`, added to `e`.
pub open spec fn add_attr(e: Entries, key: Seq<char>, name: Seq<char>, value: Seq<char>) -> Entries {
    if name.len() > 0 {
        insert_unique(e, key + seq!['.', '@'] + name, ValueV::Str(entities(trim(value))))
    } else {
        e
    }
}

/// The attributes in `t` (trimmed), added in order: `name=` then a value in
/// double or single quotes, or up to the next whitespace. A quote that never
/// closes ends the walk.
pub open spec fn attr_walk(t: Seq<char>, key: Seq<char>, e: Entries) -> Entries
    decreases t.len(),
{
    if t.len() == 0 {
        e
    } else {
        match find(t, '=') {
            None => e,
            Some(eq) => if !(0 <= eq < t.len()) {
                e
            } else {
                let name = trim(t.take(eq));
                let after = trim(t.skip(eq + 1));
                if after.len() > 0 && (after[0] == '"' || after[0] == '\'') {
                    let inner = after.skip(1);
                    match find(inner, after[0]) {
                        None => e,
                        Some(end) => if 0 <= end < inner.len() && trim(inner.skip(end + 1)).len() < t.len() {
                            attr_walk(trim(inner.skip(end + 1)), key, add_attr(e, key, name, inner.take(end)))
                        } else {
                            e
                        },
                    }
                } else {
                    match find_p(after, ws_p()) {
                        Some(end) => if 0 <= end <= after.len() && trim(after.skip(end)).len() < t.len() {
                            attr_walk(trim(after.skip(end)), key, add_attr(e, key, name, after.take(end)))
                        } else {
                            e
                        },
                        None => add_attr(e, key, name, after),
                    }
                }
            },
        }
    }
}

proof fn lemma_trim_len(s: Seq<char>)
    ensures
        trim(s).len() <= s.len(),
{
    crate::text::lemma_lead_bound(s, ws_p());
    lemma_trail_bound(s.skip(crate::text::lead(s, ws_p()) as int), ws_p());
}

fn add_attr_exec(fields: &mut FieldMap, key: &[char], s: &[char], nlo: usize, nhi: usize, vlo: usize, vhi: usize)
    requires
        nlo <= nhi <= s@.len(),
        vlo <= vhi <= s@.len(),
    ensures
        final(fields)@ == add_attr(old(fields)@, key@, s@.subrange(nlo as int, nhi as int), s@.subrange(vlo as int, vhi as int)),
{
    if nlo < nhi {
        let mut k: Vec<char> = Vec::new();
        let mut i: usize = 0;
        while i < key.len()
            invariant
                i <= key@.len(),
                k@ == key@.take(i as int),
            decreases key@.len() - i,
        {
            k.push(key[i]);
            assert(key@.take(i + 1) == key@.take(i as int).push(key@[i as int]));
            i += 1;
        }
        assert(key@.take(key@.len() as int) == key@);
        k.push('.');
        k.push('@');
        let mut j = nlo;
        while j < nhi
            invariant
                nlo <= j <= nhi <= s@.len(),
                k@ == key@ + seq!['.', '@'] + s@.subrange(nlo as int, j as int),
            decreases nhi - j,
        {
            k.push(s[j]);
            assert(s@.subrange(nlo as int, j + 1) == s@.subrange(nlo as int, j as int).push(s@[j as int]));
            j += 1;
        }
        let (a, b) = trim_range(s, vlo, vhi);
        let text = expand_entities(s, a, b);
        insert_unique_exec(fields, &k, Value::Str(string_of(&text)));
    }
}

/// Adds the attributes of `trim(s[lo..hi])`.
fn attr_walk_exec(s: &[char], lo: usize, hi: usize, key: &[char], fields: &mut FieldMap)
    requires
        lo <= hi <= s@.len(),
    ensures
        final(fields)@ == attr_walk(trim(s@.subrange(lo as int, hi as int)), key@, old(fields)@),
    decreases hi - lo,
{
    let (tlo, thi) = trim_range(s, lo, hi);
    let ghost t = s@.subrange(tlo as int, thi as int);
    if tlo == thi {
        return;
    }
    let eq = match find_char(s, tlo, thi, '=') {
        Some(eq) => eq,
        None => return,
    };
    let (nlo, nhi) = trim_range(s, tlo, eq);
    let (alo, ahi) = trim_range(s, eq + 1, thi);
    proof {
        assert(t.take(eq - tlo) == s@.subrange(tlo as int, eq as int));
        assert(t.skip(eq - tlo + 1) == s@.subrange(eq + 1, thi as int));
    }
    let ghost after = s@.subrange(alo as int, ahi as int);
    if alo < ahi && (s[alo] == '"' || s[alo] == '\'') {
        let q = s[alo];
        assert(after[0] == q);
        assert(after.skip(1) == s@.subrange(alo + 1, ahi as int));
        match find_char(s, alo + 1, ahi, q) {
            None => {},
            Some(end) => {
                proof {
                    assert(after.skip(1).take(end - alo - 1) == s@.subrange(alo + 1, end as int));
                    assert(after.skip(1).skip(end - alo - 1 + 1) == s@.subrange(end + 1, ahi as int));
                    lemma_trim_len(s@.subrange(end + 1, ahi as int));
                }
                add_attr_exec(fields, key, s, nlo, nhi, alo + 1, end);
                attr_walk_exec(s, end + 1, ahi, key, fields);
            },
        }
    } else {
        match find_ws(s, alo, ahi) {
            Some(end) => {
                proof {
                    assert(after.take(end - alo) == s@.subrange(alo as int, end as int));
                    assert(after.skip(end - alo) == s@.subrange(end as int, ahi as int));
                    assert(ws_p() == |c: char| is_ws(c));
                    lemma_trim_len(s@.subrange(end as int, ahi as int));
                }
                add_attr_exec(fields, key, s, nlo, nhi, alo, end);
                attr_walk_exec(s, end, ahi, key, fields);
            },
            None => {
                assert(ws_p() == |c: char| is_ws(c));
                add_attr_exec(fields, key, s, nlo, nhi, alo, ahi);
            },
        }
    }
}


// ---------------------------------------------------------------------------
// Elements
// ---------------------------------------------------------------------------

/// A character that may follow an element name in an opening tag.
pub open spec fn after_name(c: char) -> bool {
    c == ' ' || c == '\t' || c == '\n' || c == '\r' || c == '>' || c == '/'
}

/// Where `</name>` closes the element whose content starts `t`, scanning
/// from `p` with `d` nested `<name` elements still open. `<nameX` is no
/// nested element unless `X` may follow a name.
pub open spec fn closing_from(t: Seq<char>, name: Seq<char>, p: int, d: nat) -> Option<int>
    decreases t.len() - p,
{
    let close = seq!['<', '/'] + name + seq!['>'];
    let open = seq!['<'] + name;
    if p < 0 || p >= t.len() {
        None
    } else if is_prefix(close, t.skip(p)) {
        if d == 0 {
            Some(p)
        } else {
            closing_from(t, name, p + close.len(), (d - 1) as nat)
        }
    } else if is_prefix(open, t.skip(p)) {
        closing_from(
            t,
            name,
            p + open.len(),
            if p + open.len() < t.len() && after_name(t[p + open.len()]) { d + 1 } else { d },
        )
    } else {
        closing_from(t, name, p + 1, d)
    }
}

/// A tag's content without its trailing `/`s.
pub open spec fn tag_body(tc: Seq<char>) -> Seq<char> {
    tc.take(tc.len() - trail(tc, eq_char('/')))
}

/// The element name: the tag body up to the first whitespace.
pub open spec fn tag_name(tb: Seq<char>) -> Seq<char> {
    match find_p(tb, ws_p()) {
        Some(i) => tb.take(i),
        None => tb,
    }
}

/// The attribute text: the tag body after the name, trimmed.
pub open spec fn tag_attrs(tb: Seq<char>) -> Seq<char> {
    match find_p(tb, ws_p()) {
        Some(i) => tb.skip(i),
        None => Seq::empty(),
    }
}

/// The dotted path of element `name` under `prefix`.
pub open spec fn element_base(prefix: Seq<char>, name: Seq<char>) -> Seq<char> {
    if prefix.len() == 0 { name } else { prefix + seq!['.'] + name }
}

/// The key of the `occ`-th sibling (from zero) with this path.
pub open spec fn element_key(base: Seq<char>, occ: nat) -> Seq<char> {
    if occ == 0 { base } else { base + seq!['.'] + dec(occ) }
}


/// `<![CDATA[`, which opens a CDATA section.
pub open spec fn cdata_open() -> Seq<char> {
    seq!['<', '!', '[', 'C', 'D', 'A', 'T', 'A', '[']
}

/// `]]>`, which closes one.
pub open spec fn cdata_close() -> Seq<char> {
    seq![']', ']', '>']
}

/// Element content read as plain text: each complete CDATA section stands
/// for the text it holds, its markers dropped.
pub open spec fn plain_text(t: Seq<char>) -> Seq<char>
    decreases t.len(),
{
    if t.len() == 0 {
        Seq::empty()
    } else if is_prefix(cdata_open(), t) {
        match find_seq(t.skip(9), cdata_close()) {
            Some(k) => if 0 <= k && k + 3 <= t.len() - 9 {
                t.skip(9).take(k) + plain_text(t.skip(9).skip(k + 3))
            } else {
                seq![t[0]] + plain_text(t.drop_first())
            },
            None => seq![t[0]] + plain_text(t.drop_first()),
        }
    } else {
        seq![t[0]] + plain_text(t.drop_first())
    }
}

/// Element content holds markup: a `<` outside every complete CDATA section.
pub open spec fn has_markup(t: Seq<char>) -> bool
    decreases t.len(),
{
    if t.len() == 0 {
        false
    } else if is_prefix(cdata_open(), t) {
        match find_seq(t.skip(9), cdata_close()) {
            Some(k) => if 0 <= k && k + 3 <= t.len() - 9 {
                has_markup(t.skip(9).skip(k + 3))
            } else {
                true
            },
            None => true,
        }
    } else {
        t[0] == '<' || has_markup(t.drop_first())
    }
}

/// The fields of the markup in `s[lo..hi]`, added to `e`. `prefix` is the
/// dotted path of the enclosing element and `seen` the paths of the
/// siblings met so far, in order.
pub open spec fn walk(s: Seq<char>, lo: int, hi: int, prefix: Seq<char>, seen: Seq<Seq<char>>, e: Entries) -> Entries
    decreases hi - lo,
{
    if lo < 0 || hi > s.len() || lo >= hi {
        e
    } else {
        match find(s.subrange(lo, hi), '<') {
            None => e,
            Some(o) => if !(0 <= o < hi - lo) {
                e
            } else {
                let a = lo + o + 1;
                let after = s.subrange(a, hi);
                if is_prefix("!--"@, after) {
                    match find_seq(after, "-->"@) {
                        Some(k) => if 0 <= k && a + k + 3 <= hi { walk(s, a + k + 3, hi, prefix, seen, e) } else { e },
                        None => e,
                    }
                } else if is_prefix("?"@, after) {
                    match find_seq(after, "?>"@) {
                        Some(k) => if 0 <= k && a + k + 2 <= hi { walk(s, a + k + 2, hi, prefix, seen, e) } else { e },
                        None => e,
                    }
                } else if is_prefix("![CDATA["@, after) {
                    match find_seq(after, "]]>"@) {
                        Some(k) => if 0 <= k && a + k + 3 <= hi { walk(s, a + k + 3, hi, prefix, seen, e) } else { e },
                        None => e,
                    }
                } else if is_prefix("/"@, after) {
                    match find(after, '>') {
                        Some(k) => if 0 <= k && a + k + 1 <= hi { walk(s, a + k + 1, hi, prefix, seen, e) } else { e },
                        None => e,
                    }
                } else {
                    match find(after, '>') {
                        None => e,
                        Some(te) => if !(0 <= te && a + te < hi) {
                            e
                        } else {
                            let tc = s.subrange(a, a + te);
                            let tb = tag_body(tc);
                            let name = tag_name(tb);
                            let next = a + te + 1;
                            if name.len() == 0 || name[0] == '!' {
                                walk(s, next, hi, prefix, seen, e)
                            } else {
                                let base = element_base(prefix, name);
                                let key = element_key(base, count_in(seen, base));
                                let e2 = attr_walk(trim(tag_attrs(tb)), key, e);
                                if tc.len() > 0 && tc.last() == '/' {
                                    walk(s, next, hi, prefix, seen.push(base), e2)
                                } else {
                                    match closing_from(s.subrange(next, hi), name, 0, 0) {
                                        Some(cp) => if 0 <= cp && next + cp + name.len() + 3 <= hi {
                                            let inner = trim(s.subrange(next, next + cp));
                                            let text = trim(plain_text(inner));
                                            let e3 = if has_markup(inner) {
                                                walk(s, next, next + cp, key, Seq::empty(), e2)
                                            } else if text.len() > 0 {
                                                insert_unique(e2, key, ValueV::Str(entities(text)))
                                            } else {
                                                e2
                                            };
                                            walk(s, next + cp + name.len() + 3, hi, prefix, seen.push(base), e3)
                                        } else {
                                            e2
                                        },
                                        None => walk(s, next, hi, prefix, seen.push(base), e2),
                                    }
                                }
                            }
                        },
                    }
                }
            },
        }
    }
}

/// What decoding `input` as XML gives: the fields of the trimmed input's
/// markup, refused when it is not markup or yields nothing.
pub open spec fn xml_outcome(input: Seq<char>) -> Outcome {
    let t = trim(input);
    if t.len() == 0 {
        Outcome::Empty
    } else if t[0] != '<' {
        Outcome::NotThisFormat("xml"@, "input does not start with '<'"@)
    } else {
        let f = walk(t, 0, t.len() as int, Seq::empty(), Seq::empty(), Seq::empty());
        if f.len() == 0 {
            Outcome::NotThisFormat("xml"@, "no elements or attributes extracted"@)
        } else {
            Outcome::Fields(f, None)
        }
    }
}

/// `closing_from(s[lo..hi], name, 0, 0)`, as an index into `s`.
fn closing_tag(s: &[char], lo: usize, hi: usize, name: &[char]) -> (r: Option<usize>)
    requires
        lo <= hi <= s@.len(),
    ensures
        match closing_from(s@.subrange(lo as int, hi as int), name@, 0, 0) {
            Some(p) => r == Some((lo + p) as usize) && 0 <= p && lo + p + name@.len() + 3 <= hi,
            None => r is None,
        },
{
    let ghost t = s@.subrange(lo as int, hi as int);
    let mut close: Vec<char> = Vec::new();
    close.push('<');
    close.push('/');
    let mut open: Vec<char> = Vec::new();
    open.push('<');
    let mut i: usize = 0;
    while i < name.len()
        invariant
            i <= name@.len(),
            close@ == seq!['<', '/'] + name@.take(i as int),
            open@ == seq!['<'] + name@.take(i as int),
        decreases name@.len() - i,
    {
        close.push(name[i]);
        open.push(name[i]);
        assert(name@.take(i + 1) == name@.take(i as int).push(name@[i as int]));
        i += 1;
    }
    close.push('>');
    assert(name@.take(name@.len() as int) == name@);
    assert(close@ == seq!['<', '/'] + name@ + seq!['>']);
    let mut p = lo;
    let mut d: usize = 0;
    while p < hi
        invariant
            lo <= p <= hi <= s@.len(),
            t == s@.subrange(lo as int, hi as int),
            close@ == seq!['<', '/'] + name@ + seq!['>'],
            open@ == seq!['<'] + name@,
            d <= p - lo,
            closing_from(t, name@, 0, 0) == closing_from(t, name@, p - lo, d as nat),
        decreases hi - p,
    {
        assert(t.skip(p - lo) == s@.subrange(p as int, hi as int));
        if starts_with_at(s, p, hi, &close) {
            if d == 0 {
                assert(closing_from(t, name@, p - lo, 0) == Some(p - lo));
                return Some(p);
            }
            d -= 1;
            p = p + close.len();
        } else if starts_with_at(s, p, hi, &open) {
            let q = p + open.len();
            if q < hi && (s[q] == ' ' || s[q] == '\t' || s[q] == '\n' || s[q] == '\r' || s[q] == '>' || s[q] == '/') {
                assert(t[q - lo] == s@[q as int]);
                d += 1;
            } else {
                assert(q < hi ==> t[q - lo] == s@[q as int]);
            }
            p = q;
        } else {
            p += 1;
        }
    }
    None
}

/// The end of `s[lo..hi]` without its trailing `/`s.
fn back_slashes(s: &[char], lo: usize, hi: usize) -> (r: usize)
    requires
        lo <= hi <= s@.len(),
    ensures
        lo <= r <= hi,
        hi - r == trail(s@.subrange(lo as int, hi as int), eq_char('/')),
{
    let mut j: usize = hi;
    while j > lo && s[j - 1] == '/'
        invariant
            lo <= j <= hi <= s@.len(),
            trail(s@.subrange(lo as int, hi as int), eq_char('/')) == (hi - j) + trail(s@.subrange(lo as int, j as int), eq_char('/')),
        decreases j - lo,
    {
        assert(s@.subrange(lo as int, j as int).drop_last() == s@.subrange(lo as int, j - 1));
        assert(s@.subrange(lo as int, j as int).last() == s@[j - 1]);
        j -= 1;
    }
    if j > lo {
        assert(s@.subrange(lo as int, j as int).last() == s@[j - 1]);
    }
    j
}

/// `element_base(prefix, name)`.
fn base_of(prefix: &[char], name: &Vec<char>) -> (r: Vec<char>)
    ensures
        r@ == element_base(prefix@, name@),
{
    let mut out: Vec<char> = Vec::new();
    if prefix.len() > 0 {
        out = chars_range(prefix, 0, prefix.len());
        assert(prefix@.subrange(0, prefix@.len() as int) == prefix@);
        out.push('.');
    }
    let mut i: usize = 0;
    let ghost start = out@;
    while i < name.len()
        invariant
            i <= name@.len(),
            out@ == start + name@.take(i as int),
        decreases name@.len() - i,
    {
        out.push(name[i]);
        assert(name@.take(i + 1) == name@.take(i as int).push(name@[i as int]));
        i += 1;
    }
    assert(name@.take(name@.len() as int) == name@);
    assert(Seq::<char>::empty() + name@ == name@);
    out
}

/// `element_key(base, occ)`.
fn key_of(base: &Vec<char>, occ: usize) -> (r: Vec<char>)
    ensures
        r@ == element_key(base@, occ as nat),
{
    if occ == 0 {
        let r = chars_range(base.as_slice(), 0, base.len());
        assert(base@.subrange(0, base@.len() as int) == base@);
        r
    } else {
        let k = numbered(base.as_slice(), occ as u64);
        chars_of(k.as_str())
    }
}

/// Adds the fields of the markup in `s[lo..hi]` under `prefix`.

/// `plain_text` and `has_markup` of `s[lo..hi]`.
fn read_content(s: &[char], lo: usize, hi: usize) -> (r: (Vec<char>, bool))
    requires
        lo <= hi <= s@.len(),
    ensures
        r.0@ == plain_text(s@.subrange(lo as int, hi as int)),
        r.1 == has_markup(s@.subrange(lo as int, hi as int)),
{
    let open = ['<', '!', '[', 'C', 'D', 'A', 'T', 'A', '['];
    let close = [']', ']', '>'];
    assert(open@ =~= cdata_open());
    assert(close@ =~= cdata_close());
    let ghost whole = s@.subrange(lo as int, hi as int);
    let mut out: Vec<char> = Vec::new();
    let mut markup = false;
    let mut i = lo;
    while i < hi
        invariant
            lo <= i <= hi <= s@.len(),
            open@ == cdata_open(),
            close@ == cdata_close(),
            whole == s@.subrange(lo as int, hi as int),
            plain_text(whole) == out@ + plain_text(s@.subrange(i as int, hi as int)),
            has_markup(whole) == (markup || has_markup(s@.subrange(i as int, hi as int))),
        decreases hi - i,
    {
        let ghost t = s@.subrange(i as int, hi as int);
        let ghost before = out@;
        assert(t[0] == s@[i as int]);
        assert(t.drop_first() == s@.subrange(i + 1, hi as int));
        if hi - i >= 9 && starts_with_at(s, i, hi, &open) {
            assert(is_prefix(cdata_open(), t));
            assert(t.skip(9) == s@.subrange(i + 9, hi as int));
            match find_str(s, i + 9, hi, &close) {
                Some(k) => {
                    proof {
                        lemma_find_seq(t.skip(9), cdata_close());
                    }
                    let mut j = i + 9;
                    while j < k
                        invariant
                            i + 9 <= j <= k <= hi <= s@.len(),
                            out@ == before + s@.subrange(i + 9, j as int),
                        decreases k - j,
                    {
                        out.push(s[j]);
                        assert(s@.subrange(i + 9, j + 1) == s@.subrange(i + 9, j as int).push(s@[j as int]));
                        j += 1;
                    }
                    assert(t.skip(9).take(k - (i + 9)) == s@.subrange(i + 9, k as int));
                    assert(t.skip(9).skip(k - (i + 9) + 3) == s@.subrange(k + 3, hi as int));
                    i = k + 3;
                },
                None => {
                    markup = true;
                    out.push(s[i]);
                    i += 1;
                },
            }
        } else {
            proof {
                if is_prefix(cdata_open(), t) {
                    assert(t.len() >= 9);
                    assert(t.subrange(0, 9) == cdata_open());
                    assert(s@.subrange(i as int, hi as int).subrange(0, 9) == cdata_open());
                }
            }
            if s[i] == '<' {
                markup = true;
            }
            out.push(s[i]);
            i += 1;
        }
    }
    assert(s@.subrange(hi as int, hi as int).len() == 0);
    (out, markup)
}

#[verifier::rlimit(60)]
fn walk_exec(s: &[char], lo: usize, hi: usize, prefix: &[char], fields: &mut FieldMap)
    requires
        lo <= hi <= s@.len(),
    ensures
        final(fields)@ == walk(s@, lo as int, hi as int, prefix@, Seq::empty(), old(fields)@),
    decreases hi - lo,
{
    let bang = chars_of("!--");
    let bang_end = chars_of("-->");
    let quest = chars_of("?");
    let quest_end = chars_of("?>");
    let cdata = chars_of("![CDATA[");
    let cdata_end = chars_of("]]>");
    let slash = chars_of("/");
    proof {
        reveal_strlit("!--");
        reveal_strlit("-->");
        reveal_strlit("?");
        reveal_strlit("?>");
        reveal_strlit("![CDATA[");
        reveal_strlit("]]>");
        reveal_strlit("/");
    }
    let mut pos = lo;
    let mut seen: Vec<Vec<char>> = Vec::new();
    let ghost target = walk(s@, lo as int, hi as int, prefix@, Seq::empty(), fields@);
    assert(char_vecs(seen@) =~= Seq::<Seq<char>>::empty());
    loop
        invariant
            lo <= pos <= hi <= s@.len(),
            bang@ == "!--"@, bang_end@ == "-->"@, quest@ == "?"@, quest_end@ == "?>"@,
            cdata@ == "![CDATA["@, cdata_end@ == "]]>"@, slash@ == "/"@,
            target == walk(s@, lo as int, hi as int, prefix@, Seq::empty(), old(fields)@),
            target == walk(s@, pos as int, hi as int, prefix@, char_vecs(seen@), fields@),
        ensures
            fields@ == target,
        decreases hi - pos,
    {
        let ghost sv = char_vecs(seen@);
        let ghost e = fields@;
        proof {
            reveal_strlit("!--");
            reveal_strlit("-->");
            reveal_strlit("?");
            reveal_strlit("?>");
            reveal_strlit("![CDATA[");
            reveal_strlit("]]>");
            reveal_strlit("/");
        }
        if pos == hi {
            break;
        }
        let o = match find_char(s, pos, hi, '<') {
            Some(o) => o,
            None => break,
        };
        let a = o + 1;
        let ghost after = s@.subrange(a as int, hi as int);
        if starts_with_at(s, a, hi, &bang) {
            match find_str(s, a, hi, &bang_end) {
                Some(k) => {
                    proof { lemma_find_seq(after, "-->"@); }
                    pos = k + 3;
                },
                None => break,
            }
        } else if starts_with_at(s, a, hi, &quest) {
            match find_str(s, a, hi, &quest_end) {
                Some(k) => {
                    proof { lemma_find_seq(after, "?>"@); }
                    pos = k + 2;
                },
                None => break,
            }
        } else if starts_with_at(s, a, hi, &cdata) {
            match find_str(s, a, hi, &cdata_end) {
                Some(k) => {
                    proof { lemma_find_seq(after, "]]>"@); }
                    pos = k + 3;
                },
                None => break,
            }
        } else if starts_with_at(s, a, hi, &slash) {
            match find_char(s, a, hi, '>') {
                Some(k) => {
                    pos = k + 1;
                },
                None => break,
            }
        } else {
            let te = match find_char(s, a, hi, '>') {
                Some(te) => te,
                None => break,
            };
            let ghost tc = s@.subrange(a as int, te as int);
            let tb_end = back_slashes(s, a, te);
            let ghost tb = s@.subrange(a as int, tb_end as int);
            assert(tb == tag_body(tc));
            let name_end = match find_ws(s, a, tb_end) {
                Some(i) => i,
                None => tb_end,
            };
            proof {
                assert(ws_p() == |c: char| is_ws(c));
                assert(tag_name(tb) == s@.subrange(a as int, name_end as int));
                assert(tag_attrs(tb) == s@.subrange(name_end as int, tb_end as int));
            }
            let self_closing = te > a && s[te - 1] == '/';
            assert(self_closing == (tc.len() > 0 && tc.last() == '/'));
            if name_end == a || s[a] == '!' {
                pos = te + 1;
            } else {
                let name = chars_range(s, a, name_end);
                let base = base_of(prefix, &name);
                let occ = count_in_exec(&seen, base.as_slice());
                let key = key_of(&base, occ);
                attr_walk_exec(s, name_end, tb_end, key.as_slice(), fields);
                let ghost e2 = fields@;
                seen.push(base);
                assert(char_vecs(seen@) =~= sv.push(element_base(prefix@, name@)));
                if self_closing {
                    pos = te + 1;
                } else {
                    let next = te + 1;
                    match closing_tag(s, next, hi, name.as_slice()) {
                        Some(cp) => {
                            let (x, y) = trim_range(s, next, cp);
                            let (content, markup) = read_content(s, x, y);
                            let (u, v) = trim_range(&content, 0, content.len());
                            assert(content@.subrange(0, content@.len() as int) == content@);
                            if markup {
                                walk_exec(s, next, cp, key.as_slice(), fields);
                            } else if u < v {
                                let text = expand_entities(&content, u, v);
                                insert_unique_exec(fields, key.as_slice(), Value::Str(string_of(&text)));
                            }
                            pos = cp + name.len() + 3;
                        },
                        None => {
                            pos = next;
                        },
                    }
                }
            }
        }
    }
}

impl XmlDecoder {
    pub fn name(&self) -> (r: &'static str)
        ensures
            r@ == "xml"@,
    {
        "xml"
    }

    /// Decode one XML record.
    pub fn decode(&self, input: &str) -> (r: Result<Decoded, DecodeError>)
        ensures
            outcome(r) == xml_outcome(input@),
    {
        let cs = chars_of(input);
        let (lo, hi) = trim_range(&cs, 0, cs.len());
        assert(part(cs@, 0, cs@.len() as int) == input@);
        if lo == hi {
            return Err(DecodeError::Empty);
        }
        if cs[lo] != '<' {
            return Err(DecodeError::NotThisFormat { format: "xml", detail: owned("input does not start with '<'") });
        }
        let t = chars_range(&cs, lo, hi);
        let mut fields = FieldMap::new();
        let root: Vec<char> = Vec::new();
        walk_exec(&t, 0, t.len(), root.as_slice(), &mut fields);
        assert(t@.subrange(0, t@.len() as int) == t@);
        if fields.is_empty() {
            Err(DecodeError::NotThisFormat { format: "xml", detail: owned("no elements or attributes extracted") })
        } else {
            Ok(Decoded::terminal(fields))
        }
    }
}

// ---------------------------------------------------------------------------
// Laws
// ---------------------------------------------------------------------------

proof fn lemma_dec_value(n: nat)
    ensures
        dec_num(dec(n)) == n,
    decreases n,
{
    let d = n % 10;
    let c = (48 + d) as char;
    assert(c as nat == 48 + d);
    assert(dec(n).len() > 0);
    assert(dec_num(dec(n)) == dec_num(dec(n).drop_last()) * 10 + (dec(n).last() as nat - 48) as nat);
    if n >= 10 {
        lemma_dec_value(n / 10);
        assert(dec(n).drop_last() == dec(n / 10));
        assert(dec(n).last() == c);
        assert((n / 10) * 10 + d == n);
    } else {
        assert(dec(n).drop_last() == Seq::<char>::empty());
        assert(dec_num(Seq::<char>::empty()) == 0);
        assert(dec(n).last() == c);
        assert(d == n);
    }
}

proof fn lemma_first_free_none(e: Entries, key: Seq<char>, m: nat)
    requires
        m >= 1,
        first_free(e, key, m) is None,
    ensures
        forall|n: nat| m <= n <= e.len() ==> has_key(e, #[trigger] (key + seq!['.'] + dec(n))),
    decreases e.len() + 1 - m,
{
    if m <= e.len() {
        lemma_first_free_none(e, key, m + 1);
    }
}

proof fn lemma_first_free_some(e: Entries, key: Seq<char>, m: nat)
    ensures
        first_free(e, key, m) matches Some(n) ==> !has_key(e, key + seq!['.'] + dec(n)),
    decreases e.len() + 1 - m,
{
    if m <= e.len() && has_key(e, key + seq!['.'] + dec(m)) {
        lemma_first_free_some(e, key, m + 1);
    }
}

/// The key of each entry.
spec fn keys_of(e: Entries) -> Seq<Seq<char>> {
    e.map_values(|x: (Seq<char>, ValueV)| x.0)
}

/// `key` and `key.1` ... `key.n`.
spec fn numbered_keys(key: Seq<char>, n: nat) -> Seq<Seq<char>> {
    seq![key] + Seq::new(n, |i: int| key + seq!['.'] + dec((i + 1) as nat))
}

proof fn lemma_some_free(e: Entries, key: Seq<char>)
    requires
        has_key(e, key),
    ensures
        first_free(e, key, 1) is Some,
{
    if first_free(e, key, 1) is None {
        lemma_first_free_none(e, key, 1);
        let n = e.len();
        let c = numbered_keys(key, n);
        let ks = keys_of(e);
        assert forall|x: int, y: int| 0 <= x < y < c.len() implies c[x] != c[y] by {
            if x == 0 {
                assert(c[y].len() > key.len());
            } else {
                let a = key + seq!['.'];
                assert(c[x] == a + dec(x as nat) && c[y] == a + dec(y as nat));
                if c[x] == c[y] {
                    assert(c[x].skip(a.len() as int) == dec(x as nat));
                    assert(c[y].skip(a.len() as int) == dec(y as nat));
                    lemma_dec_value(x as nat);
                    lemma_dec_value(y as nat);
                }
            }
        }
        assert forall|s: Seq<char>| c.to_set().contains(s) implies ks.to_set().contains(s) by {
            let x = choose|x: int| 0 <= x < c.len() && c[x] == s;
            let name = if x == 0 { key } else { key + seq!['.'] + dec(x as nat) };
            assert(c[x] == name);
            assert(has_key(e, name));
            lemma_key_index(e, name);
            let q = key_index(e, name)->Some_0;
            assert(ks[q] == name);
        }
        c.unique_seq_to_set();
        ks.lemma_cardinality_of_set();
        vstd::seq_lib::seq_to_set_is_finite(ks);
        vstd::set_lib::lemma_len_subset(c.to_set(), ks.to_set());
    }
}

/// A value added under a key that is taken is never dropped: it goes in
/// under the first free `key.n`, and there always is one.
pub proof fn a_clash_never_loses_a_value(e: Entries, key: Seq<char>, v: ValueV)
    ensures
        insert_unique(e, key, v).len() == e.len() + 1,
        insert_unique(e, key, v).drop_last() == e,
        insert_unique(e, key, v).last().1 == v,
        !has_key(e, insert_unique(e, key, v).last().0),
{
    if has_key(e, key) {
        lemma_some_free(e, key);
        lemma_first_free_some(e, key, 1);
    }
}

// ---------------------------------------------------------------------------
// Each predefined entity stands for its character
// ---------------------------------------------------------------------------

/// The five predefined entities, in the order they are expanded.
pub open spec fn entity_names() -> Seq<Seq<char>> {
    seq!["&lt;"@, "&gt;"@, "&quot;"@, "&apos;"@, "&amp;"@]
}

/// The character each entity stands for.
pub open spec fn entity_chars() -> Seq<char> {
    seq!['<', '>', '"', '\'', '&']
}

/// The first `n` expansion passes applied to `s`.
pub open spec fn passes(s: Seq<char>, n: nat) -> Seq<char>
    decreases n,
{
    if n == 0 {
        s
    } else {
        replace(passes(s, (n - 1) as nat), entity_names()[n - 1], entity_chars()[n - 1])
    }
}

/// No occurrence of `pat` in `x + y` starts inside `x`.
pub open spec fn no_start(x: Seq<char>, y: Seq<char>, pat: Seq<char>) -> bool {
    forall|i: int| 0 <= i < x.len() ==> !is_prefix(pat, #[trigger] (x + y).skip(i))
}

proof fn lemma_replace_shift(x: Seq<char>, y: Seq<char>, pat: Seq<char>, rep: char)
    requires
        pat.len() > 0,
        no_start(x, y, pat),
    ensures
        replace(x + y, pat, rep) == x + replace(y, pat, rep),
    decreases x.len(),
{
    if x.len() == 0 {
        assert(x + y =~= y);
        assert(x + replace(y, pat, rep) =~= replace(y, pat, rep));
    } else {
        let t = x + y;
        assert(t.skip(0) =~= t);
        lemma_replace_step(t, pat, rep);
        let x1 = x.drop_first();
        assert(t.drop_first() =~= x1 + y);
        assert forall|i: int| 0 <= i < x1.len() implies !is_prefix(pat, #[trigger] (x1 + y).skip(i)) by {
            assert((x1 + y).skip(i) =~= t.skip(i + 1));
        }
        lemma_replace_shift(x1, y, pat, rep);
        assert(seq![t[0]] + (x1 + replace(y, pat, rep)) =~= x + replace(y, pat, rep));
    }
}

proof fn lemma_replace_head(e: Seq<char>, y: Seq<char>, rep: char)
    requires
        e.len() > 0,
    ensures
        replace(e + y, e, rep) == seq![rep] + replace(y, e, rep),
{
    let t = e + y;
    assert(t.subrange(0, e.len() as int) =~= e);
    assert(find_seq(t, e) == Some(0int));
    assert(t.skip(e.len() as int) =~= y);
    assert(t.take(0) + seq![rep] + replace(y, e, rep) =~= seq![rep] + replace(y, e, rep));
}

proof fn lemma_entity_facts()
    ensures
        forall|k: int| 0 <= k < 5 ==> (#[trigger] entity_names()[k]).len() >= 4 && entity_names()[k][0] == '&',
        forall|k: int, j: int| 0 <= k < 5 && 1 <= j < entity_names()[k].len() ==> #[trigger] entity_names()[k][j] != '&',
        forall|k: int| 0 <= k < 4 ==> #[trigger] entity_chars()[k] != '&',
        forall|k: int, m: int| 0 <= k < 5 && 0 <= m < 5 && k != m ==>
            (#[trigger] entity_names()[k])[1] != (#[trigger] entity_names()[m])[1]
            || entity_names()[k][2] != entity_names()[m][2],
{
    reveal_strlit("&lt;");
    reveal_strlit("&gt;");
    reveal_strlit("&quot;");
    reveal_strlit("&apos;");
    reveal_strlit("&amp;");
    let n = entity_names();
    assert(n[0] == "&lt;"@ && n[1] == "&gt;"@ && n[2] == "&quot;"@ && n[3] == "&apos;"@ && n[4] == "&amp;"@);
}

/// A text without `&` starts no entity, wherever it stands.
proof fn lemma_plain_no_start(x: Seq<char>, y: Seq<char>, pat: Seq<char>)
    requires
        !x.contains('&'),
        pat.len() > 0,
        pat[0] == '&',
    ensures
        no_start(x, y, pat),
{
    assert forall|i: int| 0 <= i < x.len() implies !is_prefix(pat, #[trigger] (x + y).skip(i)) by {
        assert((x + y).skip(i)[0] == x[i]);
        if is_prefix(pat, (x + y).skip(i)) {
            assert((x + y).skip(i).subrange(0, pat.len() as int)[0] == pat[0]);
            assert(x.contains('&'));
        }
    }
}

/// Entity `k` starts no other entity `m`'s occurrence.
proof fn lemma_entity_no_start(a: Seq<char>, k: int, y: Seq<char>, m: int)
    requires
        !a.contains('&'),
        0 <= k < 5,
        0 <= m < 5,
        k != m,
    ensures
        no_start(a + entity_names()[k], y, entity_names()[m]),
{
    lemma_entity_facts();
    let e = entity_names()[k];
    let pat = entity_names()[m];
    let x = a + e;
    assert forall|i: int| 0 <= i < x.len() implies !is_prefix(pat, #[trigger] (x + y).skip(i)) by {
        let t = (x + y).skip(i);
        if is_prefix(pat, t) {
            let w = t.subrange(0, pat.len() as int);
            assert(w[0] == t[0]);
            if i < a.len() {
                assert(t[0] == a[i]);
                assert(a.contains('&'));
            } else if i == a.len() {
                assert(t[1] == e[1] && t[2] == e[2]);
                assert(w[1] == t[1] && w[2] == t[2]);
            } else {
                assert(t[0] == e[i - a.len()]);
            }
        }
    }
}

proof fn lemma_passes(a: Seq<char>, k: int, b: Seq<char>, n: nat)
    requires
        !a.contains('&'),
        0 <= k < 5,
        n <= 5,
    ensures
        n <= k ==> passes(a + entity_names()[k] + b, n) == a + entity_names()[k] + passes(b, n),
        n > k ==> passes(a + entity_names()[k] + b, n) == a + seq![entity_chars()[k]] + passes(b, n),
    decreases n,
{
    lemma_entity_facts();
    let e = entity_names()[k];
    let c = entity_chars()[k];
    if n > 0 {
        let m = (n - 1) as nat;
        lemma_passes(a, k, b, m);
        let pat = entity_names()[m as int];
        let rep = entity_chars()[m as int];
        let pb = passes(b, m);
        if m < k {
            lemma_entity_no_start(a, k, pb, m as int);
            lemma_replace_shift(a + e, pb, pat, rep);
            assert(a + e + pb =~= (a + e) + pb);
        } else if m == k {
            assert(a + e + pb =~= a + (e + pb));
            lemma_plain_no_start(a, e + pb, pat);
            lemma_replace_shift(a, e + pb, pat, rep);
            lemma_replace_head(e, pb, rep);
            assert(a + (seq![c] + replace(pb, pat, rep)) =~= a + seq![c] + replace(pb, pat, rep));
        } else {
            assert(k < 4);
            let x = a + seq![c];
            assert(!x.contains('&')) by {
                if x.contains('&') {
                    let i = choose|i: int| 0 <= i < x.len() && x[i] == '&';
                    if i < a.len() {
                        assert(a[i] == x[i]);
                        assert(a.contains('&'));
                    }
                }
            }
            lemma_plain_no_start(x, pb, pat);
            lemma_replace_shift(x, pb, pat, rep);
        }
    }
}

proof fn lemma_entities_passes(s: Seq<char>)
    ensures
        entities(s) == passes(s, 5),
{
    reveal_with_fuel(passes, 6);
}

/// Text without `&` comes through entity expansion unchanged; and each of
/// `&lt;`, `&gt;`, `&quot;`, `&apos;` and `&amp;` after such text becomes
/// its character, the rest of the text expanded in turn. So `a&apos;b`
/// reads `a'b`, and `&amp;lt;` reads `&lt;`.
pub proof fn each_entity_stands_for_its_character(a: Seq<char>, b: Seq<char>)
    requires
        !a.contains('&'),
    ensures
        entities(a) == a,
        entities(a + "&lt;"@ + b) == a + seq!['<'] + entities(b),
        entities(a + "&gt;"@ + b) == a + seq!['>'] + entities(b),
        entities(a + "&quot;"@ + b) == a + seq!['"'] + entities(b),
        entities(a + "&apos;"@ + b) == a + seq!['\''] + entities(b),
        entities(a + "&amp;"@ + b) == a + seq!['&'] + entities(b),
{
    lemma_entity_facts();
    lemma_entities_passes(a);
    lemma_entities_passes(b);
    reveal_with_fuel(passes, 6);
    let empty = Seq::<char>::empty();
    assert(a + empty =~= a);
    assert forall|m: int| 0 <= m < 5 implies replace(a, #[trigger] entity_names()[m], entity_chars()[m]) == a by {
        lemma_plain_no_start(a, empty, entity_names()[m]);
        lemma_replace_shift(a, empty, entity_names()[m], entity_chars()[m]);
    }
    assert forall|k: int| 0 <= k < 5 implies entities(a + #[trigger] entity_names()[k] + b) == a + seq![entity_chars()[k]] + entities(b) by {
        lemma_entities_passes(a + entity_names()[k] + b);
        lemma_passes(a, k, b, 5);
    }
    assert(entity_names()[0] == "&lt;"@);
    assert(entity_names()[1] == "&gt;"@);
    assert(entity_names()[2] == "&quot;"@);
    assert(entity_names()[3] == "&apos;"@);
    assert(entity_names()[4] == "&amp;"@);
}

} // verus!
