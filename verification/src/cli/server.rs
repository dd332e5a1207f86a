//! Console request checks that do not depend on the HTTP stack.
use vstd::prelude::*;
use crate::text::{lead, trail, chars_of, string_range};
use crate::cli::integrity_state::{safe_char, safe_name};

verus! {

/// The longest pack file stem the console will write.
pub const MAX_STEM: usize = 128;

pub open spec fn dot_p() -> spec_fn(char) -> bool {
    |c: char| c == '.'
}

/// `s` without its leading and trailing dots.
pub open spec fn strip_dots(s: Seq<char>) -> Seq<char> {
    let t = s.skip(lead(s, dot_p()) as int);
    t.take(t.len() - trail(t, dot_p()))
}

/// What a requested pack id reduces to: every character outside the file
/// name alphabet becomes `_`, then the dots at either end go.
pub open spec fn pack_stem(id: Seq<char>) -> Seq<char> {
    strip_dots(id.map_values(|c: char| safe_char(c)))
}

/// The file stem under which an approved pack is written, or `None` when the
/// id reduces to nothing usable (empty, or longer than `MAX_STEM`).
///
/// Nothing in the result can leave the packs directory: it holds only ASCII
/// letters, digits, `-`, `_` and inner dots, and neither starts nor ends with
/// a dot.
pub fn safe_pack_stem(id: &str) -> (r: Option<String>)
    ensures
        match r {
            Some(s) => s@ == pack_stem(id@) && 0 < s@.len() <= MAX_STEM,
            None => pack_stem(id@).len() == 0 || pack_stem(id@).len() > MAX_STEM,
        },
{
    let mapped = safe_name(id);
    let cs = chars_of(mapped.as_str());
    let ghost m = cs@;
    let mut lo: usize = 0;
    assert(m.skip(0) == m);
    while lo < cs.len() && cs[lo] == '.'
        invariant
            lo <= cs@.len(),
            cs@ == m,
            lead(m, dot_p()) == lo + lead(m.skip(lo as int), dot_p()),
        decreases cs@.len() - lo,
    {
        assert(m.skip(lo as int).drop_first() == m.skip(lo + 1));
        lo += 1;
    }
    proof {
        if lo < m.len() {
            assert(m.skip(lo as int)[0] == m[lo as int]);
        }
        assert(lead(m.skip(lo as int), dot_p()) == 0);
    }
    let ghost t = m.skip(lo as int);
    let mut hi: usize = cs.len();
    while hi > lo && cs[hi - 1] == '.'
        invariant
            lo <= hi <= cs@.len(),
            cs@ == m,
            t == m.skip(lo as int),
            trail(t, dot_p()) == (cs@.len() - hi) + trail(m.subrange(lo as int, hi as int), dot_p()),
        decreases hi - lo,
    {
        assert(m.subrange(lo as int, hi as int).drop_last() == m.subrange(lo as int, hi - 1));
        assert(m.subrange(lo as int, hi as int).last() == m[hi - 1]);
        hi -= 1;
    }
    proof {
        assert(t == m.subrange(lo as int, m.len() as int));
        if hi > lo {
            assert(m.subrange(lo as int, hi as int).last() == m[hi - 1]);
        }
        assert(trail(m.subrange(lo as int, hi as int), dot_p()) == 0);
        assert(t.take(t.len() - trail(t, dot_p())) == m.subrange(lo as int, hi as int));
    }
    if hi - lo == 0 || hi - lo > MAX_STEM {
        None
    } else {
        Some(string_range(&cs, lo, hi))
    }
}

} // verus!
