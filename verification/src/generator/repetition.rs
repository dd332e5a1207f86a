//! Cutting a model reply short once it starts going round in circles.
//!
//! A small model asked for prose sometimes emits one line (or one sentence)
//! over and over until it runs out of budget. The third time a long line
//! comes back, everything from there on is dropped.

use vstd::prelude::*;
use crate::generator::llm::joined;
use crate::text::{
    back_ws, char_width, chars_of, eq_char, find, find_seq, find_str, is_first_p,
    lemma_find_p_first, lemma_find_p_none, lemma_utf8_len_concat, seq_eq, string_range, trim,
    trim_end, trim_range, utf8_len, utf8_width,
};

verus! {

// ---------------------------------------------------------------------------
// The model
// ---------------------------------------------------------------------------

/// A line without the `\r` of a `\r\n` ending.
pub open spec fn strip_cr(s: Seq<char>) -> Seq<char> {
    if s.len() > 0 && s.last() == '\r' {
        s.drop_last()
    } else {
        s
    }
}

/// The lines of `s` as `str::lines` gives them: split at each `\n`, with a
/// `\r` right before it dropped, and no empty line after a final `\n`.
pub open spec fn lines(s: Seq<char>) -> Seq<Seq<char>>
    decreases s.len(),
{
    if s.len() == 0 {
        Seq::empty()
    } else {
        match find(s, '\n') {
            Some(i) => if 0 <= i < s.len() {
                seq![strip_cr(s.take(i))] + lines(s.skip(i + 1))
            } else {
                Seq::empty()
            },
            None => seq![s],
        }
    }
}

/// The pieces of `s` after each `". "`, the separator kept at the end of the
/// piece before it (`str::split_inclusive(". ")`).
pub open spec fn sentences(s: Seq<char>) -> Seq<Seq<char>>
    decreases s.len(),
{
    if s.len() == 0 {
        Seq::empty()
    } else {
        match find_seq(s, seq!['.', ' ']) {
            Some(i) => if 0 <= i && i + 2 <= s.len() {
                seq![s.take(i + 2)] + sentences(s.skip(i + 2))
            } else {
                Seq::empty()
            },
            None => seq![s],
        }
    }
}

/// The pieces written one after another.
pub open spec fn concat(ps: Seq<Seq<char>>) -> Seq<char>
    decreases ps.len(),
{
    if ps.len() == 0 {
        Seq::empty()
    } else {
        concat(ps.drop_last()) + ps.last()
    }
}

/// A line long enough (over 25 bytes once trimmed) to count as a repeat.
pub open spec fn long_line(k: Seq<char>) -> bool {
    utf8_len(k) > 25
}

/// How many of the first `j` pieces trim to `k`.
pub open spec fn count_trimmed(ps: Seq<Seq<char>>, k: Seq<char>, j: int) -> nat
    decreases j,
{
    if j <= 0 {
        0
    } else {
        count_trimmed(ps, k, j - 1) + if trim(ps[j - 1]) == k { 1nat } else { 0nat }
    }
}

/// Piece `j` is a long piece seen twice before.
pub open spec fn third_time(ps: Seq<Seq<char>>, j: int) -> bool {
    long_line(trim(ps[j])) && count_trimmed(ps, trim(ps[j]), j) >= 2
}

/// The first piece from `j` on that comes back a third time, or the number
/// of pieces when none does.
pub open spec fn first_third(ps: Seq<Seq<char>>, j: int) -> int
    decreases ps.len() - j,
{
    if j < 0 || j >= ps.len() {
        ps.len() as int
    } else if third_time(ps, j) {
        j
    } else {
        first_third(ps, j + 1)
    }
}

/// The second piece from `i` on that trims to `k`, or the number of pieces
/// when there is none.
pub open spec fn second_at(ps: Seq<Seq<char>>, k: Seq<char>, i: int) -> int
    decreases ps.len() - i,
{
    if i < 0 || i >= ps.len() {
        ps.len() as int
    } else if trim(ps[i]) == k && count_trimmed(ps, k, i) == 1 {
        i
    } else {
        second_at(ps, k, i + 1)
    }
}

/// Where the pieces are cut: once a long piece comes back a third time,
/// at that piece's second occurrence; nowhere (the number of pieces) when
/// none does.
pub open spec fn cut_at(ps: Seq<Seq<char>>) -> int {
    let j = first_third(ps, 0);
    if j < ps.len() { second_at(ps, trim(ps[j]), 0) } else { ps.len() as int }
}

/// The lines kept, joined with `\n`, trailing whitespace removed.
pub open spec fn line_pass(reply: Seq<char>) -> Seq<char> {
    let ls = lines(reply);
    trim_end(joined(ls.take(cut_at(ls))))
}

/// The same cut within one paragraph, applied when it has four sentences or
/// more and one of them comes back a third time.
pub open spec fn sentence_pass(t: Seq<char>) -> Seq<char> {
    let ss = sentences(t);
    if ss.len() >= 4 && first_third(ss, 0) < ss.len() {
        trim_end(concat(ss.take(cut_at(ss))))
    } else {
        t
    }
}

/// What `trim_degenerate_repetition` returns: both cuts, and when nothing
/// but whitespace is left, the trimmed reply's first 600 characters.
pub open spec fn de_looped(reply: Seq<char>) -> Seq<char> {
    let out = sentence_pass(line_pass(reply));
    let t = trim(reply);
    if trim(out).len() == 0 {
        if t.len() <= 600 { t } else { t.take(600) }
    } else {
        out
    }
}

// ---------------------------------------------------------------------------
// Splitting
// ---------------------------------------------------------------------------

/// The bounds of each line of `cs`.
pub(crate) fn line_ranges(cs: &[char]) -> (r: Vec<(usize, usize)>)
    ensures
        r@.len() == lines(cs@).len(),
        forall|k: int| 0 <= k < r@.len() ==> {
            &&& (#[trigger] r@[k]).0 <= r@[k].1 <= cs@.len()
            &&& cs@.subrange(r@[k].0 as int, r@[k].1 as int) == lines(cs@)[k]
        },
{
    let mut r: Vec<(usize, usize)> = Vec::new();
    let mut start: usize = 0;
    let mut i: usize = 0;
    let ghost mut done: Seq<Seq<char>> = Seq::empty();
    assert(cs@.skip(0) == cs@);
    while i < cs.len()
        invariant
            start <= i <= cs@.len(),
            lines(cs@) == done + lines(cs@.skip(start as int)),
            r@.len() == done.len(),
            forall|k: int| 0 <= k < r@.len() ==> {
                &&& (#[trigger] r@[k]).0 <= r@[k].1 <= cs@.len()
                &&& cs@.subrange(r@[k].0 as int, r@[k].1 as int) == done[k]
            },
            forall|j: int| start <= j < i ==> cs@[j] != '\n',
        decreases cs@.len() - i,
    {
        if cs[i] == '\n' {
            let end = if i > start && cs[i - 1] == '\r' { i - 1 } else { i };
            let ghost t = cs@.skip(start as int);
            let ghost line = strip_cr(cs@.subrange(start as int, i as int));
            proof {
                assert forall|j: int| 0 <= j < i - start implies !eq_char('\n')(#[trigger] t[j]) by {
                    assert(t[j] == cs@[start + j]);
                }
                assert(t[i - start] == cs@[i as int]);
                assert(is_first_p(t, eq_char('\n'), i - start));
                lemma_find_p_first(t, eq_char('\n'), i - start);
                assert(t.take(i - start) == cs@.subrange(start as int, i as int));
                assert(t.skip(i - start + 1) == cs@.skip(i + 1));
                assert(lines(t) == seq![line] + lines(cs@.skip(i + 1)));
                if i > start && cs@[i - 1] == '\r' {
                    assert(cs@.subrange(start as int, i as int).drop_last() == cs@.subrange(start as int, end as int));
                }
                assert(cs@.subrange(start as int, end as int) == line);
                assert(done + (seq![line] + lines(cs@.skip(i + 1))) == done.push(line) + lines(cs@.skip(i + 1)));
                done = done.push(line);
            }
            r.push((start, end));
            start = i + 1;
        }
        i += 1;
    }
    if start < cs.len() {
        let ghost t = cs@.skip(start as int);
        proof {
            assert forall|j: int| 0 <= j < t.len() implies !eq_char('\n')(#[trigger] t[j]) by {
                assert(t[j] == cs@[start + j]);
            }
            lemma_find_p_none(t, eq_char('\n'));
            assert(t == cs@.subrange(start as int, cs@.len() as int));
            assert(done + seq![t] == done.push(t));
            done = done.push(t);
        }
        r.push((start, cs.len()));
    } else {
        assert(cs@.skip(start as int).len() == 0);
        assert(done + Seq::<Seq<char>>::empty() == done);
    }
    r
}

/// The bounds of each sentence of `t[0..hi]`, and where each one starts.
fn sentence_ranges(t: &[char], hi: usize) -> (r: Vec<(usize, usize)>)
    requires
        hi <= t@.len(),
    ensures
        r@.len() == sentences(t@.take(hi as int)).len(),
        forall|k: int| 0 <= k < r@.len() ==> {
            &&& (#[trigger] r@[k]).0 <= r@[k].1 <= hi
            &&& t@.subrange(r@[k].0 as int, r@[k].1 as int) == sentences(t@.take(hi as int))[k]
            &&& t@.take(r@[k].0 as int) == concat(sentences(t@.take(hi as int)).take(k))
        },
{
    let ghost whole = t@.take(hi as int);
    let dot: [char; 2] = ['.', ' '];
    let mut r: Vec<(usize, usize)> = Vec::new();
    let mut start: usize = 0;
    let ghost mut done: Seq<Seq<char>> = Seq::empty();
    assert(whole.skip(0) == whole);
    assert(t@.take(0) == concat(done));
    loop
        invariant_except_break
            start <= hi,
            sentences(whole) == done + sentences(whole.skip(start as int)),
            t@.take(start as int) == concat(done),
        invariant
            hi <= t@.len(),
            whole == t@.take(hi as int),
            dot@ == seq!['.', ' '],
            r@.len() == done.len(),
            forall|k: int| 0 <= k < r@.len() ==> {
                &&& (#[trigger] r@[k]).0 <= r@[k].1 <= hi
                &&& t@.subrange(r@[k].0 as int, r@[k].1 as int) == done[k]
                &&& t@.take(r@[k].0 as int) == concat(done.take(k))
            },
        ensures
            sentences(whole) == done,
            r@.len() == done.len(),
        decreases hi - start,
    {
        let ghost rest = whole.skip(start as int);
        assert(rest == t@.subrange(start as int, hi as int));
        if start == hi {
            assert(rest.len() == 0);
            assert(done + Seq::<Seq<char>>::empty() == done);
            break;
        }
        match find_str(t, start, hi, &dot) {
            Some(p) => {
                let ghost piece = t@.subrange(start as int, p + 2);
                proof {
                    crate::text::lemma_find_seq(rest, seq!['.', ' ']);
                    assert(rest.take(p - start + 2) == piece);
                    assert(rest.skip(p - start + 2) == whole.skip(p + 2));
                    assert(done + (seq![piece] + sentences(whole.skip(p + 2))) == done.push(piece) + sentences(whole.skip(p + 2)));
                    assert(t@.take(p + 2) == t@.take(start as int) + piece);
                    assert(concat(done.push(piece)) == concat(done) + piece) by {
                        assert(done.push(piece).drop_last() == done);
                    }
                    assert forall|k: int| 0 <= k < done.len() implies done.push(piece).take(k) == done.take(k) by {}
                    assert(done.push(piece).take(done.len() as int) == done);
                    done = done.push(piece);
                }
                r.push((start, p + 2));
                start = p + 2;
            },
            None => {
                let ghost piece = t@.subrange(start as int, hi as int);
                proof {
                    assert(sentences(rest) == seq![piece]);
                    assert(done + seq![piece] == done.push(piece));
                    assert(done.push(piece).take(done.len() as int) == done);
                    assert forall|k: int| 0 <= k < done.len() implies done.push(piece).take(k) == done.take(k) by {}
                    done = done.push(piece);
                }
                r.push((start, hi));
                break;
            },
        }
    }
    r
}

/// The bounds of each piece trimmed.
pub(crate) fn trimmed_ranges(cs: &[char], rs: &Vec<(usize, usize)>, Ghost(ps): Ghost<Seq<Seq<char>>>) -> (r: Vec<(usize, usize)>)
    requires
        rs@.len() == ps.len(),
        forall|k: int| 0 <= k < rs@.len() ==> {
            &&& (#[trigger] rs@[k]).0 <= rs@[k].1 <= cs@.len()
            &&& cs@.subrange(rs@[k].0 as int, rs@[k].1 as int) == ps[k]
        },
    ensures
        r@.len() == ps.len(),
        forall|k: int| 0 <= k < r@.len() ==> {
            &&& (#[trigger] r@[k]).0 <= r@[k].1 <= cs@.len()
            &&& cs@.subrange(r@[k].0 as int, r@[k].1 as int) == trim(ps[k])
        },
{
    let mut r: Vec<(usize, usize)> = Vec::new();
    let mut k: usize = 0;
    while k < rs.len()
        invariant
            k <= rs@.len(),
            rs@.len() == ps.len(),
            r@.len() == k,
            forall|j: int| 0 <= j < rs@.len() ==> {
                &&& (#[trigger] rs@[j]).0 <= rs@[j].1 <= cs@.len()
                &&& cs@.subrange(rs@[j].0 as int, rs@[j].1 as int) == ps[j]
            },
            forall|j: int| 0 <= j < r@.len() ==> {
                &&& (#[trigger] r@[j]).0 <= r@[j].1 <= cs@.len()
                &&& cs@.subrange(r@[j].0 as int, r@[j].1 as int) == trim(ps[j])
            },
        decreases rs@.len() - k,
    {
        let (a, b) = rs[k];
        let (x, y) = trim_range(cs, a, b);
        r.push((x, y));
        k += 1;
    }
    r
}

// ---------------------------------------------------------------------------
// Finding the third time
// ---------------------------------------------------------------------------

/// Whether `cs[lo..hi]` takes more than `n` bytes in UTF-8.
fn longer_than(cs: &[char], lo: usize, hi: usize, n: usize) -> (r: bool)
    requires
        lo <= hi <= cs@.len(),
        n < usize::MAX - 4,
    ensures
        r == (utf8_len(cs@.subrange(lo as int, hi as int)) > n),
{
    let mut acc: usize = 0;
    let mut i: usize = lo;
    while i < hi
        invariant
            lo <= i <= hi <= cs@.len(),
            n < usize::MAX - 4,
            acc == utf8_len(cs@.subrange(lo as int, i as int)),
            acc <= n,
        decreases hi - i,
    {
        assert(cs@.subrange(lo as int, i + 1).drop_last() == cs@.subrange(lo as int, i as int));
        acc = acc + char_width(cs[i]);
        i += 1;
        if acc > n {
            proof {
                lemma_utf8_len_concat(cs@.subrange(lo as int, i as int), cs@.subrange(i as int, hi as int));
                assert(cs@.subrange(lo as int, i as int) + cs@.subrange(i as int, hi as int) == cs@.subrange(lo as int, hi as int));
            }
            return true;
        }
    }
    false
}

/// How many of `keys[0..j]` hold the same text as `keys[j]`.
fn count_same(cs: &[char], keys: &Vec<(usize, usize)>, j: usize, Ghost(ps): Ghost<Seq<Seq<char>>>) -> (r: usize)
    requires
        j < keys@.len() == ps.len(),
        forall|k: int| 0 <= k < keys@.len() ==> {
            &&& (#[trigger] keys@[k]).0 <= keys@[k].1 <= cs@.len()
            &&& cs@.subrange(keys@[k].0 as int, keys@[k].1 as int) == trim(ps[k])
        },
    ensures
        r == count_trimmed(ps, trim(ps[j as int]), j as int),
{
    let (a, b) = keys[j];
    let mut cnt: usize = 0;
    let mut k: usize = 0;
    while k < j
        invariant
            k <= j < keys@.len() == ps.len(),
            keys@[j as int] == (a, b),
            forall|i: int| 0 <= i < keys@.len() ==> {
                &&& (#[trigger] keys@[i]).0 <= keys@[i].1 <= cs@.len()
                &&& cs@.subrange(keys@[i].0 as int, keys@[i].1 as int) == trim(ps[i])
            },
            cnt == count_trimmed(ps, trim(ps[j as int]), k as int),
            cnt <= k,
        decreases j - k,
    {
        let (x, y) = keys[k];
        if seq_eq(cs, x, y, cs, a, b) {
            cnt += 1;
        }
        k += 1;
    }
    cnt
}

/// `first_third(ps, 0)`, given the trimmed pieces.
fn first_repeat(cs: &[char], keys: &Vec<(usize, usize)>, Ghost(ps): Ghost<Seq<Seq<char>>>) -> (r: usize)
    requires
        keys@.len() == ps.len(),
        forall|k: int| 0 <= k < keys@.len() ==> {
            &&& (#[trigger] keys@[k]).0 <= keys@[k].1 <= cs@.len()
            &&& cs@.subrange(keys@[k].0 as int, keys@[k].1 as int) == trim(ps[k])
        },
    ensures
        r == first_third(ps, 0),
        r <= ps.len(),
{
    let mut j: usize = 0;
    while j < keys.len()
        invariant
            j <= keys@.len() == ps.len(),
            forall|k: int| 0 <= k < keys@.len() ==> {
                &&& (#[trigger] keys@[k]).0 <= keys@[k].1 <= cs@.len()
                &&& cs@.subrange(keys@[k].0 as int, keys@[k].1 as int) == trim(ps[k])
            },
            first_third(ps, 0) == first_third(ps, j as int),
        decreases keys@.len() - j,
    {
        let (a, b) = keys[j];
        if longer_than(cs, a, b, 25) {
            let c = count_same(cs, keys, j, Ghost(ps));
            if c >= 2 {
                return j;
            }
        }
        j += 1;
    }
    j
}


/// `cut_at(ps)`, given the trimmed pieces.
fn cut_index(cs: &[char], keys: &Vec<(usize, usize)>, Ghost(ps): Ghost<Seq<Seq<char>>>) -> (r: usize)
    requires
        keys@.len() == ps.len(),
        forall|k: int| 0 <= k < keys@.len() ==> {
            &&& (#[trigger] keys@[k]).0 <= keys@[k].1 <= cs@.len()
            &&& cs@.subrange(keys@[k].0 as int, keys@[k].1 as int) == trim(ps[k])
        },
    ensures
        r == cut_at(ps),
        r <= ps.len(),
        (r < ps.len()) == (first_third(ps, 0) < ps.len()),
{
    let j = first_repeat(cs, keys, Ghost(ps));
    if j >= keys.len() {
        return j;
    }
    let ghost key = trim(ps[j as int]);
    let (a, b) = keys[j];
    proof {
        lemma_first_third(ps, 0);
        lemma_second_exists(ps, j as int);
    }
    let mut cnt: usize = 0;
    let mut i: usize = 0;
    while i < keys.len()
        invariant
            i <= keys@.len() == ps.len(),
            j < keys@.len(),
            j == first_third(ps, 0),
            keys@[j as int] == (a, b),
            key == trim(ps[j as int]),
            forall|k: int| 0 <= k < keys@.len() ==> {
                &&& (#[trigger] keys@[k]).0 <= keys@[k].1 <= cs@.len()
                &&& cs@.subrange(keys@[k].0 as int, keys@[k].1 as int) == trim(ps[k])
            },
            cnt == count_trimmed(ps, key, i as int),
            cnt <= i,
            second_at(ps, key, 0) == second_at(ps, key, i as int),
            second_at(ps, key, 0) < ps.len(),
        decreases keys@.len() - i,
    {
        let (x, y) = keys[i];
        if seq_eq(cs, x, y, cs, a, b) {
            assert(trim(ps[i as int]) == key);
            if cnt == 1 {
                assert(second_at(ps, key, i as int) == i);
                return i;
            }
            cnt += 1;
        }
        i += 1;
    }
    i
}

proof fn lemma_first_third(ps: Seq<Seq<char>>, i: int)
    requires
        0 <= i,
    ensures
        first_third(ps, i) < ps.len() ==> i <= first_third(ps, i) && third_time(ps, first_third(ps, i)),
    decreases ps.len() - i,
{
    if i < ps.len() && !third_time(ps, i) {
        lemma_first_third(ps, i + 1);
    }
}

/// A piece that comes back a third time has a second occurrence.
proof fn lemma_second_exists(ps: Seq<Seq<char>>, j: int)
    requires
        0 <= j < ps.len(),
        count_trimmed(ps, trim(ps[j]), j) >= 2,
    ensures
        second_at(ps, trim(ps[j]), 0) < ps.len(),
{
    let k = trim(ps[j]);
    lemma_second_from(ps, k, 0, j);
}

/// If at least two of the pieces in `[i, n)` trim to `k` and fewer than two
/// before `i` do, the second one lies before `n`.
proof fn lemma_second_from(ps: Seq<Seq<char>>, k: Seq<char>, i: int, n: int)
    requires
        0 <= i <= n <= ps.len(),
        count_trimmed(ps, k, n) >= 2,
        count_trimmed(ps, k, i) <= 1,
    ensures
        second_at(ps, k, i) < n,
    decreases n - i,
{
    lemma_count_mono(ps, k, i + 1, n);
    if i == n {
    } else if trim(ps[i]) == k && count_trimmed(ps, k, i) == 1 {
    } else {
        lemma_second_from(ps, k, i + 1, n);
    }
}

proof fn lemma_count_mono(ps: Seq<Seq<char>>, k: Seq<char>, a: int, b: int)
    ensures
        a <= b ==> count_trimmed(ps, k, a) <= count_trimmed(ps, k, b),
    decreases b - a,
{
    if a < b {
        lemma_count_mono(ps, k, a, b - 1);
    }
}

// ---------------------------------------------------------------------------
// The cut
// ---------------------------------------------------------------------------

/// The first `n` lines joined with `\n`.
fn join_lines(cs: &[char], rs: &Vec<(usize, usize)>, n: usize, Ghost(ps): Ghost<Seq<Seq<char>>>) -> (r: Vec<char>)
    requires
        n <= rs@.len() == ps.len(),
        forall|k: int| 0 <= k < rs@.len() ==> {
            &&& (#[trigger] rs@[k]).0 <= rs@[k].1 <= cs@.len()
            &&& cs@.subrange(rs@[k].0 as int, rs@[k].1 as int) == ps[k]
        },
    ensures
        r@ == joined(ps.take(n as int)),
{
    let mut out: Vec<char> = Vec::new();
    let mut k: usize = 0;
    assert(ps.take(0).len() == 0);
    while k < n
        invariant
            k <= n <= rs@.len() == ps.len(),
            forall|i: int| 0 <= i < rs@.len() ==> {
                &&& (#[trigger] rs@[i]).0 <= rs@[i].1 <= cs@.len()
                &&& cs@.subrange(rs@[i].0 as int, rs@[i].1 as int) == ps[i]
            },
            out@ == joined(ps.take(k as int)),
        decreases n - k,
    {
        let ghost before = out@;
        if k > 0 {
            out.push('\n');
        }
        let (a, b) = rs[k];
        let mut i = a;
        while i < b
            invariant
                a <= i <= b <= cs@.len(),
                out@ == (if k > 0 { before + seq!['\n'] } else { before }) + cs@.subrange(a as int, i as int),
            decreases b - i,
        {
            out.push(cs[i]);
            assert(cs@.subrange(a as int, i + 1) == cs@.subrange(a as int, i as int).push(cs@[i as int]));
            i += 1;
        }
        proof {
            let next = ps.take(k + 1);
            assert(next.drop_last() == ps.take(k as int));
            assert(next.last() == ps[k as int]);
            if k == 0 {
                assert(before.len() == 0);
                assert(out@ == ps[0]);
            }
        }
        k += 1;
    }
    out
}

/// Cuts a reply short once it starts repeating itself: when a long line
/// (over 25 bytes once trimmed) comes back a third time, everything from its
/// second occurrence on is dropped; the same is then done to the sentences of what is left when
/// there are four or more. A reply that would come out blank is given back
/// trimmed, cut to 600 characters.
pub fn trim_degenerate_repetition(reply: &str) -> (r: String)
    ensures
        r@ == de_looped(reply@),
{
    let cs = chars_of(reply);
    let ls = line_ranges(&cs);
    let ghost lines_of = lines(cs@);
    let lkeys = trimmed_ranges(&cs, &ls, Ghost(lines_of));
    let cut = cut_index(&cs, &lkeys, Ghost(lines_of));
    let mut out = join_lines(&cs, &ls, cut, Ghost(lines_of));
    let tb = back_ws(&out, 0, out.len());
    assert(out@.subrange(0, out@.len() as int) == out@);
    assert(out@.subrange(0, tb as int) == trim_end(out@));
    let ghost first = out@.take(tb as int);
    assert(first == line_pass(reply@));

    let ss = sentence_ranges(&out, tb);
    let ghost sents = sentences(first);
    let mut end = tb;
    if ss.len() >= 4 {
        let skeys = trimmed_ranges(&out, &ss, Ghost(sents));
        let scut = cut_index(&out, &skeys, Ghost(sents));
        if scut < ss.len() {
            let s0 = ss[scut].0;
            end = back_ws(&out, 0, s0);
            assert(out@.subrange(0, s0 as int) == concat(sents.take(scut as int)));
        }
    }
    assert(out@.subrange(0, end as int) == sentence_pass(first));
    let (a, b) = trim_range(&out, 0, end);
    if a == b {
        let (x, y) = trim_range(&cs, 0, cs.len());
        assert(cs@.subrange(0, cs@.len() as int) == cs@);
        let y2 = if y - x > 600 { x + 600 } else { y };
        assert(cs@.subrange(x as int, y2 as int) == de_looped(reply@));
        string_range(&cs, x, y2)
    } else {
        string_range(&out, 0, end)
    }
}

} // verus!
