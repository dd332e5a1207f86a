//! The decisions of replaying a raw log over UDP: which lines are records,
//! and how long to wait before the next one.
use vstd::prelude::*;

verus! {

/// ASCII whitespace as `u8::is_ascii_whitespace` defines it.
pub open spec fn ascii_space(b: u8) -> bool {
    b == 0x20 || b == 0x09 || b == 0x0A || b == 0x0C || b == 0x0D
}

/// How many line-ending bytes (`\n`, `\r`) end `line`.
pub open spec fn ending_len(line: Seq<u8>) -> nat
    decreases line.len(),
{
    if line.len() > 0 && (line.last() == 0x0A || line.last() == 0x0D) {
        1 + ending_len(line.drop_last())
    } else {
        0
    }
}

proof fn lemma_ending_len(line: Seq<u8>)
    ensures
        ending_len(line) <= line.len(),
    decreases line.len(),
{
    if line.len() > 0 && (line.last() == 0x0A || line.last() == 0x0D) {
        lemma_ending_len(line.drop_last());
    }
}

/// The record a line of the source file carries: the line without its
/// line-ending bytes, or nothing when what is left is blank.
pub open spec fn record_of(line: Seq<u8>) -> Option<Seq<u8>> {
    let body = line.take(line.len() - ending_len(line));
    if forall|i: int| 0 <= i < body.len() ==> ascii_space(#[trigger] body[i]) {
        None
    } else {
        Some(body)
    }
}

pub fn replay_record(line: &[u8]) -> (r: Option<Vec<u8>>)
    ensures
        match record_of(line@) {
            Some(b) => r matches Some(v) && v@ == b,
            None => r is None,
        },
{
    proof {
        lemma_ending_len(line@);
    }
    let mut end: usize = line.len();
    assert(line@.take(line@.len() as int) == line@);
    while end > 0 && (line[end - 1] == 0x0A || line[end - 1] == 0x0D)
        invariant
            end <= line@.len(),
            ending_len(line@) == (line@.len() - end) + ending_len(line@.take(end as int)),
        decreases end,
    {
        assert(line@.take(end as int).drop_last() == line@.take(end - 1));
        assert(line@.take(end as int).last() == line@[end - 1]);
        end -= 1;
    }
    if end > 0 {
        assert(line@.take(end as int).last() == line@[end - 1]);
    }
    assert(line@.take(end as int).take(end as int) == line@.take(end as int));
    let ghost body = line@.take(end as int);
    let mut blank = true;
    let mut out: Vec<u8> = Vec::new();
    let mut i: usize = 0;
    while i < end
        invariant
            i <= end <= line@.len(),
            body == line@.take(end as int),
            out@ == body.take(i as int),
            blank == forall|j: int| 0 <= j < i ==> ascii_space(#[trigger] body[j]),
        decreases end - i,
    {
        let b = line[i];
        if !(b == 0x20 || b == 0x09 || b == 0x0A || b == 0x0C || b == 0x0D) {
            blank = false;
        }
        out.push(b);
        assert(body.take(i + 1) == body.take(i as int).push(body[i as int]));
        i += 1;
    }
    assert(body.take(end as int) == body);
    if blank { None } else { Some(out) }
}

/// The nanoseconds between records at `eps` per second (at least one).
pub open spec fn replay_interval(eps: u64) -> nat {
    1_000_000_000nat / (if eps < 1 { 1nat } else { eps as nat })
}

/// How long to sleep after `sent` records, `elapsed_ns` into the replay:
/// until the next record's deadline, but only when that is at least 2 ms
/// away (a shorter sleep is not worth the call).
pub open spec fn replay_wait(sent: u64, eps: u64, elapsed_ns: u128) -> Option<nat> {
    let deadline = sent as nat * replay_interval(eps);
    if deadline > elapsed_ns {
        let ahead = deadline - elapsed_ns;
        let ahead = if ahead > u64::MAX { u64::MAX as int } else { ahead };
        if ahead >= 2_000_000 { Some(ahead as nat) } else { None }
    } else {
        None
    }
}

pub fn replay_pause(sent: u64, eps: u64, elapsed_ns: u128) -> (r: Option<u64>)
    ensures
        match replay_wait(sent, eps, elapsed_ns) {
            Some(p) => r == Some(p as u64),
            None => r is None,
        },
{
    let rate: u64 = if eps < 1 { 1 } else { eps };
    let interval: u64 = 1_000_000_000 / rate;
    assert((sent as u128) * (interval as u128) <= u64::MAX as u128 * u64::MAX as u128) by (nonlinear_arith)
        requires
            sent <= u64::MAX,
            interval <= u64::MAX;
    let deadline: u128 = (sent as u128) * (interval as u128);
    if deadline > elapsed_ns {
        let gap: u128 = deadline - elapsed_ns;
        let ahead: u64 = if gap > u64::MAX as u128 { u64::MAX } else { gap as u64 };
        if ahead >= 2_000_000 { Some(ahead) } else { None }
    } else {
        None
    }
}

/// A progress line is printed after every `eps` records (every record when
/// the rate is zero).
pub fn progress_due(sent: u64, eps: u64) -> (r: bool)
    ensures
        r == (sent % (if eps < 1 { 1u64 } else { eps }) == 0),
{
    let rate: u64 = if eps < 1 { 1 } else { eps };
    sent % rate == 0
}

} // verus!
