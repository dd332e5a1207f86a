//! The decisions behind the `/dev` console's traffic simulator: which
//! public corpora can be replayed, the rate a stream may run at, and how long
//! a stream waits before its next datagram. Sockets, files and threads stay
//! with the application.
use vstd::prelude::*;
use crate::text::str_eq;

verus! {

/// One replayable corpus.
#[derive(Debug, Clone, Copy)]
pub struct Source {
    pub id: &'static str,
    pub label: &'static str,
    pub category: &'static str,
    pub origin: &'static str,
    pub file: &'static str,
}

/// The ids of the corpora, in registry order.
pub open spec fn source_ids() -> Seq<Seq<char>> {
    seq![
        "iptables"@, "snort"@, "dragon"@, "apache"@, "apache-err"@, "openssh"@, "linux-hn"@,
        "linux-lh"@, "sendmail"@, "proxifier"@,
    ]
}

pub open spec fn ids_of(v: Seq<Source>) -> Seq<Seq<char>> {
    v.map_values(|s: Source| s.id@)
}

/// The registry of corpora a stream can replay.
pub fn sources() -> (r: Vec<Source>)
    ensures
        ids_of(r@) == source_ids(),
{
    let r = vec![
        Source { id: "iptables", label: "Netfilter / iptables", category: "Firewall", origin: "Honeynet SotM34", file: "iptables.log" },
        Source { id: "snort", label: "Snort IDS", category: "IDS", origin: "Honeynet SotM34", file: "snort.log" },
        Source { id: "dragon", label: "Enterasys Dragon NIDS", category: "IDS", origin: "Honeynet Dragon", file: "dragon-nids.log" },
        Source { id: "apache", label: "Apache access", category: "Web", origin: "Honeynet SotM34", file: "apache-access.log" },
        Source { id: "apache-err", label: "Apache error", category: "Web", origin: "Loghub", file: "Apache_2k.log" },
        Source { id: "openssh", label: "OpenSSH auth", category: "Auth", origin: "Loghub", file: "OpenSSH_2k.log" },
        Source { id: "linux-hn", label: "Linux syslog", category: "Host", origin: "Honeynet SotM34", file: "linux-messages.log" },
        Source { id: "linux-lh", label: "Linux (production)", category: "Host", origin: "Loghub", file: "Linux_2k.log" },
        Source { id: "sendmail", label: "Sendmail MTA", category: "Mail", origin: "Honeynet SotM34", file: "sendmail.log" },
        Source { id: "proxifier", label: "Proxifier", category: "Proxy", origin: "Loghub", file: "Proxifier_2k.log" },
    ];
    assert(ids_of(r@) =~= source_ids());
    r
}

/// The corpus registered under `id`, if any.
pub fn source_by_id(id: &str) -> (r: Option<Source>)
    ensures
        match r {
            Some(s) => s.id@ == id@ && source_ids().contains(id@),
            None => !source_ids().contains(id@),
        },
{
    let all = sources();
    let mut i: usize = 0;
    while i < all.len()
        invariant
            i <= all@.len(),
            ids_of(all@) == source_ids(),
            forall|j: int| 0 <= j < i ==> source_ids()[j] != id@,
        decreases all@.len() - i,
    {
        assert(ids_of(all@)[i as int] == all@[i as int].id@);
        if str_eq(all[i].id, id) {
            assert(source_ids()[i as int] == id@);
            return Some(all[i]);
        }
        i += 1;
    }
    assert(all@.len() == source_ids().len());
    None
}

/// The rate a stream runs at: what was asked, kept within 1 to 200,000
/// events per second.
pub fn stream_rate(eps: u64) -> (r: u64)
    ensures
        r == if eps < 1 { 1 } else if eps > 200_000 { 200_000 } else { eps },
{
    if eps < 1 {
        1
    } else if eps > 200_000 {
        200_000
    } else {
        eps
    }
}

/// Which of `n` lines the `count`-th datagram carries: the corpus replays in
/// a loop.
pub fn line_for(count: u64, n: usize) -> (r: usize)
    requires
        n > 0,
    ensures
        r < n,
        r as int == count as int % n as int,
{
    (count % (n as u64)) as usize
}

/// The nanoseconds between datagrams at `eps` per second (at least one per
/// second).
pub open spec fn interval_ns(eps: u64) -> nat {
    1_000_000_000nat / (if eps < 1 { 1nat } else { eps as nat })
}

/// How long a stream that has sent `count` datagrams, `elapsed_ns` after it
/// started, sleeps before the next: nothing while it is behind its schedule
/// or less than 2 ms ahead; otherwise how far ahead it is, at most 200 ms so
/// that a stop request is seen promptly.
pub open spec fn pause_ns(count: u64, eps: u64, elapsed_ns: u128) -> Option<nat> {
    let deadline = count as nat * interval_ns(eps);
    if deadline > elapsed_ns {
        let ahead = deadline - elapsed_ns;
        let ahead = if ahead > u64::MAX { u64::MAX as int } else { ahead };
        if ahead >= 2_000_000 {
            Some(if ahead > 200_000_000 { 200_000_000nat } else { ahead as nat })
        } else {
            None
        }
    } else {
        None
    }
}

/// `pause_ns(count, eps, elapsed_ns)`, in nanoseconds.
pub fn pause(count: u64, eps: u64, elapsed_ns: u128) -> (r: Option<u64>)
    ensures
        match pause_ns(count, eps, elapsed_ns) {
            Some(p) => r == Some(p as u64),
            None => r is None,
        },
{
    let rate: u64 = if eps < 1 { 1 } else { eps };
    let interval: u64 = 1_000_000_000 / rate;
    assert(interval as nat == interval_ns(eps));
    assert((count as u128) * (interval as u128) <= u64::MAX as u128 * u64::MAX as u128) by (nonlinear_arith)
        requires
            count <= u64::MAX,
            interval <= u64::MAX;
    let deadline: u128 = (count as u128) * (interval as u128);
    if deadline > elapsed_ns {
        let gap: u128 = deadline - elapsed_ns;
        let ahead: u64 = if gap > u64::MAX as u128 { u64::MAX } else { gap as u64 };
        if ahead >= 2_000_000 {
            Some(if ahead > 200_000_000 { 200_000_000 } else { ahead })
        } else {
            None
        }
    } else {
        None
    }
}

/// The registry names each corpus once.
pub proof fn source_ids_are_unique()
    ensures
        source_ids().no_duplicates(),
{
    reveal_strlit("iptables");
    reveal_strlit("snort");
    reveal_strlit("dragon");
    reveal_strlit("apache");
    reveal_strlit("apache-err");
    reveal_strlit("openssh");
    reveal_strlit("linux-hn");
    reveal_strlit("linux-lh");
    reveal_strlit("sendmail");
    reveal_strlit("proxifier");
    let s = source_ids();
    assert forall|i: int, j: int| 0 <= i < j < s.len() implies s[i] != s[j] by {
        if s[i] == s[j] {
            assert(s[i].len() == s[j].len());
            assert(s[i][0] == s[j][0]);
            assert(s[i][s[i].len() - 1] == s[j][s[j].len() - 1]);
        }
    }
}

} // verus!
