//! Where a chain's integrity files live, and what a proof check reports.
use vstd::prelude::*;
use crate::cli::integrity_state::{safe_char, safe_name};
use crate::text::{owned, push_char, push_str, lower, to_lower, str_eq};

verus! {

/// The two files that hold one chain's integrity state.
#[derive(Debug, Clone, PartialEq, Eq)]
pub struct ChainFiles {
    pub checkpoint: String,
    pub leaves: String,
}

/// What a successful proof check established.
#[derive(Debug, Clone, PartialEq, Eq)]
pub struct VerifyOutcome {
    pub chain_uid: String,
    pub event_uid: Option<String>,
    pub leaf_index: u64,
    pub tree_size: u64,
    pub path_len: usize,
    pub signed_root: String,
    /// How far the checkpoint signature was actually trusted.
    pub key_source: String,
    pub trusted_key: bool,
}

/// `dir` joined with the file name `name` (which holds no `/`), as
/// `Path::join` does: no separator after an empty directory or one that
/// already ends in `/`.
pub open spec fn join_path(dir: Seq<char>, name: Seq<char>) -> Seq<char> {
    if dir.len() == 0 || dir.last() == '/' { dir + name } else { dir + seq!['/'] + name }
}

pub open spec fn stem(chain: Seq<char>) -> Seq<char> {
    chain.map_values(|c: char| safe_char(c))
}

fn join(dir: &str, stem: &str, suffix: &str) -> (r: String)
    ensures
        r@ == join_path(dir@, stem@ + suffix@),
{
    let mut out = owned(dir);
    let cs = crate::text::chars_of(dir);
    if cs.len() > 0 && cs[cs.len() - 1] != '/' {
        push_char(&mut out, '/');
    }
    push_str(&mut out, stem);
    push_str(&mut out, suffix);
    if cs.len() == 0 || cs[cs.len() - 1] == '/' {
        assert(out@ == dir@ + (stem@ + suffix@));
    } else {
        assert(out@ == dir@ + seq!['/'] + (stem@ + suffix@));
    }
    out
}

/// The checkpoint and leaf files of `chain` under `integrity_dir`, named by
/// the same rule that wrote them.
pub fn chain_files(integrity_dir: &str, chain: &str) -> (r: ChainFiles)
    ensures
        r.checkpoint@ == join_path(integrity_dir@, stem(chain@) + ".checkpoint.json"@),
        r.leaves@ == join_path(integrity_dir@, stem(chain@) + ".merkle-leaves.bin"@),
{
    let s = safe_name(chain);
    ChainFiles {
        checkpoint: join(integrity_dir, s.as_str(), ".checkpoint.json"),
        leaves: join(integrity_dir, s.as_str(), ".merkle-leaves.bin"),
    }
}


/// The digest a proof's Merkle tree was built with.
#[derive(Debug, Clone, Copy, PartialEq, Eq, Structural)]
pub enum HashAlgorithm {
    Sha256,
    Blake3,
}

/// The name written into a proof for each algorithm.
pub open spec fn algorithm_label(h: HashAlgorithm) -> Seq<char> {
    match h {
        HashAlgorithm::Sha256 => "sha256"@,
        HashAlgorithm::Blake3 => "blake3"@,
    }
}

pub open spec fn ascii_lower(s: Seq<char>) -> Seq<char> {
    s.map_values(|c: char| lower(c))
}

/// The algorithm a proof names, ignoring ASCII case: `sha256` or `sha-256`,
/// or `blake3`.
pub open spec fn algorithm_named(name: Seq<char>) -> Option<HashAlgorithm> {
    let n = ascii_lower(name);
    if n == "sha256"@ || n == "sha-256"@ {
        Some(HashAlgorithm::Sha256)
    } else if n == "blake3"@ {
        Some(HashAlgorithm::Blake3)
    } else {
        None
    }
}

/// Read the algorithm a proof names; an unknown name is refused, and the
/// error carries it lowercased.
pub fn algorithm_from_name(name: &str) -> (r: Result<HashAlgorithm, String>)
    ensures
        match r {
            Ok(h) => algorithm_named(name@) == Some(h),
            Err(other) => algorithm_named(name@) is None && other@ == ascii_lower(name@),
        },
{
    let cs = crate::text::chars_of(name);
    let mut low = String::new();
    let mut i: usize = 0;
    while i < cs.len()
        invariant
            i <= cs@.len(),
            cs@ == name@,
            low@ == ascii_lower(cs@.take(i as int)),
        decreases cs@.len() - i,
    {
        push_char(&mut low, to_lower(cs[i]));
        assert(ascii_lower(cs@.take(i + 1)) == ascii_lower(cs@.take(i as int)).push(lower(cs@[i as int])));
        i += 1;
    }
    assert(cs@.take(cs@.len() as int) == cs@);
    if str_eq(low.as_str(), "sha256") || str_eq(low.as_str(), "sha-256") {
        Ok(HashAlgorithm::Sha256)
    } else if str_eq(low.as_str(), "blake3") {
        Ok(HashAlgorithm::Blake3)
    } else {
        Err(low)
    }
}

/// The name a proof records for `hash`.
pub fn algorithm_name(hash: HashAlgorithm) -> (r: &'static str)
    ensures
        r@ == algorithm_label(hash),
{
    match hash {
        HashAlgorithm::Sha256 => "sha256",
        HashAlgorithm::Blake3 => "blake3",
    }
}

/// The name written for an algorithm reads back as that algorithm.
pub proof fn algorithm_names_read_back(h: HashAlgorithm)
    ensures
        algorithm_named(algorithm_label(h)) == Some(h),
{
    reveal_strlit("sha256");
    reveal_strlit("sha-256");
    reveal_strlit("blake3");
    assert(ascii_lower("sha256"@) =~= "sha256"@);
    assert(ascii_lower("blake3"@) =~= "blake3"@);
    assert("blake3"@ != "sha256"@) by {
        assert("blake3"@[0] != "sha256"@[0]);
    }
    assert("blake3"@ != "sha-256"@) by {
        assert("blake3"@.len() != "sha-256"@.len());
    }
}

} // verus!
