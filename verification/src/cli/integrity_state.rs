//! On-disk naming for integrity state.
use vstd::prelude::*;
use crate::text::{alnum, is_alnum, push_char};

verus! {

/// The character `c` stands for in a file name: ASCII letters, digits, `-`,
/// `_` and `.` are kept; anything else becomes `_`.
pub open spec fn safe_char(c: char) -> char {
    if is_alnum(c) || c == '-' || c == '_' || c == '.' { c } else { '_' }
}

/// A chain name made safe to use as a file name, character by character.
///
/// Public so callers that need to find a chain's files use the same rule
/// that wrote them.
pub fn safe_name(value: &str) -> (r: String)
    ensures
        r@ == value@.map_values(|c: char| safe_char(c)),
{
    let cs = crate::text::chars_of(value);
    let mut out = String::new();
    let mut i: usize = 0;
    while i < cs.len()
        invariant
            i <= cs@.len(),
            cs@ == value@,
            out@ == cs@.take(i as int).map_values(|c: char| safe_char(c)),
        decreases cs@.len() - i,
    {
        let c = cs[i];
        let k = if alnum(c) || c == '-' || c == '_' || c == '.' { c } else { '_' };
        push_char(&mut out, k);
        assert(cs@.take(i + 1).map_values(|c: char| safe_char(c))
            == cs@.take(i as int).map_values(|c: char| safe_char(c)).push(safe_char(c)));
        i += 1;
    }
    assert(cs@.take(cs@.len() as int) == cs@);
    out
}


/// Bytes in one Merkle leaf hash.
pub const LEAF_BYTES: usize = 32;

/// Why a leaf file cannot back a checkpoint.
#[derive(Debug, Clone, Copy, PartialEq, Eq, Structural)]
pub enum LeafError {
    /// The file holds fewer whole leaves than the checkpoint commits to.
    Truncated { available: usize, limit: usize },
}

/// Leaf `i` of a leaf file: its bytes `32 i .. 32 i + 32`.
pub open spec fn leaf_at(bytes: Seq<u8>, i: int) -> Seq<u8> {
    bytes.subrange(LEAF_BYTES * i, LEAF_BYTES * i + LEAF_BYTES)
}

/// The first `limit` leaves of a leaf file's bytes. A trailing partial
/// record (an append cut short) is not a leaf; a file with fewer than
/// `limit` whole leaves has been truncated.
pub fn leaves_from(bytes: &[u8], limit: usize) -> (r: Result<Vec<[u8; 32]>, LeafError>)
    ensures
        r is Err <==> limit > 0 && bytes@.len() / (LEAF_BYTES as nat) < limit,
        r matches Err(LeafError::Truncated { available, limit: l }) ==> available == bytes@.len() / (LEAF_BYTES as nat) && l == limit,
        r matches Ok(v) ==> v@.len() == limit && forall|i: int| 0 <= i < limit ==> (#[trigger] v@[i])@ == leaf_at(bytes@, i),
{
    if limit == 0 {
        return Ok(Vec::new());
    }
    let available = bytes.len() / LEAF_BYTES;
    if available < limit {
        return Err(LeafError::Truncated { available, limit });
    }
    assert(32 * limit <= bytes@.len()) by (nonlinear_arith)
        requires limit <= bytes@.len() / 32nat;
    let mut leaves: Vec<[u8; 32]> = Vec::new();
    let mut i: usize = 0;
    while i < limit
        invariant
            i <= limit <= available == bytes@.len() / (LEAF_BYTES as nat),
            32 * limit <= bytes@.len() <= usize::MAX,
            leaves@.len() == i,
            forall|q: int| 0 <= q < i ==> (#[trigger] leaves@[q])@ == leaf_at(bytes@, q),
        decreases limit - i,
    {
        assert(32 * i + 32 <= 32 * limit);
        let base: usize = 32 * i;
        let mut leaf = [0u8; 32];
        let mut k: usize = 0;
        while k < LEAF_BYTES
            invariant
                k <= LEAF_BYTES,
                base + LEAF_BYTES <= bytes@.len() <= usize::MAX,
                forall|q: int| 0 <= q < k ==> leaf@[q] == bytes@[base + q],
            decreases LEAF_BYTES - k,
        {
            leaf[k] = bytes[base + k];
            k += 1;
        }
        assert(leaf@ =~= leaf_at(bytes@, i as int));
        leaves.push(leaf);
        i += 1;
    }
    Ok(leaves)
}

/// The leaves after the first `n`, one after another.
pub open spec fn tail_bytes(leaves: Seq<[u8; 32]>, n: int) -> Seq<u8>
    decreases leaves.len() - n,
{
    if n < 0 || n >= leaves.len() {
        Seq::empty()
    } else {
        leaves[n]@ + tail_bytes(leaves, n + 1)
    }
}

/// What must be appended to a leaf file of `file_len` bytes so that it
/// holds `leaves`: the leaves past those whose whole records it already has;
/// nothing when it has them all.
pub fn pending_leaf_bytes(file_len: usize, leaves: &[[u8; 32]]) -> (r: Vec<u8>)
    ensures
        r@ == tail_bytes(leaves@, (file_len / LEAF_BYTES) as int),
{
    let on_disk = file_len / LEAF_BYTES;
    if leaves.len() <= on_disk {
        return Vec::new();
    }
    let mut i: usize = leaves.len();
    let ghost ls = leaves@;
    // Built back to front so each step prepends one leaf to the tail.
    let mut parts: Vec<u8> = Vec::new();
    while i > on_disk
        invariant
            on_disk <= i <= ls.len(),
            ls == leaves@,
            parts@ == tail_bytes(ls, i as int),
        decreases i - on_disk,
    {
        i -= 1;
        let mut next: Vec<u8> = Vec::new();
        let mut k: usize = 0;
        while k < LEAF_BYTES
            invariant
                k <= LEAF_BYTES,
                i < ls.len(),
                ls == leaves@,
                next@ == ls[i as int]@.take(k as int),
            decreases LEAF_BYTES - k,
        {
            next.push(leaves[i][k]);
            assert(ls[i as int]@.take(k + 1) == ls[i as int]@.take(k as int).push(ls[i as int]@[k as int]));
            k += 1;
        }
        assert(ls[i as int]@.take(32) == ls[i as int]@);
        let mut j: usize = 0;
        let ghost tail = parts@;
        while j < parts.len()
            invariant
                j <= parts@.len(),
                parts@ == tail,
                next@ == ls[i as int]@ + tail.take(j as int),
            decreases parts@.len() - j,
        {
            next.push(parts[j]);
            assert(tail.take(j + 1) == tail.take(j as int).push(tail[j as int]));
            j += 1;
        }
        assert(tail.take(tail.len() as int) == tail);
        parts = next;
    }
    parts
}

} // verus!
