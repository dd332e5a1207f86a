//! Console token comparison, and what a request presents as its token.
use vstd::prelude::*;
use vstd::string::StringSliceAdditionalSpecFns;
use crate::text::{chars_of, string_range, trim, trim_range};

verus! {

/// Compare two tokens without an early exit: the longer length is always
/// walked and every byte folded into one accumulator, so timing does not
/// reveal how many leading bytes of a guess were right.
pub fn constant_time_eq(a: &[u8], b: &[u8]) -> (r: bool)
    ensures
        r == (a@ == b@),
{
    let mut diff: u8 = if a.len() == b.len() { 0 } else { 1 };
    let n = if a.len() > b.len() { a.len() } else { b.len() };
    let mut i: usize = 0;
    while i < n
        invariant
            i <= n,
            n == if a@.len() > b@.len() { a@.len() } else { b@.len() },
            (diff == 0) == (a@.len() == b@.len() && forall|j: int| 0 <= j < i ==> a@[j] == b@[j]),
        decreases n - i,
    {
        let x: u8 = if i < a.len() { a[i] } else { 0 };
        let y: u8 = if i < b.len() { b[i] } else { 0 };
        let d = diff;
        assert((d | (x ^ y)) == 0 <==> (d == 0 && x == y)) by (bit_vector);
        diff = d | (x ^ y);
        i += 1;
    }
    if diff == 0 {
        assert(a@ =~= b@);
    }
    diff == 0
}


/// The token a request presents: the rest of an `Authorization` value that
/// starts with `Bearer `, else the `X-ULPF-Token` value; trimmed either way.
/// Each header is given as its text, `None` when it is absent or not text.
pub open spec fn presented(authorization: Option<Seq<char>>, x_token: Option<Seq<char>>) -> Option<Seq<char>> {
    match authorization {
        Some(a) if a.len() >= 7 && a.take(7) == "Bearer "@ => Some(trim(a.skip(7))),
        _ => match x_token {
            Some(t) => Some(trim(t)),
            None => None,
        },
    }
}

/// A header value as text.
pub open spec fn text_of(o: Option<&str>) -> Option<Seq<char>> {
    match o {
        Some(s) => Some(s@),
        None => None,
    }
}

fn trimmed(cs: &Vec<char>, lo: usize) -> (r: String)
    requires
        lo <= cs@.len(),
    ensures
        r@ == trim(cs@.skip(lo as int)),
{
    let (a, b) = trim_range(cs, lo, cs.len());
    assert(cs@.subrange(lo as int, cs@.len() as int) == cs@.skip(lo as int));
    string_range(cs, a, b)
}

/// The token presented by a request with these header values.
pub fn presented_token(authorization: Option<&str>, x_token: Option<&str>) -> (r: Option<String>)
    ensures
        match r {
            Some(t) => presented(text_of(authorization), text_of(x_token)) == Some(t@),
            None => presented(text_of(authorization), text_of(x_token)) is None,
        },
{
    proof {
        reveal_strlit("Bearer ");
    }
    if let Some(a) = authorization {
        let cs = chars_of(a);
        let bearer = ['B', 'e', 'a', 'r', 'e', 'r', ' '];
        assert(bearer@ =~= "Bearer "@);
        assert(cs@.subrange(0, cs@.len() as int) == cs@);
        if cs.len() >= 7 && crate::text::starts_with_at(&cs, 0, cs.len(), &bearer) {
            let r = trimmed(&cs, 7);
            assert(cs@.take(7) == "Bearer "@);
            assert(text_of(authorization) == Some(cs@));
            return Some(r);
        }
        proof {
            if cs@.len() >= 7 && cs@.take(7) == "Bearer "@ {
                assert(crate::text::is_prefix(bearer@, cs@));
            }
        }
    }
    match x_token {
        Some(t) => {
            let cs = chars_of(t);
            let r = trimmed(&cs, 0);
            assert(cs@.skip(0) == cs@);
            assert(text_of(x_token) == Some(cs@));
            Some(r)
        },
        None => None,
    }
}

/// What the console does with a request.
#[derive(Debug, Clone, Copy, PartialEq, Eq, Structural)]
pub enum TokenVerdict {
    /// The request presented the console token.
    Allowed,
    /// It presented another token.
    Mismatch,
    /// It presented none.
    Missing,
}

/// Admit a request only when the token it presents is the console's.
pub fn check_token(presented: Option<&str>, expected: &str) -> (r: TokenVerdict)
    ensures
        r == match presented {
            Some(p) => if p.spec_bytes() == expected.spec_bytes() { TokenVerdict::Allowed } else { TokenVerdict::Mismatch },
            None => TokenVerdict::Missing,
        },
{
    match presented {
        Some(p) => {
            if constant_time_eq(p.as_bytes(), expected.as_bytes()) {
                TokenVerdict::Allowed
            } else {
                TokenVerdict::Mismatch
            }
        },
        None => TokenVerdict::Missing,
    }
}

/// The answer to a request that presented another token.
pub open spec fn mismatch_text() -> Seq<char> {
    "the token presented does not match this collector's console token"@
}

/// The answer to a request that presented no token.
pub open spec fn missing_text() -> Seq<char> {
    "this endpoint requires a console token: send `Authorization: Bearer <token>` or `X-ULPF-Token: <token>`. The token is printed at startup and stored in the integrity directory as console.token."@
}

/// The refusal a request gets, `None` when it is admitted.
pub fn refusal(v: TokenVerdict) -> (r: Option<&'static str>)
    ensures
        match v {
            TokenVerdict::Allowed => r is None,
            TokenVerdict::Mismatch => r matches Some(t) && t@ == mismatch_text(),
            TokenVerdict::Missing => r matches Some(t) && t@ == missing_text(),
        },
{
    match v {
        TokenVerdict::Allowed => None,
        TokenVerdict::Mismatch => {
            let t = "the token presented does not match this collector's console token";
            proof {
                reveal_strlit("the token presented does not match this collector's console token");
            }
            Some(t)
        },
        TokenVerdict::Missing => {
            let t = "this endpoint requires a console token: send `Authorization: Bearer <token>` or `X-ULPF-Token: <token>`. The token is printed at startup and stored in the integrity directory as console.token.";
            proof {
                reveal_strlit("this endpoint requires a console token: send `Authorization: Bearer <token>` or `X-ULPF-Token: <token>`. The token is printed at startup and stored in the integrity directory as console.token.");
            }
            Some(t)
        },
    }
}

} // verus!
