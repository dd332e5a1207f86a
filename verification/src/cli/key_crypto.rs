//! Key-file format sniffing and the passphrase decision.
use vstd::prelude::*;
use crate::text::{owned, str_eq};

verus! {

pub open spec fn is_ascii_ws_byte(b: u8) -> bool {
    b == 9 || b == 10 || b == 12 || b == 13 || b == 32
}

/// The first byte of `bytes` that is not ASCII whitespace.
pub open spec fn first_non_ws(bytes: Seq<u8>) -> Option<u8>
    decreases bytes.len(),
{
    if bytes.len() == 0 {
        None
    } else if is_ascii_ws_byte(bytes[0]) {
        first_non_ws(bytes.drop_first())
    } else {
        Some(bytes[0])
    }
}

/// True when `bytes` look like an encrypted key envelope rather than the
/// plain hex format: a JSON envelope starts with `{` (after whitespace); a
/// hex-encoded key never does.
pub fn is_encrypted_format(bytes: &[u8]) -> (r: bool)
    ensures
        r == (first_non_ws(bytes@) == Some(123u8)),
{
    let mut i: usize = 0;
    assert(bytes@.skip(0) == bytes@);
    while i < bytes.len()
        invariant
            i <= bytes@.len(),
            first_non_ws(bytes@) == first_non_ws(bytes@.skip(i as int)),
        decreases bytes@.len() - i,
    {
        assert(bytes@.skip(i as int)[0] == bytes@[i as int]);
        let b = bytes[i];
        if !(b == 9 || b == 10 || b == 12 || b == 13 || b == 32) {
            return b == 123;
        }
        assert(bytes@.skip(i as int).drop_first() == bytes@.skip(i + 1));
        i += 1;
    }
    false
}

/// Why no passphrase could be had.
#[derive(Debug, Clone, PartialEq, Eq)]
pub enum PassphraseError {
    /// The environment variable is set but empty.
    EnvEmpty(String),
    /// The typed passphrase is empty.
    Empty,
    /// The confirmation differed from the first entry.
    Mismatch,
}

/// Where getting a passphrase stands, given what has been gathered so far.
#[derive(Debug, Clone, PartialEq, Eq)]
pub enum PassphraseStep {
    /// The passphrase to use.
    Ready(String),
    /// Refused, with the reason.
    Refused(PassphraseError),
    /// Prompt for the passphrase (the variable is not set).
    Prompt,
    /// Prompt once more, to confirm a new passphrase.
    Confirm,
}

/// The environment variable that supplies the signing key's passphrase.
pub fn key_passphrase_var() -> (r: &'static str)
    ensures
        r@ == "ULPF_KEY_PASSPHRASE"@,
{
    "ULPF_KEY_PASSPHRASE"
}

/// What a passphrase step yields, as a value.
pub ghost enum StepV {
    Ready(Seq<char>),
    EnvEmpty(Seq<char>),
    Empty,
    Mismatch,
    Prompt,
    Confirm,
}

pub open spec fn step_view(r: PassphraseStep) -> StepV {
    match r {
        PassphraseStep::Ready(p) => StepV::Ready(p@),
        PassphraseStep::Refused(PassphraseError::EnvEmpty(v)) => StepV::EnvEmpty(v@),
        PassphraseStep::Refused(PassphraseError::Empty) => StepV::Empty,
        PassphraseStep::Refused(PassphraseError::Mismatch) => StepV::Mismatch,
        PassphraseStep::Prompt => StepV::Prompt,
        PassphraseStep::Confirm => StepV::Confirm,
    }
}

/// The rule for getting a passphrase: a set environment variable wins (and
/// must not be empty); otherwise the typed entry must not be empty and, when
/// `confirm`, must be typed the same a second time.
pub open spec fn passphrase_step(
    env_var: Seq<char>,
    confirm: bool,
    env: Option<Seq<char>>,
    entered: Option<Seq<char>>,
    again: Option<Seq<char>>,
) -> StepV {
    match env {
        Some(e) => if e.len() == 0 { StepV::EnvEmpty(env_var) } else { StepV::Ready(e) },
        None => match entered {
            None => StepV::Prompt,
            Some(p) => if p.len() == 0 {
                StepV::Empty
            } else if !confirm {
                StepV::Ready(p)
            } else {
                match again {
                    None => StepV::Confirm,
                    Some(a) => if a != p { StepV::Mismatch } else { StepV::Ready(p) },
                }
            },
        },
    }
}

pub open spec fn opt_view(o: Option<&str>) -> Option<Seq<char>> {
    match o {
        Some(s) => Some(s@),
        None => None,
    }
}

/// One step of getting a passphrase for the variable `env_var`: `env` is the
/// variable's value (if set), `entered` and `again` what was typed at the
/// first and the confirming prompt (if asked yet).
pub fn acquire_passphrase_for(
    env_var: &str,
    confirm: bool,
    env: Option<&str>,
    entered: Option<&str>,
    again: Option<&str>,
) -> (r: PassphraseStep)
    ensures
        step_view(r) == passphrase_step(env_var@, confirm, opt_view(env), opt_view(entered), opt_view(again)),
{
    match env {
        Some(e) => {
            if e.is_empty() {
                PassphraseStep::Refused(PassphraseError::EnvEmpty(owned(env_var)))
            } else {
                PassphraseStep::Ready(owned(e))
            }
        },
        None => match entered {
            None => PassphraseStep::Prompt,
            Some(p) => {
                if p.is_empty() {
                    PassphraseStep::Refused(PassphraseError::Empty)
                } else if !confirm {
                    PassphraseStep::Ready(owned(p))
                } else {
                    match again {
                        None => PassphraseStep::Confirm,
                        Some(a) => {
                            if !str_eq(a, p) {
                                PassphraseStep::Refused(PassphraseError::Mismatch)
                            } else {
                                PassphraseStep::Ready(owned(p))
                            }
                        },
                    }
                }
            },
        },
    }
}

/// [`acquire_passphrase_for`] for the signing key, read from
/// [`key_passphrase_var`].
pub fn acquire_passphrase(confirm: bool, env: Option<&str>, entered: Option<&str>, again: Option<&str>) -> (r: PassphraseStep)
    ensures
        step_view(r) == passphrase_step("ULPF_KEY_PASSPHRASE"@, confirm, opt_view(env), opt_view(entered), opt_view(again)),
{
    acquire_passphrase_for(key_passphrase_var(), confirm, env, entered, again)
}

} // verus!
