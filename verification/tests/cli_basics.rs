use ulpf::base::Disposition;
use ulpf::cli::auth::{check_token, constant_time_eq, presented_token, refusal, TokenVerdict};
use ulpf::cli::integrity_state::{leaves_from, pending_leaf_bytes, safe_name, LeafError};
use ulpf::cli::key_crypto::{
    acquire_passphrase, acquire_passphrase_for, is_encrypted_format, key_passphrase_var,
    PassphraseError, PassphraseStep,
};
use ulpf::cli::pipeline::{failure_reason, Stats};
use ulpf::cli::proofs::chain_files;

#[test]
fn constant_time_eq_agrees_with_ordinary_equality() {
    assert!(constant_time_eq(b"abc", b"abc"));
    assert!(!constant_time_eq(b"abc", b"abd"));
    assert!(!constant_time_eq(b"abc", b"ab"));
    assert!(!constant_time_eq(b"", b"a"));
    assert!(constant_time_eq(b"", b""));
}

#[test]
fn lengths_that_differ_by_a_multiple_of_256_are_still_unequal() {
    assert!(!constant_time_eq(b"", &[0u8; 256]));
}

#[test]
fn safe_names_keep_only_portable_characters() {
    assert_eq!(safe_name("edge-01_a.b"), "edge-01_a.b");
    assert_eq!(safe_name("../etc/passwd"), ".._etc_passwd");
    assert_eq!(safe_name("chäin one"), "ch_in_one");
}

#[test]
fn plain_hex_is_not_mistaken_for_the_encrypted_format() {
    assert!(is_encrypted_format(b"  \n{\"version\":1}"));
    assert!(!is_encrypted_format(b"0909090909"));
    assert!(!is_encrypted_format(b""));
    assert!(!is_encrypted_format(b"   "));
}

#[test]
fn the_passphrase_rule_prefers_the_environment_and_confirms_new_entries() {
    assert_eq!(key_passphrase_var(), "ULPF_KEY_PASSPHRASE");
    assert_eq!(acquire_passphrase(true, Some("s3cret"), None, None), PassphraseStep::Ready("s3cret".into()));
    assert_eq!(
        acquire_passphrase(false, Some(""), None, None),
        PassphraseStep::Refused(PassphraseError::EnvEmpty("ULPF_KEY_PASSPHRASE".into()))
    );
    assert_eq!(acquire_passphrase(false, None, None, None), PassphraseStep::Prompt);
    assert_eq!(acquire_passphrase(false, None, Some(""), None), PassphraseStep::Refused(PassphraseError::Empty));
    assert_eq!(acquire_passphrase(false, None, Some("pw"), None), PassphraseStep::Ready("pw".into()));
    assert_eq!(acquire_passphrase(true, None, Some("pw"), None), PassphraseStep::Confirm);
    assert_eq!(acquire_passphrase(true, None, Some("pw"), Some("px")), PassphraseStep::Refused(PassphraseError::Mismatch));
    assert_eq!(acquire_passphrase(true, None, Some("pw"), Some("pw")), PassphraseStep::Ready("pw".into()));
    assert_eq!(
        acquire_passphrase_for("VAULT_PASS", false, Some(""), None, None),
        PassphraseStep::Refused(PassphraseError::EnvEmpty("VAULT_PASS".into()))
    );
}

#[test]
fn chain_files_use_the_safe_name_under_the_directory() {
    let f = chain_files("data/integrity", "edge/01");
    assert_eq!(f.checkpoint, "data/integrity/edge_01.checkpoint.json");
    assert_eq!(f.leaves, "data/integrity/edge_01.merkle-leaves.bin");
    let g = chain_files("data/", "c");
    assert_eq!(g.checkpoint, "data/c.checkpoint.json");
    let h = chain_files("", "c");
    assert_eq!(h.leaves, "c.merkle-leaves.bin");
}

#[test]
fn stats_count_each_disposition_and_packs_by_id() {
    let mut s = Stats::new();
    s.record(&Disposition::Parsed { pack_id: "fortigate".into() });
    s.record(&Disposition::Parsed { pack_id: "asa".into() });
    s.record(&Disposition::Parsed { pack_id: "fortigate".into() });
    s.record(&Disposition::Unidentified);
    s.record(&Disposition::ExtractFailed { pack_id: "asa".into(), reason: "bad".into() });
    s.record(&Disposition::NormalizeFailed { pack_id: "asa".into(), reason: "worse".into() });
    assert_eq!(s.parsed, 3);
    assert_eq!(s.unidentified, 1);
    assert_eq!(s.extract_failed, 1);
    assert_eq!(s.normalize_failed, 1);
    assert_eq!(s.by_pack, vec![("asa".to_string(), 1), ("fortigate".to_string(), 2)]);
    assert_eq!(s.by_pack.iter().map(|(_, n)| n).sum::<u64>(), s.parsed);
}

#[test]
fn failure_reasons_come_from_the_disposition() {
    assert_eq!(failure_reason(&Disposition::Parsed { pack_id: "p".into() }), None);
    assert_eq!(failure_reason(&Disposition::Unidentified), Some("no pack detector matched"));
    assert_eq!(
        failure_reason(&Disposition::ExtractFailed { pack_id: "p".into(), reason: "why".into() }),
        Some("why")
    );
}

#[test]
fn leaf_files_read_back_whole_records_only() {
    let mut bytes: Vec<u8> = (0u8..64).collect();
    bytes.extend_from_slice(&[9, 9, 9]);
    let leaves = leaves_from(&bytes, 2).unwrap();
    assert_eq!(leaves.len(), 2);
    assert_eq!(leaves[0][0], 0);
    assert_eq!(leaves[0][31], 31);
    assert_eq!(leaves[1][0], 32);
    assert_eq!(leaves[1][31], 63);
    assert_eq!(leaves_from(&bytes, 1).unwrap().len(), 1);
    assert!(leaves_from(&bytes, 0).unwrap().is_empty());
    assert_eq!(leaves_from(&bytes, 3), Err(LeafError::Truncated { available: 2, limit: 3 }));
    assert!(leaves_from(&[], 0).unwrap().is_empty());
}

#[test]
fn only_leaves_past_the_file_are_appended() {
    let leaves = vec![[1u8; 32], [2u8; 32], [3u8; 32]];
    assert_eq!(pending_leaf_bytes(0, &leaves).len(), 96);
    let tail = pending_leaf_bytes(32, &leaves);
    assert_eq!(tail.len(), 64);
    assert!(tail[..32].iter().all(|&b| b == 2));
    assert!(tail[32..].iter().all(|&b| b == 3));
    // A half-written record does not count as stored.
    assert_eq!(pending_leaf_bytes(40, &leaves).len(), 64);
    assert!(pending_leaf_bytes(96, &leaves).is_empty());
    assert!(pending_leaf_bytes(1000, &leaves).is_empty());
}

#[test]
fn a_token_is_read_from_either_header() {
    assert_eq!(presented_token(Some("Bearer  abc "), None).as_deref(), Some("abc"));
    assert_eq!(presented_token(Some("Bearer abc"), Some("xyz")).as_deref(), Some("abc"));
    // Another scheme falls through to the token header.
    assert_eq!(presented_token(Some("Basic Zm9v"), Some(" xyz\t")).as_deref(), Some("xyz"));
    assert_eq!(presented_token(Some("bearer abc"), None), None);
    assert_eq!(presented_token(None, Some("t")).as_deref(), Some("t"));
    assert_eq!(presented_token(None, None), None);
    assert_eq!(presented_token(Some("Bearer "), None).as_deref(), Some(""));
}

#[test]
fn only_the_console_token_is_admitted() {
    assert_eq!(check_token(Some("secret"), "secret"), TokenVerdict::Allowed);
    assert_eq!(check_token(Some("secreT"), "secret"), TokenVerdict::Mismatch);
    assert_eq!(check_token(Some(""), "secret"), TokenVerdict::Mismatch);
    assert_eq!(check_token(None, "secret"), TokenVerdict::Missing);
    assert_eq!(refusal(TokenVerdict::Allowed), None);
    assert!(refusal(TokenVerdict::Mismatch).unwrap().contains("does not match"));
    assert_eq!(
        refusal(TokenVerdict::Mismatch),
        Some("the token presented does not match this collector's console token")
    );
    assert!(refusal(TokenVerdict::Missing).unwrap().starts_with("this endpoint requires a console token"));
    assert!(refusal(TokenVerdict::Missing).unwrap().contains("X-ULPF-Token"));
}
