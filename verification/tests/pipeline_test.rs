//! The stand-in pipeline stages.

use spacemesh::pipeline::{DefaultPolicyEvaluator, NoopEncryptor, NullKeyring};

#[test]
fn test_noop_encrypt_returns_data_unchanged() {
    let enc = NoopEncryptor;
    let (out, summary) = enc.encrypt(b"plaintext".to_vec(), 1);
    assert_eq!(out, b"plaintext".to_vec());
    assert_eq!(summary.scheme, "noop");
}

#[test]
fn test_noop_decrypt_returns_data_unchanged() {
    let enc = NoopEncryptor;
    assert_eq!(enc.decrypt(b"ciphertext", 1), b"ciphertext".to_vec());
}

#[test]
fn test_noop_verify_mac_always_ok() {
    let enc = NoopEncryptor;
    assert!(enc.compute_mac(b"x", 1).is_empty());
    assert!(enc.verify_mac(b"x", 1));
}

#[test]
fn null_keyring_derive_returns_zeroes() {
    let k = NullKeyring;
    assert_eq!(k.derive_key(5, 6), [0u8; 32]);
}

#[test]
fn null_keyring_rotate_succeeds() {
    let mut k = NullKeyring;
    k.rotate_key(5);
    assert_eq!(k.derive_key(5, 0), [0u8; 32]);
}

#[test]
fn default_evaluator_returns_policy_dedupe() {
    let e = DefaultPolicyEvaluator;
    assert!(e.evaluate_dedup(true));
    assert!(!e.evaluate_dedup(false));
}
