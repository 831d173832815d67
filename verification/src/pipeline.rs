//! Stand-in stages of the capsule pipeline: an encryptor that leaves data
//! as it is, a keyring that hands out the zero key, and the evaluator that
//! takes a capsule's policy as it stands.

use vstd::prelude::*;

verus! {

/// What an encryptor reports of the scheme it applied.
#[derive(Clone, Debug)]
pub struct EncryptionSummary {
    pub scheme: String,
}

/// An encryptor that stores data in the clear.
#[derive(Clone, Copy, Debug, Default)]
pub struct NoopEncryptor;

impl NoopEncryptor {
    /// Returns the data unchanged, under the scheme `noop`.
    pub fn encrypt(&self, data: Vec<u8>, segment: u64) -> (r: (Vec<u8>, EncryptionSummary))
        ensures
            r.0@ == data@,
            r.1.scheme@ == "noop"@,
    {
        (data, EncryptionSummary { scheme: String::from_str("noop") })
    }

    /// Returns the data unchanged.
    pub fn decrypt(&self, data: &[u8], segment: u64) -> (r: Vec<u8>)
        ensures
            r@ == data@,
    {
        let mut out: Vec<u8> = Vec::new();
        crate::wire::push_bytes(&mut out, data);
        out
    }

    /// No data carries a MAC: the MAC is empty.
    pub fn compute_mac(&self, data: &[u8], segment: u64) -> (r: Vec<u8>)
        ensures
            r@.len() == 0,
    {
        Vec::new()
    }

    /// Every piece of data passes the check.
    pub fn verify_mac(&self, data: &[u8], segment: u64) -> (r: bool)
        ensures
            r,
    {
        true
    }
}

/// A keyring without keys: every segment gets the zero key.
#[derive(Clone, Copy, Debug, Default)]
pub struct NullKeyring;

impl NullKeyring {
    /// The key of a segment: 32 zero bytes.
    pub fn derive_key(&self, capsule: u128, segment: u64) -> (r: [u8; 32])
        ensures
            r@ == Seq::new(32, |i: int| 0u8),
    {
        let k = [0u8; 32];
        proof {
            assert(k@ =~= Seq::new(32, |i: int| 0u8));
        }
        k
    }

    /// Rotating changes nothing.
    pub fn rotate_key(&mut self, capsule: u128)
        ensures
            *final(self) == *old(self),
    {
    }
}

/// The evaluator that applies a capsule's policy as it stands.
#[derive(Clone, Copy, Debug, Default)]
pub struct DefaultPolicyEvaluator;

impl DefaultPolicyEvaluator {
    /// Whether to deduplicate: what the policy says.
    pub fn evaluate_dedup(&self, policy_dedupe: bool) -> (r: bool)
        ensures
            r == policy_dedupe,
    {
        policy_dedupe
    }
}

} // verus!
