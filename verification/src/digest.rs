//! Content digests of segments and chunks.

use vstd::prelude::*;

verus! {

/// The BLAKE3 digest of `data`, as computed by the `blake3` crate.
pub uninterp spec fn blake3_digest(data: Seq<u8>) -> Seq<u8>;

/// Calls `blake3::hash` and returns the bytes of the digest.
///
/// Trusted: the result is the value of `blake3_digest` on the input, and it
/// is 32 bytes long (`blake3::OUT_LEN`); nothing else is claimed of it.
#[verifier::external_body]
pub(crate) fn blake3_hash(data: &[u8]) -> (r: Vec<u8>)
    ensures
        r@ == blake3_digest(data@),
        r@.len() == 32,
{
    blake3::hash(data).as_bytes().to_vec()
}

/// The SHA-256 digest of `data`, as computed by the `sha2` crate.
pub uninterp spec fn sha256_digest(data: Seq<u8>) -> Seq<u8>;

/// The HMAC-SHA256 tag of `data` under `key`, as computed by the `hmac`
/// crate over `sha2`'s SHA-256.
pub uninterp spec fn hmac_sha256_tag(key: Seq<u8>, data: Seq<u8>) -> Seq<u8>;

/// Calls `sha2::Sha256::digest` and returns the bytes of the digest.
///
/// Trusted: the result is the value of `sha256_digest` on the input, 32
/// bytes long.
#[verifier::external_body]
pub(crate) fn sha256_hash(data: &[u8]) -> (r: Vec<u8>)
    ensures
        r@ == sha256_digest(data@),
        r@.len() == 32,
{
    <sha2::Sha256 as sha2::Digest>::digest(data).to_vec()
}

/// Computes the HMAC-SHA256 tag of `data` under `key` with the `hmac`
/// crate (`Mac::new_from_slice`, `update`, `finalize`).
///
/// Trusted: the result is the value of `hmac_sha256_tag`, 32 bytes long.
/// `new_from_slice` accepts keys of every length for HMAC (its source
/// returns `Ok` unconditionally), so the other arm is never taken.
#[verifier::external_body]
pub(crate) fn hmac_sha256(key: &[u8], data: &[u8]) -> (r: Vec<u8>)
    ensures
        r@ == hmac_sha256_tag(key@, data@),
        r@.len() == 32,
{
    match <hmac::Hmac<sha2::Sha256> as hmac::Mac>::new_from_slice(key) {
        Ok(mut mac) => {
            hmac::Mac::update(&mut mac, data);
            hmac::Mac::finalize(mac).into_bytes().to_vec()
        },
        Err(_) => Vec::new(),
    }
}

/// Checks `tag` against the HMAC-SHA256 tag of `data` under `key` with the
/// `hmac` crate's `Mac::verify_slice`, which compares in constant time.
///
/// Trusted: the result says whether `tag` is exactly that tag
/// (`verify_slice` refuses a tag of another length, and otherwise compares
/// every byte).
#[verifier::external_body]
pub(crate) fn hmac_sha256_verify(key: &[u8], data: &[u8], tag: &[u8]) -> (r: bool)
    ensures
        r == (tag@ == hmac_sha256_tag(key@, data@)),
{
    match <hmac::Hmac<sha2::Sha256> as hmac::Mac>::new_from_slice(key) {
        Ok(mut mac) => {
            hmac::Mac::update(&mut mac, data);
            hmac::Mac::verify_slice(mac, tag).is_ok()
        },
        Err(_) => false,
    }
}

} // verus!
