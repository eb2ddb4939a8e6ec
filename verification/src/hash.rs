//! The fixed hash rule that places identities on the ring.
//!
//! For interoperability between peers, the rule is bit-for-bit fixed: the
//! 64-bit hash of a byte string is the little-endian `u64` read from the
//! first 8 bytes of its 16-byte MD5 digest. The choice of MD5 is historical;
//! only its distribution matters here, not its cryptographic strength, and
//! substituting another algorithm would relocate every key.

use vstd::prelude::*;

verus! {

/// The 16-byte MD5 digest of a byte string.
pub uninterp spec fn md5_digest(s: Seq<u8>) -> Seq<u8>;

/// Relies on `crypto::md5::Md5` through `crypto::digest::Digest::{input,
/// result}`: `result` fills the buffer with the 16-byte MD5 digest of all
/// input bytes, a function of those bytes alone.
#[verifier::external_body]
fn md5(bytes: &[u8]) -> (r: Vec<u8>)
    ensures
        r@ == md5_digest(bytes@),
        r@.len() == 16,
{
    let mut hasher = crypto::md5::Md5::new();
    crypto::digest::Digest::input(&mut hasher, bytes);
    let mut out = [0u8; 16];
    crypto::digest::Digest::result(&mut hasher, &mut out);
    out.to_vec()
}

/// The little-endian 64-bit integer read from the first 8 bytes of `d`.
pub open spec fn le64(d: Seq<u8>) -> u64
    recommends
        d.len() >= 8,
{
    (d[0] as u64) | ((d[1] as u64) << 8) | ((d[2] as u64) << 16) | ((d[3] as u64) << 24) | ((
    d[4] as u64) << 32) | ((d[5] as u64) << 40) | ((d[6] as u64) << 48) | ((d[7] as u64) << 56)
}

/// Where a byte string lands on the ring: the little-endian `u64` of the
/// first 8 bytes of its MD5 digest. The remaining 8 digest bytes are
/// discarded.
pub open spec fn hash_of(s: Seq<u8>) -> u64 {
    le64(md5_digest(s))
}

/// Compute the ring position of the identity bytes `s`.
pub fn hash_bytes(s: &[u8]) -> (h: u64)
    ensures
        h == hash_of(s@),
{
    let d = md5(s);
    (d[0] as u64) | ((d[1] as u64) << 8) | ((d[2] as u64) << 16) | ((d[3] as u64) << 24) | ((
    d[4] as u64) << 32) | ((d[5] as u64) << 40) | ((d[6] as u64) << 48) | ((d[7] as u64) << 56)
}

} // verus!
