//! Card identity: deriving a fingerprint from normalized content bytes
//! through a collision-resistant digest.

use vstd::bytes::{spec_u128_from_le_bytes, u128_from_le_bytes};
use vstd::prelude::*;
use vstd::slice::slice_subrange;

use crate::types::Fingerprint;

verus! {

/// What SHA-256 returns for a byte string; fixed by the bytes alone.
pub uninterp spec fn sha256_of(s: Seq<u8>) -> Seq<u8>;

/// Relies on sha2's `Sha256` through the one-shot `Digest::digest`: the
/// 32-byte SHA-256 digest of the input, a function of the input alone.
#[verifier::external_body]
fn sha256(bytes: &[u8]) -> (r: Vec<u8>)
    ensures
        r@ == sha256_of(bytes@),
        r@.len() == 32,
{
    <sha2::Sha256 as sha2::Digest>::digest(bytes).to_vec()
}

/// The fingerprint a byte string hashes to: its SHA-256 digest packed
/// into the fingerprint's two words, little-endian.
pub open spec fn spec_fingerprint_of(s: Seq<u8>) -> Fingerprint {
    Fingerprint {
        hi: spec_u128_from_le_bytes(sha256_of(s).subrange(0, 16)),
        lo: spec_u128_from_le_bytes(sha256_of(s).subrange(16, 32)),
    }
}

/// Derives a card or note fingerprint from its normalized content bytes.
pub fn fingerprint_of_bytes(bytes: &[u8]) -> (r: Fingerprint)
    ensures
        r == spec_fingerprint_of(bytes@),
{
    let d = sha256(bytes);
    let hi = u128_from_le_bytes(slice_subrange(d.as_slice(), 0, 16));
    let lo = u128_from_le_bytes(slice_subrange(d.as_slice(), 16, 32));
    Fingerprint { hi, lo }
}

} // verus!
