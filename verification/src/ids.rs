//! Job ids: short opaque tokens derived from the time of creation.
//!
//! An id is the base58 text of the first three bytes of a digest of the
//! decimal creation time.  Ids are stable only within a process lifetime;
//! a queued job gets a fresh one on every load.

use vstd::prelude::*;

use sha2::{Digest, Sha256};

use crate::text::dec_repr;

verus! {

/// The SHA-256 digest of `data`.
pub uninterp spec fn sha256_of(data: Seq<u8>) -> Seq<u8>;

/// The base58 text of `data` in the Bitcoin alphabet.
pub uninterp spec fn base58_of(data: Seq<u8>) -> Seq<u8>;

/// Relies on sha2::Sha256: a 32-byte digest, a function of the input
/// bytes alone.
#[verifier::external_body]
fn sha256(data: &[u8]) -> (r: Vec<u8>)
    ensures
        r@ == sha256_of(data@),
        r@.len() == 32,
{
    let mut hasher = Sha256::new();
    hasher.update(data);
    hasher.finalize().to_vec()
}

/// Relies on bs58::encode: base58 text, a function of the input bytes
/// alone.
#[verifier::external_body]
fn base58(data: &[u8]) -> (r: Vec<u8>)
    ensures
        r@ == base58_of(data@),
{
    bs58::encode(data).into_vec()
}

/// A fresh job id for a job created at `timestamp_secs`: the base58 text
/// of the first three digest bytes of the decimal time.
pub fn generate_job_id(timestamp_secs: u64) -> (id: Vec<u8>)
    ensures
        id@ == base58_of(sha256_of(dec_repr(timestamp_secs as nat)).take(3)),
{
    let ts = crate::text::u64_to_dec(timestamp_secs);
    let digest = sha256(ts.as_slice());
    let mut head: Vec<u8> = Vec::new();
    head.push(digest[0]);
    head.push(digest[1]);
    head.push(digest[2]);
    proof {
        assert(head@ =~= sha256_of(dec_repr(timestamp_secs as nat)).take(3));
    }
    base58(head.as_slice())
}

} // verus!
