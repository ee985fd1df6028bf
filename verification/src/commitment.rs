//! A hiding commitment: bind to a secret now, prove knowledge of it later.
//!
//! Committing draws a fresh random nonce and stores the SHA3-256 digest of
//! the secret followed by the nonce; the secret itself is never stored.
//! SHA3-256 is deliberately distinct from the SHA-256 used for content
//! addressing, so the two protocols cannot be confused.

use vstd::prelude::*;
use rand::RngCore;
use crate::hash::{concat_bytes, hv_eq, sha3_256_of, HashAlgo, HashValue};

verus! {

/// Byte length of the random nonce drawn for each commitment.
pub const NONCE_LEN: usize = 32;

/// Relies on rand::thread_rng and rand::RngCore::fill_bytes to fill the
/// buffer with random bytes; nothing is assumed of the values drawn.
#[verifier::external_body]
fn random_nonce() -> (r: Vec<u8>)
    ensures
        r@.len() == NONCE_LEN,
{
    let mut nonce = vec![0u8; NONCE_LEN];
    rand::thread_rng().fill_bytes(&mut nonce);
    nonce
}

/// A digest bound to a secret, with the nonce that blinds it.
#[derive(Debug)]
pub struct Commitment {
    hash: HashValue,
    nonce: Vec<u8>,
}

impl Commitment {
    /// The stored digest.
    pub closed spec fn spec_hash(&self) -> HashValue {
        self.hash
    }

    /// The stored nonce.
    pub closed spec fn spec_nonce(&self) -> Seq<u8> {
        self.nonce@
    }

    /// Whether the commitment opens for `secret`: the stored digest is the
    /// SHA3-256 digest of the secret followed by the stored nonce.
    pub open spec fn opens(&self, secret: Seq<u8>) -> bool {
        &&& self.spec_hash().algo == HashAlgo::Sha3_256
        &&& self.spec_hash().bytes@ == sha3_256_of(secret + self.spec_nonce())
    }

    /// Binds to `secret` under a fresh random nonce. The commitment opens
    /// for exactly the byte sequences whose digest under the drawn nonce
    /// matches; `secret` itself is one of them.
    pub fn commit(secret: &[u8]) -> (c: Commitment)
        ensures
            c.opens(secret@),
            c.spec_hash().wf(),
            c.spec_nonce().len() == NONCE_LEN,
    {
        let nonce = random_nonce();
        let combined = concat_bytes(secret, nonce.as_slice());
        let hash = HashValue::compute(combined.as_slice(), HashAlgo::Sha3_256);
        Commitment { hash, nonce }
    }

    /// Recomputes the digest of `secret` under the stored nonce and
    /// compares it to the stored digest; pure, mutates nothing.
    pub fn verify(&self, secret: &[u8]) -> (r: bool)
        ensures
            r == self.opens(secret@),
    {
        let combined = concat_bytes(secret, self.nonce.as_slice());
        let computed = HashValue::compute(combined.as_slice(), HashAlgo::Sha3_256);
        computed == self.hash
    }

    /// The stored digest.
    pub fn hash(&self) -> (r: &HashValue)
        ensures
            hv_eq(*r, self.spec_hash()),
    {
        &self.hash
    }

    /// The stored nonce.
    pub fn nonce(&self) -> (r: &Vec<u8>)
        ensures
            r@ == self.spec_nonce(),
    {
        &self.nonce
    }
}

} // verus!
