//! Fixed-format digests under a selectable algorithm.
//!
//! Every other component addresses content through the digests computed here.

use vstd::prelude::*;
use vstd::slice::{slice_index_get, slice_subrange, slice_to_vec};
use sha2::Digest;

verus! {

/// The closed set of digest algorithms: two families, two widths each.
#[derive(Debug, Clone, Copy, PartialEq, Eq, Structural, Hash)]
pub enum HashAlgo {
    Sha256,
    Sha512,
    Sha3_256,
    Sha3_512,
}

/// The digest that SHA-256 assigns to a byte sequence.
pub uninterp spec fn sha256_of(data: Seq<u8>) -> Seq<u8>;

/// The digest that SHA-512 assigns to a byte sequence.
pub uninterp spec fn sha512_of(data: Seq<u8>) -> Seq<u8>;

/// The digest that SHA3-256 assigns to a byte sequence.
pub uninterp spec fn sha3_256_of(data: Seq<u8>) -> Seq<u8>;

/// The digest that SHA3-512 assigns to a byte sequence.
pub uninterp spec fn sha3_512_of(data: Seq<u8>) -> Seq<u8>;

/// Byte width of the digests an algorithm produces.
pub open spec fn digest_width(algo: HashAlgo) -> nat {
    match algo {
        HashAlgo::Sha256 => 32,
        HashAlgo::Sha512 => 64,
        HashAlgo::Sha3_256 => 32,
        HashAlgo::Sha3_512 => 64,
    }
}

/// The digest a given algorithm assigns to a byte sequence.
pub open spec fn digest_of(data: Seq<u8>, algo: HashAlgo) -> Seq<u8> {
    match algo {
        HashAlgo::Sha256 => sha256_of(data),
        HashAlgo::Sha512 => sha512_of(data),
        HashAlgo::Sha3_256 => sha3_256_of(data),
        HashAlgo::Sha3_512 => sha3_512_of(data),
    }
}

/// Relies on sha2::Sha256::digest: a 32-byte digest determined by the input bytes alone.
#[verifier::external_body]
fn sha256_digest(data: &[u8]) -> (r: Vec<u8>)
    ensures
        r@ == sha256_of(data@),
        r@.len() == 32,
{
    sha2::Sha256::digest(data).to_vec()
}

/// Relies on sha2::Sha512::digest: a 64-byte digest determined by the input bytes alone.
#[verifier::external_body]
fn sha512_digest(data: &[u8]) -> (r: Vec<u8>)
    ensures
        r@ == sha512_of(data@),
        r@.len() == 64,
{
    sha2::Sha512::digest(data).to_vec()
}

/// Relies on sha3::Sha3_256::digest: a 32-byte digest determined by the input bytes alone.
#[verifier::external_body]
fn sha3_256_digest(data: &[u8]) -> (r: Vec<u8>)
    ensures
        r@ == sha3_256_of(data@),
        r@.len() == 32,
{
    sha3::Sha3_256::digest(data).to_vec()
}

/// Relies on sha3::Sha3_512::digest: a 64-byte digest determined by the input bytes alone.
#[verifier::external_body]
fn sha3_512_digest(data: &[u8]) -> (r: Vec<u8>)
    ensures
        r@ == sha3_512_of(data@),
        r@.len() == 64,
{
    sha3::Sha3_512::digest(data).to_vec()
}

/// The sixteen lowercase hex digits, in value order.
pub open spec fn hex_digit(n: int) -> char {
    seq!['0', '1', '2', '3', '4', '5', '6', '7', '8', '9', 'a', 'b', 'c', 'd', 'e', 'f'][n]
}

/// Lowercase hex encoding: two digits per byte, high nibble first.
pub open spec fn hex_of(bytes: Seq<u8>) -> Seq<char> {
    Seq::new(
        bytes.len() * 2,
        |i: int|
            if i % 2 == 0 {
                hex_digit(bytes[i / 2] as int / 16)
            } else {
                hex_digit(bytes[i / 2] as int % 16)
            },
    )
}

/// Relies on hex::encode: lowercase hex, two digits per byte, high nibble first.
#[verifier::external_body]
fn hex_encode(bytes: &[u8]) -> (r: String)
    ensures
        r@ == hex_of(bytes@),
{
    hex::encode(bytes)
}

/// A digest together with the algorithm that produced it.
///
/// Two values with identical bytes under different algorithms are not equal.
#[derive(Debug)]
pub struct HashValue {
    pub algo: HashAlgo,
    pub bytes: Vec<u8>,
}

/// Equality of hash values: both the algorithm tag and the digest bytes.
pub open spec fn hv_eq(a: HashValue, b: HashValue) -> bool {
    a.algo == b.algo && a.bytes@ == b.bytes@
}

/// Byte-for-byte comparison of two byte vectors.
pub fn eq_bytes(a: &Vec<u8>, b: &Vec<u8>) -> (r: bool)
    ensures
        r == (a@ == b@),
{
    if a.len() != b.len() {
        return false;
    }
    let mut i: usize = 0;
    while i < a.len()
        invariant
            i <= a.len(),
            a.len() == b.len(),
            forall|j: int| 0 <= j < i ==> a@[j] == b@[j],
        decreases a.len() - i,
    {
        if a[i] != b[i] {
            return false;
        }
        i += 1;
    }
    proof {
        assert(a@ =~= b@);
    }
    true
}

/// Concatenation of two byte strings.
pub fn concat_bytes(a: &[u8], b: &[u8]) -> (r: Vec<u8>)
    ensures
        r@ == a@ + b@,
{
    let mut r = slice_to_vec(a);
    let mut i: usize = 0;
    while i < b.len()
        invariant
            i <= b@.len(),
            r@ == a@ + b@.take(i as int),
        decreases b@.len() - i,
    {
        r.push(*slice_index_get(b, i));
        proof {
            assert(a@ + b@.take(i + 1) =~= (a@ + b@.take(i as int)).push(b@[i as int]));
        }
        i += 1;
    }
    proof {
        assert(b@.take(b@.len() as int) =~= b@);
    }
    r
}

impl HashValue {
    /// The digest bytes have the width the algorithm prescribes.
    pub open spec fn wf(&self) -> bool {
        self.bytes@.len() == digest_width(self.algo)
    }

    /// Computes the digest of `data` under `algo`.
    pub fn compute(data: &[u8], algo: HashAlgo) -> (r: HashValue)
        ensures
            r.algo == algo,
            r.bytes@ == digest_of(data@, algo),
            r.wf(),
    {
        match algo {
            HashAlgo::Sha256 => HashValue { algo, bytes: sha256_digest(data) },
            HashAlgo::Sha512 => HashValue { algo, bytes: sha512_digest(data) },
            HashAlgo::Sha3_256 => HashValue { algo, bytes: sha3_256_digest(data) },
            HashAlgo::Sha3_512 => HashValue { algo, bytes: sha3_512_digest(data) },
        }
    }

    /// The full digest as a lowercase hex string.
    pub fn to_hex(&self) -> (r: String)
        ensures
            r@ == hex_of(self.bytes@),
    {
        hex_encode(self.bytes.as_slice())
    }

    /// Hex of the first `min(len, size())` digest bytes; for display, not comparison.
    pub fn prefix(&self, len: usize) -> (r: String)
        ensures
            r@ == hex_of(self.bytes@.take(if len <= self.bytes@.len() {
                len as int
            } else {
                self.bytes@.len() as int
            })),
    {
        let n = if len <= self.bytes.len() {
            len
        } else {
            self.bytes.len()
        };
        hex_encode(slice_subrange(self.bytes.as_slice(), 0, n))
    }

    /// Byte length of the digest.
    pub fn size(&self) -> (r: usize)
        ensures
            r == self.bytes@.len(),
    {
        self.bytes.len()
    }
}

impl Clone for HashValue {
    /// An exact copy: same algorithm tag, same digest bytes.
    fn clone(&self) -> (r: Self)
        ensures
            hv_eq(r, *self),
    {
        HashValue { algo: self.algo, bytes: slice_to_vec(self.bytes.as_slice()) }
    }
}

impl PartialEq for HashValue {
    /// Equal when both the algorithm tag and the digest bytes agree.
    fn eq(&self, other: &Self) -> (r: bool) {
        self.algo == other.algo && eq_bytes(&self.bytes, &other.bytes)
    }
}

impl Eq for HashValue {

}

impl vstd::std_specs::cmp::PartialEqSpecImpl for HashValue {
    open spec fn obeys_eq_spec() -> bool {
        true
    }

    open spec fn eq_spec(&self, other: &Self) -> bool {
        hv_eq(*self, *other)
    }
}

/// Copies of the hash values of a sequence.
pub fn clone_hashes(v: &Vec<HashValue>) -> (r: Vec<HashValue>)
    ensures
        r@.len() == v@.len(),
        forall|i: int| 0 <= i < v@.len() ==> hv_eq(#[trigger] r@[i], v@[i]),
{
    let mut r: Vec<HashValue> = Vec::new();
    let mut i: usize = 0;
    while i < v.len()
        invariant
            i <= v@.len(),
            r@.len() == i,
            forall|j: int| 0 <= j < i ==> hv_eq(#[trigger] r@[j], v@[j]),
        decreases v@.len() - i,
    {
        r.push(v[i].clone());
        i += 1;
    }
    r
}

} // verus!
