//! Integrity-bearing descriptions of stored files.

use vstd::prelude::*;
use crate::hash::{clone_hashes, hv_eq, HashAlgo, HashValue};
use crate::merkle_tree::{digests_of, root_digest};

verus! {

/// What the engine records for one unique payload: its content hash, the
/// digest of every chunk in order, and the Merkle root over those digests.
/// Created once per unique content hash and never mutated.
#[derive(Debug)]
pub struct FileMetadata {
    /// The filename the payload was first submitted under.
    pub path: String,
    /// Total payload size in bytes: the sum of the chunk lengths.
    pub size: u64,
    /// Whole-file content hash; the key the payload is addressed by.
    pub hash: HashValue,
    /// Digest of each chunk, in order.
    pub chunks: Vec<HashValue>,
    /// Merkle root over `chunks`, in order.
    pub merkle_root: HashValue,
    /// Seconds since the Unix epoch when the record was created.
    pub created_at: i64,
    /// Seconds since the Unix epoch when the record was last modified.
    pub modified_at: i64,
    /// Opaque owner identifier; not validated here.
    pub owner: String,
}

/// One fixed-size slice of a file, individually hashed.
#[derive(Debug)]
pub struct FileChunk {
    /// Ordinal position of the slice within its file.
    pub index: usize,
    /// Digest of `data`.
    pub hash: HashValue,
    /// The slice itself.
    pub data: Vec<u8>,
}

/// Field-for-field equality of two metadata records.
pub open spec fn meta_eq(a: FileMetadata, b: FileMetadata) -> bool {
    &&& a.path@ == b.path@
    &&& a.size == b.size
    &&& hv_eq(a.hash, b.hash)
    &&& a.chunks@.len() == b.chunks@.len()
    &&& forall|i: int| 0 <= i < a.chunks@.len() ==> hv_eq(#[trigger] a.chunks@[i], b.chunks@[i])
    &&& hv_eq(a.merkle_root, b.merkle_root)
    &&& a.created_at == b.created_at
    &&& a.modified_at == b.modified_at
    &&& a.owner@ == b.owner@
}

/// Internal consistency of a metadata record: the content hash and every
/// chunk digest are SHA-256 digests of the right width, and the recorded
/// Merkle root is the root computed over the chunk digests in order.
pub open spec fn meta_wf(m: FileMetadata) -> bool {
    &&& m.hash.algo == HashAlgo::Sha256
    &&& m.hash.wf()
    &&& forall|i: int|
        0 <= i < m.chunks@.len() ==> (#[trigger] m.chunks@[i]).algo == HashAlgo::Sha256
            && m.chunks@[i].wf()
    &&& m.merkle_root.algo == HashAlgo::Sha256
    &&& m.merkle_root.bytes@ == root_digest(digests_of(m.chunks@))
}

impl Clone for FileMetadata {
    /// An exact copy, field for field.
    fn clone(&self) -> (r: Self)
        ensures
            meta_eq(r, *self),
    {
        FileMetadata {
            path: self.path.clone(),
            size: self.size,
            hash: self.hash.clone(),
            chunks: clone_hashes(&self.chunks),
            merkle_root: self.merkle_root.clone(),
            created_at: self.created_at,
            modified_at: self.modified_at,
            owner: self.owner.clone(),
        }
    }
}

} // verus!
