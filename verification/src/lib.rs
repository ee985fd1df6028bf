//! Content-addressed, deduplicating file storage with cryptographic
//! integrity verification: a multi-algorithm hash abstraction, a Merkle
//! tree for chunk-inclusion proofs, a Bloom filter for cheap pre-existence
//! checks, a hiding commitment primitive, and the chunking storage engine
//! that ties them together.

pub mod authenticator;
pub mod bloom;
pub mod commitment;
pub mod engine;
pub mod file_metadata;
pub mod hash;
pub mod merkle_tree;

pub use authenticator::{AuthError, FileAuthenticator};
pub use bloom::BloomFilter;
pub use commitment::Commitment;
pub use engine::{DedupStats, StorageEngine, StorageError};
pub use file_metadata::{FileChunk, FileMetadata};
pub use hash::{HashAlgo, HashValue};
pub use merkle_tree::{MerkleProof, MerkleTree};
