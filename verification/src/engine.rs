//! The chunking, deduplicating storage engine.
//!
//! A payload is addressed by its SHA-256 digest. New content is split
//! into fixed-size chunks, each chunk is hashed and kept as its own blob,
//! and a Merkle tree over the chunk digests yields the recorded root.
//! Submitting content whose hash is already known stores nothing and
//! returns the existing record. Retrieval recomputes every chunk digest
//! against the record and refuses to hand back bytes that disagree.

use vstd::prelude::*;
use crate::file_metadata::{meta_eq, meta_wf, FileMetadata};
use crate::hash::{clone_hashes, sha256_of, HashAlgo, HashValue};
use crate::merkle_tree::{digests_of, root_digest, MerkleTree};
use vstd::slice::{slice_subrange, slice_to_vec};

verus! {

/// Fixed chunk size: one mebibyte. The final chunk of a payload may be
/// shorter.
pub const CHUNK_SIZE: usize = 1048576;

/// Relies on chrono::Utc::now for the current wall-clock time as seconds
/// since the Unix epoch; nothing is assumed of the value. Panics only if
/// the system clock reads before the epoch.
#[verifier::external_body]
fn now_timestamp() -> i64 {
    chrono::Utc::now().timestamp()
}

/// The payload split into chunks in order: every chunk is full-size
/// except the last, which holds the remainder. An empty payload has no
/// chunks.
pub open spec fn chunks_of(data: Seq<u8>) -> Seq<Seq<u8>>
    decreases data.len(),
{
    if data.len() == 0 {
        Seq::empty()
    } else if data.len() <= CHUNK_SIZE {
        seq![data]
    } else {
        seq![data.take(CHUNK_SIZE as int)] + chunks_of(data.skip(CHUNK_SIZE as int))
    }
}

/// Concatenation of a sequence of byte strings, in order.
pub open spec fn concat_of(bs: Seq<Seq<u8>>) -> Seq<u8>
    decreases bs.len(),
{
    if bs.len() == 0 {
        Seq::empty()
    } else {
        bs[0] + concat_of(bs.drop_first())
    }
}

/// The SHA-256 digest of each chunk of the payload, in order.
pub open spec fn chunk_digests(data: Seq<u8>) -> Seq<Seq<u8>> {
    chunks_of(data).map_values(|c: Seq<u8>| sha256_of(c))
}

/// Appending one more byte string extends the concatenation.
proof fn lemma_concat_snoc(bs: Seq<Seq<u8>>, x: Seq<u8>)
    ensures
        concat_of(bs.push(x)) == concat_of(bs) + x,
    decreases bs.len(),
{
    if bs.len() == 0 {
        assert(bs.push(x)[0] == x);
        assert(bs.push(x).drop_first() =~= Seq::<Seq<u8>>::empty());
        assert(concat_of(bs.push(x)) == x + concat_of(Seq::<Seq<u8>>::empty()));
        assert(x + Seq::<u8>::empty() =~= x);
        assert(Seq::<u8>::empty() + x =~= x);
    } else {
        assert(bs.push(x)[0] == bs[0]);
        assert(bs.push(x).drop_first() =~= bs.drop_first().push(x));
        lemma_concat_snoc(bs.drop_first(), x);
        assert(bs[0] + (concat_of(bs.drop_first()) + x) =~= (bs[0] + concat_of(bs.drop_first()))
            + x);
    }
}

/// Concatenating the chunks of a payload yields the payload unchanged.
pub proof fn lemma_chunks_concat(data: Seq<u8>)
    ensures
        concat_of(chunks_of(data)) == data,
    decreases data.len(),
{
    if data.len() == 0 {
        assert(concat_of(chunks_of(data)) =~= data);
    } else if data.len() <= CHUNK_SIZE {
        assert(chunks_of(data)[0] == data);
        assert(chunks_of(data).drop_first() =~= Seq::<Seq<u8>>::empty());
        assert(concat_of(Seq::<Seq<u8>>::empty()) == Seq::<u8>::empty());
        assert(concat_of(chunks_of(data)) == data + Seq::<u8>::empty());
        assert(data + Seq::<u8>::empty() =~= data);
    } else {
        let head = seq![data.take(CHUNK_SIZE as int)];
        let tail = chunks_of(data.skip(CHUNK_SIZE as int));
        assert(chunks_of(data) == head + tail);
        assert((head + tail)[0] == data.take(CHUNK_SIZE as int));
        assert((head + tail).drop_first() =~= tail);
        lemma_chunks_concat(data.skip(CHUNK_SIZE as int));
        assert(concat_of(chunks_of(data)) == data.take(CHUNK_SIZE as int) + concat_of(tail));
        assert(data.take(CHUNK_SIZE as int) + data.skip(CHUNK_SIZE as int) =~= data);
    }
}

/// Running counters for the deduplication behaviour of an engine.
#[derive(Debug, Clone, Copy, PartialEq, Eq, Structural)]
pub struct DedupStats {
    /// Payload submissions, duplicates included.
    pub total_files: usize,
    /// Distinct content hashes actually stored.
    pub unique_files: usize,
    /// Bytes submitted, duplicates included.
    pub total_bytes: u64,
    /// Bytes not stored again because their content was already known.
    pub saved_bytes: u64,
}

/// Failure modes of retrieval.
#[derive(Debug, Clone, Copy, PartialEq, Eq, Structural)]
pub enum StorageError {
    /// The presented hash was never stored.
    NotFound,
    /// A stored chunk no longer matches its recorded digest; no bytes
    /// are returned.
    IntegrityViolation,
}

/// One stored payload: its metadata record and its chunk blobs. The
/// blobs stand for the chunk files on durable storage, which the engine
/// does not control once written.
#[derive(Debug)]
pub struct StoredFile {
    /// The immutable metadata record.
    pub metadata: FileMetadata,
    /// The chunk blobs, in chunk order.
    pub blobs: Vec<Vec<u8>>,
}

/// The chunks on record still carry the bytes they were written with:
/// each blob hashes to its recorded digest.
pub open spec fn chunks_match(e: StoredFile) -> bool {
    forall|i: int|
        0 <= i < e.blobs@.len() ==> sha256_of((#[trigger] e.blobs@[i])@) == e.metadata.chunks@[i].bytes@
}

/// The bytes a retrieval of this entry would reconstruct.
pub open spec fn stored_bytes(e: StoredFile) -> Seq<u8> {
    concat_of(e.blobs.deep_view())
}

/// The metadata is internally consistent and records one digest per blob.
pub open spec fn entry_wf(e: StoredFile) -> bool {
    &&& meta_wf(e.metadata)
    &&& e.blobs@.len() == e.metadata.chunks@.len()
}

/// The entry is exactly as it was written: every chunk matches its
/// digest and the content hash is the digest of the reconstructed bytes.
pub open spec fn untampered(e: StoredFile) -> bool {
    &&& chunks_match(e)
    &&& e.metadata.hash.bytes@ == sha256_of(stored_bytes(e))
}

/// A record-and-blobs pair that fits together completely: well-formed,
/// one blob per digest, and nothing drifted.
pub open spec fn entry_consistent(e: StoredFile) -> bool {
    &&& entry_wf(e)
    &&& untampered(e)
}

/// What a fresh store of `data` leaves behind: blobs that are the chunks
/// of `data`, their digests, the Merkle root over those digests, and the
/// payload's size, name and owner.
pub open spec fn entry_fresh(e: StoredFile, data: Seq<u8>, filename: Seq<char>, owner: Seq<char>) -> bool {
    &&& e.blobs.deep_view() == chunks_of(data)
    &&& e.metadata.hash.algo == HashAlgo::Sha256
    &&& e.metadata.hash.bytes@ == sha256_of(data)
    &&& e.metadata.size == data.len()
    &&& e.metadata.path@ == filename
    &&& e.metadata.owner@ == owner
    &&& e.metadata.chunks@.len() == chunks_of(data).len()
    &&& forall|i: int|
        0 <= i < chunks_of(data).len() ==> (#[trigger] e.metadata.chunks@[i]).bytes@ == sha256_of(
            chunks_of(data)[i],
        )
    &&& e.metadata.merkle_root.bytes@ == root_digest(chunk_digests(data))
    &&& e.metadata.created_at == e.metadata.modified_at
}

/// The in-memory storage engine: stored entries keyed by content hash,
/// and the running deduplication counters.
#[derive(Debug)]
pub struct StorageEngine {
    entries: Vec<StoredFile>,
    /// Running deduplication counters.
    pub dedup_stats: DedupStats,
}

/// How one store call relates the engine before and after, and the
/// metadata it returns: a known hash only bumps the counters and hands
/// back the existing record; a new hash appends exactly one fresh entry.
pub open spec fn store_post(
    pre: StorageEngine,
    post: StorageEngine,
    m: FileMetadata,
    data: Seq<u8>,
    filename: Seq<char>,
    owner: Seq<char>,
) -> bool {
    let h = sha256_of(data);
    if pre.has_hash(HashAlgo::Sha256, h) {
        &&& post.entries() == pre.entries()
        &&& meta_eq(m, pre.entries()[pre.index_of_hash(HashAlgo::Sha256, h)].metadata)
        &&& post.stats().total_files == pre.stats().total_files + 1
        &&& post.stats().unique_files == pre.stats().unique_files
        &&& post.stats().total_bytes == pre.stats().total_bytes + data.len()
        &&& post.stats().saved_bytes == pre.stats().saved_bytes + data.len()
    } else {
        &&& post.entries().len() == pre.entries().len() + 1
        &&& post.entries().take(pre.entries().len() as int) == pre.entries()
        &&& entry_fresh(post.entries().last(), data, filename, owner)
        &&& meta_eq(m, post.entries().last().metadata)
        &&& post.stats().total_files == pre.stats().total_files + 1
        &&& post.stats().unique_files == pre.stats().unique_files + 1
        &&& post.stats().total_bytes == pre.stats().total_bytes + data.len()
        &&& post.stats().saved_bytes == pre.stats().saved_bytes
    }
}

impl StorageEngine {
    /// The stored entries, in insertion order.
    pub closed spec fn entries(&self) -> Seq<StoredFile> {
        self.entries@
    }

    /// The running counters.
    pub closed spec fn stats(&self) -> DedupStats {
        self.dedup_stats
    }

    /// Every entry is well-formed, no two entries share a content hash,
    /// and no more bytes are counted saved than were submitted.
    pub open spec fn wf(&self) -> bool {
        &&& forall|j: int| 0 <= j < self.entries().len() ==> entry_wf(#[trigger] self.entries()[j])
        &&& forall|j: int, k: int|
            0 <= j < k < self.entries().len() ==> (#[trigger] self.entries()[j]).metadata.hash.bytes@
                != (#[trigger] self.entries()[k]).metadata.hash.bytes@
        &&& self.stats().saved_bytes <= self.stats().total_bytes
    }

    /// Whether some entry is keyed by this digest.
    pub open spec fn has_hash(&self, algo: HashAlgo, bytes: Seq<u8>) -> bool {
        exists|j: int|
            0 <= j < self.entries().len() && (#[trigger] self.entries()[j]).metadata.hash.algo
                == algo && self.entries()[j].metadata.hash.bytes@ == bytes
    }

    /// The index of the entry keyed by this digest, where one exists.
    pub open spec fn index_of_hash(&self, algo: HashAlgo, bytes: Seq<u8>) -> int {
        choose|j: int|
            0 <= j < self.entries().len() && (#[trigger] self.entries()[j]).metadata.hash.algo
                == algo && self.entries()[j].metadata.hash.bytes@ == bytes
    }

    /// No stored chunk anywhere has drifted from its recorded digest.
    pub open spec fn all_untampered(&self) -> bool {
        forall|j: int| 0 <= j < self.entries().len() ==> untampered(#[trigger] self.entries()[j])
    }

    /// An empty engine.
    pub fn new() -> (r: StorageEngine)
        ensures
            r.wf(),
            r.entries().len() == 0,
            r.stats() == (DedupStats { total_files: 0, unique_files: 0, total_bytes: 0, saved_bytes: 0 }),
    {
        StorageEngine {
            entries: Vec::new(),
            dedup_stats: DedupStats { total_files: 0, unique_files: 0, total_bytes: 0, saved_bytes: 0 },
        }
    }

    /// The position of the entry keyed by `h`, if any.
    fn find_entry(&self, h: &HashValue) -> (r: Option<usize>)
        ensures
            match r {
                Some(j) => {
                    &&& j < self.entries().len()
                    &&& self.entries()[j as int].metadata.hash.algo == h.algo
                    &&& self.entries()[j as int].metadata.hash.bytes@ == h.bytes@
                },
                None => !self.has_hash(h.algo, h.bytes@),
            },
    {
        let n = self.entries.len();
        let mut j: usize = 0;
        while j < n
            invariant
                n == self.entries().len(),
                j <= n,
                forall|t: int|
                    0 <= t < j ==> !((#[trigger] self.entries()[t]).metadata.hash.algo == h.algo
                        && self.entries()[t].metadata.hash.bytes@ == h.bytes@),
            decreases n - j,
        {
            if self.entries[j].metadata.hash == *h {
                return Some(j);
            }
            j += 1;
        }
        None
    }

    /// Under uniqueness of keys, an entry's position is the position its
    /// key looks up to.
    proof fn lemma_index_of(&self, j: int)
        requires
            self.wf(),
            0 <= j < self.entries().len(),
        ensures
            self.has_hash(HashAlgo::Sha256, self.entries()[j].metadata.hash.bytes@),
            self.index_of_hash(HashAlgo::Sha256, self.entries()[j].metadata.hash.bytes@) == j,
    {
        let b = self.entries()[j].metadata.hash.bytes@;
        assert(entry_wf(self.entries()[j]));
        assert(self.entries()[j].metadata.hash.algo == HashAlgo::Sha256);
        assert(self.has_hash(HashAlgo::Sha256, b));
        let k = self.index_of_hash(HashAlgo::Sha256, b);
        if k != j {
            assert(self.entries()[k].metadata.hash.bytes@ == b);
            if k < j {
                assert(self.entries()[k].metadata.hash.bytes@ != self.entries()[j].metadata.hash.bytes@);
            } else {
                assert(self.entries()[j].metadata.hash.bytes@ != self.entries()[k].metadata.hash.bytes@);
            }
        }
    }

    /// Stores a payload under its SHA-256 content hash. Content whose
    /// hash is already known is not stored again: the call only counts
    /// the submission and its bytes as saved and returns the existing
    /// record unchanged. New content is chunked, hashed, rooted and
    /// appended, and its fresh record returned.
    pub fn store_file(&mut self, data: &[u8], filename: &str, owner: &str) -> (m: FileMetadata)
        requires
            old(self).wf(),
            old(self).stats().total_files < usize::MAX,
            old(self).stats().unique_files < usize::MAX,
            old(self).stats().total_bytes + data@.len() <= u64::MAX,
        ensures
            final(self).wf(),
            store_post(*old(self), *final(self), m, data@, filename@, owner@),
            old(self).all_untampered() ==> final(self).all_untampered(),
    {
        let hash = HashValue::compute(data, HashAlgo::Sha256);
        let found = self.find_entry(&hash);
        match found {
            Some(j) => {
                proof {
                    self.lemma_index_of(j as int);
                }
                self.dedup_stats.total_files = self.dedup_stats.total_files + 1;
                self.dedup_stats.total_bytes = self.dedup_stats.total_bytes + data.len() as u64;
                self.dedup_stats.saved_bytes = self.dedup_stats.saved_bytes + data.len() as u64;
                self.entries[j].metadata.clone()
            },
            None => {
                let now = now_timestamp();
                let data_len = data.len();
                let mut blobs: Vec<Vec<u8>> = Vec::new();
                let mut chunk_hashes: Vec<HashValue> = Vec::new();
                let mut pos: usize = 0;
                proof {
                    assert(data@.skip(0) =~= data@);
                    assert(blobs.deep_view() + chunks_of(data@) =~= chunks_of(data@));
                }
                while pos < data_len
                    invariant
                        pos <= data@.len(),
                        data_len == data@.len(),
                        blobs.deep_view() + chunks_of(data@.skip(pos as int)) == chunks_of(data@),
                        chunk_hashes@.len() == blobs@.len(),
                        forall|i: int|
                            0 <= i < blobs@.len() ==> (#[trigger] chunk_hashes@[i]).bytes@
                                == sha256_of(blobs@[i]@),
                        forall|i: int|
                            0 <= i < blobs@.len() ==> (#[trigger] chunk_hashes@[i]).algo
                                == HashAlgo::Sha256 && chunk_hashes@[i].wf(),
                        pos < data@.len() ==> chunks_of(data@.skip(pos as int)).len() > 0,
                    decreases data@.len() - pos,
                {
                    let remaining = data_len - pos;
                    let end = if remaining > CHUNK_SIZE {
                        pos + CHUNK_SIZE
                    } else {
                        data_len
                    };
                    let chunk = slice_to_vec(slice_subrange(data, pos, end));
                    let ch = HashValue::compute(chunk.as_slice(), HashAlgo::Sha256);
                    let ghost rest = data@.skip(pos as int);
                    let ghost old_dv = blobs.deep_view();
                    proof {
                        if remaining > CHUNK_SIZE {
                            assert(rest.take(CHUNK_SIZE as int) =~= chunk@);
                            assert(rest.skip(CHUNK_SIZE as int) =~= data@.skip(end as int));
                            assert(chunks_of(rest) == seq![chunk@] + chunks_of(data@.skip(end as int)));
                        } else {
                            assert(rest =~= chunk@);
                            assert(chunks_of(rest) == seq![chunk@]);
                            assert(data@.skip(end as int) =~= Seq::<u8>::empty());
                            assert(chunks_of(data@.skip(end as int)) =~= Seq::<Seq<u8>>::empty());
                        }
                    }
                    chunk_hashes.push(ch);
                    blobs.push(chunk);
                    proof {
                        assert(blobs.deep_view() =~~= old_dv.push(blobs@.last()@));
                        assert(blobs.deep_view() + chunks_of(data@.skip(end as int)) =~~= old_dv + (
                        seq![blobs@.last()@] + chunks_of(data@.skip(end as int))));
                        assert(old_dv + chunks_of(rest) == chunks_of(data@));
                    }
                    pos = end;
                }
                proof {
                    assert(data@.skip(data@.len() as int) =~= Seq::<u8>::empty());
                    assert(chunks_of(data@.skip(pos as int)) =~= Seq::<Seq<u8>>::empty());
                    assert(blobs.deep_view() + Seq::<Seq<u8>>::empty() =~~= blobs.deep_view());
                    assert(blobs.deep_view() == chunks_of(data@));
                }
                let tree = MerkleTree::new(&chunk_hashes);
                let metadata = FileMetadata {
                    path: filename.to_owned(),
                    size: data.len() as u64,
                    hash: hash.clone(),
                    chunks: clone_hashes(&chunk_hashes),
                    merkle_root: tree.root(),
                    created_at: now,
                    modified_at: now,
                    owner: owner.to_owned(),
                };
                proof {
                    assert(digests_of(metadata.chunks@) =~~= digests_of(chunk_hashes@));
                    assert forall|i: int| 0 <= i < blobs@.len() implies blobs.deep_view()[i]
                        == (#[trigger] blobs@[i])@ by {
                        assert(blobs@[i].deep_view() =~= blobs@[i]@);
                    }
                    assert(digests_of(chunk_hashes@) =~~= chunk_digests(data@));
                    assert(meta_wf(metadata));
                }
                let entry = StoredFile { metadata: metadata.clone(), blobs };
                proof {
                    assert(digests_of(entry.metadata.chunks@) =~= digests_of(metadata.chunks@));
                    assert(meta_wf(entry.metadata));
                    assert(entry_wf(entry));
                }
                let ghost pre = *self;
                self.entries.push(entry);
                self.dedup_stats.total_files = self.dedup_stats.total_files + 1;
                self.dedup_stats.unique_files = self.dedup_stats.unique_files + 1;
                self.dedup_stats.total_bytes = self.dedup_stats.total_bytes + data.len() as u64;
                proof {
                    assert(self.entries().take(pre.entries().len() as int) =~= pre.entries());
                    assert(entry_fresh(self.entries().last(), data@, filename@, owner@));
                    lemma_chunks_concat(data@);
                    assert(stored_bytes(self.entries().last()) == data@);
                    assert(untampered(self.entries().last()));
                    assert forall|j: int, k: int|
                        0 <= j < k < self.entries().len() implies (#[trigger] self.entries()[j]).metadata.hash.bytes@
                        != (#[trigger] self.entries()[k]).metadata.hash.bytes@ by {
                        if k == self.entries().len() - 1 {
                            assert(entry_wf(pre.entries()[j]));
                            if self.entries()[j].metadata.hash.bytes@ == sha256_of(data@) {
                                assert(pre.has_hash(HashAlgo::Sha256, sha256_of(data@)));
                            }
                        }
                    }
                    assert(self.wf());
                }
                metadata
            },
        }
    }

    /// Reconstructs the payload stored under `hash`. An unknown hash is
    /// `NotFound`. Every chunk blob is re-hashed against its recorded
    /// digest; the first disagreement aborts with `IntegrityViolation`
    /// and no bytes are returned. Otherwise the chunks are concatenated
    /// in order — exactly the bytes the entry holds.
    pub fn retrieve_file(&self, hash: &HashValue) -> (r: Result<Vec<u8>, StorageError>)
        requires
            self.wf(),
        ensures
            ({
                let has = self.has_hash(hash.algo, hash.bytes@);
                let j = self.index_of_hash(hash.algo, hash.bytes@);
                match r {
                    Ok(d) => has && chunks_match(self.entries()[j]) && d@ == stored_bytes(
                        self.entries()[j],
                    ),
                    Err(StorageError::NotFound) => !(has),
                    Err(StorageError::IntegrityViolation) => has && !chunks_match(
                        self.entries()[j],
                    ),
                }
            }),
    {
        let found = self.find_entry(hash);
        let j: usize = match found {
            None => {
                return Err(StorageError::NotFound);
            },
            Some(j) => j,
        };
        proof {
            self.lemma_index_of(j as int);
            assert(hash.algo == HashAlgo::Sha256);
            assert(self.index_of_hash(hash.algo, hash.bytes@) == j as int);
        }
        let n = self.entries[j].blobs.len();
        let mut full: Vec<u8> = Vec::new();
        let mut i: usize = 0;
        proof {
            assert(full@ =~= concat_of(self.entries()[j as int].blobs.deep_view().take(0)));
        }
        while i < n
            invariant
                self.wf(),
                (j as int) < self.entries().len(),
                self.has_hash(hash.algo, hash.bytes@),
                self.index_of_hash(hash.algo, hash.bytes@) == j as int,
                n == self.entries()[j as int].blobs@.len(),
                i <= n,
                forall|t: int|
                    0 <= t < i ==> sha256_of(
                        (#[trigger] self.entries()[j as int].blobs@[t])@,
                    ) == self.entries()[j as int].metadata.chunks@[t].bytes@,
                full@ == concat_of(self.entries()[j as int].blobs.deep_view().take(i as int)),
            decreases n - i,
        {
            let computed = HashValue::compute(self.entries[j].blobs[i].as_slice(), HashAlgo::Sha256);
            if !(computed == self.entries[j].metadata.chunks[i]) {
                proof {
                    assert(entry_wf(self.entries()[j as int]));
                    assert(self.entries()[j as int].metadata.chunks@[i as int].algo
                        == HashAlgo::Sha256);
                    assert(sha256_of(self.entries()[j as int].blobs@[i as int]@)
                        != self.entries()[j as int].metadata.chunks@[i as int].bytes@);
                    assert(!chunks_match(self.entries()[j as int]));
                    assert(self.has_hash(hash.algo, hash.bytes@));
                    assert(!chunks_match(
                        self.entries()[self.index_of_hash(hash.algo, hash.bytes@)],
                    ));
                }
                return Err(StorageError::IntegrityViolation);
            }
            let mut piece = slice_to_vec(self.entries[j].blobs[i].as_slice());
            let ghost dv = self.entries()[j as int].blobs.deep_view();
            proof {
                assert(dv.take(i + 1) =~= dv.take(i as int).push(dv[i as int]));
                lemma_concat_snoc(dv.take(i as int), dv[i as int]);
            }
            full.append(&mut piece);
            i += 1;
        }
        proof {
            let dv = self.entries()[j as int].blobs.deep_view();
            assert(dv.take(n as int) =~= dv);
            assert(chunks_match(self.entries()[j as int]));
        }
        Ok(full)
    }

    /// A copy of the metadata record stored under `hash`, if any.
    pub fn get_metadata(&self, hash: &HashValue) -> (r: Option<FileMetadata>)
        requires
            self.wf(),
        ensures
            match r {
                Some(m) => self.has_hash(hash.algo, hash.bytes@) && meta_eq(
                    m,
                    self.entries()[self.index_of_hash(hash.algo, hash.bytes@)].metadata,
                ),
                None => !self.has_hash(hash.algo, hash.bytes@),
            },
    {
        let found = self.find_entry(hash);
        match found {
            None => None,
            Some(j) => {
                proof {
                    self.lemma_index_of(j as int);
                }
                Some(self.entries[j].metadata.clone())
            },
        }
    }

    /// A copy of one stored chunk blob, exactly as it currently is on
    /// record, if the hash is known and the index in range.
    pub fn read_chunk(&self, hash: &HashValue, index: usize) -> (r: Option<Vec<u8>>)
        requires
            self.wf(),
        ensures
            ({
                let has = self.has_hash(hash.algo, hash.bytes@);
                let j = self.index_of_hash(hash.algo, hash.bytes@);
                match r {
                    Some(d) => has && index < self.entries()[j].blobs@.len() && d@
                        == self.entries()[j].blobs@[index as int]@,
                    None => !(has) || index >= self.entries()[j].blobs@.len(),
                }
            }),
    {
        let found = self.find_entry(hash);
        match found {
            None => None,
            Some(j) => {
                proof {
                    self.lemma_index_of(j as int);
                }
                if index < self.entries[j].blobs.len() {
                    Some(slice_to_vec(self.entries[j].blobs[index].as_slice()))
                } else {
                    None
                }
            },
        }
    }

    /// Re-registers one record and its chunk blobs, as read back from
    /// durable storage, so the in-memory index can be rebuilt after a
    /// restart. The pair is checked in full — digest widths and tags,
    /// one blob per recorded digest, every blob against its digest, the
    /// content hash against the reassembled bytes, and the Merkle root
    /// against the recorded chunk digests — and refused, leaving the
    /// engine unchanged, if anything disagrees or the hash is already
    /// present. The deduplication counters, which describe submissions
    /// to this process, are not reconstructed.
    pub fn load_entry(&mut self, metadata: FileMetadata, blobs: Vec<Vec<u8>>) -> (r: bool)
        requires
            old(self).wf(),
        ensures
            final(self).wf(),
            final(self).stats() == old(self).stats(),
            r == (!(old(self).has_hash(HashAlgo::Sha256, metadata.hash.bytes@))
                && entry_consistent(StoredFile { metadata, blobs })),
            r ==> final(self).entries() == old(self).entries().push(
                StoredFile { metadata, blobs },
            ),
            !r ==> final(self).entries() == old(self).entries(),
    {
        if !(metadata.hash.algo == HashAlgo::Sha256) || metadata.hash.size() != 32 {
            return false;
        }
        if !(metadata.merkle_root.algo == HashAlgo::Sha256) {
            return false;
        }
        if self.find_entry(&metadata.hash).is_some() {
            return false;
        }
        if blobs.len() != metadata.chunks.len() {
            return false;
        }
        let n = blobs.len();
        let mut i: usize = 0;
        let mut full: Vec<u8> = Vec::new();
        proof {
            assert(full@ =~= concat_of(blobs.deep_view().take(0)));
        }
        while i < n
            invariant
                self.wf(),
                self.entries() == old(self).entries(),
                self.stats() == old(self).stats(),
                n == blobs@.len(),
                n == metadata.chunks@.len(),
                i <= n,
                forall|t: int|
                    0 <= t < i ==> (#[trigger] metadata.chunks@[t]).algo == HashAlgo::Sha256
                        && metadata.chunks@[t].wf(),
                forall|t: int|
                    0 <= t < i ==> sha256_of((#[trigger] blobs@[t])@)
                        == metadata.chunks@[t].bytes@,
                full@ == concat_of(blobs.deep_view().take(i as int)),
            decreases n - i,
        {
            let computed = HashValue::compute(blobs[i].as_slice(), HashAlgo::Sha256);
            if !(computed == metadata.chunks[i]) {
                proof {
                    assert((StoredFile { metadata, blobs }).blobs@[i as int] == blobs@[i as int]);
                    if metadata.chunks@[i as int].algo == HashAlgo::Sha256 {
                        assert(sha256_of(blobs@[i as int]@) != metadata.chunks@[i as int].bytes@);
                        assert(!chunks_match(StoredFile { metadata, blobs }));
                    } else {
                        assert(!meta_wf(metadata));
                    }
                }
                return false;
            }
            if metadata.chunks[i].size() != 32 {
                proof {
                    assert(!(metadata.chunks@[i as int].wf()));
                }
                return false;
            }
            let mut piece = slice_to_vec(blobs[i].as_slice());
            let ghost dv = blobs.deep_view();
            proof {
                assert(dv.take(i + 1) =~= dv.take(i as int).push(dv[i as int]));
                lemma_concat_snoc(dv.take(i as int), dv[i as int]);
            }
            full.append(&mut piece);
            i += 1;
        }
        proof {
            assert(blobs.deep_view().take(n as int) =~= blobs.deep_view());
        }
        let whole = HashValue::compute(full.as_slice(), HashAlgo::Sha256);
        if !(whole == metadata.hash) {
            proof {
                assert(sha256_of(stored_bytes(StoredFile { metadata, blobs })) != metadata.hash.bytes@);
            }
            return false;
        }
        let tree = MerkleTree::new(&metadata.chunks);
        if !(tree.root() == metadata.merkle_root) {
            proof {
                assert(tree.spec_root().algo == HashAlgo::Sha256);
                assert(metadata.merkle_root.bytes@ != root_digest(digests_of(metadata.chunks@)));
            }
            return false;
        }
        let ghost pre = *self;
        self.entries.push(StoredFile { metadata, blobs });
        proof {
            let e = self.entries().last();
            assert(entry_consistent(e));
            assert forall|j: int, k: int|
                0 <= j < k < self.entries().len() implies (#[trigger] self.entries()[j]).metadata.hash.bytes@
                != (#[trigger] self.entries()[k]).metadata.hash.bytes@ by {
                if k == self.entries().len() - 1 {
                    assert(entry_wf(pre.entries()[j]));
                    if self.entries()[j].metadata.hash.bytes@ == e.metadata.hash.bytes@ {
                        assert(pre.has_hash(HashAlgo::Sha256, e.metadata.hash.bytes@));
                    }
                }
            }
        }
        true
    }

    /// Replaces the bytes of one stored chunk blob, standing for a write
    /// to the underlying blob storage, which the engine does not control.
    /// Metadata, counters and every other blob are untouched; retrieval
    /// afterwards holds the new bytes against the recorded digest.
    pub fn overwrite_chunk(&mut self, hash: &HashValue, index: usize, bytes: Vec<u8>) -> (r: bool)
        requires
            old(self).wf(),
        ensures
            final(self).wf(),
            final(self).stats() == old(self).stats(),
            r == (old(self).has_hash(hash.algo, hash.bytes@) && index < old(self).entries()[old(
                self,
            ).index_of_hash(hash.algo, hash.bytes@)].blobs@.len()),
            !r ==> final(self).entries() == old(self).entries(),
            r ==> ({
                let j = old(self).index_of_hash(hash.algo, hash.bytes@);
                &&& final(self).entries().len() == old(self).entries().len()
                &&& forall|k: int|
                    0 <= k < old(self).entries().len() && k != j ==> final(self).entries()[k]
                        == old(self).entries()[k]
                &&& final(self).entries()[j].metadata == old(self).entries()[j].metadata
                &&& final(self).entries()[j].blobs@.len() == old(self).entries()[j].blobs@.len()
                &&& forall|t: int|
                    0 <= t < old(self).entries()[j].blobs@.len() && t != index
                        ==> final(self).entries()[j].blobs@[t] == old(self).entries()[j].blobs@[t]
                &&& final(self).entries()[j].blobs@[index as int]@ == bytes@
            }),
    {
        let found = self.find_entry(hash);
        match found {
            None => false,
            Some(j) => {
                proof {
                    self.lemma_index_of(j as int);
                }
                if index >= self.entries[j].blobs.len() {
                    return false;
                }
                let e = &mut self.entries[j];
                e.blobs[index] = bytes;
                true
            },
        }
    }
}

/// Round trip: immediately after a store on an engine whose chunks are
/// all intact, the entry looked up by the data's content hash
/// reconstructs without an integrity failure, to bytes carrying that
/// same content hash — and when the hash was not yet known, to exactly
/// the submitted bytes.
pub proof fn lemma_store_then_retrieve(
    pre: StorageEngine,
    post: StorageEngine,
    m: FileMetadata,
    data: Seq<u8>,
    filename: Seq<char>,
    owner: Seq<char>,
)
    requires
        pre.wf(),
        post.wf(),
        pre.all_untampered(),
        store_post(pre, post, m, data, filename, owner),
    ensures
        post.has_hash(HashAlgo::Sha256, sha256_of(data)),
        chunks_match(post.entries()[post.index_of_hash(HashAlgo::Sha256, sha256_of(data))]),
        sha256_of(
            stored_bytes(post.entries()[post.index_of_hash(HashAlgo::Sha256, sha256_of(data))]),
        ) == sha256_of(data),
        !pre.has_hash(HashAlgo::Sha256, sha256_of(data)) ==> stored_bytes(
            post.entries()[post.index_of_hash(HashAlgo::Sha256, sha256_of(data))],
        ) == data,
{
    let h = sha256_of(data);
    if pre.has_hash(HashAlgo::Sha256, h) {
        let j = pre.index_of_hash(HashAlgo::Sha256, h);
        assert(0 <= j < pre.entries().len() && pre.entries()[j].metadata.hash.algo
            == HashAlgo::Sha256 && pre.entries()[j].metadata.hash.bytes@ == h);
        assert(post.entries() == pre.entries());
        assert(post.has_hash(HashAlgo::Sha256, h));
        assert(post.index_of_hash(HashAlgo::Sha256, h) == pre.index_of_hash(HashAlgo::Sha256, h));
        assert(untampered(pre.entries()[j]));
    } else {
        let last = post.entries().len() - 1;
        assert(entry_fresh(post.entries().last(), data, filename, owner));
        assert(post.entries()[last] == post.entries().last());
        assert(post.has_hash(HashAlgo::Sha256, h));
        let j = post.index_of_hash(HashAlgo::Sha256, h);
        assert(0 <= j < post.entries().len() && post.entries()[j].metadata.hash.bytes@ == h);
        if j < last {
            assert(post.entries().take(pre.entries().len() as int)[j] == post.entries()[j]);
            assert(pre.entries()[j].metadata.hash.algo == HashAlgo::Sha256) by {
                assert(entry_wf(pre.entries()[j]));
            }
            assert(pre.has_hash(HashAlgo::Sha256, h));
            assert(false);
        }
        assert(j == last);
        let e = post.entries()[j];
        assert forall|i: int| 0 <= i < e.blobs@.len() implies sha256_of(
            (#[trigger] e.blobs@[i])@,
        ) == e.metadata.chunks@[i].bytes@ by {
            assert(e.blobs.deep_view()[i] == e.blobs@[i]@);
            assert(e.blobs.deep_view() == chunks_of(data));
            assert(e.metadata.chunks@[i].bytes@ == sha256_of(chunks_of(data)[i]));
        }
        lemma_chunks_concat(data);
        assert(stored_bytes(e) == concat_of(chunks_of(data)));
    }
}

/// Storing the same bytes twice: the second call returns a record with
/// the same content hash and the same Merkle root, leaves the count of
/// unique files unchanged, and counts one more submission whose bytes
/// are all saved.
pub proof fn lemma_store_twice_dedups(
    s0: StorageEngine,
    s1: StorageEngine,
    s2: StorageEngine,
    m1: FileMetadata,
    m2: FileMetadata,
    data: Seq<u8>,
    f1: Seq<char>,
    o1: Seq<char>,
    f2: Seq<char>,
    o2: Seq<char>,
)
    requires
        s0.wf(),
        s1.wf(),
        store_post(s0, s1, m1, data, f1, o1),
        store_post(s1, s2, m2, data, f2, o2),
    ensures
        m2.hash.algo == m1.hash.algo,
        m2.hash.bytes@ == m1.hash.bytes@,
        m2.merkle_root.algo == m1.merkle_root.algo,
        m2.merkle_root.bytes@ == m1.merkle_root.bytes@,
        s2.stats().unique_files == s1.stats().unique_files,
        s2.stats().total_files == s1.stats().total_files + 1,
        s2.stats().total_bytes == s1.stats().total_bytes + data.len(),
        s2.stats().saved_bytes == s1.stats().saved_bytes + data.len(),
{
    let h = sha256_of(data);
    if s0.has_hash(HashAlgo::Sha256, h) {
        let j = s0.index_of_hash(HashAlgo::Sha256, h);
        assert(0 <= j < s0.entries().len() && s0.entries()[j].metadata.hash.algo
            == HashAlgo::Sha256 && s0.entries()[j].metadata.hash.bytes@ == h);
        assert(s1.entries() == s0.entries());
        assert(s1.has_hash(HashAlgo::Sha256, h));
        assert(s1.index_of_hash(HashAlgo::Sha256, h) == s0.index_of_hash(HashAlgo::Sha256, h));
    } else {
        let last = s1.entries().len() - 1;
        assert(entry_fresh(s1.entries().last(), data, f1, o1));
        assert(s1.entries()[last] == s1.entries().last());
        assert(s1.has_hash(HashAlgo::Sha256, h));
        let j = s1.index_of_hash(HashAlgo::Sha256, h);
        assert(0 <= j < s1.entries().len() && s1.entries()[j].metadata.hash.bytes@ == h);
        if j < last {
            assert(s1.entries().take(s0.entries().len() as int)[j] == s1.entries()[j]);
            assert(s0.entries()[j].metadata.hash.algo == HashAlgo::Sha256) by {
                assert(entry_wf(s0.entries()[j]));
            }
            assert(s0.has_hash(HashAlgo::Sha256, h));
            assert(false);
        }
        assert(j == last);
    }
}

} // verus!
