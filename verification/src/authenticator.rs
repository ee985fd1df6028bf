//! A registry pairing watched file paths with known content hashes.
//!
//! Registration records the SHA-256 digest of a file's bytes under its
//! path and also adds the path to a Bloom filter, so a cheap probe can
//! rule out never-registered paths before any re-hashing is done.

use vstd::prelude::*;
use vstd::slice::slice_to_vec;
use vstd::string::StringSliceAdditionalSpecFns;
use crate::bloom::{algo_choices, BloomFilter};
use crate::hash::{eq_bytes, hv_eq, sha256_of, HashAlgo, HashValue};

verus! {

/// Bit-array size for the watch registry's filter: sized for a thousand
/// expected entries at a one-percent false-positive target.
pub const WATCH_BLOOM_BITS: usize = 9586;

/// Hash-function count the same sizing asks for; the filter clamps it to
/// the algorithms actually available.
pub const WATCH_BLOOM_HASHES: usize = 7;

/// Failure modes of path verification.
#[derive(Debug, Clone, Copy, PartialEq, Eq, Structural)]
pub enum AuthError {
    /// The path was never registered.
    NotFound,
}

/// The path registry and its Bloom filter pre-check.
pub struct FileAuthenticator {
    known_files: Vec<(Vec<u8>, HashValue)>,
    /// The directory this instance watches; informational only.
    pub watch_dir: String,
    /// The filter probed by `quick_check`; it covers the UTF-8 bytes of
    /// every registered path.
    pub bloom: BloomFilter,
}

impl FileAuthenticator {
    /// The registered pairs of UTF-8 path bytes and content hash.
    pub closed spec fn reg(&self) -> Seq<(Vec<u8>, HashValue)> {
        self.known_files@
    }

    /// The Bloom filter.
    pub closed spec fn spec_bloom(&self) -> BloomFilter {
        self.bloom
    }

    /// The watched directory.
    pub closed spec fn spec_watch_dir(&self) -> Seq<char> {
        self.watch_dir@
    }

    /// Whether some pair is keyed by these path bytes.
    pub open spec fn registered(&self, key: Seq<u8>) -> bool {
        exists|j: int| 0 <= j < self.reg().len() && (#[trigger] self.reg()[j]).0@ == key
    }

    /// The position of the pair keyed by these path bytes, where one
    /// exists.
    pub open spec fn index_of_key(&self, key: Seq<u8>) -> int {
        choose|j: int| 0 <= j < self.reg().len() && (#[trigger] self.reg()[j]).0@ == key
    }

    /// The hash registered under these path bytes.
    pub open spec fn reg_hash(&self, key: Seq<u8>) -> HashValue {
        self.reg()[self.index_of_key(key)].1
    }

    /// No two pairs share a key, every registered hash is a well-formed
    /// SHA-256 digest, and the filter is well-formed.
    pub open spec fn wf(&self) -> bool {
        &&& forall|j: int, k: int|
            0 <= j < k < self.reg().len() ==> (#[trigger] self.reg()[j]).0@ != (
            #[trigger] self.reg()[k]).0@
        &&& forall|j: int|
            0 <= j < self.reg().len() ==> (#[trigger] self.reg()[j]).1.algo == HashAlgo::Sha256
                && self.reg()[j].1.wf()
        &&& self.spec_bloom().wf()
    }

    /// An empty registry over `watch_dir`, with a filter sized for the
    /// expected watch load.
    pub fn new(watch_dir: &str) -> (r: FileAuthenticator)
        ensures
            r.wf(),
            r.reg().len() == 0,
            r.spec_watch_dir() == watch_dir@,
            r.spec_bloom().spec_num_items() == 0,
            r.spec_bloom().spec_hashers() == algo_choices(),
            forall|j: int|
                0 <= j < r.spec_bloom().spec_size() ==> !(#[trigger] r.spec_bloom().spec_bits()[j]),
    {
        let bloom = BloomFilter::new(WATCH_BLOOM_BITS, WATCH_BLOOM_HASHES);
        proof {
            assert(algo_choices().take(3) =~= algo_choices());
        }
        FileAuthenticator { known_files: Vec::new(), watch_dir: watch_dir.to_owned(), bloom }
    }

    /// The position of the pair keyed by `key`, if any.
    fn find_key(&self, key: &Vec<u8>) -> (r: Option<usize>)
        ensures
            match r {
                Some(j) => j < self.reg().len() && self.reg()[j as int].0@ == key@,
                None => !self.registered(key@),
            },
    {
        let n = self.known_files.len();
        let mut j: usize = 0;
        while j < n
            invariant
                n == self.reg().len(),
                j <= n,
                forall|t: int| 0 <= t < j ==> (#[trigger] self.reg()[t]).0@ != key@,
            decreases n - j,
        {
            if eq_bytes(&self.known_files[j].0, key) {
                return Some(j);
            }
            j += 1;
        }
        None
    }

    /// Under uniqueness of keys, a pair's position is the position its
    /// key looks up to.
    proof fn lemma_key_index(&self, j: int)
        requires
            self.wf(),
            0 <= j < self.reg().len(),
        ensures
            self.registered(self.reg()[j].0@),
            self.index_of_key(self.reg()[j].0@) == j,
    {
        let key = self.reg()[j].0@;
        assert(self.registered(key));
        let k = self.index_of_key(key);
        if k != j {
            if k < j {
                assert(self.reg()[k].0@ != self.reg()[j].0@);
            } else {
                assert(self.reg()[j].0@ != self.reg()[k].0@);
            }
        }
    }

    /// Records the SHA-256 digest of `data` under `path`, replacing any
    /// hash already registered for the path, and adds the path's UTF-8
    /// bytes to the Bloom filter. Every other registration, and
    /// everything the filter already covered, is untouched.
    pub fn register(&mut self, path: &str, data: &[u8])
        requires
            old(self).wf(),
            old(self).spec_bloom().spec_num_items() < usize::MAX,
        ensures
            final(self).wf(),
            final(self).registered(path.spec_bytes()),
            final(self).reg_hash(path.spec_bytes()).algo == HashAlgo::Sha256,
            final(self).reg_hash(path.spec_bytes()).bytes@ == sha256_of(data@),
            forall|k2: Seq<u8>|
                #[trigger] final(self).registered(k2)
                    ==> k2 == path.spec_bytes() || old(self).registered(k2),
            forall|k2: Seq<u8>|
                #[trigger] old(self).registered(k2) && k2 != path.spec_bytes()
                    ==> final(self).registered(k2) && hv_eq(
                    final(self).reg_hash(k2),
                    old(self).reg_hash(k2),
                ),
            final(self).spec_watch_dir() == old(self).spec_watch_dir(),
            final(self).spec_bloom().wf(),
            final(self).spec_bloom().spec_hashers() == old(self).spec_bloom().spec_hashers(),
            final(self).spec_bloom().spec_size() == old(self).spec_bloom().spec_size(),
            final(self).spec_bloom().spec_num_items() == old(self).spec_bloom().spec_num_items()
                + 1,
            final(self).spec_bloom().covers(path.spec_bytes()),
            forall|other: Seq<u8>|
                #[trigger] old(self).spec_bloom().covers(other)
                    ==> final(self).spec_bloom().covers(other),
    {
        let hash = HashValue::compute(data, HashAlgo::Sha256);
        let key = slice_to_vec(path.as_bytes());
        let ghost keyv = key@;
        let ghost pre = *self;
        let found = self.find_key(&key);
        match found {
            Some(j) => {
                proof {
                    self.lemma_key_index(j as int);
                }
                self.known_files[j] = (key, hash);
                proof {
                    assert forall|k2: Seq<u8>| #[trigger]
                        pre.registered(k2) && k2 != keyv implies self.registered(k2) && hv_eq(
                        self.reg_hash(k2),
                        pre.reg_hash(k2),
                    ) by {
                        let t = pre.index_of_key(k2);
                        assert(pre.reg()[t].0@ == k2);
                        assert(self.reg()[t].0@ == k2);
                        assert(self.registered(k2));
                        pre.lemma_key_index(t);
                        self.lemma_key_index(t);
                    }
                    self.lemma_key_index(j as int);
                }
            },
            None => {
                self.known_files.push((key, hash));
                proof {
                    let last = self.reg().len() - 1;
                    assert(self.reg()[last].0@ == keyv);
                    assert(self.registered(keyv));
                    self.lemma_key_index(last);
                    assert forall|k2: Seq<u8>| #[trigger]
                        pre.registered(k2) && k2 != keyv implies self.registered(k2) && hv_eq(
                        self.reg_hash(k2),
                        pre.reg_hash(k2),
                    ) by {
                        let t = pre.index_of_key(k2);
                        assert(pre.reg()[t].0@ == k2);
                        assert(self.reg()[t].0@ == k2);
                        assert(self.registered(k2));
                        pre.lemma_key_index(t);
                        self.lemma_key_index(t);
                    }
                }
            },
        }
        self.bloom.add(path.as_bytes());
    }

    /// Re-hashes `data` and reports whether the digest still matches the
    /// hash registered for `path`; absent for a never-registered path.
    pub fn verify(&self, path: &str, data: &[u8]) -> (r: Result<bool, AuthError>)
        requires
            self.wf(),
        ensures
            match r {
                Ok(b) => self.registered(path.spec_bytes()) && b == (self.reg_hash(
                    path.spec_bytes(),
                ).algo == HashAlgo::Sha256 && self.reg_hash(path.spec_bytes()).bytes@ == sha256_of(
                    data@,
                )),
                Err(AuthError::NotFound) => !self.registered(path.spec_bytes()),
            },
    {
        let key = slice_to_vec(path.as_bytes());
        let found = self.find_key(&key);
        match found {
            None => Err(AuthError::NotFound),
            Some(j) => {
                proof {
                    self.lemma_key_index(j as int);
                }
                let new_hash = HashValue::compute(data, HashAlgo::Sha256);
                Ok(self.known_files[j].1 == new_hash)
            },
        }
    }

    /// Bloom-filter-only membership probe on the path's UTF-8 bytes: may
    /// claim a never-registered path is known (a false positive), but
    /// never denies a registered one.
    pub fn quick_check(&self, path: &str) -> (r: bool)
        requires
            self.wf(),
        ensures
            r == self.spec_bloom().covers(path.spec_bytes()),
    {
        self.bloom.contains(path.as_bytes())
    }
}

} // verus!
