//! Binary hash tree over an ordered sequence of digests, with inclusion
//! proofs.
//!
//! Levels are built by pairing adjacent nodes left to right under SHA-256;
//! an odd level's last node is paired with itself. A proof walks from a
//! leaf to the root and records each sibling together with its side; when
//! the sibling position does not exist (the self-paired last node) no
//! entry is recorded, so such a path cannot be replayed by the verifier.

use vstd::prelude::*;
use crate::hash::{clone_hashes, concat_bytes, hv_eq, sha256_of, HashAlgo, HashValue};

verus! {

/// The digest bytes of each hash value in a sequence.
pub open spec fn digests_of(hvs: Seq<HashValue>) -> Seq<Seq<u8>> {
    hvs.map_values(|h: HashValue| h.bytes@)
}

/// One construction step: adjacent nodes are paired left to right and
/// hashed; an odd level's last node is paired with itself.
pub open spec fn next_level_digests(cur: Seq<Seq<u8>>) -> Seq<Seq<u8>> {
    Seq::new(
        ((cur.len() + 1) / 2) as nat,
        |j: int|
            if 2 * j + 1 < cur.len() {
                sha256_of(cur[2 * j] + cur[2 * j + 1])
            } else {
                sha256_of(cur[2 * j] + cur[2 * j])
            },
    )
}

/// The root digest of a tree built over the given leaf digests: the empty
/// sequence yields the digest of the empty byte string, a single leaf is
/// its own root, and longer sequences are reduced level by level.
pub open spec fn root_digest(leaves: Seq<Seq<u8>>) -> Seq<u8>
    decreases leaves.len(),
{
    if leaves.len() == 0 {
        sha256_of(Seq::<u8>::empty())
    } else if leaves.len() == 1 {
        leaves[0]
    } else {
        root_digest(next_level_digests(leaves))
    }
}

/// Digest reached by replaying recorded siblings upward from a leaf.
pub open spec fn fold_digest(cur: Seq<u8>, sibs: Seq<(Seq<u8>, bool)>) -> Seq<u8>
    decreases sibs.len(),
{
    if sibs.len() == 0 {
        cur
    } else {
        let step = if sibs[0].1 {
            sha256_of(cur + sibs[0].0)
        } else {
            sha256_of(sibs[0].0 + cur)
        };
        fold_digest(step, sibs.drop_first())
    }
}

/// The digest bytes of each recorded sibling, with its side.
pub open spec fn sib_digests(sibs: Seq<(HashValue, bool)>) -> Seq<(Seq<u8>, bool)> {
    sibs.map_values(|p: (HashValue, bool)| (p.0.bytes@, p.1))
}

/// Whether the path from position `idx` of a level of length `n` never
/// stands at the self-paired last node of an odd level below the top.
/// Only on such paths does every level record a sibling, so only they
/// can be replayed by the verifier.
pub open spec fn proof_path_complete(n: nat, idx: nat) -> bool
    decreases n,
{
    if n <= 1 {
        true
    } else {
        &&& !(idx % 2 == 0 && idx + 1 == n)
        &&& proof_path_complete(((n + 1) / 2) as nat, (idx / 2) as nat)
    }
}

/// Each level above the first is the pairing step of the one below it,
/// every node above the first level carries a SHA-256 digest, and every
/// level below the top has at least two nodes.
pub open spec fn levels_chain(levels: Seq<Vec<HashValue>>) -> bool {
    forall|l: int|
        0 <= l < levels.len() - 1 ==> {
            &&& #[trigger] digests_of(levels[l + 1]@) == next_level_digests(digests_of(levels[l]@))
            &&& forall|i: int|
                0 <= i < levels[l + 1]@.len() ==> (#[trigger] levels[l + 1]@[i]).algo
                    == HashAlgo::Sha256
            &&& levels[l]@.len() >= 2
        }
}

/// A binary hash tree, built once from a leaf sequence and immutable.
#[derive(Debug)]
pub struct MerkleTree {
    root: HashValue,
    leaves: Vec<HashValue>,
    levels: Vec<Vec<HashValue>>,
}

/// A self-contained inclusion proof: verification needs only the proof.
#[derive(Debug)]
pub struct MerkleProof {
    leaf_hash: HashValue,
    siblings: Vec<(HashValue, bool)>,
    root_hash: HashValue,
}

impl MerkleProof {
    /// The leaf the proof speaks for.
    pub closed spec fn leaf(&self) -> HashValue {
        self.leaf_hash
    }

    /// The recorded siblings, bottom level first, each with its side.
    pub closed spec fn sibs(&self) -> Seq<(HashValue, bool)> {
        self.siblings@
    }

    /// The root the proof claims membership under.
    pub closed spec fn claimed_root(&self) -> HashValue {
        self.root_hash
    }

    /// Whether replaying the siblings from the leaf reaches the claimed
    /// root, in both digest bytes and algorithm tag.
    pub open spec fn checks(&self) -> bool {
        &&& fold_digest(self.leaf().bytes@, sib_digests(self.sibs())) == self.claimed_root().bytes@
        &&& (if self.sibs().len() == 0 {
            self.leaf().algo
        } else {
            HashAlgo::Sha256
        }) == self.claimed_root().algo
    }
}

/// Replaying a further sibling continues the fold by one step.
proof fn lemma_fold_snoc(cur: Seq<u8>, sibs: Seq<(Seq<u8>, bool)>, s: (Seq<u8>, bool))
    ensures
        fold_digest(cur, sibs.push(s)) == (if s.1 {
            sha256_of(fold_digest(cur, sibs) + s.0)
        } else {
            sha256_of(s.0 + fold_digest(cur, sibs))
        }),
    decreases sibs.len(),
{
    if sibs.len() == 0 {
        let step = if s.1 {
            sha256_of(cur + s.0)
        } else {
            sha256_of(s.0 + cur)
        };
        assert(sibs.push(s)[0] == s);
        assert(fold_digest(cur, sibs.push(s)) == fold_digest(step, sibs.push(s).drop_first()));
        assert(sibs.push(s).drop_first() =~= Seq::<(Seq<u8>, bool)>::empty());
        assert(fold_digest(step, Seq::<(Seq<u8>, bool)>::empty()) == step);
        assert(fold_digest(cur, sibs) == cur);
    } else {
        let step = if sibs[0].1 {
            sha256_of(cur + sibs[0].0)
        } else {
            sha256_of(sibs[0].0 + cur)
        };
        assert(sibs.push(s)[0] == sibs[0]);
        assert(fold_digest(cur, sibs.push(s)) == fold_digest(step, sibs.push(s).drop_first()));
        assert(sibs.push(s).drop_first() =~= sibs.drop_first().push(s));
        lemma_fold_snoc(step, sibs.drop_first(), s);
        assert(fold_digest(cur, sibs) == fold_digest(step, sibs.drop_first()));
    }
}

impl MerkleTree {
    /// The leaf sequence the tree was built from.
    pub closed spec fn leaf_seq(&self) -> Seq<HashValue> {
        self.leaves@
    }

    /// The root node.
    pub closed spec fn spec_root(&self) -> HashValue {
        self.root
    }

    /// Structural well-formedness: the stored levels are exactly the
    /// construction the leaf sequence prescribes, and the root is the
    /// single node of the top level.
    pub closed spec fn wf(&self) -> bool {
        if self.leaves@.len() == 0 {
            &&& self.levels@.len() == 0
            &&& self.root.algo == HashAlgo::Sha256
            &&& self.root.bytes@ == sha256_of(Seq::<u8>::empty())
        } else {
            &&& self.levels@.len() >= 1
            &&& self.levels@[0]@.len() == self.leaves@.len()
            &&& forall|i: int|
                0 <= i < self.leaves@.len() ==> hv_eq(
                    #[trigger] self.levels@[0]@[i],
                    self.leaves@[i],
                )
            &&& levels_chain(self.levels@)
            &&& self.levels@.last()@.len() == 1
            &&& hv_eq(self.root, self.levels@.last()@[0])
            &&& self.root.bytes@ == root_digest(digests_of(self.leaves@))
        }
    }

    /// Builds the tree over `leaves` in order. An empty input yields the
    /// canonical root (the digest of the empty byte string) and no levels;
    /// a single leaf is its own root.
    pub fn new(leaves: &Vec<HashValue>) -> (t: MerkleTree)
        ensures
            t.wf(),
            t.leaf_seq().len() == leaves@.len(),
            forall|i: int| 0 <= i < leaves@.len() ==> hv_eq(#[trigger] t.leaf_seq()[i], leaves@[i]),
            t.spec_root().bytes@ == root_digest(digests_of(leaves@)),
            leaves@.len() == 1 ==> t.spec_root().algo == leaves@[0].algo,
            leaves@.len() != 1 ==> t.spec_root().algo == HashAlgo::Sha256,
    {
        if leaves.len() == 0 {
            let empty: Vec<u8> = Vec::new();
            let t = MerkleTree {
                root: HashValue::compute(empty.as_slice(), HashAlgo::Sha256),
                leaves: Vec::new(),
                levels: Vec::new(),
            };
            proof {
                assert(digests_of(leaves@) =~= Seq::<Seq<u8>>::empty());
            }
            return t;
        }

        let mut levels: Vec<Vec<HashValue>> = Vec::new();
        levels.push(clone_hashes(leaves));
        let mut current = clone_hashes(leaves);
        proof {
            assert(digests_of(levels@[0]@) =~= digests_of(leaves@));
            assert(digests_of(current@) =~= digests_of(leaves@));
        }

        while current.len() > 1
            invariant
                levels@.len() >= 1,
                current@.len() >= 1,
                levels@[0]@.len() == leaves@.len(),
                forall|i: int|
                    0 <= i < leaves@.len() ==> hv_eq(#[trigger] levels@[0]@[i], leaves@[i]),
                levels_chain(levels@),
                levels@.last()@.len() == current@.len(),
                forall|i: int|
                    0 <= i < current@.len() ==> hv_eq(#[trigger] levels@.last()@[i], current@[i]),
                root_digest(digests_of(current@)) == root_digest(digests_of(leaves@)),
                levels@.len() > 1 ==> forall|i: int|
                    0 <= i < current@.len() ==> (#[trigger] current@[i]).algo == HashAlgo::Sha256,
            decreases current@.len(),
        {
            let ghost cur_digests = digests_of(current@);
            let ghost prev_levels = levels@;
            let mut next: Vec<HashValue> = Vec::new();
            let cur_n = current.len();
            let half = cur_n / 2 + cur_n % 2;
            proof {
                assert(half == (current@.len() + 1) / 2);
            }
            let mut j: usize = 0;
            while j < half
                invariant
                    current@.len() >= 2,
                    cur_n == current@.len(),
                    half == (current@.len() + 1) / 2,
                    j <= half,
                    next@.len() == j,
                    cur_digests == digests_of(current@),
                    forall|k: int|
                        0 <= k < next@.len() ==> (#[trigger] next@[k]).bytes@ == next_level_digests(
                            cur_digests,
                        )[k],
                    forall|k: int|
                        0 <= k < next@.len() ==> (#[trigger] next@[k]).algo == HashAlgo::Sha256,
                decreases half - j,
            {
                proof {
                    assert(2 * (j as int) < cur_n as int);
                }
                let i = 2 * j;
                let combined: Vec<u8> = if i + 1 < current.len() {
                    concat_bytes(current[i].bytes.as_slice(), current[i + 1].bytes.as_slice())
                } else {
                    concat_bytes(current[i].bytes.as_slice(), current[i].bytes.as_slice())
                };
                let h = HashValue::compute(combined.as_slice(), HashAlgo::Sha256);
                proof {
                    assert(h.bytes@ == next_level_digests(cur_digests)[j as int]);
                }
                next.push(h);
                j += 1;
            }
            proof {
                assert(next@.len() == (current@.len() + 1) / 2);
                assert(digests_of(next@) =~~= next_level_digests(digests_of(current@)));
                assert(root_digest(digests_of(next@)) == root_digest(digests_of(current@)));
            }
            levels.push(clone_hashes(&next));
            proof {
                let nl = levels@.len() as int;
                assert(levels@[nl - 1] == levels@.last());
                assert(digests_of(levels@[nl - 1]@) =~~= digests_of(next@));
                assert(digests_of(levels@[nl - 2]@) =~~= digests_of(current@));
                assert(forall|l: int| 0 <= l < nl - 1 ==> levels@[l] == prev_levels[l]);
                assert forall|l: int| 0 <= l < nl - 1 implies {
                    &&& digests_of(levels@[l + 1]@) == next_level_digests(digests_of(levels@[l]@))
                    &&& forall|i: int|
                        0 <= i < levels@[l + 1]@.len() ==> (#[trigger] levels@[l + 1]@[i]).algo
                            == HashAlgo::Sha256
                    &&& levels@[l]@.len() >= 2
                } by {
                    if l < nl - 2 {
                        assert(digests_of(prev_levels[l + 1]@) == next_level_digests(
                            digests_of(prev_levels[l]@),
                        ));
                        assert(forall|i: int|
                            0 <= i < prev_levels[l + 1]@.len() ==> (#[trigger] prev_levels[l
                                + 1]@[i]).algo == HashAlgo::Sha256);
                    } else {
                        assert(l == nl - 2);
                        assert(digests_of(levels@[nl - 1]@) == next_level_digests(
                            digests_of(levels@[nl - 2]@),
                        ));
                        assert forall|i: int| 0 <= i < levels@[nl - 1]@.len() implies (
                        #[trigger] levels@[nl - 1]@[i]).algo == HashAlgo::Sha256 by {
                            assert(hv_eq(levels@.last()@[i], next@[i]));
                        }
                    }
                }
                assert(levels_chain(levels@));
            }
            current = next;
        }

        let root = current[0].clone();
        proof {
            assert(digests_of(current@).len() == 1);
            assert(root_digest(digests_of(current@)) == digests_of(current@)[0]);
            if leaves@.len() > 1 {
                // the top level has one node and the bottom more than one,
                // so at least one pairing step ran
                assert(levels@.len() >= 2);
            } else {
                // a chain link would force two nodes onto the bottom level
                if levels@.len() >= 2 {
                    assert(digests_of(levels@[1]@) == next_level_digests(digests_of(levels@[0]@)));
                    assert(levels@[0]@.len() >= 2);
                    assert(false);
                }
                assert(levels@.len() == 1);
            }
        }
        let t = MerkleTree { root, leaves: clone_hashes(leaves), levels };
        proof {
            assert(digests_of(t.leaves@) =~~= digests_of(leaves@));
            assert(t.wf());
        }
        t
    }

    /// The root node of the tree.
    pub fn root(&self) -> (r: HashValue)
        ensures
            hv_eq(r, self.spec_root()),
    {
        self.root.clone()
    }

    /// Builds an inclusion proof for the leaf at `leaf_idx`, walking one
    /// level at a time and recording the sibling where one exists. Absent
    /// for an out-of-range index. Along a complete path the proof replays
    /// to the root, so `verify_proof` accepts it.
    pub fn generate_proof(&self, leaf_idx: usize) -> (r: Option<MerkleProof>)
        requires
            self.wf(),
        ensures
            match r {
                None => leaf_idx >= self.leaf_seq().len(),
                Some(pf) => {
                    &&& leaf_idx < self.leaf_seq().len()
                    &&& hv_eq(pf.leaf(), self.leaf_seq()[leaf_idx as int])
                    &&& hv_eq(pf.claimed_root(), self.spec_root())
                    &&& proof_path_complete(self.leaf_seq().len(), leaf_idx as nat) ==> pf.checks()
                },
            },
    {
        if leaf_idx >= self.leaves.len() {
            return None;
        }
        let ghost n0 = self.leaves@.len();
        let ghost complete = proof_path_complete(n0, leaf_idx as nat);
        let mut siblings: Vec<(HashValue, bool)> = Vec::new();
        let mut idx: usize = leaf_idx;
        let nlevels = self.levels.len();
        let mut level: usize = 0;

        while level < nlevels - 1
            invariant
                self.wf(),
                leaf_idx < n0 == self.leaves@.len(),
                nlevels == self.levels@.len(),
                1 <= nlevels,
                level < nlevels,
                idx < self.levels@[level as int]@.len(),
                complete == proof_path_complete(n0, leaf_idx as nat),
                complete ==> {
                    &&& siblings@.len() == level
                    &&& fold_digest(
                        self.leaves@[leaf_idx as int].bytes@,
                        sib_digests(siblings@),
                    ) == self.levels@[level as int]@[idx as int].bytes@
                    &&& proof_path_complete(self.levels@[level as int]@.len(), idx as nat)
                },
            decreases nlevels - level,
        {
            let ghost pre_sibs = sib_digests(siblings@);
            let ghost cur_len = self.levels@[level as int]@.len();
            proof {
                // below the top, this level pairs into the next one
                assert(digests_of(self.levels@[level as int + 1]@) == next_level_digests(
                    digests_of(self.levels@[level as int]@),
                ));
                assert(cur_len >= 2);
                assert(digests_of(self.levels@[level as int]@).len() == cur_len);
                assert(next_level_digests(digests_of(self.levels@[level as int]@)).len() == (cur_len
                    + 1) / 2);
                assert(self.levels@[level as int + 1]@.len() == (cur_len + 1) / 2);
            }
            let sibling_idx = if idx % 2 == 0 {
                idx + 1
            } else {
                idx - 1
            };
            if sibling_idx < self.levels[level].len() {
                let is_right = idx % 2 == 0;
                let entry = (self.levels[level][sibling_idx].clone(), is_right);
                proof {
                    if complete {
                        lemma_fold_snoc(
                            self.leaves@[leaf_idx as int].bytes@,
                            pre_sibs,
                            (entry.0.bytes@, entry.1),
                        );
                        assert(sib_digests(siblings@.push(entry)) =~~= pre_sibs.push(
                            (entry.0.bytes@, entry.1),
                        ));
                        if idx % 2 == 0 {
                            assert(2 * ((idx as int) / 2) == idx as int);
                        } else {
                            assert(2 * ((idx as int) / 2) + 1 == idx as int);
                        }
                        assert(next_level_digests(digests_of(self.levels@[level as int]@))[(
                        idx as int) / 2] == fold_digest(
                            self.leaves@[leaf_idx as int].bytes@,
                            sib_digests(siblings@.push(entry)),
                        ));
                    }
                }
                siblings.push(entry);
            } else {
                proof {
                    // the walk stands at the self-paired last node of an
                    // odd level, so the path is not complete
                    assert(idx % 2 == 0 && idx + 1 == cur_len);
                    assert(!complete);
                }
            }
            idx = idx / 2;
            level = level + 1;
        }

        let pf = MerkleProof {
            leaf_hash: self.leaves[leaf_idx].clone(),
            siblings,
            root_hash: self.root.clone(),
        };
        proof {
            if complete {
                assert(level == nlevels - 1);
                assert(self.levels@[nlevels - 1]@.len() == 1);
                assert(idx == 0);
                assert(fold_digest(pf.leaf().bytes@, sib_digests(pf.sibs())) == self.levels@[nlevels
                    - 1]@[0].bytes@);
                assert(self.levels@[nlevels - 1]@[0].bytes@ == self.root.bytes@);
                if pf.sibs().len() == 0 {
                    assert(level == 0 && nlevels == 1);
                    assert(self.levels@[0]@.len() == 1);
                    assert(self.leaves@.len() == 1 && leaf_idx == 0);
                    assert(pf.leaf().algo == self.leaves@[0].algo);
                    assert(hv_eq(self.root, self.levels@[0]@[0]));
                    assert(hv_eq(self.levels@[0]@[0], self.leaves@[0]));
                    assert(pf.claimed_root().algo == pf.leaf().algo);
                } else {
                    assert(level >= 1);
                    let l0 = nlevels - 2;
                    assert(digests_of(self.levels@[l0 + 1]@) == next_level_digests(
                        digests_of(self.levels@[l0]@),
                    ));
                    assert(self.levels@[l0 + 1]@[0].algo == HashAlgo::Sha256);
                    assert(self.levels@[nlevels - 1]@[0].algo == HashAlgo::Sha256);
                    assert(pf.claimed_root().algo == HashAlgo::Sha256);
                }
                assert(pf.checks());
            }
        }
        Some(pf)
    }

    /// Replays the recorded siblings upward from the proof's leaf and
    /// accepts exactly when the claimed root is reached. Never fails:
    /// a mismatch is simply `false`.
    pub fn verify_proof(pf: &MerkleProof) -> (r: bool)
        ensures
            r == pf.checks(),
    {
        let mut current = pf.leaf_hash.clone();
        let n = pf.siblings.len();
        proof {
            assert(sib_digests(pf.siblings@).skip(0) =~= sib_digests(pf.siblings@));
        }
        let mut i: usize = 0;
        while i < n
            invariant
                n == pf.siblings@.len(),
                i <= n,
                fold_digest(pf.leaf_hash.bytes@, sib_digests(pf.siblings@)) == fold_digest(
                    current.bytes@,
                    sib_digests(pf.siblings@).skip(i as int),
                ),
                current.algo == (if i == 0 {
                    pf.leaf_hash.algo
                } else {
                    HashAlgo::Sha256
                }),
            decreases n - i,
        {
            let pair = &pf.siblings[i];
            let combined: Vec<u8> = if pair.1 {
                concat_bytes(current.bytes.as_slice(), pair.0.bytes.as_slice())
            } else {
                concat_bytes(pair.0.bytes.as_slice(), current.bytes.as_slice())
            };
            proof {
                assert(sib_digests(pf.siblings@).skip(i as int).drop_first() =~= sib_digests(
                    pf.siblings@,
                ).skip(i as int + 1));
                assert(sib_digests(pf.siblings@).skip(i as int)[0] == (
                    pf.siblings@[i as int].0.bytes@,
                    pf.siblings@[i as int].1,
                ));
            }
            current = HashValue::compute(combined.as_slice(), HashAlgo::Sha256);
            i += 1;
        }
        proof {
            assert(sib_digests(pf.siblings@).skip(n as int) =~= Seq::<(Seq<u8>, bool)>::empty());
        }
        current == pf.root_hash
    }
}

} // verus!
