//! Probabilistic set membership over byte keys.
//!
//! A fixed bit array is probed under a family of digest algorithms: each
//! algorithm's digest of the key, folded to a 64-bit value and reduced
//! modulo the array size, names one bit. Once a bit is set it is never
//! cleared, so membership queries have no false negatives.

use vstd::prelude::*;
use crate::hash::{digest_of, digest_width, HashAlgo, HashValue};

verus! {

/// Big-endian value of a byte sequence.
pub open spec fn be_value(bytes: Seq<u8>) -> nat
    decreases bytes.len(),
{
    if bytes.len() == 0 {
        0
    } else {
        be_value(bytes.drop_last()) * 256 + bytes.last() as nat
    }
}

/// 256 to the power `n`.
pub open spec fn pow256(n: nat) -> nat
    decreases n,
{
    if n == 0 {
        1nat
    } else {
        256 * pow256((n - 1) as nat)
    }
}

/// A big-endian value is bounded by 256 to the length.
proof fn lemma_be_value_bound(bytes: Seq<u8>)
    ensures
        be_value(bytes) < pow256(bytes.len()),
    decreases bytes.len(),
{
    if bytes.len() > 0 {
        lemma_be_value_bound(bytes.drop_last());
        assert(be_value(bytes.drop_last()) * 256 + bytes.last() < pow256((bytes.len() - 1) as nat)
            * 256) by (nonlinear_arith)
            requires
                be_value(bytes.drop_last()) < pow256((bytes.len() - 1) as nat),
                bytes.last() < 256,
        ;
    }
}

/// The bit an item selects under one algorithm: the first eight digest
/// bytes read as a big-endian value, reduced modulo the array size.
pub open spec fn bloom_index(item: Seq<u8>, algo: HashAlgo, size: nat) -> nat {
    be_value(digest_of(item, algo).take(8)) % size
}

/// A bit array probed under a family of digest algorithms.
pub struct BloomFilter {
    bits: Vec<bool>,
    hashers: Vec<HashAlgo>,
    size: usize,
    num_items: usize,
}

/// The algorithms a filter draws its family from, in order.
pub open spec fn algo_choices() -> Seq<HashAlgo> {
    seq![HashAlgo::Sha256, HashAlgo::Sha512, HashAlgo::Sha3_256]
}

impl BloomFilter {
    /// The bit array.
    pub closed spec fn spec_bits(&self) -> Seq<bool> {
        self.bits@
    }

    /// The family of algorithms probed for each key.
    pub closed spec fn spec_hashers(&self) -> Seq<HashAlgo> {
        self.hashers@
    }

    /// The size of the bit array.
    pub closed spec fn spec_size(&self) -> nat {
        self.size as nat
    }

    /// How many items have been added.
    pub closed spec fn spec_num_items(&self) -> nat {
        self.num_items as nat
    }

    /// The array is non-empty and the recorded size is its length.
    pub open spec fn wf(&self) -> bool {
        &&& self.spec_size() == self.spec_bits().len()
        &&& self.spec_size() > 0
    }

    /// Every bit the item selects is set.
    pub open spec fn covers(&self, item: Seq<u8>) -> bool {
        forall|k: int|
            0 <= k < self.spec_hashers().len() ==> self.spec_bits()[bloom_index(
                item,
                #[trigger] self.spec_hashers()[k],
                self.spec_size(),
            ) as int]
    }

    /// An empty filter of `size_bits` bits, probing under the first
    /// `num_hashers` available algorithms. A request for more algorithms
    /// than exist is clamped to the available count, which lowers accuracy
    /// against the theoretical target rather than failing.
    pub fn new(size_bits: usize, num_hashers: usize) -> (r: BloomFilter)
        requires
            size_bits > 0,
        ensures
            r.wf(),
            r.spec_size() == size_bits,
            r.spec_num_items() == 0,
            forall|j: int| 0 <= j < size_bits ==> !(#[trigger] r.spec_bits()[j]),
            r.spec_hashers() == algo_choices().take(
                if num_hashers <= 3 {
                    num_hashers as int
                } else {
                    3
                },
            ),
            num_hashers > 0 ==> forall|item: Seq<u8>| !(#[trigger] r.covers(item)),
    {
        let mut bits: Vec<bool> = Vec::new();
        let mut i: usize = 0;
        while i < size_bits
            invariant
                i <= size_bits,
                bits@.len() == i,
                forall|j: int| 0 <= j < i ==> !(#[trigger] bits@[j]),
            decreases size_bits - i,
        {
            bits.push(false);
            i += 1;
        }
        let mut hashers: Vec<HashAlgo> = Vec::new();
        if num_hashers >= 1 {
            hashers.push(HashAlgo::Sha256);
        }
        if num_hashers >= 2 {
            hashers.push(HashAlgo::Sha512);
        }
        if num_hashers >= 3 {
            hashers.push(HashAlgo::Sha3_256);
        }
        proof {
            assert(hashers@ =~= algo_choices().take(
                if num_hashers <= 3 {
                    num_hashers as int
                } else {
                    3
                },
            ));
        }
        let r = BloomFilter { bits, hashers, size: size_bits, num_items: 0 };
        proof {
            if num_hashers > 0 {
                assert forall|item: Seq<u8>| !(#[trigger] r.covers(item)) by {
                    let probe = bloom_index(item, r.spec_hashers()[0], r.spec_size());
                    assert(probe < r.spec_size());
                    assert(!r.spec_bits()[probe as int]);
                }
            }
        }
        r
    }

    /// The bit a digest selects: its first eight bytes as a big-endian
    /// value, reduced modulo the array size.
    fn hash_to_index(&self, hash: &HashValue) -> (r: usize)
        requires
            self.wf(),
            hash.bytes@.len() >= 8,
        ensures
            r as nat == be_value(hash.bytes@.take(8)) % self.spec_size(),
            r < self.spec_size(),
    {
        let mut val: u64 = 0;
        let mut i: usize = 0;
        while i < 8
            invariant
                i <= 8,
                hash.bytes@.len() >= 8,
                val as nat == be_value(hash.bytes@.take(i as int)),
                (val as nat) < pow256(i as nat),
            decreases 8 - i,
        {
            let b = hash.bytes[i];
            proof {
                reveal_with_fuel(pow256, 9);
                assert(val < 0x100000000000000) by {
                    assert(pow256(i as nat) <= pow256(7)) by {
                        if i == 0 {
                        } else if i == 1 {
                        } else if i == 2 {
                        } else if i == 3 {
                        } else if i == 4 {
                        } else if i == 5 {
                        } else if i == 6 {
                        }
                    };
                }
                assert((val << 8) | (b as u64) == val * 256 + (b as u64)) by (bit_vector)
                    requires
                        val < 0x100000000000000,
                ;
                assert(hash.bytes@.take(i + 1).drop_last() =~= hash.bytes@.take(i as int));
                assert(hash.bytes@.take(i + 1).last() == hash.bytes@[i as int]);
            }
            val = (val << 8) | (b as u64);
            i += 1;
        }
        proof {
            assert(self.size > 0);
        }
        (val % (self.size as u64)) as usize
    }

    /// Sets the bit each algorithm of the family selects for `item` and
    /// counts the item. Every bit already set stays set, so everything
    /// the filter covered before is still covered.
    pub fn add(&mut self, item: &[u8])
        requires
            old(self).wf(),
            old(self).spec_num_items() < usize::MAX,
        ensures
            final(self).wf(),
            final(self).spec_size() == old(self).spec_size(),
            final(self).spec_hashers() == old(self).spec_hashers(),
            final(self).spec_num_items() == old(self).spec_num_items() + 1,
            forall|j: int|
                0 <= j < final(self).spec_size() ==> (#[trigger] final(self).spec_bits()[j] <==> (
                old(self).spec_bits()[j] || exists|k: int|
                    0 <= k < old(self).spec_hashers().len() && bloom_index(
                        item@,
                        #[trigger] old(self).spec_hashers()[k],
                        old(self).spec_size(),
                    ) == j)),
            final(self).covers(item@),
            forall|other: Seq<u8>|
                #[trigger] old(self).covers(other) ==> final(self).covers(other),
    {
        let n = self.hashers.len();
        let mut k: usize = 0;
        while k < n
            invariant
                self.wf(),
                n == self.spec_hashers().len(),
                k <= n,
                self.spec_size() == old(self).spec_size(),
                self.spec_hashers() == old(self).spec_hashers(),
                self.spec_num_items() == old(self).spec_num_items(),
                forall|j: int|
                    0 <= j < self.spec_size() ==> (#[trigger] self.spec_bits()[j] <==> (old(
                        self,
                    ).spec_bits()[j] || exists|t: int|
                        0 <= t < k && bloom_index(
                            item@,
                            #[trigger] old(self).spec_hashers()[t],
                            old(self).spec_size(),
                        ) == j)),
            decreases n - k,
        {
            let algo = self.hashers[k];
            let hash = HashValue::compute(item, algo);
            proof {
                assert(digest_width(algo) >= 8);
            }
            let idx = self.hash_to_index(&hash);
            proof {
                assert(idx as nat == bloom_index(item@, algo, self.spec_size()));
            }
            self.bits[idx] = true;
            k += 1;
        }
        self.num_items = self.num_items + 1;
        proof {
            assert forall|other: Seq<u8>| #[trigger]
                old(self).covers(other) implies self.covers(other) by {
                assert forall|t: int| 0 <= t < self.spec_hashers().len() implies self.spec_bits()[bloom_index(
                    other,
                    #[trigger] self.spec_hashers()[t],
                    self.spec_size(),
                ) as int] by {
                    assert(old(self).spec_bits()[bloom_index(
                        other,
                        old(self).spec_hashers()[t],
                        old(self).spec_size(),
                    ) as int]);
                }
            }
        }
    }

    /// Whether every bit the item selects is set: `false` as soon as a
    /// required bit is unset, so a contained item is never denied; a
    /// `true` may be a false positive.
    pub fn contains(&self, item: &[u8]) -> (r: bool)
        requires
            self.wf(),
        ensures
            r == self.covers(item@),
    {
        let n = self.hashers.len();
        let mut k: usize = 0;
        while k < n
            invariant
                self.wf(),
                n == self.spec_hashers().len(),
                k <= n,
                forall|t: int|
                    0 <= t < k ==> self.spec_bits()[bloom_index(
                        item@,
                        #[trigger] self.spec_hashers()[t],
                        self.spec_size(),
                    ) as int],
            decreases n - k,
        {
            let algo = self.hashers[k];
            let hash = HashValue::compute(item, algo);
            proof {
                assert(digest_width(algo) >= 8);
            }
            let idx = self.hash_to_index(&hash);
            if !self.bits[idx] {
                proof {
                    assert(idx as nat == bloom_index(item@, self.spec_hashers()[k as int], self.spec_size()));
                }
                return false;
            }
            k += 1;
        }
        true
    }

    /// How many items have been added.
    pub fn num_items(&self) -> (r: usize)
        ensures
            r == self.spec_num_items(),
    {
        self.num_items
    }

    /// The size of the bit array.
    pub fn bit_count(&self) -> (r: usize)
        ensures
            r == self.spec_size(),
    {
        self.size
    }

    /// How many algorithms the family probes.
    pub fn hasher_count(&self) -> (r: usize)
        ensures
            r == self.spec_hashers().len(),
    {
        self.hashers.len()
    }
}

} // verus!
