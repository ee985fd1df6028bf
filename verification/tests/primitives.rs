use hashvault::{BloomFilter, Commitment, HashAlgo, HashValue};
use rand::RngCore;

#[test]
fn compute_sha256_known_digest() {
    let h = HashValue::compute(b"abc", HashAlgo::Sha256);
    assert_eq!(
        h.to_hex(),
        "ba7816bf8f01cfea414140de5dae2223b00361a396177a9cb410ff61f20015ad"
    );
    assert_eq!(h.size(), 32);
}

#[test]
fn compute_sha512_known_digest() {
    let h = HashValue::compute(b"abc", HashAlgo::Sha512);
    let expected = String::from("ddaf35a193617abacc417349ae20413112e6fa4e89a97ea20a9eeee64b55d39a")
        + "2192992a274fc1a836ba3c23a3feebbd454d4423643ce80e2a9ac94fa54ca49f";
    assert_eq!(h.to_hex(), expected);
    assert_eq!(h.size(), 64);
}

#[test]
fn compute_sha3_known_digests() {
    let h = HashValue::compute(b"abc", HashAlgo::Sha3_256);
    assert_eq!(
        h.to_hex(),
        "3a985da74fe225b2045c172d6bd390bd855f086e3e9d525b46bfe24511431532"
    );
    let h512 = HashValue::compute(b"abc", HashAlgo::Sha3_512);
    assert_eq!(h512.size(), 64);
    let expected = String::from("b751850b1a57168a5693cd924b6b096e08f621827444f70d884f5d0240d2712e")
        + "10e116e9192af3c91a7ec57647e3934057340b4cf408d5a56592f8274eec53f0";
    assert_eq!(h512.to_hex(), expected);
}

#[test]
fn to_hex_two_digits_per_byte() {
    let h = HashValue {
        algo: HashAlgo::Sha256,
        bytes: vec![0x00, 0xff, 0x0a],
    };
    assert_eq!(h.to_hex(), "00ff0a");
}

#[test]
fn prefix_caps_at_length() {
    let h = HashValue {
        algo: HashAlgo::Sha256,
        bytes: vec![0xde, 0xad, 0xbe, 0xef],
    };
    assert_eq!(h.prefix(2), "dead");
    assert_eq!(h.prefix(100), "deadbeef");
    assert_eq!(h.prefix(0), "");
}

#[test]
fn equality_considers_algorithm_tag() {
    let a = HashValue {
        algo: HashAlgo::Sha256,
        bytes: vec![1, 2, 3],
    };
    let b = HashValue {
        algo: HashAlgo::Sha512,
        bytes: vec![1, 2, 3],
    };
    let c = HashValue {
        algo: HashAlgo::Sha256,
        bytes: vec![1, 2, 3],
    };
    assert!(a != b);
    assert!(a == c);
}

#[test]
fn compute_is_deterministic() {
    let a = HashValue::compute(b"same input", HashAlgo::Sha256);
    let b = HashValue::compute(b"same input", HashAlgo::Sha256);
    assert!(a == b);
}

#[test]
fn bloom_added_items_are_contained() {
    let mut filter = BloomFilter::new(1024, 3);
    let items: Vec<&[u8]> = vec![b"alpha", b"beta", b"gamma", b"", b"\x00\x01\x02"];
    for item in &items {
        filter.add(item);
    }
    for item in &items {
        assert!(filter.contains(item));
    }
    assert_eq!(filter.num_items(), items.len());
}

#[test]
fn bloom_no_false_negatives_randomized() {
    let mut rng = rand::thread_rng();
    let mut filter = BloomFilter::new(4096, 3);
    let mut items: Vec<Vec<u8>> = Vec::new();
    for i in 0..200 {
        let mut buf = vec![0u8; 1 + (i % 40)];
        rng.fill_bytes(&mut buf);
        filter.add(&buf);
        items.push(buf);
    }
    for item in &items {
        assert!(filter.contains(item));
    }
}

#[test]
fn bloom_fresh_filter_contains_nothing() {
    let filter = BloomFilter::new(512, 3);
    assert!(!filter.contains(b"never added"));
    assert_eq!(filter.num_items(), 0);
    assert_eq!(filter.bit_count(), 512);
    assert_eq!(filter.hasher_count(), 3);
}

#[test]
fn bloom_hasher_count_is_clamped() {
    let filter = BloomFilter::new(64, 7);
    assert_eq!(filter.hasher_count(), 3);
    let single = BloomFilter::new(64, 1);
    assert_eq!(single.hasher_count(), 1);
}

#[test]
fn commitment_verifies_for_committed_secret() {
    let c = Commitment::commit(b"the secret payload");
    assert!(c.verify(b"the secret payload"));
}

#[test]
fn commitment_rejects_other_secrets() {
    let c = Commitment::commit(b"the secret payload");
    assert!(!c.verify(b"the secret payloae"));
    assert!(!c.verify(b""));
    assert!(!c.verify(b"the secret payload "));
}

#[test]
fn commitment_uses_domain_distinct_algorithm() {
    let c = Commitment::commit(b"s");
    assert_eq!(c.hash().algo, HashAlgo::Sha3_256);
    assert_eq!(c.nonce().len(), 32);
}

#[test]
fn commitments_draw_fresh_nonces() {
    let a = Commitment::commit(b"s");
    let b = Commitment::commit(b"s");
    // 32 random bytes colliding twice is beyond negligible
    assert_ne!(a.nonce(), b.nonce());
}
