use hashvault::{AuthError, FileAuthenticator, HashAlgo, HashValue, StorageEngine, StorageError};

const MIB: usize = 1048576;

fn pattern(len: usize) -> Vec<u8> {
    (0..len).map(|i| (i % 251) as u8).collect()
}

fn pair(a: &HashValue, b: &HashValue) -> HashValue {
    let mut combined = a.bytes.clone();
    combined.extend_from_slice(&b.bytes);
    HashValue::compute(&combined, HashAlgo::Sha256)
}

#[test]
fn store_then_retrieve_round_trips() {
    let mut engine = StorageEngine::new();
    let data = pattern(100_000);
    let meta = engine.store_file(&data, "file.bin", "alice");
    let back = engine.retrieve_file(&meta.hash).expect("retrieval succeeds");
    assert_eq!(back, data);
}

#[test]
fn empty_payload_round_trips_with_no_chunks() {
    let mut engine = StorageEngine::new();
    let meta = engine.store_file(&[], "empty.bin", "alice");
    assert_eq!(meta.size, 0);
    assert_eq!(meta.chunks.len(), 0);
    let back = engine.retrieve_file(&meta.hash).expect("retrieval succeeds");
    assert!(back.is_empty());
}

#[test]
fn duplicate_store_returns_existing_metadata() {
    let mut engine = StorageEngine::new();
    let data = pattern(4096);
    let first = engine.store_file(&data, "original.bin", "alice");
    let second = engine.store_file(&data, "copy.bin", "bob");
    assert!(first.hash == second.hash);
    assert!(first.merkle_root == second.merkle_root);
    // the existing record is returned unchanged, original name included
    assert_eq!(second.path, "original.bin");
    assert_eq!(second.owner, "alice");
}

#[test]
fn duplicate_store_updates_counters_but_not_unique_files() {
    let mut engine = StorageEngine::new();
    let data = pattern(4096);
    engine.store_file(&data, "a.bin", "alice");
    assert_eq!(engine.dedup_stats.total_files, 1);
    assert_eq!(engine.dedup_stats.unique_files, 1);
    assert_eq!(engine.dedup_stats.total_bytes, 4096);
    assert_eq!(engine.dedup_stats.saved_bytes, 0);
    engine.store_file(&data, "b.bin", "bob");
    assert_eq!(engine.dedup_stats.total_files, 2);
    assert_eq!(engine.dedup_stats.unique_files, 1);
    assert_eq!(engine.dedup_stats.total_bytes, 8192);
    assert_eq!(engine.dedup_stats.saved_bytes, 4096);
}

#[test]
fn distinct_payloads_are_both_stored() {
    let mut engine = StorageEngine::new();
    let m1 = engine.store_file(b"first payload", "a.bin", "alice");
    let m2 = engine.store_file(b"second payload", "b.bin", "alice");
    assert!(m1.hash != m2.hash);
    assert_eq!(engine.dedup_stats.unique_files, 2);
    assert_eq!(engine.retrieve_file(&m1.hash).unwrap(), b"first payload");
    assert_eq!(engine.retrieve_file(&m2.hash).unwrap(), b"second payload");
}

#[test]
fn unknown_hash_is_not_found() {
    let engine = StorageEngine::new();
    let never = HashValue::compute(b"never stored", HashAlgo::Sha256);
    match engine.retrieve_file(&never) {
        Err(StorageError::NotFound) => {}
        other => panic!("expected NotFound, got {:?}", other),
    }
}

#[test]
fn tampered_chunk_yields_integrity_violation() {
    let mut engine = StorageEngine::new();
    let data = pattern(3000);
    let meta = engine.store_file(&data, "file.bin", "alice");
    let mut chunk = engine.read_chunk(&meta.hash, 0).expect("chunk exists");
    chunk[17] ^= 0x01;
    assert!(engine.overwrite_chunk(&meta.hash, 0, chunk));
    match engine.retrieve_file(&meta.hash) {
        Err(StorageError::IntegrityViolation) => {}
        other => panic!("expected IntegrityViolation, got {:?}", other),
    }
}

#[test]
fn tampering_one_file_leaves_others_retrievable() {
    let mut engine = StorageEngine::new();
    let good = engine.store_file(b"good data", "good.bin", "alice");
    let bad = engine.store_file(b"bad data", "bad.bin", "alice");
    assert!(engine.overwrite_chunk(&bad.hash, 0, vec![0u8; 8]));
    assert!(matches!(
        engine.retrieve_file(&bad.hash),
        Err(StorageError::IntegrityViolation)
    ));
    assert_eq!(engine.retrieve_file(&good.hash).unwrap(), b"good data");
}

#[test]
fn overwrite_of_unknown_hash_or_bad_index_is_refused() {
    let mut engine = StorageEngine::new();
    let meta = engine.store_file(b"data", "f.bin", "alice");
    let never = HashValue::compute(b"other", HashAlgo::Sha256);
    assert!(!engine.overwrite_chunk(&never, 0, vec![1]));
    assert!(!engine.overwrite_chunk(&meta.hash, 5, vec![1]));
    assert_eq!(engine.retrieve_file(&meta.hash).unwrap(), b"data");
}

#[test]
fn large_payload_splits_into_three_chunks() {
    let mut engine = StorageEngine::new();
    let data = pattern(2 * MIB + MIB / 2);
    let meta = engine.store_file(&data, "big.bin", "alice");
    assert_eq!(meta.chunks.len(), 3);
    assert_eq!(meta.size, (2 * MIB + MIB / 2) as u64);
    assert_eq!(
        engine.read_chunk(&meta.hash, 0).unwrap().len(),
        MIB
    );
    assert_eq!(
        engine.read_chunk(&meta.hash, 1).unwrap().len(),
        MIB
    );
    assert_eq!(
        engine.read_chunk(&meta.hash, 2).unwrap().len(),
        MIB / 2
    );
    assert!(engine.read_chunk(&meta.hash, 3).is_none());

    // chunk digests are the digests of the slices, in order
    let c0 = HashValue::compute(&data[..MIB], HashAlgo::Sha256);
    let c1 = HashValue::compute(&data[MIB..2 * MIB], HashAlgo::Sha256);
    let c2 = HashValue::compute(&data[2 * MIB..], HashAlgo::Sha256);
    assert!(meta.chunks[0] == c0);
    assert!(meta.chunks[1] == c1);
    assert!(meta.chunks[2] == c2);

    // the odd third digest is paired with itself at the first level
    let expected_root = pair(&pair(&c0, &c1), &pair(&c2, &c2));
    assert!(meta.merkle_root == expected_root);

    let back = engine.retrieve_file(&meta.hash).expect("retrieval succeeds");
    assert_eq!(back, data);
}

#[test]
fn metadata_lookup_returns_stored_record() {
    let mut engine = StorageEngine::new();
    let meta = engine.store_file(b"payload", "f.bin", "alice");
    let looked = engine.get_metadata(&meta.hash).expect("record exists");
    assert!(looked.hash == meta.hash);
    assert!(looked.merkle_root == meta.merkle_root);
    assert_eq!(looked.path, "f.bin");
    assert_eq!(looked.owner, "alice");
    let never = HashValue::compute(b"nope", HashAlgo::Sha256);
    assert!(engine.get_metadata(&never).is_none());
}

#[test]
fn rehydrated_entry_retrieves_identically() {
    let mut engine = StorageEngine::new();
    let data = pattern(5000);
    let meta = engine.store_file(&data, "f.bin", "alice");
    let record = engine.get_metadata(&meta.hash).expect("record exists");
    let blobs: Vec<Vec<u8>> = (0..record.chunks.len())
        .map(|i| engine.read_chunk(&meta.hash, i).expect("chunk exists"))
        .collect();

    let mut rebuilt = StorageEngine::new();
    assert!(rebuilt.load_entry(record, blobs));
    assert_eq!(rebuilt.retrieve_file(&meta.hash).unwrap(), data);

    // the rebuilt index deduplicates a resubmission of the same bytes
    let again = rebuilt.store_file(&data, "f.bin", "alice");
    assert!(again.hash == meta.hash);
    assert_eq!(rebuilt.dedup_stats.saved_bytes, 5000);

    // a second load of the now-present record is refused
    let record2 = engine.get_metadata(&meta.hash).expect("record exists");
    let blobs2: Vec<Vec<u8>> = (0..record2.chunks.len())
        .map(|i| engine.read_chunk(&meta.hash, i).expect("chunk exists"))
        .collect();
    assert!(!rebuilt.load_entry(record2, blobs2));
}

#[test]
fn corrupted_pair_is_refused_on_load() {
    let mut engine = StorageEngine::new();
    let data = pattern(5000);
    let meta = engine.store_file(&data, "f.bin", "alice");
    let record = engine.get_metadata(&meta.hash).expect("record exists");
    let mut blobs: Vec<Vec<u8>> = (0..record.chunks.len())
        .map(|i| engine.read_chunk(&meta.hash, i).expect("chunk exists"))
        .collect();
    blobs[0][3] ^= 0x01;
    let mut rebuilt = StorageEngine::new();
    assert!(!rebuilt.load_entry(record, blobs));
    assert!(matches!(
        rebuilt.retrieve_file(&meta.hash),
        Err(StorageError::NotFound)
    ));
}

#[test]
fn authenticator_register_and_verify() {
    let mut auth = FileAuthenticator::new("/watch");
    auth.register("/watch/a.txt", b"contents of a");
    assert_eq!(auth.verify("/watch/a.txt", b"contents of a"), Ok(true));
    assert_eq!(auth.verify("/watch/a.txt", b"contents of b"), Ok(false));
    assert_eq!(
        auth.verify("/watch/missing.txt", b"anything"),
        Err(AuthError::NotFound)
    );
}

#[test]
fn authenticator_reregistration_replaces_hash() {
    let mut auth = FileAuthenticator::new("/watch");
    auth.register("/watch/a.txt", b"old contents");
    auth.register("/watch/a.txt", b"new contents");
    assert_eq!(auth.verify("/watch/a.txt", b"new contents"), Ok(true));
    assert_eq!(auth.verify("/watch/a.txt", b"old contents"), Ok(false));
}

#[test]
fn quick_check_never_denies_a_registered_path() {
    let mut auth = FileAuthenticator::new("/watch");
    let paths = ["/watch/a", "/watch/b", "/watch/some/deep/path.rs"];
    for p in paths {
        auth.register(p, b"data");
    }
    for p in paths {
        assert!(auth.quick_check(p));
    }
}

#[test]
fn fresh_authenticator_quick_check_is_negative() {
    let auth = FileAuthenticator::new("/watch");
    assert!(!auth.quick_check("/watch/anything"));
}
