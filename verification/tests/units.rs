use ledger_storage::bytes::{bytes_eq, bytes_lt, clone_bytes, has_prefix, sub_bytes, suffix_bytes};
use ledger_storage::digest::{digest_from_bytes, is_zero_digest, PersistentStorageHasher};
use ledger_storage::encoding::{decode_u64, encode_u64};
use ledger_storage::error::Error;
use ledger_storage::gas::{add_gas, entry_gas, key_gas};
use ledger_storage::header::get_dummy_header;
use ledger_storage::key::Key;
use ledger_storage::merkle::MerkleTree;
use ledger_storage::ordered::OrderedMap;
use ledger_storage::storage::Storage;
use ledger_storage::store::{Batch, ByteStore, MemStore};
use ledger_storage::write_log::{Modification, WriteLog};
use sparse_merkle_tree::blake2b::Blake2bHasher;
use sparse_merkle_tree::default_store::DefaultStore;
use sparse_merkle_tree::{SparseMerkleTree, H256};

#[test]
fn lexicographic_order() {
    assert!(bytes_lt(b"", b"a"));
    assert!(!bytes_lt(b"", b""));
    assert!(bytes_lt(b"a", b"ab"));
    assert!(bytes_lt(b"ab", b"b"));
    assert!(!bytes_lt(b"b", b"ab"));
    assert!(bytes_lt(&[1, 255], &[2]));
    assert!(!bytes_lt(b"same", b"same"));
    assert!(bytes_eq(b"same", b"same"));
    assert!(!bytes_eq(b"same", b"sama"));
    assert!(!bytes_eq(b"same", b"sam"));
    assert!(has_prefix(b"prefix/1", b"prefix/"));
    assert!(has_prefix(b"x", b""));
    assert!(!has_prefix(b"pre", b"prefix"));
    assert!(!has_prefix(b"prefax/1", b"prefix/"));
    assert_eq!(clone_bytes(b"abc"), b"abc".to_vec());
    assert_eq!(suffix_bytes(b"abcdef", 2), b"cdef".to_vec());
    assert_eq!(suffix_bytes(b"ab", 2), Vec::<u8>::new());
    assert_eq!(sub_bytes(b"abcdef", 1, 4), b"bcd".to_vec());
}

#[test]
fn key_parsing() {
    let key = Key::parse("a/bc/d").unwrap();
    assert_eq!(key.len(), 6);
    assert_eq!(key.as_bytes(), b"a/bc/d");
    assert_eq!(key.duplicate().as_bytes(), b"a/bc/d");
    for bad in ["", "/", "/a", "a/", "a//b", "caf\u{e9}"] {
        assert_eq!(Key::parse(bad).err(), Some(Error::KeyParseError), "{:?}", bad);
    }
    assert_eq!(
        Key::from_bytes(&[97, 200]).err(),
        Some(Error::KeyParseError)
    );
    assert!(Key::parse("a").unwrap().is_before(&Key::parse("a/b").unwrap()));
    assert!(Key::parse("a/b").unwrap().is_before(&Key::parse("b").unwrap()));
    assert!(!key.is_before(&key));
    let pushed = key.push("e").unwrap();
    assert_eq!(pushed.as_bytes(), b"a/bc/d/e");
    assert_eq!(key.push("").err(), Some(Error::KeyParseError));
    assert_eq!(key.push("x/y").err(), Some(Error::KeyParseError));
    assert_eq!(key.push_bytes(&[255]).err(), Some(Error::KeyParseError));
    assert_eq!(key.push_bytes(b"f").unwrap().as_bytes(), b"a/bc/d/f");
    assert_eq!(
        Key::validity_predicate("").err(),
        Some(Error::KeyParseError)
    );
}

#[test]
fn integer_encoding() {
    assert_eq!(encode_u64(12), vec![12, 0, 0, 0, 0, 0, 0, 0]);
    assert_eq!(
        encode_u64(0x0102030405060708),
        vec![8, 7, 6, 5, 4, 3, 2, 1]
    );
    assert_eq!(encode_u64(u64::MAX), vec![255; 8]);
    assert_eq!(decode_u64(&[8, 7, 6, 5, 4, 3, 2, 1]), Some(0x0102030405060708));
    assert_eq!(decode_u64(&[1, 2, 3]), None);
    assert_eq!(decode_u64(&[0; 9]), None);
    assert_eq!(decode_u64(&[]), None);
    for v in [0u64, 1, 255, 256, 1 << 40, u64::MAX] {
        assert_eq!(decode_u64(&encode_u64(v)), Some(v));
    }
}

#[test]
fn storage_hash_is_personalized_blake2b() {
    for input in [&b""[..], b"abc", b"key", &[0u8; 100]] {
        let mut expected = [0u8; 32];
        let mut hasher = blake2b_rs::Blake2bBuilder::new(32)
            .personal(b"namada storage")
            .build();
        hasher.update(input);
        hasher.finalize(&mut expected);
        assert_eq!(PersistentStorageHasher::hash(input), expected);

        let mut plain = [0u8; 32];
        let mut hasher = blake2b_rs::Blake2bBuilder::new(32).build();
        hasher.update(input);
        hasher.finalize(&mut plain);
        assert_ne!(PersistentStorageHasher::hash(input), plain);
    }
    assert_ne!(
        PersistentStorageHasher::hash(b"a"),
        PersistentStorageHasher::hash(b"b")
    );
    assert!(!is_zero_digest(&PersistentStorageHasher::hash(b"")));
    assert!(is_zero_digest(&[0u8; 32]));
    assert_eq!(digest_from_bytes(&[7u8; 32]), Some([7u8; 32]));
    assert_eq!(digest_from_bytes(&[7u8; 31]), None);
    assert_eq!(digest_from_bytes(&[7u8; 33]), None);
}

#[test]
fn merkle_tree_follows_the_sparse_merkle_tree() {
    let mut reference: SparseMerkleTree<Blake2bHasher, H256, DefaultStore<H256>> =
        SparseMerkleTree::default();
    let mut tree = MerkleTree::new();
    assert_eq!(tree.root(), [0u8; 32]);
    assert!(!tree.has_key(b"k1"));

    tree.update(b"k1", b"v1");
    reference
        .update(
            H256::from(PersistentStorageHasher::hash(b"k1")),
            H256::from(PersistentStorageHasher::hash(b"v1")),
        )
        .unwrap();
    let root: [u8; 32] = (*reference.root()).into();
    assert_eq!(tree.root(), root);
    assert_ne!(tree.root(), [0u8; 32]);
    assert!(tree.has_key(b"k1"));
    assert!(!tree.has_key(b"k2"));

    // the root depends on the leaves alone
    let one = tree.root();
    tree.update(b"k2", b"v2");
    let two = tree.root();
    assert_ne!(one, two);
    let mut other = MerkleTree::new();
    other.update(b"k2", b"v2");
    other.update(b"k1", b"old");
    other.update(b"k1", b"v1");
    assert_eq!(other.root(), two);
    tree.delete(b"k2");
    assert_eq!(tree.root(), one);
    assert!(!tree.has_key(b"k2"));
    tree.delete(b"k1");
    assert_eq!(tree.root(), [0u8; 32]);

    // leaves by digest
    let leaf = PersistentStorageHasher::hash(b"k1");
    tree.set_leaf(&leaf, &PersistentStorageHasher::hash(b"v1"));
    assert_eq!(tree.root(), one);
    tree.remove_leaf(&leaf);
    assert_eq!(tree.root(), [0u8; 32]);
    tree.set_leaf(&leaf, &[0u8; 32]);
    assert_eq!(tree.root(), [0u8; 32]);
}

#[test]
fn ordered_map_operations() {
    let mut map: OrderedMap<Vec<u8>> = OrderedMap::new();
    assert_eq!(map.len(), 0);
    assert_eq!(map.get(b"a"), None);
    for k in ["m", "c", "x", "a", "p"] {
        map.insert(k.as_bytes().to_vec(), k.to_uppercase().into_bytes());
    }
    assert_eq!(map.len(), 5);
    let keys: Vec<Vec<u8>> = (0..map.len()).map(|i| map.key_at(i).clone()).collect();
    assert_eq!(
        keys,
        vec![
            b"a".to_vec(),
            b"c".to_vec(),
            b"m".to_vec(),
            b"p".to_vec(),
            b"x".to_vec()
        ]
    );
    assert_eq!(map.value_at(2), &b"M".to_vec());
    assert_eq!(map.get(b"p"), Some(&b"P".to_vec()));
    map.insert(b"p".to_vec(), b"again".to_vec());
    assert_eq!(map.len(), 5);
    assert_eq!(map.get(b"p"), Some(&b"again".to_vec()));
    map.remove(b"c");
    map.remove(b"not there");
    assert_eq!(map.len(), 4);
    assert_eq!(map.get(b"c"), None);
    map.clear();
    assert_eq!(map.len(), 0);
}

#[test]
fn memory_store_batches_and_listings() {
    let mut db = MemStore::new();
    let mut batch = Batch::new();
    batch.put(b"b/2".to_vec(), vec![2]);
    batch.put(b"a/1".to_vec(), vec![1]);
    batch.put(b"b/1".to_vec(), vec![3]);
    batch.put(b"b".to_vec(), vec![4]);
    batch.put(b"b/2".to_vec(), vec![5]);
    batch.delete(b"a/1".to_vec());
    batch.put(b"c".to_vec(), vec![6]);
    assert_eq!(batch.len(), 7);
    assert_eq!(batch.key_at(0), &b"b/2".to_vec());
    assert_eq!(batch.value_at(5), None);
    db.exec_batch(batch).unwrap();
    assert_eq!(db.len(), 4);
    assert_eq!(db.get(b"a/1"), None);
    assert_eq!(db.get(b"b/2"), Some(vec![5]));
    assert_eq!(
        db.iter_prefix(b"b/"),
        vec![(b"b/1".to_vec(), vec![3]), (b"b/2".to_vec(), vec![5])]
    );
    assert_eq!(db.iter_prefix(b"").len(), 4);
    assert_eq!(db.iter_prefix(b"zz"), Vec::new());

    db.freeze();
    let mut batch = Batch::new();
    batch.delete(b"c".to_vec());
    assert!(db.exec_batch(batch).is_err());
    assert_eq!(db.get(b"c"), Some(vec![6]));
}

#[test]
fn write_log_layers() {
    let mut log = WriteLog::new();
    let key = Key::parse("k").unwrap();
    assert_eq!(log.write(&key, vec![1, 2, 3]), 4);
    assert_eq!(log.delete(&Key::parse("gone").unwrap()), 4);
    assert_eq!(log.init_account(&Key::parse("acc").unwrap(), vec![9; 32]), 35);
    let (found, gas) = log.read(&key);
    assert!(matches!(found, Some(Modification::Write { value }) if value == &vec![1, 2, 3]));
    assert_eq!(gas, 4);
    let (found, gas) = log.read(&Key::parse("gone").unwrap());
    assert!(matches!(found, Some(Modification::Delete)));
    assert_eq!(gas, 4);
    let (found, gas) = log.read(&Key::parse("other").unwrap());
    assert!(found.is_none());
    assert_eq!(gas, 5);
    assert_eq!(log.tx_len(), 3);
    assert_eq!(log.block_len(), 0);
    log.commit_tx();
    assert_eq!(log.tx_len(), 0);
    assert_eq!(log.block_len(), 3);
    assert_eq!(log.block_key_at(0), &b"acc".to_vec());
    log.write(&key, vec![7]);
    assert!(matches!(log.get(b"k"), Some(Modification::Write { value }) if value == &vec![7]));
    log.drop_tx();
    assert!(matches!(log.get(b"k"), Some(Modification::Write { value }) if value == &vec![1, 2, 3]));
    log.clear();
    assert!(log.get(b"k").is_none());
}

#[test]
fn gas_is_counted_in_bytes() {
    assert_eq!(key_gas(0), 0);
    assert_eq!(key_gas(17), 17);
    assert_eq!(entry_gas(3, 8), 11);
    assert_eq!(add_gas(5, 6), 11);
    assert_eq!(add_gas(u64::MAX, 1), u64::MAX);
    assert_eq!(add_gas(u64::MAX - 1, 1), u64::MAX);
    assert_eq!(entry_gas(usize::MAX, usize::MAX), u64::MAX);
}

#[test]
fn error_messages() {
    let all = [
        Error::KeyParseError,
        Error::DecodeError,
        Error::PrunedHeightError,
        Error::NotYetCommittedError,
        Error::IoError,
        Error::ContractViolationError,
    ];
    for (i, a) in all.iter().enumerate() {
        assert!(!a.message().is_empty());
        for b in all.iter().skip(i + 1) {
            assert_ne!(a.message(), b.message());
        }
    }
    assert_eq!(Error::KeyParseError.message(), "malformed storage key");
}

#[test]
fn dummy_header_has_zero_hashes() {
    let before = std::time::SystemTime::now();
    let header = get_dummy_header();
    let after = std::time::SystemTime::now();
    assert_eq!(header.hash, [0u8; 32]);
    assert_eq!(header.next_validators_hash, [0u8; 32]);
    assert!(before <= header.time && header.time <= after);

    let mut storage = Storage::open(MemStore::new(), String::from("c"), String::from("n"), None);
    assert!(storage.get_block_header().is_none());
    storage.set_header(header);
    assert_eq!(storage.get_block_header().unwrap().hash, [0u8; 32]);
}

fn store_with(entries: &[(&[u8], &[u8])]) -> MemStore {
    let mut db = MemStore::new();
    let mut batch = Batch::new();
    for (k, v) in entries {
        batch.put(k.to_vec(), v.to_vec());
    }
    db.exec_batch(batch).unwrap();
    db
}

fn open(db: MemStore) -> Storage<MemStore> {
    Storage::open(db, String::from("c"), String::from("n"), None)
}

#[test]
fn unreadable_state_is_a_decode_error() {
    // the last height is not eight bytes
    let mut storage = open(store_with(&[(b"L", &[1, 2, 3])]));
    assert_eq!(storage.load_last_state(), Err(Error::DecodeError));
    assert_eq!(storage.get_state(), None);
    // the block hash is not 32 bytes
    let mut storage = open(store_with(&[(b"H", &[1, 2, 3])]));
    assert_eq!(storage.load_last_state(), Err(Error::DecodeError));
    // a leaf whose value is too short
    let mut leaf_key = vec![b't'];
    leaf_key.extend_from_slice(&[5u8; 32]);
    let mut storage = open(store_with(&[(&leaf_key, &[1u8; 31])]));
    assert_eq!(storage.load_last_state(), Err(Error::DecodeError));
    // a leaf whose key is too short
    let mut storage = open(store_with(&[(&leaf_key[..20], &[1u8; 32])]));
    assert_eq!(storage.load_last_state(), Err(Error::DecodeError));
    // a leaf that holds zero
    let mut storage = open(store_with(&[(&leaf_key, &[0u8; 32])]));
    assert_eq!(storage.load_last_state(), Err(Error::DecodeError));
    // a store that can be read
    let mut storage = open(store_with(&[
        (&leaf_key, &[1u8; 32]),
        (b"L", &encode_u64(7)),
        (b"E", &encode_u64(2)),
        (b"F", &encode_u64(3)),
        (b"A", &encode_u64(4)),
        (b"H", &[9u8; 32]),
    ]));
    assert_eq!(storage.load_last_state(), Ok(()));
    assert_eq!(storage.get_last_block_height(), Some(7));
    assert_eq!(storage.get_block_height(), 7);
    assert_eq!(storage.get_current_epoch(), 2);
    assert_eq!(storage.get_committed().floor, 3);
    assert_eq!(storage.get_committed().address_gen, 4);
    assert_eq!(storage.get_block_hash(), [9u8; 32]);
    assert_ne!(storage.merkle_root(), [0u8; 32]);
    assert_eq!(storage.next_address_index(), 4);
    assert_eq!(storage.next_address_index(), 5);
}

#[test]
fn unreadable_records_are_decode_errors() {
    let key = Key::parse("k").unwrap();
    let mut storage = open(MemStore::new());
    for height in [1u64, 2, 3] {
        storage.begin_block([0u8; 32], height).unwrap();
        storage.write(&key, encode_u64(height)).unwrap();
        storage.commit_block().unwrap();
    }
    assert_eq!(storage.read_with_height(&key, 1).unwrap().0, Some(encode_u64(1)));
    assert!(storage.get_merkle_tree(1).is_ok());
    let mut db = storage.close();

    // spoil what height 3 recorded for the key
    let mut record_key = vec![b'd'];
    record_key.extend_from_slice(&encode_u64(3));
    record_key.extend_from_slice(b"k");
    assert!(db.get(&record_key).is_some());
    let mut batch = Batch::new();
    batch.put(record_key, vec![7, 7]);
    db.exec_batch(batch).unwrap();
    let mut storage = open(db);
    storage.load_last_state().unwrap();
    assert_eq!(storage.read_with_height(&key, 1), Err(Error::DecodeError));
    assert_eq!(storage.read_with_height(&key, 3).unwrap().0, Some(encode_u64(3)));
    assert!(storage.get_merkle_tree(1).is_ok());
    let mut db = storage.close();

    // spoil the link from height 2
    let mut link_key = vec![b'p'];
    link_key.extend_from_slice(&encode_u64(2));
    assert_eq!(db.get(&link_key), Some(encode_u64(1)));
    let mut batch = Batch::new();
    batch.put(link_key, encode_u64(2));
    db.exec_batch(batch).unwrap();
    let mut storage = open(db);
    storage.load_last_state().unwrap();
    assert_eq!(storage.get_merkle_tree(1).err(), Some(Error::DecodeError));
    assert!(storage.get_merkle_tree(3).is_ok());
}

#[test]
fn typed_reads_surface_decode_errors() {
    let mut storage = open(MemStore::new());
    let number = Key::parse("number").unwrap();
    let text = Key::parse("text").unwrap();
    assert_eq!(storage.write_u64(&number, 77), Ok(14));
    storage.write(&text, b"not a number".to_vec()).unwrap();
    assert_eq!(storage.read_u64(&number), Ok((Some(77), 14)));
    assert_eq!(storage.read_u64(&text), Err(Error::DecodeError));
    assert_eq!(storage.read_u64(&Key::parse("none").unwrap()), Ok((None, 4)));
}

#[test]
fn batches_with_malformed_keys_are_refused_whole() {
    let mut storage = open(MemStore::new());
    let good = Key::parse("good").unwrap();
    let mut batch = Storage::<MemStore>::batch();
    assert_eq!(
        storage.batch_write_subspace_val(&mut batch, &good, vec![1]),
        Ok(5)
    );
    assert_eq!(storage.batch_delete_subspace_val(&mut batch, &good), Ok(4));
    batch.put(b"bad//key".to_vec(), vec![2]);
    assert_eq!(storage.exec_batch(batch), Err(Error::KeyParseError));
    assert_eq!(storage.read(&good).unwrap().0, None);
    assert_eq!(storage.get_chain_id(), "c");
    assert_eq!(storage.get_native_token(), "n");
}

#[test]
fn epochs_advance_once_per_block() {
    let mut storage = open(MemStore::new());
    assert_eq!(storage.new_epoch(), Err(Error::ContractViolationError));
    storage.begin_block([0u8; 32], 5).unwrap();
    assert_eq!(storage.get_current_epoch(), 0);
    storage.new_epoch().unwrap();
    assert_eq!(storage.get_current_epoch(), 1);
    assert_eq!(storage.new_epoch(), Err(Error::ContractViolationError));
    assert!(storage.get_block().new_epoch);
    storage.commit_block().unwrap();
    assert!(!storage.get_block().new_epoch);
    assert!(!storage.get_block().open);
    assert_eq!(storage.get_committed().last_epoch, 1);
}
