use ledger_storage::encoding::{decode_u64, encode_u64};
use ledger_storage::error::Error;
use ledger_storage::key::Key;
use ledger_storage::storage::Storage;
use ledger_storage::store::MemStore;

type PersistentStorage = Storage<MemStore>;

fn open(db: MemStore, retain_epochs: Option<u64>) -> PersistentStorage {
    Storage::open(db, String::from("test-chain"), String::from("nam"), retain_epochs)
}

fn block_hash() -> [u8; 32] {
    [0u8; 32]
}

/// A segment for an integer, such that segments sort as the integers do.
fn int_segment(i: i32) -> String {
    format!("{:010}", (i as i64) - (i32::MIN as i64))
}

#[test]
fn test_crud_value() {
    let mut storage = open(MemStore::new(), None);
    let key = Key::parse("key").expect("cannot parse the key string");
    let value: u64 = 1;
    let value_bytes = encode_u64(value);
    let value_bytes_len = value_bytes.len();

    // before insertion
    let (result, gas) = storage.has_key(&key).expect("has_key failed");
    assert!(!result);
    assert_eq!(gas, key.len() as u64);
    let (result, gas) = storage.read(&key).expect("read failed");
    assert_eq!(result, None);
    assert_eq!(gas, key.len() as u64);

    // insert
    storage.write(&key, value_bytes).expect("write failed");

    // read
    let (result, gas) = storage.has_key(&key).expect("has_key failed");
    assert!(result);
    assert_eq!(gas, key.len() as u64);
    let (result, gas) = storage.read(&key).expect("read failed");
    let read_value: u64 =
        decode_u64(&result.expect("value doesn't exist")).expect("decoding failed");
    assert_eq!(read_value, value);
    assert_eq!(gas, key.len() as u64 + value_bytes_len as u64);

    // delete
    storage.delete(&key).expect("delete failed");

    // read again
    let (result, _) = storage.has_key(&key).expect("has_key failed");
    assert!(!result);
    let (result, _) = storage.read(&key).expect("read failed");
    assert_eq!(result, None);
}

#[test]
fn test_commit_block() {
    let mut storage = open(MemStore::new(), None);
    storage
        .begin_block(block_hash(), 100)
        .expect("begin_block failed");
    let key = Key::parse("key").expect("cannot parse the key string");
    let value: u64 = 1;
    let value_bytes = encode_u64(value);

    // insert and commit
    storage
        .write(&key, value_bytes.clone())
        .expect("write failed");
    storage.commit_block().expect("commit failed");

    // save the last state and the storage
    let root = storage.merkle_root();
    let hash = storage.get_block_hash();
    let address_gen = storage.get_committed().address_gen;
    let db = storage.close();

    // load the last state
    let mut storage = open(db, None);
    storage
        .load_last_state()
        .expect("loading the last state failed");
    let (loaded_root, height) = storage.get_state().expect("no block exists");
    assert_eq!(loaded_root, root);
    assert_eq!(height, 100);
    assert_eq!(storage.get_block_hash(), hash);
    assert_eq!(storage.get_committed().address_gen, address_gen);
    let (val, _) = storage.read(&key).expect("read failed");
    assert_eq!(val.expect("no value"), value_bytes);
}

#[test]
fn test_iter() {
    let mut storage = open(MemStore::new(), None);
    storage
        .begin_block(block_hash(), 100)
        .expect("begin_block failed");

    let mut expected = Vec::new();
    let prefix = Key::parse("prefix").expect("cannot parse the key string");
    for i in (0..9).rev() {
        let key = prefix
            .push(&format!("{}", i))
            .expect("cannot push the key segment");
        let value_bytes = encode_u64(i as u64);
        // insert
        storage
            .write(&key, value_bytes.clone())
            .expect("write failed");
        expected.push((key.as_bytes().to_vec(), value_bytes));
    }
    storage.commit_block().expect("commit failed");

    let (mut iter, gas) = storage.iter_prefix(&prefix);
    assert_eq!(gas, prefix.len() as u64);
    let mut seen = 0;
    while let Some((k, v, gas)) = iter.next() {
        match expected.pop() {
            Some((expected_key, expected_val)) => {
                assert_eq!(k, expected_key);
                assert_eq!(v, expected_val);
                let expected_gas = expected_key.len() + expected_val.len();
                assert_eq!(gas, expected_gas as u64);
            }
            None => panic!("read a pair though no expected pair"),
        }
        seen += 1;
    }
    assert_eq!(seen, 9);
}

#[test]
fn test_validity_predicate() {
    let mut storage = open(MemStore::new(), None);
    storage
        .begin_block(block_hash(), 100)
        .expect("begin_block failed");

    let addr = "test";
    let key = Key::validity_predicate(addr).expect("cannot build the key");

    // not exist
    let (vp, gas) = storage.validity_predicate(addr).expect("VP load failed");
    assert_eq!(vp, None);
    assert_eq!(gas, key.len() as u64);

    // insert
    let vp1 = ledger_storage::digest::PersistentStorageHasher::hash("vp1".as_bytes()).to_vec();
    storage.write(&key, vp1.clone()).expect("write failed");

    // check
    let (vp_code_hash, gas) = storage.validity_predicate(addr).expect("VP load failed");
    assert_eq!(vp_code_hash.expect("no VP"), vp1);
    assert_eq!(gas, (key.len() + vp1.len()) as u64);
}

#[test]
fn test_prune_merkle_tree_stores() {
    let mut storage = open(MemStore::new(), Some(1));
    storage
        .begin_block(block_hash(), 1)
        .expect("begin_block failed");

    let key = Key::parse("key").expect("cannot parse the key string");
    let value: u64 = 1;
    storage
        .write(&key, encode_u64(value))
        .expect("write failed");

    storage.new_epoch().expect("new epoch failed");
    storage.commit_block().expect("commit failed");

    storage
        .begin_block(block_hash(), 6)
        .expect("begin_block failed");

    let key = Key::parse("key2").expect("cannot parse the key string");
    let value: u64 = 2;
    storage
        .write(&key, encode_u64(value))
        .expect("write failed");

    storage.new_epoch().expect("new epoch failed");
    storage.commit_block().expect("commit failed");

    let result = storage.get_merkle_tree(1);
    assert!(result.is_ok(), "The tree at Height 1 should be restored");

    storage
        .begin_block(block_hash(), 11)
        .expect("begin_block failed");
    storage.new_epoch().expect("new epoch failed");
    storage.commit_block().expect("commit failed");

    let result = storage.get_merkle_tree(1);
    assert!(result.is_err(), "The tree at Height 1 should be pruned");
    let result = storage.get_merkle_tree(5);
    assert!(
        result.is_err(),
        "The tree at Height 5 shouldn't be able to be restored"
    );
    let result = storage.get_merkle_tree(6);
    assert!(result.is_ok(), "The tree should be restored");
}

fn collect_prefix(storage: &PersistentStorage, prefix: &Key) -> Vec<(Vec<u8>, Vec<u8>)> {
    let (mut iter, _) = storage.iter_prefix(prefix);
    let (entries, _) = iter.collect();
    entries
}

fn expected_pairs(prefix: &Key, keys: &[i32]) -> Vec<(Vec<u8>, Vec<u8>)> {
    let mut sorted: Vec<i32> = keys.to_vec();
    sorted.sort();
    sorted
        .iter()
        .map(|i| {
            (
                prefix.push(&int_segment(*i)).unwrap().as_bytes().to_vec(),
                i.to_le_bytes().to_vec(),
            )
        })
        .collect()
}

#[test]
fn test_persistent_storage_prefix_iter() {
    let mut storage = open(MemStore::new(), None);

    let prefix = Key::parse("prefix").unwrap();
    let mismatched_prefix = Key::parse("different").unwrap();
    // We'll write sub-key in some random order to check prefix iter's order
    let sub_keys = [2_i32, -1, 260, -2, 5, 0];

    storage.begin_block(block_hash(), 1).unwrap();
    for i in sub_keys.iter() {
        let key = prefix.push(&int_segment(*i)).unwrap();
        storage.write(&key, i.to_le_bytes().to_vec()).unwrap();

        let key = mismatched_prefix.push(&int_segment(*i)).unwrap();
        storage.write(&key, (i / 2).to_le_bytes().to_vec()).unwrap();
    }

    // Then try to iterate over their prefix
    // The order has to be sorted by sub-key value
    let expected = expected_pairs(&prefix, &sub_keys);
    assert_eq!(collect_prefix(&storage, &prefix), expected);

    // Commit genesis state
    storage.commit_block().unwrap();

    // Again, try to iterate over their prefix
    assert_eq!(collect_prefix(&storage, &prefix), expected);

    let more_sub_keys = [1_i32, i32::MIN, -10, 123, i32::MAX, 10];
    assert!(
        !more_sub_keys.iter().any(|x| sub_keys.contains(x)),
        "assuming no repetition"
    );
    storage.begin_block(block_hash(), 2).unwrap();
    for i in more_sub_keys.iter() {
        let key = prefix.push(&int_segment(*i)).unwrap();
        storage.write(&key, i.to_le_bytes().to_vec()).unwrap();

        let key = mismatched_prefix.push(&int_segment(*i)).unwrap();
        storage.write(&key, (i / 2).to_le_bytes().to_vec()).unwrap();
    }

    // The order has to be sorted by sub-key value
    let mut merged: Vec<i32> = sub_keys.to_vec();
    merged.extend_from_slice(&more_sub_keys);
    let expected = expected_pairs(&prefix, &merged);
    assert_eq!(collect_prefix(&storage, &prefix), expected);

    // Delete some keys
    let delete_keys = [2, 0, -10, 123];
    for i in delete_keys.iter() {
        let key = prefix.push(&int_segment(*i)).unwrap();
        storage.delete(&key).unwrap();
    }

    // Check that iter_prefix doesn't return deleted keys anymore
    let kept: Vec<i32> = merged
        .iter()
        .copied()
        .filter(|x| !delete_keys.contains(x))
        .collect();
    let expected = expected_pairs(&prefix, &kept);
    assert_eq!(collect_prefix(&storage, &prefix), expected);

    // Commit genesis state
    storage.commit_block().unwrap();

    // And check again
    assert_eq!(collect_prefix(&storage, &prefix), expected);
}

#[test]
fn commit_without_block_is_refused() {
    let mut storage = open(MemStore::new(), None);
    assert_eq!(storage.commit_block(), Err(Error::ContractViolationError));
    storage.begin_block(block_hash(), 1).unwrap();
    assert_eq!(
        storage.begin_block(block_hash(), 2),
        Err(Error::ContractViolationError)
    );
    storage.commit_block().unwrap();
    // a height at or below the last committed one is refused
    assert_eq!(
        storage.begin_block(block_hash(), 1),
        Err(Error::ContractViolationError)
    );
    storage.begin_block(block_hash(), 2).unwrap();
}
