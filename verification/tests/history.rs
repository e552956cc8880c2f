use ledger_storage::digest::PersistentStorageHasher;
use ledger_storage::encoding::{decode_u64, encode_u64};
use ledger_storage::error::Error;
use ledger_storage::key::Key;
use ledger_storage::storage::Storage;
use ledger_storage::store::{Batch, ByteStore, IoError, MemStore};

fn open_with(db: MemStore, retain_epochs: Option<u64>) -> Storage<MemStore> {
    Storage::open(db, String::from("test-chain"), String::from("nam"), retain_epochs)
}

fn zero_hash() -> [u8; 32] {
    [0u8; 32]
}

/// Writes the height at every height where the flag is set, deletes the
/// key at the others, and reads every height back.
fn read_with_height_run(blocks_write_value: &[bool]) {
    let mut storage = open_with(MemStore::new(), None);
    let key = Key::parse("key").expect("cannot parse the key string");
    for (height, write_value) in blocks_write_value.iter().enumerate() {
        let height = height as u64;
        storage.begin_block(zero_hash(), height).unwrap();
        assert_eq!(height, storage.get_block_height());
        if *write_value {
            storage.write(&key, encode_u64(height)).unwrap();
        } else {
            storage.delete(&key).unwrap();
        }
        storage.commit_block().unwrap();
    }

    for (height, write_value) in blocks_write_value.iter().enumerate() {
        let height = height as u64;
        let (value_bytes, _gas) = storage.read_with_height(&key, height).unwrap();
        if *write_value {
            let value_bytes = value_bytes.expect("a value was written at this height");
            assert_eq!(decode_u64(&value_bytes), Some(height));
        } else {
            assert_eq!(value_bytes, None);
        }
    }

    // past the last height the latest state is read
    let last = storage.get_last_block_height().unwrap();
    let is_last_write = *blocks_write_value.last().unwrap();
    for height in last..last + 10 {
        let (value_bytes, _gas) = storage.read_with_height(&key, height).unwrap();
        if is_last_write {
            assert_eq!(decode_u64(&value_bytes.unwrap()), Some(last));
        } else {
            assert_eq!(value_bytes, None);
        }
    }
}

#[test]
fn test_read_with_height() {
    read_with_height_run(&[
        true, false, true, true, false, false, true, false, true, true, true, false, false, true,
        false, true, false, false, true, true,
    ]);
    read_with_height_run(&[false; 20]);
    read_with_height_run(&[true; 20]);
    read_with_height_run(&[
        false, true, false, true, false, true, false, true, false, true, false, true, false, true,
        false, true, false, true, false, false,
    ]);
}

#[test]
fn test_get_merkle_tree() {
    let write_types: [u64; 50] = [
        2, 0, 1, 4, 3, 0, 2, 2, 1, 0, 4, 4, 3, 1, 0, 2, 1, 0, 3, 4, 0, 0, 2, 1, 3, 4, 2, 0, 1, 3,
        1, 2, 4, 0, 3, 2, 2, 0, 4, 1, 3, 3, 0, 1, 2, 4, 1, 0, 2, 3,
    ];
    let num_keys = 5u64;
    let mut storage = open_with(MemStore::new(), None);
    let mut roots = std::collections::HashMap::new();

    // the initial state of the keys, written in the first block
    storage.begin_block(zero_hash(), 1).unwrap();
    for i in 0..num_keys {
        let key = Key::parse(&format!("key{}", i)).unwrap();
        storage.write(&key, encode_u64(0)).unwrap();
    }

    for (index, write_type) in write_types.iter().enumerate() {
        let height = index as u64 / num_keys + 1;
        let key = Key::parse(&format!("key{}", index as u64 % num_keys)).unwrap();
        if height != storage.get_block_height() {
            if storage.get_block_height() % 5 == 0 {
                storage.new_epoch().unwrap();
            }
            let committing = storage.get_block_height();
            storage.commit_block().unwrap();
            roots.insert(committing, storage.merkle_root());
            storage.begin_block(zero_hash(), height).unwrap();
        }
        let mut batch = Storage::<MemStore>::batch();
        match write_type {
            0 => {}
            1 => {
                storage.delete(&key).unwrap();
            }
            2 => {
                storage.write(&key, encode_u64(height)).unwrap();
            }
            3 => {
                storage.batch_delete_subspace_val(&mut batch, &key).unwrap();
            }
            _ => {
                storage
                    .batch_write_subspace_val(&mut batch, &key, encode_u64(height))
                    .unwrap();
            }
        }
        storage.exec_batch(batch).unwrap();
    }
    let committing = storage.get_block_height();
    storage.commit_block().unwrap();
    roots.insert(committing, storage.merkle_root());

    let mut current_state = std::collections::HashMap::new();
    for i in 0..num_keys {
        current_state.insert(format!("key{}", i), true);
    }
    for (index, write_type) in write_types.iter().enumerate() {
        let height = index as u64 / num_keys + 1;
        let name = format!("key{}", index as u64 % num_keys);
        let key = Key::parse(&name).unwrap();
        let wrote_last_in_block = index as u64 % num_keys == num_keys - 1;
        match write_type {
            0 => {}
            1 | 3 => {
                current_state.insert(name.clone(), false);
            }
            _ => {
                current_state.insert(name.clone(), true);
            }
        }
        if wrote_last_in_block {
            let tree = storage.get_merkle_tree(height).unwrap();
            assert_eq!(tree.root(), *roots.get(&height).unwrap());
            for i in 0..num_keys {
                let name = format!("key{}", i);
                let key = Key::parse(&name).unwrap();
                assert_eq!(tree.has_key(key.as_bytes()), *current_state.get(&name).unwrap());
            }
        }
        let _ = key;
    }
}

#[test]
fn tombstone_persists() {
    let mut storage = open_with(MemStore::new(), None);
    let key = Key::parse("a/b").unwrap();
    storage.begin_block(zero_hash(), 3).unwrap();
    storage.write(&key, vec![7, 7, 7]).unwrap();
    storage.commit_block().unwrap();
    storage.begin_block(zero_hash(), 8).unwrap();
    storage.delete(&key).unwrap();
    storage.commit_block().unwrap();

    assert_eq!(storage.read(&key).unwrap(), (None, 3));
    // as of every height from the write up to just below the delete
    for height in 3..8 {
        assert_eq!(
            storage.read_with_height(&key, height).unwrap(),
            (Some(vec![7, 7, 7]), 6)
        );
    }
    // before the write there was nothing
    assert_eq!(storage.read_with_height(&key, 2).unwrap(), (None, 3));
    assert_eq!(storage.read_with_height(&key, 8).unwrap(), (None, 3));
}

#[test]
fn frontier_reads_latest() {
    let mut storage = open_with(MemStore::new(), None);
    let key = Key::parse("frontier").unwrap();
    storage.begin_block(zero_hash(), 10).unwrap();
    storage.write(&key, vec![1]).unwrap();
    storage.commit_block().unwrap();
    storage.begin_block(zero_hash(), 20).unwrap();
    storage.write(&key, vec![2, 2]).unwrap();
    storage.commit_block().unwrap();
    let latest = storage.read_committed(&key).unwrap();
    assert_eq!(latest, (Some(vec![2, 2]), 10));
    for height in [20u64, 21, 1000, u64::MAX] {
        assert_eq!(storage.read_with_height(&key, height).unwrap(), latest);
    }
    assert_eq!(
        storage.read_with_height(&key, 19).unwrap(),
        (Some(vec![1]), 9)
    );
}

#[test]
fn root_is_independent_of_staging_order() {
    let keys = ["x", "y/z", "a", "m/n/o"];
    let mut first = open_with(MemStore::new(), None);
    first.begin_block(zero_hash(), 1).unwrap();
    for k in keys.iter() {
        first
            .write(&Key::parse(k).unwrap(), k.as_bytes().to_vec())
            .unwrap();
    }
    first.commit_block().unwrap();

    let mut second = open_with(MemStore::new(), None);
    second.begin_block(zero_hash(), 1).unwrap();
    // another order, with writes that are overwritten and a delete of a key
    // that is written again
    second
        .write(&Key::parse("a").unwrap(), vec![0, 1, 2])
        .unwrap();
    second.delete(&Key::parse("x").unwrap()).unwrap();
    for k in keys.iter().rev() {
        second
            .write(&Key::parse(k).unwrap(), k.as_bytes().to_vec())
            .unwrap();
    }
    second.commit_block().unwrap();

    assert_eq!(first.merkle_root(), second.merkle_root());
    assert_ne!(first.merkle_root(), [0u8; 32]);

    // a different state has a different root
    let mut third = open_with(MemStore::new(), None);
    third.begin_block(zero_hash(), 1).unwrap();
    third.write(&Key::parse("x").unwrap(), vec![1]).unwrap();
    third.commit_block().unwrap();
    assert_ne!(first.merkle_root(), third.merkle_root());
}

#[test]
fn prefix_iteration_order_and_gas() {
    let mut storage = open_with(MemStore::new(), None);
    let prefix = Key::parse("bucket").unwrap();
    let names = ["pear", "apple", "zebra", "mango", "fig"];
    for (n, name) in names.iter().enumerate() {
        let key = prefix.push(name).unwrap();
        storage.write(&key, vec![n as u8; n + 1]).unwrap();
    }
    // a key that only shares the bytes of the prefix is not below it
    storage
        .write(&Key::parse("bucketful/x").unwrap(), vec![9])
        .unwrap();
    storage.write(&Key::parse("bucket").unwrap(), vec![9]).unwrap();

    let (mut iter, prefix_gas) = storage.iter_prefix(&prefix);
    assert_eq!(prefix_gas, 6);
    let (entries, entries_gas) = iter.collect();
    let keys: Vec<String> = entries
        .iter()
        .map(|(k, _)| String::from_utf8(k.clone()).unwrap())
        .collect();
    assert_eq!(
        keys,
        vec![
            "bucket/apple",
            "bucket/fig",
            "bucket/mango",
            "bucket/pear",
            "bucket/zebra"
        ]
    );
    let sum: usize = entries.iter().map(|(k, v)| k.len() + v.len()).sum();
    assert_eq!(entries_gas, sum as u64);
    assert_eq!(prefix_gas + entries_gas, (6 + sum) as u64);
    // 12+2, 10+5, 12+4, 11+1, 12+3
    assert_eq!(sum, 72);
}

#[test]
fn pruning_boundary() {
    let mut storage = open_with(MemStore::new(), Some(1));
    let mut roots = Vec::new();
    for height in 1..=21u64 {
        storage.begin_block(zero_hash(), height).unwrap();
        if height % 5 == 1 {
            storage.new_epoch().unwrap();
        }
        let key = Key::parse(&format!("key{}", height % 5)).unwrap();
        storage.write(&key, encode_u64(height)).unwrap();
        storage.commit_block().unwrap();
        roots.push(storage.merkle_root());
    }
    assert_eq!(storage.get_current_epoch(), 5);
    assert_eq!(storage.get_committed().floor, 16);
    for height in 1..=15u64 {
        assert_eq!(
            storage.get_merkle_tree(height).err(),
            Some(Error::PrunedHeightError)
        );
    }
    for height in 16..=21u64 {
        let tree = storage.get_merkle_tree(height).unwrap();
        assert_eq!(tree.root(), roots[height as usize - 1]);
    }
    assert_eq!(
        storage.get_merkle_tree(22).err(),
        Some(Error::NotYetCommittedError)
    );
    // reads below the floor are refused, reads at or above it are answered
    let key = Key::parse("key1").unwrap();
    assert_eq!(
        storage.read_with_height(&key, 15),
        Err(Error::PrunedHeightError)
    );
    assert_eq!(
        storage.read_with_height(&key, 16).unwrap(),
        (Some(encode_u64(16)), 12)
    );
    assert_eq!(
        storage.read_with_height(&key, 20).unwrap(),
        (Some(encode_u64(16)), 12)
    );
    assert_eq!(
        storage.read_with_height(&key, 21).unwrap(),
        (Some(encode_u64(21)), 12)
    );
    // pruning again changes nothing
    let before = storage.get_committed();
    storage.prune_merkle_tree_stores(1).unwrap();
    assert_eq!(storage.get_committed().floor, before.floor);
    assert!(storage.get_merkle_tree(16).is_ok());
}

#[test]
fn concrete_scenario() {
    let mut storage = open_with(MemStore::new(), None);
    let hash0 = PersistentStorageHasher::hash(b"block 100");
    storage.begin_block(hash0, 100).unwrap();
    let key = Key::parse("key").unwrap();
    assert_eq!(storage.write(&key, encode_u64(1)), Ok(11));
    storage.commit_block().unwrap();
    let root = storage.merkle_root();
    assert_eq!(storage.get_state(), Some((root, 100)));

    let db = storage.close();
    let mut storage = open_with(db, None);
    assert_eq!(storage.get_state(), None);
    storage.load_last_state().unwrap();
    assert_eq!(storage.get_state(), Some((root, 100)));
    assert_eq!(storage.get_block_hash(), hash0);
    assert_eq!(storage.read(&key).unwrap(), (Some(encode_u64(1)), 11));
    assert_eq!(storage.read_u64(&key), Ok((Some(1), 11)));
    // loading again changes nothing
    storage.load_last_state().unwrap();
    assert_eq!(storage.get_state(), Some((root, 100)));
}

#[test]
fn rollback_discards_the_running_transaction() {
    let mut storage = open_with(MemStore::new(), None);
    storage.begin_block(zero_hash(), 1).unwrap();
    let kept = Key::parse("kept").unwrap();
    let dropped = Key::parse("dropped").unwrap();
    storage.write(&kept, vec![1]).unwrap();
    storage.commit_tx();
    storage.write(&dropped, vec![2]).unwrap();
    storage.delete(&kept).unwrap();
    assert_eq!(storage.read(&kept).unwrap().0, None);
    storage.drop_tx();
    assert_eq!(storage.read(&kept).unwrap().0, Some(vec![1]));
    assert_eq!(storage.read(&dropped).unwrap().0, None);
    storage.commit_block().unwrap();
    assert_eq!(storage.read_committed(&kept).unwrap().0, Some(vec![1]));
    assert_eq!(storage.has_key_committed(&dropped).unwrap(), (false, 7));
}

#[test]
fn reads_before_commit_leave_the_store_alone() {
    let mut storage = open_with(MemStore::new(), None);
    storage.begin_block(zero_hash(), 1).unwrap();
    let key = Key::parse("staged").unwrap();
    storage.write(&key, vec![4, 5]).unwrap();
    assert_eq!(storage.read(&key).unwrap(), (Some(vec![4, 5]), 8));
    assert_eq!(storage.read_committed(&key).unwrap(), (None, 6));
    assert_eq!(storage.merkle_root(), [0u8; 32]);
    let db = storage.close();
    assert_eq!(db.len(), 0);
}

#[test]
fn init_account_is_committed_as_a_value() {
    let mut storage = open_with(MemStore::new(), None);
    storage.begin_block(zero_hash(), 1).unwrap();
    let key = Key::validity_predicate("alice").unwrap();
    assert_eq!(key.as_bytes(), b"#alice/?");
    assert_eq!(storage.init_account(&key, vec![3; 32]), Ok(40));
    assert_eq!(storage.validity_predicate("alice").unwrap(), (Some(vec![3; 32]), 40));
    storage.commit_block().unwrap();
    assert_eq!(storage.read_committed(&key).unwrap(), (Some(vec![3; 32]), 40));
    assert_eq!(
        storage.validity_predicate("a/b").err(),
        Some(Error::KeyParseError)
    );
}

#[test]
fn store_failure_is_reported() {
    let mut db = MemStore::new();
    db.freeze();
    let mut storage = open_with(db, None);
    storage.begin_block(zero_hash(), 1).unwrap();
    storage.write(&Key::parse("k").unwrap(), vec![1]).unwrap();
    assert_eq!(storage.commit_block(), Err(Error::IoError));
    // nothing was committed
    assert_eq!(storage.get_state(), None);
    assert_eq!(
        storage.read_committed(&Key::parse("k").unwrap()).unwrap().0,
        None
    );
    assert_eq!(storage.close().len(), 0);
}

/// A store that holds nothing and refuses every batch.
struct BrokenStore;

impl ByteStore for BrokenStore {
    fn get(&self, _key: &[u8]) -> Option<Vec<u8>> {
        None
    }

    fn exec_batch(&mut self, _batch: Batch) -> Result<(), IoError> {
        Err(IoError {
            message: String::from("disk on fire"),
        })
    }

    fn iter_prefix(&self, _prefix: &[u8]) -> Vec<(Vec<u8>, Vec<u8>)> {
        Vec::new()
    }
}

#[test]
fn a_store_of_the_caller_can_fail() {
    let mut storage = Storage::open(BrokenStore, String::from("c"), String::from("n"), Some(3));
    storage.begin_block(zero_hash(), 1).unwrap();
    storage.new_epoch().unwrap();
    storage.write(&Key::parse("k").unwrap(), vec![1]).unwrap();
    assert_eq!(storage.commit_block(), Err(Error::IoError));
    assert!(storage.get_block().open);
    assert_eq!(storage.get_state(), None);
}

#[test]
fn store_images_round_trip() {
    let mut storage = open_with(MemStore::new(), None);
    for height in 1..4u64 {
        storage.begin_block(zero_hash(), height).unwrap();
        storage
            .write(&Key::parse(&format!("k/{}", height)).unwrap(), encode_u64(height))
            .unwrap();
        storage.commit_block().unwrap();
    }
    let root = storage.merkle_root();
    let db = storage.close();
    let image = db.to_bytes();
    let copy = MemStore::from_bytes(&image).expect("the image can be read");
    assert_eq!(copy.len(), db.len());
    assert_eq!(copy.to_bytes(), image);
    assert_eq!(db.duplicate().to_bytes(), image);

    let mut storage = open_with(copy, None);
    storage.load_last_state().unwrap();
    assert_eq!(storage.get_state(), Some((root, 3)));
    assert_eq!(
        storage.read_with_height(&Key::parse("k/2").unwrap(), 1).unwrap().0,
        None
    );

    // an empty image is an empty store
    assert_eq!(MemStore::from_bytes(&[]).unwrap().len(), 0);
    assert_eq!(MemStore::new().to_bytes(), Vec::<u8>::new());
    // one entry: key "a", value "xy"
    let one = [
        1, 0, 0, 0, 0, 0, 0, 0, b'a', 2, 0, 0, 0, 0, 0, 0, 0, b'x', b'y',
    ];
    let store = MemStore::from_bytes(&one).unwrap();
    assert_eq!(store.get(b"a"), Some(b"xy".to_vec()));
    assert_eq!(store.to_bytes(), one.to_vec());
    // cut short
    assert!(MemStore::from_bytes(&one[..18]).is_none());
    assert!(MemStore::from_bytes(&one[..5]).is_none());
    // out of order
    let mut twice = one.to_vec();
    twice.extend_from_slice(&one);
    assert!(MemStore::from_bytes(&twice).is_none());
}

#[test]
fn commit_leaves_pruning_to_the_caller() {
    let mut storage = open_with(MemStore::new(), Some(0));
    assert_eq!(storage.commit(), Err(Error::ContractViolationError));
    let key = Key::parse("k").unwrap();
    for height in [2u64, 4, 6] {
        storage.begin_block(zero_hash(), height).unwrap();
        storage.new_epoch().unwrap();
        storage.write(&key, encode_u64(height)).unwrap();
        storage.commit().unwrap();
    }
    // nothing was pruned
    assert_eq!(storage.get_committed().floor, 0);
    assert_eq!(storage.read_with_height(&key, 3).unwrap().0, Some(encode_u64(2)));
    assert_eq!(storage.read_with_height(&key, 1).unwrap().0, None);
    let records_before = storage.get_merkle_tree(2).unwrap().root();

    // keep one epoch besides the current one: the floor moves to the
    // first height of epoch 2
    storage.prune_merkle_tree_stores(1).unwrap();
    assert_eq!(storage.get_committed().floor, 4);
    assert_eq!(
        storage.read_with_height(&key, 3),
        Err(Error::PrunedHeightError)
    );
    assert_eq!(storage.read_with_height(&key, 4).unwrap().0, Some(encode_u64(4)));
    assert_eq!(storage.read_with_height(&key, 5).unwrap().0, Some(encode_u64(4)));
    assert_eq!(
        storage.get_merkle_tree(2).err(),
        Some(Error::PrunedHeightError)
    );
    let tree = storage.get_merkle_tree(4).unwrap();
    assert_ne!(tree.root(), records_before);
    assert_eq!(
        storage.get_merkle_tree(6).unwrap().root(),
        storage.merkle_root()
    );
    // a window that covers all epochs prunes nothing more
    storage.prune_merkle_tree_stores(7).unwrap();
    assert_eq!(storage.get_committed().floor, 4);
    // the floor outlives a restart
    let mut storage = storage.reopen().unwrap();
    assert_eq!(storage.get_committed().floor, 4);
    assert_eq!(storage.get_current_epoch(), 3);
    storage.begin_block(zero_hash(), 7).unwrap();
    storage.commit_block().unwrap();
    assert_eq!(storage.get_committed().floor, 4);
}

/// A store that takes a number of batches and refuses those after them.
struct TiringStore {
    inner: MemStore,
    batches_left: usize,
}

impl ByteStore for TiringStore {
    fn get(&self, key: &[u8]) -> Option<Vec<u8>> {
        self.inner.get(key)
    }

    fn exec_batch(&mut self, batch: Batch) -> Result<(), IoError> {
        if self.batches_left == 0 {
            return Err(IoError {
                message: String::from("out of space"),
            });
        }
        self.batches_left -= 1;
        self.inner.exec_batch(batch)
    }

    fn iter_prefix(&self, prefix: &[u8]) -> Vec<(Vec<u8>, Vec<u8>)> {
        self.inner.iter_prefix(prefix)
    }
}

fn three_epochs(batches: usize) -> Storage<TiringStore> {
    let db = TiringStore {
        inner: MemStore::new(),
        batches_left: batches,
    };
    let mut storage = Storage::open(db, String::from("c"), String::from("n"), Some(1));
    let key = Key::parse("k").unwrap();
    for height in [1u64, 6, 11] {
        storage.begin_block(zero_hash(), height).unwrap();
        storage.write(&key, encode_u64(height)).unwrap();
        storage.new_epoch().unwrap();
        storage.commit_block().expect("the block is committed");
    }
    storage
}

#[test]
fn pruning_that_fails_does_not_fail_the_commit() {
    // three commits, and a pruning after the second and after the third:
    // the store takes them all
    let storage = three_epochs(5);
    assert_eq!(storage.get_state().unwrap().1, 11);
    assert_eq!(storage.get_committed().floor, 6);
    assert_eq!(
        storage.get_merkle_tree(1).err(),
        Some(Error::PrunedHeightError)
    );

    // the store refuses the last pruning: the block is committed all the
    // same, and the history is kept as it was
    let mut storage = three_epochs(4);
    assert_eq!(storage.get_state().unwrap().1, 11);
    assert!(!storage.get_block().open);
    assert_eq!(storage.get_committed().floor, 1);
    assert!(storage.get_merkle_tree(1).is_ok());
    assert!(storage.get_merkle_tree(6).is_ok());
    let key = Key::parse("k").unwrap();
    assert_eq!(storage.read_with_height(&key, 1).unwrap().0, Some(encode_u64(1)));
    assert_eq!(storage.read_with_height(&key, 7).unwrap().0, Some(encode_u64(6)));
    assert_eq!(storage.read(&key).unwrap().0, Some(encode_u64(11)));
    // and the pruning can be asked for again
    assert_eq!(storage.prune_merkle_tree_stores(1), Err(Error::IoError));
}

#[test]
fn a_restart_closes_the_block_at_the_last_commit() {
    let mut storage = open_with(MemStore::new(), None);
    let hash = [7u8; 32];
    storage.begin_block(hash, 5).unwrap();
    storage.new_epoch().unwrap();
    storage.write(&Key::parse("k").unwrap(), vec![1]).unwrap();
    storage.commit_block().unwrap();
    storage.begin_block([9u8; 32], 6).unwrap();
    storage.write(&Key::parse("k").unwrap(), vec![2]).unwrap();
    // the open block is lost with the restart
    let storage = storage.reopen().unwrap();
    let block = storage.get_block();
    assert!(!block.open);
    assert!(!block.new_epoch);
    assert_eq!(block.height, 5);
    assert_eq!(block.epoch, 1);
    assert_eq!(block.hash, hash);
    assert_eq!(storage.read(&Key::parse("k").unwrap()).unwrap().0, Some(vec![1]));
}

#[test]
fn every_retained_height_has_its_tree() {
    let mut storage = open_with(MemStore::new(), None);
    let mut roots = Vec::new();
    for height in 1..8u64 {
        storage.begin_block(zero_hash(), height).unwrap();
        storage.new_epoch().unwrap();
        storage
            .write(&Key::parse(&format!("k/{}", height % 3)).unwrap(), encode_u64(height))
            .unwrap();
        storage.commit().unwrap();
        roots.push(storage.merkle_root());
    }
    storage.prune_merkle_tree_stores(2).unwrap();
    let floor = storage.get_committed().floor;
    assert_eq!(floor, 5);
    for height in 1..8u64 {
        let tree = storage.get_merkle_tree(height);
        if height < floor {
            assert_eq!(tree.err(), Some(Error::PrunedHeightError));
        } else {
            assert_eq!(tree.unwrap().root(), roots[height as usize - 1]);
        }
    }
}
