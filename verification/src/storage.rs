//! The storage core: it owns the byte store, the write log and the live
//! Merkle tree, drives the life of a block from `begin_block` to
//! `commit_block`, and answers reads of the current and of earlier states.

use crate::bytes::{clone_bytes, has_prefix, suffix_bytes};
use crate::commit::{
    above, block_ops, committed, entry_ops, leaf_value, log_ops, BlockInfo, Changes,
};
use crate::digest::{
    digest_from_bytes, is_zero_digest, storage_digest, zero_digest, Digest, PersistentStorageHasher,
};
use crate::encoding::{decode_u64, encode_u64, lemma_u64_bytes, u64_bytes};
use crate::error::Error;
use crate::gas::{entry_gas, gas_of, key_gas};
use crate::header::Header;
use crate::key::{is_key_string, SEPARATOR, Key};
use crate::layout::{
    current, current_key, decode_old_bytes, decode_step_bytes, encode_old, height_key, held_at,
    leaves_ns, lemma_current_key_injective, lemma_current_key_prefix, lemma_key_shapes,
    make_current_key, make_height_key, make_old_key, make_single_key, read_old, rollback,
    single_key, TAG_ADDRESS_GEN, TAG_EPOCH, TAG_EPOCH_START, TAG_FLOOR, TAG_HASH, TAG_LAST,
    TAG_LEAF, TAG_LEAF_OLD, TAG_PREV, TAG_VALUE, TAG_VALUE_OLD, values_ns, OldRecord,
};
use crate::merkle::{root_of_leaves, Leaves, MerkleTree};
use crate::ordered::{
    lemma_sorted_entry, lemma_sorted_prefix_step, lemma_sorted_unique, seq_to_map, sorted,
    OrderedMap,
};
use crate::prefix_iter::{dir_of, PrefixIter};
use crate::prune::{lemma_prune_ops, prune_ops, pruned, stage_stale};
use crate::snapshot::{
    leaf_records_ok, leaves_at, leaves_ok, lemma_same_reads, live_leaves, load_leaves, undo_leaves,
    undone, walk_ok,
};
use crate::soundness::{
    entry_sized, lemma_commit_keeps_loadable, lemma_commit_keeps_sound, lemma_prune_keeps_sound,
    law_retained_rebuildable, lemma_prune_keeps_walkable, lemma_tree_follows, sound,
};
use crate::store::{is_listing, opt_view, pairs_view, prefix_part, Batch, ByteStore, Contents, Op};
use crate::write_log::{
    lookup, overlay, staged_value, Modification, ModificationView, Staged, WriteLog,
};
use vstd::bytes::spec_u64_from_le_bytes;
use vstd::prelude::*;
use vstd::string::StringSliceAdditionalSpecFns;

verus! {

/// The block that is being built, or that was built last.
#[derive(Clone, Copy, Debug)]
pub struct BlockState {
    /// Whether a block is open.
    pub open: bool,
    pub height: u64,
    pub hash: Digest,
    pub epoch: u64,
    /// Whether the block is the first of its epoch.
    pub new_epoch: bool,
}

/// What the engine remembers of the blocks committed so far.
#[derive(Clone, Copy, Debug)]
pub struct Committed {
    pub last_height: Option<u64>,
    pub last_epoch: u64,
    /// The lowest height whose records are retained.
    pub floor: u64,
    pub address_gen: u64,
}

/// What an engine is told from outside and does not change by itself: what
/// it was opened with, and the header that was set last.
pub struct Setup {
    /// How many epochs of records are kept besides the current one, if
    /// pruning is on.
    pub retain_epochs: Option<u64>,
    pub chain_id: Seq<char>,
    pub native_token: Seq<char>,
    pub header: Option<Header>,
}

/// The changes of a write log as the list that a commit walks: in
/// ascending key order.
pub open spec fn sorted_changes(entries: Staged) -> Changes {
    choose|c: Changes| sorted(c) && seq_to_map(c) == entries
}

/// The leaves of a tree after the changes of a block, applied in order.
pub open spec fn tree_after(leaves: Leaves, changes: Changes) -> Leaves
    decreases changes.len(),
{
    if changes.len() == 0 {
        leaves
    } else {
        let before = tree_after(leaves, changes.drop_last());
        let leaf = storage_digest(changes.last().0);
        match leaf_value(staged_value(changes.last().1)) {
            Some(v) => before.insert(leaf, v),
            None => before.remove(leaf),
        }
    }
}

/// The records that lead back to `height` have been pruned.
pub open spec fn is_pruned(done: Committed, height: u64) -> bool {
    done.last_height matches Some(l) && height < l && height < done.floor
}

/// No block has been committed, or `height` is above the last one.
pub open spec fn not_yet(done: Committed, height: u64) -> bool {
    match done.last_height {
        Some(l) => height > l,
        None => true,
    }
}

/// What a stored integer says: `Some(None)` where there is none, `None`
/// where it cannot be read.
pub open spec fn read_u64(b: Option<Seq<u8>>) -> Option<Option<u64>> {
    match b {
        None => Some(None),
        Some(x) => if x.len() == 8 {
            Some(Some(spec_u64_from_le_bytes(x)))
        } else {
            None
        },
    }
}

pub open spec fn stored_u64(db: Contents, tag: u8) -> Option<Option<u64>> {
    read_u64(db.get(single_key(tag)))
}

/// The stored hash of the last block; zero where there is none, `None`
/// where it cannot be read.
pub open spec fn stored_hash(db: Contents) -> Option<Seq<u8>> {
    match db.get(single_key(TAG_HASH)) {
        None => Some(zero_digest()),
        Some(b) => if b.len() == 32 {
            Some(b)
        } else {
            None
        },
    }
}

/// What the store says of the blocks committed so far can be read.
pub open spec fn meta_ok(db: Contents) -> bool {
    &&& stored_u64(db, TAG_LAST) is Some
    &&& stored_u64(db, TAG_EPOCH) is Some
    &&& stored_u64(db, TAG_FLOOR) is Some
    &&& stored_u64(db, TAG_ADDRESS_GEN) is Some
    &&& stored_hash(db) is Some
}

pub open spec fn or_zero(v: Option<Option<u64>>) -> u64 {
    match v {
        Some(Some(x)) => x,
        _ => 0,
    }
}

/// What the store says of the blocks committed so far.
pub open spec fn stored_done(db: Contents) -> Committed {
    Committed {
        last_height: match stored_u64(db, TAG_LAST) {
            Some(l) => l,
            None => None,
        },
        last_epoch: or_zero(stored_u64(db, TAG_EPOCH)),
        floor: or_zero(stored_u64(db, TAG_FLOOR)),
        address_gen: or_zero(stored_u64(db, TAG_ADDRESS_GEN)),
    }
}

/// The state of a store can be loaded.
pub open spec fn loadable(db: Contents) -> bool {
    meta_ok(db) && leaves_ok(db)
}

/// The tree of `height` can be rebuilt from the store.
pub open spec fn rebuildable(db: Contents, height: u64, last: u64) -> bool {
    leaves_ok(db) && walk_ok(db, height, last)
}

fn stored<S: ByteStore>(db: &S, tag: u8) -> (r: Result<Option<u64>, Error>)
    requires
        db.wf(),
    ensures
        match r {
            Ok(v) => stored_u64(db.contents(), tag) == Some(v),
            Err(e) => e == Error::DecodeError && stored_u64(db.contents(), tag) is None,
        },
{
    match db.get(make_single_key(tag).as_slice()) {
        None => Ok(None),
        Some(b) => match decode_u64(b.as_slice()) {
            Some(v) => {
                proof {
                    lemma_u64_bytes(v);
                }
                Ok(Some(v))
            },
            None => Err(Error::DecodeError),
        },
    }
}

fn value_or_zero(v: Option<u64>) -> (r: u64)
    ensures
        r == or_zero(Some(v)),
{
    match v {
        Some(x) => x,
        None => 0,
    }
}

/// Where the leaf records of a height can be read, a rollback over the
/// height takes a leaf to what the records say it held before.
pub proof fn lemma_undone_step(db: Contents, g: u64, leaf: Seq<u8>, after: Option<Seq<u8>>)
    requires
        leaf_records_ok(db, g),
    ensures
        read_old(db, TAG_LEAF_OLD, g, leaf) != OldRecord::Corrupt,
        undone(db, g, leaf, after) == (match read_old(db, TAG_LEAF_OLD, g, leaf) {
            OldRecord::Was(held) => held,
            _ => after,
        }),
{
    lemma_key_shapes(TAG_LEAF_OLD, g, leaf);
    let k = crate::layout::old_key(TAG_LEAF_OLD, g, leaf);
    if db.contains_key(k) {
        assert(crate::snapshot::leaf_record_entry_ok(k, db[k]));
    }
}

/// The floor that a pruning moves to: the first height of the oldest
/// epoch that is kept. `Some(None)` where nothing is to be pruned, `None`
/// where the record of that epoch cannot be read.
pub open spec fn prune_target(db: Contents, epoch: u64, retain: u64, floor: u64) -> Option<
    Option<u64>,
> {
    if epoch < retain {
        Some(None)
    } else {
        match read_u64(db.get(height_key(TAG_EPOCH_START, (epoch - retain) as u64))) {
            None => None,
            Some(None) => Some(None),
            Some(Some(f)) => if f > floor {
                Some(Some(f))
            } else {
                Some(None)
            },
        }
    }
}

pub open spec fn after_prune(db: Contents, target: Option<Option<u64>>) -> Contents {
    match target {
        Some(Some(f)) => pruned(db, f),
        _ => db,
    }
}

pub open spec fn floor_after(floor: u64, target: Option<Option<u64>>) -> u64 {
    match target {
        Some(Some(f)) => f,
        _ => floor,
    }
}

/// The pruning that follows a commit: one is due where the block opened
/// an epoch and pruning is on.
pub open spec fn due_target(
    db: Contents,
    block: BlockState,
    retain: Option<u64>,
    floor: u64,
) -> Option<Option<u64>> {
    match retain {
        Some(k) => if block.new_epoch {
            prune_target(db, block.epoch, k, floor)
        } else {
            Some(None)
        },
        None => Some(None),
    }
}

/// What a pass over the keys below `prefix` sees: every key there that a
/// read finds a value under, with that value.
pub open spec fn visible_under(db: Contents, log: Staged, prefix: Seq<u8>) -> Contents {
    Map::new(
        |k: Seq<u8>| dir_of(prefix).is_prefix_of(k) && visible(db, log, k) is Some,
        |k: Seq<u8>| visible(db, log, k)->Some_0,
    )
}

/// What a key below `dir` holds once some staged changes are laid over
/// what it held.
pub open spec fn laid_over(
    dir: Seq<u8>,
    held: Option<Seq<u8>>,
    changes: Staged,
    key: Seq<u8>,
) -> Option<Seq<u8>> {
    if dir.is_prefix_of(key) {
        overlay(held, lookup(changes, key))
    } else {
        None
    }
}

/// Lays the staged changes below `dir` over the entries of a map.
fn lay_over(
    entries: &mut OrderedMap<Vec<u8>>,
    dir: &Vec<u8>,
    key: &Vec<u8>,
    m: &crate::write_log::Modification,
)
    requires
        old(entries).wf(),
    ensures
        final(entries).wf(),
        forall|k: Seq<u8>| #[trigger]
            final(entries)@.get(k) == (if k == key@ && dir@.is_prefix_of(k) {
                staged_value(m@)
            } else {
                old(entries)@.get(k)
            }),
{
    if has_prefix(key.as_slice(), dir.as_slice()) {
        match m.value() {
            Some(v) => {
                entries.insert(clone_bytes(key.as_slice()), clone_bytes(v.as_slice()));
            },
            None => {
                entries.remove(key.as_slice());
            },
        }
    }
}

/// The change that a batched operation stages.
pub open spec fn op_change(value: Option<Seq<u8>>) -> ModificationView {
    match value {
        Some(v) => ModificationView::Write { value: v },
        None => ModificationView::Delete,
    }
}

/// The staged changes after the operations of a batch, staged in order.
pub open spec fn staged_after(log: Staged, ops: Seq<Op>) -> Staged
    decreases ops.len(),
{
    if ops.len() == 0 {
        log
    } else {
        staged_after(log, ops.drop_last()).insert(ops.last().0, op_change(ops.last().1))
    }
}

/// Every operation of a batch names a well-formed storage key.
pub open spec fn keys_ok(ops: Seq<Op>) -> bool {
    forall|i: int| 0 <= i < ops.len() ==> is_key_string(#[trigger] ops[i].0)
}

/// The block and the committed state fit together: an open block lies
/// above the last committed height, and its epoch is the last committed
/// one, or the next where the block opens a new epoch.
pub open spec fn in_step(block: BlockState, done: Committed) -> bool {
    &&& block.open ==> above(done.last_height, block.height)
    &&& block.new_epoch ==> block.open && block.epoch == done.last_epoch + 1
    &&& !block.new_epoch ==> block.epoch == done.last_epoch
}

/// What a read through the write log sees under `key`.
pub open spec fn visible(db: Contents, log: Staged, key: Seq<u8>) -> Option<Seq<u8>> {
    overlay(current(db, values_ns(), key), lookup(log, key))
}

/// The cost of a read: the key, and the value where one is found.
pub open spec fn value_gas(key: Seq<u8>, value: Option<Seq<u8>>) -> u64 {
    match value {
        Some(v) => gas_of(key.len() + v.len()),
        None => gas_of(key.len()),
    }
}

pub struct Storage<S: ByteStore> {
    db: S,
    write_log: WriteLog,
    tree: MerkleTree,
    block: BlockState,
    done: Committed,
    retain_epochs: Option<u64>,
    chain_id: String,
    native_token: String,
    header: Option<Header>,
}

impl<S: ByteStore> Storage<S> {
    pub closed spec fn wf(&self) -> bool {
        self.db.wf() && self.write_log.wf()
    }

    /// What the byte store holds.
    pub closed spec fn db(&self) -> Contents {
        self.db.contents()
    }

    /// The staged changes: those of the running transaction over those
    /// that earlier transactions of the block have made.
    pub open spec fn log(&self) -> Staged {
        self.promoted().union_prefer_right(self.running())
    }

    /// The leaves of the live Merkle tree.
    pub closed spec fn leaves(&self) -> Leaves {
        self.tree.leaves()
    }

    pub closed spec fn block(&self) -> BlockState {
        self.block
    }

    pub closed spec fn done(&self) -> Committed {
        self.done
    }

    /// What the engine was told from outside.
    pub closed spec fn setup(&self) -> Setup {
        Setup {
            retain_epochs: self.retain_epochs,
            chain_id: self.chain_id@,
            native_token: self.native_token@,
            header: self.header,
        }
    }

    /// How many epochs of records are kept besides the current one, if
    /// pruning is on.
    pub open spec fn retain(&self) -> Option<u64> {
        self.setup().retain_epochs
    }

    pub open spec fn chain_id_spec(&self) -> Seq<char> {
        self.setup().chain_id
    }

    pub open spec fn native_token_spec(&self) -> Seq<char> {
        self.setup().native_token
    }

    /// The open block as a commit sees it.
    pub open spec fn block_info(&self) -> BlockInfo {
        BlockInfo {
            height: self.block().height,
            prev: self.done().last_height,
            epoch: self.block().epoch,
            hash: self.block().hash@,
            new_epoch: self.block().new_epoch,
            address_gen: self.done().address_gen,
        }
    }

    /// Opens the engine over a byte store. Nothing is read from the store
    /// yet: the engine starts out as over an empty one.
    pub fn open(db: S, chain_id: String, native_token: String, retain_epochs: Option<u64>) -> (r:
        Self)
        requires
            db.wf(),
        ensures
            r.wf(),
            r.db() == db.contents(),
            r.log() == Map::<Seq<u8>, ModificationView>::empty(),
            r.leaves() == crate::merkle::no_leaves(),
            r.block() == (BlockState {
                open: false,
                height: 0,
                hash: r.block().hash,
                epoch: 0,
                new_epoch: false,
            }),
            r.block().hash@ == zero_digest(),
            r.done() == (Committed { last_height: None, last_epoch: 0, floor: 0, address_gen: 0 }),
            r.setup() == (Setup {
                retain_epochs,
                chain_id: chain_id@,
                native_token: native_token@,
                header: None,
            }),
            db.contents() == Map::<Seq<u8>, Seq<u8>>::empty() ==> r.synced() && sound(r.db()),
    {
        proof {
            crate::soundness::lemma_empty_sound();
        }
        let hash: Digest = [0u8; 32];
        assert(hash@ =~= zero_digest());
        let r = Storage {
            db,
            write_log: WriteLog::new(),
            tree: MerkleTree::new(),
            block: BlockState { open: false, height: 0, hash, epoch: 0, new_epoch: false },
            done: Committed { last_height: None, last_epoch: 0, floor: 0, address_gen: 0 },
            retain_epochs,
            chain_id,
            native_token,
            header: None,
        };
        assert(r.log() =~= Map::<Seq<u8>, ModificationView>::empty());
        r
    }

    /// Closes the engine and opens it again over the same byte store, as a
    /// restart does: what was staged is gone, and the last committed state
    /// is loaded from the store. Refused where the store cannot be read.
    pub fn reopen(self) -> (r: Result<Self, Error>)
        requires
            self.wf(),
        ensures
            match r {
                Ok(next) => next.wf() && next.db() == self.db() && next.synced() && next.log()
                    == Map::<Seq<u8>, ModificationView>::empty() && next.setup() == (Setup {
                    header: None,
                    ..self.setup()
                }) && next.block() == (BlockState {
                    open: false,
                    height: match next.done().last_height {
                        Some(l) => l,
                        None => 0,
                    },
                    hash: next.block().hash,
                    epoch: next.done().last_epoch,
                    new_epoch: false,
                }) && Some(next.block().hash@) == stored_hash(self.db()) && (self.synced()
                    ==> next.leaves() == self.leaves() && next.done() == self.done()),
                Err(e) => e == Error::DecodeError && !loadable(self.db()),
            },
    {
        let chain_id = self.chain_id.clone();
        let native_token = self.native_token.clone();
        let retain_epochs = self.retain_epochs;
        let mut next = Storage::open(self.db, chain_id, native_token, retain_epochs);
        match next.load_last_state() {
            Ok(_) => Ok(next),
            Err(e) => Err(e),
        }
    }

    /// Gives the byte store back.
    pub fn close(self) -> (db: S)
        requires
            self.wf(),
        ensures
            db.wf(),
            db.contents() == self.db(),
    {
        self.db
    }

    /// Opens a block. Refused while a block is open, and for a height that
    /// is not above the last committed one. The write log starts out empty.
    pub fn begin_block(&mut self, hash: Digest, height: u64) -> (r: Result<(), Error>)
        requires
            old(self).wf(),
        ensures
            final(self).wf(),
            final(self).db() == old(self).db(),
            final(self).leaves() == old(self).leaves(),
            final(self).done() == old(self).done(),
            final(self).setup() == old(self).setup(),
            r is Err <==> (old(self).block().open || (old(self).done().last_height matches Some(l)
                && height <= l)),
            match r {
                Ok(_) => final(self).block() == (BlockState {
                    open: true,
                    height,
                    hash,
                    epoch: old(self).block().epoch,
                    new_epoch: false,
                }) && final(self).log() == Map::<Seq<u8>, ModificationView>::empty(),
                Err(e) => e == Error::ContractViolationError
                    && final(self).block() == old(self).block()
                    && final(self).log() == old(self).log(),
            },
    {
        if self.block.open {
            return Err(Error::ContractViolationError);
        }
        match self.done.last_height {
            Some(l) => {
                if height <= l {
                    return Err(Error::ContractViolationError);
                }
            },
            None => {},
        }
        self.write_log.clear();
        self.block = BlockState {
            open: true,
            height,
            hash,
            epoch: self.block.epoch,
            new_epoch: false,
        };
        assert(self.log() =~= Map::<Seq<u8>, ModificationView>::empty());
        Ok(())
    }

    /// Makes the open block the first of the next epoch. Refused without
    /// an open block, twice in one block, and past the last epoch that a
    /// `u64` can count.
    pub fn new_epoch(&mut self) -> (r: Result<(), Error>)
        requires
            old(self).wf(),
        ensures
            final(self).wf(),
            final(self).db() == old(self).db(),
            final(self).leaves() == old(self).leaves(),
            final(self).log() == old(self).log(),
            final(self).done() == old(self).done(),
            final(self).setup() == old(self).setup(),
            r is Err <==> (!old(self).block().open || old(self).block().new_epoch
                || old(self).block().epoch == u64::MAX),
            match r {
                Ok(_) => final(self).block() == (BlockState {
                    epoch: (old(self).block().epoch + 1) as u64,
                    new_epoch: true,
                    ..old(self).block()
                }),
                Err(e) => e == Error::ContractViolationError && final(self).block() == old(self).block(),
            },
    {
        if !self.block.open || self.block.new_epoch || self.block.epoch == u64::MAX {
            return Err(Error::ContractViolationError);
        }
        self.block.epoch = self.block.epoch + 1;
        self.block.new_epoch = true;
        Ok(())
    }

    /// Stages a write. Costs the length of the key and of the value.
    pub fn write(&mut self, key: &Key, value: Vec<u8>) -> (r: Result<u64, Error>)
        requires
            old(self).wf(),
        ensures
            final(self).wf(),
            final(self).db() == old(self).db(),
            final(self).leaves() == old(self).leaves(),
            final(self).block() == old(self).block(),
            final(self).done() == old(self).done(),
            final(self).setup() == old(self).setup(),
            final(self).log() == old(self).log().insert(
                key@,
                ModificationView::Write { value: value@ },
            ),
            final(self).running() == old(self).running().insert(
                key@,
                ModificationView::Write { value: value@ },
            ),
            final(self).promoted() == old(self).promoted(),
            r == Ok::<u64, Error>(gas_of(key@.len() + value@.len())),
    {
        let gas = self.write_log.write(key, value);
        assert(self.log() =~= old(self).log().insert(
            key@,
            ModificationView::Write { value: value@ },
        ));
        Ok(gas)
    }

    /// Stages a delete. Costs the length of the key.
    pub fn delete(&mut self, key: &Key) -> (r: Result<u64, Error>)
        requires
            old(self).wf(),
        ensures
            final(self).wf(),
            final(self).db() == old(self).db(),
            final(self).leaves() == old(self).leaves(),
            final(self).block() == old(self).block(),
            final(self).done() == old(self).done(),
            final(self).setup() == old(self).setup(),
            final(self).log() == old(self).log().insert(key@, ModificationView::Delete),
            final(self).running() == old(self).running().insert(key@, ModificationView::Delete),
            final(self).promoted() == old(self).promoted(),
            r == Ok::<u64, Error>(gas_of(key@.len())),
    {
        let gas = self.write_log.delete(key);
        assert(self.log() =~= old(self).log().insert(key@, ModificationView::Delete));
        Ok(gas)
    }

    /// Stages the validity predicate of a new account under `key`. Costs
    /// the length of the key and of the code hash.
    pub fn init_account(&mut self, key: &Key, vp_code_hash: Vec<u8>) -> (r: Result<u64, Error>)
        requires
            old(self).wf(),
        ensures
            final(self).wf(),
            final(self).db() == old(self).db(),
            final(self).leaves() == old(self).leaves(),
            final(self).block() == old(self).block(),
            final(self).done() == old(self).done(),
            final(self).setup() == old(self).setup(),
            final(self).log() == old(self).log().insert(
                key@,
                ModificationView::InitAccount { vp_code_hash: vp_code_hash@ },
            ),
            final(self).running() == old(self).running().insert(
                key@,
                ModificationView::InitAccount { vp_code_hash: vp_code_hash@ },
            ),
            final(self).promoted() == old(self).promoted(),
            r == Ok::<u64, Error>(gas_of(key@.len() + vp_code_hash@.len())),
    {
        let gas = self.write_log.init_account(key, vp_code_hash);
        assert(self.log() =~= old(self).log().insert(
            key@,
            ModificationView::InitAccount { vp_code_hash: vp_code_hash@ },
        ));
        Ok(gas)
    }

    /// What `key` holds in the committed state. Costs the length of the
    /// key, and of the value where one is found.
    pub fn read_committed(&self, key: &Key) -> (r: Result<(Option<Vec<u8>>, u64), Error>)
        requires
            self.wf(),
        ensures
            match r {
                Ok((value, gas)) => opt_view(value) == current(self.db(), values_ns(), key@) && gas
                    == value_gas(key@, opt_view(value)),
                Err(_) => false,
            },
    {
        let value = self.db.get(make_current_key(TAG_VALUE, key.as_bytes()).as_slice());
        let gas = match &value {
            Some(v) => entry_gas(key.len(), v.len()),
            None => key_gas(key.len()),
        };
        Ok((value, gas))
    }

    /// Whether `key` holds a value in the committed state. Costs the
    /// length of the key.
    pub fn has_key_committed(&self, key: &Key) -> (r: Result<(bool, u64), Error>)
        requires
            self.wf(),
        ensures
            r == Ok::<(bool, u64), Error>(
                (current(self.db(), values_ns(), key@) is Some, gas_of(key@.len())),
            ),
    {
        let value = self.db.get(make_current_key(TAG_VALUE, key.as_bytes()).as_slice());
        Ok((value.is_some(), key_gas(key.len())))
    }

    /// What `key` holds: what is staged for it, else what is committed.
    /// Costs the length of the key, and of the value where one is found.
    pub fn read(&self, key: &Key) -> (r: Result<(Option<Vec<u8>>, u64), Error>)
        requires
            self.wf(),
        ensures
            match r {
                Ok((value, gas)) => opt_view(value) == visible(self.db(), self.log(), key@) && gas
                    == value_gas(key@, opt_view(value)),
                Err(_) => false,
            },
    {
        match self.write_log.get(key.as_bytes()) {
            Some(m) => match m.value() {
                Some(v) => Ok((Some(clone_bytes(v.as_slice())), entry_gas(key.len(), v.len()))),
                None => Ok((None, key_gas(key.len()))),
            },
            None => self.read_committed(key),
        }
    }

    /// Whether `key` holds a value, staged or committed. Costs the length
    /// of the key.
    pub fn has_key(&self, key: &Key) -> (r: Result<(bool, u64), Error>)
        requires
            self.wf(),
        ensures
            r == Ok::<(bool, u64), Error>(
                (visible(self.db(), self.log(), key@) is Some, gas_of(key@.len())),
            ),
    {
        match self.write_log.get(key.as_bytes()) {
            Some(m) => Ok((m.value().is_some(), key_gas(key.len()))),
            None => self.has_key_committed(key),
        }
    }

    /// Promotes the changes of the running transaction to the block.
    pub fn commit_tx(&mut self)
        requires
            old(self).wf(),
        ensures
            final(self).wf(),
            final(self).db() == old(self).db(),
            final(self).leaves() == old(self).leaves(),
            final(self).block() == old(self).block(),
            final(self).done() == old(self).done(),
            final(self).setup() == old(self).setup(),
            final(self).log() == old(self).log(),
            final(self).running() == Map::<Seq<u8>, ModificationView>::empty(),
    {
        self.write_log.commit_tx();
    }

    /// Discards the changes of the running transaction.
    pub fn drop_tx(&mut self)
        requires
            old(self).wf(),
        ensures
            final(self).wf(),
            final(self).db() == old(self).db(),
            final(self).leaves() == old(self).leaves(),
            final(self).block() == old(self).block(),
            final(self).done() == old(self).done(),
            final(self).setup() == old(self).setup(),
            final(self).log() == old(self).promoted(),
            final(self).promoted() == old(self).promoted(),
            final(self).running() == Map::<Seq<u8>, ModificationView>::empty(),
    {
        self.write_log.drop_tx();
    }

    /// The changes of the running transaction.
    pub closed spec fn running(&self) -> Staged {
        self.write_log.tx_entries()
    }

    /// The changes that committed transactions of the block have made.
    pub closed spec fn promoted(&self) -> Staged {
        self.write_log.block_entries()
    }

    /// All that is staged can be listed in ascending key order.
    pub proof fn lemma_log_listable(&self)
        requires
            self.wf(),
        ensures
            crate::ordered::listable(self.log()),
    {
        self.write_log.lemma_entries_listable();
    }

    /// Flushes the staged changes and the block's own records to the byte
    /// store as one batch, and brings the live tree up to date.
    fn commit_changes(&mut self) -> (r: Result<(), Error>)
        requires
            old(self).wf(),
        ensures
            final(self).wf(),
            final(self).setup() == old(self).setup(),
            final(self).block() == old(self).block(),
            r is Ok && old(self).synced() && old(self).block().open ==> loadable(final(self).db())
                && final(self).leaves() == live_leaves(final(self).db()) && final(self).done()
                == stored_done(final(self).db()) && (sound(old(self).db()) ==> sound(
                final(self).db(),
            )),
            match r {
                Ok(_) => final(self).db() == committed(
                    old(self).db(),
                    old(self).block_info(),
                    sorted_changes(old(self).log()),
                ) && final(self).leaves() == tree_after(
                    old(self).leaves(),
                    sorted_changes(old(self).log()),
                ) && final(self).done() == (Committed {
                    last_height: Some(old(self).block().height),
                    last_epoch: old(self).block().epoch,
                    ..old(self).done()
                }) && final(self).log() == Map::<Seq<u8>, ModificationView>::empty(),
                Err(e) => e == Error::IoError && final(self).db() == old(self).db()
                    && final(self).done() == old(self).done()
                    && final(self).log() == old(self).log()
                    && (old(self).synced() ==> final(self).leaves() == old(self).leaves()),
            },
    {
        self.write_log.commit_tx();
        let g = self.block.height;
        let n = self.write_log.block_len();
        let ghost db0 = self.db.contents();
        let ghost leaves0 = self.tree.leaves();
        let ghost changes = self.write_log.block_pairs();
        let ghost info = old(self).block_info();
        proof {
            self.write_log.lemma_block_sorted();
            let c = sorted_changes(old(self).log());
            assert(sorted(changes) && seq_to_map(changes) == old(self).log());
            lemma_sorted_unique(changes, c);
            assert(changes.subrange(0, 0) =~= Seq::<(Seq<u8>, ModificationView)>::empty());
        }
        let mut batch = Batch::new();
        let mut i: usize = 0;
        while i < n
            invariant
                i <= n,
                n == changes.len(),
                changes == self.write_log.block_pairs(),
                self.db.wf(),
                self.write_log.wf(),
                self.db.contents() == db0,
                self.block == old(self).block,
                self.done == old(self).done,
                self.setup() == old(self).setup(),
                g == self.block.height,
                batch.ops() == log_ops(db0, g, changes.subrange(0, i as int)),
                self.tree.leaves() == tree_after(leaves0, changes.subrange(0, i as int)),
                self.log() == old(self).log(),
                forall|j: int| 0 <= j < i ==> entry_sized(#[trigger] changes[j].0, changes[j].1),
            decreases n - i,
        {
            let key = self.write_log.block_key_at(i);
            let m = self.write_log.block_value_at(i);
            let ghost before = batch.ops();
            proof {
                assert(changes.subrange(0, i + 1).drop_last() =~= changes.subrange(0, i as int));
                assert(changes.subrange(0, i + 1).last() == changes[i as int]);
            }
            let value_key = make_current_key(TAG_VALUE, key.as_slice());
            let old_value = self.db.get(value_key.as_slice());
            batch.put(make_old_key(TAG_VALUE_OLD, g, key.as_slice()), encode_old(&old_value));
            let leaf = PersistentStorageHasher::hash(key.as_slice());
            let mut leaf_now: Digest = [0u8; 32];
            assert(leaf_now@ =~= zero_digest());
            match m.value() {
                Some(v) => {
                    batch.put(value_key, clone_bytes(v.as_slice()));
                    leaf_now = PersistentStorageHasher::hash(v.as_slice());
                },
                None => {
                    batch.delete(value_key);
                },
            }
            let leaf_key = make_current_key(TAG_LEAF, &leaf);
            let old_leaf = self.db.get(leaf_key.as_slice());
            batch.put(make_old_key(TAG_LEAF_OLD, g, &leaf), encode_old(&old_leaf));
            if is_zero_digest(&leaf_now) {
                batch.delete(leaf_key);
            } else {
                batch.put(leaf_key, clone_bytes(&leaf_now));
            }
            self.tree.set_leaf(&leaf, &leaf_now);
            proof {
                assert(batch.ops() =~= before + entry_ops(
                    db0,
                    g,
                    changes[i as int].0,
                    changes[i as int].1,
                ));
            }
            i += 1;
        }
        proof {
            assert(changes.subrange(0, n as int) =~= changes);
        }
        let ghost staged_ops = batch.ops();
        let prev_key = make_height_key(TAG_PREV, g);
        match self.done.last_height {
            Some(l) => {
                batch.put(prev_key, encode_u64(l));
            },
            None => {
                batch.delete(prev_key);
            },
        }
        batch.put(make_single_key(TAG_LAST), encode_u64(g));
        batch.put(make_single_key(TAG_EPOCH), encode_u64(self.block.epoch));
        batch.put(make_single_key(TAG_HASH), clone_bytes(&self.block.hash));
        batch.put(make_single_key(TAG_ADDRESS_GEN), encode_u64(self.done.address_gen));
        if self.block.new_epoch {
            batch.put(make_height_key(TAG_EPOCH_START, self.block.epoch), encode_u64(g));
        }
        proof {
            assert(batch.ops() =~= staged_ops + block_ops(info));
        }
        match self.db.exec_batch(batch) {
            Ok(_) => {},
            Err(_) => {
                // the store is as it was: the live tree goes back to its leaves
                match load_leaves(&self.db) {
                    Ok(tree) => {
                        self.tree = tree;
                    },
                    Err(_) => {},
                }
                return Err(Error::IoError);
            },
        }
        self.write_log.clear();
        self.done.last_height = Some(g);
        self.done.last_epoch = self.block.epoch;
        proof {
            assert(self.log() =~= Map::<Seq<u8>, ModificationView>::empty());
            if old(self).synced() && old(self).block().open {
                lemma_tree_follows(db0, info, changes, leaves0);
                lemma_commit_keeps_loadable(db0, info, changes);
                if sound(db0) {
                    lemma_commit_keeps_sound(db0, info, changes);
                }
            }
        }
        Ok(())
    }

    /// What `key` held as of `height`. At or past the last committed
    /// height that is what it holds in the committed state now; below it,
    /// what the records of the heights above `height` lead back to. Costs
    /// the length of the key, and of the value where one is found.
    pub fn read_with_height(&self, key: &Key, height: u64) -> (r: Result<
        (Option<Vec<u8>>, u64),
        Error,
    >)
        requires
            self.wf(),
        ensures
            match r {
                Ok((value, gas)) => !is_pruned(self.done(), height) && held_at(
                    self.db(),
                    values_ns(),
                    key@,
                    height,
                    self.done().last_height,
                ) == Some(opt_view(value)) && gas == value_gas(key@, opt_view(value)),
                Err(e) => if is_pruned(self.done(), height) {
                    e == Error::PrunedHeightError
                } else {
                    e == Error::DecodeError && held_at(
                        self.db(),
                        values_ns(),
                        key@,
                        height,
                        self.done().last_height,
                    ) is None
                },
            },
    {
        let last = match self.done.last_height {
            Some(l) => l,
            None => {
                return self.read_committed(key);
            },
        };
        if height >= last {
            return self.read_committed(key);
        }
        if height < self.done.floor {
            return Err(Error::PrunedHeightError);
        }
        let mut held = self.db.get(make_current_key(TAG_VALUE, key.as_bytes()).as_slice());
        let ghost db = self.db.contents();
        let ghost goal = rollback(db, TAG_VALUE_OLD, key@, height, last, opt_view(held));
        let mut g = last;
        let mut walking = true;
        while walking
            invariant
                self.db.wf(),
                db == self.db.contents(),
                walking ==> height < g <= last && goal == rollback(
                    db,
                    TAG_VALUE_OLD,
                    key@,
                    height,
                    g,
                    opt_view(held),
                ),
                !walking ==> goal == Some(opt_view(held)),
                !is_pruned(self.done(), height),
                goal == held_at(self.db(), values_ns(), key@, height, self.done().last_height),
            decreases g + (if walking { 1int } else { 0int }),
        {
            match self.db.get(make_old_key(TAG_VALUE_OLD, g, key.as_bytes()).as_slice()) {
                Some(b) => match decode_old_bytes(b.as_slice()) {
                    Some(was) => {
                        held = was;
                    },
                    None => {
                        return Err(Error::DecodeError);
                    },
                },
                None => {},
            }
            match self.db.get(make_height_key(TAG_PREV, g).as_slice()) {
                Some(b) => match decode_step_bytes(b.as_slice(), g) {
                    Some(p) => {
                        if p > height {
                            g = p;
                        } else {
                            assert(rollback(db, TAG_VALUE_OLD, key@, height, p, opt_view(held))
                                == Some(opt_view(held)));
                            walking = false;
                        }
                    },
                    None => {
                        return Err(Error::DecodeError);
                    },
                },
                None => {
                    walking = false;
                },
            }
        }
        let gas = match &held {
            Some(v) => entry_gas(key.len(), v.len()),
            None => key_gas(key.len()),
        };
        Ok((held, gas))
    }

    /// What the engine holds in memory is what the store says: the live
    /// tree has the stored leaves, and the last block is the stored one.
    pub open spec fn synced(&self) -> bool {
        &&& loadable(self.db())
        &&& self.leaves() == live_leaves(self.db())
        &&& self.done() == stored_done(self.db())
        &&& in_step(self.block(), self.done())
    }

    /// Reads the last committed state back from the byte store: the last
    /// height, epoch and block hash, the retention floor, the address
    /// generator's counter, and the leaves of the tree. Nothing is replayed.
    pub fn load_last_state(&mut self) -> (r: Result<(), Error>)
        requires
            old(self).wf(),
        ensures
            final(self).wf(),
            final(self).db() == old(self).db(),
            final(self).log() == old(self).log(),
            final(self).setup() == old(self).setup(),
            match r {
                Ok(_) => final(self).synced() && final(self).block() == (BlockState {
                    open: false,
                    height: match final(self).done().last_height {
                        Some(l) => l,
                        None => 0,
                    },
                    hash: final(self).block().hash,
                    epoch: final(self).done().last_epoch,
                    new_epoch: false,
                }) && Some(final(self).block().hash@) == stored_hash(old(self).db()),
                Err(e) => e == Error::DecodeError && !loadable(old(self).db())
                    && final(self).leaves() == old(self).leaves()
                    && final(self).block() == old(self).block()
                    && final(self).done() == old(self).done(),
            },
    {
        let last = match stored(&self.db, TAG_LAST) {
            Ok(v) => v,
            Err(e) => {
                return Err(e);
            },
        };
        let epoch = match stored(&self.db, TAG_EPOCH) {
            Ok(v) => value_or_zero(v),
            Err(e) => {
                return Err(e);
            },
        };
        let floor = match stored(&self.db, TAG_FLOOR) {
            Ok(v) => value_or_zero(v),
            Err(e) => {
                return Err(e);
            },
        };
        let address_gen = match stored(&self.db, TAG_ADDRESS_GEN) {
            Ok(v) => value_or_zero(v),
            Err(e) => {
                return Err(e);
            },
        };
        let mut hash: Digest = [0u8; 32];
        assert(hash@ =~= zero_digest());
        match self.db.get(make_single_key(TAG_HASH).as_slice()) {
            None => {},
            Some(b) => match digest_from_bytes(b.as_slice()) {
                Some(d) => {
                    hash = d;
                },
                None => {
                    return Err(Error::DecodeError);
                },
            },
        }
        let tree = match load_leaves(&self.db) {
            Ok(t) => t,
            Err(e) => {
                return Err(e);
            },
        };
        self.tree = tree;
        self.done = Committed { last_height: last, last_epoch: epoch, floor, address_gen };
        self.block = BlockState {
            open: false,
            height: match last {
                Some(l) => l,
                None => 0,
            },
            hash,
            epoch,
            new_epoch: false,
        };
        Ok(())
    }

    /// The Merkle tree as of `height`: the tree of the last commit at or
    /// below it, rebuilt from the stored leaves and the records of the
    /// heights above `height`.
    pub fn get_merkle_tree(&self, height: u64) -> (r: Result<MerkleTree, Error>)
        requires
            self.wf(),
        ensures
            self.synced() && sound(self.db()) && !not_yet(self.done(), height) && height
                >= self.done().floor ==> r is Ok,
            match r {
                Ok(tree) => !not_yet(self.done(), height) && height >= self.done().floor
                    && rebuildable(self.db(), height, self.done().last_height->Some_0)
                    && tree.leaves() == leaves_at(self.db(), height, self.done().last_height),
                Err(e) => if not_yet(self.done(), height) {
                    e == Error::NotYetCommittedError
                } else if height < self.done().floor {
                    e == Error::PrunedHeightError
                } else {
                    e == Error::DecodeError && !rebuildable(
                        self.db(),
                        height,
                        self.done().last_height->Some_0,
                    )
                },
            },
    {
        let last = match self.done.last_height {
            Some(l) => l,
            None => {
                return Err(Error::NotYetCommittedError);
            },
        };
        if height > last {
            return Err(Error::NotYetCommittedError);
        }
        if height < self.done.floor {
            return Err(Error::PrunedHeightError);
        }
        proof {
            if self.synced() && sound(self.db()) {
                law_retained_rebuildable(self.db(), height);
            }
        }
        let mut tree = match load_leaves(&self.db) {
            Ok(t) => t,
            Err(e) => {
                return Err(e);
            },
        };
        let ghost db = self.db.contents();
        let mut g = last;
        let mut walking = height < last;
        proof {
            assert forall|leaf: Seq<u8>| #[trigger]
                tree.leaves().get(leaf) == current(db, leaves_ns(), leaf) by {}
        }
        while walking
            invariant
                self.db.wf(),
                db == self.db.contents(),
                leaves_ok(db),
                height <= last,
                self.done().last_height == Some(last),
                height >= self.done().floor,
                self.synced() && sound(self.db()) ==> rebuildable(db, height, last),
                walking ==> height < g <= last && walk_ok(db, height, last) == walk_ok(
                    db,
                    height,
                    g,
                ),
                walking ==> forall|leaf: Seq<u8>| #[trigger]
                    rollback(db, TAG_LEAF_OLD, leaf, height, last, current(db, leaves_ns(), leaf))
                        == rollback(db, TAG_LEAF_OLD, leaf, height, g, tree.leaves().get(leaf)),
                !walking ==> walk_ok(db, height, last) && forall|leaf: Seq<u8>| #[trigger]
                    rollback(db, TAG_LEAF_OLD, leaf, height, last, current(db, leaves_ns(), leaf))
                        == Some(tree.leaves().get(leaf)),
            decreases g + (if walking { 1int } else { 0int }),
        {
            let ghost before = tree.leaves();
            match undo_leaves(&self.db, &mut tree, g) {
                Ok(_) => {},
                Err(e) => {
                    return Err(e);
                },
            }
            let ghost after = tree.leaves();
            proof {
                assert forall|leaf: Seq<u8>| #[trigger]
                    after.get(leaf) == undone(db, g, leaf, before.get(leaf)) by {}
            }
            match self.db.get(make_height_key(TAG_PREV, g).as_slice()) {
                Some(b) => match decode_step_bytes(b.as_slice(), g) {
                    Some(p) => {
                        proof {
                            assert forall|leaf: Seq<u8>| #[trigger]
                                rollback(
                                    db,
                                    TAG_LEAF_OLD,
                                    leaf,
                                    height,
                                    last,
                                    current(db, leaves_ns(), leaf),
                                ) == rollback(db, TAG_LEAF_OLD, leaf, height, p, after.get(leaf)) by {
                                lemma_undone_step(db, g, leaf, before.get(leaf));
                                assert(after.get(leaf) == undone(db, g, leaf, before.get(leaf)));
                            }
                        }
                        if p > height {
                            g = p;
                        } else {
                            proof {
                                assert(walk_ok(db, height, p));
                                assert(walk_ok(db, height, g));
                                assert forall|leaf: Seq<u8>| #[trigger]
                                    rollback(
                                        db,
                                        TAG_LEAF_OLD,
                                        leaf,
                                        height,
                                        last,
                                        current(db, leaves_ns(), leaf),
                                    ) == Some(after.get(leaf)) by {
                                    assert(rollback(
                                        db,
                                        TAG_LEAF_OLD,
                                        leaf,
                                        height,
                                        p,
                                        after.get(leaf),
                                    ) == Some(after.get(leaf)));
                                }
                            }
                            walking = false;
                        }
                    },
                    None => {
                        return Err(Error::DecodeError);
                    },
                },
                None => {
                    proof {
                        assert(walk_ok(db, height, g));
                        assert forall|leaf: Seq<u8>| #[trigger]
                            rollback(
                                db,
                                TAG_LEAF_OLD,
                                leaf,
                                height,
                                last,
                                current(db, leaves_ns(), leaf),
                            ) == Some(after.get(leaf)) by {
                            lemma_undone_step(db, g, leaf, before.get(leaf));
                            assert(after.get(leaf) == undone(db, g, leaf, before.get(leaf)));
                        }
                    }
                    walking = false;
                },
            }
        }
        proof {
            assert forall|leaf: Seq<u8>| #[trigger]
                tree.leaves().get(leaf) == leaves_at(db, height, Some(last)).get(leaf) by {
                assert(rollback(
                    db,
                    TAG_LEAF_OLD,
                    leaf,
                    height,
                    last,
                    current(db, leaves_ns(), leaf),
                ) == Some(tree.leaves().get(leaf)));
            }
            lemma_same_reads(tree.leaves(), leaves_at(db, height, Some(last)));
        }
        Ok(tree)
    }

    /// Drops the records of the epochs that lie more than `retain_epochs`
    /// before the current one: the floor moves up to the first height of
    /// the oldest epoch that is kept. Where that is no higher than the
    /// floor, nothing happens.
    pub fn prune_merkle_tree_stores(&mut self, retain_epochs: u64) -> (r: Result<(), Error>)
        requires
            old(self).wf(),
        ensures
            final(self).wf(),
            final(self).leaves() == old(self).leaves(),
            final(self).log() == old(self).log(),
            final(self).block() == old(self).block(),
            final(self).setup() == old(self).setup(),
            old(self).synced() ==> final(self).synced(),
            old(self).synced() && sound(old(self).db()) ==> sound(final(self).db()),
            prune_target(
                old(self).db(),
                old(self).block().epoch,
                retain_epochs,
                old(self).done().floor,
            ) == Some(None::<u64>) ==> r is Ok,
            prune_target(
                old(self).db(),
                old(self).block().epoch,
                retain_epochs,
                old(self).done().floor,
            ) is None ==> r is Err,
            ({
                let target = prune_target(
                    old(self).db(),
                    old(self).block().epoch,
                    retain_epochs,
                    old(self).done().floor,
                );
                match r {
                    Ok(_) => target is Some && final(self).db() == after_prune(
                        old(self).db(),
                        target,
                    ) && final(self).done() == (Committed {
                        floor: floor_after(old(self).done().floor, target),
                        ..old(self).done()
                    }),
                    Err(e) => final(self).db() == old(self).db()
                        && final(self).done() == old(self).done() && (match target {
                        None => e == Error::DecodeError,
                        Some(Some(_)) => e == Error::IoError,
                        Some(None) => false,
                    }),
                }
            }),
    {
        if self.block.epoch < retain_epochs {
            return Ok(());
        }
        let oldest = self.block.epoch - retain_epochs;
        let floor = match self.db.get(make_height_key(TAG_EPOCH_START, oldest).as_slice()) {
            None => {
                return Ok(());
            },
            Some(b) => match decode_u64(b.as_slice()) {
                Some(f) => {
                    proof {
                        lemma_u64_bytes(f);
                    }
                    f
                },
                None => {
                    return Err(Error::DecodeError);
                },
            },
        };
        if floor <= self.done.floor {
            return Ok(());
        }
        let mut batch = Batch::new();
        let values = stage_stale(&self.db, TAG_VALUE_OLD, floor, &mut batch);
        let leaves = stage_stale(&self.db, TAG_LEAF_OLD, floor, &mut batch);
        let links = stage_stale(&self.db, TAG_PREV, floor, &mut batch);
        batch.put(make_single_key(TAG_FLOOR), encode_u64(floor));
        proof {
            assert(batch.ops() =~= prune_ops(values@, leaves@, links@, floor));
            lemma_prune_ops(self.db.contents(), values@, leaves@, links@, floor);
            if loadable(self.db.contents()) {
                lemma_prune_keeps_sound(self.db.contents(), floor);
            }
            if self.synced() && sound(self.db.contents()) {
                lemma_prune_keeps_walkable(self.db.contents(), floor);
            }
        }
        match self.db.exec_batch(batch) {
            Ok(_) => {},
            Err(_) => {
                return Err(Error::IoError);
            },
        }
        self.done.floor = floor;
        Ok(())
    }

    /// Commits the open block and leaves pruning to the caller: the staged
    /// changes and the block's own records go to the byte store as one
    /// batch, the live tree is brought up to date, and the block is closed.
    /// Refused where no block is open. Where the store refuses the batch,
    /// nothing is committed and the block stays open.
    pub fn commit(&mut self) -> (r: Result<(), Error>)
        requires
            old(self).wf(),
        ensures
            final(self).wf(),
            final(self).setup() == old(self).setup(),
            r is Ok && old(self).synced() ==> final(self).synced(),
            r is Ok && old(self).synced() && sound(old(self).db()) ==> sound(final(self).db()),
            !old(self).block().open ==> r == Err::<(), Error>(Error::ContractViolationError)
                && final(self).db() == old(self).db() && final(self).leaves() == old(self).leaves()
                && final(self).log() == old(self).log() && final(self).block() == old(self).block()
                && final(self).done() == old(self).done(),
            old(self).block().open ==> match r {
                Ok(_) => final(self).db() == committed(
                    old(self).db(),
                    old(self).block_info(),
                    sorted_changes(old(self).log()),
                ) && final(self).leaves() == tree_after(
                    old(self).leaves(),
                    sorted_changes(old(self).log()),
                ) && final(self).block() == (BlockState {
                    open: false,
                    new_epoch: false,
                    ..old(self).block()
                }) && final(self).done() == (Committed {
                    last_height: Some(old(self).block().height),
                    last_epoch: old(self).block().epoch,
                    ..old(self).done()
                }) && final(self).log() == Map::<Seq<u8>, ModificationView>::empty(),
                Err(e) => e == Error::IoError && final(self).db() == old(self).db()
                    && final(self).block() == old(self).block()
                    && final(self).done() == old(self).done()
                    && final(self).log() == old(self).log() && (old(self).synced()
                    ==> final(self).synced()),
            },
    {
        if !self.block.open {
            return Err(Error::ContractViolationError);
        }
        match self.commit_changes() {
            Ok(_) => {},
            Err(e) => {
                return Err(e);
            },
        }
        self.block.open = false;
        self.block.new_epoch = false;
        Ok(())
    }

    /// Commits the open block: the staged changes and the block's own
    /// records go to the byte store as one batch, the live tree is brought
    /// up to date, and the block is closed. Refused where no block is
    /// open; where the store refuses the batch, nothing is committed and
    /// the block stays open.
    ///
    /// Where the block opened an epoch and pruning is on, the records that
    /// fell out of the retention window are dropped afterwards, as far as
    /// that can be done: a pruning that fails leaves the committed block
    /// as it is, with the floor where it was, and does not fail the commit.
    pub fn commit_block(&mut self) -> (r: Result<(), Error>)
        requires
            old(self).wf(),
        ensures
            final(self).wf(),
            final(self).setup() == old(self).setup(),
            r is Ok && old(self).synced() ==> final(self).synced(),
            r is Ok && old(self).synced() && sound(old(self).db()) ==> sound(final(self).db()),
            !old(self).block().open ==> r == Err::<(), Error>(Error::ContractViolationError)
                && final(self).db() == old(self).db() && final(self).leaves() == old(self).leaves()
                && final(self).log() == old(self).log() && final(self).block() == old(self).block()
                && final(self).done() == old(self).done(),
            old(self).block().open ==> ({
                let after = committed(
                    old(self).db(),
                    old(self).block_info(),
                    sorted_changes(old(self).log()),
                );
                let target = due_target(
                    after,
                    old(self).block(),
                    old(self).retain(),
                    old(self).done().floor,
                );
                let closed = BlockState { open: false, new_epoch: false, ..old(self).block() };
                let done = Committed {
                    last_height: Some(old(self).block().height),
                    last_epoch: old(self).block().epoch,
                    ..old(self).done()
                };
                match r {
                    Ok(_) => final(self).leaves() == tree_after(
                        old(self).leaves(),
                        sorted_changes(old(self).log()),
                    ) && final(self).block() == closed && final(self).log() == Map::<
                        Seq<u8>,
                        ModificationView,
                    >::empty() && (match target {
                        Some(Some(f)) => (final(self).db() == pruned(after, f) && final(self).done() == (Committed { floor: f, ..done })) || (final(self).db() == after
                            && final(self).done() == done),
                        _ => final(self).db() == after && final(self).done() == done,
                    }),
                    Err(e) => e == Error::IoError && final(self).db() == old(self).db()
                        && final(self).block() == old(self).block()
                        && final(self).done() == old(self).done()
                        && final(self).log() == old(self).log()
                        && (old(self).synced() ==> final(self).synced()),
                }
            }),
    {
        let starts_epoch = self.block.new_epoch;
        match self.commit() {
            Ok(_) => {},
            Err(e) => {
                return Err(e);
            },
        }
        if starts_epoch {
            match self.retain_epochs {
                Some(k) => {
                    let _ = self.prune_merkle_tree_stores(k);
                },
                None => {},
            }
        }
        Ok(())
    }

    /// A pass over the keys below `prefix`, in ascending key order, as a
    /// read sees them: staged writes override what is committed, staged
    /// deletes hide it. Costs the length of the prefix up front, and each
    /// entry its own length as it is handed out.
    pub fn iter_prefix(&self, prefix: &Key) -> (r: (PrefixIter, u64))
        requires
            self.wf(),
        ensures
            r.0.wf(),
            sorted(r.0.remaining()),
            seq_to_map(r.0.remaining()) == visible_under(self.db(), self.log(), prefix@),
            r.1 == gas_of(prefix@.len()),
    {
        let mut dir = clone_bytes(prefix.as_bytes());
        dir.push(SEPARATOR);
        assert(dir@ =~= dir_of(prefix@));
        let store_prefix = make_current_key(TAG_VALUE, dir.as_slice());
        let listing = self.db.iter_prefix(store_prefix.as_slice());
        let ghost l = pairs_view(listing@);
        let ghost db = self.db.contents();
        let mut entries: OrderedMap<Vec<u8>> = OrderedMap::new();
        let n = listing.len();
        let mut i: usize = 0;
        proof {
            assert(l.subrange(0, 0) =~= Seq::<(Seq<u8>, Seq<u8>)>::empty());
        }
        while i < n
            invariant
                i <= n,
                n == listing@.len(),
                l == pairs_view(listing@),
                is_listing(db, current_key(TAG_VALUE, dir@), l),
                entries.wf(),
                forall|k: Seq<u8>| #[trigger]
                    entries@.get(k) == seq_to_map(l.subrange(0, i as int)).get(
                        current_key(TAG_VALUE, k),
                    ),
            decreases n - i,
        {
            let x = &listing[i].0;
            let v = &listing[i].1;
            proof {
                lemma_sorted_entry(l, i as int);
                lemma_sorted_prefix_step(l, i as int);
                assert(l[i as int] == (x@, v@));
                assert(prefix_part(db, current_key(TAG_VALUE, dir@)).contains_key(x@));
                lemma_key_shapes(TAG_VALUE, 0, dir@);
                assert(x@.subrange(0, (dir@.len() + 1) as int)[0] == current_key(TAG_VALUE, dir@)[0]);
            }
            let key = suffix_bytes(x.as_slice(), 1);
            let ghost before = entries@;
            entries.insert(clone_bytes(key.as_slice()), clone_bytes(v.as_slice()));
            proof {
                assert(x@ =~= current_key(TAG_VALUE, key@));
                assert forall|k: Seq<u8>| #[trigger]
                    entries@.get(k) == seq_to_map(l.subrange(0, i + 1)).get(
                        current_key(TAG_VALUE, k),
                    ) by {
                    assert(before.get(k) == seq_to_map(l.subrange(0, i as int)).get(
                        current_key(TAG_VALUE, k),
                    ));
                    if current_key(TAG_VALUE, k) == x@ {
                        lemma_current_key_injective(TAG_VALUE, k, key@);
                    }
                }
            }
            i += 1;
        }
        let ghost none = Map::<Seq<u8>, ModificationView>::empty();
        proof {
            assert(l.subrange(0, n as int) =~= l);
            assert forall|k: Seq<u8>| #[trigger]
                entries@.get(k) == laid_over(dir@, current(db, values_ns(), k), none, k) by {
                lemma_current_key_prefix(TAG_VALUE, dir@, k);
                assert(entries@.get(k) == seq_to_map(l).get(current_key(TAG_VALUE, k)));
            }
        }
        let ghost bp = self.write_log.block_pairs();
        let bn = self.write_log.block_len();
        let mut j: usize = 0;
        proof {
            self.write_log.lemma_block_sorted();
            assert(bp.subrange(0, 0) =~= Seq::<(Seq<u8>, ModificationView)>::empty());
            assert(seq_to_map(bp.subrange(0, 0)) =~= none);
        }
        while j < bn
            invariant
                j <= bn,
                bn == bp.len(),
                bp == self.write_log.block_pairs(),
                sorted(bp),
                entries.wf(),
                forall|k: Seq<u8>| #[trigger]
                    entries@.get(k) == laid_over(
                        dir@,
                        current(db, values_ns(), k),
                        seq_to_map(bp.subrange(0, j as int)),
                        k,
                    ),
            decreases bn - j,
        {
            let ghost before = entries@;
            proof {
                lemma_sorted_prefix_step(bp, j as int);
            }
            lay_over(
                &mut entries,
                &dir,
                self.write_log.block_key_at(j),
                self.write_log.block_value_at(j),
            );
            proof {
                assert forall|k: Seq<u8>| #[trigger]
                    entries@.get(k) == laid_over(
                        dir@,
                        current(db, values_ns(), k),
                        seq_to_map(bp.subrange(0, j + 1)),
                        k,
                    ) by {
                    assert(before.get(k) == laid_over(
                        dir@,
                        current(db, values_ns(), k),
                        seq_to_map(bp.subrange(0, j as int)),
                        k,
                    ));
                }
            }
            j += 1;
        }
        let ghost tp = self.write_log.tx_pairs();
        let tn = self.write_log.tx_len();
        let mut t: usize = 0;
        proof {
            assert(bp.subrange(0, bn as int) =~= bp);
            self.write_log.lemma_tx_pairs();
            assert(tp.subrange(0, 0) =~= Seq::<(Seq<u8>, ModificationView)>::empty());
            assert(seq_to_map(tp.subrange(0, 0)) =~= none);
        }
        while t < tn
            invariant
                t <= tn,
                tn == tp.len(),
                tp == self.write_log.tx_pairs(),
                sorted(tp),
                entries.wf(),
                forall|k: Seq<u8>| #[trigger]
                    entries@.get(k) == laid_over(
                        dir@,
                        laid_over(dir@, current(db, values_ns(), k), seq_to_map(bp), k),
                        seq_to_map(tp.subrange(0, t as int)),
                        k,
                    ),
            decreases tn - t,
        {
            let ghost before = entries@;
            proof {
                lemma_sorted_prefix_step(tp, t as int);
            }
            lay_over(
                &mut entries,
                &dir,
                self.write_log.tx_key_at(t),
                self.write_log.tx_value_at(t),
            );
            proof {
                assert forall|k: Seq<u8>| #[trigger]
                    entries@.get(k) == laid_over(
                        dir@,
                        laid_over(dir@, current(db, values_ns(), k), seq_to_map(bp), k),
                        seq_to_map(tp.subrange(0, t + 1)),
                        k,
                    ) by {
                    assert(before.get(k) == laid_over(
                        dir@,
                        laid_over(dir@, current(db, values_ns(), k), seq_to_map(bp), k),
                        seq_to_map(tp.subrange(0, t as int)),
                        k,
                    ));
                }
            }
            t += 1;
        }
        proof {
            assert(tp.subrange(0, tn as int) =~= tp);
            assert forall|k: Seq<u8>| #[trigger]
                entries@.get(k) == visible_under(db, self.log(), prefix@).get(k) by {
                assert(entries@.get(k) == laid_over(
                    dir@,
                    laid_over(dir@, current(db, values_ns(), k), seq_to_map(bp), k),
                    seq_to_map(tp),
                    k,
                ));
            }
            lemma_same_reads(entries@, visible_under(db, self.log(), prefix@));
        }
        (PrefixIter::new(entries), key_gas(prefix.len()))
    }

    /// A new, empty batch of writes and deletes.
    pub fn batch() -> (r: Batch)
        ensures
            r.ops() == Seq::<Op>::empty(),
    {
        Batch::new()
    }

    /// Adds a write to a batch. Costs the length of the key and of the
    /// value.
    pub fn batch_write_subspace_val(&self, batch: &mut Batch, key: &Key, value: Vec<u8>) -> (r:
        Result<u64, Error>)
        ensures
            final(batch).ops() == old(batch).ops().push((key@, Some(value@))),
            r == Ok::<u64, Error>(gas_of(key@.len() + value@.len())),
    {
        let gas = entry_gas(key.len(), value.len());
        batch.put(clone_bytes(key.as_bytes()), value);
        Ok(gas)
    }

    /// Adds a delete to a batch. Costs the length of the key.
    pub fn batch_delete_subspace_val(&self, batch: &mut Batch, key: &Key) -> (r: Result<u64, Error>)
        ensures
            final(batch).ops() == old(batch).ops().push((key@, None)),
            r == Ok::<u64, Error>(gas_of(key@.len())),
    {
        batch.delete(clone_bytes(key.as_bytes()));
        Ok(key_gas(key.len()))
    }

    /// Stages the operations of a batch, all or none: a batch that names a
    /// malformed key is refused whole. The Merkle tree is not touched
    /// before the block is committed.
    pub fn exec_batch(&mut self, batch: Batch) -> (r: Result<(), Error>)
        requires
            old(self).wf(),
        ensures
            final(self).wf(),
            final(self).db() == old(self).db(),
            final(self).leaves() == old(self).leaves(),
            final(self).block() == old(self).block(),
            final(self).done() == old(self).done(),
            final(self).setup() == old(self).setup(),
            final(self).promoted() == old(self).promoted(),
            match r {
                Ok(_) => keys_ok(batch.ops()) && final(self).log() == staged_after(
                    old(self).log(),
                    batch.ops(),
                ) && final(self).running() == staged_after(old(self).running(), batch.ops()),
                Err(e) => e == Error::KeyParseError && !keys_ok(batch.ops()) && final(self).log()
                    == old(self).log() && final(self).running() == old(self).running(),
            },
    {
        let n = batch.len();
        let mut i: usize = 0;
        while i < n
            invariant
                i <= n,
                n == batch.ops().len(),
                *self == *old(self),
                self.wf(),
                forall|j: int| 0 <= j < i ==> is_key_string(#[trigger] batch.ops()[j].0),
            decreases n - i,
        {
            match Key::from_bytes(batch.key_at(i).as_slice()) {
                Ok(_) => {},
                Err(e) => {
                    return Err(e);
                },
            }
            i += 1;
        }
        let mut j: usize = 0;
        proof {
            assert(batch.ops().subrange(0, 0) =~= Seq::<Op>::empty());
        }
        while j < n
            invariant
                j <= n,
                n == batch.ops().len(),
                keys_ok(batch.ops()),
                self.wf(),
                self.db() == old(self).db(),
                self.leaves() == old(self).leaves(),
                self.block() == old(self).block(),
                self.done() == old(self).done(),
                self.setup() == old(self).setup(),
                self.log() == staged_after(old(self).log(), batch.ops().subrange(0, j as int)),
                self.promoted() == old(self).promoted(),
                self.running() == staged_after(
                    old(self).running(),
                    batch.ops().subrange(0, j as int),
                ),
            decreases n - j,
        {
            proof {
                assert(batch.ops().subrange(0, j + 1).drop_last() =~= batch.ops().subrange(
                    0,
                    j as int,
                ));
                assert(batch.ops().subrange(0, j + 1).last() == batch.ops()[j as int]);
            }
            let ghost before = self.log();
            let key = clone_bytes(batch.key_at(j).as_slice());
            let m = match batch.value_at(j) {
                Some(v) => Modification::Write { value: clone_bytes(v.as_slice()) },
                None => Modification::Delete,
            };
            self.write_log.stage(key, m);
            proof {
                assert(self.log() =~= before.insert(
                    batch.ops()[j as int].0,
                    op_change(batch.ops()[j as int].1),
                ));
            }
            j += 1;
        }
        proof {
            assert(batch.ops().subrange(0, n as int) =~= batch.ops());
        }
        Ok(())
    }

    /// Stages the write of an integer. Costs the length of the key and of
    /// the eight bytes of the value.
    pub fn write_u64(&mut self, key: &Key, value: u64) -> (r: Result<u64, Error>)
        requires
            old(self).wf(),
        ensures
            final(self).wf(),
            final(self).db() == old(self).db(),
            final(self).leaves() == old(self).leaves(),
            final(self).block() == old(self).block(),
            final(self).done() == old(self).done(),
            final(self).setup() == old(self).setup(),
            final(self).log() == old(self).log().insert(
                key@,
                ModificationView::Write { value: u64_bytes(value) },
            ),
            final(self).running() == old(self).running().insert(
                key@,
                ModificationView::Write { value: u64_bytes(value) },
            ),
            final(self).promoted() == old(self).promoted(),
            r == Ok::<u64, Error>(gas_of(key@.len() + 8)),
    {
        self.write(key, encode_u64(value))
    }

    /// Reads an integer. A key that holds something else than the eight
    /// bytes of an integer gives a decode error. Costs the length of the
    /// key, and of the value where one is found.
    pub fn read_u64(&self, key: &Key) -> (r: Result<(Option<u64>, u64), Error>)
        requires
            self.wf(),
        ensures
            match r {
                Ok((value, gas)) => read_u64(visible(self.db(), self.log(), key@)) == Some(value)
                    && gas == value_gas(key@, visible(self.db(), self.log(), key@)),
                Err(e) => e == Error::DecodeError && read_u64(visible(self.db(), self.log(), key@))
                    is None,
            },
    {
        match self.read(key) {
            Ok((Some(bytes), gas)) => match decode_u64(bytes.as_slice()) {
                Some(v) => {
                    proof {
                        lemma_u64_bytes(v);
                    }
                    Ok((Some(v), gas))
                },
                None => Err(Error::DecodeError),
            },
            Ok((None, gas)) => Ok((None, gas)),
            Err(e) => Err(e),
        }
    }

    /// Sets the header of the open block.
    pub fn set_header(&mut self, header: Header)
        requires
            old(self).wf(),
        ensures
            final(self).wf(),
            final(self).db() == old(self).db(),
            final(self).leaves() == old(self).leaves(),
            final(self).log() == old(self).log(),
            final(self).block() == old(self).block(),
            final(self).done() == old(self).done(),
            final(self).setup() == (Setup { header: Some(header), ..old(self).setup() }),
    {
        self.header = Some(header);
    }

    /// The header that was set last, if any.
    pub open spec fn header(&self) -> Option<Header> {
        self.setup().header
    }

    /// The header that was set last, if any.
    pub fn get_block_header(&self) -> (r: Option<&Header>)
        ensures
            match r {
                Some(h) => self.header() == Some(*h),
                None => self.header() is None,
            },
    {
        match &self.header {
            Some(h) => Some(h),
            None => None,
        }
    }

    /// The block that is open, or that was open last.
    pub fn get_block(&self) -> (r: BlockState)
        ensures
            r == self.block(),
    {
        self.block
    }

    /// The height of the block that is open, or that was open last.
    pub fn get_block_height(&self) -> (r: u64)
        ensures
            r == self.block().height,
    {
        self.block.height
    }

    /// The hash of the block that is open, or that was open last.
    pub fn get_block_hash(&self) -> (r: Digest)
        ensures
            r == self.block().hash,
    {
        self.block.hash
    }

    /// The current epoch.
    pub fn get_current_epoch(&self) -> (r: u64)
        ensures
            r == self.block().epoch,
    {
        self.block.epoch
    }

    /// The height of the last committed block, if any.
    pub fn get_last_block_height(&self) -> (r: Option<u64>)
        ensures
            r == self.done().last_height,
    {
        self.done.last_height
    }

    /// What the engine remembers of the blocks committed so far.
    pub fn get_committed(&self) -> (r: Committed)
        ensures
            r == self.done(),
    {
        self.done
    }

    /// The identifier of the chain.
    pub fn get_chain_id(&self) -> (r: &String)
        ensures
            r@ == self.chain_id_spec(),
    {
        &self.chain_id
    }

    /// The address of the native token.
    pub fn get_native_token(&self) -> (r: &String)
        ensures
            r@ == self.native_token_spec(),
    {
        &self.native_token
    }

    /// Hands out the next address generator index and moves the counter on.
    /// The counter stops at the largest index that a `u64` can hold.
    pub fn next_address_index(&mut self) -> (r: u64)
        requires
            old(self).wf(),
        ensures
            final(self).wf(),
            final(self).db() == old(self).db(),
            final(self).leaves() == old(self).leaves(),
            final(self).log() == old(self).log(),
            final(self).block() == old(self).block(),
            final(self).setup() == old(self).setup(),
            r == old(self).done().address_gen,
            final(self).done() == (Committed {
                address_gen: if r < u64::MAX {
                    (r + 1) as u64
                } else {
                    r
                },
                ..old(self).done()
            }),
    {
        let r = self.done.address_gen;
        if r < u64::MAX {
            self.done.address_gen = r + 1;
        }
        r
    }

    /// The validity predicate of the account at `address`, as the hash of
    /// its code. Refused for an address that is no key segment. Costs the
    /// length of the key, and of the hash where one is found.
    pub fn validity_predicate(&self, address: &str) -> (r: Result<(Option<Vec<u8>>, u64), Error>)
        requires
            self.wf(),
        ensures
            match r {
                Ok((value, gas)) => crate::key::is_segment(address.spec_bytes()) && opt_view(value)
                    == visible(self.db(), self.log(), crate::key::vp_key(address.spec_bytes()))
                    && gas == value_gas(crate::key::vp_key(address.spec_bytes()), opt_view(value)),
                Err(e) => e == Error::KeyParseError && !crate::key::is_segment(
                    address.spec_bytes(),
                ),
            },
    {
        match Key::validity_predicate(address) {
            Ok(key) => self.read(&key),
            Err(e) => Err(e),
        }
    }

    /// The root of the live Merkle tree.
    pub fn merkle_root(&self) -> (r: Digest)
        ensures
            r@ == root_of_leaves(self.leaves()),
    {
        self.tree.root()
    }

    /// The root and the height of the last committed block, if any.
    pub fn get_state(&self) -> (r: Option<(Digest, u64)>)
        ensures
            match r {
                Some((root, height)) => self.done().last_height == Some(height) && root@
                    == root_of_leaves(self.leaves()),
                None => self.done().last_height is None,
            },
    {
        match self.done.last_height {
            Some(h) => Some((self.tree.root(), h)),
            None => None,
        }
    }
}

} // verus!
