//! What holds of a byte store that the engine has written, and stays true
//! through every commit and every pruning.

use crate::commit::{
    above, committed, history_bound, leaf_after, leaf_value, lemma_commit_keeps_bound,
    lemma_committed_get, lemma_staged_leaves, lemma_staged_other, BlockInfo, Changes,
};
use crate::digest::storage_digest;
use crate::encoding::{lemma_u64_bytes, u64_bytes};
use crate::layout::{
    current, current_key, height_key, leaves_ns, lemma_height_key_injective, lemma_key_shapes,
    old_key, single_key, values_ns,
    TAG_ADDRESS_GEN, TAG_EPOCH, TAG_EPOCH_START, TAG_FLOOR, TAG_HASH, TAG_LAST, TAG_LEAF,
    TAG_LEAF_OLD, TAG_PREV, TAG_VALUE_OLD,
};
use crate::merkle::Leaves;
use crate::ordered::{lemma_sorted_entry, seq_to_map, sorted};
use crate::prune::pruned;
use crate::commit::touches;
use crate::layout::{chain_step, Step};
use crate::snapshot::{
    leaf_entry_ok, leaf_record_entry_ok, leaf_records_ok, lemma_same_reads, live_leaves, walk_ok,
};
use crate::storage::{
    loadable, read_u64, rebuildable, stored_done, stored_hash, tree_after, Committed,
};
use crate::store::Contents;
use crate::write_log::{lookup, staged_value, ModificationView};
use vstd::prelude::*;

verus! {

/// The first height of an epoch, where the store records one.
pub open spec fn epoch_start(db: Contents, epoch: u64) -> Option<u64> {
    match read_u64(db.get(height_key(TAG_EPOCH_START, epoch))) {
        Some(Some(s)) => Some(s),
        _ => None,
    }
}

/// The first height of an epoch that the store records.
pub open spec fn start_of(db: Contents, epoch: u64) -> u64 {
    epoch_start(db, epoch)->Some_0
}

/// `height` is at or below the last committed height.
pub open spec fn within(last: Option<u64>, height: u64) -> bool {
    match last {
        Some(l) => height <= l,
        None => false,
    }
}

/// The store records where every epoch from the first to `epoch` began,
/// later epochs begin no earlier than earlier ones, none begins above the
/// last committed height, and no epoch past `epoch` is recorded.
pub open spec fn schedule_ok(db: Contents, epoch: u64, last: Option<u64>) -> bool {
    &&& forall|e: u64| 1 <= e <= epoch ==> #[trigger] epoch_start(db, e) is Some
    &&& forall|e: u64|
        e > epoch || e == 0 ==> #[trigger] db.get(height_key(TAG_EPOCH_START, e)) is None
    &&& forall|e1: u64, e2: u64|
        1 <= e1 <= e2 <= epoch ==> #[trigger] start_of(db, e1) <= #[trigger] start_of(db, e2)
    &&& forall|e: u64| 1 <= e <= epoch ==> within(last, #[trigger] start_of(db, e))
}

/// Every leaf record and every link from the last committed height down
/// to the floor can be read.
pub open spec fn walkable(db: Contents) -> bool {
    match stored_done(db).last_height {
        Some(l) => walk_ok(db, stored_done(db).floor, l),
        None => true,
    }
}

/// The store is one that commits have built: it holds nothing of a height
/// above the last committed one, its schedule of epochs is in order, and
/// what it holds of the heights above the floor can be read.
pub open spec fn sound(db: Contents) -> bool {
    &&& history_bound(db, stored_done(db).last_height)
    &&& schedule_ok(db, stored_done(db).last_epoch, stored_done(db).last_height)
    &&& walkable(db)
}

/// Two stores hold the same under every key of the leaf records of a
/// height, and the same link from it.
pub open spec fn same_leaf_records(a: Contents, b: Contents, height: u64) -> bool {
    &&& a.get(height_key(TAG_PREV, height)) == b.get(height_key(TAG_PREV, height))
    &&& forall|x: Seq<u8>|
        height_key(TAG_LEAF_OLD, height).is_prefix_of(x) ==> #[trigger] a.get(x) == b.get(x)
}

/// Whether a walk can be made depends on nothing but the leaf records and
/// links of the heights that it passes.
pub proof fn lemma_walk_frame(a: Contents, b: Contents, h: u64, g: u64)
    requires
        forall|j: u64| h < j <= g ==> #[trigger] same_leaf_records(a, b, j),
    ensures
        walk_ok(a, h, g) == walk_ok(b, h, g),
    decreases g,
{
    if g > h {
        assert(same_leaf_records(a, b, g));
        assert(leaf_records_ok(a, g) == leaf_records_ok(b, g)) by {
            assert forall|x: Seq<u8>|
                height_key(TAG_LEAF_OLD, g).is_prefix_of(x) implies a.contains_key(x)
                == b.contains_key(x) && (a.contains_key(x) ==> a[x] == b[x]) by {
                assert(a.get(x) == b.get(x));
            }
        }
        match chain_step(a, g) {
            Step::Prev(p) => {
                if p < g {
                    assert forall|j: u64| h < j <= p implies #[trigger] same_leaf_records(a, b, j) by {}
                    lemma_walk_frame(a, b, h, p);
                }
            },
            _ => {},
        }
    }
}

/// A walk that can be made down to a height can be made down to every
/// height above it.
pub proof fn lemma_walk_shorter(db: Contents, h: u64, higher: u64, g: u64)
    requires
        walk_ok(db, h, g),
        h <= higher,
    ensures
        walk_ok(db, higher, g),
    decreases g,
{
    if g > higher {
        match chain_step(db, g) {
            Step::Prev(p) => {
                lemma_walk_shorter(db, h, higher, p);
            },
            _ => {},
        }
    }
}

/// Some change has a key that falls on the leaf.
pub proof fn lemma_touches_index(changes: Changes, leaf: Seq<u8>) -> (i: int)
    requires
        touches(changes, leaf),
    ensures
        0 <= i < changes.len(),
        storage_digest(changes[i].0) == leaf,
    decreases changes.len(),
{
    if storage_digest(changes.last().0) == leaf {
        changes.len() - 1
    } else {
        let i = lemma_touches_index(changes.drop_last(), leaf);
        assert(changes.drop_last()[i] == changes[i]);
        i
    }
}

/// A commit keeps what the store holds of the heights above the floor
/// readable.
pub proof fn lemma_commit_keeps_walkable(db: Contents, b: BlockInfo, changes: Changes)
    requires
        loadable(db),
        walkable(db),
        history_bound(db, b.prev),
        sorted(changes),
        changes_sized(changes),
        b.hash.len() == 32,
        b.prev == stored_done(db).last_height,
        above(b.prev, b.height),
    ensures
        walkable(committed(db, b, changes)),
{
    let c = committed(db, b, changes);
    let g = b.height;
    let floor = stored_done(db).floor;
    lemma_commit_keeps_loadable(db, b, changes);
    if g > floor {
        assert(leaf_records_ok(c, g)) by {
            assert forall|x: Seq<u8>|
                c.contains_key(x) && height_key(TAG_LEAF_OLD, g).is_prefix_of(
                    x,
                ) implies leaf_record_entry_ok(x, #[trigger] c[x]) by {
                lemma_key_shapes(TAG_LEAF_OLD, g, Seq::empty());
                let leaf = x.subrange(9, x.len() as int);
                assert(x =~= old_key(TAG_LEAF_OLD, g, leaf)) by {
                    assert(x.subrange(0, 9) == height_key(TAG_LEAF_OLD, g));
                    assert forall|k: int| 0 <= k < 9 implies x[k] == height_key(TAG_LEAF_OLD, g)[k] by {
                        assert(x[k] == x.subrange(0, 9)[k]);
                    }
                }
                crate::commit::lemma_committed_old_leaves(db, b, changes, g, leaf);
                assert(db.get(old_key(TAG_LEAF_OLD, g, leaf)) is None);
                let i = lemma_touches_index(changes, leaf);
                assert(entry_sized(changes[i].0, changes[i].1));
                let held = current(db, leaves_ns(), leaf);
                crate::layout::lemma_old_record_decodes(held);
                lemma_key_shapes(TAG_LEAF, 0, leaf);
                if held is Some {
                    let y = current_key(TAG_LEAF, leaf);
                    assert(y.subrange(0, 1) =~= single_key(TAG_LEAF));
                    assert(leaf_entry_ok(y, db[y]));
                }
            }
        }
        crate::commit::lemma_committed_links(db, b, changes, g);
        match b.prev {
            Some(l) => {
                lemma_u64_bytes(l);
                assert(chain_step(c, g) == Step::Prev(l));
                assert forall|j: u64| floor < j <= l implies #[trigger] same_leaf_records(c, db, j) by {
                    crate::commit::lemma_committed_links(db, b, changes, j);
                    assert forall|x: Seq<u8>|
                        height_key(TAG_LEAF_OLD, j).is_prefix_of(x) implies #[trigger] c.get(x)
                        == db.get(x) by {
                        lemma_key_shapes(TAG_LEAF_OLD, j, Seq::empty());
                        let leaf = x.subrange(9, x.len() as int);
                        assert(x =~= old_key(TAG_LEAF_OLD, j, leaf)) by {
                            assert(x.subrange(0, 9) == height_key(TAG_LEAF_OLD, j));
                            assert forall|k: int| 0 <= k < 9 implies x[k] == height_key(
                                TAG_LEAF_OLD,
                                j,
                            )[k] by {
                                assert(x[k] == x.subrange(0, 9)[k]);
                            }
                        }
                        crate::commit::lemma_committed_old_leaves(db, b, changes, j, leaf);
                    }
                }
                lemma_walk_frame(c, db, floor, l);
            },
            None => {
                assert(chain_step(c, g) == Step::End);
            },
        }
    }
}

/// Pruning up to a floor keeps what the store holds of the heights above
/// that floor readable.
pub proof fn lemma_prune_keeps_walkable(db: Contents, floor: u64)
    requires
        loadable(db),
        walkable(db),
        floor >= stored_done(db).floor,
    ensures
        walkable(pruned(db, floor)),
{
    let p = pruned(db, floor);
    lemma_prune_keeps_sound(db, floor);
    match stored_done(db).last_height {
        Some(l) => {
            lemma_walk_shorter(db, stored_done(db).floor, floor, l);
            assert forall|j: u64| floor < j <= l implies #[trigger] same_leaf_records(p, db, j) by {
                lemma_key_shapes(TAG_PREV, j, Seq::empty());
                lemma_key_shapes(TAG_LEAF_OLD, j, Seq::empty());
                lemma_u64_bytes(j);
                assert forall|x: Seq<u8>|
                    height_key(TAG_LEAF_OLD, j).is_prefix_of(x) implies #[trigger] p.get(x)
                    == db.get(x) by {
                    assert(x.subrange(0, 9) == height_key(TAG_LEAF_OLD, j));
                    assert(x.subrange(1, 9) =~= height_key(TAG_LEAF_OLD, j).subrange(1, 9));
                }
            }
            lemma_walk_frame(p, db, floor, l);
        },
        None => {},
    }
}

/// The tree of every retained height can be rebuilt. In a sound store
/// whose state can be loaded, the leaves and every record and link on the
/// way from the last committed height down to a height at or above the
/// floor can be read.
pub proof fn law_retained_rebuildable(db: Contents, height: u64)
    requires
        sound(db),
        loadable(db),
        stored_done(db).last_height is Some,
        stored_done(db).floor <= height <= stored_done(db).last_height->Some_0,
    ensures
        rebuildable(db, height, stored_done(db).last_height->Some_0),
{
    lemma_walk_shorter(
        db,
        stored_done(db).floor,
        height,
        stored_done(db).last_height->Some_0,
    );
}

/// An empty store is sound, and its state can be loaded.
pub proof fn lemma_empty_sound()
    ensures
        sound(Map::<Seq<u8>, Seq<u8>>::empty()),
        loadable(Map::<Seq<u8>, Seq<u8>>::empty()),
        stored_done(Map::<Seq<u8>, Seq<u8>>::empty()) == (Committed {
            last_height: None,
            last_epoch: 0,
            floor: 0,
            address_gen: 0,
        }),
        live_leaves(Map::<Seq<u8>, Seq<u8>>::empty()) == Map::<Seq<u8>, Seq<u8>>::empty(),
{
    let db = Map::<Seq<u8>, Seq<u8>>::empty();
    assert(live_leaves(db) =~= Map::<Seq<u8>, Seq<u8>>::empty());
}

/// The digests of a change have the size of a leaf.
pub open spec fn entry_sized(key: Seq<u8>, m: ModificationView) -> bool {
    storage_digest(key).len() == 32 && (staged_value(m) matches Some(v) ==> storage_digest(v).len()
        == 32)
}

pub open spec fn changes_sized(changes: Changes) -> bool {
    forall|i: int| 0 <= i < changes.len() ==> entry_sized(#[trigger] changes[i].0, changes[i].1)
}

/// What a leaf holds after some changes is what it held before, or what a
/// change that falls on it left.
pub proof fn lemma_leaf_after_cases(before: Option<Seq<u8>>, changes: Changes, leaf: Seq<u8>)
    ensures
        leaf_after(before, changes, leaf) == before || exists|i: int|
            0 <= i < changes.len() && storage_digest(#[trigger] changes[i].0) == leaf && leaf_after(
                before,
                changes,
                leaf,
            ) == leaf_value(staged_value(changes[i].1)),
    decreases changes.len(),
{
    if changes.len() > 0 {
        if storage_digest(changes.last().0) == leaf {
            assert(changes[changes.len() - 1] == changes.last());
        } else {
            lemma_leaf_after_cases(before, changes.drop_last(), leaf);
            if leaf_after(before, changes.drop_last(), leaf) != before {
                let i = choose|i: int|
                    0 <= i < changes.drop_last().len() && storage_digest(
                        #[trigger] changes.drop_last()[i].0,
                    ) == leaf && leaf_after(before, changes.drop_last(), leaf) == leaf_value(
                        staged_value(changes.drop_last()[i].1),
                    );
                assert(changes[i] == changes.drop_last()[i]);
            }
        }
    }
}

/// The live tree follows the stored leaves through a commit.
pub proof fn lemma_tree_follows(db: Contents, b: BlockInfo, changes: Changes, leaves: Leaves)
    requires
        leaves == live_leaves(db),
    ensures
        tree_after(leaves, changes) == live_leaves(committed(db, b, changes)),
{
    let c = committed(db, b, changes);
    assert forall|leaf: Seq<u8>| #[trigger]
        tree_after(leaves, changes).get(leaf) == live_leaves(c).get(leaf) by {
        lemma_tree_after_get(leaves, changes, leaf);
        crate::commit::lemma_committed_leaves(db, b, changes, leaf);
    }
    lemma_same_reads(tree_after(leaves, changes), live_leaves(c));
}

pub proof fn lemma_tree_after_get(leaves: Leaves, changes: Changes, leaf: Seq<u8>)
    ensures
        tree_after(leaves, changes).get(leaf) == leaf_after(leaves.get(leaf), changes, leaf),
    decreases changes.len(),
{
    if changes.len() > 0 {
        lemma_tree_after_get(leaves, changes.drop_last(), leaf);
    }
}

/// A commit leaves a store whose state can be loaded, and that says of
/// the last block what the commit was given.
pub proof fn lemma_commit_keeps_loadable(db: Contents, b: BlockInfo, changes: Changes)
    requires
        loadable(db),
        changes_sized(changes),
        b.hash.len() == 32,
    ensures
        loadable(committed(db, b, changes)),
        stored_done(committed(db, b, changes)) == (Committed {
            last_height: Some(b.height),
            last_epoch: b.epoch,
            floor: stored_done(db).floor,
            address_gen: b.address_gen,
        }),
        stored_hash(committed(db, b, changes)) == Some(b.hash),
{
    let c = committed(db, b, changes);
    let e = Seq::<u8>::empty();
    lemma_key_shapes(TAG_PREV, b.height, e);
    lemma_key_shapes(TAG_EPOCH_START, b.epoch, e);
    lemma_u64_bytes(b.height);
    lemma_u64_bytes(b.epoch);
    lemma_u64_bytes(b.address_gen);
    lemma_committed_get(db, b, changes, single_key(TAG_LAST));
    lemma_committed_get(db, b, changes, single_key(TAG_EPOCH));
    lemma_committed_get(db, b, changes, single_key(TAG_HASH));
    lemma_committed_get(db, b, changes, single_key(TAG_ADDRESS_GEN));
    lemma_committed_get(db, b, changes, single_key(TAG_FLOOR));
    lemma_staged_other(db, b.height, changes, single_key(TAG_FLOOR));
    assert forall|x: Seq<u8>|
        c.contains_key(x) && single_key(TAG_LEAF).is_prefix_of(x) implies leaf_entry_ok(
        x,
        #[trigger] c[x],
    ) by {
        assert(x.subrange(0, 1) == single_key(TAG_LEAF));
        assert(x[0] == x.subrange(0, 1)[0]);
        let leaf = x.subrange(1, x.len() as int);
        assert(x =~= current_key(TAG_LEAF, leaf));
        lemma_committed_get(db, b, changes, x);
        lemma_staged_leaves(db, b.height, changes, leaf);
        lemma_leaf_after_cases(db.get(x), changes, leaf);
        if leaf_after(db.get(x), changes, leaf) == db.get(x) {
            assert(db.contains_key(x));
            assert(leaf_entry_ok(x, db[x]));
        } else {
            let i = choose|i: int|
                0 <= i < changes.len() && storage_digest(#[trigger] changes[i].0) == leaf
                    && leaf_after(db.get(x), changes, leaf) == leaf_value(
                    staged_value(changes[i].1),
                );
            assert(entry_sized(changes[i].0, changes[i].1));
        }
    }
}

/// A commit keeps the schedule of epochs in order.
pub proof fn lemma_commit_keeps_schedule(db: Contents, b: BlockInfo, changes: Changes, epoch: u64)
    requires
        schedule_ok(db, epoch, b.prev),
        above(b.prev, b.height),
        if b.new_epoch {
            b.epoch == epoch + 1
        } else {
            b.epoch == epoch
        },
    ensures
        schedule_ok(committed(db, b, changes), b.epoch, Some(b.height)),
{
    let c = committed(db, b, changes);
    let none = Seq::<u8>::empty();
    lemma_u64_bytes(b.height);
    assert forall|e: u64| #[trigger]
        epoch_start(c, e) == (if b.new_epoch && e == b.epoch {
            Some(b.height)
        } else {
            epoch_start(db, e)
        }) && c.get(height_key(TAG_EPOCH_START, e)) == (if b.new_epoch && e == b.epoch {
            Some(u64_bytes(b.height))
        } else {
            db.get(height_key(TAG_EPOCH_START, e))
        }) by {
        let x = height_key(TAG_EPOCH_START, e);
        lemma_committed_get(db, b, changes, x);
        lemma_staged_other(db, b.height, changes, x);
        lemma_key_shapes(TAG_EPOCH_START, e, none);
        lemma_key_shapes(TAG_PREV, b.height, none);
        if x == height_key(TAG_EPOCH_START, b.epoch) {
            lemma_height_key_injective(TAG_EPOCH_START, e, b.epoch);
        }
    }
    assert forall|e: u64| e > b.epoch || e == 0 implies #[trigger] c.get(
        height_key(TAG_EPOCH_START, e),
    ) is None by {
        assert(epoch_start(c, e) == epoch_start(db, e));
        assert(db.get(height_key(TAG_EPOCH_START, e)) is None);
    }
    assert forall|e: u64| 1 <= e <= b.epoch implies #[trigger] epoch_start(c, e) is Some by {
        if !(b.new_epoch && e == b.epoch) {
            assert(epoch_start(db, e) is Some);
        }
    }
    assert forall|e: u64| 1 <= e <= b.epoch implies within(
        Some(b.height),
        #[trigger] start_of(c, e),
    ) by {
        assert(epoch_start(c, e) is Some);
        if !(b.new_epoch && e == b.epoch) {
            assert(within(b.prev, start_of(db, e)));
        }
    }
    assert forall|e1: u64, e2: u64| 1 <= e1 <= e2 <= b.epoch implies #[trigger] start_of(c, e1)
        <= #[trigger] start_of(c, e2) by {
        assert(epoch_start(c, e1) is Some);
        assert(epoch_start(c, e2) is Some);
        assert(within(Some(b.height), start_of(c, e1)));
        if b.new_epoch && e2 == b.epoch {
        } else {
            assert(start_of(db, e1) <= start_of(db, e2));
        }
    }
}

/// A commit on a sound store leaves a sound store.
pub proof fn lemma_commit_keeps_sound(db: Contents, b: BlockInfo, changes: Changes)
    requires
        sound(db),
        loadable(db),
        sorted(changes),
        changes_sized(changes),
        b.hash.len() == 32,
        b.prev == stored_done(db).last_height,
        above(b.prev, b.height),
        if b.new_epoch {
            b.epoch == stored_done(db).last_epoch + 1
        } else {
            b.epoch == stored_done(db).last_epoch
        },
    ensures
        sound(committed(db, b, changes)),
{
    lemma_commit_keeps_loadable(db, b, changes);
    lemma_commit_keeps_bound(db, b, changes);
    lemma_commit_keeps_schedule(db, b, changes, stored_done(db).last_epoch);
    lemma_commit_keeps_walkable(db, b, changes);
}

/// Pruning a sound store whose state can be loaded leaves one of the
/// same kind, with the same leaves, and with the new floor recorded.
pub proof fn lemma_prune_keeps_sound(db: Contents, floor: u64)
    requires
        loadable(db),
    ensures
        loadable(pruned(db, floor)),
        live_leaves(pruned(db, floor)) == live_leaves(db),
        stored_done(pruned(db, floor)) == (Committed { floor, ..stored_done(db) }),
        stored_hash(pruned(db, floor)) == stored_hash(db),
        history_bound(db, stored_done(db).last_height) ==> history_bound(
            pruned(db, floor),
            stored_done(db).last_height,
        ),
        schedule_ok(db, stored_done(db).last_epoch, stored_done(db).last_height) ==> schedule_ok(
            pruned(db, floor),
            stored_done(db).last_epoch,
            stored_done(db).last_height,
        ),
{
    let p = pruned(db, floor);
    let none = Seq::<u8>::empty();
    lemma_u64_bytes(floor);
    assert forall|x: Seq<u8>| x.len() < 9 && x != single_key(TAG_FLOOR) implies #[trigger] p.get(x)
        == db.get(x) by {}
    lemma_key_shapes(TAG_LAST, 0, none);
    lemma_key_shapes(TAG_EPOCH, 0, none);
    lemma_key_shapes(TAG_HASH, 0, none);
    lemma_key_shapes(TAG_ADDRESS_GEN, 0, none);
    lemma_key_shapes(TAG_FLOOR, 0, none);
    assert(p.get(single_key(TAG_LAST)) == db.get(single_key(TAG_LAST)));
    assert(p.get(single_key(TAG_EPOCH)) == db.get(single_key(TAG_EPOCH)));
    assert(p.get(single_key(TAG_HASH)) == db.get(single_key(TAG_HASH)));
    assert(p.get(single_key(TAG_ADDRESS_GEN)) == db.get(single_key(TAG_ADDRESS_GEN)));
    assert forall|x: Seq<u8>|
        p.contains_key(x) && single_key(TAG_LEAF).is_prefix_of(x) implies leaf_entry_ok(
        x,
        #[trigger] p[x],
    ) by {
        assert(x.subrange(0, 1) == single_key(TAG_LEAF));
        assert(x[0] == x.subrange(0, 1)[0]);
        assert(db.contains_key(x));
        assert(leaf_entry_ok(x, db[x]));
    }
    assert forall|leaf: Seq<u8>| #[trigger] live_leaves(p).get(leaf) == live_leaves(db).get(leaf) by {
        lemma_key_shapes(TAG_LEAF, 0, leaf);
    }
    lemma_same_reads(live_leaves(p), live_leaves(db));
    if history_bound(db, stored_done(db).last_height) {
        let last = stored_done(db).last_height;
        assert forall|j: u64, key: Seq<u8>| above(last, j) implies #[trigger] p.get(
            old_key(TAG_VALUE_OLD, j, key),
        ) is None by {
            lemma_key_shapes(TAG_VALUE_OLD, j, key);
            assert(db.get(old_key(TAG_VALUE_OLD, j, key)) is None);
        }
        assert forall|j: u64, leaf: Seq<u8>| above(last, j) implies #[trigger] p.get(
            old_key(TAG_LEAF_OLD, j, leaf),
        ) is None by {
            lemma_key_shapes(TAG_LEAF_OLD, j, leaf);
            assert(db.get(old_key(TAG_LEAF_OLD, j, leaf)) is None);
        }
        assert forall|j: u64| above(last, j) implies #[trigger] p.get(height_key(TAG_PREV, j))
            is None by {
            lemma_key_shapes(TAG_PREV, j, none);
            assert(db.get(height_key(TAG_PREV, j)) is None);
        }
    }
    assert forall|e: u64| #[trigger]
        p.get(height_key(TAG_EPOCH_START, e)) == db.get(height_key(TAG_EPOCH_START, e)) by {
        lemma_key_shapes(TAG_EPOCH_START, e, none);
    }
    assert forall|e: u64| #[trigger] epoch_start(p, e) == epoch_start(db, e) by {
        assert(p.get(height_key(TAG_EPOCH_START, e)) == db.get(height_key(TAG_EPOCH_START, e)));
    }
    assert forall|e: u64| #[trigger] start_of(p, e) == start_of(db, e) by {
        assert(epoch_start(p, e) == epoch_start(db, e));
    }
    if schedule_ok(db, stored_done(db).last_epoch, stored_done(db).last_height) {
        let last = stored_done(db).last_height;
        let epoch = stored_done(db).last_epoch;
        assert forall|e1: u64, e2: u64| 1 <= e1 <= e2 <= epoch implies #[trigger] start_of(p, e1)
            <= #[trigger] start_of(p, e2) by {
            assert(start_of(db, e1) <= start_of(db, e2));
        }
        assert forall|e: u64| 1 <= e <= epoch implies within(last, #[trigger] start_of(p, e)) by {
            assert(within(last, start_of(db, e)));
        }
    }
}

/// No two keys of the set have the same digest.
pub open spec fn injective_on(keys: Set<Seq<u8>>) -> bool {
    forall|a: Seq<u8>, b: Seq<u8>|
        keys.contains(a) && keys.contains(b) && #[trigger] storage_digest(a) == #[trigger] storage_digest(
            b,
        ) ==> a == b
}

/// Every key that holds a value is in the set.
pub open spec fn values_within(db: Contents, keys: Set<Seq<u8>>) -> bool {
    forall|k: Seq<u8>| (#[trigger] current(db, values_ns(), k)) is Some ==> keys.contains(k)
}

/// Every changed key is in the set.
pub open spec fn changes_within(changes: Changes, keys: Set<Seq<u8>>) -> bool {
    forall|i: int| 0 <= i < changes.len() ==> keys.contains(#[trigger] changes[i].0)
}

/// The leaf of a key is the digest of its value.
pub open spec fn leaf_mirrors(db: Contents, key: Seq<u8>) -> bool {
    current(db, leaves_ns(), storage_digest(key)) == leaf_value(current(db, values_ns(), key))
}

/// A leaf belongs to a key of the set that holds a value.
pub open spec fn leaf_owned(db: Contents, keys: Set<Seq<u8>>, leaf: Seq<u8>, key: Seq<u8>) -> bool {
    keys.contains(key) && storage_digest(key) == leaf && current(db, values_ns(), key) is Some
}

/// The stored leaves mirror the stored values: the leaf of every key of
/// the set is the digest of its value, and there is no other leaf.
pub open spec fn mirrors(db: Contents, keys: Set<Seq<u8>>) -> bool {
    &&& forall|k: Seq<u8>| keys.contains(k) ==> #[trigger] leaf_mirrors(db, k)
    &&& forall|leaf: Seq<u8>|
        (#[trigger] current(db, leaves_ns(), leaf)) is Some ==> exists|k: Seq<u8>|
            leaf_owned(db, keys, leaf, k)
}

/// Where no two keys share a digest, the leaf of a key is decided by the
/// change of that key alone.
pub proof fn lemma_leaf_after_own(
    before: Option<Seq<u8>>,
    changes: Changes,
    keys: Set<Seq<u8>>,
    key: Seq<u8>,
)
    requires
        sorted(changes),
        injective_on(keys),
        changes_within(changes, keys),
        keys.contains(key),
    ensures
        leaf_after(before, changes, storage_digest(key)) == (match lookup(
            seq_to_map(changes),
            key,
        ) {
            Some(m) => leaf_value(staged_value(m)),
            None => before,
        }),
    decreases changes.len(),
{
    if changes.len() > 0 {
        let d = changes.drop_last();
        let last = changes.last();
        crate::commit::lemma_drop_last_sorted(changes);
        assert(changes_within(d, keys)) by {
            assert forall|i: int| 0 <= i < d.len() implies keys.contains(#[trigger] d[i].0) by {
                assert(d[i] == changes[i]);
            }
        }
        assert(keys.contains(last.0)) by {
            assert(changes[changes.len() - 1] == last);
        }
        lemma_leaf_after_own(before, d, keys, key);
        if storage_digest(last.0) == storage_digest(key) {
            assert(last.0 == key);
        }
    } else {
        assert(!seq_to_map(changes).contains_key(key));
    }
}

/// An empty store mirrors itself.
pub proof fn law_empty_mirrors(keys: Set<Seq<u8>>)
    ensures
        mirrors(Map::<Seq<u8>, Seq<u8>>::empty(), keys),
        values_within(Map::<Seq<u8>, Seq<u8>>::empty(), keys),
{
}

/// A commit keeps the leaves a mirror of the values, as long as no two
/// keys share a digest.
pub proof fn law_commit_keeps_mirror(
    db: Contents,
    b: BlockInfo,
    changes: Changes,
    keys: Set<Seq<u8>>,
)
    requires
        sorted(changes),
        injective_on(keys),
        values_within(db, keys),
        changes_within(changes, keys),
        mirrors(db, keys),
    ensures
        mirrors(committed(db, b, changes), keys),
        values_within(committed(db, b, changes), keys),
{
    let c = committed(db, b, changes);
    assert forall|k: Seq<u8>| (#[trigger] current(c, values_ns(), k)) is Some implies keys.contains(
        k,
    ) by {
        crate::commit::lemma_committed_values(db, b, changes, k);
        if seq_to_map(changes).contains_key(k) {
            let i = crate::ordered::lemma_map_key_index(changes, k);
            assert(keys.contains(changes[i].0));
        } else {
            assert(current(db, values_ns(), k) is Some);
        }
    }
    assert forall|k: Seq<u8>| keys.contains(k) implies #[trigger] leaf_mirrors(c, k) by {
        crate::commit::lemma_committed_values(db, b, changes, k);
        crate::commit::lemma_committed_leaves(db, b, changes, storage_digest(k));
        lemma_leaf_after_own(current(db, leaves_ns(), storage_digest(k)), changes, keys, k);
        assert(leaf_mirrors(db, k));
    }
    assert forall|leaf: Seq<u8>| (#[trigger] current(c, leaves_ns(), leaf)) is Some implies exists|
        k: Seq<u8>,
    |
        leaf_owned(c, keys, leaf, k) by {
        crate::commit::lemma_committed_leaves(db, b, changes, leaf);
        let before = current(db, leaves_ns(), leaf);
        lemma_leaf_after_cases(before, changes, leaf);
        if leaf_after(before, changes, leaf) == before {
            assert(current(db, leaves_ns(), leaf) is Some);
            let k = choose|k: Seq<u8>| leaf_owned(db, keys, leaf, k);
            crate::commit::lemma_committed_values(db, b, changes, k);
            lemma_leaf_after_own(before, changes, keys, k);
            assert(leaf_mirrors(db, k));
            assert(leaf_owned(c, keys, leaf, k));
        } else {
            let i = choose|i: int|
                0 <= i < changes.len() && storage_digest(#[trigger] changes[i].0) == leaf
                    && leaf_after(before, changes, leaf) == leaf_value(staged_value(changes[i].1));
            let k = changes[i].0;
            lemma_sorted_entry(changes, i);
            crate::commit::lemma_committed_values(db, b, changes, k);
            assert(leaf_owned(c, keys, leaf, k));
        }
    }
}

/// Pruning keeps the leaves a mirror of the values.
pub proof fn law_prune_keeps_mirror(db: Contents, floor: u64, keys: Set<Seq<u8>>)
    requires
        mirrors(db, keys),
        values_within(db, keys),
    ensures
        mirrors(pruned(db, floor), keys),
        values_within(pruned(db, floor), keys),
{
    let p = pruned(db, floor);
    assert forall|k: Seq<u8>| #[trigger]
        current(p, values_ns(), k) == current(db, values_ns(), k) by {
        lemma_key_shapes(crate::layout::TAG_VALUE, 0, k);
        lemma_key_shapes(TAG_FLOOR, 0, k);
    }
    assert forall|leaf: Seq<u8>| #[trigger]
        current(p, leaves_ns(), leaf) == current(db, leaves_ns(), leaf) by {
        lemma_key_shapes(TAG_LEAF, 0, leaf);
        lemma_key_shapes(TAG_FLOOR, 0, leaf);
    }
    assert forall|k: Seq<u8>| keys.contains(k) implies #[trigger] leaf_mirrors(p, k) by {
        assert(leaf_mirrors(db, k));
        assert(current(p, values_ns(), k) == current(db, values_ns(), k));
        assert(current(p, leaves_ns(), storage_digest(k)) == current(
            db,
            leaves_ns(),
            storage_digest(k),
        ));
    }
    assert forall|leaf: Seq<u8>| (#[trigger] current(p, leaves_ns(), leaf)) is Some implies exists|
        k: Seq<u8>,
    |
        leaf_owned(p, keys, leaf, k) by {
        assert(current(p, leaves_ns(), leaf) == current(db, leaves_ns(), leaf));
        let k = choose|k: Seq<u8>| leaf_owned(db, keys, leaf, k);
        assert(current(p, values_ns(), k) == current(db, values_ns(), k));
        assert(leaf_owned(p, keys, leaf, k));
    }
    assert forall|k: Seq<u8>| (#[trigger] current(p, values_ns(), k)) is Some implies keys.contains(
        k,
    ) by {
        assert(current(p, values_ns(), k) == current(db, values_ns(), k));
    }
}

} // verus!
