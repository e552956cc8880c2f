//! What holds of the engine across its operations, stated over the
//! functions that the contracts of the operations are written in.

use crate::commit::{
    above, committed, history_bound, lemma_commit_keeps_leaves, lemma_commit_keeps_values,
    lemma_committed_values, BlockInfo, Changes,
};
use crate::gas::{gas_of, gas_sum};
use crate::layout::{current, held_at, leaves_ns, lemma_key_shapes, TAG_FLOOR, TAG_VALUE, values_ns};
use crate::merkle::{root_of_leaves, Leaves};
use crate::ordered::{listable, seq_to_map, sorted};
use crate::prefix_iter::total_bytes;
use crate::prune::{lemma_prune_keeps_held, pruned};
use crate::snapshot::{leaves_at, lemma_same_reads, live_leaves};
use crate::soundness::{epoch_start, schedule_ok, start_of};
use crate::storage::{after_prune, prune_target, sorted_changes, staged_after, tree_after, visible};
use crate::store::{Contents, Op};
use crate::write_log::{lookup, ModificationView, Staged};
use vstd::prelude::*;

verus! {

/// The list that a commit walks stands for what was staged.
pub proof fn lemma_sorted_changes(log: Staged)
    requires
        listable(log),
    ensures
        sorted(sorted_changes(log)),
        seq_to_map(sorted_changes(log)) == log,
{
    let c = choose|c: Changes| sorted(c) && #[trigger] seq_to_map(c) == log;
    assert(sorted(c) && seq_to_map(c) == log);
}

/// Pruning leaves every current value as it is.
pub proof fn lemma_prune_keeps_current(db: Contents, target: Option<Option<u64>>, key: Seq<u8>)
    ensures
        current(after_prune(db, target), values_ns(), key) == current(db, values_ns(), key),
{
    lemma_key_shapes(TAG_VALUE, 0, key);
    lemma_key_shapes(TAG_FLOOR, 0, key);
}

/// Round trip. A value that is staged for a key when a block is committed
/// is what a read of the committed store finds under the key: with an
/// empty write log, as after the engine was closed and opened again over
/// the same store, and whether or not the commit was followed by a
/// pruning.
pub proof fn law_round_trip(
    db: Contents,
    block: BlockInfo,
    log: Staged,
    key: Seq<u8>,
    value: Seq<u8>,
    target: Option<Option<u64>>,
)
    requires
        listable(log),
        lookup(log, key) == Some(ModificationView::Write { value }),
    ensures
        visible(
            after_prune(committed(db, block, sorted_changes(log)), target),
            Map::empty(),
            key,
        ) == Some(value),
{
    lemma_sorted_changes(log);
    lemma_committed_values(db, block, sorted_changes(log), key);
    lemma_prune_keeps_current(committed(db, block, sorted_changes(log)), target, key);
}

/// Earlier states outlive a commit. Committing a block on a store that
/// holds nothing above its last height leaves what every key held as of
/// every height below the block as it was.
pub proof fn law_history_kept(
    db: Contents,
    block: BlockInfo,
    log: Staged,
    key: Seq<u8>,
    height: u64,
)
    requires
        listable(log),
        history_bound(db, block.prev),
        above(block.prev, block.height),
        height < block.height,
    ensures
        held_at(
            committed(db, block, sorted_changes(log)),
            values_ns(),
            key,
            height,
            Some(block.height),
        ) == held_at(db, values_ns(), key, height, block.prev),
{
    lemma_sorted_changes(log);
    lemma_commit_keeps_values(db, block, sorted_changes(log), key, height);
}

/// Tombstones. A value written in one block and deleted in the next is
/// gone from the committed state, and still there as of every height from
/// the first block up to just below the second.
pub proof fn law_tombstone(
    db: Contents,
    first: BlockInfo,
    first_log: Staged,
    second: BlockInfo,
    second_log: Staged,
    key: Seq<u8>,
    value: Seq<u8>,
    height: u64,
)
    requires
        listable(first_log),
        listable(second_log),
        lookup(first_log, key) == Some(ModificationView::Write { value }),
        lookup(second_log, key) == Some(ModificationView::Delete),
        history_bound(db, first.prev),
        above(first.prev, first.height),
        second.prev == Some(first.height),
        first.height <= height < second.height,
    ensures
        ({
            let mid = committed(db, first, sorted_changes(first_log));
            let end = committed(mid, second, sorted_changes(second_log));
            &&& visible(end, Map::empty(), key) is None
            &&& held_at(end, values_ns(), key, height, Some(second.height)) == Some(Some(value))
        }),
{
    let mid = committed(db, first, sorted_changes(first_log));
    let end = committed(mid, second, sorted_changes(second_log));
    lemma_sorted_changes(first_log);
    lemma_sorted_changes(second_log);
    lemma_committed_values(db, first, sorted_changes(first_log), key);
    lemma_committed_values(mid, second, sorted_changes(second_log), key);
    crate::commit::lemma_commit_keeps_bound(db, first, sorted_changes(first_log));
    lemma_commit_keeps_values(mid, second, sorted_changes(second_log), key, height);
}

/// The frontier. As of the last committed height, and of every height
/// above it, a key holds what it holds in the committed state now.
pub proof fn law_frontier(db: Contents, key: Seq<u8>, height: u64, last: Option<u64>)
    requires
        last is Some ==> height >= last->Some_0,
    ensures
        held_at(db, values_ns(), key, height, last) == Some(current(db, values_ns(), key)),
        held_at(db, values_ns(), key, height, last) == Some(visible(db, Map::empty(), key)),
{
}

/// Root determinism. The root after a commit is a function of the leaves
/// before it and of what the write log holds at the commit: two runs of
/// writes and deletes that leave the same staged changes lead to the
/// same root.
pub proof fn law_root_determinism(leaves: Leaves, log: Staged, first: Seq<Op>, second: Seq<Op>)
    requires
        staged_after(log, first) == staged_after(log, second),
    ensures
        root_of_leaves(tree_after(leaves, sorted_changes(staged_after(log, first))))
            == root_of_leaves(tree_after(leaves, sorted_changes(staged_after(log, second)))),
{
}

/// Writes and deletes of different keys can be staged in either order.
pub proof fn law_staging_order(log: Staged, a: Op, b: Op)
    requires
        a.0 != b.0,
    ensures
        staged_after(log, seq![a, b]) == staged_after(log, seq![b, a]),
{
    let ab = seq![a, b];
    let ba = seq![b, a];
    assert(ab.drop_last() =~= seq![a]);
    assert(ba.drop_last() =~= seq![b]);
    assert(seq![a].drop_last() =~= Seq::<Op>::empty());
    assert(seq![b].drop_last() =~= Seq::<Op>::empty());
    reveal_with_fuel(staged_after, 3);
    assert(staged_after(log, ab) =~= staged_after(log, ba));
}

/// The cost of a whole pass over a prefix: the cost of the prefix and the
/// costs of the entries add up to the cost of all their bytes.
pub proof fn law_prefix_gas(prefix: Seq<u8>, entries: Seq<(Seq<u8>, Seq<u8>)>)
    ensures
        gas_sum(gas_of(prefix.len()), gas_of(total_bytes(entries))) == gas_of(
            prefix.len() + total_bytes(entries),
        ),
{
}

/// As of the last committed height the tree is the live tree.
pub proof fn law_snapshot_at_frontier(db: Contents, height: u64, last: Option<u64>)
    requires
        last is Some ==> height >= last->Some_0,
    ensures
        leaves_at(db, height, last) == live_leaves(db),
{
    assert forall|leaf: Seq<u8>| #[trigger]
        leaves_at(db, height, last).get(leaf) == live_leaves(db).get(leaf) by {
        assert(held_at(db, leaves_ns(), leaf, height, last) == Some(
            current(db, leaves_ns(), leaf),
        ));
    }
    lemma_same_reads(leaves_at(db, height, last), live_leaves(db));
}

/// Snapshots outlive a commit. The tree as of a height below a block is
/// the same tree, with the same root, after the block is committed.
pub proof fn law_snapshot_kept(db: Contents, block: BlockInfo, changes: Changes, height: u64)
    requires
        history_bound(db, block.prev),
        above(block.prev, block.height),
        height < block.height,
    ensures
        leaves_at(committed(db, block, changes), height, Some(block.height)) == leaves_at(
            db,
            height,
            block.prev,
        ),
        root_of_leaves(leaves_at(committed(db, block, changes), height, Some(block.height)))
            == root_of_leaves(leaves_at(db, height, block.prev)),
{
    let c = committed(db, block, changes);
    assert forall|leaf: Seq<u8>| #[trigger]
        leaves_at(c, height, Some(block.height)).get(leaf) == leaves_at(
            db,
            height,
            block.prev,
        ).get(leaf) by {
        lemma_commit_keeps_leaves(db, block, changes, leaf, height);
    }
    lemma_same_reads(leaves_at(c, height, Some(block.height)), leaves_at(db, height, block.prev));
}

/// What is retained outlives a pruning. As of the new floor and of every
/// height above it, every key and every leaf holds what it held.
pub proof fn law_prune_keeps_history(
    db: Contents,
    floor: u64,
    key: Seq<u8>,
    height: u64,
    last: Option<u64>,
)
    requires
        height >= floor,
    ensures
        held_at(pruned(db, floor), values_ns(), key, height, last) == held_at(
            db,
            values_ns(),
            key,
            height,
            last,
        ),
        leaves_at(pruned(db, floor), height, last) == leaves_at(db, height, last),
{
    lemma_prune_keeps_held(db, floor, values_ns(), key, height, last);
    assert forall|leaf: Seq<u8>| #[trigger]
        leaves_at(pruned(db, floor), height, last).get(leaf) == leaves_at(db, height, last).get(
            leaf,
        ) by {
        lemma_prune_keeps_held(db, floor, leaves_ns(), leaf, height, last);
    }
    lemma_same_reads(leaves_at(pruned(db, floor), height, last), leaves_at(db, height, last));
}

/// `height` lies in `epoch`: at or above the first height of the epoch,
/// and below the first height of the next where there is one.
pub open spec fn in_epoch(db: Contents, height: u64, epoch: u64, current: u64) -> bool {
    &&& 1 <= epoch <= current
    &&& start_of(db, epoch) <= height
    &&& epoch < current ==> height < start_of(db, (epoch + 1) as u64)
}

/// The pruning boundary. Where a pruning with a retention of `retain`
/// epochs moves the floor, every height of an epoch within the retention
/// window lies at or above the new floor, and every height of an older
/// epoch lies below it.
pub proof fn law_pruning_boundary(
    db: Contents,
    current: u64,
    last: Option<u64>,
    retain: u64,
    floor: u64,
    height: u64,
    epoch: u64,
)
    requires
        schedule_ok(db, current, last),
        in_epoch(db, height, epoch, current),
        prune_target(db, current, retain, floor) is Some,
        prune_target(db, current, retain, floor)->Some_0 is Some,
    ensures
        ({
            let new_floor = prune_target(db, current, retain, floor)->Some_0->Some_0;
            &&& epoch + retain >= current ==> height >= new_floor
            &&& epoch + retain < current ==> height < new_floor
        }),
{
    let oldest = (current - retain) as u64;
    assert(epoch_start(db, oldest) is Some);
    if oldest == 0 {
        assert(db.get(crate::layout::height_key(crate::layout::TAG_EPOCH_START, oldest)) is None);
    }
    assert(epoch_start(db, epoch) is Some);
    if epoch + retain >= current {
        assert(start_of(db, oldest) <= start_of(db, epoch));
    } else {
        let next = (epoch + 1) as u64;
        assert(epoch_start(db, next) is Some);
        assert(start_of(db, next) <= start_of(db, oldest));
    }
}

/// The tree commits to the values. Two stores whose leaves mirror their
/// values, and that hold the same value under every key, have the same
/// leaves and the same root, as long as no two of their keys share a
/// digest.
pub proof fn law_same_values_same_root(first: Contents, second: Contents, keys: Set<Seq<u8>>)
    requires
        crate::soundness::injective_on(keys),
        crate::soundness::mirrors(first, keys),
        crate::soundness::mirrors(second, keys),
        forall|k: Seq<u8>| #[trigger]
            current(first, values_ns(), k) == current(second, values_ns(), k),
    ensures
        live_leaves(first) == live_leaves(second),
        root_of_leaves(live_leaves(first)) == root_of_leaves(live_leaves(second)),
{
    assert forall|leaf: Seq<u8>| #[trigger]
        live_leaves(first).get(leaf) == live_leaves(second).get(leaf) by {
        if current(first, leaves_ns(), leaf) is Some {
            lemma_mirror_leaf(first, second, keys, leaf);
        }
        if current(second, leaves_ns(), leaf) is Some {
            lemma_mirror_leaf(second, first, keys, leaf);
        }
    }
    lemma_same_reads(live_leaves(first), live_leaves(second));
}

proof fn lemma_mirror_leaf(a: Contents, b: Contents, keys: Set<Seq<u8>>, leaf: Seq<u8>)
    requires
        crate::soundness::mirrors(a, keys),
        crate::soundness::mirrors(b, keys),
        forall|k: Seq<u8>| #[trigger] current(a, values_ns(), k) == current(b, values_ns(), k),
        current(a, leaves_ns(), leaf) is Some,
    ensures
        current(b, leaves_ns(), leaf) == current(a, leaves_ns(), leaf),
{
    let k = choose|k: Seq<u8>| crate::soundness::leaf_owned(a, keys, leaf, k);
    assert(crate::soundness::leaf_owned(a, keys, leaf, k));
    assert(crate::soundness::leaf_mirrors(a, k));
    assert(crate::soundness::leaf_mirrors(b, k));
    assert(current(a, values_ns(), k) == current(b, values_ns(), k));
}

} // verus!
