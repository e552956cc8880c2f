//! What committing a block writes to the byte store, and what that does
//! to the state that the store stands for.

use crate::digest::{storage_digest, zero_digest};
use crate::encoding::{lemma_u64_bytes, u64_bytes};
use crate::layout::{
    chain_step, current, current_key, height_key, held_at, leaves_ns, lemma_current_key_injective,
    lemma_height_key_injective, lemma_key_shapes, lemma_old_key_injective, lemma_old_record_decodes,
    lemma_rollback_frame, old_key, old_record, same_history, single_key, TAG_ADDRESS_GEN, TAG_EPOCH,
    TAG_EPOCH_START, TAG_HASH, TAG_LAST, TAG_LEAF, TAG_LEAF_OLD, TAG_PREV, TAG_VALUE, TAG_VALUE_OLD,
    values_ns, Namespace, Step,
};
use crate::ordered::{lemma_push_sorted, seq_to_map, sorted};
use crate::store::{apply_ops, lemma_apply_ops_push, Contents, Op};
use crate::write_log::{lookup, overlay, staged_value, ModificationView};
use vstd::prelude::*;

verus! {

/// The staged changes of a block, in ascending key order.
pub type Changes = Seq<(Seq<u8>, ModificationView)>;

/// The leaf that stands for a stored value: its digest. No value, and a
/// value whose digest is zero, leave no leaf.
pub open spec fn leaf_value(value: Option<Seq<u8>>) -> Option<Seq<u8>> {
    match value {
        Some(v) => if storage_digest(v) == zero_digest() {
            None
        } else {
            Some(storage_digest(v))
        },
        None => None,
    }
}

/// What the block at `height` writes for one changed key: what the key and
/// its leaf held before, and what they hold now.
pub open spec fn entry_ops(db: Contents, height: u64, key: Seq<u8>, m: ModificationView) -> Seq<Op> {
    let leaf = storage_digest(key);
    Seq::<Op>::empty().push(
        (old_key(TAG_VALUE_OLD, height, key), Some(old_record(db.get(current_key(TAG_VALUE, key))))),
    ).push((current_key(TAG_VALUE, key), staged_value(m))).push(
        (old_key(TAG_LEAF_OLD, height, leaf), Some(old_record(db.get(current_key(TAG_LEAF, leaf))))),
    ).push((current_key(TAG_LEAF, leaf), leaf_value(staged_value(m))))
}

/// What the block at `height` writes for its changes, key by key.
pub open spec fn log_ops(db: Contents, height: u64, changes: Changes) -> Seq<Op>
    decreases changes.len(),
{
    if changes.len() == 0 {
        Seq::empty()
    } else {
        log_ops(db, height, changes.drop_last()) + entry_ops(
            db,
            height,
            changes.last().0,
            changes.last().1,
        )
    }
}

/// The block that is committed.
pub struct BlockInfo {
    pub height: u64,
    /// The height committed before it, if any.
    pub prev: Option<u64>,
    pub epoch: u64,
    pub hash: Seq<u8>,
    /// Whether the block is the first of its epoch.
    pub new_epoch: bool,
    pub address_gen: u64,
}

pub open spec fn some_u64(v: Option<u64>) -> Option<Seq<u8>> {
    match v {
        Some(x) => Some(u64_bytes(x)),
        None => None,
    }
}

/// What a block writes about itself.
pub open spec fn block_ops(b: BlockInfo) -> Seq<Op> {
    let ops = Seq::<Op>::empty().push((height_key(TAG_PREV, b.height), some_u64(b.prev))).push(
        (single_key(TAG_LAST), Some(u64_bytes(b.height))),
    ).push((single_key(TAG_EPOCH), Some(u64_bytes(b.epoch)))).push(
        (single_key(TAG_HASH), Some(b.hash)),
    ).push((single_key(TAG_ADDRESS_GEN), Some(u64_bytes(b.address_gen))));
    if b.new_epoch {
        ops.push((height_key(TAG_EPOCH_START, b.epoch), Some(u64_bytes(b.height))))
    } else {
        ops
    }
}

/// Everything that committing a block writes, in order.
pub open spec fn commit_ops(db: Contents, b: BlockInfo, changes: Changes) -> Seq<Op> {
    log_ops(db, b.height, changes) + block_ops(b)
}

/// The store after the block is committed.
pub open spec fn committed(db: Contents, b: BlockInfo, changes: Changes) -> Contents {
    apply_ops(db, commit_ops(db, b, changes))
}

pub proof fn lemma_apply_ops_concat(db: Contents, a: Seq<Op>, b: Seq<Op>)
    ensures
        apply_ops(db, a + b) == apply_ops(apply_ops(db, a), b),
    decreases b.len(),
{
    if b.len() == 0 {
        assert(a + b =~= a);
    } else {
        lemma_apply_ops_concat(db, a, b.drop_last());
        assert((a + b).drop_last() =~= a + b.drop_last());
        assert((a + b).last() == b.last());
    }
}

/// An entry of the store that no operation names stays as it is.
pub proof fn lemma_apply_ops_untouched(db: Contents, ops: Seq<Op>, x: Seq<u8>)
    requires
        forall|i: int| 0 <= i < ops.len() ==> (#[trigger] ops[i]).0 != x,
    ensures
        apply_ops(db, ops).get(x) == db.get(x),
    decreases ops.len(),
{
    if ops.len() > 0 {
        assert forall|i: int| 0 <= i < ops.drop_last().len() implies (#[trigger] ops.drop_last()[i]).0
            != x by {
            assert(ops.drop_last()[i] == ops[i]);
        }
        lemma_apply_ops_untouched(db, ops.drop_last(), x);
        assert(ops.last() == ops[ops.len() - 1]);
    }
}

/// What one changed key leaves under the store key `x`.
pub open spec fn entry_get(
    before: Option<Seq<u8>>,
    db: Contents,
    height: u64,
    key: Seq<u8>,
    m: ModificationView,
    x: Seq<u8>,
) -> Option<Seq<u8>> {
    let leaf = storage_digest(key);
    if x == current_key(TAG_LEAF, leaf) {
        leaf_value(staged_value(m))
    } else if x == old_key(TAG_LEAF_OLD, height, leaf) {
        Some(old_record(db.get(current_key(TAG_LEAF, leaf))))
    } else if x == current_key(TAG_VALUE, key) {
        staged_value(m)
    } else if x == old_key(TAG_VALUE_OLD, height, key) {
        Some(old_record(db.get(current_key(TAG_VALUE, key))))
    } else {
        before
    }
}

pub proof fn lemma_entry_effect(
    m0: Contents,
    db: Contents,
    height: u64,
    key: Seq<u8>,
    m: ModificationView,
    x: Seq<u8>,
)
    ensures
        apply_ops(m0, entry_ops(db, height, key, m)).get(x) == entry_get(
            m0.get(x),
            db,
            height,
            key,
            m,
            x,
        ),
{
    let leaf = storage_digest(key);
    let a: Op = (
        old_key(TAG_VALUE_OLD, height, key),
        Some(old_record(db.get(current_key(TAG_VALUE, key)))),
    );
    let b: Op = (current_key(TAG_VALUE, key), staged_value(m));
    let c: Op = (
        old_key(TAG_LEAF_OLD, height, leaf),
        Some(old_record(db.get(current_key(TAG_LEAF, leaf)))),
    );
    let d: Op = (current_key(TAG_LEAF, leaf), leaf_value(staged_value(m)));
    let e = Seq::<Op>::empty();
    lemma_apply_ops_push(m0, e, a);
    lemma_apply_ops_push(m0, e.push(a), b);
    lemma_apply_ops_push(m0, e.push(a).push(b), c);
    lemma_apply_ops_push(m0, e.push(a).push(b).push(c), d);
    assert(apply_ops(m0, e) == m0);
    lemma_key_shapes(TAG_VALUE_OLD, height, key);
    lemma_key_shapes(TAG_VALUE, height, key);
    lemma_key_shapes(TAG_LEAF_OLD, height, leaf);
    lemma_key_shapes(TAG_LEAF, height, leaf);
}

/// The store after the operations of the changes alone.
pub open spec fn staged(db: Contents, height: u64, changes: Changes) -> Contents {
    apply_ops(db, log_ops(db, height, changes))
}

pub proof fn lemma_staged_step(db: Contents, height: u64, changes: Changes, x: Seq<u8>)
    requires
        changes.len() > 0,
    ensures
        staged(db, height, changes).get(x) == entry_get(
            staged(db, height, changes.drop_last()).get(x),
            db,
            height,
            changes.last().0,
            changes.last().1,
            x,
        ),
{
    lemma_apply_ops_concat(
        db,
        log_ops(db, height, changes.drop_last()),
        entry_ops(db, height, changes.last().0, changes.last().1),
    );
    lemma_entry_effect(
        staged(db, height, changes.drop_last()),
        db,
        height,
        changes.last().0,
        changes.last().1,
        x,
    );
}

pub proof fn lemma_drop_last_sorted(changes: Changes)
    requires
        sorted(changes),
        changes.len() > 0,
    ensures
        sorted(changes.drop_last()),
        seq_to_map(changes) == seq_to_map(changes.drop_last()).insert(
            changes.last().0,
            changes.last().1,
        ),
        !seq_to_map(changes.drop_last()).contains_key(changes.last().0),
{
    let d = changes.drop_last();
    let last = changes.last();
    assert forall|i: int, j: int| 0 <= i < j < d.len() implies crate::bytes::lex_lt(
        #[trigger] d[i].0,
        #[trigger] d[j].0,
    ) by {
        assert(d[i] == changes[i]);
        assert(d[j] == changes[j]);
    }
    assert forall|i: int| 0 <= i < d.len() implies crate::bytes::lex_lt(#[trigger] d[i].0, last.0) by {
        assert(d[i] == changes[i]);
        assert(crate::bytes::lex_lt(changes[i].0, changes[changes.len() - 1].0));
    }
    lemma_push_sorted(d, last.0, last.1);
    assert(d.push((last.0, last.1)) =~= changes);
    if seq_to_map(d).contains_key(last.0) {
        let i = crate::ordered::lemma_map_key_index(d, last.0);
        crate::bytes::lemma_lex_irreflexive(last.0);
    }
}

/// A committed block leaves under every storage key what was staged for
/// it, and what it held before where nothing was staged.
pub proof fn lemma_staged_values(db: Contents, height: u64, changes: Changes, key: Seq<u8>)
    requires
        sorted(changes),
    ensures
        staged(db, height, changes).get(current_key(TAG_VALUE, key)) == overlay(
            db.get(current_key(TAG_VALUE, key)),
            lookup(seq_to_map(changes), key),
        ),
    decreases changes.len(),
{
    let x = current_key(TAG_VALUE, key);
    if changes.len() == 0 {
        assert(log_ops(db, height, changes) =~= Seq::<Op>::empty());
    } else {
        let d = changes.drop_last();
        let last = changes.last();
        lemma_drop_last_sorted(changes);
        lemma_staged_values(db, height, d, key);
        lemma_staged_step(db, height, changes, x);
        lemma_key_shapes(TAG_VALUE, height, key);
        lemma_key_shapes(TAG_VALUE_OLD, height, last.0);
        lemma_key_shapes(TAG_LEAF, height, storage_digest(last.0));
        lemma_key_shapes(TAG_LEAF_OLD, height, storage_digest(last.0));
        if x == current_key(TAG_VALUE, last.0) {
            lemma_current_key_injective(TAG_VALUE, key, last.0);
        }
    }
}

/// A committed block records, for every storage key that it changes, what
/// the key held before; other records stay as they are.
pub proof fn lemma_staged_old_values(
    db: Contents,
    height: u64,
    changes: Changes,
    j: u64,
    key: Seq<u8>,
)
    requires
        sorted(changes),
    ensures
        staged(db, height, changes).get(old_key(TAG_VALUE_OLD, j, key)) == (if j == height
            && seq_to_map(changes).contains_key(key) {
            Some(old_record(db.get(current_key(TAG_VALUE, key))))
        } else {
            db.get(old_key(TAG_VALUE_OLD, j, key))
        }),
    decreases changes.len(),
{
    let x = old_key(TAG_VALUE_OLD, j, key);
    if changes.len() == 0 {
        assert(log_ops(db, height, changes) =~= Seq::<Op>::empty());
        assert(!seq_to_map(changes).contains_key(key));
    } else {
        let d = changes.drop_last();
        let last = changes.last();
        lemma_drop_last_sorted(changes);
        lemma_staged_old_values(db, height, d, j, key);
        lemma_staged_step(db, height, changes, x);
        lemma_key_shapes(TAG_VALUE_OLD, j, key);
        lemma_key_shapes(TAG_VALUE, height, last.0);
        lemma_key_shapes(TAG_LEAF, height, storage_digest(last.0));
        lemma_key_shapes(TAG_LEAF_OLD, height, storage_digest(last.0));
        if x == old_key(TAG_VALUE_OLD, height, last.0) {
            lemma_old_key_injective(TAG_VALUE_OLD, j, key, height, last.0);
        }
    }
}

/// What the leaf under `leaf` holds after the changes, given what it held
/// before: the last change whose key falls on the leaf decides.
pub open spec fn leaf_after(before: Option<Seq<u8>>, changes: Changes, leaf: Seq<u8>) -> Option<
    Seq<u8>,
>
    decreases changes.len(),
{
    if changes.len() == 0 {
        before
    } else if storage_digest(changes.last().0) == leaf {
        leaf_value(staged_value(changes.last().1))
    } else {
        leaf_after(before, changes.drop_last(), leaf)
    }
}

/// Some change has a key that falls on `leaf`.
pub open spec fn touches(changes: Changes, leaf: Seq<u8>) -> bool
    decreases changes.len(),
{
    changes.len() > 0 && (storage_digest(changes.last().0) == leaf || touches(
        changes.drop_last(),
        leaf,
    ))
}

pub proof fn lemma_untouched_leaf(before: Option<Seq<u8>>, changes: Changes, leaf: Seq<u8>)
    requires
        !touches(changes, leaf),
    ensures
        leaf_after(before, changes, leaf) == before,
    decreases changes.len(),
{
    if changes.len() > 0 {
        lemma_untouched_leaf(before, changes.drop_last(), leaf);
    }
}

pub proof fn lemma_staged_leaves(db: Contents, height: u64, changes: Changes, leaf: Seq<u8>)
    ensures
        staged(db, height, changes).get(current_key(TAG_LEAF, leaf)) == leaf_after(
            db.get(current_key(TAG_LEAF, leaf)),
            changes,
            leaf,
        ),
    decreases changes.len(),
{
    let x = current_key(TAG_LEAF, leaf);
    if changes.len() == 0 {
        assert(log_ops(db, height, changes) =~= Seq::<Op>::empty());
    } else {
        let last = changes.last();
        lemma_staged_leaves(db, height, changes.drop_last(), leaf);
        lemma_staged_step(db, height, changes, x);
        lemma_key_shapes(TAG_LEAF, height, leaf);
        lemma_key_shapes(TAG_VALUE_OLD, height, last.0);
        lemma_key_shapes(TAG_VALUE, height, last.0);
        lemma_key_shapes(TAG_LEAF_OLD, height, storage_digest(last.0));
        if x == current_key(TAG_LEAF, storage_digest(last.0)) {
            lemma_current_key_injective(TAG_LEAF, leaf, storage_digest(last.0));
        }
    }
}

pub proof fn lemma_staged_old_leaves(
    db: Contents,
    height: u64,
    changes: Changes,
    j: u64,
    leaf: Seq<u8>,
)
    ensures
        staged(db, height, changes).get(old_key(TAG_LEAF_OLD, j, leaf)) == (if j == height
            && touches(changes, leaf) {
            Some(old_record(db.get(current_key(TAG_LEAF, leaf))))
        } else {
            db.get(old_key(TAG_LEAF_OLD, j, leaf))
        }),
    decreases changes.len(),
{
    let x = old_key(TAG_LEAF_OLD, j, leaf);
    if changes.len() == 0 {
        assert(log_ops(db, height, changes) =~= Seq::<Op>::empty());
    } else {
        let last = changes.last();
        lemma_staged_old_leaves(db, height, changes.drop_last(), j, leaf);
        lemma_staged_step(db, height, changes, x);
        lemma_key_shapes(TAG_LEAF_OLD, j, leaf);
        lemma_key_shapes(TAG_VALUE_OLD, height, last.0);
        lemma_key_shapes(TAG_VALUE, height, last.0);
        lemma_key_shapes(TAG_LEAF, height, storage_digest(last.0));
        if x == old_key(TAG_LEAF_OLD, height, storage_digest(last.0)) {
            lemma_old_key_injective(TAG_LEAF_OLD, j, leaf, height, storage_digest(last.0));
        }
    }
}

/// `x` is no store key of the two namespaces that changes are written to.
pub open spec fn outside_namespaces(x: Seq<u8>) -> bool {
    x.len() == 0 || (x[0] != TAG_VALUE && x[0] != TAG_VALUE_OLD && x[0] != TAG_LEAF && x[0]
        != TAG_LEAF_OLD)
}

pub proof fn lemma_staged_other(db: Contents, height: u64, changes: Changes, x: Seq<u8>)
    requires
        outside_namespaces(x),
    ensures
        staged(db, height, changes).get(x) == db.get(x),
    decreases changes.len(),
{
    if changes.len() == 0 {
        assert(log_ops(db, height, changes) =~= Seq::<Op>::empty());
    } else {
        let last = changes.last();
        lemma_staged_other(db, height, changes.drop_last(), x);
        lemma_staged_step(db, height, changes, x);
        lemma_key_shapes(TAG_VALUE_OLD, height, last.0);
        lemma_key_shapes(TAG_VALUE, height, last.0);
        lemma_key_shapes(TAG_LEAF, height, storage_digest(last.0));
        lemma_key_shapes(TAG_LEAF_OLD, height, storage_digest(last.0));
    }
}

/// What a block's own records leave under the store key `x`.
pub open spec fn block_get(before: Option<Seq<u8>>, b: BlockInfo, x: Seq<u8>) -> Option<Seq<u8>> {
    if b.new_epoch && x == height_key(TAG_EPOCH_START, b.epoch) {
        Some(u64_bytes(b.height))
    } else if x == single_key(TAG_ADDRESS_GEN) {
        Some(u64_bytes(b.address_gen))
    } else if x == single_key(TAG_HASH) {
        Some(b.hash)
    } else if x == single_key(TAG_EPOCH) {
        Some(u64_bytes(b.epoch))
    } else if x == single_key(TAG_LAST) {
        Some(u64_bytes(b.height))
    } else if x == height_key(TAG_PREV, b.height) {
        some_u64(b.prev)
    } else {
        before
    }
}

pub proof fn lemma_block_effect(m0: Contents, b: BlockInfo, x: Seq<u8>)
    ensures
        apply_ops(m0, block_ops(b)).get(x) == block_get(m0.get(x), b, x),
{
    let o1: Op = (height_key(TAG_PREV, b.height), some_u64(b.prev));
    let o2: Op = (single_key(TAG_LAST), Some(u64_bytes(b.height)));
    let o3: Op = (single_key(TAG_EPOCH), Some(u64_bytes(b.epoch)));
    let o4: Op = (single_key(TAG_HASH), Some(b.hash));
    let o5: Op = (single_key(TAG_ADDRESS_GEN), Some(u64_bytes(b.address_gen)));
    let o6: Op = (height_key(TAG_EPOCH_START, b.epoch), Some(u64_bytes(b.height)));
    let e = Seq::<Op>::empty();
    lemma_apply_ops_push(m0, e, o1);
    lemma_apply_ops_push(m0, e.push(o1), o2);
    lemma_apply_ops_push(m0, e.push(o1).push(o2), o3);
    lemma_apply_ops_push(m0, e.push(o1).push(o2).push(o3), o4);
    lemma_apply_ops_push(m0, e.push(o1).push(o2).push(o3).push(o4), o5);
    lemma_apply_ops_push(m0, e.push(o1).push(o2).push(o3).push(o4).push(o5), o6);
    assert(apply_ops(m0, e) == m0);
    lemma_key_shapes(TAG_PREV, b.height, e_key());
    lemma_key_shapes(TAG_EPOCH_START, b.epoch, e_key());
    lemma_key_shapes(TAG_LAST, 0, e_key());
    lemma_key_shapes(TAG_EPOCH, 0, e_key());
    lemma_key_shapes(TAG_HASH, 0, e_key());
    lemma_key_shapes(TAG_ADDRESS_GEN, 0, e_key());
}

spec fn e_key() -> Seq<u8> {
    Seq::empty()
}

/// What a committed block leaves under the store key `x`.
pub proof fn lemma_committed_get(db: Contents, b: BlockInfo, changes: Changes, x: Seq<u8>)
    ensures
        committed(db, b, changes).get(x) == block_get(
            staged(db, b.height, changes).get(x),
            b,
            x,
        ),
{
    lemma_apply_ops_concat(db, log_ops(db, b.height, changes), block_ops(b));
    lemma_block_effect(staged(db, b.height, changes), b, x);
}

/// After a commit every storage key holds what was staged for it, and
/// what it held before where nothing was staged.
pub proof fn lemma_committed_values(db: Contents, b: BlockInfo, changes: Changes, key: Seq<u8>)
    requires
        sorted(changes),
    ensures
        current(committed(db, b, changes), values_ns(), key) == overlay(
            current(db, values_ns(), key),
            lookup(seq_to_map(changes), key),
        ),
{
    let x = current_key(TAG_VALUE, key);
    lemma_committed_get(db, b, changes, x);
    lemma_staged_values(db, b.height, changes, key);
    lemma_key_shapes(TAG_VALUE, 0, key);
    lemma_key_shapes(TAG_PREV, b.height, e_key());
    lemma_key_shapes(TAG_EPOCH_START, b.epoch, e_key());
}

/// After a commit every leaf holds what the last change on it left.
pub proof fn lemma_committed_leaves(db: Contents, b: BlockInfo, changes: Changes, leaf: Seq<u8>)
    ensures
        current(committed(db, b, changes), leaves_ns(), leaf) == leaf_after(
            current(db, leaves_ns(), leaf),
            changes,
            leaf,
        ),
{
    let x = current_key(TAG_LEAF, leaf);
    lemma_committed_get(db, b, changes, x);
    lemma_staged_leaves(db, b.height, changes, leaf);
    lemma_key_shapes(TAG_LEAF, 0, leaf);
    lemma_key_shapes(TAG_PREV, b.height, e_key());
    lemma_key_shapes(TAG_EPOCH_START, b.epoch, e_key());
}

/// A commit leaves the link of its own height and no other.
pub proof fn lemma_committed_links(db: Contents, b: BlockInfo, changes: Changes, j: u64)
    ensures
        committed(db, b, changes).get(height_key(TAG_PREV, j)) == (if j == b.height {
            some_u64(b.prev)
        } else {
            db.get(height_key(TAG_PREV, j))
        }),
{
    let x = height_key(TAG_PREV, j);
    lemma_committed_get(db, b, changes, x);
    lemma_key_shapes(TAG_PREV, j, e_key());
    lemma_staged_other(db, b.height, changes, x);
    lemma_key_shapes(TAG_EPOCH_START, b.epoch, e_key());
    if x == height_key(TAG_PREV, b.height) {
        lemma_height_key_injective(TAG_PREV, j, b.height);
    }
}

/// A commit records what its changed storage keys held, under its own
/// height, and leaves the records of other heights as they are.
pub proof fn lemma_committed_old_values(
    db: Contents,
    b: BlockInfo,
    changes: Changes,
    j: u64,
    key: Seq<u8>,
)
    requires
        sorted(changes),
    ensures
        committed(db, b, changes).get(old_key(TAG_VALUE_OLD, j, key)) == (if j == b.height
            && seq_to_map(changes).contains_key(key) {
            Some(old_record(current(db, values_ns(), key)))
        } else {
            db.get(old_key(TAG_VALUE_OLD, j, key))
        }),
{
    let x = old_key(TAG_VALUE_OLD, j, key);
    lemma_committed_get(db, b, changes, x);
    lemma_staged_old_values(db, b.height, changes, j, key);
    lemma_key_shapes(TAG_VALUE_OLD, j, key);
    lemma_key_shapes(TAG_PREV, b.height, e_key());
    lemma_key_shapes(TAG_EPOCH_START, b.epoch, e_key());
}

pub proof fn lemma_committed_old_leaves(
    db: Contents,
    b: BlockInfo,
    changes: Changes,
    j: u64,
    leaf: Seq<u8>,
)
    ensures
        committed(db, b, changes).get(old_key(TAG_LEAF_OLD, j, leaf)) == (if j == b.height
            && touches(changes, leaf) {
            Some(old_record(current(db, leaves_ns(), leaf)))
        } else {
            db.get(old_key(TAG_LEAF_OLD, j, leaf))
        }),
{
    let x = old_key(TAG_LEAF_OLD, j, leaf);
    lemma_committed_get(db, b, changes, x);
    lemma_staged_old_leaves(db, b.height, changes, j, leaf);
    lemma_key_shapes(TAG_LEAF_OLD, j, leaf);
    lemma_key_shapes(TAG_PREV, b.height, e_key());
    lemma_key_shapes(TAG_EPOCH_START, b.epoch, e_key());
}

/// `j` is above the last committed height, if there is one.
pub open spec fn above(last: Option<u64>, j: u64) -> bool {
    match last {
        Some(l) => j > l,
        None => true,
    }
}

/// The store holds no record and no link of a height above `last`.
pub open spec fn history_bound(db: Contents, last: Option<u64>) -> bool {
    &&& forall|j: u64, key: Seq<u8>|
        above(last, j) ==> #[trigger] db.get(old_key(TAG_VALUE_OLD, j, key)) is None
    &&& forall|j: u64, leaf: Seq<u8>|
        above(last, j) ==> #[trigger] db.get(old_key(TAG_LEAF_OLD, j, leaf)) is None
    &&& forall|j: u64| above(last, j) ==> #[trigger] db.get(height_key(TAG_PREV, j)) is None
}

pub proof fn lemma_commit_keeps_bound(db: Contents, b: BlockInfo, changes: Changes)
    requires
        sorted(changes),
        history_bound(db, b.prev),
        above(b.prev, b.height),
    ensures
        history_bound(committed(db, b, changes), Some(b.height)),
{
    let c = committed(db, b, changes);
    assert forall|j: u64, key: Seq<u8>| above(Some(b.height), j) implies #[trigger] c.get(
        old_key(TAG_VALUE_OLD, j, key),
    ) is None by {
        lemma_committed_old_values(db, b, changes, j, key);
        assert(db.get(old_key(TAG_VALUE_OLD, j, key)) is None);
    }
    assert forall|j: u64, leaf: Seq<u8>| above(Some(b.height), j) implies #[trigger] c.get(
        old_key(TAG_LEAF_OLD, j, leaf),
    ) is None by {
        lemma_committed_old_leaves(db, b, changes, j, leaf);
        assert(db.get(old_key(TAG_LEAF_OLD, j, leaf)) is None);
    }
    assert forall|j: u64| above(Some(b.height), j) implies #[trigger] c.get(
        height_key(TAG_PREV, j),
    ) is None by {
        lemma_committed_links(db, b, changes, j);
        assert(db.get(height_key(TAG_PREV, j)) is None);
    }
}

/// One more committed height on top of a store leaves every earlier state
/// of `key` as it was, given what the height wrote for `key`.
pub proof fn lemma_history_step(
    db: Contents,
    after: Contents,
    ns: Namespace,
    key: Seq<u8>,
    h: u64,
    g: u64,
    prev: Option<u64>,
)
    requires
        h < g,
        above(prev, g) && (prev matches Some(l) ==> l < g),
        after.get(height_key(TAG_PREV, g)) == some_u64(prev),
        after.get(old_key(ns.old, g, key)) == Some(old_record(current(db, ns, key))) || (after.get(
            old_key(ns.old, g, key),
        ) is None && current(after, ns, key) == current(db, ns, key)),
        forall|j: u64|
            j < g ==> #[trigger] after.get(old_key(ns.old, j, key)) == db.get(
                old_key(ns.old, j, key),
            ) && after.get(height_key(TAG_PREV, j)) == db.get(height_key(TAG_PREV, j)),
    ensures
        held_at(after, ns, key, h, Some(g)) == held_at(db, ns, key, h, prev),
{
    let cur = current(db, ns, key);
    lemma_old_record_decodes(cur);
    match prev {
        Some(l) => {
            lemma_u64_bytes(l);
            assert(chain_step(after, g) == Step::Prev(l));
            assert(same_history(after, db, ns.old, key, h, l)) by {
                assert forall|j: u64| h < j <= l implies #[trigger] after.get(
                    old_key(ns.old, j, key),
                ) == db.get(old_key(ns.old, j, key)) && after.get(height_key(TAG_PREV, j))
                    == db.get(height_key(TAG_PREV, j)) by {
                    assert(after.get(old_key(ns.old, j, key)) == db.get(old_key(ns.old, j, key)));
                }
            }
            lemma_rollback_frame(after, db, ns.old, key, h, l, cur);
        },
        None => {
            assert(chain_step(after, g) == Step::End);
        },
    }
}

/// Committing a block leaves what every storage key held as of every
/// earlier height as it was.
pub proof fn lemma_commit_keeps_values(
    db: Contents,
    b: BlockInfo,
    changes: Changes,
    key: Seq<u8>,
    h: u64,
)
    requires
        sorted(changes),
        history_bound(db, b.prev),
        above(b.prev, b.height),
        h < b.height,
    ensures
        held_at(committed(db, b, changes), values_ns(), key, h, Some(b.height)) == held_at(
            db,
            values_ns(),
            key,
            h,
            b.prev,
        ),
{
    let c = committed(db, b, changes);
    let g = b.height;
    lemma_committed_old_values(db, b, changes, g, key);
    lemma_committed_values(db, b, changes, key);
    lemma_committed_links(db, b, changes, g);
    assert(db.get(old_key(TAG_VALUE_OLD, g, key)) is None);
    assert forall|j: u64| j < g implies #[trigger] c.get(old_key(TAG_VALUE_OLD, j, key)) == db.get(
        old_key(TAG_VALUE_OLD, j, key),
    ) && c.get(height_key(TAG_PREV, j)) == db.get(height_key(TAG_PREV, j)) by {
        lemma_committed_old_values(db, b, changes, j, key);
        lemma_committed_links(db, b, changes, j);
    }
    lemma_history_step(db, c, values_ns(), key, h, g, b.prev);
}

/// Committing a block leaves what every leaf held as of every earlier
/// height as it was.
pub proof fn lemma_commit_keeps_leaves(
    db: Contents,
    b: BlockInfo,
    changes: Changes,
    leaf: Seq<u8>,
    h: u64,
)
    requires
        history_bound(db, b.prev),
        above(b.prev, b.height),
        h < b.height,
    ensures
        held_at(committed(db, b, changes), leaves_ns(), leaf, h, Some(b.height)) == held_at(
            db,
            leaves_ns(),
            leaf,
            h,
            b.prev,
        ),
{
    let c = committed(db, b, changes);
    let g = b.height;
    lemma_committed_old_leaves(db, b, changes, g, leaf);
    lemma_committed_leaves(db, b, changes, leaf);
    lemma_committed_links(db, b, changes, g);
    assert(db.get(old_key(TAG_LEAF_OLD, g, leaf)) is None);
    if !touches(changes, leaf) {
        lemma_untouched_leaf(current(db, leaves_ns(), leaf), changes, leaf);
    }
    assert forall|j: u64| j < g implies #[trigger] c.get(old_key(TAG_LEAF_OLD, j, leaf)) == db.get(
        old_key(TAG_LEAF_OLD, j, leaf),
    ) && c.get(height_key(TAG_PREV, j)) == db.get(height_key(TAG_PREV, j)) by {
        lemma_committed_old_leaves(db, b, changes, j, leaf);
        lemma_committed_links(db, b, changes, j);
    }
    lemma_history_step(db, c, leaves_ns(), leaf, h, g, b.prev);
}

} // verus!
