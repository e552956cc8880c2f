//! Pruning: dropping the records of the heights below a floor. The state
//! as of the floor and of every height above it stays readable.

use crate::bytes::{clone_bytes, sub_bytes};
use crate::commit::lemma_apply_ops_concat;
use crate::encoding::{decode_u64, lemma_u64_bytes, u64_bytes};
use crate::layout::{
    current_key, height_key, held_at, lemma_key_shapes, lemma_rollback_frame, make_single_key,
    old_key, same_history, single_key, TAG_FLOOR, TAG_LEAF, TAG_LEAF_OLD, TAG_PREV, TAG_VALUE,
    TAG_VALUE_OLD, Namespace,
};
use crate::ordered::{has_key_at, lemma_map_key_index, lemma_sorted_entry};
use crate::store::{
    apply_ops, is_listing, lemma_apply_ops_push, pairs_view, prefix_part, Batch, ByteStore,
    Contents, Op,
};
use vstd::bytes::spec_u64_from_le_bytes;
use vstd::prelude::*;

verus! {

/// The height that a per-height store key belongs to.
pub open spec fn height_of(x: Seq<u8>) -> u64 {
    spec_u64_from_le_bytes(x.subrange(1, 9))
}

/// `x` is a record or a link of a height below `floor`.
pub open spec fn is_stale(x: Seq<u8>, floor: u64) -> bool {
    x.len() >= 9 && (x[0] == TAG_VALUE_OLD || x[0] == TAG_LEAF_OLD || x[0] == TAG_PREV)
        && height_of(x) < floor
}

/// The store without the records and links of the heights below `floor`,
/// and with `floor` recorded.
pub open spec fn pruned(db: Contents, floor: u64) -> Contents {
    Map::new(
        |x: Seq<u8>| x == single_key(TAG_FLOOR) || (db.contains_key(x) && !is_stale(x, floor)),
        |x: Seq<u8>|
            if x == single_key(TAG_FLOOR) {
                u64_bytes(floor)
            } else {
                db[x]
            },
    )
}

/// The deletes that drop the stale entries of a listing.
pub open spec fn delete_stale(l: Seq<(Seq<u8>, Seq<u8>)>, floor: u64) -> Seq<Op>
    decreases l.len(),
{
    if l.len() == 0 {
        Seq::empty()
    } else if is_stale(l.last().0, floor) {
        delete_stale(l.drop_last(), floor).push((l.last().0, None))
    } else {
        delete_stale(l.drop_last(), floor)
    }
}

pub open spec fn listed(l: Seq<(Seq<u8>, Seq<u8>)>, x: Seq<u8>) -> bool {
    exists|i: int| has_key_at(l, x, i)
}

pub proof fn lemma_delete_stale(m: Contents, l: Seq<(Seq<u8>, Seq<u8>)>, floor: u64, x: Seq<u8>)
    ensures
        apply_ops(m, delete_stale(l, floor)).get(x) == (if is_stale(x, floor) && listed(l, x) {
            None
        } else {
            m.get(x)
        }),
    decreases l.len(),
{
    if l.len() > 0 {
        let d = l.drop_last();
        lemma_delete_stale(m, d, floor, x);
        if is_stale(l.last().0, floor) {
            lemma_apply_ops_push(m, delete_stale(d, floor), (l.last().0, None));
        }
        if listed(d, x) {
            let i = choose|i: int| has_key_at(d, x, i);
            assert(has_key_at(l, x, i));
        }
        if listed(l, x) {
            let i = choose|i: int| has_key_at(l, x, i);
            if i < l.len() - 1 {
                assert(has_key_at(d, x, i));
            }
        } else {
            if l.last().0 == x {
                assert(has_key_at(l, x, l.len() - 1));
            }
        }
    }
}

/// Everything that a pruning writes, from the listings of the three kinds
/// of per-height entries.
pub open spec fn prune_ops(
    values: Seq<(Seq<u8>, Seq<u8>)>,
    leaves: Seq<(Seq<u8>, Seq<u8>)>,
    links: Seq<(Seq<u8>, Seq<u8>)>,
    floor: u64,
) -> Seq<Op> {
    (delete_stale(values, floor) + delete_stale(leaves, floor) + delete_stale(links, floor)).push(
        (single_key(TAG_FLOOR), Some(u64_bytes(floor))),
    )
}

proof fn lemma_listed(db: Contents, tag: u8, l: Seq<(Seq<u8>, Seq<u8>)>, x: Seq<u8>)
    requires
        is_listing(db, single_key(tag), l),
    ensures
        listed(l, x) == (db.contains_key(x) && x.len() >= 1 && x[0] == tag),
{
    let pre = single_key(tag);
    if listed(l, x) {
        let i = choose|i: int| has_key_at(l, x, i);
        lemma_sorted_entry(l, i);
        assert(prefix_part(db, pre).contains_key(x));
        assert(x.subrange(0, 1) == pre);
        assert(x[0] == x.subrange(0, 1)[0]);
    }
    if db.contains_key(x) && x.len() >= 1 && x[0] == tag {
        assert(x.subrange(0, 1) =~= pre);
        assert(prefix_part(db, pre).contains_key(x));
        let i = lemma_map_key_index(l, x);
    }
}

pub proof fn lemma_prune_ops(
    db: Contents,
    values: Seq<(Seq<u8>, Seq<u8>)>,
    leaves: Seq<(Seq<u8>, Seq<u8>)>,
    links: Seq<(Seq<u8>, Seq<u8>)>,
    floor: u64,
)
    requires
        is_listing(db, single_key(TAG_VALUE_OLD), values),
        is_listing(db, single_key(TAG_LEAF_OLD), leaves),
        is_listing(db, single_key(TAG_PREV), links),
    ensures
        apply_ops(db, prune_ops(values, leaves, links, floor)) == pruned(db, floor),
{
    let a = delete_stale(values, floor);
    let b = delete_stale(leaves, floor);
    let c = delete_stale(links, floor);
    let m1 = apply_ops(db, a);
    let m2 = apply_ops(m1, b);
    let m3 = apply_ops(m2, c);
    lemma_apply_ops_concat(db, a, b);
    lemma_apply_ops_concat(db, a + b, c);
    lemma_apply_ops_push(db, a + b + c, (single_key(TAG_FLOOR), Some(u64_bytes(floor))));
    let after = apply_ops(db, prune_ops(values, leaves, links, floor));
    assert forall|x: Seq<u8>| #[trigger] after.get(x) == pruned(db, floor).get(x) by {
        lemma_delete_stale(db, values, floor, x);
        lemma_delete_stale(m1, leaves, floor, x);
        lemma_delete_stale(m2, links, floor, x);
        lemma_listed(db, TAG_VALUE_OLD, values, x);
        lemma_listed(db, TAG_LEAF_OLD, leaves, x);
        lemma_listed(db, TAG_PREV, links, x);
    }
    crate::snapshot::lemma_same_reads(after, pruned(db, floor));
}

/// Pruning leaves what every key held as of the floor, and as of every
/// height above it, as it was.
pub proof fn lemma_prune_keeps_held(
    db: Contents,
    floor: u64,
    ns: Namespace,
    key: Seq<u8>,
    h: u64,
    last: Option<u64>,
)
    requires
        h >= floor,
        (ns.current == TAG_VALUE && ns.old == TAG_VALUE_OLD) || (ns.current == TAG_LEAF && ns.old
            == TAG_LEAF_OLD),
    ensures
        held_at(pruned(db, floor), ns, key, h, last) == held_at(db, ns, key, h, last),
{
    let p = pruned(db, floor);
    lemma_key_shapes(ns.current, 0, key);
    assert(p.get(current_key(ns.current, key)) == db.get(current_key(ns.current, key)));
    match last {
        Some(l) => {
            assert(same_history(p, db, ns.old, key, h, l)) by {
                assert forall|j: u64| h < j <= l implies #[trigger] p.get(old_key(ns.old, j, key))
                    == db.get(old_key(ns.old, j, key)) && p.get(height_key(TAG_PREV, j)) == db.get(
                    height_key(TAG_PREV, j),
                ) by {
                    lemma_key_shapes(ns.old, j, key);
                    lemma_key_shapes(TAG_PREV, j, key);
                    lemma_u64_bytes(j);
                }
            }
            lemma_rollback_frame(p, db, ns.old, key, h, l, db.get(current_key(ns.current, key)));
        },
        None => {},
    }
}

/// Stages the deletes of the stale entries under one tag.
pub(crate) fn stage_stale<S: ByteStore>(db: &S, tag: u8, floor: u64, batch: &mut Batch) -> (l: Ghost<
    Seq<(Seq<u8>, Seq<u8>)>,
>)
    requires
        db.wf(),
    ensures
        is_listing(db.contents(), single_key(tag), l@),
        final(batch).ops() == old(batch).ops() + delete_stale(l@, floor),
{
    let prefix = make_single_key(tag);
    let listing = db.iter_prefix(prefix.as_slice());
    let ghost l = pairs_view(listing@);
    let ghost base = batch.ops();
    let n = listing.len();
    let mut i: usize = 0;
    proof {
        assert(l.subrange(0, 0) =~= Seq::<(Seq<u8>, Seq<u8>)>::empty());
        assert(base + delete_stale(l.subrange(0, 0), floor) =~= base);
    }
    while i < n
        invariant
            i <= n,
            n == listing@.len(),
            l == pairs_view(listing@),
            batch.ops() == base + delete_stale(l.subrange(0, i as int), floor),
        decreases n - i,
    {
        let x = &listing[i].0;
        proof {
            assert(l.subrange(0, i + 1).drop_last() =~= l.subrange(0, i as int));
            assert(l.subrange(0, i + 1).last() == l[i as int]);
            assert(l[i as int].0 == x@);
        }
        if x.len() >= 9 && (x[0] == TAG_VALUE_OLD || x[0] == TAG_LEAF_OLD || x[0] == TAG_PREV) {
            let field = sub_bytes(x.as_slice(), 1, 9);
            match decode_u64(field.as_slice()) {
                Some(h) => {
                    proof {
                        lemma_u64_bytes(h);
                    }
                    if h < floor {
                        batch.delete(clone_bytes(x.as_slice()));
                        assert(batch.ops() =~= base + delete_stale(l.subrange(0, i + 1), floor));
                    }
                },
                None => {},
            }
        }
        i += 1;
    }
    proof {
        assert(l.subrange(0, n as int) =~= l);
    }
    Ghost(l)
}

} // verus!
