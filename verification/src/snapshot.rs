//! The Merkle tree as the byte store holds it: its current leaves, and the
//! records from which the tree of an earlier height is rebuilt.

use crate::bytes::suffix_bytes;
use crate::digest::{digest_from_bytes, is_zero_digest, zero_digest};
use crate::error::Error;
use crate::layout::{
    chain_step, current, current_key, decode_old, decode_old_bytes, height_key, held_at, leaves_ns,
    lemma_current_key_injective, lemma_key_shapes, lemma_old_key_injective, make_height_key,
    make_single_key, old_key, read_old, single_key, TAG_LEAF, TAG_LEAF_OLD, OldRecord, Step,
};
use crate::merkle::{Leaves, MerkleTree};
use crate::ordered::{lemma_map_key_index, lemma_sorted_entry, lemma_sorted_prefix_step, seq_to_map};
use crate::store::{is_listing, pairs_view, prefix_part, ByteStore, Contents};
use vstd::prelude::*;

verus! {

/// The leaves that the store holds now.
pub open spec fn live_leaves(db: Contents) -> Leaves {
    Map::new(
        |leaf: Seq<u8>| db.contains_key(current_key(TAG_LEAF, leaf)),
        |leaf: Seq<u8>| db[current_key(TAG_LEAF, leaf)],
    )
}

/// A stored leaf can be read: a tag and a 32-byte leaf key, and a 32-byte
/// value that is not zero.
pub open spec fn leaf_entry_ok(x: Seq<u8>, v: Seq<u8>) -> bool {
    x.len() == 33 && v.len() == 32 && v != zero_digest()
}

/// Every stored leaf can be read.
pub open spec fn leaves_ok(db: Contents) -> bool {
    forall|x: Seq<u8>|
        db.contains_key(x) && single_key(TAG_LEAF).is_prefix_of(x) ==> leaf_entry_ok(x, #[trigger] db[x])
}

/// A record of what a leaf held can be read: nothing, or a 32-byte value
/// that is not zero.
pub open spec fn leaf_record_ok(b: Seq<u8>) -> bool {
    match decode_old(b) {
        OldRecord::Was(None) => true,
        OldRecord::Was(Some(v)) => v.len() == 32 && v != zero_digest(),
        _ => false,
    }
}

/// A stored leaf record can be read: its key ends in a 32-byte leaf key.
pub open spec fn leaf_record_entry_ok(x: Seq<u8>, b: Seq<u8>) -> bool {
    x.len() == 41 && leaf_record_ok(b)
}

/// Every leaf record of `height` can be read.
pub open spec fn leaf_records_ok(db: Contents, height: u64) -> bool {
    forall|x: Seq<u8>|
        db.contains_key(x) && height_key(TAG_LEAF_OLD, height).is_prefix_of(x)
            ==> leaf_record_entry_ok(x, #[trigger] db[x])
}

/// Every leaf record and link on the way from `g` down to `h` can be read.
pub open spec fn walk_ok(db: Contents, h: u64, g: u64) -> bool
    decreases g,
{
    if g <= h {
        true
    } else {
        leaf_records_ok(db, g) && match chain_step(db, g) {
            Step::Prev(p) => p < g && walk_ok(db, h, p),
            Step::End => true,
            Step::Corrupt => false,
        }
    }
}

/// What the tree held as of `h`, where `last` is the last committed height.
pub open spec fn leaves_at(db: Contents, h: u64, last: Option<u64>) -> Leaves {
    Map::new(
        |leaf: Seq<u8>| held_at(db, leaves_ns(), leaf, h, last) matches Some(Some(_)),
        |leaf: Seq<u8>| held_at(db, leaves_ns(), leaf, h, last)->Some_0->Some_0,
    )
}

/// What a leaf held before `height`, given what it holds after it.
pub open spec fn undone(db: Contents, height: u64, leaf: Seq<u8>, after: Option<Seq<u8>>) -> Option<
    Seq<u8>,
> {
    match read_old(db, TAG_LEAF_OLD, height, leaf) {
        OldRecord::Was(held) => held,
        _ => after,
    }
}

/// Builds the tree over the leaves that the store holds now.
pub fn load_leaves<S: ByteStore>(db: &S) -> (r: Result<MerkleTree, Error>)
    requires
        db.wf(),
    ensures
        match r {
            Ok(tree) => leaves_ok(db.contents()) && tree.leaves() == live_leaves(db.contents()),
            Err(e) => e == Error::DecodeError && !leaves_ok(db.contents()),
        },
{
    let prefix = make_single_key(TAG_LEAF);
    let listing = db.iter_prefix(prefix.as_slice());
    let ghost l = pairs_view(listing@);
    let ghost contents = db.contents();
    let mut tree = MerkleTree::new();
    let n = listing.len();
    let mut i: usize = 0;
    proof {
        assert(l.subrange(0, 0) =~= Seq::<(Seq<u8>, Seq<u8>)>::empty());
    }
    while i < n
        invariant
            i <= n,
            n == listing@.len(),
            l == pairs_view(listing@),
            contents == db.contents(),
            is_listing(contents, single_key(TAG_LEAF), l),
            forall|j: int| 0 <= j < i ==> leaf_entry_ok(#[trigger] l[j].0, l[j].1),
            forall|leaf: Seq<u8>| #[trigger]
                tree.leaves().get(leaf) == seq_to_map(l.subrange(0, i as int)).get(
                    current_key(TAG_LEAF, leaf),
                ),
        decreases n - i,
    {
        let x = &listing[i].0;
        let v = &listing[i].1;
        proof {
            lemma_sorted_entry(l, i as int);
            lemma_sorted_prefix_step(l, i as int);
            assert(l[i as int] == (x@, v@));
            assert(contents.contains_key(x@) && single_key(TAG_LEAF).is_prefix_of(x@));
            assert(contents[x@] == v@);
        }
        if x.len() != 33 {
            return Err(Error::DecodeError);
        }
        let leaf_bytes = suffix_bytes(x.as_slice(), 1);
        let leaf = match digest_from_bytes(leaf_bytes.as_slice()) {
            Some(d) => d,
            None => {
                return Err(Error::DecodeError);
            },
        };
        let value = match digest_from_bytes(v.as_slice()) {
            Some(d) => d,
            None => {
                return Err(Error::DecodeError);
            },
        };
        if is_zero_digest(&value) {
            return Err(Error::DecodeError);
        }
        let ghost before = tree.leaves();
        tree.set_leaf(&leaf, &value);
        proof {
            assert(x@ =~= current_key(TAG_LEAF, leaf@)) by {
                assert(x@.subrange(0, 1) == single_key(TAG_LEAF));
                assert(x@[0] == x@.subrange(0, 1)[0]);
            }
            assert forall|other: Seq<u8>| #[trigger]
                tree.leaves().get(other) == seq_to_map(l.subrange(0, i + 1)).get(
                    current_key(TAG_LEAF, other),
                ) by {
                assert(before.get(other) == seq_to_map(l.subrange(0, i as int)).get(
                    current_key(TAG_LEAF, other),
                ));
                if current_key(TAG_LEAF, other) == x@ {
                    lemma_current_key_injective(TAG_LEAF, other, leaf@);
                }
            }
        }
        i += 1;
    }
    proof {
        assert(l.subrange(0, n as int) =~= l);
        assert forall|leaf: Seq<u8>| #[trigger]
            tree.leaves().get(leaf) == live_leaves(contents).get(leaf) by {
            lemma_key_shapes(TAG_LEAF, 0, leaf);
            assert(current_key(TAG_LEAF, leaf).subrange(0, 1) =~= single_key(TAG_LEAF));
            assert(tree.leaves().get(leaf) == seq_to_map(l).get(current_key(TAG_LEAF, leaf)));
        }
        lemma_same_reads(tree.leaves(), live_leaves(contents));
        assert forall|x: Seq<u8>|
            contents.contains_key(x) && single_key(TAG_LEAF).is_prefix_of(x) implies leaf_entry_ok(
            x,
            #[trigger] contents[x],
        ) by {
            let j = lemma_map_key_index(l, x);
            assert(leaf_entry_ok(l[j].0, l[j].1));
        }
    }
    Ok(tree)
}

/// What a leaf holds once the first records of a listing are undone.
pub open spec fn partly_undone(
    records: Contents,
    height: u64,
    leaf: Seq<u8>,
    after: Option<Seq<u8>>,
) -> Option<Seq<u8>> {
    match records.get(old_key(TAG_LEAF_OLD, height, leaf)) {
        Some(b) => match decode_old(b) {
            OldRecord::Was(held) => held,
            _ => after,
        },
        None => after,
    }
}

/// Takes the tree back over one height: every leaf that the height
/// changed gets back what it held before.
pub fn undo_leaves<S: ByteStore>(db: &S, tree: &mut MerkleTree, height: u64) -> (r: Result<
    (),
    Error,
>)
    requires
        db.wf(),
    ensures
        match r {
            Ok(_) => leaf_records_ok(db.contents(), height) && forall|leaf: Seq<u8>| #[trigger]
                final(tree).leaves().get(leaf) == undone(
                    db.contents(),
                    height,
                    leaf,
                    old(tree).leaves().get(leaf),
                ),
            Err(e) => e == Error::DecodeError && !leaf_records_ok(db.contents(), height),
        },
{
    let prefix = make_height_key(TAG_LEAF_OLD, height);
    let listing = db.iter_prefix(prefix.as_slice());
    let ghost l = pairs_view(listing@);
    let ghost contents = db.contents();
    let ghost tree0 = tree.leaves();
    let n = listing.len();
    let mut i: usize = 0;
    proof {
        assert(l.subrange(0, 0) =~= Seq::<(Seq<u8>, Seq<u8>)>::empty());
    }
    while i < n
        invariant
            i <= n,
            n == listing@.len(),
            l == pairs_view(listing@),
            contents == db.contents(),
            prefix@ == height_key(TAG_LEAF_OLD, height),
            is_listing(contents, prefix@, l),
            forall|j: int| 0 <= j < i ==> leaf_record_entry_ok(#[trigger] l[j].0, l[j].1),
            forall|leaf: Seq<u8>| #[trigger]
                tree.leaves().get(leaf) == partly_undone(
                    seq_to_map(l.subrange(0, i as int)),
                    height,
                    leaf,
                    tree0.get(leaf),
                ),
        decreases n - i,
    {
        let x = &listing[i].0;
        let rec = &listing[i].1;
        proof {
            lemma_sorted_entry(l, i as int);
            lemma_sorted_prefix_step(l, i as int);
            assert(l[i as int] == (x@, rec@));
            assert(contents.contains_key(x@) && prefix@.is_prefix_of(x@));
            assert(contents[x@] == rec@);
            lemma_key_shapes(TAG_LEAF_OLD, height, Seq::empty());
        }
        if x.len() != 41 {
            return Err(Error::DecodeError);
        }
        let leaf_bytes = suffix_bytes(x.as_slice(), 9);
        let leaf = match digest_from_bytes(leaf_bytes.as_slice()) {
            Some(d) => d,
            None => {
                return Err(Error::DecodeError);
            },
        };
        let ghost before = tree.leaves();
        match decode_old_bytes(rec.as_slice()) {
            None => {
                return Err(Error::DecodeError);
            },
            Some(None) => {
                tree.remove_leaf(&leaf);
            },
            Some(Some(v)) => {
                let value = match digest_from_bytes(v.as_slice()) {
                    Some(d) => d,
                    None => {
                        return Err(Error::DecodeError);
                    },
                };
                if is_zero_digest(&value) {
                    return Err(Error::DecodeError);
                }
                tree.set_leaf(&leaf, &value);
            },
        }
        proof {
            assert(leaf_record_ok(rec@));
            assert(leaf_record_entry_ok(l[i as int].0, l[i as int].1));
            assert(x@ =~= old_key(TAG_LEAF_OLD, height, leaf@)) by {
                assert(x@.subrange(0, 9) == height_key(TAG_LEAF_OLD, height));
                assert forall|k: int| 0 <= k < 9 implies x@[k] == height_key(TAG_LEAF_OLD, height)[k] by {
                    assert(x@[k] == x@.subrange(0, 9)[k]);
                }
            }
            assert forall|other: Seq<u8>| #[trigger]
                tree.leaves().get(other) == partly_undone(
                    seq_to_map(l.subrange(0, i + 1)),
                    height,
                    other,
                    tree0.get(other),
                ) by {
                assert(before.get(other) == partly_undone(
                    seq_to_map(l.subrange(0, i as int)),
                    height,
                    other,
                    tree0.get(other),
                ));
                if old_key(TAG_LEAF_OLD, height, other) == x@ {
                    lemma_old_key_injective(TAG_LEAF_OLD, height, other, height, leaf@);
                }
            }
        }
        i += 1;
    }
    proof {
        assert(l.subrange(0, n as int) =~= l);
        assert forall|leaf: Seq<u8>| #[trigger]
            tree.leaves().get(leaf) == undone(contents, height, leaf, tree0.get(leaf)) by {
            lemma_key_shapes(TAG_LEAF_OLD, height, leaf);
            assert(tree.leaves().get(leaf) == partly_undone(
                seq_to_map(l),
                height,
                leaf,
                tree0.get(leaf),
            ));
            let k = old_key(TAG_LEAF_OLD, height, leaf);
            assert(prefix@.is_prefix_of(k));
            assert(prefix_part(contents, prefix@).contains_key(k) == contents.contains_key(k));
            assert(seq_to_map(l).get(k) == contents.get(k));
            if contents.contains_key(k) {
                let j = lemma_map_key_index(l, k);
                assert(leaf_record_ok(l[j].1));
            }
        }
        assert forall|x: Seq<u8>|
            contents.contains_key(x) && prefix@.is_prefix_of(x) implies leaf_record_entry_ok(
            x,
            #[trigger] contents[x],
        ) by {
            let j = lemma_map_key_index(l, x);
            assert(leaf_record_entry_ok(l[j].0, l[j].1));
        }
    }
    Ok(())
}

/// Two maps that answer every read alike are the same map.
pub proof fn lemma_same_reads(a: Leaves, b: Leaves)
    requires
        forall|k: Seq<u8>| #[trigger] a.get(k) == b.get(k),
    ensures
        a == b,
{
    assert forall|k: Seq<u8>| a.contains_key(k) == b.contains_key(k) by {
        assert(a.get(k) == b.get(k));
    }
    assert forall|k: Seq<u8>| a.contains_key(k) implies a[k] == b[k] by {
        assert(a.get(k) == b.get(k));
    }
    assert(a =~= b);
}

} // verus!
