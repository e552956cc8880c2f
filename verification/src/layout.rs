//! How the engine lays its state out in the byte store, and what the
//! stored records mean.
//!
//! Every store key starts with a tag that names its kind. The current
//! state of a namespace lives under `tag + key`. Each committed height
//! leaves, for every key that it changed, a record of what the key held
//! before, under `tag + height + key`, and a link to the height committed
//! before it. The state as of an earlier height is the current state
//! rolled back along those links.

use crate::bytes::{append_bytes, suffix_bytes};
use crate::encoding::{
    decode_u64, encode_u64, lemma_u64_bytes, lemma_u64_bytes_injective, u64_bytes,
};
use crate::store::Contents;
use vstd::bytes::spec_u64_from_le_bytes;
use vstd::prelude::*;

verus! {

/// Current values, by storage key.
pub const TAG_VALUE: u8 = 115;

/// What a storage key held before a height changed it.
pub const TAG_VALUE_OLD: u8 = 100;

/// Current leaves of the Merkle tree, by leaf key.
pub const TAG_LEAF: u8 = 116;

/// What a leaf held before a height changed it.
pub const TAG_LEAF_OLD: u8 = 117;

/// The height committed before a height.
pub const TAG_PREV: u8 = 112;

/// The first height of an epoch.
pub const TAG_EPOCH_START: u8 = 120;

/// The last committed height.
pub const TAG_LAST: u8 = 76;

/// The epoch of the last committed block.
pub const TAG_EPOCH: u8 = 69;

/// The hash of the last committed block.
pub const TAG_HASH: u8 = 72;

/// The lowest height whose records are retained.
pub const TAG_FLOOR: u8 = 70;

/// The address generator's counter.
pub const TAG_ADDRESS_GEN: u8 = 65;

/// The store key of a singleton.
pub open spec fn single_key(tag: u8) -> Seq<u8> {
    seq![tag]
}

/// The store key of the current entry of `key`.
pub open spec fn current_key(tag: u8, key: Seq<u8>) -> Seq<u8> {
    seq![tag] + key
}

/// The store key of a per-height record.
pub open spec fn height_key(tag: u8, height: u64) -> Seq<u8> {
    seq![tag] + u64_bytes(height)
}

/// The store key of the record that `height` left for `key`.
pub open spec fn old_key(tag: u8, height: u64, key: Seq<u8>) -> Seq<u8> {
    seq![tag] + u64_bytes(height) + key
}

pub proof fn lemma_key_shapes(tag: u8, height: u64, key: Seq<u8>)
    ensures
        single_key(tag).len() == 1,
        single_key(tag)[0] == tag,
        current_key(tag, key).len() == 1 + key.len(),
        current_key(tag, key)[0] == tag,
        current_key(tag, key).subrange(1, 1 + key.len() as int) == key,
        height_key(tag, height).len() == 9,
        height_key(tag, height)[0] == tag,
        height_key(tag, height).subrange(1, 9) == u64_bytes(height),
        old_key(tag, height, key).len() == 9 + key.len(),
        old_key(tag, height, key)[0] == tag,
        old_key(tag, height, key).subrange(1, 9) == u64_bytes(height),
        old_key(tag, height, key).subrange(9, 9 + key.len() as int) == key,
        height_key(tag, height).is_prefix_of(old_key(tag, height, key)),
{
    lemma_u64_bytes(height);
    assert(current_key(tag, key).subrange(1, 1 + key.len() as int) =~= key);
    assert(height_key(tag, height).subrange(1, 9) =~= u64_bytes(height));
    assert(old_key(tag, height, key).subrange(1, 9) =~= u64_bytes(height));
    assert(old_key(tag, height, key).subrange(9, 9 + key.len() as int) =~= key);
    assert(old_key(tag, height, key).subrange(0, 9) =~= height_key(tag, height));
}

/// Current entries lie under a prefix exactly where their keys do.
pub proof fn lemma_current_key_prefix(tag: u8, prefix: Seq<u8>, key: Seq<u8>)
    ensures
        current_key(tag, prefix).is_prefix_of(current_key(tag, key)) == prefix.is_prefix_of(key),
{
    let a = current_key(tag, prefix);
    let b = current_key(tag, key);
    if prefix.is_prefix_of(key) {
        assert(b.subrange(0, a.len() as int) =~= a) by {
            assert forall|i: int| 0 <= i < a.len() implies b[i] == a[i] by {
                if i > 0 {
                    assert(key.subrange(0, prefix.len() as int)[i - 1] == prefix[i - 1]);
                }
            }
        }
    }
    if a.is_prefix_of(b) {
        assert(key.subrange(0, prefix.len() as int) =~= prefix) by {
            assert forall|i: int| 0 <= i < prefix.len() implies key[i] == prefix[i] by {
                assert(b.subrange(0, a.len() as int)[i + 1] == a[i + 1]);
            }
        }
    }
}

pub proof fn lemma_current_key_injective(tag: u8, a: Seq<u8>, b: Seq<u8>)
    requires
        current_key(tag, a) == current_key(tag, b),
    ensures
        a == b,
{
    lemma_key_shapes(tag, 0, a);
    lemma_key_shapes(tag, 0, b);
}

pub proof fn lemma_height_key_injective(tag: u8, a: u64, b: u64)
    requires
        height_key(tag, a) == height_key(tag, b),
    ensures
        a == b,
{
    lemma_key_shapes(tag, a, Seq::empty());
    lemma_key_shapes(tag, b, Seq::empty());
    lemma_u64_bytes_injective(a, b);
}

pub proof fn lemma_old_key_injective(tag: u8, g1: u64, k1: Seq<u8>, g2: u64, k2: Seq<u8>)
    requires
        old_key(tag, g1, k1) == old_key(tag, g2, k2),
    ensures
        g1 == g2,
        k1 == k2,
{
    lemma_key_shapes(tag, g1, k1);
    lemma_key_shapes(tag, g2, k2);
    lemma_u64_bytes_injective(g1, g2);
}

/// The bytes that record what a key held: nothing, or a value.
pub open spec fn old_record(held: Option<Seq<u8>>) -> Seq<u8> {
    match held {
        Some(v) => seq![1u8] + v,
        None => seq![0u8],
    }
}

/// What a height recorded for a key.
pub enum OldRecord {
    /// The height did not change the key.
    Unchanged,
    /// The height changed the key, which had held this.
    Was(Option<Seq<u8>>),
    /// The record cannot be read.
    Corrupt,
}

pub open spec fn decode_old(b: Seq<u8>) -> OldRecord {
    if b.len() == 1 && b[0] == 0 {
        OldRecord::Was(None)
    } else if b.len() >= 1 && b[0] == 1 {
        OldRecord::Was(Some(b.subrange(1, b.len() as int)))
    } else {
        OldRecord::Corrupt
    }
}

pub proof fn lemma_old_record_decodes(held: Option<Seq<u8>>)
    ensures
        decode_old(old_record(held)) == OldRecord::Was(held),
{
    match held {
        Some(v) => {
            assert(old_record(held).subrange(1, old_record(held).len() as int) =~= v);
        },
        None => {},
    }
}

/// What `height` recorded for `key` in the namespace of `tag`.
pub open spec fn read_old(db: Contents, tag: u8, height: u64, key: Seq<u8>) -> OldRecord {
    match db.get(old_key(tag, height, key)) {
        Some(b) => decode_old(b),
        None => OldRecord::Unchanged,
    }
}

/// Where the chain of committed heights leads from a height.
pub enum Step {
    /// No height was committed before this one.
    End,
    /// The height committed before this one.
    Prev(u64),
    /// The link cannot be read, or does not lead downwards.
    Corrupt,
}

pub open spec fn decode_step(b: Seq<u8>, height: u64) -> Step {
    if b.len() == 8 && spec_u64_from_le_bytes(b) < height {
        Step::Prev(spec_u64_from_le_bytes(b))
    } else {
        Step::Corrupt
    }
}

pub open spec fn chain_step(db: Contents, height: u64) -> Step {
    match db.get(height_key(TAG_PREV, height)) {
        Some(b) => decode_step(b, height),
        None => Step::End,
    }
}

/// What `key` held as of `h`, given that it holds `current` as of the
/// committed height `g`: the records of the heights from `g` down to just
/// above `h` are undone one after the other. `None` where a record on the
/// way cannot be read.
pub open spec fn rollback(
    db: Contents,
    tag: u8,
    key: Seq<u8>,
    h: u64,
    g: u64,
    current: Option<Seq<u8>>,
) -> Option<Option<Seq<u8>>>
    decreases g,
{
    if g <= h {
        Some(current)
    } else {
        let before = match read_old(db, tag, g, key) {
            OldRecord::Was(held) => Some(held),
            OldRecord::Unchanged => Some(current),
            OldRecord::Corrupt => None,
        };
        match (before, chain_step(db, g)) {
            (Some(held), Step::Prev(p)) => if p < g {
                rollback(db, tag, key, h, p, held)
            } else {
                None
            },
            (Some(held), Step::End) => Some(held),
            _ => None,
        }
    }
}

/// A namespace: the tag of its current entries and the tag of its records.
pub struct Namespace {
    pub current: u8,
    pub old: u8,
}

/// Storage keys and their values.
pub open spec fn values_ns() -> Namespace {
    Namespace { current: TAG_VALUE, old: TAG_VALUE_OLD }
}

/// Leaf keys of the Merkle tree and their leaf values.
pub open spec fn leaves_ns() -> Namespace {
    Namespace { current: TAG_LEAF, old: TAG_LEAF_OLD }
}

/// What `key` holds now.
pub open spec fn current(db: Contents, ns: Namespace, key: Seq<u8>) -> Option<Seq<u8>> {
    db.get(current_key(ns.current, key))
}

/// What `key` held as of height `h`, where `last` is the last committed
/// height: at or past `last` that is what it holds now. `None` where a
/// record on the way cannot be read.
pub open spec fn held_at(db: Contents, ns: Namespace, key: Seq<u8>, h: u64, last: Option<u64>) -> Option<
    Option<Seq<u8>>,
> {
    match last {
        Some(l) => rollback(db, ns.old, key, h, l, current(db, ns, key)),
        None => Some(current(db, ns, key)),
    }
}

/// Two stores hold the same records of `key` and the same links at every
/// height above `h` up to `g`.
pub open spec fn same_history(db1: Contents, db2: Contents, tag: u8, key: Seq<u8>, h: u64, g: u64) -> bool {
    forall|j: u64|
        h < j <= g ==> #[trigger] db1.get(old_key(tag, j, key)) == db2.get(old_key(tag, j, key))
            && db1.get(height_key(TAG_PREV, j)) == db2.get(height_key(TAG_PREV, j))
}

/// A rollback reads nothing but the records and links above `h`.
pub proof fn lemma_rollback_frame(
    db1: Contents,
    db2: Contents,
    tag: u8,
    key: Seq<u8>,
    h: u64,
    g: u64,
    current: Option<Seq<u8>>,
)
    requires
        same_history(db1, db2, tag, key, h, g),
    ensures
        rollback(db1, tag, key, h, g, current) == rollback(db2, tag, key, h, g, current),
    decreases g,
{
    if g > h {
        assert(db1.get(old_key(tag, g, key)) == db2.get(old_key(tag, g, key)));
        match chain_step(db1, g) {
            Step::Prev(p) => {
                if p < g {
                    assert forall|j: u64| h < j <= p implies #[trigger] db1.get(old_key(tag, j, key))
                        == db2.get(old_key(tag, j, key)) && db1.get(height_key(TAG_PREV, j))
                        == db2.get(height_key(TAG_PREV, j)) by {
                        assert(db1.get(old_key(tag, j, key)) == db2.get(old_key(tag, j, key)));
                    }
                    match read_old(db1, tag, g, key) {
                        OldRecord::Was(held) => lemma_rollback_frame(db1, db2, tag, key, h, p, held),
                        OldRecord::Unchanged => lemma_rollback_frame(db1, db2, tag, key, h, p, current),
                        OldRecord::Corrupt => {},
                    }
                }
            },
            _ => {},
        }
    }
}

pub fn make_single_key(tag: u8) -> (r: Vec<u8>)
    ensures
        r@ == single_key(tag),
{
    let mut r: Vec<u8> = Vec::new();
    r.push(tag);
    assert(r@ =~= single_key(tag));
    r
}

pub fn make_current_key(tag: u8, key: &[u8]) -> (r: Vec<u8>)
    ensures
        r@ == current_key(tag, key@),
{
    let mut r: Vec<u8> = Vec::new();
    r.push(tag);
    append_bytes(&mut r, key);
    assert(r@ =~= current_key(tag, key@));
    r
}

pub fn make_height_key(tag: u8, height: u64) -> (r: Vec<u8>)
    ensures
        r@ == height_key(tag, height),
{
    let mut r: Vec<u8> = Vec::new();
    r.push(tag);
    let h = encode_u64(height);
    append_bytes(&mut r, h.as_slice());
    assert(r@ =~= height_key(tag, height));
    r
}

pub fn make_old_key(tag: u8, height: u64, key: &[u8]) -> (r: Vec<u8>)
    ensures
        r@ == old_key(tag, height, key@),
{
    let mut r = make_height_key(tag, height);
    append_bytes(&mut r, key);
    assert(r@ =~= old_key(tag, height, key@));
    r
}

pub fn encode_old(held: &Option<Vec<u8>>) -> (r: Vec<u8>)
    ensures
        r@ == old_record(crate::store::opt_view(*held)),
{
    let mut r: Vec<u8> = Vec::new();
    match held {
        Some(v) => {
            r.push(1);
            append_bytes(&mut r, v.as_slice());
            assert(r@ =~= seq![1u8] + v@);
        },
        None => {
            r.push(0);
            assert(r@ =~= seq![0u8]);
        },
    }
    r
}

/// What a record says, or `None` where it cannot be read.
pub fn decode_old_bytes(b: &[u8]) -> (r: Option<Option<Vec<u8>>>)
    ensures
        match r {
            Some(held) => decode_old(b@) == OldRecord::Was(crate::store::opt_view(held)),
            None => decode_old(b@) == OldRecord::Corrupt,
        },
{
    if b.len() == 1 && b[0] == 0 {
        Some(None)
    } else if b.len() >= 1 && b[0] == 1 {
        Some(Some(suffix_bytes(b, 1)))
    } else {
        None
    }
}

/// What a stored link says for `height`.
pub fn decode_step_bytes(b: &[u8], height: u64) -> (r: Option<u64>)
    ensures
        match r {
            Some(p) => decode_step(b@, height) == Step::Prev(p) && p < height,
            None => decode_step(b@, height) == Step::Corrupt,
        },
{
    match decode_u64(b) {
        Some(p) => {
            proof {
                lemma_u64_bytes(p);
            }
            if p < height {
                Some(p)
            } else {
                None
            }
        },
        None => None,
    }
}

} // verus!
