//! The sparse Merkle tree that commits to the stored state. The tree is the
//! one of the `sparse-merkle-tree` crate; what it holds is modelled as a
//! map from leaf keys to leaf values, both 32-byte digests.

use crate::digest::{is_zero_digest, storage_digest, zero_digest, Digest, PersistentStorageHasher};
use sparse_merkle_tree::{H256, SparseMerkleTree};
use sparse_merkle_tree::blake2b::Blake2bHasher;
use sparse_merkle_tree::default_store::DefaultStore;
use vstd::prelude::*;

verus! {

#[verifier::external_type_specification]
#[verifier::external_body]
#[verifier::reject_recursive_types(H)]
#[verifier::reject_recursive_types(V)]
#[verifier::reject_recursive_types(S)]
pub struct ExSparseMerkleTree<H, V, S>(SparseMerkleTree<H, V, S>);

#[verifier::external_type_specification]
#[verifier::external_body]
pub struct ExH256(H256);

#[verifier::external_type_specification]
#[verifier::external_body]
pub struct ExBlake2bHasher(Blake2bHasher);

#[verifier::external_type_specification]
#[verifier::external_body]
#[verifier::reject_recursive_types(V)]
pub struct ExDefaultStore<V>(DefaultStore<V>);

/// The leaves of a tree: from leaf key to leaf value.
pub type Leaves = Map<Seq<u8>, Seq<u8>>;

/// The leaves that a tree holds.
pub uninterp spec fn tree_leaves(
    tree: SparseMerkleTree<Blake2bHasher, H256, DefaultStore<H256>>,
) -> Leaves;

/// The root of the sparse Merkle tree over a set of leaves.
pub uninterp spec fn root_of_leaves(leaves: Leaves) -> Seq<u8>;

/// The leaves of an empty tree.
pub open spec fn no_leaves() -> Leaves {
    Map::empty()
}

/// The leaves after one update: a zero value removes the leaf.
pub open spec fn leaf_update(leaves: Leaves, key: Seq<u8>, value: Seq<u8>) -> Leaves {
    if value == zero_digest() {
        leaves.remove(key)
    } else {
        leaves.insert(key, value)
    }
}

/// Calls `SparseMerkleTree::default`: a tree over an empty store.
#[verifier::external_body]
fn smt_new() -> (tree: SparseMerkleTree<Blake2bHasher, H256, DefaultStore<H256>>)
    ensures
        tree_leaves(tree) == no_leaves(),
{
    SparseMerkleTree::default()
}

/// Calls `SparseMerkleTree::update`, which stores the leaf, or removes it
/// when the value is zero, and recomputes the branches above it. Over the
/// in-memory store no step of it fails.
#[verifier::external_body]
fn smt_update(
    tree: &mut SparseMerkleTree<Blake2bHasher, H256, DefaultStore<H256>>,
    key: &Digest,
    value: &Digest,
) -> (done: bool)
    ensures
        done,
        tree_leaves(*final(tree)) == leaf_update(tree_leaves(*old(tree)), key@, value@),
{
    tree.update(H256::from(*key), H256::from(*value)).is_ok()
}

/// Calls `SparseMerkleTree::root`. The root is the hash over the leaves
/// that the tree holds, whatever the order in which they were written.
#[verifier::external_body]
fn smt_root(tree: &SparseMerkleTree<Blake2bHasher, H256, DefaultStore<H256>>) -> (root: Digest)
    ensures
        root@ == root_of_leaves(tree_leaves(*tree)),
{
    (*tree.root()).into()
}

/// What `SparseMerkleTree::get` answers: zero for a tree whose root is
/// zero, else the stored leaf, or zero where there is none.
pub open spec fn leaf_read(leaves: Leaves, key: Seq<u8>) -> Seq<u8> {
    if root_of_leaves(leaves) == zero_digest() || !leaves.contains_key(key) {
        zero_digest()
    } else {
        leaves[key]
    }
}

/// Calls `SparseMerkleTree::get`, which looks at the root first and then
/// at the stored leaves. Over the in-memory store it does not fail.
#[verifier::external_body]
fn smt_get(tree: &SparseMerkleTree<Blake2bHasher, H256, DefaultStore<H256>>, key: &Digest) -> (value:
    Option<Digest>)
    ensures
        match value {
            Some(v) => v@ == leaf_read(tree_leaves(*tree), key@),
            None => false,
        },
{
    tree.get(&H256::from(*key)).ok().map(|v| v.into())
}

/// A Merkle tree over storage keys and values.
pub struct MerkleTree {
    tree: SparseMerkleTree<Blake2bHasher, H256, DefaultStore<H256>>,
}

impl MerkleTree {
    /// The leaves of the tree.
    pub closed spec fn leaves(&self) -> Leaves {
        tree_leaves(self.tree)
    }

    /// The root that commits to the leaves.
    pub open spec fn root_spec(&self) -> Seq<u8> {
        root_of_leaves(self.leaves())
    }

    pub fn new() -> (r: Self)
        ensures
            r.leaves() == no_leaves(),
    {
        MerkleTree { tree: smt_new() }
    }

    /// Sets the leaf under `leaf`; a zero value removes it.
    pub fn set_leaf(&mut self, leaf: &Digest, value: &Digest)
        ensures
            final(self).leaves() == leaf_update(old(self).leaves(), leaf@, value@),
    {
        let _ = smt_update(&mut self.tree, leaf, value);
    }

    /// Removes the leaf under `leaf`.
    pub fn remove_leaf(&mut self, leaf: &Digest)
        ensures
            final(self).leaves() == old(self).leaves().remove(leaf@),
    {
        let zero: Digest = [0u8; 32];
        assert(zero@ =~= zero_digest());
        let _ = smt_update(&mut self.tree, leaf, &zero);
    }

    /// Records that `key` holds `value`.
    pub fn update(&mut self, key: &[u8], value: &[u8])
        ensures
            final(self).leaves() == leaf_update(
                old(self).leaves(),
                storage_digest(key@),
                storage_digest(value@),
            ),
    {
        let k = PersistentStorageHasher::hash(key);
        let v = PersistentStorageHasher::hash(value);
        self.set_leaf(&k, &v);
    }

    /// Records that `key` holds nothing.
    pub fn delete(&mut self, key: &[u8])
        ensures
            final(self).leaves() == old(self).leaves().remove(storage_digest(key@)),
    {
        let k = PersistentStorageHasher::hash(key);
        self.remove_leaf(&k);
    }

    /// The root of the tree.
    pub fn root(&self) -> (r: Digest)
        ensures
            r@ == self.root_spec(),
    {
        smt_root(&self.tree)
    }

    /// Whether the tree answers for `key` with a leaf.
    pub fn has_key(&self, key: &[u8]) -> (r: bool)
        ensures
            r == (leaf_read(self.leaves(), storage_digest(key@)) != zero_digest()),
    {
        let k = PersistentStorageHasher::hash(key);
        match smt_get(&self.tree, &k) {
            Some(v) => !is_zero_digest(&v),
            None => false,
        }
    }
}

} // verus!
