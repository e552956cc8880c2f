//! The write log: the staging area of the block that is being built.
//! Writes and deletes of the running transaction are kept apart from those
//! that earlier transactions of the block have committed, so that a failed
//! transaction can be rolled back without a trace.

use crate::bytes::clone_bytes;
use crate::gas::{entry_gas, gas_of, key_gas};
use crate::key::Key;
use crate::ordered::{
    lemma_insert_listable, lemma_push_sorted, lemma_sorted_prefix_step, listable, seq_to_map,
    sorted, OrderedMap,
};
use vstd::prelude::*;

verus! {

/// One staged change of a key.
#[derive(Debug)]
pub enum Modification {
    /// The key holds this value.
    Write { value: Vec<u8> },
    /// The key holds nothing.
    Delete,
    /// The key is the validity predicate of a new account, held as the hash
    /// of its code.
    InitAccount { vp_code_hash: Vec<u8> },
}

pub enum ModificationView {
    Write { value: Seq<u8> },
    Delete,
    InitAccount { vp_code_hash: Seq<u8> },
}

impl View for Modification {
    type V = ModificationView;

    open spec fn view(&self) -> ModificationView {
        match self {
            Modification::Write { value } => ModificationView::Write { value: value@ },
            Modification::Delete => ModificationView::Delete,
            Modification::InitAccount { vp_code_hash } => ModificationView::InitAccount {
                vp_code_hash: vp_code_hash@,
            },
        }
    }
}

/// The value that a key holds once the change is applied.
pub open spec fn staged_value(m: ModificationView) -> Option<Seq<u8>> {
    match m {
        ModificationView::Write { value } => Some(value),
        ModificationView::Delete => None,
        ModificationView::InitAccount { vp_code_hash } => Some(vp_code_hash),
    }
}

/// What a read sees: the staged change where there is one, else what is
/// committed.
pub open spec fn overlay(committed: Option<Seq<u8>>, staged: Option<ModificationView>) -> Option<
    Seq<u8>,
> {
    match staged {
        Some(m) => staged_value(m),
        None => committed,
    }
}

/// The staged changes of a block, by key.
pub type Staged = Map<Seq<u8>, ModificationView>;

pub open spec fn lookup(staged: Staged, key: Seq<u8>) -> Option<ModificationView> {
    if staged.contains_key(key) {
        Some(staged[key])
    } else {
        None
    }
}

impl Modification {
    pub fn duplicate(&self) -> (r: Modification)
        ensures
            r@ == self@,
    {
        match self {
            Modification::Write { value } => Modification::Write {
                value: clone_bytes(value.as_slice()),
            },
            Modification::Delete => Modification::Delete,
            Modification::InitAccount { vp_code_hash } => Modification::InitAccount {
                vp_code_hash: clone_bytes(vp_code_hash.as_slice()),
            },
        }
    }

    /// The value that the key holds once the change is applied.
    pub fn value(&self) -> (r: Option<&Vec<u8>>)
        ensures
            match r {
                Some(v) => staged_value(self@) == Some(v@),
                None => staged_value(self@) is None,
            },
    {
        match self {
            Modification::Write { value } => Some(value),
            Modification::Delete => None,
            Modification::InitAccount { vp_code_hash } => Some(vp_code_hash),
        }
    }
}

pub struct WriteLog {
    block: OrderedMap<Modification>,
    tx: OrderedMap<Modification>,
}

impl WriteLog {
    pub closed spec fn wf(&self) -> bool {
        self.block.wf() && self.tx.wf()
    }

    /// The changes that committed transactions of the block have made, in
    /// ascending key order.
    pub closed spec fn block_pairs(&self) -> Seq<(Seq<u8>, ModificationView)> {
        self.block.pairs()
    }

    /// The changes that committed transactions of the block have made.
    pub open spec fn block_entries(&self) -> Staged {
        seq_to_map(self.block_pairs())
    }

    /// The changes of the running transaction.
    pub closed spec fn tx_entries(&self) -> Staged {
        self.tx@
    }

    /// All staged changes: those of the running transaction over those of
    /// the block.
    pub open spec fn entries(&self) -> Staged {
        self.block_entries().union_prefer_right(self.tx_entries())
    }

    /// All that is staged can be listed in ascending key order.
    pub proof fn lemma_entries_listable(&self)
        requires
            self.wf(),
        ensures
            listable(self.entries()),
    {
        let b = self.block.pairs();
        let t = self.tx.pairs();
        assert(seq_to_map(b) == self.block_entries());
        lemma_union_listable(self.block_entries(), t, t.len() as int);
        assert(t.subrange(0, t.len() as int) =~= t);
    }

    pub proof fn lemma_block_sorted(&self)
        requires
            self.wf(),
        ensures
            sorted(self.block_pairs()),
    {
    }

    pub fn new() -> (r: Self)
        ensures
            r.wf(),
            r.block_entries() == Map::<Seq<u8>, ModificationView>::empty(),
            r.tx_entries() == Map::<Seq<u8>, ModificationView>::empty(),
            r.block_pairs() == Seq::<(Seq<u8>, ModificationView)>::empty(),
    {
        WriteLog { block: OrderedMap::new(), tx: OrderedMap::new() }
    }

    /// Stages a write. Costs the length of the key and of the value.
    pub fn write(&mut self, key: &Key, value: Vec<u8>) -> (gas: u64)
        requires
            old(self).wf(),
        ensures
            final(self).wf(),
            final(self).tx_entries() == old(self).tx_entries().insert(
                key@,
                ModificationView::Write { value: value@ },
            ),
            final(self).block_pairs() == old(self).block_pairs(),
            gas == gas_of(key@.len() + value@.len()),
    {
        let gas = entry_gas(key.len(), value.len());
        self.tx.insert(clone_bytes(key.as_bytes()), Modification::Write { value });
        gas
    }

    /// Stages a delete. Costs the length of the key.
    pub fn delete(&mut self, key: &Key) -> (gas: u64)
        requires
            old(self).wf(),
        ensures
            final(self).wf(),
            final(self).tx_entries() == old(self).tx_entries().insert(key@, ModificationView::Delete),
            final(self).block_pairs() == old(self).block_pairs(),
            gas == gas_of(key@.len()),
    {
        let gas = key_gas(key.len());
        self.tx.insert(clone_bytes(key.as_bytes()), Modification::Delete);
        gas
    }

    /// Stages the validity predicate of a new account. Costs the length of
    /// the key and of the code hash.
    pub fn init_account(&mut self, key: &Key, vp_code_hash: Vec<u8>) -> (gas: u64)
        requires
            old(self).wf(),
        ensures
            final(self).wf(),
            final(self).tx_entries() == old(self).tx_entries().insert(
                key@,
                ModificationView::InitAccount { vp_code_hash: vp_code_hash@ },
            ),
            final(self).block_pairs() == old(self).block_pairs(),
            gas == gas_of(key@.len() + vp_code_hash@.len()),
    {
        let gas = entry_gas(key.len(), vp_code_hash.len());
        self.tx.insert(clone_bytes(key.as_bytes()), Modification::InitAccount { vp_code_hash });
        gas
    }

    /// Stages a change under a key given by its bytes.
    pub fn stage(&mut self, key: Vec<u8>, m: Modification)
        requires
            old(self).wf(),
        ensures
            final(self).wf(),
            final(self).tx_entries() == old(self).tx_entries().insert(key@, m@),
            final(self).block_pairs() == old(self).block_pairs(),
    {
        self.tx.insert(key, m);
    }

    /// The staged change of `key`, if any.
    pub fn get(&self, key: &[u8]) -> (r: Option<&Modification>)
        requires
            self.wf(),
        ensures
            match r {
                Some(m) => lookup(self.entries(), key@) == Some(m@),
                None => lookup(self.entries(), key@) is None,
            },
    {
        match self.tx.get(key) {
            Some(m) => Some(m),
            None => self.block.get(key),
        }
    }

    /// The staged change of `key`, if any. Costs the length of the key, and
    /// of the staged value where there is one.
    pub fn read(&self, key: &Key) -> (r: (Option<&Modification>, u64))
        requires
            self.wf(),
        ensures
            match r.0 {
                Some(m) => lookup(self.entries(), key@) == Some(m@),
                None => lookup(self.entries(), key@) is None,
            },
            r.1 == read_gas(key@, lookup(self.entries(), key@)),
    {
        let found = self.get(key.as_bytes());
        let gas = match found {
            Some(m) => match m.value() {
                Some(v) => entry_gas(key.len(), v.len()),
                None => key_gas(key.len()),
            },
            None => key_gas(key.len()),
        };
        (found, gas)
    }

    /// Promotes the changes of the running transaction to the block.
    pub fn commit_tx(&mut self)
        requires
            old(self).wf(),
        ensures
            final(self).wf(),
            final(self).block_entries() == old(self).entries(),
            final(self).tx_entries() == Map::<Seq<u8>, ModificationView>::empty(),
            final(self).entries() == old(self).entries(),
    {
        let n = self.tx.len();
        let ghost s = self.tx.pairs();
        let ghost b0 = self.block@;
        let mut i: usize = 0;
        while i < n
            invariant
                i <= n,
                n == s.len(),
                s == self.tx.pairs(),
                sorted(s),
                self.block.wf(),
                self.tx.wf(),
                sorted(s.subrange(0, i as int)),
                self.block@ == b0.union_prefer_right(seq_to_map(s.subrange(0, i as int))),
            decreases n - i,
        {
            let key = self.tx.key_at(i);
            let m = self.tx.value_at(i);
            proof {
                let pre = s.subrange(0, i as int);
                assert forall|j: int| 0 <= j < pre.len() implies crate::bytes::lex_lt(
                    #[trigger] pre[j].0,
                    s[i as int].0,
                ) by {
                    assert(pre[j] == s[j]);
                }
                lemma_push_sorted(pre, s[i as int].0, s[i as int].1);
                assert(pre.push((s[i as int].0, s[i as int].1)) =~= s.subrange(0, i + 1));
                assert(b0.union_prefer_right(seq_to_map(pre).insert(s[i as int].0, s[i as int].1))
                    =~= b0.union_prefer_right(seq_to_map(pre)).insert(s[i as int].0, s[i as int].1));
            }
            self.block.insert(clone_bytes(key.as_slice()), m.duplicate());
            i += 1;
        }
        assert(s.subrange(0, n as int) =~= s);
        self.tx.clear();
        assert(self.entries() =~= old(self).entries());
    }

    /// Discards the changes of the running transaction.
    pub fn drop_tx(&mut self)
        requires
            old(self).wf(),
        ensures
            final(self).wf(),
            final(self).block_pairs() == old(self).block_pairs(),
            final(self).tx_entries() == Map::<Seq<u8>, ModificationView>::empty(),
            final(self).entries() == old(self).block_entries(),
    {
        self.tx.clear();
        assert(self.entries() =~= old(self).block_entries());
    }

    /// Empties the log.
    pub fn clear(&mut self)
        ensures
            final(self).wf(),
            final(self).block_pairs() == Seq::<(Seq<u8>, ModificationView)>::empty(),
            final(self).block_entries() == Map::<Seq<u8>, ModificationView>::empty(),
            final(self).tx_entries() == Map::<Seq<u8>, ModificationView>::empty(),
    {
        self.tx.clear();
        self.block.clear();
    }

    /// The number of keys that the block's committed transactions changed.
    pub fn block_len(&self) -> (n: usize)
        ensures
            n == self.block_pairs().len(),
    {
        self.block.len()
    }

    pub fn block_key_at(&self, i: usize) -> (k: &Vec<u8>)
        requires
            i < self.block_pairs().len(),
        ensures
            k@ == self.block_pairs()[i as int].0,
    {
        self.block.key_at(i)
    }

    pub fn block_value_at(&self, i: usize) -> (m: &Modification)
        requires
            i < self.block_pairs().len(),
        ensures
            m@ == self.block_pairs()[i as int].1,
    {
        self.block.value_at(i)
    }

    /// The number of keys that the running transaction changed.
    pub fn tx_len(&self) -> (n: usize)
        ensures
            n == self.tx_pairs().len(),
    {
        self.tx.len()
    }

    /// The changes of the running transaction, in ascending key order.
    pub closed spec fn tx_pairs(&self) -> Seq<(Seq<u8>, ModificationView)> {
        self.tx.pairs()
    }

    pub proof fn lemma_tx_pairs(&self)
        requires
            self.wf(),
        ensures
            sorted(self.tx_pairs()),
            seq_to_map(self.tx_pairs()) == self.tx_entries(),
    {
    }

    pub fn tx_key_at(&self, i: usize) -> (k: &Vec<u8>)
        requires
            i < self.tx_pairs().len(),
        ensures
            k@ == self.tx_pairs()[i as int].0,
    {
        self.tx.key_at(i)
    }

    pub fn tx_value_at(&self, i: usize) -> (m: &Modification)
        requires
            i < self.tx_pairs().len(),
        ensures
            m@ == self.tx_pairs()[i as int].1,
    {
        self.tx.value_at(i)
    }
}

/// A map that can be listed still can with the first entries of a sorted
/// list laid over it.
pub proof fn lemma_union_listable(base: Staged, over: Seq<(Seq<u8>, ModificationView)>, n: int)
    requires
        listable(base),
        sorted(over),
        0 <= n <= over.len(),
    ensures
        listable(base.union_prefer_right(seq_to_map(over.subrange(0, n)))),
    decreases n,
{
    if n == 0 {
        assert(seq_to_map(over.subrange(0, 0)) =~= Map::<Seq<u8>, ModificationView>::empty());
        assert(base.union_prefer_right(seq_to_map(over.subrange(0, 0))) =~= base);
    } else {
        lemma_union_listable(base, over, n - 1);
        lemma_sorted_prefix_step(over, n - 1);
        let before = base.union_prefer_right(seq_to_map(over.subrange(0, n - 1)));
        lemma_insert_listable(before, over[n - 1].0, over[n - 1].1);
        assert(base.union_prefer_right(seq_to_map(over.subrange(0, n))) =~= before.insert(
            over[n - 1].0,
            over[n - 1].1,
        ));
    }
}

/// The cost of a read through the log: the key, and the staged value where
/// there is one.
pub open spec fn read_gas(key: Seq<u8>, staged: Option<ModificationView>) -> u64 {
    match staged {
        Some(m) => match staged_value(m) {
            Some(v) => gas_of(key.len() + v.len()),
            None => gas_of(key.len()),
        },
        None => gas_of(key.len()),
    }
}

} // verus!
