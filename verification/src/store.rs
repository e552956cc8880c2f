//! The byte store that the engine persists into: an ordered map from byte
//! strings to byte strings with point reads, prefix listings and atomic
//! batches. `MemStore` keeps one in memory.

use crate::bytes::{clone_bytes, has_prefix};
use crate::ordered::{lemma_map_key_index, lemma_push_sorted, seq_to_map, sorted, OrderedMap};
use vstd::prelude::*;
use vstd::string::StringExecFns;

verus! {

/// What a store holds: a map from keys to values, both byte strings.
pub type Contents = Map<Seq<u8>, Seq<u8>>;

/// One staged operation: a key, and the value to put there or `None` to
/// delete it.
pub type Op = (Seq<u8>, Option<Seq<u8>>);

pub open spec fn apply_op(db: Contents, op: Op) -> Contents {
    match op.1 {
        Some(v) => db.insert(op.0, v),
        None => db.remove(op.0),
    }
}

/// The store after the operations of a batch, applied in order.
pub open spec fn apply_ops(db: Contents, ops: Seq<Op>) -> Contents
    decreases ops.len(),
{
    if ops.len() == 0 {
        db
    } else {
        apply_op(apply_ops(db, ops.drop_last()), ops.last())
    }
}

pub proof fn lemma_apply_ops_push(db: Contents, ops: Seq<Op>, op: Op)
    ensures
        apply_ops(db, ops.push(op)) == apply_op(apply_ops(db, ops), op),
{
    assert(ops.push(op).drop_last() =~= ops);
}

/// The part of a store under a prefix.
pub open spec fn prefix_part(db: Contents, prefix: Seq<u8>) -> Contents {
    Map::new(|k: Seq<u8>| db.contains_key(k) && prefix.is_prefix_of(k), |k: Seq<u8>| db[k])
}

/// The view of a list of owned pairs.
pub open spec fn pairs_view(v: Seq<(Vec<u8>, Vec<u8>)>) -> Seq<(Seq<u8>, Seq<u8>)> {
    Seq::new(v.len(), |i: int| (v[i].0@, v[i].1@))
}

/// `l` lists, in ascending key order, exactly what `db` holds under `prefix`.
pub open spec fn is_listing(db: Contents, prefix: Seq<u8>, l: Seq<(Seq<u8>, Seq<u8>)>) -> bool {
    sorted(l) && seq_to_map(l) == prefix_part(db, prefix)
}

/// The entries of `s` whose key starts with `prefix`, in the order of `s`.
pub open spec fn under_prefix(s: Seq<(Seq<u8>, Seq<u8>)>, prefix: Seq<u8>) -> Seq<
    (Seq<u8>, Seq<u8>),
>
    decreases s.len(),
{
    if s.len() == 0 {
        s
    } else if prefix.is_prefix_of(s.last().0) {
        under_prefix(s.drop_last(), prefix).push(s.last())
    } else {
        under_prefix(s.drop_last(), prefix)
    }
}

proof fn lemma_under_prefix_source(s: Seq<(Seq<u8>, Seq<u8>)>, prefix: Seq<u8>, j: int) -> (i: int)
    requires
        0 <= j < under_prefix(s, prefix).len(),
    ensures
        0 <= i < s.len(),
        s[i] == under_prefix(s, prefix)[j],
    decreases s.len(),
{
    if prefix.is_prefix_of(s.last().0) && j == under_prefix(s.drop_last(), prefix).len() {
        s.len() - 1
    } else {
        lemma_under_prefix_source(s.drop_last(), prefix, j)
    }
}

pub proof fn lemma_under_prefix_listing(s: Seq<(Seq<u8>, Seq<u8>)>, prefix: Seq<u8>)
    requires
        sorted(s),
    ensures
        is_listing(seq_to_map(s), prefix, under_prefix(s, prefix)),
    decreases s.len(),
{
    if s.len() == 0 {
        assert(seq_to_map(s) =~= prefix_part(seq_to_map(s), prefix));
    } else {
        let d = s.drop_last();
        let last = s.last();
        let u = under_prefix(d, prefix);
        lemma_under_prefix_listing(d, prefix);
        assert forall|i: int| 0 <= i < d.len() implies lex_below(d, i, last.0) by {
            assert(d[i] == s[i]);
            assert(crate::bytes::lex_lt(s[i].0, s[s.len() - 1].0));
        }
        lemma_push_sorted(d, last.0, last.1);
        assert(d.push((last.0, last.1)) =~= s);
        if prefix.is_prefix_of(last.0) {
            assert forall|j: int| 0 <= j < u.len() implies crate::bytes::lex_lt(
                #[trigger] u[j].0,
                last.0,
            ) by {
                let i = lemma_under_prefix_source(d, prefix, j);
                assert(lex_below(d, i, last.0));
            }
            lemma_push_sorted(u, last.0, last.1);
            assert(prefix_part(seq_to_map(d), prefix).insert(last.0, last.1) =~= prefix_part(
                seq_to_map(s),
                prefix,
            ));
        } else {
            assert(prefix_part(seq_to_map(d), prefix) =~= prefix_part(seq_to_map(s), prefix));
        }
    }
}

spec fn lex_below(d: Seq<(Seq<u8>, Seq<u8>)>, i: int, k: Seq<u8>) -> bool {
    crate::bytes::lex_lt(d[i].0, k)
}

/// A batch of puts and deletes that a store applies atomically, in the
/// order in which they were staged.
pub struct Batch {
    ops: Vec<(Vec<u8>, Option<Vec<u8>>)>,
}

pub open spec fn opt_view(o: Option<Vec<u8>>) -> Option<Seq<u8>> {
    match o {
        Some(v) => Some(v@),
        None => None,
    }
}

impl Batch {
    /// The staged operations, oldest first.
    pub closed spec fn ops(&self) -> Seq<Op> {
        Seq::new(self.ops@.len(), |i: int| (self.ops@[i].0@, opt_view(self.ops@[i].1)))
    }

    pub fn new() -> (r: Self)
        ensures
            r.ops() == Seq::<Op>::empty(),
    {
        let r = Batch { ops: Vec::new() };
        assert(r.ops() =~= Seq::<Op>::empty());
        r
    }

    pub fn put(&mut self, key: Vec<u8>, value: Vec<u8>)
        ensures
            final(self).ops() == old(self).ops().push((key@, Some(value@))),
    {
        self.ops.push((key, Some(value)));
        assert(self.ops() =~= old(self).ops().push((key@, Some(value@))));
    }

    pub fn delete(&mut self, key: Vec<u8>)
        ensures
            final(self).ops() == old(self).ops().push((key@, None)),
    {
        self.ops.push((key, None));
        assert(self.ops() =~= old(self).ops().push((key@, None)));
    }

    pub fn len(&self) -> (n: usize)
        ensures
            n == self.ops().len(),
    {
        self.ops.len()
    }

    pub fn key_at(&self, i: usize) -> (k: &Vec<u8>)
        requires
            i < self.ops().len(),
        ensures
            k@ == self.ops()[i as int].0,
    {
        &self.ops[i].0
    }

    pub fn value_at(&self, i: usize) -> (v: Option<&Vec<u8>>)
        requires
            i < self.ops().len(),
        ensures
            match v {
                Some(b) => self.ops()[i as int].1 == Some(b@),
                None => self.ops()[i as int].1 is None,
            },
    {
        match &self.ops[i].1 {
            Some(b) => Some(b),
            None => None,
        }
    }
}

/// The store could not apply a batch.
#[derive(Debug)]
pub struct IoError {
    pub message: String,
}

/// An ordered byte store. A read returns what the store holds; a batch is
/// applied whole or not at all; a listing is in ascending key order.
pub trait ByteStore: Sized {
    open spec fn contents(&self) -> Contents {
        arbitrary()
    }

    open spec fn wf(&self) -> bool {
        true
    }

    fn get(&self, key: &[u8]) -> (r: Option<Vec<u8>>)
        requires
            self.wf(),
        ensures
            match r {
                Some(v) => self.contents().contains_key(key@) && self.contents()[key@] == v@,
                None => !self.contents().contains_key(key@),
            },
    ;

    fn exec_batch(&mut self, batch: Batch) -> (r: Result<(), IoError>)
        requires
            old(self).wf(),
        ensures
            final(self).wf(),
            r is Ok ==> final(self).contents() == apply_ops(old(self).contents(), batch.ops()),
            r is Err ==> final(self).contents() == old(self).contents(),
    ;

    fn iter_prefix(&self, prefix: &[u8]) -> (r: Vec<(Vec<u8>, Vec<u8>)>)
        requires
            self.wf(),
        ensures
            is_listing(self.contents(), prefix@, pairs_view(r@)),
    ;
}

/// A byte store held in memory. Once frozen it is read-only: it refuses
/// every batch.
pub struct MemStore {
    map: OrderedMap<Vec<u8>>,
    frozen: bool,
}

impl MemStore {
    pub fn new() -> (r: Self)
        ensures
            r.wf(),
            r.contents() == Map::<Seq<u8>, Seq<u8>>::empty(),
            !r.is_frozen(),
    {
        MemStore { map: OrderedMap::new(), frozen: false }
    }

    /// The store that holds a sorted list of entries.
    pub fn from_sorted(entries: Vec<(Vec<u8>, Vec<u8>)>) -> (r: Self)
        requires
            sorted(pairs_view(entries@)),
        ensures
            r.wf(),
            r.contents() == seq_to_map(pairs_view(entries@)),
            !r.is_frozen(),
    {
        assert(pairs_view(entries@) =~= Seq::new(
            entries@.len(),
            |i: int| (entries@[i].0@, entries@[i].1@),
        ));
        MemStore { map: OrderedMap::from_sorted(entries), frozen: false }
    }

    /// A copy of the store.
    pub fn duplicate(&self) -> (r: Self)
        requires
            self.wf(),
        ensures
            r.wf(),
            r.contents() == self.contents(),
            r.is_frozen() == self.is_frozen(),
    {
        let none: Vec<u8> = Vec::new();
        let entries = self.iter_prefix(none.as_slice());
        assert(prefix_part(self.contents(), none@) =~= self.contents());
        assert(pairs_view(entries@) =~= Seq::new(
            entries@.len(),
            |i: int| (entries@[i].0@, entries@[i].1@),
        ));
        MemStore { map: OrderedMap::from_sorted(entries), frozen: self.frozen }
    }

    /// Whether the store refuses batches.
    pub closed spec fn is_frozen(&self) -> bool {
        self.frozen
    }

    /// Makes the store read-only.
    pub fn freeze(&mut self)
        requires
            old(self).wf(),
        ensures
            final(self).wf(),
            final(self).contents() == old(self).contents(),
            final(self).is_frozen(),
    {
        self.frozen = true;
    }

    /// Applies a batch, unless the store is frozen.
    pub fn apply(&mut self, batch: Batch) -> (r: Result<(), IoError>)
        requires
            old(self).wf(),
        ensures
            final(self).wf(),
            final(self).is_frozen() == old(self).is_frozen(),
            r is Err <==> old(self).is_frozen(),
            r is Ok ==> final(self).contents() == apply_ops(old(self).contents(), batch.ops()),
            r is Err ==> final(self).contents() == old(self).contents(),
    {
        if self.frozen {
            return Err(IoError { message: String::from_str("the store is read-only") });
        }
        let mut i: usize = 0;
        while i < batch.len()
            invariant
                i <= batch.ops().len(),
                self.map.wf(),
                self.frozen == old(self).frozen,
                self.map@ == apply_ops(old(self).map@, batch.ops().subrange(0, i as int)),
            decreases batch.ops().len() - i,
        {
            proof {
                lemma_apply_ops_push(
                    old(self).map@,
                    batch.ops().subrange(0, i as int),
                    batch.ops()[i as int],
                );
                assert(batch.ops().subrange(0, i as int).push(batch.ops()[i as int])
                    =~= batch.ops().subrange(0, i + 1));
            }
            let key = batch.key_at(i);
            match batch.value_at(i) {
                Some(v) => {
                    self.map.insert(clone_bytes(key.as_slice()), clone_bytes(v.as_slice()));
                },
                None => {
                    self.map.remove(key.as_slice());
                },
            }
            i += 1;
        }
        assert(batch.ops().subrange(0, i as int) =~= batch.ops());
        Ok(())
    }

    /// The number of entries held.
    pub fn len(&self) -> (n: usize)
        requires
            self.wf(),
        ensures
            n == self.contents().dom().len(),
    {
        proof {
            lemma_sorted_len(self.map.pairs());
        }
        self.map.len()
    }
}

/// A sorted list has as many entries as its map has keys.
pub proof fn lemma_sorted_len<T>(s: Seq<(Seq<u8>, T)>)
    requires
        sorted(s),
    ensures
        seq_to_map(s).dom().finite(),
        seq_to_map(s).dom().len() == s.len(),
    decreases s.len(),
{
    if s.len() == 0 {
        assert(seq_to_map(s).dom() =~= Set::<Seq<u8>>::empty());
    } else {
        let d = s.drop_last();
        let last = s.last();
        lemma_sorted_len(d);
        assert forall|i: int| 0 <= i < d.len() implies crate::bytes::lex_lt(
            #[trigger] d[i].0,
            last.0,
        ) by {
            assert(d[i] == s[i]);
            assert(crate::bytes::lex_lt(s[i].0, s[s.len() - 1].0));
        }
        lemma_push_sorted(d, last.0, last.1);
        assert(d.push((last.0, last.1)) =~= s);
        if seq_to_map(d).contains_key(last.0) {
            let i = lemma_map_key_index(d, last.0);
            crate::bytes::lemma_lex_irreflexive(last.0);
        }
        assert(seq_to_map(s).dom() =~= seq_to_map(d).dom().insert(last.0));
    }
}

impl ByteStore for MemStore {
    closed spec fn contents(&self) -> Contents {
        self.map@
    }

    closed spec fn wf(&self) -> bool {
        self.map.wf()
    }

    fn get(&self, key: &[u8]) -> (r: Option<Vec<u8>>) {
        match self.map.get(key) {
            Some(v) => Some(clone_bytes(v.as_slice())),
            None => None,
        }
    }

    /// A store in memory applies every batch, unless it is frozen: then it
    /// refuses every batch and stays as it is.
    fn exec_batch(&mut self, batch: Batch) -> (r: Result<(), IoError>)
        ensures
            r is Err <==> old(self).is_frozen(),
            final(self).is_frozen() == old(self).is_frozen(),
    {
        self.apply(batch)
    }

    fn iter_prefix(&self, prefix: &[u8]) -> (r: Vec<(Vec<u8>, Vec<u8>)>) {
        let mut out: Vec<(Vec<u8>, Vec<u8>)> = Vec::new();
        let n = self.map.len();
        let mut i: usize = 0;
        let ghost s = self.map.pairs();
        while i < n
            invariant
                i <= n,
                n == s.len(),
                s == self.map.pairs(),
                pairs_view(out@) == under_prefix(s.subrange(0, i as int), prefix@),
            decreases n - i,
        {
            let key = self.map.key_at(i);
            proof {
                assert(s.subrange(0, i + 1).drop_last() =~= s.subrange(0, i as int));
            }
            if has_prefix(key.as_slice(), prefix) {
                let value = self.map.value_at(i);
                out.push((clone_bytes(key.as_slice()), clone_bytes(value.as_slice())));
                assert(pairs_view(out@) =~= under_prefix(s.subrange(0, i as int), prefix@).push(
                    s[i as int],
                ));
            }
            i += 1;
        }
        proof {
            assert(s.subrange(0, n as int) =~= s);
            lemma_under_prefix_listing(s, prefix@);
        }
        out
    }
}

} // verus!
