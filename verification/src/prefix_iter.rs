//! The entries under a key prefix, in ascending key order, as one pass with
//! a gas cost per entry.

use crate::bytes::clone_bytes;
use crate::gas::{add_gas, entry_gas, gas_of, gas_sum};
use crate::key::SEPARATOR;
use crate::ordered::{seq_to_map, sorted, OrderedMap};
use vstd::prelude::*;

verus! {

/// The byte prefix that the keys below a key share: the key and a
/// separator.
pub open spec fn dir_of(prefix: Seq<u8>) -> Seq<u8> {
    prefix + seq![SEPARATOR]
}

/// The bytes of the keys and values of a list of entries, counted.
pub open spec fn total_bytes(entries: Seq<(Seq<u8>, Seq<u8>)>) -> nat
    decreases entries.len(),
{
    if entries.len() == 0 {
        0
    } else {
        entries[0].0.len() + entries[0].1.len() + total_bytes(entries.drop_first())
    }
}

/// The entries under a prefix, and how far a pass over them has come.
pub struct PrefixIter {
    entries: OrderedMap<Vec<u8>>,
    pos: usize,
}

impl PrefixIter {
    pub closed spec fn wf(&self) -> bool {
        self.entries.wf() && self.pos <= self.entries.pairs().len()
    }

    /// The entries that the pass has not handed out yet.
    pub closed spec fn remaining(&self) -> Seq<(Seq<u8>, Seq<u8>)> {
        self.entries.pairs().subrange(self.pos as int, self.entries.pairs().len() as int)
    }

    /// Starts a pass over the entries of a map.
    pub fn new(entries: OrderedMap<Vec<u8>>) -> (r: Self)
        requires
            entries.wf(),
        ensures
            r.wf(),
            r.remaining() == entries.pairs(),
            sorted(r.remaining()),
            seq_to_map(r.remaining()) == entries@,
    {
        let r = PrefixIter { entries, pos: 0 };
        assert(r.remaining() =~= entries.pairs());
        r
    }

    /// What is left is in ascending key order.
    proof fn lemma_remaining_sorted(&self)
        requires
            self.wf(),
        ensures
            sorted(self.remaining()),
    {
        let s = self.entries.pairs();
        let r = self.remaining();
        assert forall|i: int, j: int| 0 <= i < j < r.len() implies crate::bytes::lex_lt(
            #[trigger] r[i].0,
            #[trigger] r[j].0,
        ) by {
            assert(r[i] == s[self.pos + i]);
            assert(r[j] == s[self.pos + j]);
        }
    }

    /// Hands out the next entry with its cost: the length of the key and
    /// of the value.
    pub fn next(&mut self) -> (r: Option<(Vec<u8>, Vec<u8>, u64)>)
        requires
            old(self).wf(),
        ensures
            final(self).wf(),
            sorted(final(self).remaining()),
            match r {
                Some((key, value, gas)) => old(self).remaining().len() > 0 && (key@, value@) == old(
                    self,
                ).remaining()[0] && final(self).remaining() == old(self).remaining().drop_first()
                    && gas == gas_of(key@.len() + value@.len()),
                None => old(self).remaining().len() == 0 && final(self).remaining() == old(
                    self,
                ).remaining(),
            },
    {
        if self.pos >= self.entries.len() {
            proof {
                self.lemma_remaining_sorted();
            }
            return None;
        }
        let key = clone_bytes(self.entries.key_at(self.pos).as_slice());
        let value = clone_bytes(self.entries.value_at(self.pos).as_slice());
        let gas = entry_gas(key.len(), value.len());
        self.pos = self.pos + 1;
        proof {
            assert(self.remaining() =~= old(self).remaining().drop_first());
            self.lemma_remaining_sorted();
        }
        Some((key, value, gas))
    }

    /// Hands out all entries that are left, with the sum of their costs.
    pub fn collect(&mut self) -> (r: (Vec<(Vec<u8>, Vec<u8>)>, u64))
        requires
            old(self).wf(),
        ensures
            final(self).wf(),
            final(self).remaining().len() == 0,
            crate::store::pairs_view(r.0@) == old(self).remaining(),
            r.1 == gas_of(total_bytes(old(self).remaining())),
    {
        let mut out: Vec<(Vec<u8>, Vec<u8>)> = Vec::new();
        let mut total: u64 = 0;
        let ghost all = self.remaining();
        loop
            invariant
                self.wf(),
                crate::store::pairs_view(out@) + self.remaining() == all,
                gas_of(total_bytes(all)) == gas_sum(total, gas_of(total_bytes(self.remaining()))),
            ensures
                self.wf(),
                self.remaining().len() == 0,
                crate::store::pairs_view(out@) == all,
                total == gas_of(total_bytes(all)),
            decreases self.remaining().len(),
        {
            let ghost before = self.remaining();
            let ghost seen = crate::store::pairs_view(out@);
            match self.next() {
                Some((key, value, gas)) => {
                    total = add_gas(total, gas);
                    out.push((key, value));
                    proof {
                        assert(crate::store::pairs_view(out@) =~= seen.push(before[0]));
                        assert(seen.push(before[0]) + before.drop_first() =~= seen + before);
                    }
                },
                None => {
                    proof {
                        assert(seen + before =~= seen);
                    }
                    break ;
                },
            }
        }
        (out, total)
    }
}

} // verus!
