//! A map from byte strings to values, kept as a vector sorted by key, so
//! that it is walked in the same order on every machine.

use crate::bytes::{
    bytes_eq, bytes_lt, lemma_lex_asymmetric, lemma_lex_irreflexive, lemma_lex_total,
    lemma_lex_transitive, lex_lt,
};
use vstd::prelude::*;

verus! {

/// The keys of `s` are strictly increasing.
pub open spec fn sorted<T>(s: Seq<(Seq<u8>, T)>) -> bool {
    forall|i: int, j: int| 0 <= i < j < s.len() ==> lex_lt(#[trigger] s[i].0, #[trigger] s[j].0)
}

pub open spec fn has_key_at<T>(s: Seq<(Seq<u8>, T)>, k: Seq<u8>, i: int) -> bool {
    0 <= i < s.len() && s[i].0 == k
}

/// The map that a list of pairs stands for.
pub open spec fn seq_to_map<T>(s: Seq<(Seq<u8>, T)>) -> Map<Seq<u8>, T> {
    Map::new(
        |k: Seq<u8>| exists|i: int| has_key_at(s, k, i),
        |k: Seq<u8>| s[choose|i: int| has_key_at(s, k, i)].1,
    )
}

pub proof fn lemma_sorted_distinct<T>(s: Seq<(Seq<u8>, T)>, i: int, j: int)
    requires
        sorted(s),
        0 <= i < s.len(),
        0 <= j < s.len(),
        s[i].0 == s[j].0,
    ensures
        i == j,
{
    lemma_lex_irreflexive(s[i].0);
    if i < j {
        assert(lex_lt(s[i].0, s[j].0));
    } else if j < i {
        assert(lex_lt(s[j].0, s[i].0));
    }
}

/// In a sorted list each entry is what the map holds under its key.
pub proof fn lemma_sorted_entry<T>(s: Seq<(Seq<u8>, T)>, i: int)
    requires
        sorted(s),
        0 <= i < s.len(),
    ensures
        seq_to_map(s).contains_key(s[i].0),
        seq_to_map(s)[s[i].0] == s[i].1,
{
    assert(has_key_at(s, s[i].0, i));
    let j = choose|j: int| has_key_at(s, s[i].0, j);
    lemma_sorted_distinct(s, i, j);
}

/// A key that the map holds stands at some index of the list.
pub proof fn lemma_map_key_index<T>(s: Seq<(Seq<u8>, T)>, k: Seq<u8>) -> (i: int)
    requires
        sorted(s),
        seq_to_map(s).contains_key(k),
    ensures
        has_key_at(s, k, i),
        seq_to_map(s)[k] == s[i].1,
{
    let i = choose|i: int| has_key_at(s, k, i);
    i
}

/// `p` is where `k` stands, or would stand, in the sorted list `s`.
pub open spec fn slot_of<T>(s: Seq<(Seq<u8>, T)>, k: Seq<u8>, p: int) -> bool {
    &&& 0 <= p <= s.len()
    &&& forall|i: int| 0 <= i < p ==> lex_lt(#[trigger] s[i].0, k)
    &&& forall|i: int| p <= i < s.len() ==> !lex_lt(#[trigger] s[i].0, k)
}

pub proof fn lemma_slot_absent<T>(s: Seq<(Seq<u8>, T)>, k: Seq<u8>, p: int)
    requires
        sorted(s),
        slot_of(s, k, p),
        p == s.len() || s[p].0 != k,
    ensures
        !seq_to_map(s).contains_key(k),
        forall|i: int| p <= i < s.len() ==> lex_lt(k, #[trigger] s[i].0),
{
    assert forall|i: int| p <= i < s.len() implies lex_lt(k, #[trigger] s[i].0) by {
        if i == p {
            lemma_lex_total(s[p].0, k);
        } else {
            assert(lex_lt(s[p].0, s[i].0));
            lemma_lex_total(s[p].0, k);
            lemma_lex_transitive(k, s[p].0, s[i].0);
        }
    }
    if seq_to_map(s).contains_key(k) {
        let i = choose|i: int| has_key_at(s, k, i);
        lemma_lex_irreflexive(k);
        if i < p {
            assert(lex_lt(s[i].0, k));
        } else {
            assert(lex_lt(k, s[i].0));
        }
    }
}

pub proof fn lemma_insert_sorted<T>(s: Seq<(Seq<u8>, T)>, k: Seq<u8>, v: T, p: int)
    requires
        sorted(s),
        slot_of(s, k, p),
        p == s.len() || s[p].0 != k,
    ensures
        sorted(s.insert(p, (k, v))),
        seq_to_map(s.insert(p, (k, v))) == seq_to_map(s).insert(k, v),
{
    lemma_slot_absent(s, k, p);
    let t = s.insert(p, (k, v));
    assert forall|i: int, j: int| 0 <= i < j < t.len() implies lex_lt(
        #[trigger] t[i].0,
        #[trigger] t[j].0,
    ) by {
        let si = if i < p { i } else { i - 1 };
        let sj = if j < p { j } else { j - 1 };
        if i == p {
            assert(t[j] == s[sj]);
        } else if j == p {
            assert(t[i] == s[si]);
        } else {
            assert(t[i] == s[si]);
            assert(t[j] == s[sj]);
            assert(lex_lt(s[si].0, s[sj].0));
        }
    }
    assert forall|x: Seq<u8>| seq_to_map(t).contains_key(x) <==> seq_to_map(s).insert(
        k,
        v,
    ).contains_key(x) by {
        if seq_to_map(t).contains_key(x) {
            let i = choose|i: int| has_key_at(t, x, i);
            if i != p {
                let si = if i < p { i } else { i - 1 };
                assert(has_key_at(s, x, si));
            }
        }
        if seq_to_map(s).insert(k, v).contains_key(x) {
            if x == k {
                assert(has_key_at(t, x, p));
            } else {
                let i = choose|i: int| has_key_at(s, x, i);
                let ti = if i < p { i } else { i + 1 };
                assert(has_key_at(t, x, ti));
            }
        }
    }
    assert forall|x: Seq<u8>| seq_to_map(t).contains_key(x) implies seq_to_map(t)[x]
        == seq_to_map(s).insert(k, v)[x] by {
        let i = choose|i: int| has_key_at(t, x, i);
        lemma_sorted_entry(t, i);
        if i != p {
            let si = if i < p { i } else { i - 1 };
            assert(t[i] == s[si]);
            lemma_sorted_entry(s, si);
        }
    }
    assert(seq_to_map(t) =~= seq_to_map(s).insert(k, v));
}

pub proof fn lemma_update_sorted<T>(s: Seq<(Seq<u8>, T)>, v: T, p: int)
    requires
        sorted(s),
        0 <= p < s.len(),
    ensures
        sorted(s.update(p, (s[p].0, v))),
        seq_to_map(s.update(p, (s[p].0, v))) == seq_to_map(s).insert(s[p].0, v),
{
    let k = s[p].0;
    let t = s.update(p, (k, v));
    assert forall|i: int, j: int| 0 <= i < j < t.len() implies lex_lt(
        #[trigger] t[i].0,
        #[trigger] t[j].0,
    ) by {
        assert(t[i].0 == s[i].0);
        assert(t[j].0 == s[j].0);
    }
    assert forall|x: Seq<u8>| seq_to_map(t).contains_key(x) <==> seq_to_map(s).insert(
        k,
        v,
    ).contains_key(x) by {
        if seq_to_map(t).contains_key(x) {
            let i = choose|i: int| has_key_at(t, x, i);
            assert(has_key_at(s, x, i));
        }
        if seq_to_map(s).insert(k, v).contains_key(x) {
            if x == k {
                assert(has_key_at(t, x, p));
            } else {
                let i = choose|i: int| has_key_at(s, x, i);
                assert(has_key_at(t, x, i));
            }
        }
    }
    assert forall|x: Seq<u8>| seq_to_map(t).contains_key(x) implies seq_to_map(t)[x]
        == seq_to_map(s).insert(k, v)[x] by {
        let i = choose|i: int| has_key_at(t, x, i);
        lemma_sorted_entry(t, i);
        if i != p {
            assert(t[i] == s[i]);
            lemma_sorted_entry(s, i);
        }
    }
    assert(seq_to_map(t) =~= seq_to_map(s).insert(k, v));
}

pub proof fn lemma_remove_sorted<T>(s: Seq<(Seq<u8>, T)>, p: int)
    requires
        sorted(s),
        0 <= p < s.len(),
    ensures
        sorted(s.remove(p)),
        seq_to_map(s.remove(p)) == seq_to_map(s).remove(s[p].0),
{
    let k = s[p].0;
    let t = s.remove(p);
    assert forall|i: int, j: int| 0 <= i < j < t.len() implies lex_lt(
        #[trigger] t[i].0,
        #[trigger] t[j].0,
    ) by {
        let si = if i < p { i } else { i + 1 };
        let sj = if j < p { j } else { j + 1 };
        assert(t[i] == s[si]);
        assert(t[j] == s[sj]);
        assert(lex_lt(s[si].0, s[sj].0));
    }
    assert forall|x: Seq<u8>| seq_to_map(t).contains_key(x) <==> seq_to_map(s).remove(
        k,
    ).contains_key(x) by {
        if seq_to_map(t).contains_key(x) {
            let i = choose|i: int| has_key_at(t, x, i);
            let si = if i < p { i } else { i + 1 };
            assert(has_key_at(s, x, si));
            if x == k {
                lemma_sorted_distinct(s, si, p);
            }
        }
        if seq_to_map(s).remove(k).contains_key(x) {
            let i = choose|i: int| has_key_at(s, x, i);
            let ti = if i < p { i } else { i - 1 };
            assert(has_key_at(t, x, ti));
        }
    }
    assert forall|x: Seq<u8>| seq_to_map(t).contains_key(x) implies seq_to_map(t)[x]
        == seq_to_map(s).remove(k)[x] by {
        let i = choose|i: int| has_key_at(t, x, i);
        lemma_sorted_entry(t, i);
        let si = if i < p { i } else { i + 1 };
        assert(t[i] == s[si]);
        lemma_sorted_entry(s, si);
    }
    assert(seq_to_map(t) =~= seq_to_map(s).remove(k));
}

/// Appending a key above all others keeps the list sorted.
pub proof fn lemma_push_sorted<T>(s: Seq<(Seq<u8>, T)>, k: Seq<u8>, v: T)
    requires
        sorted(s),
        forall|i: int| 0 <= i < s.len() ==> lex_lt(#[trigger] s[i].0, k),
    ensures
        sorted(s.push((k, v))),
        seq_to_map(s.push((k, v))) == seq_to_map(s).insert(k, v),
{
    lemma_lex_irreflexive(k);
    assert(slot_of(s, k, s.len() as int));
    lemma_insert_sorted(s, k, v, s.len() as int);
    assert(s.insert(s.len() as int, (k, v)) =~= s.push((k, v)));
}

/// The first `i + 1` entries of a sorted list stand for the map of the
/// first `i` with the entry at `i` added.
pub proof fn lemma_sorted_prefix_step<T>(s: Seq<(Seq<u8>, T)>, i: int)
    requires
        sorted(s),
        0 <= i < s.len(),
    ensures
        sorted(s.subrange(0, i)),
        sorted(s.subrange(0, i + 1)),
        seq_to_map(s.subrange(0, i + 1)) == seq_to_map(s.subrange(0, i)).insert(s[i].0, s[i].1),
        !seq_to_map(s.subrange(0, i)).contains_key(s[i].0),
{
    let pre = s.subrange(0, i);
    assert forall|a: int, b: int| 0 <= a < b < pre.len() implies lex_lt(
        #[trigger] pre[a].0,
        #[trigger] pre[b].0,
    ) by {
        assert(pre[a] == s[a]);
        assert(pre[b] == s[b]);
    }
    assert forall|j: int| 0 <= j < pre.len() implies lex_lt(#[trigger] pre[j].0, s[i].0) by {
        assert(pre[j] == s[j]);
    }
    lemma_push_sorted(pre, s[i].0, s[i].1);
    assert(pre.push((s[i].0, s[i].1)) =~= s.subrange(0, i + 1));
    if seq_to_map(pre).contains_key(s[i].0) {
        let j = lemma_map_key_index(pre, s[i].0);
        lemma_lex_irreflexive(s[i].0);
    }
}

/// Some sorted list stands for the map.
pub open spec fn listable<T>(m: Map<Seq<u8>, T>) -> bool {
    exists|s: Seq<(Seq<u8>, T)>| sorted(s) && #[trigger] seq_to_map(s) == m
}

/// The entries of the map in ascending key order.
pub open spec fn listing<T>(m: Map<Seq<u8>, T>) -> Seq<(Seq<u8>, T)> {
    choose|s: Seq<(Seq<u8>, T)>| sorted(s) && #[trigger] seq_to_map(s) == m
}

/// A sorted list is the listing of the map that it stands for.
pub proof fn lemma_listing<T>(s: Seq<(Seq<u8>, T)>)
    requires
        sorted(s),
    ensures
        listing(seq_to_map(s)) == s,
{
    let l = listing(seq_to_map(s));
    assert(sorted(s) && seq_to_map(s) == seq_to_map(s));
    lemma_sorted_unique(l, s);
}

/// Every key has its slot in a sorted list.
pub proof fn lemma_slot_exists<T>(s: Seq<(Seq<u8>, T)>, k: Seq<u8>) -> (p: int)
    requires
        sorted(s),
    ensures
        slot_of(s, k, p),
    decreases s.len(),
{
    if s.len() == 0 {
        0
    } else if lex_lt(s.last().0, k) {
        assert forall|i: int| 0 <= i < s.len() implies lex_lt(#[trigger] s[i].0, k) by {
            if i < s.len() - 1 {
                assert(lex_lt(s[i].0, s[s.len() - 1].0));
                lemma_lex_transitive(s[i].0, s.last().0, k);
            }
        }
        s.len() as int
    } else {
        let d = s.drop_last();
        assert(sorted(d)) by {
            assert forall|i: int, j: int| 0 <= i < j < d.len() implies lex_lt(
                #[trigger] d[i].0,
                #[trigger] d[j].0,
            ) by {
                assert(d[i] == s[i]);
                assert(d[j] == s[j]);
            }
        }
        let p = lemma_slot_exists(d, k);
        assert forall|i: int| 0 <= i < p implies lex_lt(#[trigger] s[i].0, k) by {
            assert(s[i] == d[i]);
        }
        assert forall|i: int| p <= i < s.len() implies !lex_lt(#[trigger] s[i].0, k) by {
            if i < s.len() - 1 {
                assert(s[i] == d[i]);
            }
        }
        p
    }
}

/// A map that a sorted list stands for still is one with an entry added.
pub proof fn lemma_insert_listable<T>(m: Map<Seq<u8>, T>, k: Seq<u8>, v: T)
    requires
        listable(m),
    ensures
        listable(m.insert(k, v)),
{
    let s = choose|s: Seq<(Seq<u8>, T)>| sorted(s) && #[trigger] seq_to_map(s) == m;
    let p = lemma_slot_exists(s, k);
    if p < s.len() && s[p].0 == k {
        lemma_update_sorted(s, v, p);
        assert(seq_to_map(s.update(p, (k, v))) == m.insert(k, v));
    } else {
        lemma_insert_sorted(s, k, v, p);
        assert(seq_to_map(s.insert(p, (k, v))) == m.insert(k, v));
    }
}

/// A sorted list is determined by the map it stands for.
pub proof fn lemma_sorted_unique<T>(a: Seq<(Seq<u8>, T)>, b: Seq<(Seq<u8>, T)>)
    requires
        sorted(a),
        sorted(b),
        seq_to_map(a) == seq_to_map(b),
    ensures
        a == b,
    decreases a.len(),
{
    if a.len() == 0 {
        if b.len() > 0 {
            lemma_sorted_entry(b, 0);
            let i = choose|i: int| has_key_at(a, b[0].0, i);
        }
        assert(a =~= b);
    } else if b.len() == 0 {
        lemma_sorted_entry(a, 0);
        let i = choose|i: int| has_key_at(b, a[0].0, i);
    } else {
        let la = a.len() - 1;
        let lb = b.len() - 1;
        lemma_sorted_entry(a, la);
        lemma_sorted_entry(b, lb);
        let i = lemma_map_key_index(b, a[la].0);
        let j = lemma_map_key_index(a, b[lb].0);
        // the two greatest keys are the same key
        if a[la].0 != b[lb].0 {
            lemma_lex_total(a[la].0, b[lb].0);
            if lex_lt(a[la].0, b[lb].0) {
                if j < la {
                    assert(lex_lt(a[j].0, a[la].0));
                }
                lemma_lex_asymmetric(a[la].0, b[lb].0);
            } else {
                if i < lb {
                    assert(lex_lt(b[i].0, b[lb].0));
                }
                lemma_lex_asymmetric(b[lb].0, a[la].0);
            }
        }
        lemma_remove_sorted(a, la);
        lemma_remove_sorted(b, lb);
        assert(a.remove(la) =~= a.drop_last());
        assert(b.remove(lb) =~= b.drop_last());
        lemma_sorted_unique(a.drop_last(), b.drop_last());
        assert(a =~= a.drop_last().push(a[la]));
        assert(b =~= b.drop_last().push(b[lb]));
    }
}

pub struct OrderedMap<V> {
    entries: Vec<(Vec<u8>, V)>,
}

impl<V: View> View for OrderedMap<V> {
    type V = Map<Seq<u8>, V::V>;

    open spec fn view(&self) -> Map<Seq<u8>, V::V> {
        seq_to_map(self.pairs())
    }
}

impl<V: View> OrderedMap<V> {
    /// The entries in order, each by its view.
    pub closed spec fn pairs(&self) -> Seq<(Seq<u8>, V::V)> {
        Seq::new(self.entries@.len(), |i: int| (self.entries@[i].0@, self.entries@[i].1@))
    }

    pub open spec fn wf(&self) -> bool {
        sorted(self.pairs())
    }

    pub fn new() -> (r: Self)
        ensures
            r.wf(),
            r.pairs() == Seq::<(Seq<u8>, V::V)>::empty(),
            r@ == Map::<Seq<u8>, V::V>::empty(),
    {
        let r = OrderedMap { entries: Vec::new() };
        assert(r.pairs() =~= Seq::<(Seq<u8>, V::V)>::empty());
        assert(r@ =~= Map::<Seq<u8>, V::V>::empty());
        r
    }

    /// The map that a sorted list of entries stands for.
    pub fn from_sorted(entries: Vec<(Vec<u8>, V)>) -> (r: Self)
        requires
            sorted(Seq::new(entries@.len(), |i: int| (entries@[i].0@, entries@[i].1@))),
        ensures
            r.wf(),
            r.pairs() == Seq::new(entries@.len(), |i: int| (entries@[i].0@, entries@[i].1@)),
    {
        OrderedMap { entries }
    }

    pub fn len(&self) -> (n: usize)
        ensures
            n == self.pairs().len(),
    {
        self.entries.len()
    }

    pub fn key_at(&self, i: usize) -> (k: &Vec<u8>)
        requires
            i < self.pairs().len(),
        ensures
            k@ == self.pairs()[i as int].0,
    {
        &self.entries[i].0
    }

    pub fn value_at(&self, i: usize) -> (v: &V)
        requires
            i < self.pairs().len(),
        ensures
            v@ == self.pairs()[i as int].1,
    {
        &self.entries[i].1
    }

    /// Binary search for the slot of `key`.
    fn slot(&self, key: &[u8]) -> (p: usize)
        requires
            self.wf(),
        ensures
            slot_of(self.pairs(), key@, p as int),
    {
        let mut lo: usize = 0;
        let mut hi: usize = self.entries.len();
        while lo < hi
            invariant
                self.wf(),
                lo <= hi <= self.pairs().len(),
                self.pairs().len() == self.entries@.len(),
                forall|i: int| 0 <= i < lo ==> lex_lt(#[trigger] self.pairs()[i].0, key@),
                forall|i: int| hi <= i < self.pairs().len() ==> !lex_lt(#[trigger] self.pairs()[i].0, key@),
            decreases hi - lo,
        {
            let mid = lo + (hi - lo) / 2;
            let ghost s = self.pairs();
            assert(s[mid as int].0 == self.entries@[mid as int].0@);
            if bytes_lt(self.entries[mid].0.as_slice(), key) {
                assert forall|i: int| 0 <= i < mid + 1 implies lex_lt(#[trigger] s[i].0, key@) by {
                    if i < mid {
                        assert(lex_lt(s[i].0, s[mid as int].0));
                        lemma_lex_transitive(s[i].0, s[mid as int].0, key@);
                    }
                }
                lo = mid + 1;
            } else {
                assert forall|i: int| mid <= i < s.len() implies !lex_lt(#[trigger] s[i].0, key@) by {
                    if i > mid && lex_lt(s[i].0, key@) {
                        assert(lex_lt(s[mid as int].0, s[i].0));
                        lemma_lex_transitive(s[mid as int].0, s[i].0, key@);
                    }
                }
                hi = mid;
            }
        }
        lo
    }

    pub fn get(&self, key: &[u8]) -> (r: Option<&V>)
        requires
            self.wf(),
        ensures
            match r {
                Some(v) => self@.contains_key(key@) && self@[key@] == v@,
                None => !self@.contains_key(key@),
            },
    {
        let p = self.slot(key);
        if p < self.entries.len() && bytes_eq(self.entries[p].0.as_slice(), key) {
            proof {
                lemma_sorted_entry(self.pairs(), p as int);
            }
            Some(&self.entries[p].1)
        } else {
            proof {
                lemma_slot_absent(self.pairs(), key@, p as int);
            }
            None
        }
    }

    pub fn insert(&mut self, key: Vec<u8>, value: V)
        requires
            old(self).wf(),
        ensures
            final(self).wf(),
            final(self)@ == old(self)@.insert(key@, value@),
    {
        let p = self.slot(key.as_slice());
        let ghost s = self.pairs();
        if p < self.entries.len() && bytes_eq(self.entries[p].0.as_slice(), key.as_slice()) {
            proof {
                lemma_update_sorted(s, value@, p as int);
            }
            self.entries.set(p, (key, value));
            assert(self.pairs() =~= s.update(p as int, (key@, value@)));
        } else {
            proof {
                lemma_insert_sorted(s, key@, value@, p as int);
            }
            self.entries.insert(p, (key, value));
            assert(self.pairs() =~= s.insert(p as int, (key@, value@)));
        }
    }

    /// Empties the map.
    pub fn clear(&mut self)
        ensures
            final(self).wf(),
            final(self).pairs() == Seq::<(Seq<u8>, V::V)>::empty(),
            final(self)@ == Map::<Seq<u8>, V::V>::empty(),
    {
        self.entries.clear();
        assert(self.pairs() =~= Seq::<(Seq<u8>, V::V)>::empty());
        assert(self@ =~= Map::<Seq<u8>, V::V>::empty());
    }

    pub fn remove(&mut self, key: &[u8])
        requires
            old(self).wf(),
        ensures
            final(self).wf(),
            final(self)@ == old(self)@.remove(key@),
    {
        let p = self.slot(key);
        let ghost s = self.pairs();
        if p < self.entries.len() && bytes_eq(self.entries[p].0.as_slice(), key) {
            proof {
                lemma_remove_sorted(s, p as int);
            }
            self.entries.remove(p);
            assert(self.pairs() =~= s.remove(p as int));
        } else {
            proof {
                lemma_slot_absent(s, key@, p as int);
            }
            assert(self@ =~= old(self)@.remove(key@));
        }
    }
}

} // verus!
