//! The image of a byte store: all its entries as one byte string, from
//! which the store can be read back. Each entry is the length of its key,
//! the key, the length of its value and the value; lengths are eight
//! bytes, lowest first; entries stand in ascending key order.

use crate::bytes::{append_bytes, bytes_lt, sub_bytes};
use crate::encoding::{decode_u64, encode_u64, lemma_u64_bytes, u64_bytes};
use crate::ordered::{lemma_push_sorted, lemma_sorted_unique, seq_to_map, sorted};
use crate::store::{pairs_view, ByteStore, Contents, MemStore};
use vstd::bytes::spec_u64_from_le_bytes;
use vstd::prelude::*;

verus! {

pub type Entries = Seq<(Seq<u8>, Seq<u8>)>;

/// The image of one entry.
pub open spec fn entry_image(key: Seq<u8>, value: Seq<u8>) -> Seq<u8> {
    u64_bytes(key.len() as u64) + key + u64_bytes(value.len() as u64) + value
}

/// The image of a list of entries.
pub open spec fn image(entries: Entries) -> Seq<u8>
    decreases entries.len(),
{
    if entries.len() == 0 {
        Seq::empty()
    } else {
        entry_image(entries[0].0, entries[0].1) + image(entries.drop_first())
    }
}

/// The entry at the front of an image, with what follows it; `None`
/// where the bytes end before the entry does.
pub open spec fn parse_entry(b: Seq<u8>) -> Option<((Seq<u8>, Seq<u8>), Seq<u8>)> {
    if b.len() < 8 {
        None
    } else {
        let kl = spec_u64_from_le_bytes(b.subrange(0, 8)) as int;
        if b.len() < 16 + kl {
            None
        } else {
            let vl = spec_u64_from_le_bytes(b.subrange(8 + kl, 16 + kl)) as int;
            if b.len() < 16 + kl + vl {
                None
            } else {
                Some(
                    (
                        (b.subrange(8, 8 + kl), b.subrange(16 + kl, 16 + kl + vl)),
                        b.subrange(16 + kl + vl, b.len() as int),
                    ),
                )
            }
        }
    }
}

/// The entries that an image holds; `None` where it is cut short.
pub open spec fn parse_image(b: Seq<u8>) -> Option<Entries>
    decreases b.len(),
{
    if b.len() == 0 {
        Some(Seq::empty())
    } else {
        match parse_entry(b) {
            Some((entry, rest)) => if rest.len() < b.len() {
                match parse_image(rest) {
                    Some(more) => Some(seq![entry] + more),
                    None => None,
                }
            } else {
                None
            },
            None => None,
        }
    }
}

/// Lengths that a `u64` can hold.
pub open spec fn sizes_fit(entries: Entries) -> bool {
    forall|i: int|
        0 <= i < entries.len() ==> (#[trigger] entries[i]).0.len() <= u64::MAX && entries[i].1.len()
            <= u64::MAX
}

proof fn lemma_parse_entry(key: Seq<u8>, value: Seq<u8>, rest: Seq<u8>)
    requires
        key.len() <= u64::MAX,
        value.len() <= u64::MAX,
    ensures
        parse_entry(entry_image(key, value) + rest) == Some(((key, value), rest)),
{
    let b = entry_image(key, value) + rest;
    let kl = key.len() as int;
    let vl = value.len() as int;
    lemma_u64_bytes(key.len() as u64);
    lemma_u64_bytes(value.len() as u64);
    assert(b.subrange(0, 8) =~= u64_bytes(key.len() as u64));
    assert(b.subrange(8 + kl, 16 + kl) =~= u64_bytes(value.len() as u64));
    assert(b.subrange(8, 8 + kl) =~= key);
    assert(b.subrange(16 + kl, 16 + kl + vl) =~= value);
    assert(b.subrange(16 + kl + vl, b.len() as int) =~= rest);
}

/// Reading an image back gives the entries that it was made of.
pub proof fn law_image_round_trip(entries: Entries)
    requires
        sizes_fit(entries),
    ensures
        parse_image(image(entries)) == Some(entries),
    decreases entries.len(),
{
    if entries.len() > 0 {
        let first = entries[0];
        let rest = entries.drop_first();
        assert(sizes_fit(rest)) by {
            assert forall|i: int| 0 <= i < rest.len() implies (#[trigger] rest[i]).0.len()
                <= u64::MAX && rest[i].1.len() <= u64::MAX by {
                assert(rest[i] == entries[i + 1]);
            }
        }
        law_image_round_trip(rest);
        lemma_parse_entry(first.0, first.1, image(rest));
        lemma_u64_bytes(first.0.len() as u64);
        assert(seq![first] + rest =~= entries);
    }
}

pub proof fn lemma_image_push(entries: Entries, key: Seq<u8>, value: Seq<u8>)
    ensures
        image(entries.push((key, value))) == image(entries) + entry_image(key, value),
    decreases entries.len(),
{
    let next = entries.push((key, value));
    if entries.len() == 0 {
        assert(next.drop_first() =~= Seq::<(Seq<u8>, Seq<u8>)>::empty());
        assert(image(next.drop_first()) =~= Seq::<u8>::empty());
        assert(image(next) =~= entry_image(key, value));
        assert(image(entries) + entry_image(key, value) =~= entry_image(key, value));
    } else {
        lemma_image_push(entries.drop_first(), key, value);
        assert(next.drop_first() =~= entries.drop_first().push((key, value)));
        assert(image(next) =~= image(entries) + entry_image(key, value));
    }
}

/// Appends the image of one entry to `out`.
pub fn write_entry(out: &mut Vec<u8>, key: &[u8], value: &[u8])
    ensures
        final(out)@ == old(out)@ + entry_image(key@, value@),
{
    let kl = encode_u64(key.len() as u64);
    append_bytes(out, kl.as_slice());
    append_bytes(out, key);
    let vl = encode_u64(value.len() as u64);
    append_bytes(out, vl.as_slice());
    append_bytes(out, value);
    assert(out@ =~= old(out)@ + entry_image(key@, value@));
}

/// The image of a list of entries.
pub fn write_image(entries: &Vec<(Vec<u8>, Vec<u8>)>) -> (r: Vec<u8>)
    ensures
        r@ == image(crate::store::pairs_view(entries@)),
{
    let ghost all = crate::store::pairs_view(entries@);
    let mut out: Vec<u8> = Vec::new();
    let mut i: usize = 0;
    proof {
        assert(all.subrange(0, 0) =~= Seq::<(Seq<u8>, Seq<u8>)>::empty());
    }
    while i < entries.len()
        invariant
            i <= entries.len(),
            all == crate::store::pairs_view(entries@),
            out@ == image(all.subrange(0, i as int)),
        decreases entries.len() - i,
    {
        proof {
            lemma_image_push(all.subrange(0, i as int), all[i as int].0, all[i as int].1);
            assert(all.subrange(0, i as int).push(all[i as int]) =~= all.subrange(0, i + 1));
        }
        write_entry(&mut out, entries[i].0.as_slice(), entries[i].1.as_slice());
        i += 1;
    }
    proof {
        assert(all.subrange(0, entries@.len() as int) =~= all);
    }
    out
}

/// The entries that an image holds, where it is whole and its entries
/// stand in ascending key order.
pub fn read_image(bytes: &[u8]) -> (r: Option<Vec<(Vec<u8>, Vec<u8>)>>)
    ensures
        match r {
            Some(entries) => parse_image(bytes@) == Some(crate::store::pairs_view(entries@))
                && sorted(crate::store::pairs_view(entries@)),
            None => match parse_image(bytes@) {
                Some(entries) => !sorted(entries),
                None => true,
            },
        },
{
    let mut out: Vec<(Vec<u8>, Vec<u8>)> = Vec::new();
    let mut pos: usize = 0;
    let n = bytes.len();
    proof {
        assert(bytes@.subrange(0, n as int) =~= bytes@);
        assert(crate::store::pairs_view(out@) =~= Seq::<(Seq<u8>, Seq<u8>)>::empty());
        assert(Seq::<(Seq<u8>, Seq<u8>)>::empty() + parse_image(bytes@)->Some_0 =~= parse_image(
            bytes@,
        )->Some_0);
    }
    while pos < n
        invariant
            pos <= n,
            n == bytes@.len(),
            sorted(crate::store::pairs_view(out@)),
            parse_image(bytes@) == (match parse_image(bytes@.subrange(pos as int, n as int)) {
                Some(more) => Some(crate::store::pairs_view(out@) + more),
                None => None,
            }),
        decreases n - pos,
    {
        let ghost rest = bytes@.subrange(pos as int, n as int);
        let ghost seen = crate::store::pairs_view(out@);
        if n - pos < 8 {
            return None;
        }
        let kl = match decode_u64(sub_bytes(bytes, pos, pos + 8).as_slice()) {
            Some(v) => v,
            None => {
                return None;
            },
        };
        proof {
            lemma_u64_bytes(kl);
            assert(rest.subrange(0, 8) =~= bytes@.subrange(pos as int, pos + 8));
        }
        if (n - pos - 8) as u64 <= kl || (n - pos - 8) as u64 - kl < 8 {
            return None;
        }
        let key_start = pos + 8;
        let key_end = key_start + kl as usize;
        let vl = match decode_u64(sub_bytes(bytes, key_end, key_end + 8).as_slice()) {
            Some(v) => v,
            None => {
                return None;
            },
        };
        proof {
            lemma_u64_bytes(vl);
            assert(rest.subrange(8 + kl, 16 + kl) =~= bytes@.subrange(
                key_end as int,
                key_end + 8,
            ));
        }
        let value_start = key_end + 8;
        if ((n - value_start) as u64) < vl {
            return None;
        }
        let value_end = value_start + vl as usize;
        let key = sub_bytes(bytes, key_start, key_end);
        let value = sub_bytes(bytes, value_start, value_end);
        proof {
            assert(rest.subrange(8, 8 + kl) =~= key@);
            assert(rest.subrange(16 + kl, 16 + kl + vl) =~= value@);
            assert(rest.subrange(16 + kl + vl, rest.len() as int) =~= bytes@.subrange(
                value_end as int,
                n as int,
            ));
            assert(parse_entry(rest) == Some(
                ((key@, value@), bytes@.subrange(value_end as int, n as int)),
            ));
        }
        let in_order = out.len() == 0 || bytes_lt(out[out.len() - 1].0.as_slice(), key.as_slice());
        if !in_order {
            proof {
                match parse_image(bytes@.subrange(value_end as int, n as int)) {
                    Some(more) => {
                        let all = seen + (seq![(key@, value@)] + more);
                        assert(parse_image(bytes@) == Some(all));
                        assert(all[seen.len() - 1] == seen[seen.len() - 1]);
                        assert(all[seen.len() as int] == (key@, value@));
                        assert(!crate::bytes::lex_lt(all[seen.len() - 1].0, all[seen.len() as int].0));
                    },
                    None => {},
                }
            }
            return None;
        }
        proof {
            assert forall|j: int| 0 <= j < seen.len() implies crate::bytes::lex_lt(
                #[trigger] seen[j].0,
                key@,
            ) by {
                if j < seen.len() - 1 {
                    assert(crate::bytes::lex_lt(seen[j].0, seen[seen.len() - 1].0));
                    crate::bytes::lemma_lex_transitive(seen[j].0, seen[seen.len() - 1].0, key@);
                }
            }
            lemma_push_sorted(seen, key@, value@);
        }
        out.push((key, value));
        proof {
            assert(crate::store::pairs_view(out@) =~= seen.push((key@, value@)));
            match parse_image(bytes@.subrange(value_end as int, n as int)) {
                Some(more) => {
                    assert(seen + (seq![(key@, value@)] + more) =~= seen.push((key@, value@)) + more);
                },
                None => {},
            }
        }
        pos = value_end;
    }
    proof {
        assert(bytes@.subrange(n as int, n as int) =~= Seq::<u8>::empty());
        assert(crate::store::pairs_view(out@) + Seq::<(Seq<u8>, Seq<u8>)>::empty()
            =~= crate::store::pairs_view(out@));
    }
    Some(out)
}

/// The entries of a store in ascending key order.
pub open spec fn listing_of(db: Contents) -> Entries {
    choose|l: Entries| sorted(l) && #[trigger] seq_to_map(l) == db
}

impl MemStore {
    /// The image of the store.
    pub fn to_bytes(&self) -> (r: Vec<u8>)
        requires
            self.wf(),
        ensures
            r@ == image(listing_of(self.contents())),
            sorted(listing_of(self.contents())),
            seq_to_map(listing_of(self.contents())) == self.contents(),
            parse_image(r@) == Some(listing_of(self.contents())),
    {
        let none: Vec<u8> = Vec::new();
        let entries = self.iter_prefix(none.as_slice());
        proof {
            let l = pairs_view(entries@);
            assert(crate::store::prefix_part(self.contents(), none@) =~= self.contents());
            assert(sorted(l) && seq_to_map(l) == self.contents());
            lemma_sorted_unique(l, listing_of(self.contents()));
            assert forall|i: int| 0 <= i < l.len() implies (#[trigger] l[i]).0.len() <= u64::MAX
                && l[i].1.len() <= u64::MAX by {
                assert(l[i].0 == entries@[i].0@);
                assert(l[i].1 == entries@[i].1@);
                assert(entries@[i].0.len() <= usize::MAX);
                assert(entries@[i].1.len() <= usize::MAX);
            }
            law_image_round_trip(l);
        }
        write_image(&entries)
    }

    /// The store that an image holds; `None` where the image is cut short
    /// or its entries are out of order.
    pub fn from_bytes(bytes: &[u8]) -> (r: Option<MemStore>)
        ensures
            match r {
                Some(store) => store.wf() && !store.is_frozen() && (parse_image(bytes@) matches Some(
                    l,
                ) && sorted(l) && store.contents() == seq_to_map(l)),
                None => match parse_image(bytes@) {
                    Some(l) => !sorted(l),
                    None => true,
                },
            },
    {
        match read_image(bytes) {
            Some(entries) => Some(MemStore::from_sorted(entries)),
            None => None,
        }
    }
}

} // verus!
