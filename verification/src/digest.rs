//! The digest that turns storage keys and values into Merkle tree leaves.

use vstd::prelude::*;

verus! {

/// A 256-bit digest.
pub type Digest = [u8; 32];

/// The BLAKE2b digest of `data`, 32 bytes long, under the personalization
/// `personal`.
pub uninterp spec fn blake2b_256(personal: Seq<u8>, data: Seq<u8>) -> Seq<u8>;

/// The personalization that separates storage digests from any other use
/// of the hash function: the ASCII bytes of "namada storage".
pub open spec fn storage_personal() -> Seq<u8> {
    seq![110u8, 97u8, 109u8, 97u8, 100u8, 97u8, 32u8, 115u8, 116u8, 111u8, 114u8, 97u8, 103u8, 101u8]
}

/// The digest of a storage key or value.
pub open spec fn storage_digest(data: Seq<u8>) -> Seq<u8> {
    blake2b_256(storage_personal(), data)
}

/// The all-zero digest, which the Merkle tree reads as "no leaf".
pub open spec fn zero_digest() -> Seq<u8> {
    Seq::new(32, |i: int| 0u8)
}

/// Calls `blake2b_rs`: a `Blake2bBuilder` for 32 bytes of output with the
/// given personalization, one `update` with `data`, and `finalize`. The
/// result is BLAKE2b's, a function of the two byte strings alone. The
/// builder refuses a personalization of more than 16 bytes.
#[verifier::external_body]
fn blake2b_personal(personal: &[u8], data: &[u8]) -> (r: Digest)
    requires
        personal@.len() <= 16,
    ensures
        r@ == blake2b_256(personal@, data@),
{
    let mut buf = [0u8; 32];
    let mut hasher = blake2b_rs::Blake2bBuilder::new(32).personal(personal).build();
    hasher.update(data);
    hasher.finalize(&mut buf);
    buf
}

/// The hasher of the persistent storage.
pub struct PersistentStorageHasher {}

impl PersistentStorageHasher {
    /// The digest of `value` under the storage personalization.
    pub fn hash(value: &[u8]) -> (r: Digest)
        ensures
            r@ == storage_digest(value@),
    {
        let personal: [u8; 14] = [110, 97, 109, 97, 100, 97, 32, 115, 116, 111, 114, 97, 103, 101];
        assert(personal@ =~= storage_personal());
        blake2b_personal(&personal, value)
    }
}

/// Whether `d` is the all-zero digest.
pub fn is_zero_digest(d: &Digest) -> (r: bool)
    ensures
        r == (d@ == zero_digest()),
{
    let mut i: usize = 0;
    while i < 32
        invariant
            i <= 32,
            forall|j: int| 0 <= j < i ==> d@[j] == 0u8,
        decreases 32 - i,
    {
        if d[i] != 0 {
            assert(zero_digest()[i as int] == 0u8);
            return false;
        }
        i += 1;
    }
    assert(d@ =~= zero_digest());
    true
}

/// Reads a digest out of exactly 32 bytes.
pub fn digest_from_bytes(b: &[u8]) -> (r: Option<Digest>)
    ensures
        match r {
            Some(d) => b@.len() == 32 && d@ == b@,
            None => b@.len() != 32,
        },
{
    if b.len() != 32 {
        return None;
    }
    let mut d: Digest = [0u8; 32];
    let mut i: usize = 0;
    while i < 32
        invariant
            i <= 32,
            b@.len() == 32,
            forall|j: int| 0 <= j < i ==> d@[j] == b@[j],
        decreases 32 - i,
    {
        d[i] = b[i];
        i += 1;
    }
    assert(d@ =~= b@);
    Some(d)
}

} // verus!
