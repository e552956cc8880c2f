//! The byte encoding of the integers that the engine persists.

use vstd::bytes::{spec_u64_from_le_bytes, spec_u64_to_le_bytes};
use vstd::prelude::*;

verus! {

/// Calls `borsh::to_vec` on a `u64`. Borsh writes an integer as its bytes
/// in little-endian order, and writing into a vector does not fail.
#[verifier::external_body]
fn borsh_u64_to_vec(v: u64) -> (r: Option<Vec<u8>>)
    ensures
        match r {
            Some(b) => b@ == spec_u64_to_le_bytes(v),
            None => false,
        },
{
    borsh::to_vec(&v).ok()
}

/// Calls `borsh::from_slice` for a `u64`. Borsh reads eight bytes in
/// little-endian order and refuses input that is shorter or that has bytes
/// left over.
#[verifier::external_body]
fn borsh_u64_from_slice(bytes: &[u8]) -> (r: Option<u64>)
    ensures
        match r {
            Some(v) => bytes@.len() == 8 && v == spec_u64_from_le_bytes(bytes@),
            None => bytes@.len() != 8,
        },
{
    borsh::from_slice::<u64>(bytes).ok()
}

/// The eight bytes that stand for `v`.
pub open spec fn u64_bytes(v: u64) -> Seq<u8> {
    spec_u64_to_le_bytes(v)
}

pub proof fn lemma_u64_bytes(v: u64)
    ensures
        u64_bytes(v).len() == 8,
        spec_u64_from_le_bytes(u64_bytes(v)) == v,
{
    vstd::bytes::lemma_auto_spec_u64_to_from_le_bytes();
}

pub proof fn lemma_u64_bytes_injective(a: u64, b: u64)
    requires
        u64_bytes(a) == u64_bytes(b),
    ensures
        a == b,
{
    lemma_u64_bytes(a);
    lemma_u64_bytes(b);
}

/// Encodes an integer as eight little-endian bytes.
pub fn encode_u64(v: u64) -> (r: Vec<u8>)
    ensures
        r@ == u64_bytes(v),
        r@.len() == 8,
{
    proof {
        lemma_u64_bytes(v);
    }
    match borsh_u64_to_vec(v) {
        Some(b) => b,
        None => Vec::new(),
    }
}

/// Decodes eight little-endian bytes; any other length is refused.
pub fn decode_u64(bytes: &[u8]) -> (r: Option<u64>)
    ensures
        match r {
            Some(v) => bytes@ == u64_bytes(v),
            None => bytes@.len() != 8,
        },
{
    let r = borsh_u64_from_slice(bytes);
    proof {
        vstd::bytes::lemma_auto_spec_u64_to_from_le_bytes();
        if bytes@.len() == 8 {
            assert(spec_u64_to_le_bytes(spec_u64_from_le_bytes(bytes@)) == bytes@);
        }
    }
    r
}

} // verus!
