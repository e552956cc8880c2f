//! Gas: the deterministic cost of a storage operation, counted in bytes.

use vstd::prelude::*;

verus! {

/// A byte count as gas. A count that no `u64` can hold costs `u64::MAX`.
pub open spec fn gas_of(bytes: nat) -> u64 {
    if bytes <= u64::MAX {
        bytes as u64
    } else {
        u64::MAX
    }
}

/// The sum of two costs, held at `u64::MAX`.
pub open spec fn gas_sum(a: u64, b: u64) -> u64 {
    gas_of((a + b) as nat)
}

pub fn add_gas(a: u64, b: u64) -> (r: u64)
    ensures
        r == gas_sum(a, b),
{
    a.saturating_add(b)
}

/// The cost of touching a key of `key_len` bytes.
pub fn key_gas(key_len: usize) -> (r: u64)
    ensures
        r == gas_of(key_len as nat),
{
    key_len as u64
}

/// The cost of touching a key together with a value.
pub fn entry_gas(key_len: usize, value_len: usize) -> (r: u64)
    ensures
        r == gas_of((key_len + value_len) as nat),
{
    (key_len as u64).saturating_add(value_len as u64)
}

} // verus!
