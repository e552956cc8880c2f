//! Block headers.

use crate::digest::{zero_digest, Digest};
use std::time::SystemTime;
use vstd::prelude::*;

verus! {

#[verifier::external_type_specification]
#[verifier::external_body]
pub struct ExSystemTime(SystemTime);

/// Calls `SystemTime::now`. What it returns is the clock's reading at the
/// moment of the call, of which nothing is known beforehand.
#[verifier::external_body]
fn system_time_now() -> SystemTime {
    SystemTime::now()
}

/// The header of a block.
pub struct Header {
    /// The hash of the block's content.
    pub hash: Digest,
    /// When the block was proposed.
    pub time: SystemTime,
    /// The hash of the next validator set.
    pub next_validators_hash: Digest,
}

/// A header with both hashes zero and the given time.
pub fn dummy_header_at(time: SystemTime) -> (r: Header)
    ensures
        r.hash@ == zero_digest(),
        r.next_validators_hash@ == zero_digest(),
        r.time == time,
{
    let zero: Digest = [0u8; 32];
    assert(zero@ =~= zero_digest());
    Header { hash: zero, time, next_validators_hash: zero }
}

/// A header for use where its content does not matter: both hashes are
/// zero, and the time is the time of the call.
pub fn get_dummy_header() -> (r: Header)
    ensures
        r.hash@ == zero_digest(),
        r.next_validators_hash@ == zero_digest(),
{
    dummy_header_at(system_time_now())
}

} // verus!
