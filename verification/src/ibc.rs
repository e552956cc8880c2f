//! The part of the inter-blockchain communication account that lives in
//! the storage: its counters and throughputs, and the rules by which a
//! transaction's changes to them are judged.

use crate::bytes::{bytes_eq, clone_bytes};
use crate::encoding::u64_bytes;
use crate::error::Error as StorageError;
use crate::key::{is_key_string, is_segment, pushed, Key};
use crate::ordered::{lemma_map_key_index, lemma_sorted_entry, seq_to_map, sorted};
use crate::storage::{visible_under, Storage};
use crate::store::{pairs_view, ByteStore};
use crate::write_log::{lookup, Modification, ModificationView};
use vstd::prelude::*;

verus! {

/// How a change to the state differs from the one that was expected.
#[derive(Clone, Copy, Debug, PartialEq, Eq, Structural)]
pub enum StateChangeKind {
    /// The number of changed keys is not the expected one.
    KeysMismatched,
    /// The key holds another value than expected.
    ValueMismatched,
    /// The key holds a value where none, or another kind of change, was
    /// expected.
    ValueInvalid,
    /// The key holds nothing where a value was expected.
    DeletedUnexpectedly,
}

/// Which limit a transfer exceeds.
#[derive(Clone, Copy, Debug, PartialEq, Eq, Structural)]
pub enum LimitKind {
    /// More was minted than the mint limit allows.
    Mint,
    /// More flowed in or out in the epoch than the throughput limit allows.
    Throughput,
}

/// How a stored trace fails to match its key.
#[derive(Clone, Copy, Debug, PartialEq, Eq, Structural)]
pub enum TraceKind {
    /// No trace is stored under the key.
    Missing,
    /// The hash of the stored trace is not the one in the key.
    Invalid,
}

/// Why a transaction is not acceptable.
#[derive(Debug)]
pub enum Error {
    /// The storage could not be read.
    NativeVpError(StorageError),
    /// The transaction carries no data.
    NoTxData,
    /// The message of the transaction is not valid.
    IbcAction,
    /// A trace is not valid; holds the key.
    Trace(Vec<u8>, TraceKind),
    /// The state was not changed as expected; holds the key, which is
    /// empty where the number of keys is at fault.
    StateChange(Vec<u8>, StateChangeKind),
    /// The events are not the expected ones.
    IbcEvent,
    /// A limit of a token is exceeded; holds the index of the token.
    RateLimit(usize, LimitKind),
}

/// What holding `actual` against the expected change comes to: nothing
/// where they match, else how they differ.
pub open spec fn value_mismatch(actual: Option<Seq<u8>>, expected: Option<ModificationView>) -> Option<
    StateChangeKind,
> {
    match actual {
        Some(v) => match expected {
            Some(ModificationView::Write { value }) => if v == value {
                None
            } else {
                Some(StateChangeKind::ValueMismatched)
            },
            _ => Some(StateChangeKind::ValueInvalid),
        },
        None => match expected {
            Some(ModificationView::Delete) => None,
            _ => Some(StateChangeKind::DeletedUnexpectedly),
        },
    }
}

pub open spec fn opt_mod_view(m: Option<&Modification>) -> Option<ModificationView> {
    match m {
        Some(x) => Some(x@),
        None => None,
    }
}

/// Holds the value that a key has after a transaction against the change
/// that was expected for it.
pub fn match_value(key: &[u8], actual: Option<Vec<u8>>, expected: Option<&Modification>) -> (r:
    Result<(), Error>)
    ensures
        match r {
            Ok(_) => value_mismatch(crate::store::opt_view(actual), opt_mod_view(expected)) is None,
            Err(e) => e matches Error::StateChange(k, kind) && k@ == key@ && value_mismatch(
                crate::store::opt_view(actual),
                opt_mod_view(expected),
            ) == Some(kind),
        },
{
    match (actual, expected) {
        (Some(v), Some(Modification::Write { value })) => {
            if bytes_eq(v.as_slice(), value.as_slice()) {
                Ok(())
            } else {
                Err(Error::StateChange(clone_bytes(key), StateChangeKind::ValueMismatched))
            }
        },
        (Some(_), _) => Err(Error::StateChange(clone_bytes(key), StateChangeKind::ValueInvalid)),
        (None, Some(Modification::Delete)) => Ok(()),
        (None, _) => Err(Error::StateChange(clone_bytes(key), StateChangeKind::DeletedUnexpectedly)),
    }
}

/// What is known of one token when its limits are checked.
#[derive(Clone, Copy, Debug)]
pub struct TokenFlow {
    pub mint_limit: u128,
    pub throughput_limit: u128,
    /// The amount minted so far.
    pub minted: u128,
    /// What flowed in during the epoch.
    pub deposit: u128,
    /// What flowed out during the epoch.
    pub withdraw: u128,
}

/// The net flow of a token in the epoch, whichever way it goes.
pub open spec fn net_flow(f: TokenFlow) -> int {
    if f.deposit < f.withdraw {
        f.withdraw - f.deposit
    } else {
        f.deposit - f.withdraw
    }
}

/// The limit that a token exceeds, if any: the mint limit is looked at
/// first.
pub open spec fn exceeded(f: TokenFlow) -> Option<LimitKind> {
    if f.mint_limit < f.minted {
        Some(LimitKind::Mint)
    } else if f.throughput_limit < net_flow(f) {
        Some(LimitKind::Throughput)
    } else {
        None
    }
}

/// Every token before `n` is within its limits.
pub open spec fn within_limits(flows: Seq<TokenFlow>, n: int) -> bool {
    forall|i: int| 0 <= i < n ==> exceeded(#[trigger] flows[i]) is None
}

/// One changed trace key: the hash that the key names, and the hash of
/// the trace stored under it, if one is stored.
pub struct TraceCheck {
    pub key: Vec<u8>,
    pub key_hash: Vec<u8>,
    pub stored_hash: Option<Vec<u8>>,
}

/// How a trace fails to match its key, if it does.
pub open spec fn trace_fault(t: TraceCheck) -> Option<TraceKind> {
    match t.stored_hash {
        Some(h) => if h@ == t.key_hash@ {
            None
        } else {
            Some(TraceKind::Invalid)
        },
        None => Some(TraceKind::Missing),
    }
}

pub open spec fn traces_ok(traces: Seq<TraceCheck>, n: int) -> bool {
    forall|i: int| 0 <= i < n ==> trace_fault(#[trigger] traces[i]) is None
}

/// One changed key of the account: what it holds after the transaction,
/// and the change that executing the message leads to.
pub struct ChangedKey {
    pub key: Vec<u8>,
    pub actual: Option<Vec<u8>>,
    pub expected: Option<Modification>,
}

pub open spec fn opt_owned_view(m: Option<Modification>) -> Option<ModificationView> {
    match m {
        Some(x) => Some(x@),
        None => None,
    }
}

pub open spec fn change_fault(c: ChangedKey) -> Option<StateChangeKind> {
    value_mismatch(crate::store::opt_view(c.actual), opt_owned_view(c.expected))
}

pub open spec fn changes_ok(changed: Seq<ChangedKey>, n: int) -> bool {
    forall|i: int| 0 <= i < n ==> change_fault(#[trigger] changed[i]) is None
}

/// The validity predicate of the account.
pub struct Ibc {}

impl Ibc {
    /// The verdict on a transaction: it carries data, and passes the four
    /// checks, of which the first that fails gives the error.
    pub fn validate_tx(
        &self,
        has_data: bool,
        state: Result<(), Error>,
        message: Result<(), Error>,
        trace: Result<(), Error>,
        limits: Result<bool, Error>,
    ) -> (r: Result<bool, Error>)
        ensures
            r is Ok <==> has_data && state is Ok && message is Ok && trace is Ok && limits is Ok,
            r matches Ok(b) ==> b,
            !has_data ==> r matches Err(Error::NoTxData),
            has_data && state is Err ==> r == Err::<bool, Error>(state->Err_0),
            has_data && state is Ok && message is Err ==> r == Err::<bool, Error>(message->Err_0),
            has_data && state is Ok && message is Ok && trace is Err ==> r == Err::<bool, Error>(
                trace->Err_0,
            ),
            has_data && state is Ok && message is Ok && trace is Ok && limits is Err ==> r == limits,
    {
        if !has_data {
            return Err(Error::NoTxData);
        }
        // Pseudo execution and compare them
        match state {
            Ok(_) => {},
            Err(e) => {
                return Err(e);
            },
        }
        // Validate the state according to the given IBC message
        match message {
            Ok(_) => {},
            Err(e) => {
                return Err(e);
            },
        }
        // Validate the denom store if a denom key has been changed
        match trace {
            Ok(_) => {},
            Err(e) => {
                return Err(e);
            },
        }
        // Check the limits
        match limits {
            Ok(_) => {},
            Err(e) => {
                return Err(e);
            },
        }
        Ok(true)
    }

    /// Holds the changes that a transaction made against those that
    /// executing its message leads to: as many keys changed as expected,
    /// every key holds what is expected, and the events are the expected
    /// ones. The first fault gives the error.
    pub fn validate_state(
        &self,
        changed: &Vec<ChangedKey>,
        expected_count: usize,
        events_match: bool,
    ) -> (r: Result<(), Error>)
        ensures
            r is Ok <==> changed@.len() == expected_count && changes_ok(
                changed@,
                changed@.len() as int,
            ) && events_match,
            changed@.len() != expected_count ==> (r matches Err(
                Error::StateChange(k, StateChangeKind::KeysMismatched),
            ) && k@.len() == 0),
            changed@.len() == expected_count ==> match r {
                Ok(_) => true,
                Err(Error::StateChange(k, kind)) => exists|i: int|
                    0 <= i < changed@.len() && changes_ok(changed@, i) && #[trigger] change_fault(
                        changed@[i],
                    ) == Some(kind) && k@ == changed@[i].key@,
                Err(Error::IbcEvent) => changes_ok(changed@, changed@.len() as int)
                    && !events_match,
                Err(_) => false,
            },
    {
        if changed.len() != expected_count {
            return Err(Error::StateChange(Vec::new(), StateChangeKind::KeysMismatched));
        }
        let mut i: usize = 0;
        while i < changed.len()
            invariant
                i <= changed.len(),
                changed@.len() == expected_count,
                changes_ok(changed@, i as int),
            decreases changed.len() - i,
        {
            let c = &changed[i];
            let actual = match &c.actual {
                Some(v) => Some(clone_bytes(v.as_slice())),
                None => None,
            };
            let expected = match &c.expected {
                Some(m) => Some(m),
                None => None,
            };
            match match_value(c.key.as_slice(), actual, expected) {
                Ok(_) => {},
                Err(e) => {
                    assert(change_fault(changed@[i as int]) is Some);
                    return Err(e);
                },
            }
            i += 1;
        }
        // check the event
        if !events_match {
            return Err(Error::IbcEvent);
        }
        Ok(())
    }

    /// The unbonding period in seconds: the length of the pipeline in
    /// epochs times the least duration of an epoch. `None` where that is
    /// more than a `u64` can hold.
    pub fn validation_params(&self, pipeline_len: u64, min_epoch_duration_secs: u64) -> (r: Option<
        u64,
    >)
        ensures
            match r {
                Some(secs) => secs == pipeline_len * min_epoch_duration_secs,
                None => pipeline_len * min_epoch_duration_secs > u64::MAX,
            },
    {
        pipeline_len.checked_mul(min_epoch_duration_secs)
    }

    /// Checks the changed traces: under every key a trace is stored whose
    /// hash is the one that the key names. The first trace that fails
    /// gives the error.
    pub fn validate_trace(&self, traces: &Vec<TraceCheck>) -> (r: Result<(), Error>)
        ensures
            match r {
                Ok(_) => traces_ok(traces@, traces@.len() as int),
                Err(Error::Trace(k, kind)) => exists|i: int|
                    0 <= i < traces@.len() && traces_ok(traces@, i) && #[trigger] trace_fault(
                        traces@[i],
                    ) == Some(kind) && k@ == traces@[i].key@,
                Err(_) => false,
            },
    {
        let mut i: usize = 0;
        while i < traces.len()
            invariant
                i <= traces.len(),
                traces_ok(traces@, i as int),
            decreases traces.len() - i,
        {
            let t = &traces[i];
            match &t.stored_hash {
                Some(h) => {
                    if !bytes_eq(h.as_slice(), t.key_hash.as_slice()) {
                        assert(trace_fault(traces@[i as int]) == Some(TraceKind::Invalid));
                        return Err(Error::Trace(clone_bytes(t.key.as_slice()), TraceKind::Invalid));
                    }
                },
                None => {
                    assert(trace_fault(traces@[i as int]) == Some(TraceKind::Missing));
                    return Err(Error::Trace(clone_bytes(t.key.as_slice()), TraceKind::Missing));
                },
            }
            i += 1;
        }
        Ok(())
    }

    /// Checks the limits of the tokens whose balances changed: no token
    /// is minted beyond its mint limit, and none flows in or out, on
    /// balance, beyond its throughput limit. The first token that exceeds
    /// a limit gives the error.
    pub fn check_limits(&self, flows: &Vec<TokenFlow>) -> (r: Result<bool, Error>)
        ensures
            match r {
                Ok(b) => b && within_limits(flows@, flows@.len() as int),
                Err(Error::RateLimit(i, kind)) => i < flows@.len() && within_limits(
                    flows@,
                    i as int,
                ) && exceeded(flows@[i as int]) == Some(kind),
                Err(_) => false,
            },
    {
        let mut i: usize = 0;
        while i < flows.len()
            invariant
                i <= flows.len(),
                within_limits(flows@, i as int),
            decreases flows.len() - i,
        {
            let f = &flows[i];
            // Check the supply
            if f.mint_limit < f.minted {
                return Err(Error::RateLimit(i, LimitKind::Mint));
            }
            // Check the rate limit
            let diff = if f.deposit < f.withdraw {
                f.withdraw - f.deposit
            } else {
                f.deposit - f.withdraw
            };
            if f.throughput_limit < diff {
                return Err(Error::RateLimit(i, LimitKind::Throughput));
            }
            i += 1;
        }
        Ok(true)
    }
}

/// The segment `clients`.
pub open spec fn clients() -> Seq<u8> {
    seq![99u8, 108u8, 105u8, 101u8, 110u8, 116u8, 115u8]
}

/// The segment `connections`.
pub open spec fn connections() -> Seq<u8> {
    seq![99u8, 111u8, 110u8, 110u8, 101u8, 99u8, 116u8, 105u8, 111u8, 110u8, 115u8]
}

/// The segment `channelEnds`.
pub open spec fn channel_ends() -> Seq<u8> {
    seq![99u8, 104u8, 97u8, 110u8, 110u8, 101u8, 108u8, 69u8, 110u8, 100u8, 115u8]
}

/// The segment `counter`.
pub open spec fn counter() -> Seq<u8> {
    seq![99u8, 111u8, 117u8, 110u8, 116u8, 101u8, 114u8]
}

/// The segment `deposit`.
pub open spec fn deposit() -> Seq<u8> {
    seq![100u8, 101u8, 112u8, 111u8, 115u8, 105u8, 116u8]
}

/// The segment `withdraw`.
pub open spec fn withdraw() -> Seq<u8> {
    seq![119u8, 105u8, 116u8, 104u8, 100u8, 114u8, 97u8, 119u8]
}

/// The key of a counter of the account at `ibc`.
pub open spec fn counter_key(ibc: Seq<u8>, what: Seq<u8>) -> Seq<u8> {
    pushed(pushed(ibc, what), counter())
}

/// A token amount of zero: 256 bits, all zero.
pub open spec fn zero_amount() -> Seq<u8> {
    Seq::new(32, |i: int| 0u8)
}

/// The counters start at zero.
pub open spec fn zero_counter() -> ModificationView {
    ModificationView::Write { value: u64_bytes(0) }
}

fn counter_key_of(ibc: &Key, what: &[u8]) -> (r: Key)
    requires
        ibc.wf(),
        is_segment(what@),
    ensures
        r.wf(),
        r@ == counter_key(ibc@, what@),
{
    let counter_segment: [u8; 7] = [99, 111, 117, 110, 116, 101, 114];
    assert(counter_segment@ =~= counter());
    assert(is_segment(counter()));
    let outer = match ibc.push_bytes(what) {
        Ok(k) => k,
        Err(_) => vstd::pervasive::unreached(),
    };
    match outer.push_bytes(&counter_segment) {
        Ok(k) => k,
        Err(_) => vstd::pervasive::unreached(),
    }
}

/// Initialize storage in the genesis block: the counters of clients,
/// connections and channels of the account at `ibc` are set to zero.
pub fn init_genesis_storage<S: ByteStore>(storage: &mut Storage<S>, ibc: &Key)
    requires
        old(storage).wf(),
        ibc.wf(),
    ensures
        final(storage).wf(),
        final(storage).db() == old(storage).db(),
        final(storage).leaves() == old(storage).leaves(),
        final(storage).block() == old(storage).block(),
        final(storage).done() == old(storage).done(),
        final(storage).setup() == old(storage).setup(),
        final(storage).promoted() == old(storage).promoted(),
        final(storage).log() == old(storage).log().insert(
            counter_key(ibc@, clients()),
            zero_counter(),
        ).insert(counter_key(ibc@, connections()), zero_counter()).insert(
            counter_key(ibc@, channel_ends()),
            zero_counter(),
        ),
{
    let init_value: u64 = 0;
    let clients_segment: [u8; 7] = [99, 108, 105, 101, 110, 116, 115];
    let connections_segment: [u8; 11] = [99, 111, 110, 110, 101, 99, 116, 105, 111, 110, 115];
    let channels_segment: [u8; 11] = [99, 104, 97, 110, 110, 101, 108, 69, 110, 100, 115];
    proof {
        assert(clients_segment@ =~= clients());
        assert(connections_segment@ =~= connections());
        assert(channels_segment@ =~= channel_ends());
        assert(is_segment(clients()));
        assert(is_segment(connections()));
        assert(is_segment(channel_ends()));
    }
    // the client counter
    let key = counter_key_of(ibc, &clients_segment);
    let _ = storage.write_u64(&key, init_value);
    // the connection counter
    let key = counter_key_of(ibc, &connections_segment);
    let _ = storage.write_u64(&key, init_value);
    // the channel counter
    let key = counter_key_of(ibc, &channels_segment);
    let _ = storage.write_u64(&key, init_value);
}

/// `key` holds a throughput of the account at `ibc`: a value below its
/// deposits or below its withdrawals.
pub open spec fn is_throughput<S: ByteStore>(storage: Storage<S>, ibc: Seq<u8>, key: Seq<u8>) -> bool {
    visible_under(storage.db(), storage.log(), pushed(ibc, deposit())).contains_key(key)
        || visible_under(storage.db(), storage.log(), pushed(ibc, withdraw())).contains_key(key)
}

/// The throughput with its amount set to zero.
pub open spec fn zeroed() -> ModificationView {
    ModificationView::Write { value: zero_amount() }
}

fn listed_keys<S: ByteStore>(storage: &Storage<S>, prefix: &Key, keys: &mut Vec<Key>) -> (r: Result<
    (),
    StorageError,
>)
    requires
        storage.wf(),
    ensures
        match r {
            Ok(_) => final(keys)@.len() >= old(keys)@.len() && final(keys)@.subrange(
                0,
                old(keys)@.len() as int,
            ) == old(keys)@ && (forall|k: Seq<u8>|
                visible_under(storage.db(), storage.log(), prefix@).contains_key(k) <==> exists|
                    i: int,
                |
                    old(keys)@.len() <= i < final(keys)@.len() && (#[trigger] final(keys)@[i])@ == k),
            Err(e) => e == StorageError::KeyParseError && exists|k: Seq<u8>|
                visible_under(storage.db(), storage.log(), prefix@).contains_key(k)
                    && !is_key_string(k),
        },
{
    let (mut iter, _gas) = storage.iter_prefix(prefix);
    let ghost listing = iter.remaining();
    let (entries, _total) = iter.collect();
    let ghost base = keys@;
    let n = entries.len();
    let mut i: usize = 0;
    while i < n
        invariant
            i <= n,
            n == entries@.len(),
            listing == pairs_view(entries@),
            sorted(listing),
            seq_to_map(listing) == visible_under(storage.db(), storage.log(), prefix@),
            keys@.len() == base.len() + i,
            keys@.subrange(0, base.len() as int) == base,
            forall|j: int| 0 <= j < i ==> (#[trigger] keys@[base.len() + j])@ == listing[j].0,
        decreases n - i,
    {
        proof {
            lemma_sorted_entry(listing, i as int);
        }
        let ghost before = keys@;
        match Key::from_bytes(entries[i].0.as_slice()) {
            Ok(key) => {
                keys.push(key);
            },
            Err(e) => {
                assert(seq_to_map(listing).contains_key(listing[i as int].0));
                return Err(e);
            },
        }
        proof {
            assert(keys@.subrange(0, base.len() as int) =~= before.subrange(0, base.len() as int));
            assert forall|j: int| 0 <= j < i + 1 implies (#[trigger] keys@[base.len() + j])@
                == listing[j].0 by {
                if j < i {
                    assert(keys@[base.len() + j] == before[base.len() + j]);
                }
            }
        }
        i += 1;
    }
    proof {
        assert forall|k: Seq<u8>|
            visible_under(storage.db(), storage.log(), prefix@).contains_key(k) <==> exists|i: int|
                base.len() <= i < keys@.len() && (#[trigger] keys@[i])@ == k by {
            if visible_under(storage.db(), storage.log(), prefix@).contains_key(k) {
                let j = lemma_map_key_index(listing, k);
                assert(keys@[base.len() + j]@ == k);
            }
            if exists|i: int| base.len() <= i < keys@.len() && (#[trigger] keys@[i])@ == k {
                let i = choose|i: int| base.len() <= i < keys@.len() && (#[trigger] keys@[i])@ == k;
                let j = i - base.len();
                assert(keys@[base.len() + j]@ == listing[j].0);
                lemma_sorted_entry(listing, j);
            }
        }
    }
    Ok(())
}

/// Clear the per-epoch throughputs (deposit and withdraw) of the
/// account at `ibc`: every amount below its deposits and below its
/// withdrawals is set to zero. Where one of them lies under a malformed
/// key, nothing is changed.
pub fn clear_throughputs<S: ByteStore>(storage: &mut Storage<S>, ibc: &Key) -> (r: Result<
    (),
    StorageError,
>)
    requires
        old(storage).wf(),
        ibc.wf(),
    ensures
        final(storage).wf(),
        final(storage).db() == old(storage).db(),
        final(storage).leaves() == old(storage).leaves(),
        final(storage).block() == old(storage).block(),
        final(storage).done() == old(storage).done(),
        final(storage).setup() == old(storage).setup(),
        final(storage).promoted() == old(storage).promoted(),
        match r {
            Ok(_) => forall|k: Seq<u8>| #[trigger]
                lookup(final(storage).log(), k) == (if is_throughput(*old(storage), ibc@, k) {
                    Some(zeroed())
                } else {
                    lookup(old(storage).log(), k)
                }),
            Err(e) => e == StorageError::KeyParseError && final(storage).log() == old(
                storage,
            ).log() && exists|k: Seq<u8>|
                is_throughput(*old(storage), ibc@, k) && !is_key_string(k),
        },
{
    let deposit_segment: [u8; 7] = [100, 101, 112, 111, 115, 105, 116];
    let withdraw_segment: [u8; 8] = [119, 105, 116, 104, 100, 114, 97, 119];
    proof {
        assert(deposit_segment@ =~= deposit());
        assert(withdraw_segment@ =~= withdraw());
        assert(is_segment(deposit()));
        assert(is_segment(withdraw()));
    }
    let deposit_prefix = match ibc.push_bytes(&deposit_segment) {
        Ok(k) => k,
        Err(_) => vstd::pervasive::unreached(),
    };
    let withdraw_prefix = match ibc.push_bytes(&withdraw_segment) {
        Ok(k) => k,
        Err(_) => vstd::pervasive::unreached(),
    };
    let mut keys: Vec<Key> = Vec::new();
    match listed_keys(storage, &deposit_prefix, &mut keys) {
        Ok(_) => {},
        Err(e) => {
            return Err(e);
        },
    }
    let ghost deposits = keys@;
    match listed_keys(storage, &withdraw_prefix, &mut keys) {
        Ok(_) => {},
        Err(e) => {
            return Err(e);
        },
    }
    proof {
        assert forall|k: Seq<u8>|
            is_throughput(*storage, ibc@, k) <==> exists|i: int|
                0 <= i < keys@.len() && (#[trigger] keys@[i])@ == k by {
            if exists|i: int| 0 <= i < deposits.len() && (#[trigger] deposits[i])@ == k {
                let i = choose|i: int| 0 <= i < deposits.len() && (#[trigger] deposits[i])@ == k;
                assert(keys@.subrange(0, deposits.len() as int)[i] == keys@[i]);
            }
            if exists|i: int| 0 <= i < keys@.len() && (#[trigger] keys@[i])@ == k {
                let i = choose|i: int| 0 <= i < keys@.len() && (#[trigger] keys@[i])@ == k;
                if i < deposits.len() {
                    assert(keys@.subrange(0, deposits.len() as int)[i] == keys@[i]);
                    assert(deposits[i]@ == k);
                }
            }
        }
    }
    let n = keys.len();
    let mut i: usize = 0;
    while i < n
        invariant
            i <= n,
            n == keys@.len(),
            storage.wf(),
            storage.db() == old(storage).db(),
            storage.leaves() == old(storage).leaves(),
            storage.block() == old(storage).block(),
            storage.done() == old(storage).done(),
            storage.setup() == old(storage).setup(),
            storage.promoted() == old(storage).promoted(),
            forall|k: Seq<u8>| #[trigger]
                lookup(storage.log(), k) == (if exists|j: int|
                    0 <= j < i && (#[trigger] keys@[j])@ == k {
                    Some(zeroed())
                } else {
                    lookup(old(storage).log(), k)
                }),
        decreases n - i,
    {
        let mut zero: Vec<u8> = Vec::new();
        let mut z: usize = 0;
        while z < 32
            invariant
                z <= 32,
                zero@ == Seq::new(z as nat, |i: int| 0u8),
            decreases 32 - z,
        {
            zero.push(0);
            assert(zero@ =~= Seq::new((z + 1) as nat, |i: int| 0u8));
            z += 1;
        }
        let ghost before = storage.log();
        let _ = storage.write(&keys[i], zero);
        proof {
            let written = keys@[i as int]@;
            assert forall|k: Seq<u8>| #[trigger]
                lookup(storage.log(), k) == (if exists|j: int|
                    0 <= j < i + 1 && (#[trigger] keys@[j])@ == k {
                    Some(zeroed())
                } else {
                    lookup(old(storage).log(), k)
                }) by {
                assert(lookup(before, k) == (if exists|j: int|
                    0 <= j < i && (#[trigger] keys@[j])@ == k {
                    Some(zeroed())
                } else {
                    lookup(old(storage).log(), k)
                }));
                if k == written {
                    assert(keys@[i as int]@ == k);
                } else if exists|j: int| 0 <= j < i + 1 && (#[trigger] keys@[j])@ == k {
                    let j = choose|j: int| 0 <= j < i + 1 && (#[trigger] keys@[j])@ == k;
                    assert(j < i);
                }
            }
        }
        i += 1;
    }
    Ok(())
}

} // verus!
