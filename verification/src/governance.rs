//! The rules by which changes to the governance state are judged: each
//! rule decides, from what was read before and after a transaction, whether
//! one changed key is acceptable.

use crate::bytes::{bytes_eq, clone_bytes};
use crate::key::{is_segment, pushed, Key};
use vstd::prelude::*;

verus! {

/// The maximum number of actions in a proposal for public goods funding.
pub const MAX_PGF_ACTIONS: usize = 20;

/// Why a governance rule could not give a verdict.
#[derive(Debug)]
pub enum Error {
    /// The storage could not be read.
    NativeVpError(crate::error::Error),
    /// A field of a proposal that must be there is not; holds its key.
    EmptyProposalField(Vec<u8>),
    /// A vote key is malformed, or there is no vote under it; holds the key.
    InvalidVoteKey(Vec<u8>),
}

/// The kind of a changed key, as the governance rules tell keys apart.
#[allow(non_camel_case_types)]
#[derive(Clone, Copy, Debug, PartialEq, Eq, Structural)]
pub enum KeyType {
    COUNTER,
    VOTE,
    CONTENT,
    PROPOSAL_CODE,
    TYPE,
    PROPOSAL_COMMIT,
    ACTIVATION_EPOCH,
    START_EPOCH,
    END_EPOCH,
    FUNDS,
    BALANCE,
    AUTHOR,
    PARAMETER,
    UNKNOWN_GOVERNANCE,
    UNKNOWN,
}

/// What the key predicates of the governance storage say of one key.
#[derive(Clone, Copy, Debug)]
pub struct KeyFacts {
    pub is_vote_key: bool,
    pub is_content_key: bool,
    pub is_proposal_type_key: bool,
    pub is_proposal_code_key: bool,
    pub is_activation_epoch_key: bool,
    pub is_start_epoch_key: bool,
    pub is_commit_proposal_key: bool,
    pub is_end_epoch_key: bool,
    pub is_balance_key: bool,
    pub is_author_key: bool,
    pub is_counter_key: bool,
    pub is_parameter_key: bool,
    /// Whether the key is a balance of the native token.
    pub is_native_balance_key: bool,
    pub is_governance_key: bool,
}

/// The kind of a key: the first predicate that holds decides, in the
/// order in which the rules look at them.
pub open spec fn key_type_of(f: KeyFacts) -> KeyType {
    if f.is_vote_key {
        KeyType::VOTE
    } else if f.is_content_key {
        KeyType::CONTENT
    } else if f.is_proposal_type_key {
        KeyType::TYPE
    } else if f.is_proposal_code_key {
        KeyType::PROPOSAL_CODE
    } else if f.is_activation_epoch_key {
        KeyType::ACTIVATION_EPOCH
    } else if f.is_start_epoch_key {
        KeyType::START_EPOCH
    } else if f.is_commit_proposal_key {
        KeyType::PROPOSAL_COMMIT
    } else if f.is_end_epoch_key {
        KeyType::END_EPOCH
    } else if f.is_balance_key {
        KeyType::FUNDS
    } else if f.is_author_key {
        KeyType::AUTHOR
    } else if f.is_counter_key {
        KeyType::COUNTER
    } else if f.is_parameter_key {
        KeyType::PARAMETER
    } else if f.is_native_balance_key {
        KeyType::BALANCE
    } else if f.is_governance_key {
        KeyType::UNKNOWN_GOVERNANCE
    } else {
        KeyType::UNKNOWN
    }
}

impl KeyType {
    /// The kind of a key, from what the key predicates say of it.
    pub fn from_key(facts: &KeyFacts) -> (r: KeyType)
        ensures
            r == key_type_of(*facts),
    {
        if facts.is_vote_key {
            KeyType::VOTE
        } else if facts.is_content_key {
            KeyType::CONTENT
        } else if facts.is_proposal_type_key {
            KeyType::TYPE
        } else if facts.is_proposal_code_key {
            KeyType::PROPOSAL_CODE
        } else if facts.is_activation_epoch_key {
            KeyType::ACTIVATION_EPOCH
        } else if facts.is_start_epoch_key {
            KeyType::START_EPOCH
        } else if facts.is_commit_proposal_key {
            KeyType::PROPOSAL_COMMIT
        } else if facts.is_end_epoch_key {
            KeyType::END_EPOCH
        } else if facts.is_balance_key {
            KeyType::FUNDS
        } else if facts.is_author_key {
            KeyType::AUTHOR
        } else if facts.is_counter_key {
            KeyType::COUNTER
        } else if facts.is_parameter_key {
            KeyType::PARAMETER
        } else if facts.is_native_balance_key {
            KeyType::BALANCE
        } else if facts.is_governance_key {
            KeyType::UNKNOWN_GOVERNANCE
        } else {
            KeyType::UNKNOWN
        }
    }
}

/// The rule that judges a changed key.
#[derive(Clone, Copy, Debug, PartialEq, Eq, Structural)]
pub enum Rule {
    VoteKey,
    ContentKey,
    ProposalType,
    ProposalCode,
    ActivationEpoch,
    StartEpoch,
    EndEpoch,
    Funds,
    Author,
    Counter,
    ProposalCommit,
    Parameter,
    Balance,
    /// The key is accepted as it is.
    Accept,
    /// The key is rejected as it is.
    Reject,
}

/// The rule for a key of a kind: the rules about one proposal apply only
/// where the key names a proposal.
pub open spec fn rule_of(key_type: KeyType, has_proposal_id: bool) -> Rule {
    match key_type {
        KeyType::VOTE => if has_proposal_id {
            Rule::VoteKey
        } else {
            Rule::Reject
        },
        KeyType::CONTENT => if has_proposal_id {
            Rule::ContentKey
        } else {
            Rule::Reject
        },
        KeyType::TYPE => if has_proposal_id {
            Rule::ProposalType
        } else {
            Rule::Reject
        },
        KeyType::PROPOSAL_CODE => if has_proposal_id {
            Rule::ProposalCode
        } else {
            Rule::Reject
        },
        KeyType::ACTIVATION_EPOCH => if has_proposal_id {
            Rule::ActivationEpoch
        } else {
            Rule::Reject
        },
        KeyType::START_EPOCH => if has_proposal_id {
            Rule::StartEpoch
        } else {
            Rule::Reject
        },
        KeyType::END_EPOCH => if has_proposal_id {
            Rule::EndEpoch
        } else {
            Rule::Reject
        },
        KeyType::FUNDS => if has_proposal_id {
            Rule::Funds
        } else {
            Rule::Reject
        },
        KeyType::AUTHOR => if has_proposal_id {
            Rule::Author
        } else {
            Rule::Reject
        },
        KeyType::COUNTER => Rule::Counter,
        KeyType::PROPOSAL_COMMIT => Rule::ProposalCommit,
        KeyType::PARAMETER => Rule::Parameter,
        KeyType::BALANCE => Rule::Balance,
        KeyType::UNKNOWN_GOVERNANCE => Rule::Reject,
        KeyType::UNKNOWN => Rule::Accept,
    }
}

/// The addresses of a list, as byte strings.
pub open spec fn views(list: Seq<Vec<u8>>) -> Seq<Seq<u8>> {
    Seq::new(list.len(), |i: int| list[i]@)
}

/// Whether an address is among those of a list.
pub fn contains_address(list: &Vec<Vec<u8>>, address: &[u8]) -> (r: bool)
    ensures
        r == views(list@).contains(address@),
{
    let mut i: usize = 0;
    while i < list.len()
        invariant
            i <= list.len(),
            forall|j: int| 0 <= j < i ==> views(list@)[j] != address@,
        decreases list.len() - i,
    {
        if bytes_eq(list[i].as_slice(), address) {
            assert(views(list@)[i as int] == address@);
            return true;
        }
        i += 1;
    }
    false
}

/// The validity predicate of the governance account. It holds what all
/// its rules look at: the epoch of the block that the transaction is in.
pub struct GovernanceVp {
    pub current_epoch: u64,
}

/// A content key is acceptable where the proposal had no content before
/// and the new content is no longer than allowed.
pub open spec fn content_ok(has_pre_content: bool, max_length: u64, post_length: u64) -> bool {
    !has_pre_content && post_length <= max_length
}

/// A code key is acceptable for a default proposal that had no code
/// before, where the new code is no longer than allowed.
pub open spec fn code_ok(is_default: bool, has_pre_code: bool, max_length: u64, post_length: u64) -> bool {
    is_default && !has_pre_code && post_length <= max_length
}

/// An activation epoch is acceptable where there was none before, the
/// proposal is registered for committing, the activation lies at least
/// the grace period after the end of voting, and at most the maximal
/// proposal period after its start.
pub open spec fn activation_ok(
    has_pre_activation_epoch: bool,
    start: u64,
    end: u64,
    activation: u64,
    min_grace_epochs: u64,
    max_proposal_period: u64,
    has_post_committing_epoch: bool,
) -> bool {
    &&& !has_pre_activation_epoch
    &&& has_post_committing_epoch
    &&& end < activation
    &&& activation - end >= min_grace_epochs
    &&& start < activation
    &&& activation - start <= max_proposal_period
}

/// The voting period of a new proposal starts after the current epoch,
/// ends after it starts, and lasts a positive multiple of the minimal
/// period.
pub open spec fn start_ok(
    current: u64,
    has_pre_start_epoch: bool,
    has_pre_end_epoch: bool,
    start: u64,
    end: u64,
    min_period: u64,
) -> bool {
    &&& !has_pre_start_epoch
    &&& !has_pre_end_epoch
    &&& start < end
    &&& current < start
    &&& (end - start) % (min_period as int) == 0
    &&& end - start >= min_period
}

/// As for the start, and the voting period is no longer than allowed.
pub open spec fn end_ok(
    current: u64,
    has_pre_start_epoch: bool,
    has_pre_end_epoch: bool,
    start: u64,
    end: u64,
    min_period: u64,
    max_period: u64,
) -> bool {
    start_ok(current, has_pre_start_epoch, has_pre_end_epoch, start, end, min_period) && end
        - start <= max_period
}

/// The funds of a proposal are at least the minimal fund, and are what
/// the balance of the governance account grew by.
pub open spec fn funds_ok(
    min_funds: u128,
    pre_balance: Option<u128>,
    post_balance: u128,
    post_funds: u128,
) -> bool {
    post_funds >= min_funds && match pre_balance {
        Some(pre) => post_balance >= pre && post_balance - pre == post_funds,
        None => post_balance == post_funds,
    }
}

/// The balance of the governance account grew by at least the minimal
/// fund.
pub open spec fn balance_ok(pre_balance: Option<u128>, min_funds: u128, post_balance: u128) -> bool {
    match pre_balance {
        Some(pre) => post_balance > pre && post_balance - pre >= min_funds,
        None => post_balance >= min_funds,
    }
}

/// A vote is cast inside the voting window: by a validator within its
/// shorter period, by anyone else from the start to the end of voting.
pub open spec fn window_ok(
    current: u64,
    start: u64,
    end: u64,
    is_validator: bool,
    validator_period_ok: bool,
) -> bool {
    if is_validator {
        validator_period_ok
    } else {
        start <= current <= end
    }
}

impl GovernanceVp {
    /// Validate a content key.
    pub fn is_valid_content_key(
        &self,
        has_pre_content: bool,
        max_content_length: u64,
        post_content_length: u64,
    ) -> (r: bool)
        ensures
            r == content_ok(has_pre_content, max_content_length, post_content_length),
    {
        if has_pre_content {
            return false;
        }
        post_content_length <= max_content_length
    }

    /// Validate a proposal code.
    pub fn is_valid_proposal_code(
        &self,
        is_default: bool,
        has_pre_code: bool,
        max_proposal_length: u64,
        post_code_length: u64,
    ) -> (r: bool)
        ensures
            r == code_ok(is_default, has_pre_code, max_proposal_length, post_code_length),
    {
        if !is_default {
            return false;
        }
        if has_pre_code {
            return false;
        }
        post_code_length <= max_proposal_length
    }

    /// Validate an activation_epoch key.
    pub fn is_valid_activation_epoch(
        &self,
        has_pre_activation_epoch: bool,
        start_epoch: u64,
        end_epoch: u64,
        activation_epoch: u64,
        min_grace_epochs: u64,
        max_proposal_period: u64,
        has_post_committing_epoch: bool,
    ) -> (r: bool)
        ensures
            r == activation_ok(
                has_pre_activation_epoch,
                start_epoch,
                end_epoch,
                activation_epoch,
                min_grace_epochs,
                max_proposal_period,
                has_post_committing_epoch,
            ),
    {
        if has_pre_activation_epoch {
            return false;
        }
        let is_valid_activation_epoch = end_epoch < activation_epoch && activation_epoch - end_epoch
            >= min_grace_epochs;
        let is_valid_max_proposal_period = start_epoch < activation_epoch && activation_epoch
            - start_epoch <= max_proposal_period;
        has_post_committing_epoch && is_valid_activation_epoch && is_valid_max_proposal_period
    }

    /// Validate a start_epoch key. The minimal period is not zero where
    /// the length of the voting period is held against it.
    pub fn is_valid_start_epoch(
        &self,
        has_pre_start_epoch: bool,
        has_pre_end_epoch: bool,
        start_epoch: u64,
        end_epoch: u64,
        min_period: u64,
    ) -> (r: bool)
        requires
            !has_pre_start_epoch && !has_pre_end_epoch && start_epoch < end_epoch
                && self.current_epoch < start_epoch ==> min_period > 0,
        ensures
            r == start_ok(
                self.current_epoch,
                has_pre_start_epoch,
                has_pre_end_epoch,
                start_epoch,
                end_epoch,
                min_period,
            ),
    {
        if has_pre_start_epoch || has_pre_end_epoch {
            return false;
        }
        if end_epoch <= start_epoch || start_epoch <= self.current_epoch {
            return false;
        }
        (end_epoch - start_epoch) % min_period == 0 && end_epoch - start_epoch >= min_period
    }

    /// Validate an end_epoch key. The minimal period is not zero where the
    /// length of the voting period is held against it.
    pub fn is_valid_end_epoch(
        &self,
        has_pre_start_epoch: bool,
        has_pre_end_epoch: bool,
        start_epoch: u64,
        end_epoch: u64,
        min_period: u64,
        max_period: u64,
    ) -> (r: bool)
        requires
            !has_pre_start_epoch && !has_pre_end_epoch && start_epoch < end_epoch
                && self.current_epoch < start_epoch ==> min_period > 0,
        ensures
            r == end_ok(
                self.current_epoch,
                has_pre_start_epoch,
                has_pre_end_epoch,
                start_epoch,
                end_epoch,
                min_period,
                max_period,
            ),
    {
        if has_pre_start_epoch || has_pre_end_epoch {
            return false;
        }
        if end_epoch <= start_epoch || start_epoch <= self.current_epoch {
            return false;
        }
        (end_epoch - start_epoch) % min_period == 0 && end_epoch - start_epoch >= min_period
            && end_epoch - start_epoch <= max_period
    }

    /// Validate a funds key.
    pub fn is_valid_funds(
        &self,
        min_funds_parameter: u128,
        pre_balance: Option<u128>,
        post_balance: u128,
        post_funds: u128,
    ) -> (r: bool)
        ensures
            r == funds_ok(min_funds_parameter, pre_balance, post_balance, post_funds),
    {
        match pre_balance {
            Some(pre_balance) => {
                let is_post_funds_greater_than_minimum = post_funds >= min_funds_parameter;
                let is_valid_funds = post_balance >= pre_balance && post_balance - pre_balance
                    == post_funds;
                is_post_funds_greater_than_minimum && is_valid_funds
            },
            None => post_funds >= min_funds_parameter && post_balance == post_funds,
        }
    }

    /// Validate a balance key.
    pub fn is_valid_balance(
        &self,
        pre_balance: Option<u128>,
        min_funds_parameter: u128,
        post_balance: u128,
    ) -> (r: bool)
        ensures
            r == balance_ok(pre_balance, min_funds_parameter, post_balance),
    {
        match pre_balance {
            Some(pre_balance) => post_balance > pre_balance && post_balance - pre_balance
                >= min_funds_parameter,
            None => post_balance >= min_funds_parameter,
        }
    }

    /// Validate an author key: the proposal had no author before, the
    /// author's account exists, and the author is among the verifiers.
    pub fn is_valid_author(
        &self,
        has_pre_author: bool,
        author: &[u8],
        author_exists: bool,
        verifiers: &Vec<Vec<u8>>,
    ) -> (r: bool)
        ensures
            r == (!has_pre_author && author_exists && views(verifiers@).contains(author@)),
    {
        if has_pre_author {
            return false;
        }
        author_exists && contains_address(verifiers, author)
    }

    /// Validate a counter key: the counter grew by the number of
    /// proposals that the transaction set up.
    pub fn is_valid_counter(&self, pre_counter: u64, set_count: u64, post_counter: u64) -> (r: bool)
        ensures
            r == (pre_counter + set_count == post_counter),
    {
        match pre_counter.checked_add(set_count) {
            Some(sum) => sum == post_counter,
            None => false,
        }
    }

    /// Validate a commit key: the counter grew.
    pub fn is_valid_proposal_commit(&self, pre_counter: u64, post_counter: u64) -> (r: bool)
        ensures
            r == (pre_counter < post_counter),
    {
        pre_counter < post_counter
    }

    /// Validate a governance parameter: a change is acceptable only to a
    /// transaction with data that an accepted proposal carries.
    pub fn is_valid_parameter(&self, proposal_accepted: Option<bool>) -> (r: bool)
        ensures
            r == (proposal_accepted == Some(true)),
    {
        match proposal_accepted {
            Some(accepted) => accepted,
            None => false,
        }
    }

    /// Check if a vote is from a validator: the voter votes for itself, is
    /// a validator, and is among the verifiers.
    pub fn is_validator(
        &self,
        verifiers: &Vec<Vec<u8>>,
        address: &[u8],
        delegation_address: &[u8],
        is_validator: bool,
    ) -> (r: bool)
        ensures
            r == (address@ == delegation_address@ && is_validator && views(verifiers@).contains(
                address@,
            )),
    {
        if !bytes_eq(address, delegation_address) {
            return false;
        }
        is_validator && contains_address(verifiers, address)
    }

    /// Check if a vote is from a delegator: the voter votes through another
    /// address, is among the verifiers, and is a delegator.
    pub fn is_delegator(
        &self,
        verifiers: &Vec<Vec<u8>>,
        address: &[u8],
        delegation_address: &[u8],
        is_delegator: bool,
    ) -> (r: bool)
        ensures
            r == (address@ != delegation_address@ && views(verifiers@).contains(address@)
                && is_delegator),
    {
        !bytes_eq(address, delegation_address) && contains_address(verifiers, address)
            && is_delegator
    }

    /// Whether a vote is cast inside the voting window.
    pub fn is_valid_voting_window(
        &self,
        start_epoch: u64,
        end_epoch: u64,
        is_validator: bool,
        validator_period_ok: bool,
    ) -> (r: bool)
        ensures
            r == window_ok(
                self.current_epoch,
                start_epoch,
                end_epoch,
                is_validator,
                validator_period_ok,
            ),
    {
        if is_validator {
            validator_period_ok
        } else {
            self.current_epoch >= start_epoch && self.current_epoch <= end_epoch
        }
    }

    /// What a read that must find something found: the value, or the
    /// error that names the key where there is none.
    pub fn force_read(&self, key: &[u8], found: Option<Vec<u8>>) -> (r: Result<Vec<u8>, Error>)
        ensures
            match r {
                Ok(v) => found == Some(v),
                Err(e) => found is None && (e matches Error::EmptyProposalField(k) && k@ == key@),
            },
    {
        match found {
            Some(data) => Ok(data),
            None => Err(Error::EmptyProposalField(clone_bytes(key))),
        }
    }

    /// The rule that judges a changed key.
    pub fn rule_for(&self, key_type: KeyType, has_proposal_id: bool) -> (r: Rule)
        ensures
            r == rule_of(key_type, has_proposal_id),
    {
        match key_type {
            KeyType::COUNTER => Rule::Counter,
            KeyType::PROPOSAL_COMMIT => Rule::ProposalCommit,
            KeyType::PARAMETER => Rule::Parameter,
            KeyType::BALANCE => Rule::Balance,
            KeyType::UNKNOWN_GOVERNANCE => Rule::Reject,
            KeyType::UNKNOWN => Rule::Accept,
            _ => {
                if !has_proposal_id {
                    Rule::Reject
                } else {
                    match key_type {
                        KeyType::VOTE => Rule::VoteKey,
                        KeyType::CONTENT => Rule::ContentKey,
                        KeyType::TYPE => Rule::ProposalType,
                        KeyType::PROPOSAL_CODE => Rule::ProposalCode,
                        KeyType::ACTIVATION_EPOCH => Rule::ActivationEpoch,
                        KeyType::START_EPOCH => Rule::StartEpoch,
                        KeyType::END_EPOCH => Rule::EndEpoch,
                        KeyType::FUNDS => Rule::Funds,
                        _ => Rule::Author,
                    }
                }
            },
        }
    }
}

/// The lowercase form of a string, as `str::to_lowercase` gives it.
pub uninterp spec fn lowercase_of(s: Seq<char>) -> Seq<char>;

/// Calls `str::to_lowercase`, which maps every character to its lowercase
/// form and depends on nothing but the string.
#[verifier::external_body]
fn to_lowercase(s: &str) -> (r: String)
    ensures
        r@ == lowercase_of(s@),
{
    s.to_lowercase()
}

/// The bytes of the lowercase form of a target, by which targets are told
/// apart.
pub open spec fn lowered(target: Seq<char>) -> Seq<u8> {
    vstd::utf8::encode_utf8(lowercase_of(target))
}

fn lower(target: &String) -> (r: Vec<u8>)
    ensures
        r@ == lowered(target@),
{
    let l = to_lowercase(target.as_str());
    clone_bytes(l.as_str().as_bytes())
}

/// How many different byte strings a list holds.
pub fn distinct_count(items: &Vec<Vec<u8>>) -> (r: usize)
    ensures
        r == views(items@).to_set().len(),
{
    let ghost all = views(items@);
    let ghost mut firsts: Seq<Seq<u8>> = Seq::empty();
    let mut count: usize = 0;
    let mut i: usize = 0;
    proof {
        assert(all.subrange(0, 0).to_set() =~= firsts.to_set());
    }
    while i < items.len()
        invariant
            i <= items.len(),
            all == views(items@),
            count == firsts.len(),
            count <= i,
            firsts.no_duplicates(),
            firsts.to_set() == all.subrange(0, i as int).to_set(),
        decreases items.len() - i,
    {
        let ghost seen = all.subrange(0, i as int);
        let mut is_new = true;
        let mut j: usize = 0;
        while j < i
            invariant
                j <= i < items.len(),
                all == views(items@),
                is_new == (forall|k: int| 0 <= k < j ==> all[k] != all[i as int]),
            decreases i - j,
        {
            assert(all[j as int] == items@[j as int]@);
            assert(all[i as int] == items@[i as int]@);
            if bytes_eq(items[j].as_slice(), items[i].as_slice()) {
                is_new = false;
            }
            j += 1;
        }
        proof {
            let x = all[i as int];
            assert(all.subrange(0, i + 1) =~= seen.push(x));
            seen.lemma_push_to_set_commute(x);
            if is_new {
                assert(!seen.contains(x)) by {
                    if seen.contains(x) {
                        let k = choose|k: int| 0 <= k < seen.len() && seen[k] == x;
                        assert(all[k] == seen[k]);
                    }
                }
                assert(!firsts.to_set().contains(x));
                assert(!firsts.contains(x));
                firsts.lemma_push_to_set_commute(x);
                assert forall|a: int, b: int|
                    0 <= a < firsts.push(x).len() && 0 <= b < firsts.push(x).len() && a
                        != b implies firsts.push(x)[a] != firsts.push(x)[b] by {
                    if a < firsts.len() && b < firsts.len() {
                        assert(firsts[a] != firsts[b]);
                    } else if a < firsts.len() {
                        assert(firsts.contains(firsts[a]));
                    } else {
                        assert(firsts.contains(firsts[b]));
                    }
                }
                firsts = firsts.push(x);
            } else {
                let k = choose|k: int| 0 <= k < i && all[k] == all[i as int];
                assert(seen[k] == x);
                assert(seen.contains(x));
                assert(seen.to_set().insert(x) =~= seen.to_set());
            }
        }
        if is_new {
            count += 1;
        }
        i += 1;
    }
    proof {
        assert(all.subrange(0, items@.len() as int) =~= all);
        firsts.unique_seq_to_set();
    }
    count
}

/// Whether two lists hold a byte string in common.
pub fn have_common(a: &Vec<Vec<u8>>, b: &Vec<Vec<u8>>) -> (r: bool)
    ensures
        r == !views(a@).to_set().disjoint(views(b@).to_set()),
{
    let mut i: usize = 0;
    while i < a.len()
        invariant
            i <= a.len(),
            forall|k: int| 0 <= k < i ==> !views(b@).contains(#[trigger] views(a@)[k]),
        decreases a.len() - i,
    {
        if contains_address(b, a[i].as_slice()) {
            proof {
                let x = views(a@)[i as int];
                assert(views(a@).contains(x));
                assert(views(a@).to_set().contains(x) && views(b@).to_set().contains(x));
            }
            return true;
        }
        i += 1;
    }
    proof {
        assert forall|x: Seq<u8>|
            !(views(a@).to_set().contains(x) && views(b@).to_set().contains(x)) by {
            if views(a@).contains(x) {
                let k = choose|k: int| 0 <= k < views(a@).len() && views(a@)[k] == x;
                assert(!views(b@).contains(views(a@)[k]));
            }
        }
    }
    false
}

/// An addition to, or a removal from, a list.
#[derive(Debug)]
pub enum AddRemove {
    Add(String),
    Remove(String),
}

/// One action of a proposal for public goods funding.
#[derive(Debug)]
pub enum PGFAction {
    /// A change to the continuous fundings.
    Continuous(AddRemove),
    /// A one-off funding of a target.
    Retro(String),
}

/// What a proposal is about.
#[derive(Debug)]
pub enum ProposalType {
    /// A proposal of the default kind.
    Default,
    /// Changes to the stewards of public goods funding, each listed once.
    PGFSteward(Vec<AddRemove>),
    /// Fundings of public goods.
    PGFPayment(Vec<PGFAction>),
}

/// The addresses that the steward actions add, in order.
pub open spec fn added(stewards: Seq<AddRemove>) -> Seq<Seq<char>>
    decreases stewards.len(),
{
    if stewards.len() == 0 {
        Seq::empty()
    } else {
        match stewards.last() {
            AddRemove::Add(a) => added(stewards.drop_last()).push(a@),
            AddRemove::Remove(_) => added(stewards.drop_last()),
        }
    }
}

/// The address that a steward action names, as bytes.
pub open spec fn steward_bytes(action: AddRemove) -> Seq<u8> {
    match action {
        AddRemove::Add(a) => vstd::utf8::encode_utf8(a@),
        AddRemove::Remove(a) => vstd::utf8::encode_utf8(a@),
    }
}

/// The addresses that the steward actions name, in order.
pub open spec fn named(stewards: Seq<AddRemove>) -> Seq<Seq<u8>> {
    Seq::new(stewards.len(), |i: int| steward_bytes(stewards[i]))
}

/// Steward changes are acceptable where they add no steward and are
/// fewer than the maximum, or add exactly one, who is the author of the
/// proposal, name every address once and name fewer than the maximum.
pub open spec fn stewards_ok(stewards: Seq<AddRemove>, author: Seq<char>) -> bool {
    let adds = added(stewards);
    if adds.len() > 1 {
        false
    } else if adds.len() == 0 {
        stewards.len() < MAX_PGF_ACTIONS
    } else {
        &&& adds[0] == author
        &&& stewards.len() == named(stewards).to_set().len()
        &&& named(stewards).to_set().len() < MAX_PGF_ACTIONS
    }
}

/// The targets that the fundings start to fund continuously, lowered.
pub open spec fn continuous_adds(fundings: Seq<PGFAction>) -> Seq<Seq<u8>>
    decreases fundings.len(),
{
    if fundings.len() == 0 {
        Seq::empty()
    } else {
        match fundings.last() {
            PGFAction::Continuous(AddRemove::Add(t)) => continuous_adds(fundings.drop_last()).push(
                lowered(t@),
            ),
            _ => continuous_adds(fundings.drop_last()),
        }
    }
}

/// The targets that the fundings stop to fund continuously, lowered.
pub open spec fn continuous_removes(fundings: Seq<PGFAction>) -> Seq<Seq<u8>>
    decreases fundings.len(),
{
    if fundings.len() == 0 {
        Seq::empty()
    } else {
        match fundings.last() {
            PGFAction::Continuous(AddRemove::Remove(t)) => continuous_removes(
                fundings.drop_last(),
            ).push(lowered(t@)),
            _ => continuous_removes(fundings.drop_last()),
        }
    }
}

/// The number of one-off fundings.
pub open spec fn retro_count(fundings: Seq<PGFAction>) -> nat
    decreases fundings.len(),
{
    if fundings.len() == 0 {
        0
    } else {
        match fundings.last() {
            PGFAction::Retro(_) => retro_count(fundings.drop_last()) + 1,
            _ => retro_count(fundings.drop_last()),
        }
    }
}

/// Fundings are acceptable where they are fewer than the maximum, no
/// target is added twice or removed twice, and none is both added and
/// removed.
pub open spec fn payments_ok(fundings: Seq<PGFAction>) -> bool {
    let adds = continuous_adds(fundings).to_set();
    let removes = continuous_removes(fundings).to_set();
    &&& fundings.len() < MAX_PGF_ACTIONS
    &&& adds.len() + removes.len() + retro_count(fundings) == fundings.len()
    &&& adds.disjoint(removes)
}

impl GovernanceVp {
    /// Validate the proposal type. The author of the proposal is looked at
    /// only where the proposal adds exactly one steward; where the author
    /// is missing then, the rule has no answer.
    pub fn is_valid_proposal_type(
        &self,
        proposal_type: &ProposalType,
        author_key: &[u8],
        author: Option<String>,
    ) -> (r: Result<bool, Error>)
        ensures
            match *proposal_type {
                ProposalType::Default => r matches Ok(b) && b,
                ProposalType::PGFPayment(fundings) => r matches Ok(b) && b == payments_ok(fundings@),
                ProposalType::PGFSteward(stewards) => if added(stewards@).len() == 1 {
                    match author {
                        Some(a) => r matches Ok(b) && b == stewards_ok(stewards@, a@),
                        None => r matches Err(Error::EmptyProposalField(k)) && k@ == author_key@,
                    }
                } else {
                    r matches Ok(b) && b == stewards_ok(stewards@, Seq::empty())
                },
            },
    {
        match proposal_type {
            ProposalType::PGFSteward(stewards) => {
                let mut first_added: Option<&String> = None;
                let mut total_stewards_added: usize = 0;
                let mut addresses: Vec<Vec<u8>> = Vec::new();
                let mut i: usize = 0;
                while i < stewards.len()
                    invariant
                        i <= stewards.len(),
                        total_stewards_added == added(stewards@.subrange(0, i as int)).len(),
                        total_stewards_added <= i,
                        match first_added {
                            Some(a) => total_stewards_added > 0 && a@ == added(
                                stewards@.subrange(0, i as int),
                            )[0],
                            None => total_stewards_added == 0,
                        },
                        views(addresses@) == named(stewards@.subrange(0, i as int)),
                    decreases stewards.len() - i,
                {
                    proof {
                        assert(stewards@.subrange(0, i + 1).drop_last() =~= stewards@.subrange(
                            0,
                            i as int,
                        ));
                        assert(stewards@.subrange(0, i + 1).last() == stewards@[i as int]);
                    }
                    let ghost before = views(addresses@);
                    match &stewards[i] {
                        AddRemove::Add(address) => {
                            if total_stewards_added == 0 {
                                first_added = Some(address);
                            }
                            total_stewards_added += 1;
                            addresses.push(clone_bytes(address.as_str().as_bytes()));
                        },
                        AddRemove::Remove(address) => {
                            addresses.push(clone_bytes(address.as_str().as_bytes()));
                        },
                    }
                    proof {
                        assert(views(addresses@) =~= before.push(steward_bytes(stewards@[i as int])));
                        assert(named(stewards@.subrange(0, i + 1)) =~= before.push(
                            steward_bytes(stewards@[i as int]),
                        ));
                    }
                    i += 1;
                }
                proof {
                    assert(stewards@.subrange(0, stewards@.len() as int) =~= stewards@);
                }
                let all_pgf_action_addresses = distinct_count(&addresses);
                // we allow only a single steward to be added
                if total_stewards_added > 1 {
                    Ok(false)
                } else if total_stewards_added == 0 {
                    Ok(stewards.len() < MAX_PGF_ACTIONS)
                } else {
                    match first_added {
                        Some(address) => {
                            let author = match author {
                                Some(a) => a,
                                None => {
                                    return Err(Error::EmptyProposalField(clone_bytes(author_key)));
                                },
                            };
                            let is_valid_author = *address == author;
                            let stewards_addresses_are_unique = stewards.len()
                                == all_pgf_action_addresses;
                            let is_valid_total_pgf_actions = all_pgf_action_addresses
                                < MAX_PGF_ACTIONS;
                            Ok(
                                is_valid_author && stewards_addresses_are_unique
                                    && is_valid_total_pgf_actions,
                            )
                        },
                        None => Ok(false),
                    }
                }
            },
            ProposalType::PGFPayment(fundings) => {
                let mut adds: Vec<Vec<u8>> = Vec::new();
                let mut removes: Vec<Vec<u8>> = Vec::new();
                let mut total_retro_targets: usize = 0;
                let mut i: usize = 0;
                while i < fundings.len()
                    invariant
                        i <= fundings.len(),
                        views(adds@) == continuous_adds(fundings@.subrange(0, i as int)),
                        views(removes@) == continuous_removes(fundings@.subrange(0, i as int)),
                        total_retro_targets == retro_count(fundings@.subrange(0, i as int)),
                        adds@.len() + removes@.len() + total_retro_targets == i,
                    decreases fundings.len() - i,
                {
                    proof {
                        assert(fundings@.subrange(0, i + 1).drop_last() =~= fundings@.subrange(
                            0,
                            i as int,
                        ));
                        assert(fundings@.subrange(0, i + 1).last() == fundings@[i as int]);
                    }
                    let ghost adds_before = views(adds@);
                    let ghost removes_before = views(removes@);
                    match &fundings[i] {
                        PGFAction::Continuous(AddRemove::Add(target)) => {
                            adds.push(lower(target));
                            assert(views(adds@) =~= adds_before.push(lowered(target@)));
                            assert(views(removes@) =~= removes_before);
                        },
                        PGFAction::Continuous(AddRemove::Remove(target)) => {
                            removes.push(lower(target));
                            assert(views(removes@) =~= removes_before.push(lowered(target@)));
                            assert(views(adds@) =~= adds_before);
                        },
                        PGFAction::Retro(_) => {
                            total_retro_targets += 1;
                        },
                    }
                    i += 1;
                }
                proof {
                    assert(fundings@.subrange(0, fundings@.len() as int) =~= fundings@);
                    vstd::seq_lib::seq_to_set_is_finite(views(adds@));
                    vstd::seq_lib::seq_to_set_is_finite(views(removes@));
                    views(adds@).lemma_cardinality_of_set();
                    views(removes@).lemma_cardinality_of_set();
                }
                let add_count = distinct_count(&adds);
                let remove_count = distinct_count(&removes);
                let is_total_fundings_valid = fundings.len() < MAX_PGF_ACTIONS;
                // every target is added once and removed once at most
                let are_continuous_fundings_unique = add_count + remove_count + total_retro_targets
                    == fundings.len();
                // can't remove and add the same target in the same proposal
                let are_targets_unique = !have_common(&adds, &removes);
                Ok(is_total_fundings_valid && are_continuous_fundings_unique && are_targets_unique)
            },
            ProposalType::Default => Ok(true),
        }
    }
}

/// Every key of `wanted` is among `keys`.
pub open spec fn all_among(wanted: Seq<Seq<u8>>, keys: Seq<Seq<u8>>) -> bool {
    forall|i: int| 0 <= i < wanted.len() ==> keys.contains(#[trigger] wanted[i])
}

/// Whether every key of `wanted` is among `keys`.
pub fn is_superset(keys: &Vec<Vec<u8>>, wanted: &Vec<Vec<u8>>) -> (r: bool)
    ensures
        r == all_among(views(wanted@), views(keys@)),
{
    let mut i: usize = 0;
    while i < wanted.len()
        invariant
            i <= wanted.len(),
            forall|j: int| 0 <= j < i ==> views(keys@).contains(#[trigger] views(wanted@)[j]),
        decreases wanted.len() - i,
    {
        if !contains_address(keys, wanted[i].as_slice()) {
            assert(!views(keys@).contains(views(wanted@)[i as int]));
            return false;
        }
        i += 1;
    }
    true
}

/// The segment `proposal`.
pub open spec fn proposal_segment() -> Seq<u8> {
    seq![112u8, 114u8, 111u8, 112u8, 111u8, 115u8, 97u8, 108u8]
}

/// The segment `counter`.
pub open spec fn counter_segment() -> Seq<u8> {
    seq![99u8, 111u8, 117u8, 110u8, 116u8, 101u8, 114u8]
}

/// The segment `content`.
pub open spec fn content_segment() -> Seq<u8> {
    seq![99u8, 111u8, 110u8, 116u8, 101u8, 110u8, 116u8]
}

/// The segment `author`.
pub open spec fn author_segment() -> Seq<u8> {
    seq![97u8, 117u8, 116u8, 104u8, 111u8, 114u8]
}

/// The segment `type`.
pub open spec fn type_segment() -> Seq<u8> {
    seq![116u8, 121u8, 112u8, 101u8]
}

/// The segment `funds`.
pub open spec fn funds_segment() -> Seq<u8> {
    seq![102u8, 117u8, 110u8, 100u8, 115u8]
}

/// The segment `start_epoch`.
pub open spec fn start_epoch_segment() -> Seq<u8> {
    seq![115u8, 116u8, 97u8, 114u8, 116u8, 95u8, 101u8, 112u8, 111u8, 99u8, 104u8]
}

/// The segment `end_epoch`.
pub open spec fn end_epoch_segment() -> Seq<u8> {
    seq![101u8, 110u8, 100u8, 95u8, 101u8, 112u8, 111u8, 99u8, 104u8]
}

/// The segment `activation_epoch`.
pub open spec fn activation_epoch_segment() -> Seq<u8> {
    seq![97u8, 99u8, 116u8, 105u8, 118u8, 97u8, 116u8, 105u8, 111u8, 110u8, 95u8, 101u8, 112u8, 111u8, 99u8, 104u8]
}

/// The decimal digits of a number.
pub open spec fn decimal(n: nat) -> Seq<u8>
    decreases n,
{
    if n < 10 {
        seq![(48 + n) as u8]
    } else {
        decimal(n / 10).push((48 + n % 10) as u8)
    }
}

pub proof fn lemma_decimal_is_segment(n: nat)
    ensures
        is_segment(decimal(n)),
    decreases n,
{
    if n >= 10 {
        lemma_decimal_is_segment(n / 10);
    }
}

/// The key of a field of a proposal of the account at `governance`.
pub open spec fn proposal_key(governance: Seq<u8>, id: u64, field: Seq<u8>) -> Seq<u8> {
    pushed(pushed(pushed(governance, proposal_segment()), decimal(id as nat)), field)
}

/// The key of the proposal counter of the account at `governance`.
pub open spec fn counter_key(governance: Seq<u8>) -> Seq<u8> {
    pushed(governance, counter_segment())
}

/// The keys that a transaction must change where it sets up a proposal:
/// the counter, and the proposal's content, author, type, funds, start,
/// end and activation epoch.
pub open spec fn mandatory_keys(governance: Seq<u8>, id: u64) -> Seq<Seq<u8>> {
    seq![
        counter_key(governance),
        proposal_key(governance, id, content_segment()),
        proposal_key(governance, id, author_segment()),
        proposal_key(governance, id, type_segment()),
        proposal_key(governance, id, funds_segment()),
        proposal_key(governance, id, start_epoch_segment()),
        proposal_key(governance, id, end_epoch_segment()),
        proposal_key(governance, id, activation_epoch_segment()),
    ]
}

/// The changed keys hold, for every proposal from `from` up to `to`, all
/// keys that a proposal must have.
pub open spec fn key_set_ok(keys: Seq<Seq<u8>>, governance: Seq<u8>, from: u64, to: u64) -> bool {
    forall|id: u64| from <= id < to ==> all_among(#[trigger] mandatory_keys(governance, id), keys)
}

/// The decimal digits of a number.
pub fn decimal_of(n: u64) -> (r: Vec<u8>)
    ensures
        r@ == decimal(n as nat),
        is_segment(r@),
    decreases n,
{
    proof {
        lemma_decimal_is_segment(n as nat);
    }
    if n < 10 {
        let mut r: Vec<u8> = Vec::new();
        r.push(48 + (n as u8));
        assert(r@ =~= decimal(n as nat));
        r
    } else {
        let mut r = decimal_of(n / 10);
        r.push(48 + ((n % 10) as u8));
        r
    }
}

fn under(key: &Key, segment: &[u8]) -> (r: Key)
    requires
        key.wf(),
        is_segment(segment@),
    ensures
        r.wf(),
        r@ == pushed(key@, segment@),
{
    match key.push_bytes(segment) {
        Ok(k) => k,
        Err(_) => vstd::pervasive::unreached(),
    }
}

/// The keys that a transaction must change where it sets up the proposal
/// `id`.
pub fn mandatory_keys_of(governance: &Key, id: u64) -> (r: Vec<Vec<u8>>)
    requires
        governance.wf(),
    ensures
        views(r@) == mandatory_keys(governance@, id),
{
    let counter: [u8; 7] = [99, 111, 117, 110, 116, 101, 114];
    assert(counter@ =~= counter_segment());
    let proposal: [u8; 8] = [112, 114, 111, 112, 111, 115, 97, 108];
    assert(proposal@ =~= proposal_segment());
    let of_proposal = under(&under(governance, &proposal), decimal_of(id).as_slice());
    let mut r: Vec<Vec<u8>> = Vec::new();
    r.push(clone_bytes(under(governance, &counter).as_bytes()));
    let field_0: [u8; 7] = [99, 111, 110, 116, 101, 110, 116];
    assert(field_0@ =~= content_segment());
    r.push(clone_bytes(under(&of_proposal, &field_0).as_bytes()));
    let field_1: [u8; 6] = [97, 117, 116, 104, 111, 114];
    assert(field_1@ =~= author_segment());
    r.push(clone_bytes(under(&of_proposal, &field_1).as_bytes()));
    let field_2: [u8; 4] = [116, 121, 112, 101];
    assert(field_2@ =~= type_segment());
    r.push(clone_bytes(under(&of_proposal, &field_2).as_bytes()));
    let field_3: [u8; 5] = [102, 117, 110, 100, 115];
    assert(field_3@ =~= funds_segment());
    r.push(clone_bytes(under(&of_proposal, &field_3).as_bytes()));
    let field_4: [u8; 11] = [115, 116, 97, 114, 116, 95, 101, 112, 111, 99, 104];
    assert(field_4@ =~= start_epoch_segment());
    r.push(clone_bytes(under(&of_proposal, &field_4).as_bytes()));
    let field_5: [u8; 9] = [101, 110, 100, 95, 101, 112, 111, 99, 104];
    assert(field_5@ =~= end_epoch_segment());
    r.push(clone_bytes(under(&of_proposal, &field_5).as_bytes()));
    let field_6: [u8; 16] = [97, 99, 116, 105, 118, 97, 116, 105, 111, 110, 95, 101, 112, 111, 99, 104];
    assert(field_6@ =~= activation_epoch_segment());
    r.push(clone_bytes(under(&of_proposal, &field_6).as_bytes()));
    assert(views(r@) =~= mandatory_keys(governance@, id));
    r
}

/// What is known when a vote key is judged.
pub struct VoteFacts {
    /// The proposal counter before the transaction.
    pub pre_counter: u64,
    /// The proposal that the key names.
    pub proposal_id: u64,
    /// The voter that the key names, if it names one.
    pub voter: Option<Vec<u8>>,
    /// The address voted through that the key names, if it names one.
    pub delegation: Option<Vec<u8>>,
    /// Whether a vote is stored under the key after the transaction.
    pub has_post_vote: bool,
    /// For every delegation of the voter, whether a vote through it is
    /// stored after the transaction; `None` where the delegations could not
    /// be found.
    pub delegation_votes: Option<Vec<bool>>,
    /// The start of voting on the proposal.
    pub voting_start_epoch: u64,
    /// The end of voting on the proposal.
    pub voting_end_epoch: u64,
    /// Whether the voter is a validator; `None` where that could not be
    /// found out.
    pub is_validator: Option<bool>,
    /// Whether the current epoch lies in the period in which validators
    /// vote.
    pub validator_period_ok: bool,
    /// Whether the voter is a delegator; `None` where that could not be
    /// found out.
    pub is_delegator: Option<bool>,
}

pub open spec fn all_true(flags: Seq<bool>) -> bool {
    forall|i: int| 0 <= i < flags.len() ==> #[trigger] flags[i]
}

pub open spec fn is_true(flag: Option<bool>) -> bool {
    flag == Some(true)
}

/// The verdict on a vote key whose voter and delegation address are
/// known and under which a vote is stored.
pub open spec fn vote_ok(
    current: u64,
    f: VoteFacts,
    voter: Seq<u8>,
    delegation: Seq<u8>,
    verifiers: Seq<Seq<u8>>,
) -> bool {
    &&& f.proposal_id < f.pre_counter
    &&& f.delegation_votes matches Some(votes)
    &&& votes@.len() > 0
    &&& all_true(votes@)
    &&& f.voting_start_epoch <= current <= f.voting_end_epoch
    &&& if voter == delegation && is_true(f.is_validator) && verifiers.contains(voter) {
        f.validator_period_ok
    } else {
        voter != delegation && verifiers.contains(voter) && is_true(f.is_delegator)
    }
}

fn flag(value: Option<bool>) -> (r: bool)
    ensures
        r == is_true(value),
{
    match value {
        Some(b) => b,
        None => false,
    }
}

impl GovernanceVp {
    /// Whether the set of changed keys is acceptable: the proposal counter
    /// of the account at `governance` did not shrink, and for every
    /// proposal that the transaction set up all mandatory keys are among
    /// the changed ones. Returns the verdict with the number of proposals
    /// set up.
    pub fn is_valid_init_proposal_key_set(
        &self,
        governance: &Key,
        pre_counter: u64,
        post_counter: u64,
        keys: &Vec<Vec<u8>>,
    ) -> (r: (bool, u64))
        requires
            governance.wf(),
        ensures
            r == (if pre_counter <= post_counter && key_set_ok(
                views(keys@),
                governance@,
                pre_counter,
                post_counter,
            ) {
                (true, (post_counter - pre_counter) as u64)
            } else {
                (false, 0u64)
            }),
    {
        if post_counter < pre_counter {
            return (false, 0);
        }
        let mut counter: u64 = pre_counter;
        while counter < post_counter
            invariant
                governance.wf(),
                pre_counter <= counter <= post_counter,
                key_set_ok(views(keys@), governance@, pre_counter, counter),
            decreases post_counter - counter,
        {
            // Construct the set of expected keys
            let expected = mandatory_keys_of(governance, counter);
            // Check that expected set is a subset of the actual one
            if !is_superset(keys, &expected) {
                assert(!all_among(mandatory_keys(governance@, counter), views(keys@)));
                return (false, 0);
            }
            counter += 1;
        }
        (true, post_counter - pre_counter)
    }

    /// Validate a vote key. A key that names no voter or no delegation
    /// address, and a key under which no vote is stored, is invalid; for
    /// every other key the verdict is whether the vote counts.
    pub fn is_valid_vote_key(&self, key: &[u8], facts: &VoteFacts, verifiers: &Vec<Vec<u8>>) -> (r:
        Result<bool, Error>)
        ensures
            match r {
                Ok(b) => facts.voter is Some && facts.delegation is Some && (facts.has_post_vote
                    || facts.pre_counter <= facts.proposal_id) && b == vote_ok(
                    self.current_epoch,
                    *facts,
                    facts.voter->Some_0@,
                    facts.delegation->Some_0@,
                    views(verifiers@),
                ),
                Err(e) => (facts.voter is None || facts.delegation is None || (
                !facts.has_post_vote && facts.proposal_id < facts.pre_counter)) && (
                e matches Error::InvalidVoteKey(k) && k@ == key@),
            },
    {
        let (voter_address, delegation_address) = match (&facts.voter, &facts.delegation) {
            (Some(voter_address), Some(delegator_address)) => (voter_address, delegator_address),
            _ => {
                return Err(Error::InvalidVoteKey(clone_bytes(key)));
            },
        };
        // Invalid proposal id
        if facts.pre_counter <= facts.proposal_id {
            return Ok(false);
        }
        if !facts.has_post_vote {
            return Err(Error::InvalidVoteKey(clone_bytes(key)));
        }
        let all_delegations_are_valid = match &facts.delegation_votes {
            Some(votes) => {
                if votes.len() == 0 {
                    return Ok(false);
                }
                let mut all = true;
                let mut i: usize = 0;
                while i < votes.len()
                    invariant
                        i <= votes.len(),
                        all == all_true(votes@.subrange(0, i as int)),
                    decreases votes.len() - i,
                {
                    proof {
                        let pre = votes@.subrange(0, i as int);
                        let next = votes@.subrange(0, i + 1);
                        assert(forall|j: int| 0 <= j < pre.len() ==> pre[j] == next[j]);
                        if all_true(next) {
                            assert forall|j: int| 0 <= j < pre.len() implies #[trigger] pre[j] by {
                                assert(next[j]);
                            }
                        }
                        if all && votes@[i as int] {
                            assert forall|j: int| 0 <= j < next.len() implies #[trigger] next[j] by {
                                if j < i {
                                    assert(pre[j]);
                                }
                            }
                        }
                        if !votes@[i as int] {
                            assert(!next[i as int]);
                        }
                    }
                    if !votes[i] {
                        all = false;
                    }
                    i += 1;
                }
                proof {
                    assert(votes@.subrange(0, votes@.len() as int) =~= votes@);
                }
                all
            },
            None => {
                return Ok(false);
            },
        };
        if !all_delegations_are_valid {
            return Ok(false);
        }
        // Voted outside of voting window. We dont check for validator
        // because if the proposal type is validator, we need to let them
        // vote for the entire voting window.
        if !self.is_valid_voting_window(
            facts.voting_start_epoch,
            facts.voting_end_epoch,
            false,
            facts.validator_period_ok,
        ) {
            return Ok(false);
        }
        // first check if validator, then check if delegator
        let is_validator = self.is_validator(
            verifiers,
            voter_address.as_slice(),
            delegation_address.as_slice(),
            flag(facts.is_validator),
        );
        if is_validator {
            return Ok(facts.validator_period_ok);
        }
        let is_delegator = self.is_delegator(
            verifiers,
            voter_address.as_slice(),
            delegation_address.as_slice(),
            flag(facts.is_delegator),
        );
        Ok(is_delegator)
    }
}

/// What was read from storage for a changed key, for the rule that judges
/// it.
pub enum Reads {
    Vote(VoteFacts),
    Content { has_pre_content: bool, max_content_length: u64, post_content_length: u64 },
    Type { proposal_type: ProposalType, author_key: Vec<u8>, author: Option<String> },
    Code { is_default: bool, has_pre_code: bool, max_proposal_length: u64, post_code_length: u64 },
    Activation {
        has_pre_activation_epoch: bool,
        start_epoch: u64,
        end_epoch: u64,
        activation_epoch: u64,
        min_grace_epochs: u64,
        max_proposal_period: u64,
        has_post_committing_epoch: bool,
    },
    Start {
        has_pre_start_epoch: bool,
        has_pre_end_epoch: bool,
        start_epoch: u64,
        end_epoch: u64,
        min_period: u64,
    },
    End {
        has_pre_start_epoch: bool,
        has_pre_end_epoch: bool,
        start_epoch: u64,
        end_epoch: u64,
        min_period: u64,
        max_period: u64,
    },
    Funds { min_funds_parameter: u128, pre_balance: Option<u128>, post_balance: u128, post_funds: u128 },
    Author { has_pre_author: bool, address: Vec<u8>, author_exists: bool },
    Parameter { proposal_accepted: Option<bool> },
    Balance { pre_balance: Option<u128>, min_funds_parameter: u128, post_balance: u128 },
    /// Nothing was read: the rule looks at the proposal counter alone, or
    /// at nothing.
    Nothing,
}

/// The verdict on a proposal type.
pub open spec fn type_verdict(proposal_type: ProposalType, author: Option<String>) -> bool {
    match proposal_type {
        ProposalType::Default => true,
        ProposalType::PGFPayment(fundings) => payments_ok(fundings@),
        ProposalType::PGFSteward(stewards) => if added(stewards@).len() == 1 {
            match author {
                Some(a) => stewards_ok(stewards@, a@),
                None => false,
            }
        } else {
            stewards_ok(stewards@, Seq::empty())
        },
    }
}

/// The verdict on a vote key.
pub open spec fn vote_verdict(current: u64, f: VoteFacts, verifiers: Seq<Seq<u8>>) -> bool {
    &&& f.voter is Some
    &&& f.delegation is Some
    &&& (f.has_post_vote || f.pre_counter <= f.proposal_id)
    &&& vote_ok(current, f, f.voter->Some_0@, f.delegation->Some_0@, verifiers)
}

/// The periods that a rule divides by are not zero.
pub open spec fn judgeable(current: u64, reads: Reads) -> bool {
    match reads {
        Reads::Start { has_pre_start_epoch, has_pre_end_epoch, start_epoch, end_epoch, min_period } => {
            !has_pre_start_epoch && !has_pre_end_epoch && start_epoch < end_epoch && current
                < start_epoch ==> min_period > 0
        },
        Reads::End {
            has_pre_start_epoch,
            has_pre_end_epoch,
            start_epoch,
            end_epoch,
            min_period,
            max_period,
        } => {
            !has_pre_start_epoch && !has_pre_end_epoch && start_epoch < end_epoch && current
                < start_epoch ==> min_period > 0
        },
        _ => true,
    }
}

/// The verdict of a rule on what was read for a key. A rule that was
/// handed what another rule reads rejects the key, and so does a rule
/// that has no answer.
pub open spec fn verdict(
    current: u64,
    rule: Rule,
    reads: Reads,
    verifiers: Seq<Seq<u8>>,
    pre_counter: u64,
    set_count: u64,
    post_counter: u64,
) -> bool {
    match (rule, reads) {
        (Rule::VoteKey, Reads::Vote(facts)) => vote_verdict(current, facts, verifiers),
        (
            Rule::ContentKey,
            Reads::Content { has_pre_content, max_content_length, post_content_length },
        ) => content_ok(has_pre_content, max_content_length, post_content_length),
        (Rule::ProposalType, Reads::Type { proposal_type, author_key, author }) => type_verdict(
            proposal_type,
            author,
        ),
        (
            Rule::ProposalCode,
            Reads::Code { is_default, has_pre_code, max_proposal_length, post_code_length },
        ) => code_ok(is_default, has_pre_code, max_proposal_length, post_code_length),
        (
            Rule::ActivationEpoch,
            Reads::Activation {
                has_pre_activation_epoch,
                start_epoch,
                end_epoch,
                activation_epoch,
                min_grace_epochs,
                max_proposal_period,
                has_post_committing_epoch,
            },
        ) => activation_ok(
            has_pre_activation_epoch,
            start_epoch,
            end_epoch,
            activation_epoch,
            min_grace_epochs,
            max_proposal_period,
            has_post_committing_epoch,
        ),
        (
            Rule::StartEpoch,
            Reads::Start { has_pre_start_epoch, has_pre_end_epoch, start_epoch, end_epoch, min_period },
        ) => start_ok(
            current,
            has_pre_start_epoch,
            has_pre_end_epoch,
            start_epoch,
            end_epoch,
            min_period,
        ),
        (
            Rule::EndEpoch,
            Reads::End {
                has_pre_start_epoch,
                has_pre_end_epoch,
                start_epoch,
                end_epoch,
                min_period,
                max_period,
            },
        ) => end_ok(
            current,
            has_pre_start_epoch,
            has_pre_end_epoch,
            start_epoch,
            end_epoch,
            min_period,
            max_period,
        ),
        (
            Rule::Funds,
            Reads::Funds { min_funds_parameter, pre_balance, post_balance, post_funds },
        ) => funds_ok(min_funds_parameter, pre_balance, post_balance, post_funds),
        (Rule::Author, Reads::Author { has_pre_author, address, author_exists }) => !has_pre_author
            && author_exists && verifiers.contains(address@),
        (Rule::Counter, _) => pre_counter + set_count == post_counter,
        (Rule::ProposalCommit, _) => pre_counter < post_counter,
        (Rule::Parameter, Reads::Parameter { proposal_accepted }) => proposal_accepted == Some(
            true,
        ),
        (
            Rule::Balance,
            Reads::Balance { pre_balance, min_funds_parameter, post_balance },
        ) => balance_ok(pre_balance, min_funds_parameter, post_balance),
        (Rule::Accept, _) => true,
        _ => false,
    }
}

/// A key that a transaction changed, with what is known of it.
pub struct KeyChange {
    pub key: Vec<u8>,
    /// What the key predicates say of the key.
    pub facts: KeyFacts,
    /// Whether the key names a proposal.
    pub has_proposal_id: bool,
    /// What was read for the rule that judges the key.
    pub reads: Reads,
}

/// The keys that were changed.
pub open spec fn keys_of(changed: Seq<KeyChange>) -> Seq<Seq<u8>> {
    Seq::new(changed.len(), |i: int| changed[i].key@)
}

/// The verdict on one changed key: that of the rule for its kind.
pub open spec fn key_verdict(
    current: u64,
    c: KeyChange,
    verifiers: Seq<Seq<u8>>,
    pre_counter: u64,
    set_count: u64,
    post_counter: u64,
) -> bool {
    verdict(
        current,
        rule_of(key_type_of(c.facts), c.has_proposal_id),
        c.reads,
        verifiers,
        pre_counter,
        set_count,
        post_counter,
    )
}

impl GovernanceVp {
    /// Applies a rule to what was read for a key.
    pub fn judge(
        &self,
        rule: Rule,
        key: &[u8],
        reads: &Reads,
        verifiers: &Vec<Vec<u8>>,
        pre_counter: u64,
        set_count: u64,
        post_counter: u64,
    ) -> (r: bool)
        requires
            judgeable(self.current_epoch, *reads),
        ensures
            r == verdict(
                self.current_epoch,
                rule,
                *reads,
                views(verifiers@),
                pre_counter,
                set_count,
                post_counter,
            ),
    {
        match (rule, reads) {
            (Rule::VoteKey, Reads::Vote(facts)) => {
                match self.is_valid_vote_key(key, facts, verifiers) {
                    Ok(b) => b,
                    Err(_) => false,
                }
            },
            (
                Rule::ContentKey,
                Reads::Content { has_pre_content, max_content_length, post_content_length },
            ) => self.is_valid_content_key(
                *has_pre_content,
                *max_content_length,
                *post_content_length,
            ),
            (Rule::ProposalType, Reads::Type { proposal_type, author_key, author }) => {
                let author = match author {
                    Some(a) => Some(a.clone()),
                    None => None,
                };
                match self.is_valid_proposal_type(proposal_type, author_key.as_slice(), author) {
                    Ok(b) => b,
                    Err(_) => false,
                }
            },
            (
                Rule::ProposalCode,
                Reads::Code { is_default, has_pre_code, max_proposal_length, post_code_length },
            ) => self.is_valid_proposal_code(
                *is_default,
                *has_pre_code,
                *max_proposal_length,
                *post_code_length,
            ),
            (
                Rule::ActivationEpoch,
                Reads::Activation {
                    has_pre_activation_epoch,
                    start_epoch,
                    end_epoch,
                    activation_epoch,
                    min_grace_epochs,
                    max_proposal_period,
                    has_post_committing_epoch,
                },
            ) => self.is_valid_activation_epoch(
                *has_pre_activation_epoch,
                *start_epoch,
                *end_epoch,
                *activation_epoch,
                *min_grace_epochs,
                *max_proposal_period,
                *has_post_committing_epoch,
            ),
            (
                Rule::StartEpoch,
                Reads::Start {
                    has_pre_start_epoch,
                    has_pre_end_epoch,
                    start_epoch,
                    end_epoch,
                    min_period,
                },
            ) => self.is_valid_start_epoch(
                *has_pre_start_epoch,
                *has_pre_end_epoch,
                *start_epoch,
                *end_epoch,
                *min_period,
            ),
            (
                Rule::EndEpoch,
                Reads::End {
                    has_pre_start_epoch,
                    has_pre_end_epoch,
                    start_epoch,
                    end_epoch,
                    min_period,
                    max_period,
                },
            ) => self.is_valid_end_epoch(
                *has_pre_start_epoch,
                *has_pre_end_epoch,
                *start_epoch,
                *end_epoch,
                *min_period,
                *max_period,
            ),
            (
                Rule::Funds,
                Reads::Funds { min_funds_parameter, pre_balance, post_balance, post_funds },
            ) => self.is_valid_funds(*min_funds_parameter, *pre_balance, *post_balance, *post_funds),
            (Rule::Author, Reads::Author { has_pre_author, address, author_exists }) => {
                self.is_valid_author(*has_pre_author, address.as_slice(), *author_exists, verifiers)
            },
            (Rule::Counter, _) => self.is_valid_counter(pre_counter, set_count, post_counter),
            (Rule::ProposalCommit, _) => self.is_valid_proposal_commit(pre_counter, post_counter),
            (Rule::Parameter, Reads::Parameter { proposal_accepted }) => self.is_valid_parameter(
                *proposal_accepted,
            ),
            (
                Rule::Balance,
                Reads::Balance { pre_balance, min_funds_parameter, post_balance },
            ) => self.is_valid_balance(*pre_balance, *min_funds_parameter, *post_balance),
            (Rule::Accept, _) => true,
            _ => false,
        }
    }

    /// The verdict on a transaction: the set of changed keys is
    /// acceptable, and so is every single key under the rule for its
    /// kind. A rule that has no answer rejects.
    pub fn validate_tx(
        &self,
        governance: &Key,
        pre_counter: u64,
        post_counter: u64,
        changed: &Vec<KeyChange>,
        verifiers: &Vec<Vec<u8>>,
    ) -> (r: bool)
        requires
            governance.wf(),
            forall|i: int|
                0 <= i < changed@.len() ==> judgeable(self.current_epoch, (#[trigger] changed@[i]).reads),
        ensures
            r == (pre_counter <= post_counter && key_set_ok(
                keys_of(changed@),
                governance@,
                pre_counter,
                post_counter,
            ) && forall|i: int|
                0 <= i < changed@.len() ==> key_verdict(
                    self.current_epoch,
                    #[trigger] changed@[i],
                    views(verifiers@),
                    pre_counter,
                    (post_counter - pre_counter) as u64,
                    post_counter,
                )),
    {
        let mut keys: Vec<Vec<u8>> = Vec::new();
        let mut k: usize = 0;
        while k < changed.len()
            invariant
                k <= changed.len(),
                keys@.len() == k,
                forall|j: int| 0 <= j < k ==> (#[trigger] keys@[j])@ == changed@[j].key@,
            decreases changed.len() - k,
        {
            keys.push(clone_bytes(changed[k].key.as_slice()));
            k += 1;
        }
        assert(views(keys@) =~= keys_of(changed@));
        let (is_valid_keys_set, set_count) = self.is_valid_init_proposal_key_set(
            governance,
            pre_counter,
            post_counter,
            &keys,
        );
        if !is_valid_keys_set {
            return false;
        }
        let mut i: usize = 0;
        while i < changed.len()
            invariant
                i <= changed.len(),
                set_count == post_counter - pre_counter,
                forall|j: int|
                    0 <= j < changed@.len() ==> judgeable(
                        self.current_epoch,
                        (#[trigger] changed@[j]).reads,
                    ),
                forall|j: int|
                    0 <= j < i ==> key_verdict(
                        self.current_epoch,
                        #[trigger] changed@[j],
                        views(verifiers@),
                        pre_counter,
                        set_count,
                        post_counter,
                    ),
            decreases changed.len() - i,
        {
            let c = &changed[i];
            let rule = self.rule_for(KeyType::from_key(&c.facts), c.has_proposal_id);
            if !self.judge(
                rule,
                c.key.as_slice(),
                &c.reads,
                verifiers,
                pre_counter,
                set_count,
                post_counter,
            ) {
                return false;
            }
            i += 1;
        }
        true
    }
}

} // verus!
