use ledger_storage::conversion_state::{
    calculate_masp_rewards, load_conversion_state, save_conversion_state,
    update_allowed_conversions, ConversionState,
};
use ledger_storage::conversions::{
    denomination_offset, encode_asset_type, masp_rewards, native_first, native_reward,
    notes_per_thread, token_reward, DenomAssets, MaspDenom, NativeReward, NotesPerThread, Order,
    RewardedToken, TokenReward,
};
use ledger_storage::encoding::encode_u64;
use ledger_storage::error::Error as StorageError;
use ledger_storage::governance::{
    contains_address, distinct_count, have_common, is_superset, AddRemove, Error, GovernanceVp,
    decimal_of, mandatory_keys_of, KeyChange, KeyFacts, KeyType, PGFAction, ProposalType, Reads,
    Rule, VoteFacts,
};
use ledger_storage::ibc::{
    clear_throughputs, init_genesis_storage, match_value, ChangedKey, Error as IbcError, Ibc,
    LimitKind, StateChangeKind, TokenFlow, TraceCheck, TraceKind,
};
use ledger_storage::key::Key;
use ledger_storage::storage::Storage;
use ledger_storage::store::MemStore;
use ledger_storage::write_log::Modification;

fn vp(current_epoch: u64) -> GovernanceVp {
    GovernanceVp { current_epoch }
}

fn no_facts() -> KeyFacts {
    KeyFacts {
        is_vote_key: false,
        is_content_key: false,
        is_proposal_type_key: false,
        is_proposal_code_key: false,
        is_activation_epoch_key: false,
        is_start_epoch_key: false,
        is_commit_proposal_key: false,
        is_end_epoch_key: false,
        is_balance_key: false,
        is_author_key: false,
        is_counter_key: false,
        is_parameter_key: false,
        is_native_balance_key: false,
        is_governance_key: false,
    }
}

#[test]
fn key_types_follow_the_first_predicate() {
    assert_eq!(KeyType::from_key(&no_facts()), KeyType::UNKNOWN);
    let mut f = no_facts();
    f.is_governance_key = true;
    assert_eq!(KeyType::from_key(&f), KeyType::UNKNOWN_GOVERNANCE);
    f.is_native_balance_key = true;
    assert_eq!(KeyType::from_key(&f), KeyType::BALANCE);
    f.is_parameter_key = true;
    assert_eq!(KeyType::from_key(&f), KeyType::PARAMETER);
    f.is_counter_key = true;
    assert_eq!(KeyType::from_key(&f), KeyType::COUNTER);
    f.is_author_key = true;
    assert_eq!(KeyType::from_key(&f), KeyType::AUTHOR);
    f.is_balance_key = true;
    assert_eq!(KeyType::from_key(&f), KeyType::FUNDS);
    f.is_end_epoch_key = true;
    assert_eq!(KeyType::from_key(&f), KeyType::END_EPOCH);
    f.is_commit_proposal_key = true;
    assert_eq!(KeyType::from_key(&f), KeyType::PROPOSAL_COMMIT);
    f.is_start_epoch_key = true;
    assert_eq!(KeyType::from_key(&f), KeyType::START_EPOCH);
    f.is_activation_epoch_key = true;
    assert_eq!(KeyType::from_key(&f), KeyType::ACTIVATION_EPOCH);
    f.is_proposal_code_key = true;
    assert_eq!(KeyType::from_key(&f), KeyType::PROPOSAL_CODE);
    f.is_proposal_type_key = true;
    assert_eq!(KeyType::from_key(&f), KeyType::TYPE);
    f.is_content_key = true;
    assert_eq!(KeyType::from_key(&f), KeyType::CONTENT);
    f.is_vote_key = true;
    assert_eq!(KeyType::from_key(&f), KeyType::VOTE);
}

#[test]
fn rules_for_keys() {
    let g = vp(0);
    assert_eq!(g.rule_for(KeyType::VOTE, true), Rule::VoteKey);
    assert_eq!(g.rule_for(KeyType::VOTE, false), Rule::Reject);
    assert_eq!(g.rule_for(KeyType::CONTENT, true), Rule::ContentKey);
    assert_eq!(g.rule_for(KeyType::TYPE, true), Rule::ProposalType);
    assert_eq!(g.rule_for(KeyType::PROPOSAL_CODE, true), Rule::ProposalCode);
    assert_eq!(g.rule_for(KeyType::ACTIVATION_EPOCH, true), Rule::ActivationEpoch);
    assert_eq!(g.rule_for(KeyType::START_EPOCH, true), Rule::StartEpoch);
    assert_eq!(g.rule_for(KeyType::END_EPOCH, true), Rule::EndEpoch);
    assert_eq!(g.rule_for(KeyType::FUNDS, true), Rule::Funds);
    assert_eq!(g.rule_for(KeyType::AUTHOR, true), Rule::Author);
    assert_eq!(g.rule_for(KeyType::AUTHOR, false), Rule::Reject);
    assert_eq!(g.rule_for(KeyType::COUNTER, false), Rule::Counter);
    assert_eq!(g.rule_for(KeyType::PROPOSAL_COMMIT, false), Rule::ProposalCommit);
    assert_eq!(g.rule_for(KeyType::PARAMETER, true), Rule::Parameter);
    assert_eq!(g.rule_for(KeyType::BALANCE, false), Rule::Balance);
    assert_eq!(g.rule_for(KeyType::UNKNOWN_GOVERNANCE, true), Rule::Reject);
    assert_eq!(g.rule_for(KeyType::UNKNOWN, false), Rule::Accept);

}

#[test]
fn proposal_field_rules() {
    let g = vp(10);
    assert!(g.is_valid_content_key(false, 100, 100));
    assert!(!g.is_valid_content_key(false, 100, 101));
    assert!(!g.is_valid_content_key(true, 100, 1));

    assert!(g.is_valid_proposal_code(true, false, 50, 50));
    assert!(!g.is_valid_proposal_code(false, false, 50, 1));
    assert!(!g.is_valid_proposal_code(true, true, 50, 1));
    assert!(!g.is_valid_proposal_code(true, false, 50, 51));

    // start 12, end 18, activation 24, grace 6, max period 12
    assert!(g.is_valid_activation_epoch(false, 12, 18, 24, 6, 12, true));
    assert!(!g.is_valid_activation_epoch(true, 12, 18, 24, 6, 12, true));
    assert!(!g.is_valid_activation_epoch(false, 12, 18, 24, 6, 12, false));
    assert!(!g.is_valid_activation_epoch(false, 12, 18, 24, 7, 12, true));
    assert!(!g.is_valid_activation_epoch(false, 12, 18, 24, 6, 11, true));
    assert!(!g.is_valid_activation_epoch(false, 12, 18, 18, 0, 12, true));
    assert!(!g.is_valid_activation_epoch(false, 30, 18, 24, 6, 12, true));

    assert!(g.is_valid_start_epoch(false, false, 12, 18, 3));
    assert!(!g.is_valid_start_epoch(true, false, 12, 18, 3));
    assert!(!g.is_valid_start_epoch(false, true, 12, 18, 3));
    assert!(!g.is_valid_start_epoch(false, false, 18, 18, 3));
    assert!(!g.is_valid_start_epoch(false, false, 10, 18, 4));
    assert!(!g.is_valid_start_epoch(false, false, 12, 18, 4));
    assert!(!g.is_valid_start_epoch(false, false, 12, 18, 12));
    assert!(!g.is_valid_start_epoch(false, false, 12, 11, 0));

    assert!(g.is_valid_end_epoch(false, false, 12, 18, 3, 6));
    assert!(!g.is_valid_end_epoch(false, false, 12, 18, 3, 5));
    assert!(!g.is_valid_end_epoch(false, false, 12, 18, 4, 6));
    assert!(!g.is_valid_end_epoch(true, false, 12, 18, 3, 6));

    assert!(g.is_valid_funds(5, Some(100), 107, 7));
    assert!(!g.is_valid_funds(5, Some(100), 107, 6));
    assert!(!g.is_valid_funds(8, Some(100), 107, 7));
    assert!(!g.is_valid_funds(5, Some(100), 99, 7));
    assert!(g.is_valid_funds(5, None, 7, 7));
    assert!(!g.is_valid_funds(5, None, 8, 7));
    assert!(!g.is_valid_funds(8, None, 7, 7));

    assert!(g.is_valid_balance(Some(100), 5, 105));
    assert!(!g.is_valid_balance(Some(100), 5, 104));
    assert!(!g.is_valid_balance(Some(100), 0, 100));
    assert!(g.is_valid_balance(None, 5, 5));
    assert!(!g.is_valid_balance(None, 5, 4));

    assert!(g.is_valid_counter(3, 2, 5));
    assert!(!g.is_valid_counter(3, 2, 6));
    assert!(!g.is_valid_counter(u64::MAX, 1, 0));
    assert!(g.is_valid_proposal_commit(3, 4));
    assert!(!g.is_valid_proposal_commit(4, 4));
    assert!(g.is_valid_parameter(Some(true)));
    assert!(!g.is_valid_parameter(Some(false)));
    assert!(!g.is_valid_parameter(None));

    // current epoch 10
    assert!(g.is_valid_voting_window(10, 10, false, false));
    assert!(g.is_valid_voting_window(5, 15, false, false));
    assert!(!g.is_valid_voting_window(11, 15, false, true));
    assert!(!g.is_valid_voting_window(5, 9, false, true));
    assert!(g.is_valid_voting_window(11, 15, true, true));
    assert!(!g.is_valid_voting_window(5, 15, true, false));

    assert_eq!(g.force_read(b"key", Some(vec![1, 2])).unwrap(), vec![1, 2]);
    assert!(matches!(
        g.force_read(b"key", None),
        Err(Error::EmptyProposalField(k)) if k == b"key".to_vec()
    ));
}

#[test]
fn verifier_rules() {
    let g = vp(0);
    let verifiers = vec![b"alice".to_vec(), b"bob".to_vec()];
    assert!(contains_address(&verifiers, b"bob"));
    assert!(!contains_address(&verifiers, b"carol"));
    assert!(g.is_valid_author(false, b"alice", true, &verifiers));
    assert!(!g.is_valid_author(true, b"alice", true, &verifiers));
    assert!(!g.is_valid_author(false, b"alice", false, &verifiers));
    assert!(!g.is_valid_author(false, b"carol", true, &verifiers));

    assert!(g.is_validator(&verifiers, b"alice", b"alice", true));
    assert!(!g.is_validator(&verifiers, b"alice", b"bob", true));
    assert!(!g.is_validator(&verifiers, b"alice", b"alice", false));
    assert!(!g.is_validator(&verifiers, b"carol", b"carol", true));

    assert!(g.is_delegator(&verifiers, b"alice", b"bob", true));
    assert!(!g.is_delegator(&verifiers, b"alice", b"alice", true));
    assert!(!g.is_delegator(&verifiers, b"alice", b"bob", false));
    assert!(!g.is_delegator(&verifiers, b"carol", b"bob", true));

    let keys = vec![b"a".to_vec(), b"b".to_vec(), b"c".to_vec()];
    assert!(is_superset(&keys, &vec![b"c".to_vec(), b"a".to_vec()]));
    assert!(is_superset(&keys, &vec![]));
    assert!(!is_superset(&keys, &vec![b"a".to_vec(), b"d".to_vec()]));
    assert_eq!(distinct_count(&keys), 3);
    assert_eq!(
        distinct_count(&vec![b"a".to_vec(), b"b".to_vec(), b"a".to_vec(), b"a".to_vec()]),
        2
    );
    assert_eq!(distinct_count(&vec![]), 0);
    assert!(have_common(&keys, &vec![b"x".to_vec(), b"b".to_vec()]));
    assert!(!have_common(&keys, &vec![b"x".to_vec()]));

}

fn add(s: &str) -> AddRemove {
    AddRemove::Add(String::from(s))
}

fn remove(s: &str) -> AddRemove {
    AddRemove::Remove(String::from(s))
}

#[test]
fn proposal_type_rules() {
    let g = vp(0);
    let key = b"author key";
    assert_eq!(
        g.is_valid_proposal_type(&ProposalType::Default, key, None).unwrap(),
        true
    );

    // stewards
    let none_added = ProposalType::PGFSteward(vec![remove("a"), remove("b")]);
    assert!(g.is_valid_proposal_type(&none_added, key, None).unwrap());
    let too_many: Vec<AddRemove> = (0..20).map(|i| remove(&format!("s{}", i))).collect();
    assert!(!g
        .is_valid_proposal_type(&ProposalType::PGFSteward(too_many), key, None)
        .unwrap());
    let two_added = ProposalType::PGFSteward(vec![add("a"), add("b")]);
    assert!(!g.is_valid_proposal_type(&two_added, key, None).unwrap());
    let one_added = ProposalType::PGFSteward(vec![remove("x"), add("me"), remove("y")]);
    assert!(g
        .is_valid_proposal_type(&one_added, key, Some(String::from("me")))
        .unwrap());
    assert!(!g
        .is_valid_proposal_type(&one_added, key, Some(String::from("you")))
        .unwrap());
    assert!(matches!(
        g.is_valid_proposal_type(&one_added, key, None),
        Err(Error::EmptyProposalField(k)) if k == key.to_vec()
    ));
    let repeated = ProposalType::PGFSteward(vec![remove("me"), add("me")]);
    assert!(!g
        .is_valid_proposal_type(&repeated, key, Some(String::from("me")))
        .unwrap());

    // payments
    let fine = ProposalType::PGFPayment(vec![
        PGFAction::Continuous(add("alpha")),
        PGFAction::Continuous(remove("beta")),
        PGFAction::Retro(String::from("alpha")),
        PGFAction::Retro(String::from("alpha")),
    ]);
    assert!(g.is_valid_proposal_type(&fine, key, None).unwrap());
    let added_twice = ProposalType::PGFPayment(vec![
        PGFAction::Continuous(add("alpha")),
        PGFAction::Continuous(add("ALPHA")),
    ]);
    assert!(!g.is_valid_proposal_type(&added_twice, key, None).unwrap());
    let both = ProposalType::PGFPayment(vec![
        PGFAction::Continuous(add("alpha")),
        PGFAction::Continuous(remove("Alpha")),
    ]);
    assert!(!g.is_valid_proposal_type(&both, key, None).unwrap());
    let many: Vec<PGFAction> = (0..20)
        .map(|i| PGFAction::Retro(format!("t{}", i)))
        .collect();
    assert!(!g
        .is_valid_proposal_type(&ProposalType::PGFPayment(many), key, None)
        .unwrap());
    let nineteen: Vec<PGFAction> = (0..19)
        .map(|i| PGFAction::Retro(format!("t{}", i)))
        .collect();
    assert!(g
        .is_valid_proposal_type(&ProposalType::PGFPayment(nineteen), key, None)
        .unwrap());
}

fn vote_facts() -> VoteFacts {
    VoteFacts {
        pre_counter: 5,
        proposal_id: 3,
        voter: Some(b"alice".to_vec()),
        delegation: Some(b"val".to_vec()),
        has_post_vote: true,
        delegation_votes: Some(vec![true, true]),
        voting_start_epoch: 8,
        voting_end_epoch: 12,
        is_validator: Some(false),
        validator_period_ok: false,
        is_delegator: Some(true),
    }
}

#[test]
fn vote_key_rules() {
    let g = vp(10);
    let verifiers = vec![b"alice".to_vec(), b"val".to_vec()];
    let key = b"vote key";
    assert_eq!(g.is_valid_vote_key(key, &vote_facts(), &verifiers).unwrap(), true);

    let mut f = vote_facts();
    f.voter = None;
    assert!(matches!(
        g.is_valid_vote_key(key, &f, &verifiers),
        Err(Error::InvalidVoteKey(k)) if k == key.to_vec()
    ));
    let mut f = vote_facts();
    f.delegation = None;
    assert!(g.is_valid_vote_key(key, &f, &verifiers).is_err());
    let mut f = vote_facts();
    f.proposal_id = 5;
    f.has_post_vote = false;
    assert_eq!(g.is_valid_vote_key(key, &f, &verifiers).unwrap(), false);
    let mut f = vote_facts();
    f.has_post_vote = false;
    assert!(g.is_valid_vote_key(key, &f, &verifiers).is_err());
    let mut f = vote_facts();
    f.delegation_votes = None;
    assert_eq!(g.is_valid_vote_key(key, &f, &verifiers).unwrap(), false);
    let mut f = vote_facts();
    f.delegation_votes = Some(vec![]);
    assert_eq!(g.is_valid_vote_key(key, &f, &verifiers).unwrap(), false);
    let mut f = vote_facts();
    f.delegation_votes = Some(vec![true, false, true]);
    assert_eq!(g.is_valid_vote_key(key, &f, &verifiers).unwrap(), false);
    let mut f = vote_facts();
    f.voting_end_epoch = 9;
    assert_eq!(g.is_valid_vote_key(key, &f, &verifiers).unwrap(), false);
    let mut f = vote_facts();
    f.is_delegator = None;
    assert_eq!(g.is_valid_vote_key(key, &f, &verifiers).unwrap(), false);

    // a validator votes for itself, inside or outside its period
    let mut f = vote_facts();
    f.voter = Some(b"val".to_vec());
    f.is_validator = Some(true);
    f.validator_period_ok = true;
    assert_eq!(g.is_valid_vote_key(key, &f, &verifiers).unwrap(), true);
    f.validator_period_ok = false;
    assert_eq!(g.is_valid_vote_key(key, &f, &verifiers).unwrap(), false);
    // who votes for itself without being a validator is no delegator
    f.is_validator = None;
    assert_eq!(g.is_valid_vote_key(key, &f, &verifiers).unwrap(), false);
}

#[test]
fn ibc_values_are_matched() {
    let write = Modification::Write { value: vec![1, 2] };
    let delete = Modification::Delete;
    let account = Modification::InitAccount {
        vp_code_hash: vec![1, 2],
    };
    assert!(match_value(b"k", Some(vec![1, 2]), Some(&write)).is_ok());
    assert!(matches!(
        match_value(b"k", Some(vec![1, 3]), Some(&write)),
        Err(IbcError::StateChange(k, StateChangeKind::ValueMismatched)) if k == b"k".to_vec()
    ));
    assert!(matches!(
        match_value(b"k", Some(vec![1, 2]), Some(&delete)),
        Err(IbcError::StateChange(_, StateChangeKind::ValueInvalid))
    ));
    assert!(matches!(
        match_value(b"k", Some(vec![1, 2]), Some(&account)),
        Err(IbcError::StateChange(_, StateChangeKind::ValueInvalid))
    ));
    assert!(matches!(
        match_value(b"k", Some(vec![1, 2]), None),
        Err(IbcError::StateChange(_, StateChangeKind::ValueInvalid))
    ));
    assert!(match_value(b"k", None, Some(&delete)).is_ok());
    assert!(matches!(
        match_value(b"k", None, Some(&write)),
        Err(IbcError::StateChange(_, StateChangeKind::DeletedUnexpectedly))
    ));
    assert!(matches!(
        match_value(b"k", None, None),
        Err(IbcError::StateChange(_, StateChangeKind::DeletedUnexpectedly))
    ));
}

fn flow(mint_limit: u128, throughput_limit: u128, minted: u128, deposit: u128, withdraw: u128) -> TokenFlow {
    TokenFlow {
        mint_limit,
        throughput_limit,
        minted,
        deposit,
        withdraw,
    }
}

#[test]
fn ibc_rules() {
    let ibc = Ibc {};
    assert_eq!(ibc.check_limits(&vec![]).unwrap(), true);
    assert_eq!(
        ibc.check_limits(&vec![flow(100, 10, 100, 25, 15), flow(100, 10, 0, 15, 25)])
            .unwrap(),
        true
    );
    assert!(matches!(
        ibc.check_limits(&vec![flow(100, 10, 100, 25, 15), flow(100, 10, 101, 0, 0)]),
        Err(IbcError::RateLimit(1, LimitKind::Mint))
    ));
    assert!(matches!(
        ibc.check_limits(&vec![flow(100, 10, 1, 15, 26), flow(100, 10, 101, 0, 0)]),
        Err(IbcError::RateLimit(0, LimitKind::Throughput))
    ));
    assert!(matches!(
        ibc.check_limits(&vec![flow(100, 10, 101, 26, 15)]),
        Err(IbcError::RateLimit(0, LimitKind::Mint))
    ));

    assert_eq!(ibc.validation_params(2, 86400), Some(172800));
    assert_eq!(ibc.validation_params(u64::MAX, 2), None);
    assert_eq!(ibc.validation_params(0, u64::MAX), Some(0));

    let good = TraceCheck {
        key: b"t1".to_vec(),
        key_hash: b"hash".to_vec(),
        stored_hash: Some(b"hash".to_vec()),
    };
    let missing = TraceCheck {
        key: b"t2".to_vec(),
        key_hash: b"hash".to_vec(),
        stored_hash: None,
    };
    let wrong = TraceCheck {
        key: b"t3".to_vec(),
        key_hash: b"hash".to_vec(),
        stored_hash: Some(b"other".to_vec()),
    };
    assert!(ibc.validate_trace(&vec![]).is_ok());
    assert!(ibc.validate_trace(&vec![good]).is_ok());
    assert!(matches!(
        ibc.validate_trace(&vec![missing]),
        Err(IbcError::Trace(k, TraceKind::Missing)) if k == b"t2".to_vec()
    ));
    assert!(matches!(
        ibc.validate_trace(&vec![wrong]),
        Err(IbcError::Trace(k, TraceKind::Invalid)) if k == b"t3".to_vec()
    ));

    let changed = |value: u8| ChangedKey {
        key: b"c".to_vec(),
        actual: Some(vec![value]),
        expected: Some(Modification::Write { value: vec![1] }),
    };
    assert!(ibc.validate_state(&vec![changed(1)], 1, true).is_ok());
    assert!(matches!(
        ibc.validate_state(&vec![changed(1)], 2, true),
        Err(IbcError::StateChange(k, StateChangeKind::KeysMismatched)) if k.is_empty()
    ));
    assert!(matches!(
        ibc.validate_state(&vec![changed(1), changed(2)], 2, true),
        Err(IbcError::StateChange(_, StateChangeKind::ValueMismatched))
    ));
    assert!(matches!(
        ibc.validate_state(&vec![changed(1)], 1, false),
        Err(IbcError::IbcEvent)
    ));

    assert_eq!(
        ibc.validate_tx(true, Ok(()), Ok(()), Ok(()), Ok(true)).unwrap(),
        true
    );
    assert!(matches!(
        ibc.validate_tx(false, Ok(()), Ok(()), Ok(()), Ok(true)),
        Err(IbcError::NoTxData)
    ));
    assert!(matches!(
        ibc.validate_tx(true, Err(IbcError::IbcEvent), Err(IbcError::IbcAction), Ok(()), Ok(true)),
        Err(IbcError::IbcEvent)
    ));
    assert!(matches!(
        ibc.validate_tx(true, Ok(()), Err(IbcError::IbcAction), Ok(()), Ok(true)),
        Err(IbcError::IbcAction)
    ));
    assert!(matches!(
        ibc.validate_tx(
            true,
            Ok(()),
            Ok(()),
            Ok(()),
            Err(IbcError::RateLimit(0, LimitKind::Mint))
        ),
        Err(IbcError::RateLimit(0, LimitKind::Mint))
    ));
    assert!(matches!(
        ibc.validate_tx(
            true,
            Ok(()),
            Ok(()),
            Err(IbcError::NativeVpError(StorageError::IoError)),
            Ok(true)
        ),
        Err(IbcError::NativeVpError(StorageError::IoError))
    ));
}

#[test]
fn ibc_storage() {
    let mut storage = Storage::open(MemStore::new(), String::from("c"), String::from("n"), None);
    let ibc = Key::parse("#ibc").unwrap();
    storage.begin_block([0u8; 32], 1).unwrap();
    init_genesis_storage(&mut storage, &ibc);
    for name in ["clients", "connections", "channelEnds"] {
        let key = Key::parse(&format!("#ibc/{}/counter", name)).unwrap();
        assert_eq!(storage.read_u64(&key), Ok((Some(0), key.len() as u64 + 8)));
    }

    let deposit = Key::parse("#ibc/deposit/tokenA").unwrap();
    let withdraw = Key::parse("#ibc/withdraw/tokenB").unwrap();
    let other = Key::parse("#ibc/deposits/tokenC").unwrap();
    storage.write(&deposit, vec![5; 32]).unwrap();
    storage.write(&other, vec![6; 32]).unwrap();
    storage.commit_block().unwrap();
    storage.begin_block([0u8; 32], 2).unwrap();
    storage.write(&withdraw, vec![7; 32]).unwrap();

    clear_throughputs(&mut storage, &ibc).unwrap();
    assert_eq!(storage.read(&deposit).unwrap().0, Some(vec![0; 32]));
    assert_eq!(storage.read(&withdraw).unwrap().0, Some(vec![0; 32]));
    assert_eq!(storage.read(&other).unwrap().0, Some(vec![6; 32]));
    assert_eq!(storage.read_committed(&deposit).unwrap().0, Some(vec![5; 32]));
    let counter = Key::parse("#ibc/clients/counter").unwrap();
    assert_eq!(storage.read(&counter).unwrap().0, Some(encode_u64(0)));
}

#[test]
fn reward_arithmetic() {
    assert_eq!(denomination_offset(6, 6), Some(1));
    assert_eq!(denomination_offset(8, 6), Some(100));
    assert_eq!(denomination_offset(19, 0), Some(10_000_000_000_000_000_000));
    assert_eq!(denomination_offset(20, 0), None);
    assert_eq!(denomination_offset(5, 6), None);

    let r = masp_rewards(500, 1000, 100);
    // 100 * 500 / 1000 = 50, which the largest i64 is larger than
    assert_eq!(r.reward, i64::MAX as u128);
    assert_eq!(r.precision, 10_000);
    assert_eq!(r.last_inflation, (i64::MAX as u128 / 100) * 1000);
    let r = masp_rewards(u64::MAX, 1, 1);
    assert_eq!(r.reward, 100 * u64::MAX as u128);
    assert_eq!(r.last_inflation, u64::MAX as u128);
    assert_eq!(r.precision, 100);
    let r = masp_rewards(7, 0, 3);
    assert_eq!(r.reward, i64::MAX as u128);
    assert_eq!(r.last_inflation, 0);
    assert_eq!(r.precision, 300);

    assert_eq!(
        native_reward(1000, 5, 100, 2000),
        Some(NativeReward {
            new_normed_inflation: 1050,
            minted: 100
        })
    );
    assert_eq!(native_reward(1000, 5, 0, 2000), None);
    assert_eq!(native_reward(0, 5, 100, 2000), None);
    assert_eq!(native_reward(u128::MAX, 2, 100, 1), None);
    assert_eq!(
        token_reward(10, 250, 100, 4000),
        Some(TokenReward {
            real_reward: 25,
            minted: 10_000
        })
    );
    assert_eq!(token_reward(10, 250, 0, 4000), None);
    assert_eq!(token_reward(0, 250, 100, 4000), None);
    assert_eq!(token_reward(1, u128::MAX, 1, 2), None);

    assert_eq!(
        notes_per_thread(10, 4),
        NotesPerThread {
            max: 3,
            min: 2,
            rounded: 1
        }
    );
    assert_eq!(
        notes_per_thread(1000, 8),
        NotesPerThread {
            max: 125,
            min: 125,
            rounded: 32
        }
    );
    assert_eq!(
        notes_per_thread(1, 16),
        NotesPerThread {
            max: 1,
            min: 0,
            rounded: 1
        }
    );
    assert_eq!(notes_per_thread(16, 1).rounded, 4);
    assert_eq!(notes_per_thread(17, 1).rounded, 8);

    assert_eq!(native_first(true, true), Order::Equal);
    assert_eq!(native_first(false, false), Order::Equal);
    assert_eq!(native_first(true, false), Order::Less);
    assert_eq!(native_first(false, true), Order::Greater);
}

#[test]
fn asset_type_bytes() {
    let address = [1u8, 2, 3];
    let bytes = encode_asset_type(&address, &None, MaspDenom::Two, 9).unwrap();
    assert_eq!(
        bytes,
        vec![1, 2, 3, 0, 0, 0, 0, 2, 9, 0, 0, 0, 0, 0, 0, 0]
    );
    let sub = Some(Key::parse("a/b").unwrap());
    let bytes = encode_asset_type(&address, &sub, MaspDenom::Zero, 0x0100).unwrap();
    assert_eq!(
        bytes,
        vec![1, 2, 3, 3, 0, 0, 0, b'a', b'/', b'b', 0, 0, 1, 0, 0, 0, 0, 0, 0]
    );
    // what borsh makes of the same tuple behind the address
    let mut expected = address.to_vec();
    expected.extend(borsh::to_vec(&(String::from("a/b"), 3u8, 77u64)).unwrap());
    assert_eq!(
        encode_asset_type(&address, &sub, MaspDenom::Three, 77).unwrap(),
        expected
    );
    assert_eq!(encode_asset_type(&[], &None, MaspDenom::One, 0).unwrap().len(), 13);
}

fn asset(tag: u8, denom: u8, epoch: u8) -> [u8; 32] {
    let mut d = [0u8; 32];
    d[0] = tag;
    d[1] = denom;
    d[2] = epoch;
    d
}

fn assets(tag: u8, epoch: u8) -> DenomAssets {
    DenomAssets {
        zero: asset(tag, 0, epoch),
        one: asset(tag, 1, epoch),
        two: asset(tag, 2, epoch),
        three: asset(tag, 3, epoch),
    }
}

/// A token named by one byte, with its asset types of the epoch before
/// and of the epoch that begins.
fn rewarded_in(
    tag: u8,
    epoch: u8,
    is_native: bool,
    reward: u128,
    precision: u128,
    balance: u128,
) -> RewardedToken {
    RewardedToken {
        token: vec![tag],
        is_native,
        reward,
        precision,
        balance,
        old_assets: assets(tag, epoch - 1),
        new_assets: assets(tag, epoch),
    }
}

fn rewarded(tag: u8, is_native: bool, reward: u128, precision: u128, balance: u128) -> RewardedToken {
    rewarded_in(tag, 1, is_native, reward, precision, balance)
}

fn in_a_block() -> (Storage<MemStore>, Key) {
    let mut storage = Storage::open(MemStore::new(), String::from("c"), String::from("n"), None);
    storage.begin_block([0u8; 32], 1).unwrap();
    (storage, Key::parse("#masp/conversion_state").unwrap())
}

#[test]
fn rewards_are_distributed_token_by_token() {
    // nothing to reward: nothing is remembered, and the state is staged
    let (mut storage, key) = in_a_block();
    let mut state = ConversionState::new(None);
    assert_eq!(
        update_allowed_conversions(&mut storage, &mut state, &key, &vec![]),
        Some(0)
    );
    assert_eq!(state.normed_inflation, None);
    assert_eq!(state.assets_len(), 0);
    assert_eq!(storage.read(&key).unwrap().0, Some(vec![0]));

    // the native token first: 1000 + 1000 * 5 / 100 = 1050, and the pool's
    // 2000 grow to 2100; then another token: 250 / 1050 = 0 in real terms
    let (mut storage, key) = in_a_block();
    let mut state = ConversionState::new(Some(1000));
    let tokens = vec![rewarded(1, true, 5, 100, 2000), rewarded(2, false, 250, 100, 4000)];
    assert_eq!(
        update_allowed_conversions(&mut storage, &mut state, &key, &tokens),
        Some(100)
    );
    assert_eq!(state.normed_inflation, Some(1050));
    assert_eq!(storage.read(&key).unwrap().0, Some(state.encode()));

    // a state that remembers nothing starts from one
    let (mut storage, key) = in_a_block();
    let mut state = ConversionState::new(None);
    assert_eq!(
        update_allowed_conversions(
            &mut storage,
            &mut state,
            &key,
            &vec![rewarded(1, true, 100, 100, 7)]
        ),
        Some(7)
    );
    assert_eq!(state.normed_inflation, Some(2));

    // a step that cannot be taken leaves the state as it was, and
    // nothing is staged
    let (mut storage, key) = in_a_block();
    let mut state = ConversionState::new(Some(3));
    let tokens = vec![rewarded(1, true, 1, 1, 1), rewarded(2, false, 1, 0, 1)];
    assert_eq!(
        update_allowed_conversions(&mut storage, &mut state, &key, &tokens),
        None
    );
    assert_eq!(state.normed_inflation, Some(3));
    assert_eq!(state.assets_len(), 0);
    assert_eq!(storage.read(&key).unwrap().0, None);
    let tokens = vec![rewarded(1, true, u128::MAX, 1, 1)];
    assert_eq!(
        update_allowed_conversions(&mut storage, &mut state, &key, &tokens),
        None
    );
    assert_eq!(state.normed_inflation, Some(3));
    assert_eq!(storage.read(&key).unwrap().0, None);
}

#[test]
fn the_native_token_is_rewarded_first() {
    // the native token: 10 + 10 * 50 / 100 = 15, and 40 * 15 / 10 - 40 = 20;
    // then the other token sees the new normed inflation: 250 / 15 = 16,
    // and 4000 * 16 / 100 * 15 = 9600
    let native = || rewarded(1, true, 50, 100, 40);
    let other = || rewarded(2, false, 250, 100, 4000);
    for tokens in [vec![native(), other()], vec![other(), native()]] {
        let (mut storage, key) = in_a_block();
        let mut state = ConversionState::new(Some(10));
        assert_eq!(
            update_allowed_conversions(&mut storage, &mut state, &key, &tokens),
            Some(9_620)
        );
        assert_eq!(state.normed_inflation, Some(15));
    }
    // had the other token been rewarded before the native one, it would
    // have seen the old normed inflation
    assert_eq!(
        token_reward(10, 250, 100, 4000).map(|r| r.minted),
        Some(10_000)
    );
    assert_eq!(
        token_reward(15, 250, 100, 4000).map(|r| r.minted),
        Some(9_600)
    );

    // two native tokens keep their order
    let (mut storage, key) = in_a_block();
    let mut state = ConversionState::new(Some(100));
    let tokens = vec![
        rewarded(2, false, 1000, 100, 100),
        rewarded(1, true, 50, 100, 0),
        rewarded(3, true, 100, 100, 0),
    ];
    // 100 -> 150 -> 300; then 1000 / 300 = 3, and 100 * 3 / 100 * 300 = 900
    assert_eq!(
        update_allowed_conversions(&mut storage, &mut state, &key, &tokens),
        Some(900)
    );
    assert_eq!(state.normed_inflation, Some(300));
}

#[test]
fn assets_are_entered_and_ranked() {
    let mut storage = Storage::open(MemStore::new(), String::from("c"), String::from("n"), None);
    let key = Key::parse("#masp/conversion_state").unwrap();
    storage.begin_block([0u8; 32], 1).unwrap();
    storage.commit_block().unwrap();
    storage.begin_block([0u8; 32], 2).unwrap();
    storage.new_epoch().unwrap();
    assert_eq!(storage.get_current_epoch(), 1);
    assert_eq!(storage.get_committed().last_epoch, 0);

    let mut state = ConversionState::new(None);
    let tokens = vec![rewarded(7, false, 1, 1, 0), rewarded(3, true, 1, 1, 0)];
    assert!(update_allowed_conversions(&mut storage, &mut state, &key, &tokens).is_some());
    assert_eq!(state.assets_len(), 16);
    // the assets of the epoch before are ranked by their asset types
    for (base, tag) in [(0u64, 3u8), (4, 7)] {
        for denom in 0..4u8 {
            let info = state.asset(&asset(tag, denom, 0)).expect("the asset is there");
            assert_eq!(info.token, vec![tag]);
            assert_eq!(info.epoch, 0);
            assert_eq!(info.position, base + denom as u64);
        }
    }
    // those of the epoch that begins stand behind the last leaf
    for tag in [3u8, 7] {
        for denom in 0..4u8 {
            let info = state.asset(&asset(tag, denom, 1)).expect("the asset is there");
            assert_eq!(info.token, vec![tag]);
            assert_eq!(info.epoch, 1);
            assert_eq!(info.position, 8);
        }
    }
    assert_eq!(state.asset(&asset(3, 2, 0)).unwrap().denom, MaspDenom::Two);
    assert_eq!(state.asset(&asset(7, 0, 1)).unwrap().denom, MaspDenom::Zero);
    assert!(state.asset(&asset(5, 0, 0)).is_none());
    // in ascending order of the asset types
    assert_eq!(state.asset_type_at(0).as_slice(), &asset(3, 0, 0)[..]);
    assert_eq!(state.asset_type_at(1).as_slice(), &asset(3, 0, 1)[..]);
    assert_eq!(state.asset_type_at(15).as_slice(), &asset(7, 3, 1)[..]);
    assert_eq!(state.asset_at(15).position, 8);
    storage.commit_block().unwrap();

    // an epoch later the assets of that epoch have a leaf of their own
    storage.begin_block([0u8; 32], 3).unwrap();
    storage.new_epoch().unwrap();
    let tokens = vec![
        rewarded_in(7, 2, false, 1, 1, 0),
        rewarded_in(3, 2, true, 1, 1, 0),
    ];
    assert!(update_allowed_conversions(&mut storage, &mut state, &key, &tokens).is_some());
    assert_eq!(state.assets_len(), 24);
    let info = state.asset(&asset(7, 1, 1)).unwrap();
    assert_eq!((info.epoch, info.position), (1, 11));
    let info = state.asset(&asset(3, 0, 0)).unwrap();
    assert_eq!((info.epoch, info.position), (0, 0));
    let info = state.asset(&asset(3, 3, 2)).unwrap();
    assert_eq!((info.epoch, info.position), (2, 16));
}

#[test]
fn rewards_are_staged() {
    let (mut storage, _) = in_a_block();
    let inflation_key = Key::parse("#token/last_inflation").unwrap();
    let ratio_key = Key::parse("#token/last_locked_ratio").unwrap();
    let r = calculate_masp_rewards(
        &mut storage,
        &inflation_key,
        &ratio_key,
        u64::MAX,
        &[4, 5, 6],
        3,
        10,
    );
    // 100 * (2^64 - 1) / 3 is more than the largest i64
    assert_eq!(r.reward, 100 * (u64::MAX as u128) / 3);
    assert_eq!(r.precision, 1000);
    assert_eq!(r.last_inflation, (r.reward / 100) * 3);
    let mut amount = r.last_inflation.to_le_bytes().to_vec();
    amount.extend_from_slice(&[0u8; 16]);
    assert_eq!(storage.read(&inflation_key).unwrap().0, Some(amount));
    assert_eq!(storage.read(&ratio_key).unwrap().0, Some(vec![4, 5, 6]));
    storage.commit_block().unwrap();
    assert_eq!(
        storage.read_committed(&ratio_key).unwrap().0,
        Some(vec![4, 5, 6])
    );
}

#[test]
fn conversion_state_is_stored_with_the_block() {
    let none = ConversionState::new(None);
    assert_eq!(none.encode(), vec![0]);
    let some = ConversionState::new(Some(0x0102030405060708_090a0b0c0d0e0f10));
    assert_eq!(
        some.encode(),
        vec![1, 0x10, 0x0f, 0x0e, 0x0d, 0x0c, 0x0b, 0x0a, 9, 8, 7, 6, 5, 4, 3, 2, 1]
    );
    // as borsh writes an optional 128-bit integer
    assert_eq!(
        some.encode(),
        borsh::to_vec(&Some(0x0102030405060708_090a0b0c0d0e0f10u128)).unwrap()
    );
    assert_eq!(none.encode(), borsh::to_vec(&None::<u128>).unwrap());
    for normed_inflation in [None, Some(0), Some(7), Some(u128::MAX)] {
        let state = ConversionState::new(normed_inflation);
        let back = ConversionState::decode(&state.encode()).expect("the state can be read");
        assert_eq!(back.normed_inflation, normed_inflation);
        assert_eq!(back.assets_len(), 0);
    }
    assert!(ConversionState::decode(&[]).is_none());
    assert!(ConversionState::decode(&[1]).is_none());
    assert!(ConversionState::decode(&[0, 0]).is_none());
    assert!(ConversionState::decode(&[2; 17]).is_none());
    assert!(ConversionState::decode(&[1; 18]).is_none());

    // one asset: the asset type, then denomination, epoch, position and
    // token
    let entry = |asset_type: [u8; 32], denom: u8| {
        let mut bytes = 32u64.to_le_bytes().to_vec();
        bytes.extend_from_slice(&asset_type);
        bytes.extend_from_slice(&19u64.to_le_bytes());
        bytes.push(denom);
        bytes.extend_from_slice(&5u64.to_le_bytes());
        bytes.extend_from_slice(&9u64.to_le_bytes());
        bytes.extend_from_slice(b"ab");
        bytes
    };
    let mut bytes = vec![0u8];
    bytes.extend(entry(asset(1, 0, 0), 2));
    let state = ConversionState::decode(&bytes).expect("the state can be read");
    assert_eq!(state.assets_len(), 1);
    let info = state.asset(&asset(1, 0, 0)).unwrap();
    assert_eq!(info.token, b"ab".to_vec());
    assert_eq!(info.denom, MaspDenom::Two);
    assert_eq!((info.epoch, info.position), (5, 9));
    assert_eq!(state.encode(), bytes);
    // no such denomination
    let mut bad = vec![0u8];
    bad.extend(entry(asset(1, 0, 0), 4));
    assert!(ConversionState::decode(&bad).is_none());
    // the assets out of order
    let mut bad = vec![0u8];
    bad.extend(entry(asset(2, 0, 0), 0));
    bad.extend(entry(asset(1, 0, 0), 0));
    assert!(ConversionState::decode(&bad).is_none());
    let mut good = vec![0u8];
    good.extend(entry(asset(1, 0, 0), 0));
    good.extend(entry(asset(2, 0, 0), 0));
    assert_eq!(ConversionState::decode(&good).unwrap().assets_len(), 2);
    // an asset cut short
    assert!(ConversionState::decode(&bytes[..bytes.len() - 1]).is_none());

    // what an update stages is what is read after the commit and after a
    // restart
    let (mut storage, key) = in_a_block();
    assert!(matches!(load_conversion_state(&storage, &key), Ok(None)));
    let mut state = ConversionState::new(Some(1000));
    let tokens = vec![rewarded(2, false, 250, 100, 4000), rewarded(1, true, 5, 100, 2000)];
    update_allowed_conversions(&mut storage, &mut state, &key, &tokens).unwrap();
    let staged = state.encode();
    storage.commit_block().unwrap();
    assert_eq!(storage.read_committed(&key).unwrap().0, Some(staged.clone()));
    let storage = storage.reopen().unwrap();
    let loaded = load_conversion_state(&storage, &key)
        .expect("the state can be read")
        .expect("the state is there");
    assert_eq!(loaded.normed_inflation, Some(1050));
    assert_eq!(loaded.assets_len(), 16);
    assert_eq!(loaded.encode(), staged);
    let mut storage = Storage::open(storage.close(), String::from("c"), String::from("n"), None);
    storage.load_last_state().unwrap();
    assert_eq!(storage.read(&key).unwrap().0, Some(staged));

    storage.begin_block([0u8; 32], 2).unwrap();
    assert_eq!(
        save_conversion_state(&mut storage, &key, &some),
        Ok((key.len() + 17) as u64)
    );
    let loaded = load_conversion_state(&storage, &key).unwrap().unwrap();
    assert_eq!(loaded.normed_inflation, some.normed_inflation);
    storage.write(&key, vec![9, 9]).unwrap();
    assert!(matches!(
        load_conversion_state(&storage, &key),
        Err(StorageError::DecodeError)
    ));
}

fn changed(key: &[u8], facts: KeyFacts, has_proposal_id: bool, reads: Reads) -> KeyChange {
    KeyChange {
        key: key.to_vec(),
        facts,
        has_proposal_id,
        reads,
    }
}

fn counter_facts() -> KeyFacts {
    KeyFacts {
        is_counter_key: true,
        is_governance_key: true,
        ..no_facts()
    }
}

fn content_facts() -> KeyFacts {
    KeyFacts {
        is_content_key: true,
        is_governance_key: true,
        ..no_facts()
    }
}

#[test]
fn mandatory_keys_of_a_proposal() {
    assert_eq!(decimal_of(0), b"0".to_vec());
    assert_eq!(decimal_of(7), b"7".to_vec());
    assert_eq!(decimal_of(10), b"10".to_vec());
    assert_eq!(decimal_of(1234567890), b"1234567890".to_vec());
    assert_eq!(decimal_of(u64::MAX), b"18446744073709551615".to_vec());

    let governance = Key::parse("#gov").unwrap();
    let keys = mandatory_keys_of(&governance, 12);
    let expected: Vec<Vec<u8>> = [
        "#gov/counter",
        "#gov/proposal/12/content",
        "#gov/proposal/12/author",
        "#gov/proposal/12/type",
        "#gov/proposal/12/funds",
        "#gov/proposal/12/start_epoch",
        "#gov/proposal/12/end_epoch",
        "#gov/proposal/12/activation_epoch",
    ]
    .iter()
    .map(|k| k.as_bytes().to_vec())
    .collect();
    assert_eq!(keys, expected);

    let g = vp(0);
    let mut keys = mandatory_keys_of(&governance, 3);
    keys.push(b"other".to_vec());
    // the counter shrank
    assert_eq!(g.is_valid_init_proposal_key_set(&governance, 3, 2, &keys), (false, 0));
    // no proposal was set up
    assert_eq!(g.is_valid_init_proposal_key_set(&governance, 3, 3, &keys), (true, 0));
    assert_eq!(g.is_valid_init_proposal_key_set(&governance, 3, 3, &vec![]), (true, 0));
    // one was set up, with all its keys
    assert_eq!(g.is_valid_init_proposal_key_set(&governance, 3, 4, &keys), (true, 1));
    // two were set up, and the keys of the second are missing
    assert_eq!(g.is_valid_init_proposal_key_set(&governance, 3, 5, &keys), (false, 0));
    keys.extend(mandatory_keys_of(&governance, 4));
    assert_eq!(g.is_valid_init_proposal_key_set(&governance, 3, 5, &keys), (true, 2));
    // one key of the first is missing
    keys.retain(|k| k != b"#gov/proposal/3/funds");
    assert_eq!(g.is_valid_init_proposal_key_set(&governance, 3, 5, &keys), (false, 0));
    // the keys of another account do not count
    let other = Key::parse("#other").unwrap();
    assert_eq!(
        g.is_valid_init_proposal_key_set(&governance, 3, 4, &mandatory_keys_of(&other, 3)),
        (false, 0)
    );
}

#[test]
fn rules_are_applied_to_what_was_read() {
    let g = vp(10);
    let verifiers = vec![b"alice".to_vec()];
    let content = |has_pre_content: bool| Reads::Content {
        has_pre_content,
        max_content_length: 100,
        post_content_length: 10,
    };
    assert!(g.judge(Rule::ContentKey, b"k", &content(false), &verifiers, 0, 0, 0));
    assert!(!g.judge(Rule::ContentKey, b"k", &content(true), &verifiers, 0, 0, 0));
    // a rule that was handed what another rule reads rejects
    assert!(!g.judge(Rule::ProposalCode, b"k", &content(false), &verifiers, 0, 0, 0));
    assert!(!g.judge(Rule::ContentKey, b"k", &Reads::Nothing, &verifiers, 0, 0, 0));
    // the counter grows by the number of proposals set up
    assert!(g.judge(Rule::Counter, b"k", &Reads::Nothing, &verifiers, 3, 2, 5));
    assert!(!g.judge(Rule::Counter, b"k", &Reads::Nothing, &verifiers, 3, 1, 5));
    assert!(g.judge(Rule::ProposalCommit, b"k", &Reads::Nothing, &verifiers, 3, 0, 4));
    assert!(!g.judge(Rule::ProposalCommit, b"k", &Reads::Nothing, &verifiers, 3, 0, 3));
    let parameter = |proposal_accepted| Reads::Parameter { proposal_accepted };
    assert!(g.judge(Rule::Parameter, b"k", &parameter(Some(true)), &verifiers, 0, 0, 0));
    assert!(!g.judge(Rule::Parameter, b"k", &parameter(Some(false)), &verifiers, 0, 0, 0));
    assert!(!g.judge(Rule::Parameter, b"k", &parameter(None), &verifiers, 0, 0, 0));
    let author = |name: &[u8]| Reads::Author {
        has_pre_author: false,
        address: name.to_vec(),
        author_exists: true,
    };
    assert!(g.judge(Rule::Author, b"k", &author(b"alice"), &verifiers, 0, 0, 0));
    assert!(!g.judge(Rule::Author, b"k", &author(b"bob"), &verifiers, 0, 0, 0));
    let proposal_type = |author: Option<String>| Reads::Type {
        proposal_type: ProposalType::PGFSteward(vec![add("alice")]),
        author_key: b"author".to_vec(),
        author,
    };
    assert!(g.judge(
        Rule::ProposalType,
        b"k",
        &proposal_type(Some(String::from("alice"))),
        &verifiers,
        0,
        0,
        0
    ));
    // a rule without an answer rejects
    assert!(!g.judge(Rule::ProposalType, b"k", &proposal_type(None), &verifiers, 0, 0, 0));
    // a vote key is judged as a vote key
    assert_eq!(
        g.judge(Rule::VoteKey, b"k", &Reads::Vote(vote_facts()), &verifiers, 0, 0, 0),
        matches!(g.is_valid_vote_key(b"k", &vote_facts(), &verifiers), Ok(true))
    );
    let no_voter = VoteFacts {
        voter: None,
        ..vote_facts()
    };
    assert!(!g.judge(Rule::VoteKey, b"k", &Reads::Vote(no_voter), &verifiers, 0, 0, 0));
    assert!(g.judge(Rule::Accept, b"k", &Reads::Nothing, &verifiers, 0, 0, 0));
    assert!(!g.judge(Rule::Reject, b"k", &Reads::Nothing, &verifiers, 0, 0, 0));
}

#[test]
fn a_transaction_is_judged_key_by_key() {
    let g = vp(10);
    let governance = Key::parse("#gov").unwrap();
    let verifiers = vec![b"alice".to_vec()];
    let content = |has_pre_content: bool| Reads::Content {
        has_pre_content,
        max_content_length: 100,
        post_content_length: 10,
    };
    // the keys of proposal 3, each judged by the rule for its kind
    let proposal = |content_reads: Reads| -> Vec<KeyChange> {
        let mut content_reads = Some(content_reads);
        mandatory_keys_of(&governance, 3)
            .iter()
            .map(|k| {
                if k == b"#gov/counter" {
                    changed(k, counter_facts(), false, Reads::Nothing)
                } else if k == b"#gov/proposal/3/content" {
                    changed(k, content_facts(), true, content_reads.take().unwrap())
                } else {
                    changed(k, no_facts(), true, Reads::Nothing)
                }
            })
            .collect()
    };
    assert!(g.validate_tx(&governance, 3, 3, &vec![], &verifiers));
    assert!(!g.validate_tx(&governance, 3, 2, &vec![], &verifiers));
    // a proposal without its keys
    assert!(!g.validate_tx(&governance, 3, 4, &vec![], &verifiers));
    assert!(g.validate_tx(&governance, 3, 4, &proposal(content(false)), &verifiers));
    // one key is rejected by its rule
    assert!(!g.validate_tx(&governance, 3, 4, &proposal(content(true)), &verifiers));
    assert!(!g.validate_tx(&governance, 3, 4, &proposal(Reads::Nothing), &verifiers));
    // the counter grew by more than the proposals that were set up
    assert!(!g.validate_tx(&governance, 3, 5, &proposal(content(false)), &verifiers));
    // a key of the account that no rule knows
    let unknown = KeyFacts {
        is_governance_key: true,
        ..no_facts()
    };
    let mut keys = proposal(content(false));
    keys.push(changed(b"#gov/unknown", unknown, false, Reads::Nothing));
    assert!(!g.validate_tx(&governance, 3, 4, &keys, &verifiers));
    // the content key names no proposal
    let mut keys = proposal(content(false));
    keys.push(changed(b"#gov/content", content_facts(), false, content(false)));
    assert!(!g.validate_tx(&governance, 3, 4, &keys, &verifiers));
}
