//! Forced deregistration on the host's authority.
#![allow(dead_code)]

use dpos::pallet::{Config, Pallet};
use dpos::types::{
    CandidateDetail, DelayActionType, DelegationInfo, Error, Event, HoldReason, ValidatorStatus,
};

pub const TEST_BLOCKS_PER_EPOCH: u64 = 20;
pub const TEN_THOUSAND_BALANCE: u128 = 10_0000;
pub const REGISTRATION_HOLD_AMOUNT: u128 = 200;

pub const ACCOUNT_1: (u64, u128) = (1, 10);
pub const ACCOUNT_2: (u64, u128) = (2, 20);
pub const ACCOUNT_3: (u64, u128) = (3, 300);
pub const ACCOUNT_4: (u64, u128) = (4, 400);
pub const ACCOUNT_5: (u64, u128) = (5, 500);
pub const ACCOUNT_6: (u64, u128) = (6, 10_000);
pub const CANDIDATE_1: (u64, u128) = (101, TEN_THOUSAND_BALANCE);
pub const CANDIDATE_2: (u64, u128) = (102, TEN_THOUSAND_BALANCE);
pub const CANDIDATE_3: (u64, u128) = (103, TEN_THOUSAND_BALANCE);
pub const CANDIDATE_4: (u64, u128) = (104, TEN_THOUSAND_BALANCE);
pub const CANDIDATE_5: (u64, u128) = (105, TEN_THOUSAND_BALANCE);
pub const CANDIDATE_6: (u64, u128) = (106, TEN_THOUSAND_BALANCE);
pub const CANDIDATE_7: (u64, u128) = (107, TEN_THOUSAND_BALANCE);
pub const CANDIDATE_8: (u64, u128) = (108, TEN_THOUSAND_BALANCE);
pub const CANDIDATE_9: (u64, u128) = (109, TEN_THOUSAND_BALANCE);
pub const CANDIDATE_10: (u64, u128) = (110, TEN_THOUSAND_BALANCE);
pub const CANDIDATE_11: (u64, u128) = (111, TEN_THOUSAND_BALANCE);
pub const CANDIDATE_12: (u64, u128) = (112, TEN_THOUSAND_BALANCE);
pub const CANDIDATE_13: (u64, u128) = (113, TEN_THOUSAND_BALANCE);
pub const CANDIDATE_14: (u64, u128) = (114, TEN_THOUSAND_BALANCE);

pub fn default_config() -> Config {
    Config {
        max_candidates: 200,
        max_candidate_delegators: 5,
        max_active_validators: 10,
        min_active_validators: 1,
        max_delegate_count: 20,
        min_candidate_bond: 10,
        min_delegate_amount: 10,
        epoch_duration: TEST_BLOCKS_PER_EPOCH,
        delay_deregister_candidate_duration: TEST_BLOCKS_PER_EPOCH,
        delay_undelegate_candidate: TEST_BLOCKS_PER_EPOCH,
        author_commission: 3,
        delegator_commission: 1,
    }
}

pub fn default_active_set() -> Vec<(u64, u128)> {
    vec![
        (CANDIDATE_1.0, REGISTRATION_HOLD_AMOUNT),
        (CANDIDATE_4.0, REGISTRATION_HOLD_AMOUNT * 3),
        (CANDIDATE_11.0, REGISTRATION_HOLD_AMOUNT * 6),
        (CANDIDATE_12.0, REGISTRATION_HOLD_AMOUNT * 6),
        (CANDIDATE_5.0, REGISTRATION_HOLD_AMOUNT * 3),
        (CANDIDATE_6.0, REGISTRATION_HOLD_AMOUNT * 4),
        (CANDIDATE_7.0, REGISTRATION_HOLD_AMOUNT * 4),
        (CANDIDATE_13.0, REGISTRATION_HOLD_AMOUNT * 7),
        (CANDIDATE_2.0, REGISTRATION_HOLD_AMOUNT * 2),
        (CANDIDATE_3.0, REGISTRATION_HOLD_AMOUNT * 2),
        (CANDIDATE_14.0, REGISTRATION_HOLD_AMOUNT * 7),
        (CANDIDATE_8.0, REGISTRATION_HOLD_AMOUNT * 5),
        (CANDIDATE_9.0, REGISTRATION_HOLD_AMOUNT * 5),
        (CANDIDATE_10.0, REGISTRATION_HOLD_AMOUNT * 6),
    ]
}

pub fn endow(p: &mut Pallet) {
    let accounts: Vec<(u64, u128)> = vec![
        ACCOUNT_1,
        ACCOUNT_2,
        ACCOUNT_3,
        ACCOUNT_4,
        ACCOUNT_5,
        ACCOUNT_6,
        CANDIDATE_1,
        CANDIDATE_2,
        CANDIDATE_3,
        CANDIDATE_4,
        CANDIDATE_5,
        CANDIDATE_6,
        CANDIDATE_7,
        CANDIDATE_8,
        CANDIDATE_9,
        CANDIDATE_10,
        CANDIDATE_11,
        CANDIDATE_12,
        CANDIDATE_13,
        CANDIDATE_14,
        (999, 1_000_000_000_000),
    ];
    for (id, balance) in accounts {
        p.set_free_balance(id, balance);
    }
}

pub fn find_author(p: &Pallet, n: u64) -> Option<u64> {
    let actives = p.active_validators();
    if actives.is_empty() {
        return None;
    }
    Some(actives[(n % (actives.len() as u64)) as usize].0)
}

pub fn on_init(p: &mut Pallet, n: u64) {
    let author = find_author(p, n);
    p.on_initialize(n, author);
}

pub fn next_block(p: &mut Pallet, rewards: bool) {
    let n = p.block_number + 1;
    p.set_block_number(n);
    if rewards {
        on_init(p, n);
    }
}

pub fn run_to_block(p: &mut Pallet, n: u64, rewards: bool) {
    while p.block_number < n {
        next_block(p, rewards);
    }
}

pub fn build(config: Config, balance_rate: u32, genesis: &[(u64, u128)]) -> Pallet {
    let mut p = Pallet::new(config, balance_rate).unwrap();
    endow(&mut p);
    for &(candidate, bond) in genesis {
        p.register_as_candidate(candidate, bond).unwrap();
    }
    p.establish_active_set();
    p.set_block_number(1);
    on_init(&mut p, 1);
    p
}

pub fn build_default(config: Config, balance_rate: u32) -> Pallet {
    let genesis = default_active_set();
    build(config, balance_rate, &genesis)
}

pub fn register_new_candidate(p: &mut Pallet, candidate: u64, balance: u128, hold_amount: u128) {
    assert_eq!(p.register_as_candidate(candidate, hold_amount), Ok(()));
    assert_eq!(
        p.candidates(candidate),
        Some(CandidateDetail {
            bond: hold_amount,
            total_delegations: 0,
            status: ValidatorStatus::Online
        })
    );
    assert_eq!(p.free_balance(candidate), balance - hold_amount);
    assert_eq!(p.total_balance_on_hold(candidate), hold_amount);
    assert_eq!(
        p.balance_on_hold(HoldReason::CandidateBondReserved, candidate),
        hold_amount
    );
    assert_eq!(p.candidate_delegators(candidate), Vec::<u64>::new());
    assert_eq!(
        p.events.last(),
        Some(&Event::CandidateRegistered { candidate_id: candidate, initial_bond: hold_amount })
    );
    assert!(p.do_try_state());
}

pub fn delegate_candidate_helper(p: &mut Pallet, delegator: u64, candidate: u64, amount: u128) {
    let before_balance = p.free_balance(delegator);
    let before_hold = p.total_balance_on_hold(delegator);
    let before_delegation = p.delegation_infos(delegator, candidate);
    assert_eq!(p.delegate_candidate(delegator, candidate, amount), Ok(()));
    assert_eq!(p.delegate_count_of(delegator), 1);
    if let Some(info) = before_delegation {
        assert_eq!(
            p.delegation_infos(delegator, candidate),
            Some(DelegationInfo { amount: info.amount + amount })
        );
    }
    assert_eq!(p.free_balance(delegator), before_balance - amount);
    assert_eq!(p.total_balance_on_hold(delegator), before_hold + amount);
    assert!(p.do_try_state());
}

pub fn author_commission() -> u32 {
    3
}

pub fn delegator_commission() -> u32 {
    1
}

pub fn deregister_request(p: &Pallet, who: u64) -> Option<dpos::types::DelayActionRequest> {
    p.delay_action_requests(who, DelayActionType::CandidateLeaved)
}

pub fn undelegate_request(p: &Pallet, who: u64) -> Option<dpos::types::DelayActionRequest> {
    p.delay_action_requests(who, DelayActionType::CandidateUndelegated)
}

#[test]
fn force_deregister_candidate_should_failed_no_candidate_found() {
    let mut p = build_default(default_config(), 999);
    assert_eq!(p.force_deregister_candidate(ACCOUNT_1.0), Err(Error::CandidateDoesNotExist));
}

#[test]
fn force_deregister_candidate_should_ok_deregister_sucessfully() {
    let mut p = build(default_config(), 999, &[]);
    let (succes_acc, bond) = ACCOUNT_2;
    let hold_amount = 15;
    run_to_block(&mut p, 10, true);
    assert_eq!(p.register_as_candidate(succes_acc, hold_amount), Ok(()));
    assert_eq!(p.force_deregister_candidate(succes_acc), Ok(()));
    assert_eq!(
        p.events.last(),
        Some(&Event::CandidateRegistrationRemoved { candidate_id: succes_acc })
    );
    assert_eq!(p.candidates(succes_acc), None);
    assert_eq!(p.candidate_count(), 0);
    assert_eq!(p.free_balance(succes_acc), bond);
    assert_eq!(p.total_balance_on_hold(succes_acc), 0);
}

#[test]
fn force_deregister_candidate_should_ok_deregister_multiple_candidates_sucessfully() {
    let mut p = build(default_config(), 999, &[]);
    let (candidate_1, _) = ACCOUNT_2;
    let (candidate_2, _) = ACCOUNT_3;
    let (candidate_3, _) = ACCOUNT_4;
    let hold_amount = 15;
    assert_eq!(p.register_as_candidate(candidate_1, hold_amount), Ok(()));
    assert_eq!(p.register_as_candidate(candidate_2, hold_amount), Ok(()));
    assert_eq!(p.register_as_candidate(candidate_3, hold_amount), Ok(()));
    assert_eq!(p.force_deregister_candidate(candidate_1), Ok(()));
    assert_eq!(
        p.events.last(),
        Some(&Event::CandidateRegistrationRemoved { candidate_id: candidate_1 })
    );
    assert_eq!(p.candidates(candidate_1), None);
    assert_ne!(p.candidates(candidate_2), None);
    assert_ne!(p.candidates(candidate_3), None);
    assert_eq!(p.candidate_count(), 2);
    assert_eq!(p.force_deregister_candidate(candidate_3), Ok(()));
    assert_eq!(
        p.events.last(),
        Some(&Event::CandidateRegistrationRemoved { candidate_id: candidate_3 })
    );
    assert_eq!(p.candidates(candidate_1), None);
    assert_ne!(p.candidates(candidate_2), None);
    assert_eq!(p.candidates(candidate_3), None);
    assert_eq!(p.candidate_count(), 1);
    assert_eq!(p.force_deregister_candidate(candidate_2), Ok(()));
    assert_eq!(
        p.events.last(),
        Some(&Event::CandidateRegistrationRemoved { candidate_id: candidate_2 })
    );
    assert_eq!(p.candidates(candidate_1), None);
    assert_eq!(p.candidates(candidate_2), None);
    assert_eq!(p.candidates(candidate_3), None);
    assert_eq!(p.candidate_count(), 0);
}

#[test]
fn force_deregister_candidate_should_ok_deregister_with_delegations_sucessfully() {
    let mut config = default_config();
    config.min_candidate_bond = 20;
    config.min_delegate_amount = 50;
    let mut p = build(config, 999, &[]);
    let candidate = ACCOUNT_3;
    let (delegator_1, delegator_2, delegator_3) = (ACCOUNT_4, ACCOUNT_5, ACCOUNT_6);
    let (delegated_amount_1, delegated_amount_2, delegated_amount_3) = (100u128, 150u128, 150u128);
    assert_eq!(p.register_as_candidate(candidate.0, 40), Ok(()));
    assert_eq!(
        p.candidates(candidate.0),
        Some(CandidateDetail { bond: 40, total_delegations: 0, status: ValidatorStatus::Online })
    );
    run_to_block(&mut p, 5, false);
    assert_eq!(p.delegate_candidate(delegator_1.0, candidate.0, delegated_amount_1), Ok(()));
    run_to_block(&mut p, 10, false);
    assert_eq!(p.delegate_candidate(delegator_2.0, candidate.0, delegated_amount_2), Ok(()));
    run_to_block(&mut p, 20, false);
    assert_eq!(p.delegate_candidate(delegator_3.0, candidate.0, delegated_amount_3), Ok(()));
    assert_eq!(p.candidate_delegators(candidate.0).len(), 3);
    run_to_block(&mut p, 100, false);
    assert_eq!(p.delegate_candidate(delegator_1.0, candidate.0, delegated_amount_1), Ok(()));
    assert_eq!(p.force_deregister_candidate(candidate.0), Ok(()));
    assert_eq!(
        p.events.last(),
        Some(&Event::CandidateRegistrationRemoved { candidate_id: candidate.0 })
    );
    assert_eq!(p.candidates(candidate.0), None);
    assert_eq!(p.candidate_count(), 0);
    assert_eq!(p.candidate_delegators(candidate.0), Vec::<u64>::new());
    assert_eq!(p.delegation_infos(delegator_1.0, candidate.0), None);
    assert_eq!(p.delegate_count_of(delegator_1.0), 0);
    assert_eq!(p.free_balance(candidate.0), candidate.1);
    assert_eq!(p.balance_on_hold(HoldReason::CandidateBondReserved, candidate.0), 0);
}

#[test]
fn force_deregister_candidate_should_ok_deregister_all_candidates_sucessfully() {
    let mut config = default_config();
    config.min_delegate_amount = 100;
    let mut p = build_default(config, 999);
    p.config.max_delegate_count = 100;
    run_to_block(&mut p, 1010, true);
    let delegated_amount = 101u128;
    let genesis = default_active_set();
    for (indx, (candidate, _)) in genesis.iter().enumerate() {
        assert_eq!(p.delegate_candidate(ACCOUNT_6.0, *candidate, delegated_amount), Ok(()));
        assert_eq!(p.delegate_count_of(ACCOUNT_6.0), (indx + 1) as u32);
        assert_eq!(
            p.delegation_infos(ACCOUNT_6.0, *candidate),
            Some(DelegationInfo { amount: delegated_amount })
        );
        assert_eq!(
            p.free_balance(ACCOUNT_6.0),
            ACCOUNT_6.1 - delegated_amount * (indx + 1) as u128
        );
        assert_eq!(
            p.balance_on_hold(HoldReason::DelegateAmountReserved, ACCOUNT_6.0),
            delegated_amount * (indx + 1) as u128
        );
    }
    for (indx, (candidate, _)) in genesis.iter().enumerate() {
        assert_eq!(p.force_deregister_candidate(*candidate), Ok(()));
        assert_eq!(
            p.events.last(),
            Some(&Event::CandidateRegistrationRemoved { candidate_id: *candidate })
        );
        assert_eq!(p.candidates(*candidate), None);
        assert_eq!(p.candidate_count(), genesis.len() - (indx + 1));
        assert_eq!(p.candidate_delegators(*candidate), Vec::<u64>::new());
        assert_eq!(p.delegation_infos(ACCOUNT_6.0, *candidate), None);
        assert_eq!(p.delegate_count_of(ACCOUNT_6.0), (genesis.len() - (indx + 1)) as u32);
        let total_delegated_amount = delegated_amount * ((genesis.len() - (indx + 1)) as u128);
        assert_eq!(p.free_balance(ACCOUNT_6.0), ACCOUNT_6.1 - total_delegated_amount);
        assert_eq!(
            p.balance_on_hold(HoldReason::DelegateAmountReserved, ACCOUNT_6.0),
            total_delegated_amount
        );
    }
}
