//! Scheduled deregistration driven through the default genesis state.
#![allow(dead_code)]

use dpos::pallet::{Config, Pallet};
use dpos::types::{
    CandidateDetail, DelayActionType, DelegationInfo, Error, Event, HoldReason, ValidatorStatus,
};

pub const TEST_BLOCKS_PER_EPOCH: u64 = 20;
pub const TEN_THOUSAND_BALANCE: u128 = 10_0000;
pub const REGISTRATION_HOLD_AMOUNT: u128 = 200;

pub const ACCOUNT_1: (u64, u128) = (1, 10);
pub const ACCOUNT_2: (u64, u128) = (2, 20);
pub const ACCOUNT_3: (u64, u128) = (3, 300);
pub const ACCOUNT_4: (u64, u128) = (4, 400);
pub const ACCOUNT_5: (u64, u128) = (5, 500);
pub const ACCOUNT_6: (u64, u128) = (6, 10_000);
pub const CANDIDATE_1: (u64, u128) = (101, TEN_THOUSAND_BALANCE);
pub const CANDIDATE_2: (u64, u128) = (102, TEN_THOUSAND_BALANCE);
pub const CANDIDATE_3: (u64, u128) = (103, TEN_THOUSAND_BALANCE);
pub const CANDIDATE_4: (u64, u128) = (104, TEN_THOUSAND_BALANCE);
pub const CANDIDATE_5: (u64, u128) = (105, TEN_THOUSAND_BALANCE);
pub const CANDIDATE_6: (u64, u128) = (106, TEN_THOUSAND_BALANCE);
pub const CANDIDATE_7: (u64, u128) = (107, TEN_THOUSAND_BALANCE);
pub const CANDIDATE_8: (u64, u128) = (108, TEN_THOUSAND_BALANCE);
pub const CANDIDATE_9: (u64, u128) = (109, TEN_THOUSAND_BALANCE);
pub const CANDIDATE_10: (u64, u128) = (110, TEN_THOUSAND_BALANCE);
pub const CANDIDATE_11: (u64, u128) = (111, TEN_THOUSAND_BALANCE);
pub const CANDIDATE_12: (u64, u128) = (112, TEN_THOUSAND_BALANCE);
pub const CANDIDATE_13: (u64, u128) = (113, TEN_THOUSAND_BALANCE);
pub const CANDIDATE_14: (u64, u128) = (114, TEN_THOUSAND_BALANCE);

pub fn default_config() -> Config {
    Config {
        max_candidates: 200,
        max_candidate_delegators: 5,
        max_active_validators: 10,
        min_active_validators: 1,
        max_delegate_count: 20,
        min_candidate_bond: 10,
        min_delegate_amount: 10,
        epoch_duration: TEST_BLOCKS_PER_EPOCH,
        delay_deregister_candidate_duration: TEST_BLOCKS_PER_EPOCH,
        delay_undelegate_candidate: TEST_BLOCKS_PER_EPOCH,
        author_commission: 3,
        delegator_commission: 1,
    }
}

pub fn default_active_set() -> Vec<(u64, u128)> {
    vec![
        (CANDIDATE_1.0, REGISTRATION_HOLD_AMOUNT),
        (CANDIDATE_4.0, REGISTRATION_HOLD_AMOUNT * 3),
        (CANDIDATE_11.0, REGISTRATION_HOLD_AMOUNT * 6),
        (CANDIDATE_12.0, REGISTRATION_HOLD_AMOUNT * 6),
        (CANDIDATE_5.0, REGISTRATION_HOLD_AMOUNT * 3),
        (CANDIDATE_6.0, REGISTRATION_HOLD_AMOUNT * 4),
        (CANDIDATE_7.0, REGISTRATION_HOLD_AMOUNT * 4),
        (CANDIDATE_13.0, REGISTRATION_HOLD_AMOUNT * 7),
        (CANDIDATE_2.0, REGISTRATION_HOLD_AMOUNT * 2),
        (CANDIDATE_3.0, REGISTRATION_HOLD_AMOUNT * 2),
        (CANDIDATE_14.0, REGISTRATION_HOLD_AMOUNT * 7),
        (CANDIDATE_8.0, REGISTRATION_HOLD_AMOUNT * 5),
        (CANDIDATE_9.0, REGISTRATION_HOLD_AMOUNT * 5),
        (CANDIDATE_10.0, REGISTRATION_HOLD_AMOUNT * 6),
    ]
}

pub fn endow(p: &mut Pallet) {
    let accounts: Vec<(u64, u128)> = vec![
        ACCOUNT_1,
        ACCOUNT_2,
        ACCOUNT_3,
        ACCOUNT_4,
        ACCOUNT_5,
        ACCOUNT_6,
        CANDIDATE_1,
        CANDIDATE_2,
        CANDIDATE_3,
        CANDIDATE_4,
        CANDIDATE_5,
        CANDIDATE_6,
        CANDIDATE_7,
        CANDIDATE_8,
        CANDIDATE_9,
        CANDIDATE_10,
        CANDIDATE_11,
        CANDIDATE_12,
        CANDIDATE_13,
        CANDIDATE_14,
        (999, 1_000_000_000_000),
    ];
    for (id, balance) in accounts {
        p.set_free_balance(id, balance);
    }
}

pub fn find_author(p: &Pallet, n: u64) -> Option<u64> {
    let actives = p.active_validators();
    if actives.is_empty() {
        return None;
    }
    Some(actives[(n % (actives.len() as u64)) as usize].0)
}

pub fn on_init(p: &mut Pallet, n: u64) {
    let author = find_author(p, n);
    p.on_initialize(n, author);
}

pub fn next_block(p: &mut Pallet, rewards: bool) {
    let n = p.block_number + 1;
    p.set_block_number(n);
    if rewards {
        on_init(p, n);
    }
}

pub fn run_to_block(p: &mut Pallet, n: u64, rewards: bool) {
    while p.block_number < n {
        next_block(p, rewards);
    }
}

pub fn build(config: Config, balance_rate: u32, genesis: &[(u64, u128)]) -> Pallet {
    let mut p = Pallet::new(config, balance_rate).unwrap();
    endow(&mut p);
    for &(candidate, bond) in genesis {
        p.register_as_candidate(candidate, bond).unwrap();
    }
    p.establish_active_set();
    p.set_block_number(1);
    on_init(&mut p, 1);
    p
}

pub fn build_default(config: Config, balance_rate: u32) -> Pallet {
    let genesis = default_active_set();
    build(config, balance_rate, &genesis)
}

pub fn register_new_candidate(p: &mut Pallet, candidate: u64, balance: u128, hold_amount: u128) {
    assert_eq!(p.register_as_candidate(candidate, hold_amount), Ok(()));
    assert_eq!(
        p.candidates(candidate),
        Some(CandidateDetail {
            bond: hold_amount,
            total_delegations: 0,
            status: ValidatorStatus::Online
        })
    );
    assert_eq!(p.free_balance(candidate), balance - hold_amount);
    assert_eq!(p.total_balance_on_hold(candidate), hold_amount);
    assert_eq!(
        p.balance_on_hold(HoldReason::CandidateBondReserved, candidate),
        hold_amount
    );
    assert_eq!(p.candidate_delegators(candidate), Vec::<u64>::new());
    assert_eq!(
        p.events.last(),
        Some(&Event::CandidateRegistered { candidate_id: candidate, initial_bond: hold_amount })
    );
    assert!(p.do_try_state());
}

pub fn delegate_candidate_helper(p: &mut Pallet, delegator: u64, candidate: u64, amount: u128) {
    let before_balance = p.free_balance(delegator);
    let before_hold = p.total_balance_on_hold(delegator);
    let before_delegation = p.delegation_infos(delegator, candidate);
    assert_eq!(p.delegate_candidate(delegator, candidate, amount), Ok(()));
    assert_eq!(p.delegate_count_of(delegator), 1);
    if let Some(info) = before_delegation {
        assert_eq!(
            p.delegation_infos(delegator, candidate),
            Some(DelegationInfo { amount: info.amount + amount })
        );
    }
    assert_eq!(p.free_balance(delegator), before_balance - amount);
    assert_eq!(p.total_balance_on_hold(delegator), before_hold + amount);
    assert!(p.do_try_state());
}

pub fn author_commission() -> u32 {
    3
}

pub fn delegator_commission() -> u32 {
    1
}

pub fn deregister_request(p: &Pallet, who: u64) -> Option<dpos::types::DelayActionRequest> {
    p.delay_action_requests(who, DelayActionType::CandidateLeaved)
}

pub fn undelegate_request(p: &Pallet, who: u64) -> Option<dpos::types::DelayActionRequest> {
    p.delay_action_requests(who, DelayActionType::CandidateUndelegated)
}

#[test]
fn delay_deregister_candidate_should_failed_no_candidate_found() {
    let mut p = build_default(default_config(), 999);
    assert_eq!(p.delay_deregister_candidate(ACCOUNT_1.0), Err(Error::CandidateDoesNotExist));
}

#[test]
fn delay_deregister_candidate_should_ok_delay_deregister_sucessfully() {
    let mut p = build_default(default_config(), 999);
    let (succes_acc, bond) = ACCOUNT_2;
    let hold_amount = 15;
    run_to_block(&mut p, 10, true);
    assert_eq!(p.register_as_candidate(succes_acc, hold_amount), Ok(()));
    assert_eq!(p.delay_deregister_candidate(succes_acc), Ok(()));
    let request = deregister_request(&p, succes_acc).unwrap();
    assert_eq!(request.amount, None);
    assert_eq!(request.created_at, 10);
    assert_eq!(request.delay_for, TEST_BLOCKS_PER_EPOCH);
    assert_eq!(request.target, None);
    run_to_block(&mut p, 10 + TEST_BLOCKS_PER_EPOCH * 2, true);
    assert_eq!(p.execute_deregister_candidate(succes_acc), Ok(()));
    assert_eq!(p.candidates(succes_acc), None);
    assert_eq!(p.free_balance(succes_acc), bond);
    assert_eq!(p.total_balance_on_hold(succes_acc), 0);
}

#[test]
fn delay_deregister_candidate_should_ok_delay_deregister_all_candidates_sucessfully() {
    let mut config = default_config();
    config.min_delegate_amount = 100;
    let mut p = build_default(config, 999);
    p.config.max_delegate_count = 100;
    run_to_block(&mut p, 1010, true);
    let delegated_amount = 101u128;
    let genesis = default_active_set();
    for (indx, (candidate, _)) in genesis.iter().enumerate() {
        assert_eq!(p.delay_deregister_candidate(*candidate), Ok(()));
        let request = deregister_request(&p, *candidate).unwrap();
        assert_eq!(request.amount, None);
        assert_eq!(request.created_at, 1010);
        assert_eq!(request.delay_for, TEST_BLOCKS_PER_EPOCH);
        assert_eq!(request.target, None);
        assert_eq!(p.delegate_candidate(ACCOUNT_6.0, *candidate, delegated_amount), Ok(()));
        assert_eq!(p.delegate_count_of(ACCOUNT_6.0), (indx + 1) as u32);
        assert_eq!(
            p.delegation_infos(ACCOUNT_6.0, *candidate),
            Some(DelegationInfo { amount: delegated_amount })
        );
        assert_eq!(
            p.free_balance(ACCOUNT_6.0),
            ACCOUNT_6.1 - delegated_amount * (indx + 1) as u128
        );
    }
    run_to_block(&mut p, 1010 + TEST_BLOCKS_PER_EPOCH * 2, true);
    for (indx, (candidate, _)) in genesis.iter().enumerate() {
        assert_eq!(p.execute_deregister_candidate(*candidate), Ok(()));
        assert_eq!(
            p.events.last(),
            Some(&Event::CandidateRegistrationRemoved { candidate_id: *candidate })
        );
        assert_eq!(p.candidates(*candidate), None);
        assert_eq!(p.candidate_count(), genesis.len() - (indx + 1));
        assert_eq!(p.candidate_delegators(*candidate), Vec::<u64>::new());
        assert_eq!(p.delegation_infos(ACCOUNT_6.0, *candidate), None);
        assert_eq!(p.delegate_count_of(ACCOUNT_6.0), (genesis.len() - (indx + 1)) as u32);
    }
}

#[test]
fn should_failed_delay_deregister_candidates_behinds_due_date() {
    let mut config = default_config();
    config.min_delegate_amount = 100;
    let mut p = build_default(config, 999);
    p.config.max_delegate_count = 100;
    run_to_block(&mut p, 1010, true);
    let delegated_amount = 101u128;
    let genesis = default_active_set();
    for (indx, (candidate, _)) in genesis.iter().enumerate() {
        assert_eq!(p.delay_deregister_candidate(*candidate), Ok(()));
        let request = deregister_request(&p, *candidate).unwrap();
        assert_eq!(request.created_at, 1010);
        assert_eq!(request.delay_for, TEST_BLOCKS_PER_EPOCH);
        assert_eq!(p.delegate_candidate(ACCOUNT_6.0, *candidate, delegated_amount), Ok(()));
        assert_eq!(p.delegate_count_of(ACCOUNT_6.0), (indx + 1) as u32);
    }
    run_to_block(&mut p, 1010 + TEST_BLOCKS_PER_EPOCH / 2, true);
    for (_indx, (candidate, _)) in genesis.iter().enumerate() {
        assert_eq!(
            p.execute_deregister_candidate(*candidate),
            Err(Error::ActionIsStillInDelayDuration)
        );
        assert_eq!(p.candidate_count(), genesis.len());
        let request = deregister_request(&p, *candidate).unwrap();
        assert_eq!(request.created_at, 1010);
        assert_eq!(request.delay_for, TEST_BLOCKS_PER_EPOCH);
    }
}

#[test]
fn delay_deregister_candidate_should_ok_cancel_deregister_candidate_requests() {
    let mut config = default_config();
    config.min_delegate_amount = 100;
    let mut p = build_default(config, 999);
    p.config.max_delegate_count = 100;
    run_to_block(&mut p, 1010, true);
    let delegated_amount = 101u128;
    let genesis = default_active_set();
    for (_indx, (candidate, _)) in genesis.iter().enumerate() {
        assert_eq!(p.delay_deregister_candidate(*candidate), Ok(()));
        assert_eq!(p.delegate_candidate(ACCOUNT_6.0, *candidate, delegated_amount), Ok(()));
    }
    run_to_block(&mut p, 1010 + TEST_BLOCKS_PER_EPOCH / 2, true);
    for (_indx, (candidate, bond)) in genesis.iter().enumerate() {
        assert_eq!(p.cancel_deregister_candidate_request(*candidate), Ok(()));
        assert_eq!(
            p.candidates(*candidate),
            Some(CandidateDetail {
                bond: *bond,
                total_delegations: delegated_amount,
                status: ValidatorStatus::Online
            })
        );
        assert_eq!(deregister_request(&p, *candidate), None);
    }
}

#[test]
fn delay_deregister_candidate_should_failed_cancel_not_found_delay_action_request() {
    let mut p = build_default(default_config(), 999);
    let (succes_acc, _) = ACCOUNT_2;
    let hold_amount = 15;
    run_to_block(&mut p, 10, true);
    assert_eq!(p.register_as_candidate(succes_acc, hold_amount), Ok(()));
    assert_eq!(p.delay_deregister_candidate(succes_acc), Ok(()));
    let request = deregister_request(&p, succes_acc).unwrap();
    assert_eq!(request.amount, None);
    assert_eq!(request.created_at, 10);
    assert_eq!(request.delay_for, TEST_BLOCKS_PER_EPOCH);
    assert_eq!(request.target, None);
    run_to_block(&mut p, TEST_BLOCKS_PER_EPOCH * 2, true);
    assert_eq!(
        p.cancel_deregister_candidate_request(ACCOUNT_3.0),
        Err(Error::NoDelayActionRequestFound)
    );
}
