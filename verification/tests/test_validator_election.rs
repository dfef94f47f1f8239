//! Election, snapshots and snapshot-based reward accrual.
#![allow(dead_code)]

use dpos::pallet::{Config, Pallet};
use dpos::types::{
    CandidateDetail, DelayActionType, DelegationInfo, Error, Event, HoldReason, ValidatorStatus,
};

pub const TEST_BLOCKS_PER_EPOCH: u64 = 20;
pub const TEN_THOUSAND_BALANCE: u128 = 10_0000;
pub const REGISTRATION_HOLD_AMOUNT: u128 = 200;

pub const ACCOUNT_1: (u64, u128) = (1, 10);
pub const ACCOUNT_2: (u64, u128) = (2, 20);
pub const ACCOUNT_3: (u64, u128) = (3, 300);
pub const ACCOUNT_4: (u64, u128) = (4, 400);
pub const ACCOUNT_5: (u64, u128) = (5, 500);
pub const ACCOUNT_6: (u64, u128) = (6, 10_000);
pub const CANDIDATE_1: (u64, u128) = (101, TEN_THOUSAND_BALANCE);
pub const CANDIDATE_2: (u64, u128) = (102, TEN_THOUSAND_BALANCE);
pub const CANDIDATE_3: (u64, u128) = (103, TEN_THOUSAND_BALANCE);
pub const CANDIDATE_4: (u64, u128) = (104, TEN_THOUSAND_BALANCE);
pub const CANDIDATE_5: (u64, u128) = (105, TEN_THOUSAND_BALANCE);
pub const CANDIDATE_6: (u64, u128) = (106, TEN_THOUSAND_BALANCE);
pub const CANDIDATE_7: (u64, u128) = (107, TEN_THOUSAND_BALANCE);
pub const CANDIDATE_8: (u64, u128) = (108, TEN_THOUSAND_BALANCE);
pub const CANDIDATE_9: (u64, u128) = (109, TEN_THOUSAND_BALANCE);
pub const CANDIDATE_10: (u64, u128) = (110, TEN_THOUSAND_BALANCE);
pub const CANDIDATE_11: (u64, u128) = (111, TEN_THOUSAND_BALANCE);
pub const CANDIDATE_12: (u64, u128) = (112, TEN_THOUSAND_BALANCE);
pub const CANDIDATE_13: (u64, u128) = (113, TEN_THOUSAND_BALANCE);
pub const CANDIDATE_14: (u64, u128) = (114, TEN_THOUSAND_BALANCE);

pub fn default_config() -> Config {
    Config {
        max_candidates: 200,
        max_candidate_delegators: 5,
        max_active_validators: 10,
        min_active_validators: 1,
        max_delegate_count: 20,
        min_candidate_bond: 10,
        min_delegate_amount: 10,
        epoch_duration: TEST_BLOCKS_PER_EPOCH,
        delay_deregister_candidate_duration: TEST_BLOCKS_PER_EPOCH,
        delay_undelegate_candidate: TEST_BLOCKS_PER_EPOCH,
        author_commission: 3,
        delegator_commission: 1,
    }
}

pub fn default_active_set() -> Vec<(u64, u128)> {
    vec![
        (CANDIDATE_1.0, REGISTRATION_HOLD_AMOUNT),
        (CANDIDATE_4.0, REGISTRATION_HOLD_AMOUNT * 3),
        (CANDIDATE_11.0, REGISTRATION_HOLD_AMOUNT * 6),
        (CANDIDATE_12.0, REGISTRATION_HOLD_AMOUNT * 6),
        (CANDIDATE_5.0, REGISTRATION_HOLD_AMOUNT * 3),
        (CANDIDATE_6.0, REGISTRATION_HOLD_AMOUNT * 4),
        (CANDIDATE_7.0, REGISTRATION_HOLD_AMOUNT * 4),
        (CANDIDATE_13.0, REGISTRATION_HOLD_AMOUNT * 7),
        (CANDIDATE_2.0, REGISTRATION_HOLD_AMOUNT * 2),
        (CANDIDATE_3.0, REGISTRATION_HOLD_AMOUNT * 2),
        (CANDIDATE_14.0, REGISTRATION_HOLD_AMOUNT * 7),
        (CANDIDATE_8.0, REGISTRATION_HOLD_AMOUNT * 5),
        (CANDIDATE_9.0, REGISTRATION_HOLD_AMOUNT * 5),
        (CANDIDATE_10.0, REGISTRATION_HOLD_AMOUNT * 6),
    ]
}

pub fn endow(p: &mut Pallet) {
    let accounts: Vec<(u64, u128)> = vec![
        ACCOUNT_1,
        ACCOUNT_2,
        ACCOUNT_3,
        ACCOUNT_4,
        ACCOUNT_5,
        ACCOUNT_6,
        CANDIDATE_1,
        CANDIDATE_2,
        CANDIDATE_3,
        CANDIDATE_4,
        CANDIDATE_5,
        CANDIDATE_6,
        CANDIDATE_7,
        CANDIDATE_8,
        CANDIDATE_9,
        CANDIDATE_10,
        CANDIDATE_11,
        CANDIDATE_12,
        CANDIDATE_13,
        CANDIDATE_14,
        (999, 1_000_000_000_000),
    ];
    for (id, balance) in accounts {
        p.set_free_balance(id, balance);
    }
}

pub fn find_author(p: &Pallet, n: u64) -> Option<u64> {
    let actives = p.active_validators();
    if actives.is_empty() {
        return None;
    }
    Some(actives[(n % (actives.len() as u64)) as usize].0)
}

pub fn on_init(p: &mut Pallet, n: u64) {
    let author = find_author(p, n);
    p.on_initialize(n, author);
}

pub fn next_block(p: &mut Pallet, rewards: bool) {
    let n = p.block_number + 1;
    p.set_block_number(n);
    if rewards {
        on_init(p, n);
    }
}

pub fn run_to_block(p: &mut Pallet, n: u64, rewards: bool) {
    while p.block_number < n {
        next_block(p, rewards);
    }
}

pub fn build(config: Config, balance_rate: u32, genesis: &[(u64, u128)]) -> Pallet {
    let mut p = Pallet::new(config, balance_rate).unwrap();
    endow(&mut p);
    for &(candidate, bond) in genesis {
        p.register_as_candidate(candidate, bond).unwrap();
    }
    p.establish_active_set();
    p.set_block_number(1);
    on_init(&mut p, 1);
    p
}

pub fn build_default(config: Config, balance_rate: u32) -> Pallet {
    let genesis = default_active_set();
    build(config, balance_rate, &genesis)
}

pub fn register_new_candidate(p: &mut Pallet, candidate: u64, balance: u128, hold_amount: u128) {
    assert_eq!(p.register_as_candidate(candidate, hold_amount), Ok(()));
    assert_eq!(
        p.candidates(candidate),
        Some(CandidateDetail {
            bond: hold_amount,
            total_delegations: 0,
            status: ValidatorStatus::Online
        })
    );
    assert_eq!(p.free_balance(candidate), balance - hold_amount);
    assert_eq!(p.total_balance_on_hold(candidate), hold_amount);
    assert_eq!(
        p.balance_on_hold(HoldReason::CandidateBondReserved, candidate),
        hold_amount
    );
    assert_eq!(p.candidate_delegators(candidate), Vec::<u64>::new());
    assert_eq!(
        p.events.last(),
        Some(&Event::CandidateRegistered { candidate_id: candidate, initial_bond: hold_amount })
    );
    assert!(p.do_try_state());
}

pub fn delegate_candidate_helper(p: &mut Pallet, delegator: u64, candidate: u64, amount: u128) {
    let before_balance = p.free_balance(delegator);
    let before_hold = p.total_balance_on_hold(delegator);
    let before_delegation = p.delegation_infos(delegator, candidate);
    assert_eq!(p.delegate_candidate(delegator, candidate, amount), Ok(()));
    assert_eq!(p.delegate_count_of(delegator), 1);
    if let Some(info) = before_delegation {
        assert_eq!(
            p.delegation_infos(delegator, candidate),
            Some(DelegationInfo { amount: info.amount + amount })
        );
    }
    assert_eq!(p.free_balance(delegator), before_balance - amount);
    assert_eq!(p.total_balance_on_hold(delegator), before_hold + amount);
    assert!(p.do_try_state());
}

pub fn author_commission() -> u32 {
    3
}

pub fn delegator_commission() -> u32 {
    1
}

pub fn deregister_request(p: &Pallet, who: u64) -> Option<dpos::types::DelayActionRequest> {
    p.delay_action_requests(who, DelayActionType::CandidateLeaved)
}

pub fn undelegate_request(p: &Pallet, who: u64) -> Option<dpos::types::DelayActionRequest> {
    p.delay_action_requests(who, DelayActionType::CandidateUndelegated)
}

fn is_sorted_by_stake_desc(validators: &[(u64, u128, u128)]) -> bool {
    validators.windows(2).all(|w| w[0].2 >= w[1].2)
}

#[test]
fn test_validator_election_should_ok_return_sorted_winner_list() {
    let mut p = build_default(default_config(), 999);
    let active_validator_set = p.select_active_validator_set();
    assert!(is_sorted_by_stake_desc(&active_validator_set));
    run_to_block(&mut p, TEST_BLOCKS_PER_EPOCH, true);
    assert_eq!(p.active_validators(), active_validator_set);
}

#[test]
fn should_ok_epoch_snapshot_is_correct() {
    let mut p = build_default(default_config(), 999);
    let active_validator_set = p.select_active_validator_set();
    let captured = p.capture_epoch_snapshot(&active_validator_set);
    assert!(p.has_epoch_snapshot());
    assert_eq!(
        p.last_epoch_snapshot_validator_count(),
        active_validator_set.len()
    );
    for (validator, bond, _) in &active_validator_set {
        assert_eq!(captured.validators.get(*validator), Some(*bond));
        assert_eq!(p.last_epoch_snapshot_bond(*validator), Some(*bond));
    }
    assert_eq!(p.last_epoch_snapshot_delegation_count(), captured.delegations.len());
}

#[test]
fn should_ok_epoch_snapshot_update_with_new_candidates() {
    let mut config = default_config();
    config.max_candidates = 100;
    config.min_active_validators = 2;
    let genesis = [
        (CANDIDATE_1.0, 300u128),
        (CANDIDATE_2.0, 300u128),
        (CANDIDATE_3.0, 300u128),
    ];
    let mut p = build(config, 999, &genesis);
    run_to_block(&mut p, 2, true);
    assert_eq!(p.last_epoch_snapshot_bond(CANDIDATE_1.0), Some(300));
    assert_eq!(p.last_epoch_snapshot_bond(CANDIDATE_2.0), Some(300));
    assert_eq!(p.last_epoch_snapshot_bond(CANDIDATE_3.0), Some(300));
    assert_eq!(p.last_epoch_snapshot_delegation_count(), 0);
    assert_eq!(p.last_epoch_snapshot_bond(CANDIDATE_4.0), None);
    register_new_candidate(&mut p, CANDIDATE_4.0, CANDIDATE_4.1, 500);
    run_to_block(&mut p, TEST_BLOCKS_PER_EPOCH, true);
    assert_eq!(p.last_epoch_snapshot_bond(CANDIDATE_4.0), Some(500));
    register_new_candidate(&mut p, CANDIDATE_5.0, CANDIDATE_5.1, 600);
    assert_eq!(p.last_epoch_snapshot_bond(CANDIDATE_5.0), None);
    run_to_block(&mut p, TEST_BLOCKS_PER_EPOCH * 2, true);
    assert_eq!(p.last_epoch_snapshot_bond(CANDIDATE_5.0), Some(600));
}

#[test]
fn should_ok_reward_distributed_for_validators() {
    let mut p = build_default(default_config(), 100);
    let active_validator_set = p.select_active_validator_set();
    assert!(p.active_validators().len() > 0);
    assert_eq!(p.active_validators(), active_validator_set);
    for (validator, bond, _) in &active_validator_set {
        assert_eq!(p.last_epoch_snapshot_bond(*validator), Some(*bond));
    }
    let mut epoch_rewards: Vec<u128> = vec![0; active_validator_set.len()];
    let rounds = 20;
    let epochs = rounds * TEST_BLOCKS_PER_EPOCH;
    for round in 0..epochs {
        let maybe_author = find_author(&p, p.block_number);
        let actives = p.active_validators();
        for (indx, (active_validator, bond, _)) in actives.iter().enumerate() {
            if Some(*active_validator) == maybe_author {
                let captured = p.capture_epoch_snapshot(&actives);
                assert_eq!(captured.validators.get(*active_validator), Some(*bond));
                epoch_rewards[indx] += p.calculate_reward(*bond, author_commission());
            }
            if round % TEST_BLOCKS_PER_EPOCH == 0 {
                assert_eq!(p.reward_points_of(*active_validator), epoch_rewards[indx]);
            }
        }
        next_block(&mut p, true);
    }
}

#[test]
fn should_ok_only_top_validators_can_produce_and_receive_rewards() {
    let mut config = default_config();
    config.min_candidate_bond = 100;
    config.max_active_validators = 3;
    config.epoch_duration = 3;
    let mut p = build(config, 100, &[]);
    assert_eq!(p.block_number, 1);
    register_new_candidate(&mut p, CANDIDATE_1.0, CANDIDATE_1.1, 200);
    register_new_candidate(&mut p, CANDIDATE_2.0, CANDIDATE_2.1, 300);
    register_new_candidate(&mut p, CANDIDATE_3.0, CANDIDATE_3.1, 400);
    assert_eq!(p.reward_points_of(CANDIDATE_1.0), 0);
    assert_eq!(p.reward_points_of(CANDIDATE_2.0), 0);
    assert_eq!(p.reward_points_of(CANDIDATE_3.0), 0);
    run_to_block(&mut p, 4, true);
    assert_eq!(p.reward_points_of(CANDIDATE_1.0), 0);
    assert_eq!(
        p.reward_points_of(CANDIDATE_2.0),
        p.calculate_reward(300, author_commission())
    );
    assert_eq!(p.reward_points_of(CANDIDATE_3.0), 0);
    next_block(&mut p, true);
    next_block(&mut p, true);
    assert_eq!(p.active_validators().len(), 3);
    assert_eq!(
        p.reward_points_of(CANDIDATE_1.0),
        p.calculate_reward(200, author_commission())
    );
    assert_eq!(
        p.reward_points_of(CANDIDATE_2.0),
        p.calculate_reward(300, author_commission())
    );
    assert_eq!(
        p.reward_points_of(CANDIDATE_3.0),
        p.calculate_reward(400, author_commission())
    );
    register_new_candidate(&mut p, CANDIDATE_4.0, CANDIDATE_4.1, 500);
    register_new_candidate(&mut p, CANDIDATE_5.0, CANDIDATE_5.1, 600);
    register_new_candidate(&mut p, CANDIDATE_6.0, CANDIDATE_6.1, 700);
    next_block(&mut p, true);
    next_block(&mut p, true);
    assert_eq!(
        p.reward_points_of(CANDIDATE_1.0),
        p.calculate_reward(200, author_commission() * 2)
    );
    assert_eq!(
        p.reward_points_of(CANDIDATE_2.0),
        p.calculate_reward(300, author_commission() * 2)
    );
    assert_eq!(
        p.reward_points_of(CANDIDATE_3.0),
        p.calculate_reward(400, author_commission())
    );
    assert_eq!(p.reward_points_of(CANDIDATE_4.0), 0);
    assert_eq!(p.reward_points_of(CANDIDATE_5.0), 0);
    assert_eq!(p.reward_points_of(CANDIDATE_6.0), 0);
    next_block(&mut p, true);
    assert_eq!(p.active_validators().len(), 3);
    assert_eq!(
        p.reward_points_of(CANDIDATE_1.0),
        p.calculate_reward(200, author_commission() * 2)
    );
    assert_eq!(
        p.reward_points_of(CANDIDATE_2.0),
        p.calculate_reward(300, author_commission() * 2)
    );
    assert_eq!(
        p.reward_points_of(CANDIDATE_3.0),
        p.calculate_reward(400, author_commission() * 2)
    );
    assert_eq!(p.reward_points_of(CANDIDATE_4.0), 0);
    assert_eq!(p.reward_points_of(CANDIDATE_5.0), 0);
    assert_eq!(p.reward_points_of(CANDIDATE_6.0), 0);
    next_block(&mut p, true);
    assert_eq!(p.active_validators().len(), 3);
    assert_eq!(
        p.reward_points_of(CANDIDATE_1.0),
        p.calculate_reward(200, author_commission() * 2)
    );
    assert_eq!(
        p.reward_points_of(CANDIDATE_2.0),
        p.calculate_reward(300, author_commission() * 2)
    );
    assert_eq!(
        p.reward_points_of(CANDIDATE_3.0),
        p.calculate_reward(400, author_commission() * 2)
    );
    assert_eq!(p.reward_points_of(CANDIDATE_4.0), 0);
    assert_eq!(
        p.reward_points_of(CANDIDATE_5.0),
        p.calculate_reward(600, author_commission())
    );
    assert_eq!(p.reward_points_of(CANDIDATE_6.0), 0);
    next_block(&mut p, true);
    assert_eq!(
        p.reward_points_of(CANDIDATE_1.0),
        p.calculate_reward(200, author_commission() * 2)
    );
    assert_eq!(
        p.reward_points_of(CANDIDATE_2.0),
        p.calculate_reward(300, author_commission() * 2)
    );
    assert_eq!(
        p.reward_points_of(CANDIDATE_3.0),
        p.calculate_reward(400, author_commission() * 2)
    );
    assert_eq!(
        p.reward_points_of(CANDIDATE_4.0),
        p.calculate_reward(500, author_commission())
    );
    assert_eq!(
        p.reward_points_of(CANDIDATE_5.0),
        p.calculate_reward(600, author_commission())
    );
    assert_eq!(p.reward_points_of(CANDIDATE_6.0), 0);
    next_block(&mut p, true);
    assert_eq!(
        p.reward_points_of(CANDIDATE_6.0),
        p.calculate_reward(700, author_commission())
    );
    next_block(&mut p, true);
    assert_eq!(
        p.reward_points_of(CANDIDATE_5.0),
        p.calculate_reward(600, author_commission()) * 2
    );
    assert_eq!(
        p.reward_points_of(CANDIDATE_6.0),
        p.calculate_reward(700, author_commission())
    );
}

#[test]
fn should_ok_reward_distributed_for_validators_and_delegators() {
    let mut config = default_config();
    config.min_candidate_bond = 100;
    config.epoch_duration = 3;
    let mut p = build(config, 100, &[]);
    assert_eq!(p.block_number, 1);
    register_new_candidate(&mut p, CANDIDATE_1.0, CANDIDATE_1.1, 200);
    assert_eq!(p.reward_points_of(CANDIDATE_1.0), 0);
    next_block(&mut p, true);
    assert_eq!(p.block_number, 2);
    register_new_candidate(&mut p, CANDIDATE_2.0, CANDIDATE_2.1, 100);
    assert_eq!(p.reward_points_of(CANDIDATE_2.0), 0);
    next_block(&mut p, true);
    assert_eq!(p.block_number, 3);
    assert_eq!(p.last_epoch_snapshot_bond(CANDIDATE_1.0), Some(200));
    assert_eq!(p.last_epoch_snapshot_bond(CANDIDATE_2.0), Some(100));
    assert_eq!(p.last_epoch_snapshot_delegation_count(), 0);
    next_block(&mut p, true);
    assert_eq!(p.block_number, 4);
    assert_eq!(
        p.reward_points_of(CANDIDATE_1.0),
        p.calculate_reward(200, author_commission())
    );
    next_block(&mut p, true);
    assert_eq!(p.block_number, 5);
    assert_eq!(
        p.reward_points_of(CANDIDATE_2.0),
        p.calculate_reward(100, author_commission())
    );
    delegate_candidate_helper(&mut p, ACCOUNT_6.0, CANDIDATE_1.0, 300);
    next_block(&mut p, true);
    assert_eq!(p.block_number, 6);
    assert_eq!(p.last_epoch_snapshot_delegation(ACCOUNT_6.0, CANDIDATE_1.0), Some(300));
    assert_eq!(p.last_epoch_snapshot_bond(CANDIDATE_1.0), Some(200));
    assert_eq!(p.last_epoch_snapshot_bond(CANDIDATE_2.0), Some(100));
    assert_eq!(
        p.reward_points_of(CANDIDATE_1.0),
        p.calculate_reward(200, author_commission()) * 2
    );
    assert_eq!(p.reward_points_of(ACCOUNT_6.0), p.calculate_reward(300, 0));
    assert_eq!(p.free_balance(ACCOUNT_6.0), ACCOUNT_6.1 - 300);
    next_block(&mut p, true);
    assert_eq!(p.block_number, 7);
    assert_eq!(
        p.reward_points_of(CANDIDATE_2.0),
        p.calculate_reward(100, author_commission()) * 2
    );
    assert_eq!(p.reward_points_of(ACCOUNT_6.0), 0);
    next_block(&mut p, true);
    assert_eq!(p.block_number, 8);
    assert_eq!(
        p.reward_points_of(ACCOUNT_6.0),
        p.calculate_reward(300, delegator_commission())
    );
    assert_eq!(
        p.reward_points_of(CANDIDATE_1.0),
        p.calculate_reward(200, author_commission()) * 3
    );
    next_block(&mut p, true);
    assert_eq!(p.block_number, 9);
    next_block(&mut p, true);
    assert_eq!(p.block_number, 10);
    assert_eq!(
        p.reward_points_of(ACCOUNT_6.0),
        p.calculate_reward(300, delegator_commission()) * 2
    );
    assert_eq!(
        p.reward_points_of(CANDIDATE_2.0),
        p.calculate_reward(100, author_commission()) * 3
    );
    // Under this balance rate the composed per-cent factor floors to zero,
    // so the accrued delegator reward is zero and a claim is refused.
    assert_eq!(
        p.reward_points_of(ACCOUNT_6.0),
        p.calculate_reward(300, delegator_commission()) * 2
    );
    assert_eq!(p.claim_reward(ACCOUNT_6.0), Err(Error::NoClaimableRewardFound));
    assert_eq!(p.free_balance(ACCOUNT_6.0), ACCOUNT_6.1 - 300);
    assert_eq!(p.reward_points_of(ACCOUNT_6.0), 0);
    next_block(&mut p, true);
    assert_eq!(p.block_number, 11);
    assert_eq!(
        p.reward_points_of(CANDIDATE_1.0),
        p.calculate_reward(200, author_commission()) * 4
    );
    assert_eq!(p.reward_points_of(ACCOUNT_6.0), 0);
}

#[test]
fn test_validator_election_should_ok_round_robin_style_return_author_in_test() {
    let mut p = build_default(default_config(), 999);
    let genesis = default_active_set();
    for _ in 0..TEST_BLOCKS_PER_EPOCH {
        let maybe_author = find_author(&p, p.block_number);
        assert_ne!(maybe_author, None);
        assert!(genesis.iter().any(|(v, _)| maybe_author == Some(*v)));
        next_block(&mut p, true);
    }
}
