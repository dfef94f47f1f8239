//! Plain data types of the staking core: candidate records, delegation
//! records, delayed-action requests, events and errors.

use vstd::prelude::*;

use crate::{AccountId, Balance, BlockNumber};

verus! {

/// Whether a candidate takes part in the next validator election.
///
/// A candidate is `Offline` exactly while a deregistration request of theirs
/// is pending; an offline candidate is skipped by the election.
#[derive(Clone, Copy, Debug, PartialEq, Eq, Structural)]
pub enum ValidatorStatus {
    Online,
    Offline,
}

/// A registered candidate: its own bond, the total stake delegated to it, and
/// its election status.
#[derive(Clone, Copy, Debug, PartialEq, Eq, Structural)]
pub struct CandidateDetail {
    pub bond: Balance,
    pub total_delegations: Balance,
    pub status: ValidatorStatus,
}

impl CandidateDetail {
    /// A fresh candidate record with the given bond and no delegations.
    pub fn new(bond: Balance) -> (r: CandidateDetail)
        ensures
            r == (CandidateDetail {
                bond,
                total_delegations: 0,
                status: ValidatorStatus::Online,
            }),
    {
        CandidateDetail { total_delegations: 0, bond, status: ValidatorStatus::Online }
    }

    /// Adds newly delegated stake; fails on arithmetic overflow.
    pub fn add_delegated_amount(&mut self, amount: Balance) -> (r: Result<Balance, Error>)
        ensures
            old(self).total_delegations + amount <= Balance::MAX ==> {
                &&& r == Ok::<Balance, Error>(
                    (old(self).total_delegations + amount) as Balance,
                )
                &&& *final(self) == (CandidateDetail {
                    total_delegations: (old(self).total_delegations + amount) as Balance,
                    ..*old(self)
                })
            },
            old(self).total_delegations + amount > Balance::MAX ==> {
                &&& r == Err::<Balance, Error>(Error::ArithmeticOverflow)
                &&& *final(self) == *old(self)
            },
    {
        match self.total_delegations.checked_add(amount) {
            Some(total) => {
                self.total_delegations = total;
                Ok(total)
            },
            None => Err(Error::ArithmeticOverflow),
        }
    }

    /// Removes undelegated stake; fails if more than the current total.
    pub fn sub_delegated_amount(&mut self, amount: Balance) -> (r: Result<Balance, Error>)
        ensures
            amount <= old(self).total_delegations ==> {
                &&& r == Ok::<Balance, Error>(
                    (old(self).total_delegations - amount) as Balance,
                )
                &&& *final(self) == (CandidateDetail {
                    total_delegations: (old(self).total_delegations - amount) as Balance,
                    ..*old(self)
                })
            },
            amount > old(self).total_delegations ==> {
                &&& r == Err::<Balance, Error>(Error::ArithmeticOverflow)
                &&& *final(self) == *old(self)
            },
    {
        match self.total_delegations.checked_sub(amount) {
            Some(total) => {
                self.total_delegations = total;
                Ok(total)
            },
            None => Err(Error::ArithmeticOverflow),
        }
    }

    /// Replaces the candidate's own bond.
    pub fn update_bond(&mut self, bond: Balance)
        ensures
            *final(self) == (CandidateDetail { bond, ..*old(self) }),
    {
        self.bond = bond;
    }

    /// Total stake behind the candidate: own bond plus delegations, saturating.
    pub fn total(&self) -> (r: Balance)
        ensures
            r == spec_total_stake(self.bond, self.total_delegations),
    {
        if self.total_delegations <= Balance::MAX - self.bond {
            self.total_delegations + self.bond
        } else {
            Balance::MAX
        }
    }

    /// Flips the candidate between `Online` and `Offline`.
    pub fn toggle_status(&mut self)
        ensures
            old(self).status == ValidatorStatus::Online ==> *final(self) == (CandidateDetail {
                status: ValidatorStatus::Offline,
                ..*old(self)
            }),
            old(self).status == ValidatorStatus::Offline ==> *final(self) == (CandidateDetail {
                status: ValidatorStatus::Online,
                ..*old(self)
            }),
    {
        self.status = match self.status {
            ValidatorStatus::Online => ValidatorStatus::Offline,
            ValidatorStatus::Offline => ValidatorStatus::Online,
        };
    }
}

/// Bond plus delegations, saturating at the balance ceiling.
pub open spec fn spec_total_stake(bond: Balance, delegations: Balance) -> Balance {
    if bond + delegations <= Balance::MAX {
        (bond + delegations) as Balance
    } else {
        Balance::MAX
    }
}

/// One delegation: `delegator` has `amount` staked on `candidate`.
#[derive(Clone, Copy, Debug, PartialEq, Eq, Structural)]
pub struct DelegationInfo {
    pub amount: Balance,
}

impl DelegationInfo {
    /// A fresh delegation record over the given amount.
    pub fn default(amount: Balance) -> (r: DelegationInfo)
        ensures
            r == (DelegationInfo { amount }),
    {
        DelegationInfo { amount }
    }

    /// Replaces the delegated amount.
    pub fn update_delegated_amount(&mut self, amount: Balance)
        ensures
            *final(self) == (DelegationInfo { amount }),
    {
        self.amount = amount;
    }
}

/// The two delayed actions a requester can schedule, at most one of each.
#[derive(Clone, Copy, Debug, PartialEq, Eq, Structural)]
pub enum DelayActionType {
    /// Leave the candidate pool (deregistration).
    CandidateLeaved,
    /// Withdraw part or all of a delegation.
    CandidateUndelegated,
}

/// A pending delayed action.  It may be executed once
/// `now - created_at >= delay_for`, or cancelled at any time before that.
#[derive(Clone, Copy, Debug, PartialEq, Eq, Structural)]
pub struct DelayActionRequest {
    /// Block at which the request was scheduled.
    pub created_at: BlockNumber,
    /// Number of blocks the request must wait before execution.
    pub delay_for: BlockNumber,
    /// The candidate an undelegation is aimed at; `None` for deregistration.
    pub target: Option<AccountId>,
    /// The amount an undelegation withdraws; `None` for deregistration.
    pub amount: Option<Balance>,
}

/// The reason funds are held in escrow.
#[derive(Clone, Copy, Debug, PartialEq, Eq, Structural)]
pub enum HoldReason {
    /// The candidate's own registration bond.
    CandidateBondReserved,
    /// Stake delegated to a candidate.
    DelegateAmountReserved,
}

/// Everything that can go wrong in a staking operation.
#[derive(Clone, Copy, Debug, PartialEq, Eq, Structural)]
pub enum Error {
    /// The candidate pool is at capacity.
    TooManyValidators,
    /// The delegator already delegates to the maximum number of candidates.
    TooManyCandidateDelegations,
    /// The candidate already has the maximum number of delegators.
    TooManyDelegatorsInPool,
    /// The account is already registered as a candidate.
    CandidateAlreadyExist,
    /// The account is not registered as a candidate.
    CandidateDoesNotExist,
    /// No delegation exists between the delegator and the candidate.
    DelegationDoesNotExist,
    /// The delegated amount would fall below the configured minimum.
    BelowMinimumDelegateAmount,
    /// The candidate bond would fall below the configured minimum.
    BelowMinimumCandidateBond,
    /// The undelegated amount exceeds the delegation.
    InvalidMinimumDelegateAmount,
    /// The withdrawn bond exceeds the candidate's bond.
    InvalidMinimumCandidateBond,
    /// No delayed action request exists for the requester.
    NoDelayActionRequestFound,
    /// The delayed action has not waited out its delay yet.
    ActionIsStillInDelayDuration,
    /// The account has no claimable reward.
    NoClaimableRewardFound,
    /// A delayed request lacks the fields its action needs.
    InvalidDelayActionPayload,
    /// A zero amount was supplied where a positive one is required.
    InvalidZeroAmount,
    /// The supplied rate is outside the accepted per-mille range.
    IsNotPercentage,
    /// The account's free balance cannot cover the requested escrow.
    FundsUnavailable,
    /// A checked addition or subtraction failed; an invariant is broken.
    ArithmeticOverflow,
}

/// Everything observable the staking core announces to its host.
#[derive(Clone, Copy, Debug, PartialEq, Eq, Structural)]
pub enum Event {
    CandidateRegistered { candidate_id: AccountId, initial_bond: Balance },
    CandidateMoreBondStaked { candidate_id: AccountId, additional_bond: Balance },
    CandidateLessBondStaked { candidate_id: AccountId, deducted_bond: Balance },
    CandidateBondSlashed { candidate_id: AccountId, slashed_amount: Balance },
    CandidateRegistrationRemoved { candidate_id: AccountId },
    CandidateDelegated {
        candidate_id: AccountId,
        delegated_by: AccountId,
        amount: Balance,
        total_delegated_amount: Balance,
    },
    CandidateUndelegated {
        candidate_id: AccountId,
        delegator: AccountId,
        amount: Balance,
        left_delegated_amount: Balance,
    },
    RewardClaimed { claimer: AccountId, total_reward: Balance },
    NextEpochMoved {
        last_epoch: u32,
        next_epoch: u32,
        at_block: BlockNumber,
        total_candidates: u64,
        total_validators: u64,
    },
}

} // verus!
