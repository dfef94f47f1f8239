//! Candidate registration and bonding, delegation and undelegation,
//! deregistration, reward claims and slashing.
//!
//! Every operation validates before it mutates: on an error the state is
//! exactly what it was.  Each operation's `ensures` names the error returned
//! for every rejected input — the `*_outcome` spec functions are the single
//! statement of that — and describes the successful state pointwise.

use vstd::prelude::*;

use crate::delegs::{
    count_of_delegator, dget, lemma_dget_some_exists, lemma_records_of, lemma_sum_lower_bound,
    lemma_sum_nonneg, lemma_sum_zero, records_of, sum_of_delegator, sum_to_candidate,
    DelegationRecord,
};
use crate::pallet::{
    snapshot_eq, spec_min, spec_minted_free, AccountBalance, Pallet,
};
use crate::types::{CandidateDetail, DelegationInfo, Error, Event, ValidatorStatus};
use crate::{AccountId, Balance};

verus! {

/// The registry (pool, delegations, counts) is the same in `a` and `b`.
pub open spec fn same_registry(a: Pallet, b: Pallet) -> bool {
    &&& b.candidate_pool@ == a.candidate_pool@
    &&& b.delegations@ == a.delegations@
    &&& b.delegate_count@ == a.delegate_count@
}

/// The delayed-action requests are the same in `a` and `b`.
pub open spec fn same_requests(a: Pallet, b: Pallet) -> bool {
    &&& b.requests_deregister@ == a.requests_deregister@
    &&& b.requests_undelegate@ == a.requests_undelegate@
}

/// The epoch machinery (active set, snapshot, epoch index, reported set) is
/// the same in `a` and `b`.
pub open spec fn same_epoch_state(a: Pallet, b: Pallet) -> bool {
    &&& b.active_validators@ == a.active_validators@
    &&& snapshot_eq(a.last_epoch_snapshot, b.last_epoch_snapshot)
    &&& b.epoch_index == a.epoch_index
    &&& b.reported_validators@ == a.reported_validators@
}

/// Configuration, balance rate and block height are the same in `a` and `b`.
pub open spec fn same_meta(a: Pallet, b: Pallet) -> bool {
    &&& b.config == a.config
    &&& b.balance_rate == a.balance_rate
    &&& b.block_number == a.block_number
}

/// What registration returns, for every input.
pub open spec fn register_outcome(s: Pallet, who: AccountId, bond: Balance) -> Result<(), Error> {
    if bond == 0 {
        Err(Error::InvalidZeroAmount)
    } else if bond < s.config.min_candidate_bond {
        Err(Error::BelowMinimumCandidateBond)
    } else if s.spec_is_candidate(who) {
        Err(Error::CandidateAlreadyExist)
    } else if s.candidate_pool@.len() + 1 > s.config.max_candidates {
        Err(Error::TooManyValidators)
    } else if s.spec_account(who).free < bond {
        Err(Error::FundsUnavailable)
    } else {
        Ok(())
    }
}

/// What bonding more returns, for every input.
pub open spec fn bond_more_outcome(s: Pallet, who: AccountId, bond: Balance) -> Result<(), Error> {
    if bond == 0 {
        Err(Error::InvalidZeroAmount)
    } else if !s.spec_is_candidate(who) {
        Err(Error::CandidateDoesNotExist)
    } else if s.spec_candidate(who).unwrap().bond + bond > Balance::MAX {
        Err(Error::ArithmeticOverflow)
    } else if s.spec_account(who).free < bond {
        Err(Error::FundsUnavailable)
    } else {
        Ok(())
    }
}

/// The state a successful delegation of `amount` leaves behind: the record
/// grew or was created, the stored count and the candidate's total followed,
/// and `amount` moved from the delegator's free balance into escrow.
pub open spec fn delegate_applied(
    pre: Pallet,
    post: Pallet,
    delegator: AccountId,
    candidate: AccountId,
    amount: Balance,
) -> bool {
    &&& post.delegations@ == (if pre.spec_delegation(delegator, candidate).is_some() {
        pre.delegations@.update(
            crate::delegs::pair_index(pre.delegations@, delegator, candidate),
            DelegationRecord {
                delegator,
                candidate,
                amount: (pre.spec_delegation(delegator, candidate).unwrap() + amount) as Balance,
            },
        )
    } else {
        pre.delegations@.push(DelegationRecord { delegator, candidate, amount })
    })
    &&& forall|d2: AccountId, c2: AccountId|
        #[trigger] post.spec_delegation(d2, c2) == if d2 == delegator && c2 == candidate {
            Some((spec_delegated_before(pre, delegator, candidate) + amount) as Balance)
        } else {
            pre.spec_delegation(d2, c2)
        }
    &&& forall|d2: AccountId|
        #[trigger] post.spec_delegate_count(d2) == if d2 == delegator && pre.spec_delegation(
            delegator,
            candidate,
        ).is_none() {
            (pre.spec_delegate_count(delegator) + 1) as u32
        } else {
            pre.spec_delegate_count(d2)
        }
    &&& forall|c2: AccountId|
        #[trigger] post.spec_candidate(c2) == if c2 == candidate {
            Some(
                CandidateDetail {
                    total_delegations: (pre.spec_candidate(candidate).unwrap().total_delegations
                        + amount) as Balance,
                    ..pre.spec_candidate(candidate).unwrap()
                },
            )
        } else {
            pre.spec_candidate(c2)
        }
    &&& post.candidate_pool@.len() == pre.candidate_pool@.len()
    &&& forall|a: AccountId|
        #[trigger] post.spec_account(a) == if a == delegator {
            AccountBalance {
                free: (pre.spec_account(delegator).free - amount) as Balance,
                held_bond: pre.spec_account(delegator).held_bond,
                held_delegate: (pre.spec_account(delegator).held_delegate + amount) as Balance,
            }
        } else {
            pre.spec_account(a)
        }
    &&& post.events@ == pre.events@.push(
        Event::CandidateDelegated {
            candidate_id: candidate,
            delegated_by: delegator,
            amount,
            total_delegated_amount: (pre.spec_candidate(candidate).unwrap().total_delegations
                + amount) as Balance,
        },
    )
    &&& post.reward_points@ == pre.reward_points@
    &&& same_requests(pre, post)
    &&& same_epoch_state(pre, post)
    &&& same_meta(pre, post)
}

/// What bonding less returns, for every input.
///
/// Withdrawing more than the bond is rejected; withdrawing it exactly is a
/// full deregistration; any other remainder must stay at or above the
/// minimum bond.
pub open spec fn bond_less_outcome(s: Pallet, who: AccountId, bond: Balance) -> Result<(), Error> {
    if bond == 0 {
        Err(Error::InvalidZeroAmount)
    } else if !s.spec_is_candidate(who) {
        Err(Error::CandidateDoesNotExist)
    } else if bond > s.spec_candidate(who).unwrap().bond {
        Err(Error::InvalidMinimumCandidateBond)
    } else if s.spec_candidate(who).unwrap().bond - bond == 0 {
        Ok(())
    } else if s.spec_candidate(who).unwrap().bond - bond < s.config.min_candidate_bond {
        Err(Error::BelowMinimumCandidateBond)
    } else {
        Ok(())
    }
}

/// The ledger entry of `a` after `c` was slashed by `burned` and thereby
/// deregistered: the burn leaves the escrow first, then the deregistration
/// refund runs as usual.
pub open spec fn slash_dereg_account(
    pre: Pallet,
    c: AccountId,
    burned: Balance,
    a: AccountId,
) -> AccountBalance {
    let b0 = pre.spec_account(a);
    let b0b = if a == c {
        AccountBalance { held_bond: (b0.held_bond - burned) as Balance, ..b0 }
    } else {
        b0
    };
    let refund = if dget(pre.delegations@, a, c).is_some() {
        dget(pre.delegations@, a, c).unwrap()
    } else {
        0
    };
    let b1 = refunded_account(b0b, refund);
    if a == c {
        let b2 = AccountBalance {
            free: (b1.free + b1.held_bond) as Balance,
            held_bond: 0,
            held_delegate: b1.held_delegate,
        };
        AccountBalance { free: spec_minted_free(b2, pre.spec_reward_points(c)), ..b2 }
    } else {
        b1
    }
}

/// The state a slash that cascaded into a full deregistration leaves behind.
pub open spec fn slash_dereg_applied(
    pre: Pallet,
    post: Pallet,
    who: AccountId,
    burned: Balance,
) -> bool {
    &&& post.candidate_pool@ == pre.candidate_pool@.remove(
        crate::store::key_index(pre.candidate_pool@, who),
    )
    &&& forall|c2: AccountId|
        #[trigger] post.spec_candidate(c2) == if c2 == who {
            None::<CandidateDetail>
        } else {
            pre.spec_candidate(c2)
        }
    &&& post.delegations@ == crate::delegs::without_candidate(pre.delegations@, who)
    &&& forall|d2: AccountId, c2: AccountId|
        #[trigger] post.spec_delegation(d2, c2) == if c2 == who {
            None::<Balance>
        } else {
            pre.spec_delegation(d2, c2)
        }
    &&& forall|d2: AccountId|
        #[trigger] post.spec_delegate_count(d2) == if pre.spec_delegation(d2, who).is_some() {
            (pre.spec_delegate_count(d2) - 1) as u32
        } else {
            pre.spec_delegate_count(d2)
        }
    &&& forall|a: AccountId|
        #[trigger] post.spec_account(a) == slash_dereg_account(pre, who, burned, a)
    &&& forall|a: AccountId|
        #[trigger] post.spec_reward_points(a) == if a == who {
            0
        } else {
            pre.spec_reward_points(a)
        }
    &&& post.events@ == pre.events@ + (if pre.spec_reward_points(who) > 0 {
        seq![
            Event::RewardClaimed { claimer: who, total_reward: pre.spec_reward_points(who) },
        ]
    } else {
        Seq::<Event>::empty()
    }) + seq![Event::CandidateRegistrationRemoved { candidate_id: who }]
    &&& same_requests(pre, post)
    &&& same_epoch_state(pre, post)
    &&& same_meta(pre, post)
}

/// The amount `d` had delegated to `c` before an operation; 0 without a
/// record.
pub open spec fn spec_delegated_before(s: Pallet, d: AccountId, c: AccountId) -> Balance {
    match s.spec_delegation(d, c) {
        Some(a) => a,
        None => 0,
    }
}

/// What delegating returns, for every input.
///
/// A repeated delegation must keep the summed amount representable and above
/// the minimum; a first delegation is also subject to the delegator's and the
/// candidate's caps.  Funds are checked next, the candidate's existence after
/// that (a repeated delegation implies it), and the candidate's total last.
pub open spec fn delegate_outcome(
    s: Pallet,
    delegator: AccountId,
    candidate: AccountId,
    amount: Balance,
) -> Result<(), Error> {
    if amount == 0 {
        Err(Error::InvalidZeroAmount)
    } else if s.spec_delegation(delegator, candidate).is_some() {
        if s.spec_delegation(delegator, candidate).unwrap() + amount > Balance::MAX {
            Err(Error::ArithmeticOverflow)
        } else if s.spec_delegation(delegator, candidate).unwrap() + amount
            < s.config.min_delegate_amount {
            Err(Error::BelowMinimumDelegateAmount)
        } else if s.spec_account(delegator).free < amount {
            Err(Error::FundsUnavailable)
        } else if s.spec_candidate(candidate).unwrap().total_delegations + amount > Balance::MAX {
            Err(Error::ArithmeticOverflow)
        } else {
            Ok(())
        }
    } else {
        if amount < s.config.min_delegate_amount {
            Err(Error::BelowMinimumDelegateAmount)
        } else if s.spec_delegate_count(delegator) >= s.config.max_delegate_count {
            Err(Error::TooManyCandidateDelegations)
        } else if crate::delegs::count_delegators_of(s.delegations@, candidate)
            >= s.config.max_candidate_delegators {
            Err(Error::TooManyDelegatorsInPool)
        } else if s.spec_account(delegator).free < amount {
            Err(Error::FundsUnavailable)
        } else if !s.spec_is_candidate(candidate) {
            Err(Error::CandidateDoesNotExist)
        } else if s.spec_candidate(candidate).unwrap().total_delegations + amount > Balance::MAX {
            Err(Error::ArithmeticOverflow)
        } else {
            Ok(())
        }
    }
}

/// What undelegating returns, for every input.
///
/// A withdrawal above the delegated amount is rejected before the minimum
/// check; withdrawing to exactly zero is always allowed.
pub open spec fn undelegate_outcome(
    s: Pallet,
    delegator: AccountId,
    candidate: AccountId,
    amount: Balance,
) -> Result<(), Error> {
    if amount == 0 {
        Err(Error::InvalidZeroAmount)
    } else if s.spec_delegation(delegator, candidate).is_none() {
        Err(Error::DelegationDoesNotExist)
    } else if amount > s.spec_delegation(delegator, candidate).unwrap() {
        Err(Error::InvalidMinimumDelegateAmount)
    } else if s.spec_delegation(delegator, candidate).unwrap() - amount != 0 && s.spec_delegation(
        delegator,
        candidate,
    ).unwrap() - amount < s.config.min_delegate_amount {
        Err(Error::BelowMinimumDelegateAmount)
    } else {
        Ok(())
    }
}

/// The state a successful undelegation of `amount` leaves behind: the record
/// shrank or vanished, the stored count and the candidate's total followed,
/// and exactly `amount` of escrow went back to the delegator's free balance.
pub open spec fn undelegate_applied(
    pre: Pallet,
    post: Pallet,
    delegator: AccountId,
    candidate: AccountId,
    amount: Balance,
) -> bool {
    &&& undelegate_applied_core(pre, post, delegator, candidate, amount)
    &&& same_requests(pre, post)
}

/// [`undelegate_applied`] without the claim on the delayed-action requests:
/// executing a scheduled undelegation also clears its request.
pub open spec fn undelegate_applied_core(
    pre: Pallet,
    post: Pallet,
    delegator: AccountId,
    candidate: AccountId,
    amount: Balance,
) -> bool {
    let a0 = pre.spec_delegation(delegator, candidate).unwrap();
    &&& post.delegations@ == (if a0 == amount {
        pre.delegations@.remove(crate::delegs::pair_index(pre.delegations@, delegator, candidate))
    } else {
        pre.delegations@.update(
            crate::delegs::pair_index(pre.delegations@, delegator, candidate),
            DelegationRecord { delegator, candidate, amount: (a0 - amount) as Balance },
        )
    })
    &&& forall|d2: AccountId, c2: AccountId|
        #[trigger] post.spec_delegation(d2, c2) == if d2 == delegator && c2 == candidate {
            if a0 == amount {
                None::<Balance>
            } else {
                Some((a0 - amount) as Balance)
            }
        } else {
            pre.spec_delegation(d2, c2)
        }
    &&& forall|d2: AccountId|
        #[trigger] post.spec_delegate_count(d2) == if d2 == delegator && a0 == amount {
            (pre.spec_delegate_count(delegator) - 1) as u32
        } else {
            pre.spec_delegate_count(d2)
        }
    &&& forall|c2: AccountId|
        #[trigger] post.spec_candidate(c2) == if c2 == candidate {
            Some(
                CandidateDetail {
                    total_delegations: (pre.spec_candidate(candidate).unwrap().total_delegations
                        - amount) as Balance,
                    ..pre.spec_candidate(candidate).unwrap()
                },
            )
        } else {
            pre.spec_candidate(c2)
        }
    &&& post.candidate_pool@.len() == pre.candidate_pool@.len()
    &&& forall|a: AccountId|
        #[trigger] post.spec_account(a) == if a == delegator {
            AccountBalance {
                free: (pre.spec_account(delegator).free + amount) as Balance,
                held_bond: pre.spec_account(delegator).held_bond,
                held_delegate: (pre.spec_account(delegator).held_delegate - amount) as Balance,
            }
        } else {
            pre.spec_account(a)
        }
    &&& post.events@ == pre.events@.push(
        Event::CandidateUndelegated {
            candidate_id: candidate,
            delegator,
            amount,
            left_delegated_amount: (a0 - amount) as Balance,
        },
    )
    &&& post.reward_points@ == pre.reward_points@
    &&& same_epoch_state(pre, post)
    &&& same_meta(pre, post)
}

/// The ledger entry of a delegator after its delegation of `amount` to a
/// deregistered candidate was refunded: the escrow goes back to the free
/// balance.
pub open spec fn refunded_account(b: AccountBalance, amount: Balance) -> AccountBalance {
    AccountBalance {
        free: (b.free + spec_min(amount, b.held_delegate)) as Balance,
        held_bond: b.held_bond,
        held_delegate: (b.held_delegate - spec_min(amount, b.held_delegate)) as Balance,
    }
}

/// The ledger entry of `a` after `c` was deregistered: a delegation to `c`
/// is refunded; `c` itself also gets its whole bond hold back and its
/// residual reward minted (capped so the account total stays representable).
pub open spec fn dereg_account(pre: Pallet, c: AccountId, a: AccountId) -> AccountBalance {
    let b0 = pre.spec_account(a);
    let refund = if dget(pre.delegations@, a, c).is_some() {
        dget(pre.delegations@, a, c).unwrap()
    } else {
        0
    };
    let b1 = refunded_account(b0, refund);
    if a == c {
        let b2 = AccountBalance {
            free: (b1.free + b1.held_bond) as Balance,
            held_bond: 0,
            held_delegate: b1.held_delegate,
        };
        AccountBalance { free: spec_minted_free(b2, pre.spec_reward_points(c)), ..b2 }
    } else {
        b1
    }
}

/// The state a successful deregistration of `candidate` leaves behind.
pub open spec fn dereg_applied(pre: Pallet, post: Pallet, candidate: AccountId) -> bool {
    &&& dereg_applied_core(pre, post, candidate)
    &&& same_requests(pre, post)
}

/// [`dereg_applied`] without the claim on the delayed-action requests:
/// executing a scheduled deregistration also clears its request.
pub open spec fn dereg_applied_core(pre: Pallet, post: Pallet, candidate: AccountId) -> bool {
    &&& post.candidate_pool@ == pre.candidate_pool@.remove(
        crate::store::key_index(pre.candidate_pool@, candidate),
    )
    &&& forall|c2: AccountId|
        #[trigger] post.spec_candidate(c2) == if c2 == candidate {
            None::<CandidateDetail>
        } else {
            pre.spec_candidate(c2)
        }
    &&& post.delegations@ == crate::delegs::without_candidate(pre.delegations@, candidate)
    &&& forall|d2: AccountId, c2: AccountId|
        #[trigger] post.spec_delegation(d2, c2) == if c2 == candidate {
            None::<Balance>
        } else {
            pre.spec_delegation(d2, c2)
        }
    &&& forall|d2: AccountId|
        #[trigger] post.spec_delegate_count(d2) == if pre.spec_delegation(
            d2,
            candidate,
        ).is_some() {
            (pre.spec_delegate_count(d2) - 1) as u32
        } else {
            pre.spec_delegate_count(d2)
        }
    &&& forall|a: AccountId| #[trigger] post.spec_account(a) == dereg_account(pre, candidate, a)
    &&& forall|a: AccountId|
        #[trigger] post.spec_reward_points(a) == if a == candidate {
            0
        } else {
            pre.spec_reward_points(a)
        }
    &&& post.events@ == pre.events@ + (if pre.spec_reward_points(candidate) > 0 {
        seq![
            Event::RewardClaimed {
                claimer: candidate,
                total_reward: pre.spec_reward_points(candidate),
            },
        ]
    } else {
        Seq::<Event>::empty()
    }) + seq![Event::CandidateRegistrationRemoved { candidate_id: candidate }]
    &&& same_epoch_state(pre, post)
    &&& same_meta(pre, post)
}

impl Pallet {
    /// Whether `who` is a registered candidate.
    pub fn is_candidate(&self, who: AccountId) -> (r: bool)
        requires
            self.wf(),
        ensures
            r == self.spec_is_candidate(who),
    {
        self.candidate_pool.contains_key(who)
    }

    /// The candidate record of `who`, or `CandidateDoesNotExist`.
    pub fn get_candidate(&self, who: AccountId) -> (r: Result<CandidateDetail, Error>)
        requires
            self.wf(),
        ensures
            self.spec_candidate(who).is_some() ==> r == Ok::<CandidateDetail, Error>(
                self.spec_candidate(who).unwrap(),
            ),
            self.spec_candidate(who).is_none() ==> r == Err::<CandidateDetail, Error>(
                Error::CandidateDoesNotExist,
            ),
    {
        match self.candidate_pool.get(who) {
            Some(det) => Ok(det),
            None => Err(Error::CandidateDoesNotExist),
        }
    }

    /// The candidate record of `who`, if registered.
    pub fn candidates(&self, who: AccountId) -> (r: Option<CandidateDetail>)
        requires
            self.wf(),
        ensures
            r == self.spec_candidate(who),
    {
        self.candidate_pool.get(who)
    }

    /// The number of registered candidates.
    pub fn candidate_count(&self) -> (r: usize)
        ensures
            r == self.candidate_pool@.len(),
    {
        self.candidate_pool.len()
    }

    /// The delegation of `delegator` on `candidate`, or
    /// `DelegationDoesNotExist`.
    pub fn get_delegation(&self, delegator: AccountId, candidate: AccountId) -> (r: Result<
        DelegationInfo,
        Error,
    >)
        requires
            self.wf(),
        ensures
            self.spec_delegation(delegator, candidate).is_some() ==> r == Ok::<
                DelegationInfo,
                Error,
            >(DelegationInfo { amount: self.spec_delegation(delegator, candidate).unwrap() }),
            self.spec_delegation(delegator, candidate).is_none() ==> r == Err::<
                DelegationInfo,
                Error,
            >(Error::DelegationDoesNotExist),
    {
        match self.delegations.get(delegator, candidate) {
            Some(amount) => Ok(DelegationInfo { amount }),
            None => Err(Error::DelegationDoesNotExist),
        }
    }

    /// The delegation of `delegator` on `candidate`, if any.
    pub fn delegation_infos(&self, delegator: AccountId, candidate: AccountId) -> (r: Option<
        DelegationInfo,
    >)
        requires
            self.wf(),
        ensures
            self.spec_delegation(delegator, candidate).is_some() ==> r == Some(
                DelegationInfo { amount: self.spec_delegation(delegator, candidate).unwrap() },
            ),
            self.spec_delegation(delegator, candidate).is_none() ==> r == None::<DelegationInfo>,
    {
        match self.delegations.get(delegator, candidate) {
            Some(amount) => Some(DelegationInfo { amount }),
            None => None,
        }
    }

    /// The number of candidates `delegator` delegates to.
    pub fn delegate_count_of(&self, delegator: AccountId) -> (r: u32)
        requires
            self.wf(),
        ensures
            r == self.spec_delegate_count(delegator),
    {
        match self.delegate_count.get(delegator) {
            Some(n) => n,
            None => 0,
        }
    }

    /// The delegators of `candidate`, in delegation order.
    pub fn candidate_delegators(&self, candidate: AccountId) -> (r: Vec<AccountId>)
        ensures
            r@ == crate::delegs::delegators_of(self.delegations@, candidate),
    {
        self.delegations.delegators_for(candidate)
    }

    /// The accrued, unclaimed reward of `who`.
    pub fn reward_points_of(&self, who: AccountId) -> (r: Balance)
        requires
            self.wf(),
        ensures
            r == self.spec_reward_points(who),
    {
        match self.reward_points.get(who) {
            Some(p) => p,
            None => 0,
        }
    }

    /// Registers `who` as a candidate with `bond` escrowed.
    ///
    /// Fails on a zero bond, a bond under the minimum, a duplicate
    /// registration, a full pool, or funds that cannot cover the bond — in
    /// that order, changing nothing.
    pub fn register_as_candidate(&mut self, who: AccountId, bond: Balance) -> (r: Result<
        (),
        Error,
    >)
        requires
            old(self).wf(),
        ensures
            final(self).wf(),
            r == register_outcome(*old(self), who, bond),
            r.is_err() ==> *final(self) == *old(self),
            r.is_ok() ==> {
                &&& final(self).candidate_pool@ == old(self).candidate_pool@.push(
                    (
                        who,
                        CandidateDetail {
                            bond,
                            total_delegations: 0,
                            status: ValidatorStatus::Online,
                        },
                    ),
                )
                &&& forall|a: AccountId|
                    #[trigger] final(self).spec_account(a) == if a == who {
                        AccountBalance {
                            free: (old(self).spec_account(who).free - bond) as Balance,
                            held_bond: (old(self).spec_account(who).held_bond + bond) as Balance,
                            held_delegate: old(self).spec_account(who).held_delegate,
                        }
                    } else {
                        old(self).spec_account(a)
                    }
                &&& final(self).events@ == old(self).events@.push(
                    Event::CandidateRegistered { candidate_id: who, initial_bond: bond },
                )
                &&& final(self).delegations@ == old(self).delegations@
                &&& final(self).delegate_count@ == old(self).delegate_count@
                &&& final(self).reward_points@ == old(self).reward_points@
                &&& same_requests(*old(self), *final(self))
                &&& same_epoch_state(*old(self), *final(self))
                &&& same_meta(*old(self), *final(self))
            },
    {
        if bond == 0 {
            return Err(Error::InvalidZeroAmount);
        }
        if bond < self.config.min_candidate_bond {
            return Err(Error::BelowMinimumCandidateBond);
        }
        if self.is_candidate(who) {
            return Err(Error::CandidateAlreadyExist);
        }
        if self.candidate_pool.len() >= self.config.max_candidates as usize {
            return Err(Error::TooManyValidators);
        }
        self.hold_bond(who, bond)?;
        let ghost mid = *self;
        let detail = CandidateDetail::new(bond);
        self.candidate_pool.set(who, detail);
        self.events.push(Event::CandidateRegistered { candidate_id: who, initial_bond: bond });
        proof {
            assert forall|a: AccountId| #[trigger]
                self.spec_account(a) == mid.spec_account(a) by {
                assert(self.accounts == mid.accounts);
            }
            assert forall|a: AccountId|
                (#[trigger] self.spec_account(a)).free + self.spec_account(a).held_bond
                    + self.spec_account(a).held_delegate <= Balance::MAX by {
                assert(mid.spec_account(a) == if a == who {
                    AccountBalance {
                        free: (old(self).spec_account(who).free - bond) as Balance,
                        held_bond: (old(self).spec_account(who).held_bond + bond) as Balance,
                        held_delegate: old(self).spec_account(who).held_delegate,
                    }
                } else {
                    old(self).spec_account(a)
                });
                assert(old(self).spec_account(a).free + old(self).spec_account(a).held_bond + old(
                    self,
                ).spec_account(a).held_delegate <= Balance::MAX);
                assert(old(self).spec_account(who).free + old(self).spec_account(who).held_bond
                    + old(self).spec_account(who).held_delegate <= Balance::MAX);
            }
            assert(sum_to_candidate(old(self).delegations@, who) == 0) by {
                assert forall|i: int| 0 <= i < old(self).delegations@.len() implies (
                #[trigger] old(self).delegations@[i]).candidate != who by {
                    assert(old(self).spec_is_candidate(old(self).delegations@[i].candidate));
                    assert(old(self).spec_candidate(old(self).delegations@[i].candidate).is_some());
                }
                lemma_sum_zero(old(self).delegations@, |q: DelegationRecord| q.candidate == who);
            }
            self.lemma_wf_after_pool_and_accounts(*old(self));
            assert(self.wf());
        }
        Ok(())
    }

    /// Increases `who`'s bond by `bond`, escrowing it.
    ///
    /// Fails on a zero bond, an unknown candidate, a bond overflow, or funds
    /// that cannot cover the increase — in that order, changing nothing.
    pub fn candidate_bond_more(&mut self, who: AccountId, bond: Balance) -> (r: Result<(), Error>)
        requires
            old(self).wf(),
        ensures
            final(self).wf(),
            r == bond_more_outcome(*old(self), who, bond),
            r.is_err() ==> *final(self) == *old(self),
            r.is_ok() ==> {
                &&& forall|c: AccountId|
                    #[trigger] final(self).spec_candidate(c) == if c == who {
                        Some(
                            CandidateDetail {
                                bond: (old(self).spec_candidate(who).unwrap().bond
                                    + bond) as Balance,
                                ..old(self).spec_candidate(who).unwrap()
                            },
                        )
                    } else {
                        old(self).spec_candidate(c)
                    }
                &&& final(self).candidate_pool@.len() == old(self).candidate_pool@.len()
                &&& forall|a: AccountId|
                    #[trigger] final(self).spec_account(a) == if a == who {
                        AccountBalance {
                            free: (old(self).spec_account(who).free - bond) as Balance,
                            held_bond: (old(self).spec_account(who).held_bond + bond) as Balance,
                            held_delegate: old(self).spec_account(who).held_delegate,
                        }
                    } else {
                        old(self).spec_account(a)
                    }
                &&& final(self).events@ == old(self).events@.push(
                    Event::CandidateMoreBondStaked { candidate_id: who, additional_bond: bond },
                )
                &&& final(self).delegations@ == old(self).delegations@
                &&& final(self).delegate_count@ == old(self).delegate_count@
                &&& final(self).reward_points@ == old(self).reward_points@
                &&& same_requests(*old(self), *final(self))
                &&& same_epoch_state(*old(self), *final(self))
                &&& same_meta(*old(self), *final(self))
            },
    {
        if bond == 0 {
            return Err(Error::InvalidZeroAmount);
        }
        let mut detail = self.get_candidate(who)?;
        if detail.bond > Balance::MAX - bond {
            return Err(Error::ArithmeticOverflow);
        }
        self.hold_bond(who, bond)?;
        let ghost mid = *self;
        detail.update_bond(detail.bond + bond);
        self.candidate_pool.set(who, detail);
        self.events.push(
            Event::CandidateMoreBondStaked { candidate_id: who, additional_bond: bond },
        );
        proof {
            assert forall|a: AccountId| #[trigger]
                self.spec_account(a) == mid.spec_account(a) by {
                assert(self.accounts == mid.accounts);
            }
            assert forall|a: AccountId|
                (#[trigger] self.spec_account(a)).free + self.spec_account(a).held_bond
                    + self.spec_account(a).held_delegate <= Balance::MAX by {
                assert(mid.spec_account(a) == if a == who {
                    AccountBalance {
                        free: (old(self).spec_account(who).free - bond) as Balance,
                        held_bond: (old(self).spec_account(who).held_bond + bond) as Balance,
                        held_delegate: old(self).spec_account(who).held_delegate,
                    }
                } else {
                    old(self).spec_account(a)
                });
                assert(old(self).spec_account(a).free + old(self).spec_account(a).held_bond + old(
                    self,
                ).spec_account(a).held_delegate <= Balance::MAX);
                assert(old(self).spec_account(who).free + old(self).spec_account(who).held_bond
                    + old(self).spec_account(who).held_delegate <= Balance::MAX);
            }
            self.lemma_wf_after_pool_and_accounts(*old(self));
            assert(self.wf());
        }
        Ok(())
    }

    /// Delegates `amount` from `delegator` to `candidate`.
    ///
    /// A repeated delegation adds to the existing record; a first delegation
    /// creates one, subject to the per-delegator and per-candidate caps.  The
    /// amount is escrowed.  Rejections follow [`delegate_outcome`] and change
    /// nothing.
    pub fn delegate_candidate(
        &mut self,
        delegator: AccountId,
        candidate: AccountId,
        amount: Balance,
    ) -> (r: Result<(), Error>)
        requires
            old(self).wf(),
        ensures
            final(self).wf(),
            r == delegate_outcome(*old(self), delegator, candidate, amount),
            r.is_err() ==> *final(self) == *old(self),
            r.is_ok() ==> delegate_applied(*old(self), *final(self), delegator, candidate, amount),
    {
        if amount == 0 {
            return Err(Error::InvalidZeroAmount);
        }
        let existing = self.delegations.get(delegator, candidate);
        let new_amount: Balance;
        match existing {
            Some(a0) => {
                if a0 > Balance::MAX - amount {
                    return Err(Error::ArithmeticOverflow);
                }
                if a0 + amount < self.config.min_delegate_amount {
                    return Err(Error::BelowMinimumDelegateAmount);
                }
                new_amount = a0 + amount;
            },
            None => {
                if amount < self.config.min_delegate_amount {
                    return Err(Error::BelowMinimumDelegateAmount);
                }
                let cnt = self.delegate_count_of(delegator);
                if cnt >= self.config.max_delegate_count {
                    return Err(Error::TooManyCandidateDelegations);
                }
                let in_pool = self.delegations.count_for_candidate(candidate);
                proof {
                    crate::delegs::lemma_sum_nonneg(
                        self.delegations@,
                        |q: DelegationRecord| q.candidate == candidate,
                    );
                }
                if in_pool >= self.config.max_candidate_delegators as usize {
                    return Err(Error::TooManyDelegatorsInPool);
                }
                new_amount = amount;
            },
        }
        if self.free_balance(delegator) < amount {
            return Err(Error::FundsUnavailable);
        }
        proof {
            if existing.is_some() {
                lemma_dget_some_exists(self.delegations@, delegator, candidate);
                let i = choose|i: int|
                    0 <= i < self.delegations@.len() && (#[trigger] self.delegations@[i]) == (
                    DelegationRecord {
                        delegator,
                        candidate,
                        amount: dget(self.delegations@, delegator, candidate).unwrap(),
                    });
                assert(self.spec_is_candidate(self.delegations@[i].candidate));
            }
        }
        let mut det = match self.candidate_pool.get(candidate) {
            Some(det) => det,
            None => {
                return Err(Error::CandidateDoesNotExist);
            },
        };
        if det.total_delegations > Balance::MAX - amount {
            return Err(Error::ArithmeticOverflow);
        }
        let hold_ok = self.hold_delegate(delegator, amount);
        proof {
            assert(hold_ok == Ok::<(), Error>(()));
        }
        let ghost mid = *self;
        match existing {
            Some(_) => {
                self.delegations.update_amount(delegator, candidate, new_amount);
            },
            None => {
                let cnt = match self.delegate_count.get(delegator) {
                    Some(n) => n,
                    None => 0,
                };
                self.delegations.insert(
                    DelegationRecord { delegator, candidate, amount: new_amount },
                );
                self.delegate_count.set(delegator, cnt + 1);
            },
        }
        let new_total = det.total_delegations + amount;
        det = CandidateDetail { total_delegations: new_total, ..det };
        self.candidate_pool.set(candidate, det);
        self.events.push(
            Event::CandidateDelegated {
                candidate_id: candidate,
                delegated_by: delegator,
                amount,
                total_delegated_amount: new_total,
            },
        );
        proof {
            assert forall|a: AccountId| #[trigger]
                self.spec_account(a) == mid.spec_account(a) by {
                assert(self.accounts == mid.accounts);
            }
            self.lemma_wf_after_delegation_change(*old(self), mid, delegator, candidate, amount);
            assert(self.wf());
        }
        Ok(())
    }

    /// Withdraws `amount` from the delegation of `delegator` on `candidate`
    /// and releases that much escrow.  Withdrawing the whole delegation
    /// deletes the record and its indices; a partial remainder must stay at
    /// or above the minimum.  Rejections follow [`undelegate_outcome`] and
    /// change nothing.
    pub fn undelegate_candidate(
        &mut self,
        delegator: AccountId,
        candidate: AccountId,
        amount: Balance,
    ) -> (r: Result<(), Error>)
        requires
            old(self).wf(),
        ensures
            final(self).wf(),
            r == undelegate_outcome(*old(self), delegator, candidate, amount),
            r.is_err() ==> *final(self) == *old(self),
            r.is_ok() ==> undelegate_applied(*old(self), *final(self), delegator, candidate, amount),
    {
        if amount == 0 {
            return Err(Error::InvalidZeroAmount);
        }
        let a0 = match self.delegations.get(delegator, candidate) {
            Some(a0) => a0,
            None => {
                return Err(Error::DelegationDoesNotExist);
            },
        };
        if amount > a0 {
            return Err(Error::InvalidMinimumDelegateAmount);
        }
        let new_amount = a0 - amount;
        if new_amount != 0 && new_amount < self.config.min_delegate_amount {
            return Err(Error::BelowMinimumDelegateAmount);
        }
        proof {
            lemma_dget_some_exists(self.delegations@, delegator, candidate);
            let i = choose|i: int|
                0 <= i < self.delegations@.len() && (#[trigger] self.delegations@[i]) == (
                DelegationRecord { delegator, candidate, amount: a0 });
            assert(self.spec_is_candidate(self.delegations@[i].candidate));
            lemma_sum_lower_bound(
                self.delegations@,
                i,
                |q: DelegationRecord| q.delegator == delegator,
            );
            lemma_sum_lower_bound(
                self.delegations@,
                i,
                |q: DelegationRecord| q.candidate == candidate,
            );
        }
        proof {
            assert(old(self).spec_delegate_count(delegator) >= 1);
            assert(old(self).spec_candidate(candidate).unwrap().total_delegations
                == sum_to_candidate(old(self).delegations@, candidate));
        }
        self.release_delegate(delegator, amount);
        let ghost mid = *self;
        if new_amount == 0 {
            self.delegations.remove(delegator, candidate);
            let cnt = match self.delegate_count.get(delegator) {
                Some(n) => n,
                None => 0,
            };
            proof {
                assert(cnt == old(self).spec_delegate_count(delegator));
            }
            self.delegate_count.set(delegator, cnt - 1);
        } else {
            self.delegations.update_amount(delegator, candidate, new_amount);
        }
        let det = match self.candidate_pool.get(candidate) {
            Some(det) => det,
            None => {
                // Unreachable: a delegation record implies its candidate is
                // registered, and the pool has not been touched yet.
                proof {
                    assert(false);
                }
                return Err(Error::CandidateDoesNotExist);
            },
        };
        proof {
            assert(det == old(self).spec_candidate(candidate).unwrap());
            assert(det.total_delegations >= amount);
        }
        self.candidate_pool.set(
            candidate,
            CandidateDetail { total_delegations: det.total_delegations - amount, ..det },
        );
        self.events.push(
            Event::CandidateUndelegated {
                candidate_id: candidate,
                delegator,
                amount,
                left_delegated_amount: new_amount,
            },
        );
        proof {
            assert forall|a: AccountId| #[trigger]
                self.spec_account(a) == mid.spec_account(a) by {
                assert(self.accounts == mid.accounts);
            }
            assert forall|i: int| 0 <= i < self.delegations@.len() implies old(
                self,
            ).spec_is_candidate((#[trigger] self.delegations@[i]).candidate) by {
                if new_amount == 0 {
                    let idx = crate::delegs::pair_index(old(self).delegations@, delegator, candidate);
                    let i0 = if i < idx {
                        i
                    } else {
                        i + 1
                    };
                    assert(self.delegations@[i] == old(self).delegations@[i0]);
                    assert(old(self).spec_is_candidate(old(self).delegations@[i0].candidate));
                } else {
                    let idx = crate::delegs::pair_index(old(self).delegations@, delegator, candidate);
                    if i == idx {
                        assert(old(self).spec_is_candidate(candidate));
                    } else {
                        assert(self.delegations@[i] == old(self).delegations@[i]);
                        assert(old(self).spec_is_candidate(old(self).delegations@[i].candidate));
                    }
                }
            }
            self.lemma_wf_after_undelegation(*old(self), delegator, candidate, amount, a0);
            assert(self.wf());
        }
        Ok(())
    }

    /// Frames the well-formedness conjuncts across an undelegation of
    /// `amount` from `(delegator, candidate)`, whose record held `a0`.
    proof fn lemma_wf_after_undelegation(
        &self,
        pre: Pallet,
        delegator: AccountId,
        candidate: AccountId,
        amount: Balance,
        a0: Balance,
    )
        requires
            pre.wf(),
            self.candidate_pool.wf(),
            self.delegations.wf(),
            self.delegate_count.wf(),
            self.accounts.wf(),
            self.reward_points@ == pre.reward_points@,
            self.requests_deregister@ == pre.requests_deregister@,
            self.requests_undelegate@ == pre.requests_undelegate@,
            self.balance_rate == pre.balance_rate,
            pre.spec_delegation(delegator, candidate) == Some(a0),
            amount <= a0,
            forall|d2: AccountId, c2: AccountId|
                #[trigger] dget(self.delegations@, d2, c2) == if d2 == delegator && c2
                    == candidate {
                    if a0 == amount {
                        None::<Balance>
                    } else {
                        Some((a0 - amount) as Balance)
                    }
                } else {
                    dget(pre.delegations@, d2, c2)
                },
            forall|c2: AccountId|
                #[trigger] sum_to_candidate(self.delegations@, c2) == sum_to_candidate(
                    pre.delegations@,
                    c2,
                ) - if c2 == candidate {
                    amount as int
                } else {
                    0
                },
            forall|d2: AccountId|
                #[trigger] sum_of_delegator(self.delegations@, d2) == sum_of_delegator(
                    pre.delegations@,
                    d2,
                ) - if d2 == delegator {
                    amount as int
                } else {
                    0
                },
            forall|d2: AccountId|
                #[trigger] count_of_delegator(self.delegations@, d2) == count_of_delegator(
                    pre.delegations@,
                    d2,
                ) - if d2 == delegator && a0 == amount {
                    1int
                } else {
                    0
                },
            forall|i: int|
                0 <= i < self.delegations@.len() ==> pre.spec_is_candidate(
                    (#[trigger] self.delegations@[i]).candidate,
                ),
            forall|d2: AccountId|
                #[trigger] self.spec_delegate_count(d2) == if d2 == delegator && a0 == amount {
                    (pre.spec_delegate_count(delegator) - 1) as u32
                } else {
                    pre.spec_delegate_count(d2)
                },
            forall|c2: AccountId|
                #[trigger] self.spec_candidate(c2) == if c2 == candidate {
                    Some(
                        CandidateDetail {
                            total_delegations: (pre.spec_candidate(
                                candidate,
                            ).unwrap().total_delegations - amount) as Balance,
                            ..pre.spec_candidate(candidate).unwrap()
                        },
                    )
                } else {
                    pre.spec_candidate(c2)
                },
            pre.spec_is_candidate(candidate),
            forall|a: AccountId|
                #[trigger] self.spec_account(a) == if a == delegator {
                    AccountBalance {
                        free: (pre.spec_account(delegator).free + amount) as Balance,
                        held_bond: pre.spec_account(delegator).held_bond,
                        held_delegate: (pre.spec_account(delegator).held_delegate
                            - amount) as Balance,
                    }
                } else {
                    pre.spec_account(a)
                },
            pre.spec_account(delegator).held_delegate >= amount,
        ensures
            self.wf(),
    {
        assert(sum_to_candidate(pre.delegations@, candidate) == pre.spec_candidate(
            candidate,
        ).unwrap().total_delegations);
        assert(pre.spec_delegate_count(delegator) as int == count_of_delegator(
            pre.delegations@,
            delegator,
        ));
        lemma_dget_some_exists(pre.delegations@, delegator, candidate);
        let i = choose|i: int|
            0 <= i < pre.delegations@.len() && (#[trigger] pre.delegations@[i]) == (
            DelegationRecord { delegator, candidate, amount: a0 });
        lemma_sum_lower_bound(
            pre.delegations@,
            i,
            |q: DelegationRecord| q.delegator == delegator,
        );
        lemma_sum_lower_bound(
            pre.delegations@,
            i,
            |q: DelegationRecord| q.candidate == candidate,
        );
        assert forall|c: AccountId| (#[trigger] self.spec_candidate(c)).is_some() implies self
            .spec_candidate(c).unwrap().total_delegations == sum_to_candidate(
            self.delegations@,
            c,
        ) by {
            if c == candidate {
                assert(pre.spec_candidate(candidate).unwrap().total_delegations
                    == sum_to_candidate(pre.delegations@, candidate));
                assert(sum_to_candidate(pre.delegations@, candidate) >= a0 >= amount);
            } else {
                assert(pre.spec_candidate(c) == self.spec_candidate(c));
                if pre.spec_candidate(c).is_some() {
                    assert(pre.spec_candidate(c).unwrap().total_delegations == sum_to_candidate(
                        pre.delegations@,
                        c,
                    ));
                }
            }
        }
        assert forall|i: int| 0 <= i < self.delegations@.len() implies self.spec_is_candidate(
            (#[trigger] self.delegations@[i]).candidate,
        ) by {
            let c2 = self.delegations@[i].candidate;
            assert(pre.spec_candidate(c2).is_some());
            assert(self.spec_candidate(c2).is_some());
        }
        assert forall|d: AccountId|
            (#[trigger] self.spec_delegate_count(d)) as int == count_of_delegator(
                self.delegations@,
                d,
            ) by {
            assert(pre.spec_delegate_count(d) as int == count_of_delegator(pre.delegations@, d));
        }
        assert forall|a: AccountId|
            (#[trigger] self.spec_account(a)).held_bond == (if self.spec_candidate(a).is_some() {
                self.spec_candidate(a).unwrap().bond
            } else {
                0
            }) by {
            assert(pre.spec_account(a).held_bond == if pre.spec_candidate(a).is_some() {
                pre.spec_candidate(a).unwrap().bond
            } else {
                0
            });
            assert(self.spec_candidate(a) == if a == candidate {
                Some(
                    CandidateDetail {
                        total_delegations: (pre.spec_candidate(
                            candidate,
                        ).unwrap().total_delegations - amount) as Balance,
                        ..pre.spec_candidate(candidate).unwrap()
                    },
                )
            } else {
                pre.spec_candidate(a)
            });
        }
        assert forall|a: AccountId|
            (#[trigger] self.spec_account(a)).held_delegate as int == sum_of_delegator(
                self.delegations@,
                a,
            ) by {
            assert(pre.spec_account(a).held_delegate as int == sum_of_delegator(
                pre.delegations@,
                a,
            ));
        }
        assert forall|a: AccountId|
            (#[trigger] self.spec_account(a)).free + self.spec_account(a).held_bond
                + self.spec_account(a).held_delegate <= Balance::MAX by {
            assert(pre.spec_account(a).free + pre.spec_account(a).held_bond + pre.spec_account(
                a,
            ).held_delegate <= Balance::MAX);
        }
    }

    /// Withdraws a delegation on behalf of its delegator: the privileged
    /// form of [`Pallet::undelegate_candidate`], which additionally rejects
    /// an unregistered candidate first.
    pub fn force_undelegate_candidate(
        &mut self,
        delegator: AccountId,
        candidate: AccountId,
        amount: Balance,
    ) -> (r: Result<(), Error>)
        requires
            old(self).wf(),
        ensures
            final(self).wf(),
            !old(self).spec_is_candidate(candidate) ==> {
                &&& r == Err::<(), Error>(Error::CandidateDoesNotExist)
                &&& *final(self) == *old(self)
            },
            old(self).spec_is_candidate(candidate) ==> {
                &&& r == undelegate_outcome(*old(self), delegator, candidate, amount)
                &&& (r.is_err() ==> *final(self) == *old(self))
                &&& (r.is_ok() ==> undelegate_applied(
                    *old(self),
                    *final(self),
                    delegator,
                    candidate,
                    amount,
                ))
            },
    {
        if !self.is_candidate(candidate) {
            return Err(Error::CandidateDoesNotExist);
        }
        self.undelegate_candidate(delegator, candidate, amount)
    }

    /// Removes `candidate` from the pool entirely: every delegator is
    /// refunded, the candidate's bond is released, any residual reward is
    /// paid out, and the record is deleted.
    ///
    /// Fails only on an unknown candidate, changing nothing.
    #[verifier::rlimit(60)]
    #[verifier::spinoff_prover]
    pub fn deregister_candidate_inner(&mut self, candidate: AccountId) -> (r: Result<(), Error>)
        requires
            old(self).wf(),
        ensures
            final(self).wf(),
            !old(self).spec_is_candidate(candidate) ==> {
                &&& r == Err::<(), Error>(Error::CandidateDoesNotExist)
                &&& *final(self) == *old(self)
            },
            old(self).spec_is_candidate(candidate) ==> {
                &&& r == Ok::<(), Error>(())
                &&& dereg_applied(*old(self), *final(self), candidate)
            },
    {
        let det = match self.candidate_pool.get(candidate) {
            Some(det) => det,
            None => {
                return Err(Error::CandidateDoesNotExist);
            },
        };
        let recs = self.delegations.records_for(candidate);
        proof {
            lemma_records_of(old(self).delegations@, candidate);
        }
        let n = recs.len();
        for k in 0..n
            invariant
                n == recs@.len(),
                recs@ == records_of(old(self).delegations@, candidate),
                old(self).wf(),
                self.delegations@ == old(self).delegations@,
                self.delegations.wf(),
                self.candidate_pool@ == old(self).candidate_pool@,
                self.reward_points@ == old(self).reward_points@,
                self.requests_deregister@ == old(self).requests_deregister@,
                self.requests_undelegate@ == old(self).requests_undelegate@,
                self.active_validators@ == old(self).active_validators@,
                snapshot_eq(old(self).last_epoch_snapshot, self.last_epoch_snapshot),
                self.events@ == old(self).events@,
                self.reported_validators@ == old(self).reported_validators@,
                self.config == old(self).config,
                self.balance_rate == old(self).balance_rate,
                self.block_number == old(self).block_number,
                self.epoch_index == old(self).epoch_index,
                self.accounts.wf(),
                self.delegate_count.wf(),
                forall|j: int|
                    k <= j < n ==> #[trigger] self.spec_account(recs@[j].delegator) == old(
                        self,
                    ).spec_account(recs@[j].delegator),
                forall|j: int|
                    k <= j < n ==> #[trigger] self.spec_delegate_count(recs@[j].delegator)
                        == old(self).spec_delegate_count(recs@[j].delegator),
                forall|j: int|
                    0 <= j < k ==> #[trigger] self.spec_account(recs@[j].delegator)
                        == refunded_account(
                        old(self).spec_account(recs@[j].delegator),
                        recs@[j].amount,
                    ),
                forall|j: int|
                    0 <= j < k ==> #[trigger] self.spec_delegate_count(recs@[j].delegator) == (
                    old(self).spec_delegate_count(recs@[j].delegator) - 1) as u32,
                forall|a: AccountId|
                    dget(old(self).delegations@, a, candidate).is_none() ==> {
                        &&& #[trigger] self.spec_account(a) == old(self).spec_account(a)
                        &&& self.spec_delegate_count(a) == old(self).spec_delegate_count(a)
                    },
                forall|a: AccountId|
                    (#[trigger] self.spec_account(a)).free + self.spec_account(a).held_bond
                        + self.spec_account(a).held_delegate <= Balance::MAX,
        {
            let r = recs[k];
            proof {
                lemma_records_of(old(self).delegations@, candidate);
                assert(recs@[k as int].candidate == candidate);
                assert(dget(old(self).delegations@, r.delegator, candidate) == Some(r.amount));
                lemma_dget_some_exists(old(self).delegations@, r.delegator, candidate);
                let i = choose|i: int|
                    0 <= i < old(self).delegations@.len() && (#[trigger] old(
                        self,
                    ).delegations@[i]) == (DelegationRecord {
                        delegator: r.delegator,
                        candidate,
                        amount: r.amount,
                    });
                lemma_sum_lower_bound(
                    old(self).delegations@,
                    i,
                    |q: DelegationRecord| q.delegator == r.delegator,
                );
                assert(old(self).spec_account(r.delegator).held_delegate >= r.amount);
                assert(old(self).spec_delegate_count(r.delegator) >= 1);
                assert(self.spec_account(r.delegator) == old(self).spec_account(r.delegator));
            }
            let ghost step0 = *self;
            self.release_delegate(r.delegator, r.amount);
            let cnt = match self.delegate_count.get(r.delegator) {
                Some(n0) => n0,
                None => 0,
            };
            proof {
                assert(self.spec_delegate_count(r.delegator) == step0.spec_delegate_count(
                    r.delegator,
                )) by {
                    assert(self.delegate_count@ == step0.delegate_count@);
                }
                assert(cnt == old(self).spec_delegate_count(r.delegator));
            }
            let ghost step1 = *self;
            self.delegate_count.set(r.delegator, cnt - 1);
            proof {
                assert forall|a: AccountId| #[trigger]
                    self.spec_account(a) == step1.spec_account(a) by {
                    assert(self.accounts == step1.accounts);
                }
                assert forall|d2: AccountId|
                    d2 != r.delegator implies #[trigger] self.spec_delegate_count(d2)
                    == step0.spec_delegate_count(d2) by {
                    assert(step1.delegate_count@ == step0.delegate_count@);
                }
                assert(self.spec_delegate_count(r.delegator) == (old(self).spec_delegate_count(
                    r.delegator,
                ) - 1) as u32);
                assert forall|d2: AccountId|
                    d2 != r.delegator implies #[trigger] self.spec_account(d2)
                    == step0.spec_account(d2) by {
                    assert(step1.spec_account(d2) == step0.spec_account(d2));
                }
                assert(self.spec_account(r.delegator) == refunded_account(
                    old(self).spec_account(r.delegator),
                    r.amount,
                )) by {
                    assert(step1.spec_account(r.delegator) == (AccountBalance {
                        free: (step0.spec_account(r.delegator).free + spec_min(
                            r.amount,
                            step0.spec_account(r.delegator).held_delegate,
                        )) as Balance,
                        held_bond: step0.spec_account(r.delegator).held_bond,
                        held_delegate: (step0.spec_account(r.delegator).held_delegate
                            - spec_min(
                            r.amount,
                            step0.spec_account(r.delegator).held_delegate,
                        )) as Balance,
                    }));
                }
                assert forall|j: int| k + 1 <= j < n implies #[trigger] self.spec_account(
                    recs@[j].delegator,
                ) == old(self).spec_account(recs@[j].delegator) && #[trigger] self
                    .spec_delegate_count(recs@[j].delegator) == old(self).spec_delegate_count(
                    recs@[j].delegator,
                ) by {
                    assert(recs@[j].delegator != recs@[k as int].delegator);
                    assert(self.spec_account(recs@[j].delegator) == step0.spec_account(
                        recs@[j].delegator,
                    ));
                    assert(step0.spec_account(recs@[j].delegator) == old(self).spec_account(
                        recs@[j].delegator,
                    ));
                    assert(self.spec_delegate_count(recs@[j].delegator)
                        == step0.spec_delegate_count(recs@[j].delegator));
                    assert(step0.spec_delegate_count(recs@[j].delegator) == old(
                        self,
                    ).spec_delegate_count(recs@[j].delegator));
                }
                assert forall|j: int| 0 <= j < k + 1 implies #[trigger] self.spec_account(
                    recs@[j].delegator,
                ) == refunded_account(
                    old(self).spec_account(recs@[j].delegator),
                    recs@[j].amount,
                ) && #[trigger] self.spec_delegate_count(recs@[j].delegator) == (old(
                    self,
                ).spec_delegate_count(recs@[j].delegator) - 1) as u32 by {
                    if j < k {
                        assert(recs@[j].delegator != recs@[k as int].delegator);
                        assert(self.spec_account(recs@[j].delegator) == step0.spec_account(
                            recs@[j].delegator,
                        ));
                        assert(step0.spec_account(recs@[j].delegator) == refunded_account(
                            old(self).spec_account(recs@[j].delegator),
                            recs@[j].amount,
                        ));
                        assert(self.spec_delegate_count(recs@[j].delegator)
                            == step0.spec_delegate_count(recs@[j].delegator));
                        assert(step0.spec_delegate_count(recs@[j].delegator) == (old(
                            self,
                        ).spec_delegate_count(recs@[j].delegator) - 1) as u32);
                    }
                }
                assert forall|a: AccountId|
                    dget(old(self).delegations@, a, candidate).is_none() implies {
                    &&& #[trigger] self.spec_account(a) == old(self).spec_account(a)
                    &&& self.spec_delegate_count(a) == old(self).spec_delegate_count(a)
                } by {
                    assert(a != r.delegator);
                    assert(self.spec_account(a) == step0.spec_account(a));
                    assert(step0.spec_account(a) == old(self).spec_account(a));
                    assert(self.spec_delegate_count(a) == step0.spec_delegate_count(a));
                    assert(step0.spec_delegate_count(a) == old(self).spec_delegate_count(a));
                }
            }
        }
        let ghost after_loop = *self;
        proof {
            assert forall|a: AccountId|
                dget(old(self).delegations@, a, candidate).is_none() implies {
                &&& #[trigger] after_loop.spec_account(a) == old(self).spec_account(a)
                &&& after_loop.spec_delegate_count(a) == old(self).spec_delegate_count(a)
            } by {
                assert(self.spec_account(a) == old(self).spec_account(a));
                assert(self.spec_delegate_count(a) == old(self).spec_delegate_count(a));
            }
        }
        self.delegations.remove_candidate(candidate);
        proof {
            crate::delegs::lemma_without_candidate(old(self).delegations@, candidate);
            assert forall|a: AccountId| #[trigger]
                self.spec_account(a) == after_loop.spec_account(a) by {
                assert(self.accounts == after_loop.accounts);
            }
            assert(self.spec_account(candidate).free + self.spec_account(candidate).held_bond
                + self.spec_account(candidate).held_delegate <= Balance::MAX) by {
                assert(after_loop.spec_account(candidate).free + after_loop.spec_account(
                    candidate,
                ).held_bond + after_loop.spec_account(candidate).held_delegate <= Balance::MAX);
            }
        }
        let ghost after_ledger = *self;
        self.release_bond(candidate, det.bond);
        proof {
            assert(self.spec_account(candidate).free + self.spec_account(candidate).held_bond
                + self.spec_account(candidate).held_delegate <= Balance::MAX) by {
                assert(after_ledger.spec_account(candidate).free + after_ledger.spec_account(
                    candidate,
                ).held_bond + after_ledger.spec_account(candidate).held_delegate <= Balance::MAX);
            }
        }
        let ghost after_bond = *self;
        let points = match self.reward_points.get(candidate) {
            Some(p) => p,
            None => 0,
        };
        if points > 0 {
            self.mint_free(candidate, points);
            let ghost after_mint = *self;
            self.reward_points.remove(candidate);
            self.events.push(
                Event::RewardClaimed { claimer: candidate, total_reward: points },
            );
            proof {
                assert forall|a: AccountId| #[trigger]
                    self.spec_account(a) == after_mint.spec_account(a) by {
                    assert(self.accounts == after_mint.accounts);
                }
            }
        }
        let ghost after_reward = *self;
        self.candidate_pool.remove(candidate);
        self.events.push(Event::CandidateRegistrationRemoved { candidate_id: candidate });
        proof {
            self.lemma_dereg_assemble(
                *old(self),
                after_loop,
                after_ledger,
                after_bond,
                after_reward,
                candidate,
                det,
                points,
                recs@,
            );
        }
        Ok(())
    }

    /// Assembles the final state description and well-formedness of a
    /// deregistration from the snapshots its steps leave behind.
    #[verifier::spinoff_prover]
    proof fn lemma_dereg_assemble(
        &self,
        pre: Pallet,
        after_loop: Pallet,
        after_ledger: Pallet,
        after_bond: Pallet,
        after_reward: Pallet,
        candidate: AccountId,
        det: CandidateDetail,
        points: Balance,
        recs: Seq<DelegationRecord>,
    )
        requires
            pre.wf(),
            pre.spec_candidate(candidate) == Some(det),
            recs == records_of(pre.delegations@, candidate),
            // after the refund loop
            after_loop.delegations@ == pre.delegations@,
            after_loop.candidate_pool@ == pre.candidate_pool@,
            after_loop.reward_points@ == pre.reward_points@,
            after_loop.requests_deregister@ == pre.requests_deregister@,
            after_loop.requests_undelegate@ == pre.requests_undelegate@,
            after_loop.active_validators@ == pre.active_validators@,
            snapshot_eq(pre.last_epoch_snapshot, after_loop.last_epoch_snapshot),
            after_loop.events@ == pre.events@,
            after_loop.reported_validators@ == pre.reported_validators@,
            after_loop.config == pre.config,
            after_loop.balance_rate == pre.balance_rate,
            after_loop.block_number == pre.block_number,
            after_loop.epoch_index == pre.epoch_index,
            after_loop.accounts.wf(),
            after_loop.delegate_count.wf(),
            forall|j: int|
                0 <= j < recs.len() ==> #[trigger] after_loop.spec_account(recs[j].delegator)
                    == refunded_account(pre.spec_account(recs[j].delegator), recs[j].amount),
            forall|j: int|
                0 <= j < recs.len() ==> #[trigger] after_loop.spec_delegate_count(
                    recs[j].delegator,
                ) == (pre.spec_delegate_count(recs[j].delegator) - 1) as u32,
            forall|a: AccountId|
                dget(pre.delegations@, a, candidate).is_none() ==> {
                    &&& #[trigger] after_loop.spec_account(a) == pre.spec_account(a)
                    &&& after_loop.spec_delegate_count(a) == pre.spec_delegate_count(a)
                },
            forall|a: AccountId|
                (#[trigger] after_loop.spec_account(a)).free + after_loop.spec_account(
                    a,
                ).held_bond + after_loop.spec_account(a).held_delegate <= Balance::MAX,
            // the ledger wipe
            after_ledger == (Pallet {
                delegations: after_ledger.delegations,
                ..after_loop
            }),
            after_ledger.delegations@ == crate::delegs::without_candidate(
                pre.delegations@,
                candidate,
            ),
            after_ledger.delegations.wf(),
            // the bond release
            crate::pallet::unchanged_but_accounts(after_ledger, after_bond),
            after_bond.accounts.wf(),
            forall|a: AccountId|
                #[trigger] after_bond.spec_account(a) == if a == candidate {
                    AccountBalance {
                        free: (after_ledger.spec_account(candidate).free + spec_min(
                            det.bond,
                            after_ledger.spec_account(candidate).held_bond,
                        )) as Balance,
                        held_bond: (after_ledger.spec_account(candidate).held_bond - spec_min(
                            det.bond,
                            after_ledger.spec_account(candidate).held_bond,
                        )) as Balance,
                        held_delegate: after_ledger.spec_account(candidate).held_delegate,
                    }
                } else {
                    after_ledger.spec_account(a)
                },
            // the reward flush
            points == pre.spec_reward_points(candidate),
            points > 0 ==> {
                &&& after_reward.accounts.wf()
                &&& after_reward.reward_points.wf()
                &&& after_reward.config == after_bond.config
                &&& after_reward.candidate_pool@ == after_bond.candidate_pool@
                &&& after_reward.delegations@ == after_bond.delegations@
                &&& after_reward.delegate_count@ == after_bond.delegate_count@
                &&& after_reward.requests_deregister@ == after_bond.requests_deregister@
                &&& after_reward.requests_undelegate@ == after_bond.requests_undelegate@
                &&& after_reward.active_validators@ == after_bond.active_validators@
                &&& snapshot_eq(after_bond.last_epoch_snapshot, after_reward.last_epoch_snapshot)
                &&& after_reward.balance_rate == after_bond.balance_rate
                &&& after_reward.epoch_index == after_bond.epoch_index
                &&& after_reward.block_number == after_bond.block_number
                &&& after_reward.reported_validators@ == after_bond.reported_validators@
                &&& forall|a: AccountId|
                    #[trigger] after_reward.spec_account(a) == if a == candidate {
                        AccountBalance {
                            free: spec_minted_free(after_bond.spec_account(candidate), points),
                            ..after_bond.spec_account(candidate)
                        }
                    } else {
                        after_bond.spec_account(a)
                    }
                &&& forall|a: AccountId|
                    #[trigger] after_reward.reward_points.spec_get(a) == if a == candidate {
                        None::<Balance>
                    } else {
                        after_bond.reward_points.spec_get(a)
                    }
                &&& after_reward.events@ == after_bond.events@.push(
                    Event::RewardClaimed { claimer: candidate, total_reward: points },
                )
            },
            points == 0 ==> after_reward == after_bond,
            // the pool removal
            self.config == after_reward.config,
            self.delegations@ == after_reward.delegations@,
            self.delegate_count@ == after_reward.delegate_count@,
            self.reward_points@ == after_reward.reward_points@,
            self.accounts@ == after_reward.accounts@,
            self.requests_deregister@ == after_reward.requests_deregister@,
            self.requests_undelegate@ == after_reward.requests_undelegate@,
            self.active_validators@ == after_reward.active_validators@,
            snapshot_eq(after_reward.last_epoch_snapshot, self.last_epoch_snapshot),
            self.balance_rate == after_reward.balance_rate,
            self.epoch_index == after_reward.epoch_index,
            self.block_number == after_reward.block_number,
            self.reported_validators@ == after_reward.reported_validators@,
            self.accounts.wf(),
            self.reward_points.wf(),
            self.delegations.wf(),
            self.delegate_count.wf(),
            self.requests_deregister.wf(),
            self.requests_undelegate.wf(),
            self.candidate_pool.wf(),
            self.candidate_pool@ =~= after_reward.candidate_pool@.remove(
                crate::store::key_index(after_reward.candidate_pool@, candidate),
            ),
            forall|c2: AccountId|
                #[trigger] self.candidate_pool.spec_get(c2) == if c2 == candidate {
                    None::<CandidateDetail>
                } else {
                    after_reward.candidate_pool.spec_get(c2)
                },
            self.events@ == after_reward.events@.push(
                Event::CandidateRegistrationRemoved { candidate_id: candidate },
            ),
        ensures
            self.wf(),
            dereg_applied(pre, *self, candidate),
    {
        lemma_records_of(pre.delegations@, candidate);
        crate::delegs::lemma_without_candidate(pre.delegations@, candidate);
        // Account description, pointwise over all accounts, chaining the
        // refund loop, the ledger wipe, the bond release and the reward mint.
        assert forall|a: AccountId| #[trigger]
            self.spec_account(a) == dereg_account(pre, candidate, a) by {
            let b0 = pre.spec_account(a);
            let refund = if dget(pre.delegations@, a, candidate).is_some() {
                dget(pre.delegations@, a, candidate).unwrap()
            } else {
                0
            };
            let b1 = refunded_account(b0, refund);
            if dget(pre.delegations@, a, candidate).is_some() {
                let j = choose|j: int|
                    0 <= j < recs.len() && (#[trigger] recs[j]).delegator == a;
                assert(recs[j].amount == dget(pre.delegations@, a, candidate).unwrap());
                assert(after_loop.spec_account(a) == refunded_account(b0, recs[j].amount));
            } else {
                assert(after_loop.spec_account(a) == b0);
                assert(refunded_account(b0, 0) == b0);
            }
            assert(after_loop.spec_account(a) == b1);
            assert(after_ledger.spec_account(a) == b1) by {
                assert(after_ledger.accounts == after_loop.accounts);
            }
            assert(after_loop.spec_account(a).free + after_loop.spec_account(a).held_bond
                + after_loop.spec_account(a).held_delegate <= Balance::MAX);
            if a == candidate {
                assert(b0.held_bond == det.bond);
                assert(b1.held_bond == det.bond);
                assert(spec_min(det.bond, b1.held_bond) == det.bond);
                let b2 = AccountBalance {
                    free: (b1.free + b1.held_bond) as Balance,
                    held_bond: 0,
                    held_delegate: b1.held_delegate,
                };
                assert(after_bond.spec_account(candidate) == b2);
                if points > 0 {
                    assert(after_reward.spec_account(candidate) == (AccountBalance {
                        free: spec_minted_free(b2, points),
                        ..b2
                    }));
                } else {
                    assert(after_reward.spec_account(candidate) == b2);
                    assert(b2.free + 0 + b2.held_bond + b2.held_delegate <= Balance::MAX);
                    assert(spec_minted_free(b2, 0) == b2.free);
                }
                assert(self.spec_account(a) == after_reward.spec_account(a)) by {
                    assert(self.accounts@ == after_reward.accounts@);
                }
            } else {
                assert(after_bond.spec_account(a) == b1);
                if points > 0 {
                    assert(after_reward.spec_account(a) == b1);
                } else {
                    assert(after_reward.spec_account(a) == b1);
                }
                assert(self.spec_account(a) == after_reward.spec_account(a)) by {
                    assert(self.accounts@ == after_reward.accounts@);
                }
            }
        }
        assert forall|d2: AccountId|
            #[trigger] self.spec_delegate_count(d2) == (if dget(
                pre.delegations@,
                d2,
                candidate,
            ).is_some() {
                (pre.spec_delegate_count(d2) - 1) as u32
            } else {
                pre.spec_delegate_count(d2)
            }) by {
            if dget(pre.delegations@, d2, candidate).is_some() {
                let j = choose|j: int|
                    0 <= j < recs.len() && (#[trigger] recs[j]).delegator == d2;
                assert(after_loop.spec_delegate_count(recs[j].delegator) == (
                pre.spec_delegate_count(recs[j].delegator) - 1) as u32);
            } else {
                assert(after_loop.spec_account(d2) == pre.spec_account(d2));
                assert(after_loop.spec_delegate_count(d2) == pre.spec_delegate_count(d2));
            }
        }
        assert forall|a: AccountId|
            #[trigger] self.spec_reward_points(a) == (if a == candidate {
                0
            } else {
                pre.spec_reward_points(a)
            }) by {
            assert(after_bond.reward_points@ == pre.reward_points@);
            assert(self.reward_points@ == after_reward.reward_points@);
            if points > 0 {
                assert(after_reward.reward_points.spec_get(a) == (if a == candidate {
                    None::<Balance>
                } else {
                    after_bond.reward_points.spec_get(a)
                }));
            } else {
                assert(after_reward.reward_points@ == pre.reward_points@);
            }
        }
        // Well-formedness of the final state.
        assert forall|c: AccountId| (#[trigger] self.spec_candidate(c)).is_some() implies self
            .spec_candidate(c).unwrap().total_delegations == sum_to_candidate(
            self.delegations@,
            c,
        ) by {
            assert(pre.spec_candidate(c).unwrap().total_delegations == sum_to_candidate(
                pre.delegations@,
                c,
            ));
        }
        assert forall|i: int| 0 <= i < self.delegations@.len() implies self.spec_is_candidate(
            (#[trigger] self.delegations@[i]).candidate,
        ) by {
            let j = choose|j: int|
                0 <= j < pre.delegations@.len() && (#[trigger] self.delegations@[i])
                    == pre.delegations@[j];
            assert(pre.spec_is_candidate(pre.delegations@[j].candidate));
            assert(self.delegations@[i].candidate != candidate);
        }
        assert forall|d: AccountId|
            (#[trigger] self.spec_delegate_count(d)) as int == count_of_delegator(
                self.delegations@,
                d,
            ) by {
            assert(pre.spec_delegate_count(d) as int == count_of_delegator(pre.delegations@, d));
            if dget(pre.delegations@, d, candidate).is_some() {
                lemma_dget_some_exists(pre.delegations@, d, candidate);
                let i = choose|i: int|
                    0 <= i < pre.delegations@.len() && (#[trigger] pre.delegations@[i]) == (
                    DelegationRecord {
                        delegator: d,
                        candidate,
                        amount: dget(pre.delegations@, d, candidate).unwrap(),
                    });
                lemma_sum_lower_bound(
                    pre.delegations@,
                    i,
                    |q: DelegationRecord| q.delegator == d,
                );
            }
        }
        assert forall|a: AccountId|
            (#[trigger] self.spec_account(a)).held_bond == (if self.spec_candidate(a).is_some() {
                self.spec_candidate(a).unwrap().bond
            } else {
                0
            }) by {
            assert(self.spec_account(a) == dereg_account(pre, candidate, a));
            assert(pre.spec_account(a).held_bond == if pre.spec_candidate(a).is_some() {
                pre.spec_candidate(a).unwrap().bond
            } else {
                0
            });
        }
        assert forall|a: AccountId|
            (#[trigger] self.spec_account(a)).held_delegate as int == sum_of_delegator(
                self.delegations@,
                a,
            ) by {
            assert(self.spec_account(a) == dereg_account(pre, candidate, a));
            assert(pre.spec_account(a).held_delegate as int == sum_of_delegator(
                pre.delegations@,
                a,
            ));
            if dget(pre.delegations@, a, candidate).is_some() {
                lemma_dget_some_exists(pre.delegations@, a, candidate);
                let i = choose|i: int|
                    0 <= i < pre.delegations@.len() && (#[trigger] pre.delegations@[i]) == (
                    DelegationRecord {
                        delegator: a,
                        candidate,
                        amount: dget(pre.delegations@, a, candidate).unwrap(),
                    });
                lemma_sum_lower_bound(
                    pre.delegations@,
                    i,
                    |q: DelegationRecord| q.delegator == a,
                );
            }
        }
        assert forall|a: AccountId|
            (#[trigger] self.spec_account(a)).free + self.spec_account(a).held_bond
                + self.spec_account(a).held_delegate <= Balance::MAX by {
            assert(self.spec_account(a) == dereg_account(pre, candidate, a));
            assert(after_loop.spec_account(a).free + after_loop.spec_account(a).held_bond
                + after_loop.spec_account(a).held_delegate <= Balance::MAX);
            if dget(pre.delegations@, a, candidate).is_some() {
                let j = choose|j: int|
                    0 <= j < recs.len() && (#[trigger] recs[j]).delegator == a;
                assert(after_loop.spec_account(a) == refunded_account(
                    pre.spec_account(a),
                    recs[j].amount,
                ));
            } else {
                assert(after_loop.spec_account(a) == pre.spec_account(a));
            }
        }
        assert(self.events@ == pre.events@ + (if points > 0 {
            seq![Event::RewardClaimed { claimer: candidate, total_reward: points }]
        } else {
            Seq::<Event>::empty()
        }) + seq![Event::CandidateRegistrationRemoved { candidate_id: candidate }]) by {
            if points > 0 {
                assert(self.events@ =~= pre.events@ + seq![
                    Event::RewardClaimed { claimer: candidate, total_reward: points },
                ] + seq![Event::CandidateRegistrationRemoved { candidate_id: candidate }]);
            } else {
                assert(self.events@ =~= pre.events@ + Seq::<Event>::empty() + seq![
                    Event::CandidateRegistrationRemoved { candidate_id: candidate },
                ]);
            }
        }
    }

    /// Reduces `who`'s bond by `bond`, releasing that much escrow.  Reducing
    /// to exactly zero deregisters the candidate entirely; any other
    /// remainder must stay at or above the minimum bond.
    ///
    /// Rejections follow [`bond_less_outcome`] and change nothing.
    pub fn candidate_bond_less(&mut self, who: AccountId, bond: Balance) -> (r: Result<(), Error>)
        requires
            old(self).wf(),
        ensures
            final(self).wf(),
            r == bond_less_outcome(*old(self), who, bond),
            r.is_err() ==> *final(self) == *old(self),
            r.is_ok() && bond == old(self).spec_candidate(who).unwrap().bond ==> dereg_applied(
                *old(self),
                *final(self),
                who,
            ),
            r.is_ok() && bond != old(self).spec_candidate(who).unwrap().bond ==> {
                &&& forall|c: AccountId|
                    #[trigger] final(self).spec_candidate(c) == if c == who {
                        Some(
                            CandidateDetail {
                                bond: (old(self).spec_candidate(who).unwrap().bond
                                    - bond) as Balance,
                                ..old(self).spec_candidate(who).unwrap()
                            },
                        )
                    } else {
                        old(self).spec_candidate(c)
                    }
                &&& final(self).candidate_pool@.len() == old(self).candidate_pool@.len()
                &&& forall|a: AccountId|
                    #[trigger] final(self).spec_account(a) == if a == who {
                        AccountBalance {
                            free: (old(self).spec_account(who).free + bond) as Balance,
                            held_bond: (old(self).spec_account(who).held_bond - bond) as Balance,
                            held_delegate: old(self).spec_account(who).held_delegate,
                        }
                    } else {
                        old(self).spec_account(a)
                    }
                &&& final(self).events@ == old(self).events@.push(
                    Event::CandidateLessBondStaked { candidate_id: who, deducted_bond: bond },
                )
                &&& final(self).delegations@ == old(self).delegations@
                &&& final(self).delegate_count@ == old(self).delegate_count@
                &&& final(self).reward_points@ == old(self).reward_points@
                &&& same_requests(*old(self), *final(self))
                &&& same_epoch_state(*old(self), *final(self))
                &&& same_meta(*old(self), *final(self))
            },
    {
        if bond == 0 {
            return Err(Error::InvalidZeroAmount);
        }
        let mut detail = self.get_candidate(who)?;
        if bond > detail.bond {
            return Err(Error::InvalidMinimumCandidateBond);
        }
        let new_bond = detail.bond - bond;
        if new_bond == 0 {
            return self.deregister_candidate_inner(who);
        }
        if new_bond < self.config.min_candidate_bond {
            return Err(Error::BelowMinimumCandidateBond);
        }
        proof {
            assert(old(self).spec_account(who).held_bond == detail.bond);
        }
        self.release_bond(who, bond);
        let ghost mid = *self;
        detail.update_bond(new_bond);
        self.candidate_pool.set(who, detail);
        self.events.push(
            Event::CandidateLessBondStaked { candidate_id: who, deducted_bond: bond },
        );
        proof {
            assert forall|a: AccountId| #[trigger]
                self.spec_account(a) == mid.spec_account(a) by {
                assert(self.accounts == mid.accounts);
            }
            assert(spec_min(bond, old(self).spec_account(who).held_bond) == bond);
            assert forall|a: AccountId|
                (#[trigger] self.spec_account(a)).free + self.spec_account(a).held_bond
                    + self.spec_account(a).held_delegate <= Balance::MAX by {
                assert(old(self).spec_account(a).free + old(self).spec_account(a).held_bond + old(
                    self,
                ).spec_account(a).held_delegate <= Balance::MAX);
            }
            self.lemma_wf_after_pool_and_accounts(*old(self));
            assert(self.wf());
        }
        Ok(())
    }

    /// Releases up to `bond` of `candidate`'s escrowed bond back to its free
    /// balance, best-effort.  The registry itself is not touched: the
    /// operations that shrink or delete the bond record call this and
    /// re-align the bookkeeping themselves.
    pub fn release_candidate_bonds(&mut self, candidate: AccountId, bond: Balance)
        requires
            old(self).accounts.wf(),
            old(self).spec_account(candidate).free + old(self).spec_account(candidate).held_bond
                + old(self).spec_account(candidate).held_delegate <= Balance::MAX,
        ensures
            final(self).accounts.wf(),
            forall|a: AccountId|
                #[trigger] final(self).spec_account(a) == if a == candidate {
                    AccountBalance {
                        free: (old(self).spec_account(candidate).free + spec_min(
                            bond,
                            old(self).spec_account(candidate).held_bond,
                        )) as Balance,
                        held_bond: (old(self).spec_account(candidate).held_bond - spec_min(
                            bond,
                            old(self).spec_account(candidate).held_bond,
                        )) as Balance,
                        held_delegate: old(self).spec_account(candidate).held_delegate,
                    }
                } else {
                    old(self).spec_account(a)
                },
            crate::pallet::unchanged_but_accounts(*old(self), *final(self)),
    {
        self.release_bond(candidate, bond);
    }

    /// Deregisters the caller from the candidate pool, instantly.
    pub fn deregister_candidate(&mut self, who: AccountId) -> (r: Result<(), Error>)
        requires
            old(self).wf(),
        ensures
            final(self).wf(),
            !old(self).spec_is_candidate(who) ==> {
                &&& r == Err::<(), Error>(Error::CandidateDoesNotExist)
                &&& *final(self) == *old(self)
            },
            old(self).spec_is_candidate(who) ==> {
                &&& r == Ok::<(), Error>(())
                &&& dereg_applied(*old(self), *final(self), who)
            },
    {
        self.deregister_candidate_inner(who)
    }

    /// Deregisters a candidate on the host's authority: the privileged form
    /// of [`Pallet::deregister_candidate`].
    pub fn force_deregister_candidate(&mut self, candidate: AccountId) -> (r: Result<(), Error>)
        requires
            old(self).wf(),
        ensures
            final(self).wf(),
            !old(self).spec_is_candidate(candidate) ==> {
                &&& r == Err::<(), Error>(Error::CandidateDoesNotExist)
                &&& *final(self) == *old(self)
            },
            old(self).spec_is_candidate(candidate) ==> {
                &&& r == Ok::<(), Error>(())
                &&& dereg_applied(*old(self), *final(self), candidate)
            },
    {
        if !self.is_candidate(candidate) {
            return Err(Error::CandidateDoesNotExist);
        }
        self.deregister_candidate_inner(candidate)
    }

    /// Pays `who`'s accrued reward out to its free balance and clears the
    /// ledger entry.  Fails with `NoClaimableRewardFound` when nothing is
    /// accrued, changing nothing.
    pub fn claim_reward(&mut self, who: AccountId) -> (r: Result<(), Error>)
        requires
            old(self).wf(),
        ensures
            final(self).wf(),
            old(self).spec_reward_points(who) == 0 ==> {
                &&& r == Err::<(), Error>(Error::NoClaimableRewardFound)
                &&& *final(self) == *old(self)
            },
            old(self).spec_reward_points(who) > 0 ==> {
                &&& r == Ok::<(), Error>(())
                &&& forall|a: AccountId|
                    #[trigger] final(self).spec_account(a) == if a == who {
                        AccountBalance {
                            free: spec_minted_free(
                                old(self).spec_account(who),
                                old(self).spec_reward_points(who),
                            ),
                            ..old(self).spec_account(who)
                        }
                    } else {
                        old(self).spec_account(a)
                    }
                &&& forall|a: AccountId|
                    #[trigger] final(self).spec_reward_points(a) == if a == who {
                        0
                    } else {
                        old(self).spec_reward_points(a)
                    }
                &&& final(self).events@ == old(self).events@.push(
                    Event::RewardClaimed {
                        claimer: who,
                        total_reward: old(self).spec_reward_points(who),
                    },
                )
                &&& same_registry(*old(self), *final(self))
                &&& same_requests(*old(self), *final(self))
                &&& same_epoch_state(*old(self), *final(self))
                &&& same_meta(*old(self), *final(self))
            },
    {
        let points = match self.reward_points.get(who) {
            Some(p) => p,
            None => {
                return Err(Error::NoClaimableRewardFound);
            },
        };
        if points == 0 {
            return Err(Error::NoClaimableRewardFound);
        }
        self.mint_free(who, points);
        let ghost mid = *self;
        self.reward_points.remove(who);
        self.events.push(Event::RewardClaimed { claimer: who, total_reward: points });
        proof {
            assert forall|a: AccountId| #[trigger]
                self.spec_account(a) == mid.spec_account(a) by {
                assert(self.accounts == mid.accounts);
            }
            assert forall|c: AccountId|
                (#[trigger] self.spec_candidate(c)).is_some() implies self.spec_candidate(
                c,
            ).unwrap().total_delegations == sum_to_candidate(self.delegations@, c) by {
                assert(old(self).spec_candidate(c).is_some());
            }
            assert forall|i: int| 0 <= i < self.delegations@.len() implies self.spec_is_candidate(
                (#[trigger] self.delegations@[i]).candidate,
            ) by {
                assert(old(self).spec_is_candidate(old(self).delegations@[i].candidate));
                assert(old(self).spec_candidate(old(self).delegations@[i].candidate).is_some());
            }
            assert forall|d: AccountId|
                (#[trigger] self.spec_delegate_count(d)) as int == count_of_delegator(
                    self.delegations@,
                    d,
                ) by {
                assert(old(self).spec_delegate_count(d) as int == count_of_delegator(
                    old(self).delegations@,
                    d,
                ));
            }
            assert forall|a: AccountId|
                (#[trigger] self.spec_account(a)).held_bond == (if self.spec_candidate(
                    a,
                ).is_some() {
                    self.spec_candidate(a).unwrap().bond
                } else {
                    0
                }) by {
                assert(old(self).spec_account(a).held_bond == if old(self).spec_candidate(
                    a,
                ).is_some() {
                    old(self).spec_candidate(a).unwrap().bond
                } else {
                    0
                });
            }
            assert forall|a: AccountId|
                (#[trigger] self.spec_account(a)).held_delegate as int == sum_of_delegator(
                    self.delegations@,
                    a,
                ) by {
                assert(old(self).spec_account(a).held_delegate as int == sum_of_delegator(
                    old(self).delegations@,
                    a,
                ));
            }
            assert forall|a: AccountId|
                (#[trigger] self.spec_account(a)).free + self.spec_account(a).held_bond
                    + self.spec_account(a).held_delegate <= Balance::MAX by {
                assert(old(self).spec_account(a).free + old(self).spec_account(a).held_bond + old(
                    self,
                ).spec_account(a).held_delegate <= Balance::MAX);
            }
        }
        Ok(())
    }

    /// Punitively burns up to `amount` from `who`'s escrowed bond.  If the
    /// remaining bond falls under the minimum the candidate is deregistered
    /// entirely, refunding its delegators and paying out its residual
    /// reward; otherwise the bond is reduced in place.
    ///
    /// Fails only on an unregistered account, changing nothing.
    pub fn do_slash(&mut self, who: AccountId, amount: Balance) -> (r: Result<(), Error>)
        requires
            old(self).wf(),
        ensures
            final(self).wf(),
            !old(self).spec_is_candidate(who) ==> {
                &&& r == Err::<(), Error>(Error::CandidateDoesNotExist)
                &&& *final(self) == *old(self)
            },
            old(self).spec_is_candidate(who) ==> {
                &&& r == Ok::<(), Error>(())
                &&& {
                    let bond0 = old(self).spec_candidate(who).unwrap().bond;
                    let burned = spec_min(amount, bond0);
                    let new_bond = (bond0 - burned) as Balance;
                    if new_bond < old(self).config.min_candidate_bond {
                        slash_dereg_applied(*old(self), *final(self), who, burned)
                    } else {
                        &&& forall|c: AccountId|
                            #[trigger] final(self).spec_candidate(c) == if c == who {
                                Some(
                                    CandidateDetail {
                                        bond: new_bond,
                                        ..old(self).spec_candidate(who).unwrap()
                                    },
                                )
                            } else {
                                old(self).spec_candidate(c)
                            }
                        &&& final(self).candidate_pool@.len() == old(self).candidate_pool@.len()
                        &&& forall|a: AccountId|
                            #[trigger] final(self).spec_account(a) == if a == who {
                                AccountBalance {
                                    free: old(self).spec_account(who).free,
                                    held_bond: new_bond,
                                    held_delegate: old(self).spec_account(who).held_delegate,
                                }
                            } else {
                                old(self).spec_account(a)
                            }
                        &&& final(self).events@ == old(self).events@.push(
                            Event::CandidateBondSlashed {
                                candidate_id: who,
                                slashed_amount: amount,
                            },
                        )
                        &&& final(self).delegations@ == old(self).delegations@
                        &&& final(self).delegate_count@ == old(self).delegate_count@
                        &&& final(self).reward_points@ == old(self).reward_points@
                        &&& same_requests(*old(self), *final(self))
                        &&& same_epoch_state(*old(self), *final(self))
                        &&& same_meta(*old(self), *final(self))
                    }
                }
            },
    {
        let mut detail = self.get_candidate(who)?;
        let burned_target = if amount <= detail.bond {
            amount
        } else {
            detail.bond
        };
        proof {
            assert(old(self).spec_account(who).held_bond == detail.bond);
        }
        let burned = self.burn_held_bond(who, burned_target);
        let new_bond = detail.bond - burned;
        let ghost mid0 = *self;
        detail.update_bond(new_bond);
        self.candidate_pool.set(who, detail);
        let ghost mid = *self;
        proof {
            assert forall|a: AccountId| #[trigger]
                mid.spec_account(a) == mid0.spec_account(a) by {
                assert(mid.accounts == mid0.accounts);
            }
            assert(spec_min(burned_target, old(self).spec_account(who).held_bond)
                == burned_target);
            assert forall|a: AccountId|
                (#[trigger] mid.spec_account(a)).free + mid.spec_account(a).held_bond
                    + mid.spec_account(a).held_delegate <= Balance::MAX by {
                assert(old(self).spec_account(a).free + old(self).spec_account(a).held_bond + old(
                    self,
                ).spec_account(a).held_delegate <= Balance::MAX);
            }
            mid.lemma_wf_after_pool_and_accounts(*old(self));
            assert(mid.wf());
        }
        if new_bond < self.config.min_candidate_bond {
            let inner = self.deregister_candidate_inner(who);
            proof {
                assert(inner == Ok::<(), Error>(()));
                self.lemma_slash_dereg_bridge(*old(self), mid, who, burned);
            }
            return Ok(());
        }
        self.events.push(
            Event::CandidateBondSlashed { candidate_id: who, slashed_amount: amount },
        );
        proof {
            assert forall|a: AccountId|
                #[trigger] self.spec_account(a) == (if a == who {
                    AccountBalance {
                        free: old(self).spec_account(who).free,
                        held_bond: new_bond,
                        held_delegate: old(self).spec_account(who).held_delegate,
                    }
                } else {
                    old(self).spec_account(a)
                }) by {
                assert(self.accounts == mid.accounts);
                assert(mid.spec_account(a) == mid0.spec_account(a));
            }
            assert(self.wf()) by {
                assert(self.candidate_pool@ == mid.candidate_pool@);
                assert(self.accounts@ == mid.accounts@);
                assert(self.delegations@ == mid.delegations@);
                assert(self.delegate_count@ == mid.delegate_count@);
                assert forall|c: AccountId|
                    (#[trigger] self.spec_candidate(c)).is_some() implies self.spec_candidate(
                    c,
                ).unwrap().total_delegations == sum_to_candidate(self.delegations@, c) by {
                    assert(mid.spec_candidate(c).is_some() && mid.spec_candidate(c)
                        == self.spec_candidate(c));
                    assert(mid.spec_candidate(c).unwrap().total_delegations == sum_to_candidate(
                        mid.delegations@,
                        c,
                    ));
                }
                assert forall|i: int|
                    0 <= i < self.delegations@.len() implies self.spec_is_candidate(
                    (#[trigger] self.delegations@[i]).candidate,
                ) by {
                    assert(mid.spec_is_candidate(mid.delegations@[i].candidate));
                    assert(mid.spec_candidate(mid.delegations@[i].candidate).is_some());
                }
                assert forall|d: AccountId|
                    (#[trigger] self.spec_delegate_count(d)) as int == count_of_delegator(
                        self.delegations@,
                        d,
                    ) by {
                    assert(mid.spec_delegate_count(d) as int == count_of_delegator(
                        mid.delegations@,
                        d,
                    ));
                }
                assert forall|a: AccountId|
                    (#[trigger] self.spec_account(a)).held_bond == (if self.spec_candidate(
                        a,
                    ).is_some() {
                        self.spec_candidate(a).unwrap().bond
                    } else {
                        0
                    }) by {
                    assert(mid.spec_account(a).held_bond == if mid.spec_candidate(a).is_some() {
                        mid.spec_candidate(a).unwrap().bond
                    } else {
                        0
                    });
                }
                assert forall|a: AccountId|
                    (#[trigger] self.spec_account(a)).held_delegate as int == sum_of_delegator(
                        self.delegations@,
                        a,
                    ) by {
                    assert(mid.spec_account(a).held_delegate as int == sum_of_delegator(
                        mid.delegations@,
                        a,
                    ));
                }
                assert forall|a: AccountId|
                    (#[trigger] self.spec_account(a)).free + self.spec_account(a).held_bond
                        + self.spec_account(a).held_delegate <= Balance::MAX by {
                    assert(mid.spec_account(a).free + mid.spec_account(a).held_bond
                        + mid.spec_account(a).held_delegate <= Balance::MAX);
                }
            }
        }
        Ok(())
    }

    /// Bridges the deregistration description over the slashed intermediate
    /// state back to the pre-slash state.
    proof fn lemma_slash_dereg_bridge(
        &self,
        pre: Pallet,
        mid: Pallet,
        who: AccountId,
        burned: Balance,
    )
        requires
            pre.wf(),
            mid.wf(),
            pre.spec_is_candidate(who),
            burned <= pre.spec_candidate(who).unwrap().bond,
            // how the slash step changed the state
            forall|c: AccountId|
                #[trigger] mid.spec_candidate(c) == if c == who {
                    Some(
                        CandidateDetail {
                            bond: (pre.spec_candidate(who).unwrap().bond - burned) as Balance,
                            ..pre.spec_candidate(who).unwrap()
                        },
                    )
                } else {
                    pre.spec_candidate(c)
                },
            mid.candidate_pool@ == pre.candidate_pool@.update(
                crate::store::key_index(pre.candidate_pool@, who),
                (who, CandidateDetail {
                    bond: (pre.spec_candidate(who).unwrap().bond - burned) as Balance,
                    ..pre.spec_candidate(who).unwrap()
                }),
            ),
            forall|a: AccountId|
                #[trigger] mid.spec_account(a) == if a == who {
                    AccountBalance {
                        free: pre.spec_account(who).free,
                        held_bond: (pre.spec_account(who).held_bond - burned) as Balance,
                        held_delegate: pre.spec_account(who).held_delegate,
                    }
                } else {
                    pre.spec_account(a)
                },
            mid.delegations@ == pre.delegations@,
            mid.delegate_count@ == pre.delegate_count@,
            mid.reward_points@ == pre.reward_points@,
            same_requests(pre, mid),
            same_epoch_state(pre, mid),
            same_meta(pre, mid),
            mid.events@ == pre.events@,
            // the deregistration that followed
            dereg_applied(mid, *self, who),
        ensures
            slash_dereg_applied(pre, *self, who, burned),
    {
        assert(self.candidate_pool@ == pre.candidate_pool@.remove(
            crate::store::key_index(pre.candidate_pool@, who),
        )) by {
            crate::store::lemma_seq_get_some_exists(pre.candidate_pool@, who);
            let i = choose|i: int|
                0 <= i < pre.candidate_pool@.len() && (#[trigger] pre.candidate_pool@[i]) == (
                who,
                crate::store::seq_get(pre.candidate_pool@, who).unwrap(),
            );
            crate::store::lemma_key_index(pre.candidate_pool@, who, i);
            assert(mid.candidate_pool@[i].0 == who);
            crate::store::lemma_key_index(mid.candidate_pool@, who, i);
            assert(mid.candidate_pool@.remove(i) =~= pre.candidate_pool@.remove(i));
        }
        assert forall|a: AccountId| #[trigger]
            self.spec_account(a) == slash_dereg_account(pre, who, burned, a) by {
            assert(self.spec_account(a) == dereg_account(mid, who, a));
            assert(mid.spec_reward_points(who) == pre.spec_reward_points(who));
        }
        assert forall|a: AccountId|
            #[trigger] self.spec_reward_points(a) == (if a == who {
                0
            } else {
                pre.spec_reward_points(a)
            }) by {
            assert(mid.spec_reward_points(a) == pre.spec_reward_points(a));
        }
        assert(self.events@ == pre.events@ + (if pre.spec_reward_points(who) > 0 {
            seq![
                Event::RewardClaimed { claimer: who, total_reward: pre.spec_reward_points(who) },
            ]
        } else {
            Seq::<Event>::empty()
        }) + seq![Event::CandidateRegistrationRemoved { candidate_id: who }]) by {
            assert(mid.spec_reward_points(who) == pre.spec_reward_points(who));
        }
    }

    /// Frames the well-formedness conjuncts across a delegation change: the
    /// delegation ledger gained `amount` on `(delegator, candidate)`, the
    /// pool's total and the delegator's count and hold moved with it.
    proof fn lemma_wf_after_delegation_change(
        &self,
        pre: Pallet,
        mid: Pallet,
        delegator: AccountId,
        candidate: AccountId,
        amount: Balance,
    )
        requires
            pre.wf(),
            self.candidate_pool.wf(),
            self.delegations.wf(),
            self.delegate_count.wf(),
            self.accounts.wf(),
            self.reward_points@ == pre.reward_points@,
            self.requests_deregister@ == pre.requests_deregister@,
            self.requests_undelegate@ == pre.requests_undelegate@,
            self.balance_rate == pre.balance_rate,
            pre.spec_is_candidate(candidate),
            // ledger: the pair's amount grew by `amount`, everything else kept
            forall|d2: AccountId, c2: AccountId|
                #[trigger] dget(self.delegations@, d2, c2) == if d2 == delegator && c2
                    == candidate {
                    Some((spec_delegated_before(pre, delegator, candidate) + amount) as Balance)
                } else {
                    dget(pre.delegations@, d2, c2)
                },
            spec_delegated_before(pre, delegator, candidate) + amount <= Balance::MAX,
            forall|c2: AccountId|
                #[trigger] sum_to_candidate(self.delegations@, c2) == sum_to_candidate(
                    pre.delegations@,
                    c2,
                ) + if c2 == candidate {
                    amount as int
                } else {
                    0
                },
            forall|d2: AccountId|
                #[trigger] sum_of_delegator(self.delegations@, d2) == sum_of_delegator(
                    pre.delegations@,
                    d2,
                ) + if d2 == delegator {
                    amount as int
                } else {
                    0
                },
            forall|d2: AccountId|
                #[trigger] count_of_delegator(self.delegations@, d2) == count_of_delegator(
                    pre.delegations@,
                    d2,
                ) + if d2 == delegator && pre.spec_delegation(delegator, candidate).is_none() {
                    1int
                } else {
                    0
                },
            forall|i: int|
                0 <= i < self.delegations@.len() ==> (#[trigger] self.delegations@[i]).candidate
                    == candidate || pre.spec_is_candidate(self.delegations@[i].candidate),
            // stored counts follow
            forall|d2: AccountId|
                #[trigger] self.spec_delegate_count(d2) == if d2 == delegator && pre
                    .spec_delegation(delegator, candidate).is_none() {
                    (pre.spec_delegate_count(delegator) + 1) as u32
                } else {
                    pre.spec_delegate_count(d2)
                },
            pre.spec_delegation(delegator, candidate).is_none() ==> pre.spec_delegate_count(
                delegator,
            ) + 1 <= u32::MAX,
            // the pool follows
            forall|c2: AccountId|
                #[trigger] self.spec_candidate(c2) == if c2 == candidate {
                    Some(
                        CandidateDetail {
                            total_delegations: (pre.spec_candidate(
                                candidate,
                            ).unwrap().total_delegations + amount) as Balance,
                            ..pre.spec_candidate(candidate).unwrap()
                        },
                    )
                } else {
                    pre.spec_candidate(c2)
                },
            pre.spec_candidate(candidate).unwrap().total_delegations + amount <= Balance::MAX,
            // the ledger follows
            forall|a: AccountId|
                #[trigger] self.spec_account(a) == if a == delegator {
                    AccountBalance {
                        free: (pre.spec_account(delegator).free - amount) as Balance,
                        held_bond: pre.spec_account(delegator).held_bond,
                        held_delegate: (pre.spec_account(delegator).held_delegate
                            + amount) as Balance,
                    }
                } else {
                    pre.spec_account(a)
                },
            pre.spec_account(delegator).free >= amount,
        ensures
            self.wf(),
    {
        assert forall|c: AccountId| (#[trigger] self.spec_candidate(c)).is_some() implies self
            .spec_candidate(c).unwrap().total_delegations == sum_to_candidate(
            self.delegations@,
            c,
        ) by {
            if c == candidate {
                assert(pre.spec_candidate(candidate).unwrap().total_delegations
                    == sum_to_candidate(pre.delegations@, candidate));
            } else {
                assert(pre.spec_candidate(c) == self.spec_candidate(c));
                if pre.spec_candidate(c).is_some() {
                    assert(pre.spec_candidate(c).unwrap().total_delegations == sum_to_candidate(
                        pre.delegations@,
                        c,
                    ));
                }
            }
        }
        assert forall|i: int| 0 <= i < self.delegations@.len() implies self.spec_is_candidate(
            (#[trigger] self.delegations@[i]).candidate,
        ) by {
            let c2 = self.delegations@[i].candidate;
            if c2 == candidate {
                assert(self.spec_candidate(candidate).is_some());
            } else {
                assert(pre.spec_candidate(c2).is_some());
                assert(self.spec_candidate(c2).is_some());
            }
        }
        assert forall|d: AccountId|
            (#[trigger] self.spec_delegate_count(d)) as int == count_of_delegator(
                self.delegations@,
                d,
            ) by {
            assert(pre.spec_delegate_count(d) as int == count_of_delegator(pre.delegations@, d));
            assert(count_of_delegator(self.delegations@, d) == count_of_delegator(
                pre.delegations@,
                d,
            ) + if d == delegator && pre.spec_delegation(delegator, candidate).is_none() {
                1int
            } else {
                0
            });
        }
        assert forall|a: AccountId|
            (#[trigger] self.spec_account(a)).held_bond == (if self.spec_candidate(a).is_some() {
                self.spec_candidate(a).unwrap().bond
            } else {
                0
            }) by {
            assert(pre.spec_account(a).held_bond == if pre.spec_candidate(a).is_some() {
                pre.spec_candidate(a).unwrap().bond
            } else {
                0
            });
            assert(self.spec_candidate(a) == if a == candidate {
                Some(
                    CandidateDetail {
                        total_delegations: (pre.spec_candidate(
                            candidate,
                        ).unwrap().total_delegations + amount) as Balance,
                        ..pre.spec_candidate(candidate).unwrap()
                    },
                )
            } else {
                pre.spec_candidate(a)
            });
        }
        assert forall|a: AccountId|
            (#[trigger] self.spec_account(a)).held_delegate as int == sum_of_delegator(
                self.delegations@,
                a,
            ) by {
            assert(pre.spec_account(a).held_delegate as int == sum_of_delegator(
                pre.delegations@,
                a,
            ));
            assert(sum_of_delegator(self.delegations@, a) == sum_of_delegator(pre.delegations@, a)
                + if a == delegator {
                amount as int
            } else {
                0
            });
        }
        assert forall|a: AccountId|
            (#[trigger] self.spec_account(a)).free + self.spec_account(a).held_bond
                + self.spec_account(a).held_delegate <= Balance::MAX by {
            assert(pre.spec_account(a).free + pre.spec_account(a).held_bond + pre.spec_account(
                a,
            ).held_delegate <= Balance::MAX);
        }
    }

    /// Re-establishes the delegation-side well-formedness conjuncts after an
    /// operation that changed only the pool's bonds/statuses, the account
    /// ledger and the event log.
    proof fn lemma_wf_after_pool_and_accounts(&self, pre: Pallet)
        requires
            pre.wf(),
            self.delegations@ == pre.delegations@,
            self.delegate_count@ == pre.delegate_count@,
            self.balance_rate == pre.balance_rate,
            self.candidate_pool.wf(),
            self.delegations.wf(),
            self.accounts.wf(),
            self.reward_points@ == pre.reward_points@,
            self.requests_deregister@ == pre.requests_deregister@,
            self.requests_undelegate@ == pre.requests_undelegate@,
            // the pool changed pointwise in bond/status only, except for at
            // most one new candidate with no delegations and a bond equal to
            // its new hold
            forall|c: AccountId|
                (#[trigger] self.spec_candidate(c)).is_some() ==> {
                    &&& self.spec_candidate(c).unwrap().total_delegations == (
                    if pre.spec_candidate(c).is_some() {
                        pre.spec_candidate(c).unwrap().total_delegations
                    } else {
                        0
                    })
                    &&& (pre.spec_candidate(c).is_some() || sum_to_candidate(pre.delegations@, c)
                        == 0)
                },
            forall|c: AccountId|
                (#[trigger] pre.spec_candidate(c)).is_some() ==> self.spec_candidate(c).is_some(),
            // account holds match the new pool
            forall|a: AccountId|
                (#[trigger] self.spec_account(a)).held_bond == (if self.spec_candidate(
                    a,
                ).is_some() {
                    self.spec_candidate(a).unwrap().bond
                } else {
                    0
                }),
            forall|a: AccountId|
                (#[trigger] self.spec_account(a)).held_delegate == pre.spec_account(
                    a,
                ).held_delegate,
            forall|a: AccountId|
                (#[trigger] self.spec_account(a)).free + self.spec_account(a).held_bond
                    + self.spec_account(a).held_delegate <= Balance::MAX,
        ensures
            self.wf(),
    {
        assert forall|c: AccountId| (#[trigger] self.spec_candidate(c)).is_some() implies self
            .spec_candidate(c).unwrap().total_delegations == sum_to_candidate(
            self.delegations@,
            c,
        ) by {
            if pre.spec_candidate(c).is_some() {
                assert(pre.spec_candidate(c).unwrap().total_delegations == sum_to_candidate(
                    pre.delegations@,
                    c,
                ));
            }
        }
        assert forall|i: int| 0 <= i < self.delegations@.len() implies self.spec_is_candidate(
            (#[trigger] self.delegations@[i]).candidate,
        ) by {
            let cand = pre.delegations@[i].candidate;
            assert(self.delegations@[i] == pre.delegations@[i]);
            assert(pre.spec_is_candidate(cand));
            assert(pre.spec_candidate(cand).is_some());
            assert(self.spec_candidate(cand).is_some());
        }
        assert forall|d: AccountId|
            (#[trigger] self.spec_delegate_count(d)) as int == count_of_delegator(
                self.delegations@,
                d,
            ) by {
            assert(pre.spec_delegate_count(d) as int == count_of_delegator(pre.delegations@, d));
        }
        assert forall|a: AccountId|
            (#[trigger] self.spec_account(a)).held_delegate as int == sum_of_delegator(
                self.delegations@,
                a,
            ) by {
            assert(pre.spec_account(a).held_delegate as int == sum_of_delegator(
                pre.delegations@,
                a,
            ));
        }
    }
}

} // verus!
