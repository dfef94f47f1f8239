//! The delayed-action state machine: schedule, execute and cancel for the
//! two time-locked actions, deregistration and undelegation.
//!
//! At most one request of each kind is pending per requester.  A pending
//! request may be executed once its delay has elapsed, or cancelled at any
//! time.  Scheduling a deregistration flips the candidate offline, so the
//! next election skips it; cancelling flips it back.

use vstd::prelude::*;

use crate::delegs::{count_of_delegator, sum_of_delegator, sum_to_candidate};
use crate::pallet::Pallet;
use crate::registry::{
    dereg_applied_core, same_epoch_state, same_meta, undelegate_applied_core, undelegate_outcome,
};
use crate::types::{CandidateDetail, DelayActionRequest, DelayActionType, Error, ValidatorStatus};
use crate::{AccountId, Balance, BlockNumber};

verus! {

/// Blocks elapsed since `created`, clamped at zero.
pub open spec fn spec_elapsed(now: BlockNumber, created: BlockNumber) -> BlockNumber {
    if now >= created {
        (now - created) as BlockNumber
    } else {
        0
    }
}

/// What scheduling a deregistration returns, for every input.
pub open spec fn delay_deregister_outcome(s: Pallet, who: AccountId) -> Result<(), Error> {
    if s.spec_request(who, DelayActionType::CandidateLeaved).is_some() {
        Err(Error::ActionIsStillInDelayDuration)
    } else if !s.spec_is_candidate(who) {
        Err(Error::CandidateDoesNotExist)
    } else {
        Ok(())
    }
}

/// What scheduling an undelegation returns, for every input.
pub open spec fn delay_undelegate_outcome(
    s: Pallet,
    who: AccountId,
    candidate: AccountId,
) -> Result<(), Error> {
    if !s.spec_is_candidate(candidate) {
        Err(Error::CandidateDoesNotExist)
    } else if s.spec_request(who, DelayActionType::CandidateUndelegated).is_some() {
        Err(Error::ActionIsStillInDelayDuration)
    } else if s.spec_delegation(who, candidate).is_none() {
        Err(Error::DelegationDoesNotExist)
    } else {
        Ok(())
    }
}

/// What executing a scheduled deregistration returns, for every input.
pub open spec fn execute_deregister_outcome(s: Pallet, who: AccountId) -> Result<(), Error> {
    match s.spec_request(who, DelayActionType::CandidateLeaved) {
        Option::None => Err(Error::NoDelayActionRequestFound),
        Option::Some(req) => {
            if spec_elapsed(s.block_number, req.created_at) < req.delay_for {
                Err(Error::ActionIsStillInDelayDuration)
            } else if !s.spec_is_candidate(who) {
                Err(Error::CandidateDoesNotExist)
            } else {
                Ok(())
            }
        },
    }
}

/// What executing a scheduled undelegation returns, for every input.
pub open spec fn execute_undelegate_outcome(s: Pallet, who: AccountId) -> Result<(), Error> {
    match s.spec_request(who, DelayActionType::CandidateUndelegated) {
        Option::None => Err(Error::NoDelayActionRequestFound),
        Option::Some(req) => {
            if spec_elapsed(s.block_number, req.created_at) < req.delay_for {
                Err(Error::ActionIsStillInDelayDuration)
            } else {
                match req.target {
                    Option::None => Err(Error::InvalidDelayActionPayload),
                    Option::Some(target) => undelegate_outcome(
                        s,
                        who,
                        target,
                        match req.amount {
                            Option::Some(a) => a,
                            Option::None => 0,
                        },
                    ),
                }
            }
        },
    }
}

impl Pallet {
    /// The pending request of `(who, action)`, if any.
    pub fn delay_action_requests(&self, who: AccountId, action: DelayActionType) -> (r: Option<
        DelayActionRequest,
    >)
        requires
            self.wf(),
        ensures
            r == self.spec_request(who, action),
    {
        match action {
            DelayActionType::CandidateLeaved => self.requests_deregister.get(who),
            DelayActionType::CandidateUndelegated => self.requests_undelegate.get(who),
        }
    }

    /// Flips the election status of `who` between online and offline.
    pub fn toggle_candidate_status(&mut self, who: AccountId) -> (r: Result<(), Error>)
        requires
            old(self).wf(),
        ensures
            final(self).wf(),
            !old(self).spec_is_candidate(who) ==> {
                &&& r == Err::<(), Error>(Error::CandidateDoesNotExist)
                &&& *final(self) == *old(self)
            },
            old(self).spec_is_candidate(who) ==> {
                &&& r == Ok::<(), Error>(())
                &&& forall|c: AccountId|
                    #[trigger] final(self).spec_candidate(c) == if c == who {
                        Some(
                            CandidateDetail {
                                status: spec_toggled(
                                    old(self).spec_candidate(who).unwrap().status,
                                ),
                                ..old(self).spec_candidate(who).unwrap()
                            },
                        )
                    } else {
                        old(self).spec_candidate(c)
                    }
                &&& final(self).candidate_pool@.len() == old(self).candidate_pool@.len()
                &&& final(self).accounts@ == old(self).accounts@
                &&& final(self).delegations@ == old(self).delegations@
                &&& final(self).delegate_count@ == old(self).delegate_count@
                &&& final(self).reward_points@ == old(self).reward_points@
                &&& final(self).events@ == old(self).events@
                &&& crate::registry::same_requests(*old(self), *final(self))
                &&& same_epoch_state(*old(self), *final(self))
                &&& same_meta(*old(self), *final(self))
            },
    {
        let mut detail = self.get_candidate(who)?;
        detail.toggle_status();
        self.candidate_pool.set(who, detail);
        proof {
            self.lemma_wf_after_status_change(*old(self), who);
        }
        Ok(())
    }

    /// Frames well-formedness across a change that only replaced one
    /// candidate's status and left every other component alone.
    proof fn lemma_wf_after_status_change(&self, pre: Pallet, who: AccountId)
        requires
            pre.wf(),
            self.candidate_pool.wf(),
            self.delegations@ == pre.delegations@,
            self.delegate_count@ == pre.delegate_count@,
            self.reward_points@ == pre.reward_points@,
            self.accounts@ == pre.accounts@,
            self.requests_deregister@ == pre.requests_deregister@,
            self.requests_undelegate@ == pre.requests_undelegate@,
            self.balance_rate == pre.balance_rate,
            pre.spec_is_candidate(who),
            forall|c: AccountId|
                (#[trigger] self.spec_candidate(c)).is_some() == pre.spec_candidate(c).is_some(),
            forall|c: AccountId|
                (#[trigger] self.spec_candidate(c)).is_some() ==> {
                    &&& self.spec_candidate(c).unwrap().total_delegations == pre.spec_candidate(
                        c,
                    ).unwrap().total_delegations
                    &&& self.spec_candidate(c).unwrap().bond == pre.spec_candidate(
                        c,
                    ).unwrap().bond
                },
        ensures
            self.wf(),
    {
        assert forall|c: AccountId| (#[trigger] self.spec_candidate(c)).is_some() implies self
            .spec_candidate(c).unwrap().total_delegations == sum_to_candidate(
            self.delegations@,
            c,
        ) by {
            assert(pre.spec_candidate(c).is_some());
            assert(pre.spec_candidate(c).unwrap().total_delegations
                == sum_to_candidate(pre.delegations@, c));
        }
        assert forall|i: int| 0 <= i < self.delegations@.len() implies self.spec_is_candidate(
            (#[trigger] self.delegations@[i]).candidate,
        ) by {
            assert(pre.spec_is_candidate(pre.delegations@[i].candidate));
            assert(pre.spec_candidate(pre.delegations@[i].candidate).is_some());
            assert(self.spec_candidate(pre.delegations@[i].candidate).is_some());
        }
        assert forall|d: AccountId|
            (#[trigger] self.spec_delegate_count(d)) as int
                == count_of_delegator(self.delegations@, d) by {
            assert(pre.spec_delegate_count(d) as int == count_of_delegator(
                pre.delegations@,
                d,
            ));
        }
        assert forall|a: AccountId|
            (#[trigger] self.spec_account(a)).held_bond == (if self.spec_candidate(a).is_some() {
                self.spec_candidate(a).unwrap().bond
            } else {
                0
            }) by {
            assert(self.spec_account(a) == pre.spec_account(a));
            assert(pre.spec_account(a).held_bond == if pre.spec_candidate(a).is_some() {
                pre.spec_candidate(a).unwrap().bond
            } else {
                0
            });
        }
        assert forall|a: AccountId|
            (#[trigger] self.spec_account(a)).held_delegate as int
                == sum_of_delegator(self.delegations@, a) by {
            assert(self.spec_account(a) == pre.spec_account(a));
            assert(pre.spec_account(a).held_delegate as int == sum_of_delegator(
                pre.delegations@,
                a,
            ));
        }
        assert forall|a: AccountId|
            (#[trigger] self.spec_account(a)).free + self.spec_account(a).held_bond
                + self.spec_account(a).held_delegate <= crate::Balance::MAX by {
            assert(self.spec_account(a) == pre.spec_account(a));
            assert(pre.spec_account(a).free + pre.spec_account(a).held_bond + pre.spec_account(
                a,
            ).held_delegate <= crate::Balance::MAX);
        }
    }

    /// Schedules the caller's deregistration.  The candidate is flipped
    /// offline at once and leaves the pool only when the request is executed
    /// after its delay.
    ///
    /// Fails when a deregistration request is already pending, or the caller
    /// is no candidate — in that order, changing nothing.
    pub fn delay_deregister_candidate(&mut self, who: AccountId) -> (r: Result<(), Error>)
        requires
            old(self).wf(),
        ensures
            final(self).wf(),
            r == delay_deregister_outcome(*old(self), who),
            r.is_err() ==> *final(self) == *old(self),
            r.is_ok() ==> {
                &&& forall|c: AccountId|
                    #[trigger] final(self).spec_candidate(c) == if c == who {
                        Some(
                            CandidateDetail {
                                status: spec_toggled(
                                    old(self).spec_candidate(who).unwrap().status,
                                ),
                                ..old(self).spec_candidate(who).unwrap()
                            },
                        )
                    } else {
                        old(self).spec_candidate(c)
                    }
                &&& final(self).candidate_pool@.len() == old(self).candidate_pool@.len()
                &&& forall|w: AccountId, t: DelayActionType|
                    #[trigger] final(self).spec_request(w, t) == if w == who && t
                        == DelayActionType::CandidateLeaved {
                        Some(
                            DelayActionRequest {
                                created_at: old(self).block_number,
                                delay_for: old(
                                    self,
                                ).config.delay_deregister_candidate_duration,
                                target: None,
                                amount: None,
                            },
                        )
                    } else {
                        old(self).spec_request(w, t)
                    }
                &&& final(self).accounts@ == old(self).accounts@
                &&& final(self).delegations@ == old(self).delegations@
                &&& final(self).delegate_count@ == old(self).delegate_count@
                &&& final(self).reward_points@ == old(self).reward_points@
                &&& final(self).events@ == old(self).events@
                &&& same_epoch_state(*old(self), *final(self))
                &&& same_meta(*old(self), *final(self))
            },
    {
        if self.requests_deregister.contains_key(who) {
            return Err(Error::ActionIsStillInDelayDuration);
        }
        self.toggle_candidate_status(who)?;
        let ghost mid = *self;
        let request = DelayActionRequest {
            created_at: self.block_number,
            delay_for: self.config.delay_deregister_candidate_duration,
            target: None,
            amount: None,
        };
        self.requests_deregister.set(who, request);
        proof {
            assert forall|c: AccountId| #[trigger]
                self.spec_candidate(c) == mid.spec_candidate(c) by {
                assert(self.candidate_pool@ == mid.candidate_pool@);
            }
            assert forall|w: AccountId, t: DelayActionType|
                #[trigger] self.spec_request(w, t) == (if w == who && t
                    == DelayActionType::CandidateLeaved {
                    Some(request)
                } else {
                    old(self).spec_request(w, t)
                }) by {
                assert(self.requests_undelegate@ == old(self).requests_undelegate@);
                if t == DelayActionType::CandidateLeaved {
                    assert(self.requests_deregister.spec_get(w) == if w == who {
                        Some(request)
                    } else {
                        old(self).requests_deregister.spec_get(w)
                    });
                }
            }
            self.lemma_wf_congruence(mid);
        }
        Ok(())
    }

    /// Schedules an undelegation of `amount` from `candidate` by `who`; the
    /// withdrawal itself happens on execution after the delay, and is
    /// validated then.
    ///
    /// Fails on an unknown candidate, an undelegation request already
    /// pending, or a missing delegation — in that order, changing nothing.
    pub fn delay_undelegate_candidate(
        &mut self,
        who: AccountId,
        candidate: AccountId,
        amount: Balance,
    ) -> (r: Result<(), Error>)
        requires
            old(self).wf(),
        ensures
            final(self).wf(),
            r == delay_undelegate_outcome(*old(self), who, candidate),
            r.is_err() ==> *final(self) == *old(self),
            r.is_ok() ==> {
                &&& forall|w: AccountId, t: DelayActionType|
                    #[trigger] final(self).spec_request(w, t) == if w == who && t
                        == DelayActionType::CandidateUndelegated {
                        Some(
                            DelayActionRequest {
                                created_at: old(self).block_number,
                                delay_for: old(self).config.delay_undelegate_candidate,
                                target: Some(candidate),
                                amount: Some(amount),
                            },
                        )
                    } else {
                        old(self).spec_request(w, t)
                    }
                &&& final(self).candidate_pool@ == old(self).candidate_pool@
                &&& final(self).accounts@ == old(self).accounts@
                &&& final(self).delegations@ == old(self).delegations@
                &&& final(self).delegate_count@ == old(self).delegate_count@
                &&& final(self).reward_points@ == old(self).reward_points@
                &&& final(self).events@ == old(self).events@
                &&& same_epoch_state(*old(self), *final(self))
                &&& same_meta(*old(self), *final(self))
            },
    {
        if !self.is_candidate(candidate) {
            return Err(Error::CandidateDoesNotExist);
        }
        if self.requests_undelegate.contains_key(who) {
            return Err(Error::ActionIsStillInDelayDuration);
        }
        if self.delegations.get(who, candidate).is_none() {
            return Err(Error::DelegationDoesNotExist);
        }
        let request = DelayActionRequest {
            created_at: self.block_number,
            delay_for: self.config.delay_undelegate_candidate,
            target: Some(candidate),
            amount: Some(amount),
        };
        self.requests_undelegate.set(who, request);
        proof {
            assert forall|w: AccountId, t: DelayActionType|
                #[trigger] self.spec_request(w, t) == (if w == who && t
                    == DelayActionType::CandidateUndelegated {
                    Some(request)
                } else {
                    old(self).spec_request(w, t)
                }) by {
                assert(self.requests_deregister@ == old(self).requests_deregister@);
                if t == DelayActionType::CandidateUndelegated {
                    assert(self.requests_undelegate.spec_get(w) == if w == who {
                        Some(request)
                    } else {
                        old(self).requests_undelegate.spec_get(w)
                    });
                }
            }
            self.lemma_wf_congruence(*old(self));
        }
        Ok(())
    }

    /// Executes the caller's pending deregistration once its delay has
    /// elapsed, then clears the request.
    ///
    /// Rejections follow [`execute_deregister_outcome`] and change nothing.
    pub fn execute_deregister_candidate(&mut self, who: AccountId) -> (r: Result<(), Error>)
        requires
            old(self).wf(),
        ensures
            final(self).wf(),
            r == execute_deregister_outcome(*old(self), who),
            r.is_err() ==> *final(self) == *old(self),
            r.is_ok() ==> {
                &&& dereg_applied_core(*old(self), *final(self), who)
                &&& forall|w: AccountId, t: DelayActionType|
                    #[trigger] final(self).spec_request(w, t) == if w == who && t
                        == DelayActionType::CandidateLeaved {
                        None::<DelayActionRequest>
                    } else {
                        old(self).spec_request(w, t)
                    }
            },
    {
        let request = match self.requests_deregister.get(who) {
            Some(req) => req,
            None => {
                return Err(Error::NoDelayActionRequestFound);
            },
        };
        let now = self.block_number;
        let elapsed = if now >= request.created_at {
            now - request.created_at
        } else {
            0
        };
        if elapsed < request.delay_for {
            return Err(Error::ActionIsStillInDelayDuration);
        }
        self.deregister_candidate_inner(who)?;
        let ghost mid = *self;
        self.requests_deregister.remove(who);
        proof {
            assert(dereg_applied_core(*old(self), *self, who)) by {
                assert(self.candidate_pool@ == mid.candidate_pool@);
                assert(self.delegations@ == mid.delegations@);
                assert(self.accounts@ == mid.accounts@);
                assert(self.delegate_count@ == mid.delegate_count@);
                assert(self.reward_points@ == mid.reward_points@);
                assert(self.events@ == mid.events@);
                assert forall|c2: AccountId| #[trigger]
                    self.spec_candidate(c2) == mid.spec_candidate(c2) by {}
                assert forall|d2: AccountId, c2: AccountId| #[trigger]
                    self.spec_delegation(d2, c2) == mid.spec_delegation(d2, c2) by {}
                assert forall|d2: AccountId| #[trigger]
                    self.spec_delegate_count(d2) == mid.spec_delegate_count(d2) by {}
                assert forall|a: AccountId| #[trigger]
                    self.spec_account(a) == mid.spec_account(a) by {}
                assert forall|a: AccountId| #[trigger]
                    self.spec_reward_points(a) == mid.spec_reward_points(a) by {}
            }
            assert forall|w: AccountId, t: DelayActionType|
                #[trigger] self.spec_request(w, t) == (if w == who && t
                    == DelayActionType::CandidateLeaved {
                    None::<DelayActionRequest>
                } else {
                    old(self).spec_request(w, t)
                }) by {
                assert(self.requests_undelegate@ == mid.requests_undelegate@);
                assert(mid.requests_undelegate@ == old(self).requests_undelegate@);
                if t == DelayActionType::CandidateLeaved {
                    assert(self.requests_deregister.spec_get(w) == if w == who {
                        None::<DelayActionRequest>
                    } else {
                        mid.requests_deregister.spec_get(w)
                    });
                    assert(mid.requests_deregister@ == old(self).requests_deregister@);
                }
            }
            self.lemma_wf_congruence(mid);
        }
        Ok(())
    }

    /// Executes the caller's pending undelegation once its delay has
    /// elapsed, then clears the request.
    ///
    /// Rejections follow [`execute_undelegate_outcome`] and change nothing;
    /// in particular a withdrawal the registry rejects leaves the request
    /// pending.
    pub fn execute_undelegate_candidate(&mut self, who: AccountId) -> (r: Result<(), Error>)
        requires
            old(self).wf(),
        ensures
            final(self).wf(),
            r == execute_undelegate_outcome(*old(self), who),
            r.is_err() ==> *final(self) == *old(self),
            r.is_ok() ==> {
                &&& undelegate_applied_core(
                    *old(self),
                    *final(self),
                    who,
                    old(self).spec_request(
                        who,
                        DelayActionType::CandidateUndelegated,
                    ).unwrap().target.unwrap(),
                    match old(self).spec_request(
                        who,
                        DelayActionType::CandidateUndelegated,
                    ).unwrap().amount {
                        Option::Some(a) => a,
                        Option::None => 0,
                    },
                )
                &&& forall|w: AccountId, t: DelayActionType|
                    #[trigger] final(self).spec_request(w, t) == if w == who && t
                        == DelayActionType::CandidateUndelegated {
                        None::<DelayActionRequest>
                    } else {
                        old(self).spec_request(w, t)
                    }
            },
    {
        let request = match self.requests_undelegate.get(who) {
            Some(req) => req,
            None => {
                return Err(Error::NoDelayActionRequestFound);
            },
        };
        let now = self.block_number;
        let elapsed = if now >= request.created_at {
            now - request.created_at
        } else {
            0
        };
        if elapsed < request.delay_for {
            return Err(Error::ActionIsStillInDelayDuration);
        }
        let target = match request.target {
            Some(t) => t,
            None => {
                return Err(Error::InvalidDelayActionPayload);
            },
        };
        let amount = match request.amount {
            Some(a) => a,
            None => 0,
        };
        self.undelegate_candidate(who, target, amount)?;
        let ghost mid = *self;
        self.requests_undelegate.remove(who);
        proof {
            assert(undelegate_applied_core(*old(self), *self, who, target, amount)) by {
                assert(self.candidate_pool@ == mid.candidate_pool@);
                assert(self.delegations@ == mid.delegations@);
                assert(self.accounts@ == mid.accounts@);
                assert(self.delegate_count@ == mid.delegate_count@);
                assert(self.reward_points@ == mid.reward_points@);
                assert(self.events@ == mid.events@);
                assert forall|c2: AccountId| #[trigger]
                    self.spec_candidate(c2) == mid.spec_candidate(c2) by {}
                assert forall|d2: AccountId, c2: AccountId| #[trigger]
                    self.spec_delegation(d2, c2) == mid.spec_delegation(d2, c2) by {}
                assert forall|d2: AccountId| #[trigger]
                    self.spec_delegate_count(d2) == mid.spec_delegate_count(d2) by {}
                assert forall|a: AccountId| #[trigger]
                    self.spec_account(a) == mid.spec_account(a) by {}
            }
            assert forall|w: AccountId, t: DelayActionType|
                #[trigger] self.spec_request(w, t) == (if w == who && t
                    == DelayActionType::CandidateUndelegated {
                    None::<DelayActionRequest>
                } else {
                    old(self).spec_request(w, t)
                }) by {
                assert(self.requests_deregister@ == mid.requests_deregister@);
                assert(mid.requests_deregister@ == old(self).requests_deregister@);
                if t == DelayActionType::CandidateUndelegated {
                    assert(self.requests_undelegate.spec_get(w) == if w == who {
                        None::<DelayActionRequest>
                    } else {
                        mid.requests_undelegate.spec_get(w)
                    });
                    assert(mid.requests_undelegate@ == old(self).requests_undelegate@);
                }
            }
            self.lemma_wf_congruence(mid);
        }
        Ok(())
    }

    /// Cancels the caller's pending deregistration and flips the candidate
    /// back online.
    ///
    /// Fails with `NoDelayActionRequestFound` without a pending request and
    /// `CandidateDoesNotExist` when the candidate is gone — in that order,
    /// changing nothing.
    pub fn cancel_deregister_candidate_request(&mut self, who: AccountId) -> (r: Result<
        (),
        Error,
    >)
        requires
            old(self).wf(),
        ensures
            final(self).wf(),
            old(self).spec_request(who, DelayActionType::CandidateLeaved).is_none() ==> {
                &&& r == Err::<(), Error>(Error::NoDelayActionRequestFound)
                &&& *final(self) == *old(self)
            },
            old(self).spec_request(who, DelayActionType::CandidateLeaved).is_some() && !old(
                self,
            ).spec_is_candidate(who) ==> {
                &&& r == Err::<(), Error>(Error::CandidateDoesNotExist)
                &&& *final(self) == *old(self)
            },
            old(self).spec_request(who, DelayActionType::CandidateLeaved).is_some() && old(
                self,
            ).spec_is_candidate(who) ==> {
                &&& r == Ok::<(), Error>(())
                &&& forall|w: AccountId, t: DelayActionType|
                    #[trigger] final(self).spec_request(w, t) == if w == who && t
                        == DelayActionType::CandidateLeaved {
                        None::<DelayActionRequest>
                    } else {
                        old(self).spec_request(w, t)
                    }
                &&& forall|c: AccountId|
                    #[trigger] final(self).spec_candidate(c) == if c == who {
                        Some(
                            CandidateDetail {
                                status: spec_toggled(
                                    old(self).spec_candidate(who).unwrap().status,
                                ),
                                ..old(self).spec_candidate(who).unwrap()
                            },
                        )
                    } else {
                        old(self).spec_candidate(c)
                    }
                &&& final(self).candidate_pool@.len() == old(self).candidate_pool@.len()
                &&& final(self).accounts@ == old(self).accounts@
                &&& final(self).delegations@ == old(self).delegations@
                &&& final(self).delegate_count@ == old(self).delegate_count@
                &&& final(self).reward_points@ == old(self).reward_points@
                &&& final(self).events@ == old(self).events@
                &&& same_epoch_state(*old(self), *final(self))
                &&& same_meta(*old(self), *final(self))
            },
    {
        if !self.requests_deregister.contains_key(who) {
            return Err(Error::NoDelayActionRequestFound);
        }
        if !self.is_candidate(who) {
            return Err(Error::CandidateDoesNotExist);
        }
        let ghost pre = *self;
        self.requests_deregister.remove(who);
        let ghost mid = *self;
        proof {
            self.lemma_wf_congruence(*old(self));
        }
        let toggled = self.toggle_candidate_status(who);
        proof {
            assert(toggled == Ok::<(), Error>(()));
            assert forall|w: AccountId, t: DelayActionType|
                #[trigger] self.spec_request(w, t) == (if w == who && t
                    == DelayActionType::CandidateLeaved {
                    None::<DelayActionRequest>
                } else {
                    old(self).spec_request(w, t)
                }) by {
                assert(self.requests_deregister@ == mid.requests_deregister@);
                assert(self.requests_undelegate@ == mid.requests_undelegate@);
                assert(mid.requests_undelegate@ == old(self).requests_undelegate@);
                if t == DelayActionType::CandidateLeaved {
                    assert(mid.requests_deregister.spec_get(w) == if w == who {
                        None::<DelayActionRequest>
                    } else {
                        old(self).requests_deregister.spec_get(w)
                    });
                }
            }
            assert forall|c: AccountId|
                #[trigger] self.spec_candidate(c) == (if c == who {
                    Some(
                        CandidateDetail {
                            status: spec_toggled(old(self).spec_candidate(who).unwrap().status),
                            ..old(self).spec_candidate(who).unwrap()
                        },
                    )
                } else {
                    old(self).spec_candidate(c)
                }) by {
                assert(mid.spec_candidate(c) == old(self).spec_candidate(c)) by {
                    assert(mid.candidate_pool@ == old(self).candidate_pool@);
                }
                assert(mid.spec_candidate(who) == old(self).spec_candidate(who)) by {
                    assert(mid.candidate_pool@ == old(self).candidate_pool@);
                }
            }
        }
        Ok(())
    }

    /// Cancels the caller's pending undelegation.
    ///
    /// Fails with `NoDelayActionRequestFound` without a pending request,
    /// changing nothing; on success nothing changes but the cleared request.
    pub fn cancel_undelegate_candidate_request(&mut self, who: AccountId) -> (r: Result<
        (),
        Error,
    >)
        requires
            old(self).wf(),
        ensures
            final(self).wf(),
            old(self).spec_request(who, DelayActionType::CandidateUndelegated).is_none() ==> {
                &&& r == Err::<(), Error>(Error::NoDelayActionRequestFound)
                &&& *final(self) == *old(self)
            },
            old(self).spec_request(who, DelayActionType::CandidateUndelegated).is_some() ==> {
                &&& r == Ok::<(), Error>(())
                &&& forall|w: AccountId, t: DelayActionType|
                    #[trigger] final(self).spec_request(w, t) == if w == who && t
                        == DelayActionType::CandidateUndelegated {
                        None::<DelayActionRequest>
                    } else {
                        old(self).spec_request(w, t)
                    }
                &&& final(self).candidate_pool@ == old(self).candidate_pool@
                &&& final(self).accounts@ == old(self).accounts@
                &&& final(self).delegations@ == old(self).delegations@
                &&& final(self).delegate_count@ == old(self).delegate_count@
                &&& final(self).reward_points@ == old(self).reward_points@
                &&& final(self).events@ == old(self).events@
                &&& same_epoch_state(*old(self), *final(self))
                &&& same_meta(*old(self), *final(self))
            },
    {
        if !self.requests_undelegate.contains_key(who) {
            return Err(Error::NoDelayActionRequestFound);
        }
        self.requests_undelegate.remove(who);
        proof {
            self.lemma_wf_congruence(*old(self));
            assert forall|w: AccountId, t: DelayActionType|
                #[trigger] self.spec_request(w, t) == (if w == who && t
                    == DelayActionType::CandidateUndelegated {
                    None::<DelayActionRequest>
                } else {
                    old(self).spec_request(w, t)
                }) by {
                assert(self.requests_deregister@ == old(self).requests_deregister@);
                if t == DelayActionType::CandidateUndelegated {
                    assert(self.requests_undelegate.spec_get(w) == if w == who {
                        None::<DelayActionRequest>
                    } else {
                        old(self).requests_undelegate.spec_get(w)
                    });
                }
            }
        }
        Ok(())
    }
}

/// The opposite election status.
pub open spec fn spec_toggled(s: ValidatorStatus) -> ValidatorStatus {
    match s {
        ValidatorStatus::Online => ValidatorStatus::Offline,
        ValidatorStatus::Offline => ValidatorStatus::Online,
    }
}

} // verus!
