//! The staking core's state and its balance (escrow) ledger.
//!
//! [`Pallet`] owns every piece of persisted state: the candidate pool, the
//! delegation ledger, stored per-delegator counts, the reward ledger, the
//! account ledger with escrowed holds, the delayed-action requests, the
//! current active set and the last epoch snapshot.  [`Pallet::wf`] ties the
//! stored aggregates to the delegation ledger: every candidate's
//! `total_delegations` is the sum of the delegations to it, every stored
//! delegate count is the number of that delegator's records, and every
//! account's held amounts equal what the registry says is escrowed.

use vstd::prelude::*;

use crate::delegs::{
    count_of_delegator, dget, sum_of_delegator, sum_to_candidate, DelegationRecord, Delegations,
};
use crate::store::UMap;
use crate::types::{CandidateDetail, DelayActionRequest, DelayActionType, Error, Event, HoldReason};
use crate::{AccountId, Balance, BlockNumber};

verus! {

/// The host-supplied parameters of the staking core.
#[derive(Clone, Copy, Debug, PartialEq, Eq, Structural)]
pub struct Config {
    /// Capacity of the candidate pool.
    pub max_candidates: u32,
    /// Maximum number of delegators one candidate can have.
    pub max_candidate_delegators: u32,
    /// Maximum size of the active validator set.
    pub max_active_validators: u32,
    /// Below this many candidates no active set is formed.
    pub min_active_validators: u32,
    /// Maximum number of candidates one delegator can delegate to.
    pub max_delegate_count: u32,
    /// Minimum bond a candidate must escrow to register.
    pub min_candidate_bond: Balance,
    /// Minimum amount a delegation must hold.
    pub min_delegate_amount: Balance,
    /// Number of blocks in one epoch.
    pub epoch_duration: BlockNumber,
    /// Delay of a scheduled deregistration.
    pub delay_deregister_candidate_duration: BlockNumber,
    /// Delay of a scheduled undelegation.
    pub delay_undelegate_candidate: BlockNumber,
    /// Per-cent commission of the block author.
    pub author_commission: u32,
    /// Per-cent commission of the author's delegators.
    pub delegator_commission: u32,
}

/// One account in the balance ledger: spendable funds and the two escrowed
/// holds.
#[derive(Clone, Copy, Debug, PartialEq, Eq, Structural)]
pub struct AccountBalance {
    /// Freely spendable funds.
    pub free: Balance,
    /// Funds held as the account's candidate bond.
    pub held_bond: Balance,
    /// Funds held for the account's delegations.
    pub held_delegate: Balance,
}

/// Validator bonds and delegation weights frozen at an epoch boundary.
/// Reward accrual reads only this snapshot until the next boundary.
pub struct EpochSnapshot {
    /// Each active validator's own bond at capture time.
    pub validators: UMap<Balance>,
    /// Each delegation to an active validator at capture time.
    pub delegations: Vec<DelegationRecord>,
}

impl EpochSnapshot {
    /// An empty snapshot.
    pub fn default() -> (r: EpochSnapshot)
        ensures
            r.validators@ == Seq::<(AccountId, Balance)>::empty(),
            r.delegations@ == Seq::<DelegationRecord>::empty(),
            r.validators.wf(),
    {
        EpochSnapshot { validators: UMap::new(), delegations: Vec::new() }
    }

    /// Records a validator's bond.
    pub fn add_validator(&mut self, candidate: AccountId, amount: Balance)
        requires
            old(self).validators.wf(),
        ensures
            final(self).validators.wf(),
            !old(self).validators.spec_contains(candidate) ==> final(self).validators@
                =~= old(self).validators@.push((candidate, amount)),
            forall|c: AccountId|
                #[trigger] final(self).validators.spec_get(c) == if c == candidate {
                    Some(amount)
                } else {
                    old(self).validators.spec_get(c)
                },
            final(self).delegations@ == old(self).delegations@,
    {
        self.validators.set(candidate, amount);
    }

    /// Records one delegation to a validator.
    pub fn add_delegator(&mut self, delegator: AccountId, candidate: AccountId, amount: Balance)
        ensures
            final(self).delegations@ == old(self).delegations@.push(
                DelegationRecord { delegator, candidate, amount },
            ),
            final(self).validators@ == old(self).validators@,
    {
        self.delegations.push(DelegationRecord { delegator, candidate, amount });
    }
}

/// The whole state of the staking core.
///
/// The host must change it only through the operations of this crate; the
/// fields are public so that their mathematical views can appear in
/// contracts.
pub struct Pallet {
    /// Host-supplied parameters.
    pub config: Config,
    /// Registered candidates in registration order.
    pub candidate_pool: UMap<CandidateDetail>,
    /// All delegations, in creation order.
    pub delegations: Delegations,
    /// Stored number of candidates each delegator delegates to.
    pub delegate_count: UMap<u32>,
    /// Accrued, unclaimed rewards per account.
    pub reward_points: UMap<Balance>,
    /// The balance ledger: free funds and escrowed holds per account.
    pub accounts: UMap<AccountBalance>,
    /// Pending deregistration requests, keyed by requester.
    pub requests_deregister: UMap<DelayActionRequest>,
    /// Pending undelegation requests, keyed by requester.
    pub requests_undelegate: UMap<DelayActionRequest>,
    /// The active set of the current epoch: (validator, bond, total stake).
    pub active_validators: Vec<(AccountId, Balance, Balance)>,
    /// The snapshot rewards are accrued against.
    pub last_epoch_snapshot: Option<EpochSnapshot>,
    /// Per-mille inflation knob, in `1..=999`.
    pub balance_rate: u32,
    /// Number of completed epoch transitions.
    pub epoch_index: u32,
    /// The current block height, as told by the host.
    pub block_number: BlockNumber,
    /// Everything announced so far, oldest first.
    pub events: Vec<Event>,
    /// The validator set most recently reported to the host.
    pub reported_validators: Vec<AccountId>,
}

impl Pallet {
    /// The candidate record of `c`, if registered.
    pub open spec fn spec_candidate(&self, c: AccountId) -> Option<CandidateDetail> {
        self.candidate_pool.spec_get(c)
    }

    /// Whether `c` is registered.
    pub open spec fn spec_is_candidate(&self, c: AccountId) -> bool {
        self.candidate_pool.spec_contains(c)
    }

    /// The amount `d` has delegated to `c`.
    pub open spec fn spec_delegation(&self, d: AccountId, c: AccountId) -> Option<Balance> {
        self.delegations.spec_get(d, c)
    }

    /// The stored delegate count of `d`; accounts without an entry count 0.
    pub open spec fn spec_delegate_count(&self, d: AccountId) -> u32 {
        match self.delegate_count.spec_get(d) {
            Some(n) => n,
            None => 0,
        }
    }

    /// The accrued reward of `a`; accounts without an entry have 0.
    pub open spec fn spec_reward_points(&self, a: AccountId) -> Balance {
        match self.reward_points.spec_get(a) {
            Some(p) => p,
            None => 0,
        }
    }

    /// The ledger entry of `a`; accounts without one are empty.
    pub open spec fn spec_account(&self, a: AccountId) -> AccountBalance {
        match self.accounts.spec_get(a) {
            Some(b) => b,
            None => AccountBalance { free: 0, held_bond: 0, held_delegate: 0 },
        }
    }

    /// The pending request of `(who, action)`, if any.
    pub open spec fn spec_request(&self, who: AccountId, action: DelayActionType) -> Option<
        DelayActionRequest,
    > {
        match action {
            DelayActionType::CandidateLeaved => self.requests_deregister.spec_get(who),
            DelayActionType::CandidateUndelegated => self.requests_undelegate.spec_get(who),
        }
    }

    /// Consistency of the whole state.
    ///
    /// Beyond the key-uniqueness of each map it ties the stored aggregates to
    /// the delegation ledger and the escrow holds to the registry: these are
    /// the invariants every operation preserves.
    pub open spec fn wf(&self) -> bool {
        &&& self.candidate_pool.wf()
        &&& self.delegations.wf()
        &&& self.delegate_count.wf()
        &&& self.reward_points.wf()
        &&& self.accounts.wf()
        &&& self.requests_deregister.wf()
        &&& self.requests_undelegate.wf()
        // Every candidate's stored total equals the sum of the delegations
        // to it.
        &&& forall|c: AccountId|
            (#[trigger] self.spec_candidate(c)).is_some() ==> self.spec_candidate(
                c,
            ).unwrap().total_delegations == sum_to_candidate(self.delegations@, c)
        // Delegations point at registered candidates only.
        &&& forall|i: int|
            0 <= i < self.delegations@.len() ==> self.spec_is_candidate(
                (#[trigger] self.delegations@[i]).candidate,
            )
        // The stored delegate count is the number of the delegator's records.
        &&& forall|d: AccountId|
            (#[trigger] self.spec_delegate_count(d)) as int == count_of_delegator(
                self.delegations@,
                d,
            )
        // The bond hold of an account is exactly its candidate bond.
        &&& forall|a: AccountId|
            (#[trigger] self.spec_account(a)).held_bond == if self.spec_candidate(a).is_some() {
                self.spec_candidate(a).unwrap().bond
            } else {
                0
            }
        // The delegation hold of an account is exactly the sum of its
        // delegations.
        &&& forall|a: AccountId|
            (#[trigger] self.spec_account(a)).held_delegate as int == sum_of_delegator(
                self.delegations@,
                a,
            )
        // An account's balance never overflows across its parts.
        &&& forall|a: AccountId|
            (#[trigger] self.spec_account(a)).free + self.spec_account(a).held_bond
                + self.spec_account(a).held_delegate <= Balance::MAX
        // The inflation knob stays a per-mille factor.
        &&& 1 <= self.balance_rate <= 999
    }

    /// A fresh, empty state under the given configuration.
    ///
    /// The balance rate must be a per-mille factor in `1..=999`; anything
    /// else is rejected.
    pub fn new(config: Config, balance_rate: u32) -> (r: Result<Pallet, Error>)
        ensures
            1 <= balance_rate <= 999 ==> {
                &&& r.is_ok()
                &&& r.unwrap().wf()
                &&& r.unwrap().config == config
                &&& r.unwrap().balance_rate == balance_rate
                &&& r.unwrap().candidate_pool@.len() == 0
                &&& r.unwrap().delegations@.len() == 0
                &&& r.unwrap().delegate_count@.len() == 0
                &&& r.unwrap().reward_points@.len() == 0
                &&& r.unwrap().accounts@.len() == 0
                &&& r.unwrap().requests_deregister@.len() == 0
                &&& r.unwrap().requests_undelegate@.len() == 0
                &&& r.unwrap().events@.len() == 0
                &&& r.unwrap().reported_validators@.len() == 0
                &&& r.unwrap().block_number == 0
                &&& r.unwrap().epoch_index == 0
                &&& r.unwrap().active_validators@.len() == 0
                &&& r.unwrap().last_epoch_snapshot.is_none()
            },
            !(1 <= balance_rate <= 999) ==> r == Err::<Pallet, Error>(Error::IsNotPercentage),
    {
        if balance_rate < 1 || balance_rate > 999 {
            return Err(Error::IsNotPercentage);
        }
        let p = Pallet {
            config,
            candidate_pool: UMap::new(),
            delegations: Delegations::new(),
            delegate_count: UMap::new(),
            reward_points: UMap::new(),
            accounts: UMap::new(),
            requests_deregister: UMap::new(),
            requests_undelegate: UMap::new(),
            active_validators: Vec::new(),
            last_epoch_snapshot: None,
            balance_rate,
            epoch_index: 0,
            block_number: 0,
            events: Vec::new(),
            reported_validators: Vec::new(),
        };
        proof {
            assert forall|d: AccountId|
                (#[trigger] p.spec_delegate_count(d)) as int == count_of_delegator(
                    p.delegations@,
                    d,
                ) by {
                crate::delegs::lemma_sum_zero(
                    p.delegations@,
                    |q: DelegationRecord| q.delegator == d,
                );
            }
            assert forall|a: AccountId|
                (#[trigger] p.spec_account(a)).held_delegate as int == sum_of_delegator(
                    p.delegations@,
                    a,
                ) by {
                crate::delegs::lemma_sum_zero(
                    p.delegations@,
                    |q: DelegationRecord| q.delegator == a,
                );
            }
        }
        Ok(p)
    }

    /// Tells the core the current block height.
    pub fn set_block_number(&mut self, n: BlockNumber)
        ensures
            *final(self) == (Pallet { block_number: n, ..*old(self) }),
    {
        self.block_number = n;
    }

    /// Endows `who` with free funds, as a genesis step.  The free balance is
    /// set to `amount`, capped so the account total stays representable.
    pub fn set_free_balance(&mut self, who: AccountId, amount: Balance)
        requires
            old(self).wf(),
        ensures
            final(self).wf(),
            forall|a: AccountId|
                #[trigger] final(self).spec_account(a) == if a == who {
                    AccountBalance {
                        free: spec_capped_free(old(self).spec_account(who), amount),
                        ..old(self).spec_account(who)
                    }
                } else {
                    old(self).spec_account(a)
                },
            unchanged_but_accounts(*old(self), *final(self)),
    {
        let b = self.account(who);
        let headroom = Balance::MAX - b.held_bond - b.held_delegate;
        let free = if amount <= headroom {
            amount
        } else {
            headroom
        };
        self.accounts.set(who, AccountBalance { free, ..b });
        proof {
            assert forall|c: AccountId|
                (#[trigger] self.spec_candidate(c)).is_some() implies self.spec_candidate(
                c,
            ).unwrap().total_delegations == sum_to_candidate(self.delegations@, c) by {
                assert(old(self).spec_candidate(c).is_some());
            }
            assert forall|d: AccountId|
                (#[trigger] self.spec_delegate_count(d)) as int == count_of_delegator(
                    self.delegations@,
                    d,
                ) by {
                assert(old(self).spec_delegate_count(d) as int == count_of_delegator(
                    old(self).delegations@,
                    d,
                ));
            }
            assert forall|a: AccountId|
                (#[trigger] self.spec_account(a)).held_bond == (if self.spec_candidate(
                    a,
                ).is_some() {
                    self.spec_candidate(a).unwrap().bond
                } else {
                    0
                }) by {
                assert(old(self).spec_account(a).held_bond == if old(self).spec_candidate(
                    a,
                ).is_some() {
                    old(self).spec_candidate(a).unwrap().bond
                } else {
                    0
                });
            }
            assert forall|a: AccountId|
                (#[trigger] self.spec_account(a)).held_delegate as int == sum_of_delegator(
                    self.delegations@,
                    a,
                ) by {
                assert(old(self).spec_account(a).held_delegate as int == sum_of_delegator(
                    old(self).delegations@,
                    a,
                ));
            }
            assert forall|a: AccountId|
                (#[trigger] self.spec_account(a)).free + self.spec_account(a).held_bond
                    + self.spec_account(a).held_delegate <= Balance::MAX by {
                assert(old(self).spec_account(a).free + old(self).spec_account(a).held_bond + old(
                    self,
                ).spec_account(a).held_delegate <= Balance::MAX);
            }
        }
    }

    /// The ledger entry of `who`.
    pub fn account(&self, who: AccountId) -> (r: AccountBalance)
        requires
            self.wf(),
        ensures
            r == self.spec_account(who),
    {
        match self.accounts.get(who) {
            Some(b) => b,
            None => AccountBalance { free: 0, held_bond: 0, held_delegate: 0 },
        }
    }

    /// The spendable funds of `who`.
    pub fn free_balance(&self, who: AccountId) -> (r: Balance)
        requires
            self.wf(),
        ensures
            r == self.spec_account(who).free,
    {
        self.account(who).free
    }

    /// The funds of `who` held under one escrow reason.
    pub fn balance_on_hold(&self, reason: HoldReason, who: AccountId) -> (r: Balance)
        requires
            self.wf(),
        ensures
            reason == HoldReason::CandidateBondReserved ==> r == self.spec_account(who).held_bond,
            reason == HoldReason::DelegateAmountReserved ==> r == self.spec_account(
                who,
            ).held_delegate,
    {
        match reason {
            HoldReason::CandidateBondReserved => self.account(who).held_bond,
            HoldReason::DelegateAmountReserved => self.account(who).held_delegate,
        }
    }

    /// All escrowed funds of `who`.
    pub fn total_balance_on_hold(&self, who: AccountId) -> (r: Balance)
        requires
            self.wf(),
        ensures
            r == self.spec_account(who).held_bond + self.spec_account(who).held_delegate,
    {
        let b = self.account(who);
        b.held_bond + b.held_delegate
    }

    /// Moves `amount` of `who`'s free funds into the bond escrow; fails when
    /// the free balance cannot cover it, changing nothing.
    pub(crate) fn hold_bond(&mut self, who: AccountId, amount: Balance) -> (r: Result<(), Error>)
        requires
            old(self).accounts.wf(),
            old(self).spec_account(who).free + old(self).spec_account(who).held_bond + old(
                self,
            ).spec_account(who).held_delegate <= Balance::MAX,
        ensures
            final(self).accounts.wf(),
            old(self).spec_account(who).free < amount ==> {
                &&& r == Err::<(), Error>(Error::FundsUnavailable)
                &&& *final(self) == *old(self)
            },
            old(self).spec_account(who).free >= amount ==> {
                &&& r == Ok::<(), Error>(())
                &&& forall|a: AccountId|
                    #[trigger] final(self).spec_account(a) == if a == who {
                        AccountBalance {
                            free: (old(self).spec_account(who).free - amount) as Balance,
                            held_bond: (old(self).spec_account(who).held_bond
                                + amount) as Balance,
                            held_delegate: old(self).spec_account(who).held_delegate,
                        }
                    } else {
                        old(self).spec_account(a)
                    }
            },
            unchanged_but_accounts(*old(self), *final(self)),
    {
        let b = match self.accounts.get(who) {
            Some(b) => b,
            None => AccountBalance { free: 0, held_bond: 0, held_delegate: 0 },
        };
        if b.free < amount {
            return Err(Error::FundsUnavailable);
        }
        self.accounts.set(
            who,
            AccountBalance {
                free: b.free - amount,
                held_bond: b.held_bond + amount,
                held_delegate: b.held_delegate,
            },
        );
        Ok(())
    }

    /// Moves `amount` of `who`'s free funds into the delegation escrow; fails
    /// when the free balance cannot cover it, changing nothing.
    pub(crate) fn hold_delegate(&mut self, who: AccountId, amount: Balance) -> (r: Result<
        (),
        Error,
    >)
        requires
            old(self).accounts.wf(),
            old(self).spec_account(who).free + old(self).spec_account(who).held_bond + old(
                self,
            ).spec_account(who).held_delegate <= Balance::MAX,
        ensures
            final(self).accounts.wf(),
            old(self).spec_account(who).free < amount ==> {
                &&& r == Err::<(), Error>(Error::FundsUnavailable)
                &&& *final(self) == *old(self)
            },
            old(self).spec_account(who).free >= amount ==> {
                &&& r == Ok::<(), Error>(())
                &&& forall|a: AccountId|
                    #[trigger] final(self).spec_account(a) == if a == who {
                        AccountBalance {
                            free: (old(self).spec_account(who).free - amount) as Balance,
                            held_bond: old(self).spec_account(who).held_bond,
                            held_delegate: (old(self).spec_account(who).held_delegate
                                + amount) as Balance,
                        }
                    } else {
                        old(self).spec_account(a)
                    }
            },
            unchanged_but_accounts(*old(self), *final(self)),
    {
        let b = match self.accounts.get(who) {
            Some(b) => b,
            None => AccountBalance { free: 0, held_bond: 0, held_delegate: 0 },
        };
        if b.free < amount {
            return Err(Error::FundsUnavailable);
        }
        self.accounts.set(
            who,
            AccountBalance {
                free: b.free - amount,
                held_bond: b.held_bond,
                held_delegate: b.held_delegate + amount,
            },
        );
        Ok(())
    }

    /// Releases up to `amount` from `who`'s bond escrow back to the free
    /// balance: a best-effort release never fails.
    pub(crate) fn release_bond(&mut self, who: AccountId, amount: Balance)
        requires
            old(self).accounts.wf(),
            old(self).spec_account(who).free + old(self).spec_account(who).held_bond + old(
                self,
            ).spec_account(who).held_delegate <= Balance::MAX,
        ensures
            final(self).accounts.wf(),
            forall|a: AccountId|
                #[trigger] final(self).spec_account(a) == if a == who {
                    AccountBalance {
                        free: (old(self).spec_account(who).free + spec_min(
                            amount,
                            old(self).spec_account(who).held_bond,
                        )) as Balance,
                        held_bond: (old(self).spec_account(who).held_bond - spec_min(
                            amount,
                            old(self).spec_account(who).held_bond,
                        )) as Balance,
                        held_delegate: old(self).spec_account(who).held_delegate,
                    }
                } else {
                    old(self).spec_account(a)
                },
            unchanged_but_accounts(*old(self), *final(self)),
    {
        let b = self.accounts_entry(who);
        let x = if amount <= b.held_bond {
            amount
        } else {
            b.held_bond
        };
        self.accounts.set(
            who,
            AccountBalance {
                free: b.free + x,
                held_bond: b.held_bond - x,
                held_delegate: b.held_delegate,
            },
        );
    }

    /// Releases up to `amount` from `who`'s delegation escrow back to the
    /// free balance: a best-effort release never fails.
    pub(crate) fn release_delegate(&mut self, who: AccountId, amount: Balance)
        requires
            old(self).accounts.wf(),
            old(self).spec_account(who).free + old(self).spec_account(who).held_bond + old(
                self,
            ).spec_account(who).held_delegate <= Balance::MAX,
        ensures
            final(self).accounts.wf(),
            forall|a: AccountId|
                #[trigger] final(self).spec_account(a) == if a == who {
                    AccountBalance {
                        free: (old(self).spec_account(who).free + spec_min(
                            amount,
                            old(self).spec_account(who).held_delegate,
                        )) as Balance,
                        held_bond: old(self).spec_account(who).held_bond,
                        held_delegate: (old(self).spec_account(who).held_delegate - spec_min(
                            amount,
                            old(self).spec_account(who).held_delegate,
                        )) as Balance,
                    }
                } else {
                    old(self).spec_account(a)
                },
            unchanged_but_accounts(*old(self), *final(self)),
    {
        let b = self.accounts_entry(who);
        let x = if amount <= b.held_delegate {
            amount
        } else {
            b.held_delegate
        };
        self.accounts.set(
            who,
            AccountBalance {
                free: b.free + x,
                held_bond: b.held_bond,
                held_delegate: b.held_delegate - x,
            },
        );
    }

    /// Burns up to `amount` from `who`'s bond escrow; the burnt funds leave
    /// the ledger.  Returns what was actually burnt.
    pub(crate) fn burn_held_bond(&mut self, who: AccountId, amount: Balance) -> (r: Balance)
        requires
            old(self).accounts.wf(),
        ensures
            final(self).accounts.wf(),
            r == spec_min(amount, old(self).spec_account(who).held_bond),
            forall|a: AccountId|
                #[trigger] final(self).spec_account(a) == if a == who {
                    AccountBalance {
                        free: old(self).spec_account(who).free,
                        held_bond: (old(self).spec_account(who).held_bond - spec_min(
                            amount,
                            old(self).spec_account(who).held_bond,
                        )) as Balance,
                        held_delegate: old(self).spec_account(who).held_delegate,
                    }
                } else {
                    old(self).spec_account(a)
                },
            unchanged_but_accounts(*old(self), *final(self)),
    {
        let b = self.accounts_entry(who);
        let x = if amount <= b.held_bond {
            amount
        } else {
            b.held_bond
        };
        self.accounts.set(
            who,
            AccountBalance {
                free: b.free,
                held_bond: b.held_bond - x,
                held_delegate: b.held_delegate,
            },
        );
        x
    }

    /// Mints `amount` into `who`'s free balance, capped so the account total
    /// stays representable.
    pub(crate) fn mint_free(&mut self, who: AccountId, amount: Balance)
        requires
            old(self).accounts.wf(),
            old(self).spec_account(who).free + old(self).spec_account(who).held_bond + old(
                self,
            ).spec_account(who).held_delegate <= Balance::MAX,
        ensures
            final(self).accounts.wf(),
            forall|a: AccountId|
                #[trigger] final(self).spec_account(a) == if a == who {
                    AccountBalance {
                        free: spec_minted_free(old(self).spec_account(who), amount),
                        ..old(self).spec_account(who)
                    }
                } else {
                    old(self).spec_account(a)
                },
            unchanged_but_accounts(*old(self), *final(self)),
    {
        let b = self.accounts_entry(who);
        let headroom = Balance::MAX - b.free - b.held_bond - b.held_delegate;
        let x = if amount <= headroom {
            amount
        } else {
            headroom
        };
        self.accounts.set(who, AccountBalance { free: b.free + x, ..b });
    }

    /// The raw ledger entry, keyed on the map's own consistency alone.
    fn accounts_entry(&self, who: AccountId) -> (r: AccountBalance)
        requires
            self.accounts.wf(),
        ensures
            r == self.spec_account(who),
    {
        match self.accounts.get(who) {
            Some(b) => b,
            None => AccountBalance { free: 0, held_bond: 0, held_delegate: 0 },
        }
    }
}

impl Pallet {
    /// Well-formedness only reads the views of the maps and the balance
    /// rate: two states that agree on those are equally well-formed
    /// (requests enter only through their key-uniqueness).
    pub(crate) proof fn lemma_wf_congruence(self, other: Pallet)
        requires
            other.wf(),
            self.candidate_pool@ == other.candidate_pool@,
            self.delegations@ == other.delegations@,
            self.delegate_count@ == other.delegate_count@,
            self.reward_points.wf(),
            self.accounts@ == other.accounts@,
            self.requests_deregister.wf(),
            self.requests_undelegate.wf(),
            1 <= self.balance_rate <= 999,
        ensures
            self.wf(),
    {
        assert forall|c: AccountId|
            (#[trigger] self.spec_candidate(c)).is_some() implies self.spec_candidate(
            c,
        ).unwrap().total_delegations == sum_to_candidate(self.delegations@, c) by {
            assert(self.spec_candidate(c) == other.spec_candidate(c));
            assert(other.spec_candidate(c).unwrap().total_delegations == sum_to_candidate(
                other.delegations@,
                c,
            ));
        }
        assert forall|i: int| 0 <= i < self.delegations@.len() implies self.spec_is_candidate(
            (#[trigger] self.delegations@[i]).candidate,
        ) by {
            assert(other.spec_is_candidate(other.delegations@[i].candidate));
            assert(other.spec_candidate(other.delegations@[i].candidate) == self.spec_candidate(
                self.delegations@[i].candidate,
            ));
        }
        assert forall|d: AccountId|
            (#[trigger] self.spec_delegate_count(d)) as int == count_of_delegator(
                self.delegations@,
                d,
            ) by {
            assert(self.spec_delegate_count(d) == other.spec_delegate_count(d));
            assert(other.spec_delegate_count(d) as int == count_of_delegator(
                other.delegations@,
                d,
            ));
        }
        assert forall|a: AccountId|
            (#[trigger] self.spec_account(a)).held_bond == (if self.spec_candidate(a).is_some() {
                self.spec_candidate(a).unwrap().bond
            } else {
                0
            }) by {
            assert(self.spec_account(a) == other.spec_account(a));
            assert(self.spec_candidate(a) == other.spec_candidate(a));
            assert(other.spec_account(a).held_bond == if other.spec_candidate(a).is_some() {
                other.spec_candidate(a).unwrap().bond
            } else {
                0
            });
        }
        assert forall|a: AccountId|
            (#[trigger] self.spec_account(a)).held_delegate as int == sum_of_delegator(
                self.delegations@,
                a,
            ) by {
            assert(self.spec_account(a) == other.spec_account(a));
            assert(other.spec_account(a).held_delegate as int == sum_of_delegator(
                other.delegations@,
                a,
            ));
        }
        assert forall|a: AccountId|
            (#[trigger] self.spec_account(a)).free + self.spec_account(a).held_bond
                + self.spec_account(a).held_delegate <= Balance::MAX by {
            assert(self.spec_account(a) == other.spec_account(a));
            assert(other.spec_account(a).free + other.spec_account(a).held_bond
                + other.spec_account(a).held_delegate <= Balance::MAX);
        }
    }
}

/// The smaller of two balances.
pub open spec fn spec_min(a: Balance, b: Balance) -> Balance {
    if a <= b {
        a
    } else {
        b
    }
}

/// The free balance a genesis endowment of `amount` leaves on `b`: `amount`,
/// capped so that `free + held_bond + held_delegate` stays representable.
pub open spec fn spec_capped_free(b: AccountBalance, amount: Balance) -> Balance {
    if amount + b.held_bond + b.held_delegate <= Balance::MAX {
        amount
    } else {
        (Balance::MAX - b.held_bond - b.held_delegate) as Balance
    }
}

/// The free balance minting `amount` into `b` leaves: `free + amount`, capped
/// so that the account total stays representable.
pub open spec fn spec_minted_free(b: AccountBalance, amount: Balance) -> Balance {
    if b.free + amount + b.held_bond + b.held_delegate <= Balance::MAX {
        (b.free + amount) as Balance
    } else {
        (Balance::MAX - b.held_bond - b.held_delegate) as Balance
    }
}

/// Everything except the account ledger is the same in `a` and `b`.
pub open spec fn unchanged_but_accounts(a: Pallet, b: Pallet) -> bool {
    &&& b.config == a.config
    &&& b.candidate_pool@ == a.candidate_pool@
    &&& b.delegations@ == a.delegations@
    &&& b.delegate_count@ == a.delegate_count@
    &&& b.reward_points@ == a.reward_points@
    &&& b.requests_deregister@ == a.requests_deregister@
    &&& b.requests_undelegate@ == a.requests_undelegate@
    &&& b.active_validators@ == a.active_validators@
    &&& snapshot_eq(a.last_epoch_snapshot, b.last_epoch_snapshot)
    &&& b.balance_rate == a.balance_rate
    &&& b.epoch_index == a.epoch_index
    &&& b.block_number == a.block_number
    &&& b.events@ == a.events@
    &&& b.reported_validators@ == a.reported_validators@
}

/// The two snapshot slots hold the same mathematical snapshot.
pub open spec fn snapshot_eq(a: Option<EpochSnapshot>, b: Option<EpochSnapshot>) -> bool {
    match (a, b) {
        (Option::None, Option::None) => true,
        (Option::Some(x), Option::Some(y)) => x.validators@ == y.validators@ && x.delegations@
            == y.delegations@,
        _ => false,
    }
}

} // verus!
