//! Validator election, epoch snapshots and reward accrual.
//!
//! The election is a pure function of the candidate pool, and both of its
//! thresholds count the online candidates only: too few of them elect
//! nobody, all of them are elected when they fit under the seat count, and
//! otherwise they are ranked by total stake, descending.  Candidates of
//! equal stake keep their registration order (a stable sort): that is this
//! crate's documented tie-break.  Rewards are accrued against the snapshot
//! frozen at the last epoch boundary, never against live state.

use vstd::prelude::*;

use crate::delegs::{dget, records_of, DelegationRecord};
use crate::pallet::{Config, EpochSnapshot, Pallet};
use crate::types::{spec_total_stake, CandidateDetail, Error, Event, ValidatorStatus};
use crate::{AccountId, Balance, BlockNumber};

verus! {

/// One elected validator: its id, its own bond, and its total stake.
pub type ValidatorEntry = (AccountId, Balance, Balance);

/// The reward a stake of `total` earns per block: the commission per-cent and
/// the balance-rate per-mille are composed into one floor per-cent factor,
/// which is then applied to the stake, rounding down.
pub open spec fn spec_reward(total: Balance, percent: u32, rate: u32) -> Balance {
    let pp = if percent <= 100 {
        percent
    } else {
        100
    };
    let q = (pp * (rate / 10)) / 100;
    ((total * q) / 100) as Balance
}

/// The online candidates of the pool, in registration order, as
/// `(id, bond, total stake)`.
pub open spec fn online_of(s: Seq<(AccountId, CandidateDetail)>) -> Seq<ValidatorEntry>
    decreases s.len(),
{
    if s.len() == 0 {
        Seq::empty()
    } else if s.last().1.status == ValidatorStatus::Online {
        online_of(s.drop_last()).push(
            (s.last().0, s.last().1.bond, spec_total_stake(s.last().1.bond, s.last().1.total_delegations)),
        )
    } else {
        online_of(s.drop_last())
    }
}

/// Inserts `x` into a stake-descending list, after every entry whose stake
/// is at least `x`'s: the insertion step of a stable sort.
pub open spec fn insert_desc(q: Seq<ValidatorEntry>, x: ValidatorEntry) -> Seq<ValidatorEntry>
    decreases q.len(),
{
    if q.len() == 0 {
        seq![x]
    } else if q.last().2 >= x.2 {
        q.push(x)
    } else {
        insert_desc(q.drop_last(), x).push(q.last())
    }
}

/// Stable sort by total stake, descending: entries of equal stake keep their
/// order.
pub open spec fn sort_desc(q: Seq<ValidatorEntry>) -> Seq<ValidatorEntry>
    decreases q.len(),
{
    if q.len() == 0 {
        Seq::empty()
    } else {
        insert_desc(sort_desc(q.drop_last()), q.last())
    }
}

/// The elected active set, as a function of the pool and the configuration.
///
/// Too few online candidates elect nobody; when every online candidate fits
/// under the seat count, all of them are elected in registration order;
/// otherwise the online candidates are ranked by stake and the top seats
/// win.
pub open spec fn spec_select(pool: Seq<(AccountId, CandidateDetail)>, cfg: Config) -> Seq<
    ValidatorEntry,
> {
    let online = online_of(pool);
    if online.len() < cfg.min_active_validators {
        Seq::empty()
    } else if online.len() <= cfg.max_active_validators {
        online
    } else {
        sort_desc(online).take(cfg.max_active_validators as int)
    }
}

/// Sorting keeps the number of entries.
pub proof fn lemma_sort_desc_len(q: Seq<ValidatorEntry>)
    ensures
        sort_desc(q).len() == q.len(),
    decreases q.len(),
{
    if q.len() > 0 {
        lemma_sort_desc_len(q.drop_last());
        lemma_insert_desc_len(sort_desc(q.drop_last()), q.last());
    }
}

/// Inserting adds exactly one entry.
proof fn lemma_insert_desc_len(q: Seq<ValidatorEntry>, x: ValidatorEntry)
    ensures
        insert_desc(q, x).len() == q.len() + 1,
    decreases q.len(),
{
    if q.len() > 0 && !(q.last().2 >= x.2) {
        lemma_insert_desc_len(q.drop_last(), x);
    }
}

/// The ids of an active set, in order.
pub open spec fn ids_of(q: Seq<ValidatorEntry>) -> Seq<AccountId> {
    q.map_values(|e: ValidatorEntry| e.0)
}

/// The bond an active set records for `c`; a later entry wins, as a map
/// insert would.
pub open spec fn vset_get(active: Seq<ValidatorEntry>, c: AccountId) -> Option<Balance>
    decreases active.len(),
{
    if active.len() == 0 {
        None
    } else if active.last().0 == c {
        Some(active.last().1)
    } else {
        vset_get(active.drop_last(), c)
    }
}

/// The delegation records a snapshot of `active` freezes: for each validator
/// in order, its ledger records in order.
pub open spec fn snap_delegations(
    active: Seq<ValidatorEntry>,
    ledger: Seq<DelegationRecord>,
) -> Seq<DelegationRecord>
    decreases active.len(),
{
    if active.len() == 0 {
        Seq::empty()
    } else {
        snap_delegations(active.drop_last(), ledger) + records_of(ledger, active.last().0)
    }
}

/// Saturating addition of balances.
pub open spec fn sat_add(a: Balance, b: Balance) -> Balance {
    if a + b <= Balance::MAX {
        (a + b) as Balance
    } else {
        Balance::MAX
    }
}

/// `a`'s reward ledger after the author's own commission was credited.
pub open spec fn author_base(
    pre: Pallet,
    validator: AccountId,
    total_bond: Balance,
    a: AccountId,
) -> Balance {
    if a == validator {
        sat_add(
            pre.spec_reward_points(validator),
            spec_reward(total_bond, pre.config.author_commission, pre.balance_rate),
        )
    } else {
        pre.spec_reward_points(a)
    }
}

/// `a`'s reward ledger after each matching snapshot delegation credited its
/// delegator commission, in order, saturating.
pub open spec fn deleg_rewards(
    base: Balance,
    s: Seq<DelegationRecord>,
    a: AccountId,
    validator: AccountId,
    commission: u32,
    rate: u32,
) -> Balance
    decreases s.len(),
{
    if s.len() == 0 {
        base
    } else {
        let prev = deleg_rewards(base, s.drop_last(), a, validator, commission, rate);
        if s.last().candidate == validator && s.last().delegator == a {
            sat_add(prev, spec_reward(s.last().amount, commission, rate))
        } else {
            prev
        }
    }
}

/// `a`'s reward ledger after one block authored by `validator` was accrued
/// against the snapshot weights.
pub open spec fn rewards_after(
    pre: Pallet,
    validator: AccountId,
    delegations: Seq<DelegationRecord>,
    total_bond: Balance,
    a: AccountId,
) -> Balance {
    deleg_rewards(
        author_base(pre, validator, total_bond, a),
        delegations,
        a,
        validator,
        pre.config.delegator_commission,
        pre.balance_rate,
    )
}

/// Reward accrual reads only the reward ledger, the commissions and the
/// rate: states agreeing on those accrue alike.
pub proof fn lemma_rewards_after_congruence(
    x: Pallet,
    y: Pallet,
    validator: AccountId,
    delegations: Seq<DelegationRecord>,
    total_bond: Balance,
    a: AccountId,
)
    requires
        x.reward_points@ == y.reward_points@,
        x.config == y.config,
        x.balance_rate == y.balance_rate,
    ensures
        rewards_after(x, validator, delegations, total_bond, a) == rewards_after(
            y,
            validator,
            delegations,
            total_bond,
            a,
        ),
{
    assert(x.spec_reward_points(a) == y.spec_reward_points(a));
    assert(x.spec_reward_points(validator) == y.spec_reward_points(validator));
}

/// Whether `n` is an epoch boundary under the given duration; a zero
/// duration has no boundaries.
pub open spec fn spec_is_boundary(duration: BlockNumber, n: BlockNumber) -> bool {
    duration != 0 && (n as int) % (duration as int) == 0
}

/// The bond the (optional) snapshot froze for `c`.
pub open spec fn snapshot_bond(o: Option<EpochSnapshot>, c: AccountId) -> Option<Balance> {
    match o {
        Option::None => None,
        Option::Some(s) => s.validators.spec_get(c),
    }
}

/// The delegation records the (optional) snapshot froze.
pub open spec fn snapshot_delegation_seq(o: Option<EpochSnapshot>) -> Seq<DelegationRecord> {
    match o {
        Option::None => Seq::empty(),
        Option::Some(s) => s.delegations@,
    }
}

/// The snapshot's validator map has distinct keys.
pub open spec fn snapshot_validators_wf(o: Option<EpochSnapshot>) -> bool {
    match o {
        Option::None => true,
        Option::Some(s) => s.validators.wf(),
    }
}

/// A lookup ignores records beyond a suffix that misses the pair.
proof fn lemma_dget_suffix(s: Seq<DelegationRecord>, d: AccountId, c: AccountId, i: int)
    requires
        0 <= i <= s.len(),
        forall|j: int|
            i <= j < s.len() ==> ((#[trigger] s[j]).delegator != d || s[j].candidate != c),
    ensures
        dget(s, d, c) == dget(s.take(i), d, c),
    decreases s.len(),
{
    if i == s.len() {
        assert(s.take(i) =~= s);
    } else {
        assert(s.drop_last().take(i) =~= s.take(i));
        lemma_dget_suffix(s.drop_last(), d, c, i);
    }
}

/// An element-wise copy of an active set.
fn clone_entries(v: &Vec<ValidatorEntry>) -> (r: Vec<ValidatorEntry>)
    ensures
        r@ == v@,
{
    let n = v.len();
    let mut out: Vec<ValidatorEntry> = Vec::new();
    for i in 0..n
        invariant
            n == v@.len(),
            out@ == v@.take(i as int),
    {
        proof {
            assert(v@.take(i + 1) =~= v@.take(i as int).push(v@[i as int]));
        }
        out.push(v[i]);
    }
    proof {
        assert(v@.take(n as int) =~= v@);
    }
    out
}

/// An element-wise copy of a record list.
fn clone_records(v: &Vec<DelegationRecord>) -> (r: Vec<DelegationRecord>)
    ensures
        r@ == v@,
{
    let n = v.len();
    let mut out: Vec<DelegationRecord> = Vec::new();
    for i in 0..n
        invariant
            n == v@.len(),
            out@ == v@.take(i as int),
    {
        proof {
            assert(v@.take(i + 1) =~= v@.take(i as int).push(v@[i as int]));
        }
        out.push(v[i]);
    }
    proof {
        assert(v@.take(n as int) =~= v@);
    }
    out
}

/// `insert_desc` splits the list at the found position.
proof fn lemma_insert_desc_at(q: Seq<ValidatorEntry>, x: ValidatorEntry, i: int)
    requires
        0 <= i <= q.len(),
        forall|j: int| i <= j < q.len() ==> (#[trigger] q[j]).2 < x.2,
        i > 0 ==> q[i - 1].2 >= x.2,
    ensures
        insert_desc(q, x) =~= q.take(i) + seq![x] + q.skip(i),
    decreases q.len(),
{
    if q.len() == 0 {
    } else if i == q.len() {
        assert(q.last().2 >= x.2);
        assert(q.take(i) =~= q);
        assert(q.skip(i) =~= Seq::empty());
    } else {
        assert(q[q.len() - 1].2 < x.2);
        lemma_insert_desc_at(q.drop_last(), x, i);
        assert(q.drop_last().take(i) =~= q.take(i));
        assert((q.take(i) + seq![x] + q.drop_last().skip(i)).push(q.last()) =~= q.take(i)
            + seq![x] + q.skip(i));
    }
}

impl Pallet {
    /// The per-block reward a stake of `total` earns under the given
    /// commission per-cent and the current balance rate.
    pub fn calculate_reward(&self, total: Balance, percent: u32) -> (r: Balance)
        requires
            self.balance_rate <= 999,
        ensures
            r == spec_reward(total, percent, self.balance_rate),
            r <= total,
    {
        let pp: u32 = if percent <= 100 {
            percent
        } else {
            100
        };
        let r10: u32 = self.balance_rate / 10;
        proof {
            assert(pp * r10 <= 10000) by (nonlinear_arith)
                requires
                    pp <= 100,
                    r10 <= 100,
            ;
        }
        let q: u32 = (pp * r10) / 100;
        proof {
            assert(q <= 100);
        }
        let a = total / 100;
        let b = total % 100;
        proof {
            assert(a * (q as Balance) + (b * (q as Balance)) / 100 == (total * (
            q as Balance)) / 100 && a * (q as Balance) + (b * (q as Balance)) / 100 <= total && b
                * (q as Balance) <= 9900) by (nonlinear_arith)
                requires
                    a == total / 100,
                    b == total % 100,
                    0 <= q <= 100,
                    total <= Balance::MAX,
            ;
        }
        a * (q as Balance) + (b * (q as Balance)) / 100
    }

    /// The online candidates with their bonds and total stakes, in
    /// registration order.
    pub fn get_online_candidate_set(&self) -> (r: Vec<ValidatorEntry>)
        ensures
            r@ == online_of(self.candidate_pool@),
    {
        let n = self.candidate_pool.len();
        let mut out: Vec<ValidatorEntry> = Vec::new();
        for i in 0..n
            invariant
                n == self.candidate_pool@.len(),
                out@ == online_of(self.candidate_pool@.take(i as int)),
        {
            proof {
                assert(self.candidate_pool@.take(i + 1).drop_last() =~= self.candidate_pool@.take(
                    i as int,
                ));
                assert(self.candidate_pool@.take(i + 1).last() == self.candidate_pool@[i as int]);
            }
            let id = self.candidate_pool.key_at(i);
            let det = self.candidate_pool.val_at(i);
            match det.status {
                ValidatorStatus::Online => {
                    out.push((id, det.bond, det.total()));
                },
                ValidatorStatus::Offline => {},
            }
        }
        proof {
            assert(self.candidate_pool@.take(n as int) =~= self.candidate_pool@);
        }
        out
    }

    /// Elects the active validator set from the current pool.
    ///
    /// A pure read: two calls with no state change in between return the
    /// same ordered list, [`spec_select`] of the pool.  Both thresholds are
    /// judged against the number of online candidates; a candidate whose
    /// deregistration is pending is offline and never elected.
    pub fn select_active_validator_set(&self) -> (r: Vec<ValidatorEntry>)
        ensures
            r@ == spec_select(self.candidate_pool@, self.config),
    {
        let online = self.get_online_candidate_set();
        if online.len() < self.config.min_active_validators as usize {
            return Vec::new();
        }
        if online.len() <= self.config.max_active_validators as usize {
            return online;
        }
        let mut sorted: Vec<ValidatorEntry> = Vec::new();
        let m = online.len();
        for k in 0..m
            invariant
                m == online@.len(),
                online@ == online_of(self.candidate_pool@),
                sorted@ == sort_desc(online@.take(k as int)),
        {
            let x = online[k];
            let mut i = sorted.len();
            while i > 0 && sorted[i - 1].2 < x.2
                invariant
                    i <= sorted@.len(),
                    forall|j: int| i <= j < sorted@.len() ==> (#[trigger] sorted@[j]).2 < x.2,
                decreases i,
            {
                i = i - 1;
            }
            let ghost s0 = sorted@;
            sorted.insert(i, x);
            proof {
                lemma_insert_desc_at(s0, x, i as int);
                assert(s0.take(i as int) + seq![x] + s0.skip(i as int) =~= s0.insert(
                    i as int,
                    x,
                ));
                assert(online@.take(k + 1).drop_last() =~= online@.take(k as int));
                assert(online@.take(k + 1).last() == online@[k as int]);
            }
        }
        proof {
            assert(online@.take(m as int) =~= online@);
            lemma_sort_desc_len(online@);
        }
        let take_n = self.config.max_active_validators as usize;
        let mut out: Vec<ValidatorEntry> = Vec::new();
        for k in 0..take_n
            invariant
                take_n <= sorted@.len(),
                out@ == sorted@.take(take_n as int).take(k as int),
        {
            proof {
                assert(sorted@.take(take_n as int).take(k + 1) =~= sorted@.take(
                    take_n as int,
                ).take(k as int).push(sorted@[k as int]));
            }
            out.push(sorted[k]);
        }
        proof {
            assert(sorted@.take(take_n as int).take(take_n as int) =~= sorted@.take(
                take_n as int,
            ));
        }
        out
    }

    /// Records the validator set most recently handed to the host.
    pub fn report_new_validators(&mut self, new_set: Vec<AccountId>)
        ensures
            *final(self) == (Pallet { reported_validators: final(self).reported_validators, ..*old(self) }),
            final(self).reported_validators@ == new_set@,
    {
        self.reported_validators = new_set;
    }

    /// Reports a validator set on the host's authority; a set at or above
    /// the candidate-pool capacity is rejected, changing nothing.
    pub fn force_report_new_validators(&mut self, new_set: Vec<AccountId>) -> (r: Result<
        (),
        Error,
    >)
        ensures
            new_set@.len() >= old(self).config.max_candidates ==> {
                &&& r == Err::<(), Error>(Error::TooManyValidators)
                &&& *final(self) == *old(self)
            },
            new_set@.len() < old(self).config.max_candidates ==> {
                &&& r == Ok::<(), Error>(())
                &&& *final(self) == (Pallet {
                    reported_validators: final(self).reported_validators,
                    ..*old(self)
                })
                &&& final(self).reported_validators@ == new_set@
            },
    {
        if new_set.len() >= self.config.max_candidates as usize {
            return Err(Error::TooManyValidators);
        }
        self.report_new_validators(new_set);
        Ok(())
    }

    /// Replaces the per-mille balance rate; only `1..=999` is accepted,
    /// anything else is rejected, changing nothing.
    pub fn force_set_balance_rate(&mut self, new_balance_rate: u32) -> (r: Result<(), Error>)
        requires
            old(self).wf(),
        ensures
            final(self).wf(),
            !(0 < new_balance_rate < 1000) ==> {
                &&& r == Err::<(), Error>(Error::IsNotPercentage)
                &&& *final(self) == *old(self)
            },
            0 < new_balance_rate < 1000 ==> {
                &&& r == Ok::<(), Error>(())
                &&& *final(self) == (Pallet { balance_rate: new_balance_rate, ..*old(self) })
            },
    {
        if new_balance_rate == 0 || new_balance_rate >= 1000 {
            return Err(Error::IsNotPercentage);
        }
        self.balance_rate = new_balance_rate;
        proof {
            self.lemma_wf_congruence(*old(self));
        }
        Ok(())
    }

    /// Freezes the given active set: each validator's bond, and every
    /// delegation to it, as they stand now.
    pub fn capture_epoch_snapshot(&self, active_validator_set: &Vec<ValidatorEntry>) -> (r:
        EpochSnapshot)
        requires
            self.wf(),
        ensures
            r.validators.wf(),
            forall|c: AccountId|
                #[trigger] r.validators.spec_get(c) == vset_get(active_validator_set@, c),
            r.delegations@ == snap_delegations(active_validator_set@, self.delegations@),
    {
        let mut snapshot = EpochSnapshot::default();
        let n = active_validator_set.len();
        for i in 0..n
            invariant
                self.wf(),
                n == active_validator_set@.len(),
                snapshot.validators.wf(),
                forall|c: AccountId|
                    #[trigger] snapshot.validators.spec_get(c) == vset_get(
                        active_validator_set@.take(i as int),
                        c,
                    ),
                snapshot.delegations@ == snap_delegations(
                    active_validator_set@.take(i as int),
                    self.delegations@,
                ),
        {
            proof {
                assert(active_validator_set@.take(i + 1).drop_last() =~= active_validator_set@.take(
                    i as int,
                ));
                assert(active_validator_set@.take(i + 1).last() == active_validator_set@[i as int]);
            }
            let (id, bond, _stake) = active_validator_set[i];
            snapshot.add_validator(id, bond);
            let ghost mid_snapshot = snapshot;
            let recs = self.delegations.records_for(id);
            let m = recs.len();
            let ghost base = snapshot.delegations@;
            for k in 0..m
                invariant
                    self.wf(),
                    m == recs@.len(),
                    recs@ == records_of(self.delegations@, id),
                    snapshot.delegations@ == base + recs@.take(k as int),
                    snapshot.validators@ == mid_snapshot.validators@,
            {
                proof {
                    crate::delegs::lemma_records_of(self.delegations@, id);
                    assert(recs@[k as int].candidate == id);
                    assert(base + recs@.take(k + 1) =~= (base + recs@.take(k as int)).push(
                        recs@[k as int],
                    ));
                }
                let rec = recs[k];
                snapshot.add_delegator(rec.delegator, id, rec.amount);
            }
            proof {
                assert(recs@.take(m as int) =~= recs@);
                assert(base + records_of(self.delegations@, id) == snap_delegations(
                    active_validator_set@.take(i + 1),
                    self.delegations@,
                ));
                assert forall|c: AccountId|
                    #[trigger] snapshot.validators.spec_get(c) == vset_get(
                        active_validator_set@.take(i + 1),
                        c,
                    ) by {
                    assert(snapshot.validators@ == mid_snapshot.validators@);
                    assert(mid_snapshot.validators.spec_get(c) == vset_get(
                        active_validator_set@.take(i + 1),
                        c,
                    ));
                }
            }
        }
        proof {
            assert(active_validator_set@.take(n as int) =~= active_validator_set@);
        }
        snapshot
    }

    /// Accrues one produced block's rewards: the author earns its commission
    /// on its snapshot bond, and each of the author's snapshot delegators
    /// earns the delegator commission on its frozen delegation.  All sums
    /// saturate.
    pub fn sync_validator_rewards(
        &mut self,
        validator: AccountId,
        delegations: &Vec<DelegationRecord>,
        total_bond: Balance,
    )
        requires
            old(self).wf(),
        ensures
            final(self).wf(),
            forall|a: AccountId|
                #[trigger] final(self).spec_reward_points(a) == rewards_after(
                    *old(self),
                    validator,
                    delegations@,
                    total_bond,
                    a,
                ),
            final(self).reward_points.wf(),
            *final(self) == (Pallet { reward_points: final(self).reward_points, ..*old(self) }),
    {
        let author_reward = self.calculate_reward(total_bond, self.config.author_commission);
        let base = match self.reward_points.get(validator) {
            Some(p) => p,
            None => 0,
        };
        let credited = if base <= Balance::MAX - author_reward {
            base + author_reward
        } else {
            Balance::MAX
        };
        self.reward_points.set(validator, credited);
        let n = delegations.len();
        for i in 0..n
            invariant
                old(self).wf(),
                n == delegations@.len(),
                self.reward_points.wf(),
                self.config == old(self).config,
                self.balance_rate == old(self).balance_rate,
                forall|a: AccountId|
                    #[trigger] self.spec_reward_points(a) == deleg_rewards(
                        author_base(*old(self), validator, total_bond, a),
                        delegations@.take(i as int),
                        a,
                        validator,
                        old(self).config.delegator_commission,
                        old(self).balance_rate,
                    ),
                *self == (Pallet { reward_points: self.reward_points, ..*old(self) }),
        {
            proof {
                assert(delegations@.take(i + 1).drop_last() =~= delegations@.take(i as int));
                assert(delegations@.take(i + 1).last() == delegations@[i as int]);
            }
            let rec = delegations[i];
            let ghost before = *self;
            if rec.candidate == validator {
                let reward = self.calculate_reward(rec.amount, self.config.delegator_commission);
                let prev = match self.reward_points.get(rec.delegator) {
                    Some(p) => p,
                    None => 0,
                };
                let next = if prev <= Balance::MAX - reward {
                    prev + reward
                } else {
                    Balance::MAX
                };
                self.reward_points.set(rec.delegator, next);
                proof {
                    assert forall|a: AccountId|
                        #[trigger] self.spec_reward_points(a) == (if a == rec.delegator {
                            next
                        } else {
                            before.spec_reward_points(a)
                        }) by {}
                }
            }
            proof {
                assert forall|a: AccountId|
                    #[trigger] self.spec_reward_points(a) == deleg_rewards(
                        author_base(*old(self), validator, total_bond, a),
                        delegations@.take(i + 1),
                        a,
                        validator,
                        old(self).config.delegator_commission,
                        old(self).balance_rate,
                    ) by {
                    let basea = author_base(*old(self), validator, total_bond, a);
                    assert(before.spec_reward_points(a) == deleg_rewards(
                        basea,
                        delegations@.take(i as int),
                        a,
                        validator,
                        old(self).config.delegator_commission,
                        old(self).balance_rate,
                    ));
                }
            }
        }
        proof {
            assert(delegations@.take(n as int) =~= delegations@);
            self.lemma_wf_congruence(*old(self));
        }
    }

    /// Elects a fresh active set, freezes its snapshot, and records the new
    /// set as reported to the host.
    pub fn establish_active_set(&mut self)
        requires
            old(self).wf(),
        ensures
            final(self).wf(),
            final(self).active_validators@ == spec_select(
                old(self).candidate_pool@,
                old(self).config,
            ),
            final(self).last_epoch_snapshot.is_some(),
            snapshot_validators_wf(final(self).last_epoch_snapshot),
            forall|c: AccountId|
                #[trigger] snapshot_bond(final(self).last_epoch_snapshot, c) == vset_get(
                    spec_select(old(self).candidate_pool@, old(self).config),
                    c,
                ),
            snapshot_delegation_seq(final(self).last_epoch_snapshot) == snap_delegations(
                spec_select(old(self).candidate_pool@, old(self).config),
                old(self).delegations@,
            ),
            final(self).reported_validators@ == ids_of(
                spec_select(old(self).candidate_pool@, old(self).config),
            ),
            final(self).candidate_pool@ == old(self).candidate_pool@,
            final(self).delegations@ == old(self).delegations@,
            final(self).delegate_count@ == old(self).delegate_count@,
            final(self).reward_points@ == old(self).reward_points@,
            final(self).accounts@ == old(self).accounts@,
            final(self).requests_deregister@ == old(self).requests_deregister@,
            final(self).requests_undelegate@ == old(self).requests_undelegate@,
            final(self).events@ == old(self).events@,
            final(self).balance_rate == old(self).balance_rate,
            final(self).epoch_index == old(self).epoch_index,
            final(self).block_number == old(self).block_number,
            final(self).config == old(self).config,
    {
        let active = self.select_active_validator_set();
        let snapshot = self.capture_epoch_snapshot(&active);
        let n = active.len();
        let mut ids: Vec<AccountId> = Vec::new();
        for i in 0..n
            invariant
                n == active@.len(),
                ids@ == ids_of(active@.take(i as int)),
        {
            proof {
                assert(ids_of(active@.take(i + 1)) =~= ids_of(active@.take(i as int)).push(
                    active@[i as int].0,
                ));
            }
            ids.push(active[i].0);
        }
        proof {
            assert(active@.take(n as int) =~= active@);
        }
        self.active_validators = active;
        self.last_epoch_snapshot = Some(snapshot);
        self.reported_validators = ids;
        proof {
            self.lemma_wf_congruence(*old(self));
        }
    }

    /// Steps the epoch counter and announces the transition.
    pub fn move_to_next_epoch(&mut self, total_validators: u64)
        ensures
            final(self).epoch_index == (if old(self).epoch_index < u32::MAX {
                (old(self).epoch_index + 1) as u32
            } else {
                u32::MAX
            }),
            final(self).events@ == old(self).events@.push(
                Event::NextEpochMoved {
                    last_epoch: old(self).epoch_index,
                    next_epoch: (if old(self).epoch_index < u32::MAX {
                        (old(self).epoch_index + 1) as u32
                    } else {
                        u32::MAX
                    }),
                    at_block: old(self).block_number,
                    total_candidates: old(self).candidate_pool@.len() as u64,
                    total_validators,
                },
            ),
            *final(self) == (Pallet {
                epoch_index: final(self).epoch_index,
                events: final(self).events,
                ..*old(self)
            }),
    {
        let next = if self.epoch_index < u32::MAX {
            self.epoch_index + 1
        } else {
            u32::MAX
        };
        let at_block = self.block_number;
        let total_candidates = self.candidate_pool.len() as u64;
        self.events.push(
            Event::NextEpochMoved {
                last_epoch: self.epoch_index,
                next_epoch: next,
                at_block,
                total_candidates,
                total_validators,
            },
        );
        self.epoch_index = next;
    }

    /// The once-per-block hook.  The host tells the core the new height and
    /// who authored the block; the author's rewards are accrued against the
    /// frozen snapshot, and at an epoch boundary (`n` divisible by the epoch
    /// duration) the active set is re-elected and a fresh snapshot frozen —
    /// in that order, so the rewards of the boundary block still use the old
    /// snapshot.
    pub fn on_initialize(&mut self, n: BlockNumber, author: Option<AccountId>)
        requires
            old(self).wf(),
        ensures
            final(self).wf(),
            final(self).block_number == n,
            // reward accrual against the old snapshot
            forall|a: AccountId|
                #[trigger] final(self).spec_reward_points(a) == (match author {
                    Option::Some(v) => {
                        if old(self).last_epoch_snapshot.is_some() && snapshot_bond(
                            old(self).last_epoch_snapshot,
                            v,
                        ).is_some() {
                            rewards_after(
                                *old(self),
                                v,
                                snapshot_delegation_seq(old(self).last_epoch_snapshot),
                                snapshot_bond(old(self).last_epoch_snapshot, v).unwrap(),
                                a,
                            )
                        } else {
                            old(self).spec_reward_points(a)
                        }
                    },
                    Option::None => old(self).spec_reward_points(a),
                }),
            // election and snapshot replacement at the boundary
            spec_is_boundary(old(self).config.epoch_duration, n) ==> {
                &&& final(self).active_validators@ == spec_select(
                    old(self).candidate_pool@,
                    old(self).config,
                )
                &&& final(self).last_epoch_snapshot.is_some()
                &&& forall|c: AccountId|
                    #[trigger] snapshot_bond(final(self).last_epoch_snapshot, c) == vset_get(
                        spec_select(old(self).candidate_pool@, old(self).config),
                        c,
                    )
                &&& snapshot_delegation_seq(final(self).last_epoch_snapshot) == snap_delegations(
                    spec_select(old(self).candidate_pool@, old(self).config),
                    old(self).delegations@,
                )
                &&& final(self).reported_validators@ == ids_of(
                    spec_select(old(self).candidate_pool@, old(self).config),
                )
                &&& final(self).epoch_index == (if old(self).epoch_index < u32::MAX {
                    (old(self).epoch_index + 1) as u32
                } else {
                    u32::MAX
                })
                &&& final(self).events@ == old(self).events@.push(
                    Event::NextEpochMoved {
                        last_epoch: old(self).epoch_index,
                        next_epoch: (if old(self).epoch_index < u32::MAX {
                            (old(self).epoch_index + 1) as u32
                        } else {
                            u32::MAX
                        }),
                        at_block: n,
                        total_candidates: old(self).candidate_pool@.len() as u64,
                        total_validators: spec_select(
                            old(self).candidate_pool@,
                            old(self).config,
                        ).len() as u64,
                    },
                )
            },
            !spec_is_boundary(old(self).config.epoch_duration, n) ==> {
                &&& crate::pallet::snapshot_eq(
                    old(self).last_epoch_snapshot,
                    final(self).last_epoch_snapshot,
                )
                &&& final(self).active_validators@ == old(self).active_validators@
                &&& final(self).reported_validators@ == old(self).reported_validators@
                &&& final(self).epoch_index == old(self).epoch_index
                &&& final(self).events@ == old(self).events@
            },
            // nothing else moves
            final(self).candidate_pool@ == old(self).candidate_pool@,
            final(self).delegations@ == old(self).delegations@,
            final(self).delegate_count@ == old(self).delegate_count@,
            final(self).accounts@ == old(self).accounts@,
            final(self).requests_deregister@ == old(self).requests_deregister@,
            final(self).requests_undelegate@ == old(self).requests_undelegate@,
            final(self).balance_rate == old(self).balance_rate,
            final(self).config == old(self).config,
    {
        self.block_number = n;
        proof {
            self.lemma_wf_congruence(*old(self));
        }
        let ghost at_height = *self;
        if let Some(current_block_author) = author {
            let (has_bond, total_bond) = match &self.last_epoch_snapshot {
                Some(snapshot) => {
                    match snapshot.validators.get_last(current_block_author) {
                        Some(bond) => (true, bond),
                        None => (false, 0),
                    }
                },
                None => (false, 0),
            };
            if has_bond {
                let delegations = match &self.last_epoch_snapshot {
                    Some(snapshot) => clone_records(&snapshot.delegations),
                    None => Vec::new(),
                };
                self.sync_validator_rewards(current_block_author, &delegations, total_bond);
            }
        }
        let ghost after_rewards = *self;
        proof {
            assert forall|a: AccountId|
                #[trigger] after_rewards.spec_reward_points(a) == (match author {
                    Option::Some(v) => {
                        if old(self).last_epoch_snapshot.is_some() && snapshot_bond(
                            old(self).last_epoch_snapshot,
                            v,
                        ).is_some() {
                            rewards_after(
                                *old(self),
                                v,
                                snapshot_delegation_seq(old(self).last_epoch_snapshot),
                                snapshot_bond(old(self).last_epoch_snapshot, v).unwrap(),
                                a,
                            )
                        } else {
                            old(self).spec_reward_points(a)
                        }
                    },
                    Option::None => old(self).spec_reward_points(a),
                }) by {
                if author.is_some() && old(self).last_epoch_snapshot.is_some() && snapshot_bond(
                    old(self).last_epoch_snapshot,
                    author.unwrap(),
                ).is_some() {
                    lemma_rewards_after_congruence(
                        at_height,
                        *old(self),
                        author.unwrap(),
                        snapshot_delegation_seq(old(self).last_epoch_snapshot),
                        snapshot_bond(old(self).last_epoch_snapshot, author.unwrap()).unwrap(),
                        a,
                    );
                }
            }
        }
        let epoch_duration = self.config.epoch_duration;
        if epoch_duration != 0 && n % epoch_duration == 0 {
            self.establish_active_set();
            let total = self.active_validators.len() as u64;
            self.move_to_next_epoch(total);
        }
        proof {
            assert forall|a: AccountId|
                #[trigger] self.spec_reward_points(a) == after_rewards.spec_reward_points(a) by {
                assert(self.reward_points@ == after_rewards.reward_points@);
            }
            self.lemma_wf_congruence(after_rewards);
        }
    }

    /// Whether an epoch snapshot has been frozen yet.
    pub fn has_epoch_snapshot(&self) -> (r: bool)
        ensures
            r == self.last_epoch_snapshot.is_some(),
    {
        self.last_epoch_snapshot.is_some()
    }

    /// The bond the last epoch snapshot froze for `c`, if `c` was in the
    /// active set at capture time.
    pub fn last_epoch_snapshot_bond(&self, c: AccountId) -> (r: Option<Balance>)
        ensures
            r == snapshot_bond(self.last_epoch_snapshot, c),
    {
        match &self.last_epoch_snapshot {
            Some(snapshot) => snapshot.validators.get_last(c),
            None => None,
        }
    }

    /// The delegation weight the last epoch snapshot froze for `(d, c)`.
    pub fn last_epoch_snapshot_delegation(&self, d: AccountId, c: AccountId) -> (r: Option<
        Balance,
    >)
        ensures
            r == dget(snapshot_delegation_seq(self.last_epoch_snapshot), d, c),
    {
        let recs = match &self.last_epoch_snapshot {
            Some(snapshot) => &snapshot.delegations,
            None => {
                proof {
                    assert(snapshot_delegation_seq(self.last_epoch_snapshot)
                        =~= Seq::<DelegationRecord>::empty());
                }
                return None;
            },
        };
        let ghost s = recs@;
        proof {
            assert(s == snapshot_delegation_seq(self.last_epoch_snapshot));
        }
        let mut i = recs.len();
        while i > 0
            invariant
                i <= s.len(),
                s == recs@,
                s == snapshot_delegation_seq(self.last_epoch_snapshot),
                forall|j: int|
                    i <= j < s.len() ==> ((#[trigger] s[j]).delegator != d || s[j].candidate
                        != c),
            decreases i,
        {
            if recs[i - 1].delegator == d && recs[i - 1].candidate == c {
                proof {
                    lemma_dget_suffix(s, d, c, i as int);
                    assert(s.take(i as int).last() == s[i - 1]);
                }
                return Some(recs[i - 1].amount);
            }
            i = i - 1;
        }
        proof {
            lemma_dget_suffix(s, d, c, 0);
            assert(s.take(0) =~= Seq::<DelegationRecord>::empty());
        }
        None
    }

    /// The number of validators the last epoch snapshot froze.
    pub fn last_epoch_snapshot_validator_count(&self) -> (r: usize)
        ensures
            match self.last_epoch_snapshot {
                Option::Some(s) => r == s.validators@.len(),
                Option::None => r == 0,
            },
    {
        match &self.last_epoch_snapshot {
            Some(snapshot) => snapshot.validators.len(),
            None => 0,
        }
    }

    /// The number of delegation records the last epoch snapshot froze.
    pub fn last_epoch_snapshot_delegation_count(&self) -> (r: usize)
        ensures
            r == snapshot_delegation_seq(self.last_epoch_snapshot).len(),
    {
        match &self.last_epoch_snapshot {
            Some(snapshot) => snapshot.delegations.len(),
            None => 0,
        }
    }

    /// The current active validator set, as elected at the last boundary.
    pub fn active_validators(&self) -> (r: Vec<ValidatorEntry>)
        ensures
            r@ == self.active_validators@,
    {
        clone_entries(&self.active_validators)
    }

    /// Checks the state the way a maintenance audit would: the balance rate
    /// is a per-mille factor, every candidate's bond meets the configured
    /// minimum, and no candidate is recorded twice.
    pub fn do_try_state(&self) -> (r: bool)
        ensures
            r == (1 <= self.balance_rate <= 999 && (forall|i: int|
                0 <= i < self.candidate_pool@.len() ==> (#[trigger] self.candidate_pool@[i]).1.bond
                    >= self.config.min_candidate_bond) && crate::store::unique_keys(
                self.candidate_pool@,
            )),
    {
        if self.balance_rate < 1 || self.balance_rate > 999 {
            return false;
        }
        let n = self.candidate_pool.len();
        for i in 0..n
            invariant
                n == self.candidate_pool@.len(),
                forall|j: int|
                    0 <= j < i ==> (#[trigger] self.candidate_pool@[j]).1.bond
                        >= self.config.min_candidate_bond,
        {
            if self.candidate_pool.val_at(i).bond < self.config.min_candidate_bond {
                return false;
            }
        }
        for i in 0..n
            invariant
                n == self.candidate_pool@.len(),
                forall|a: int, b: int|
                    0 <= a < b < self.candidate_pool@.len() && a < i ==> (
                    #[trigger] self.candidate_pool@[a]).0 != (#[trigger] self.candidate_pool@[b]).0,
        {
            let mut j = i + 1;
            while j < n
                invariant
                    i < j <= n,
                    n == self.candidate_pool@.len(),
                    forall|b: int|
                        i < b < j ==> (#[trigger] self.candidate_pool@[b]).0
                            != self.candidate_pool@[i as int].0,
                decreases n - j,
            {
                if self.candidate_pool.key_at(j) == self.candidate_pool.key_at(i) {
                    return false;
                }
                j = j + 1;
            }
        }
        true
    }
}

} // verus!
