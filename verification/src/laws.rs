//! The crate's standing laws, stated and proved as public lemmas over the
//! same spec functions the operations' contracts use.

use vstd::prelude::*;

use crate::delegs::{count_of_delegator, dget, lemma_dget_at, sum_to_candidate, DelegationRecord};
use crate::election::{spec_select, ValidatorEntry};
use crate::pallet::{AccountBalance, Pallet};
use crate::registry::{delegate_applied, delegate_outcome, undelegate_applied, undelegate_outcome};
use crate::{AccountId, Balance};

verus! {

/// Every candidate's stored `total_delegations` is exactly the sum of the
/// amounts delegated to it.  This holds after every operation, because every
/// operation preserves [`Pallet::wf`].
pub proof fn lemma_candidate_total_is_sum(s: Pallet, c: AccountId)
    requires
        s.wf(),
        s.spec_candidate(c).is_some(),
    ensures
        s.spec_candidate(c).unwrap().total_delegations == sum_to_candidate(s.delegations@, c),
{
}

/// Every delegator's stored count is exactly the number of candidates it
/// has a delegation with.  This holds after every operation, because every
/// operation preserves [`Pallet::wf`].
pub proof fn lemma_delegate_count_is_cardinality(s: Pallet, d: AccountId)
    requires
        s.wf(),
    ensures
        s.spec_delegate_count(d) as int == count_of_delegator(s.delegations@, d),
{
}

/// Delegate counts stay under the configured cap: if every count respects
/// the cap and a delegation succeeds, every count still respects it.
pub proof fn lemma_delegate_count_capped(
    pre: Pallet,
    post: Pallet,
    delegator: AccountId,
    candidate: AccountId,
    amount: Balance,
)
    requires
        pre.wf(),
        forall|d: AccountId|
            #[trigger] pre.spec_delegate_count(d) <= pre.config.max_delegate_count,
        delegate_outcome(pre, delegator, candidate, amount) == Ok::<(), crate::types::Error>(()),
        delegate_applied(pre, post, delegator, candidate, amount),
    ensures
        forall|d: AccountId|
            #[trigger] post.spec_delegate_count(d) <= post.config.max_delegate_count,
{
    assert forall|d: AccountId|
        #[trigger] post.spec_delegate_count(d) <= post.config.max_delegate_count by {
        assert(pre.spec_delegate_count(d) <= pre.config.max_delegate_count);
        if d == delegator && pre.spec_delegation(delegator, candidate).is_none() {
            assert(pre.spec_delegate_count(delegator) < pre.config.max_delegate_count);
        }
    }
}

/// Round trip: delegating a fresh amount and then withdrawing it in full
/// restores the pre-delegation state exactly — the record is gone, the
/// count and the candidate's total are back, and the escrow is fully
/// released — with only the two announcements as a trace.
pub proof fn lemma_delegate_undelegate_roundtrip(
    s0: Pallet,
    s1: Pallet,
    s2: Pallet,
    delegator: AccountId,
    candidate: AccountId,
    amount: Balance,
)
    requires
        s0.wf(),
        s1.wf(),
        s0.spec_delegation(delegator, candidate).is_none(),
        delegate_outcome(s0, delegator, candidate, amount) == Ok::<(), crate::types::Error>(()),
        delegate_applied(s0, s1, delegator, candidate, amount),
        undelegate_outcome(s1, delegator, candidate, amount) == Ok::<(), crate::types::Error>(()),
        undelegate_applied(s1, s2, delegator, candidate, amount),
    ensures
        s2.delegations@ == s0.delegations@,
        forall|c2: AccountId| #[trigger] s2.spec_candidate(c2) == s0.spec_candidate(c2),
        forall|d2: AccountId| #[trigger] s2.spec_delegate_count(d2) == s0.spec_delegate_count(d2),
        forall|a: AccountId| #[trigger] s2.spec_account(a) == s0.spec_account(a),
        s2.reward_points@ == s0.reward_points@,
        crate::registry::same_requests(s0, s2),
        crate::registry::same_epoch_state(s0, s2),
        crate::registry::same_meta(s0, s2),
        s2.events@ == s0.events@ + seq![
            crate::types::Event::CandidateDelegated {
                candidate_id: candidate,
                delegated_by: delegator,
                amount,
                total_delegated_amount: (s0.spec_candidate(
                    candidate,
                ).unwrap().total_delegations + amount) as Balance,
            },
        ] + seq![
            crate::types::Event::CandidateUndelegated {
                candidate_id: candidate,
                delegator,
                amount,
                left_delegated_amount: 0,
            },
        ],
{
    let rec = DelegationRecord { delegator, candidate, amount };
    let n0 = s0.delegations@.len();
    assert(s1.delegations@ == s0.delegations@.push(rec));
    assert(s1.spec_delegation(delegator, candidate) == Some(amount));
    // The freshly pushed record is the one the withdrawal removes.
    assert(crate::delegs::pair_index(s1.delegations@, delegator, candidate) == n0) by {
        lemma_dget_at(s1.delegations@, delegator, candidate, n0 as int);
    }
    assert(s2.delegations@ =~= s0.delegations@) by {
        assert(s2.delegations@ == s1.delegations@.remove(n0 as int));
    }
    assert forall|c2: AccountId| #[trigger] s2.spec_candidate(c2) == s0.spec_candidate(c2) by {
        if c2 == candidate {
            let det0 = s0.spec_candidate(candidate).unwrap();
            assert(s1.spec_candidate(candidate) == Some(
                crate::types::CandidateDetail {
                    total_delegations: (det0.total_delegations + amount) as Balance,
                    ..det0
                },
            ));
        }
    }
    assert forall|d2: AccountId|
        #[trigger] s2.spec_delegate_count(d2) == s0.spec_delegate_count(d2) by {
        if d2 == delegator {
            assert(s1.spec_delegate_count(delegator) == (s0.spec_delegate_count(delegator)
                + 1) as u32);
            assert(s0.spec_delegate_count(delegator) < s0.config.max_delegate_count);
        }
    }
    assert forall|a: AccountId| #[trigger] s2.spec_account(a) == s0.spec_account(a) by {
        if a == delegator {
            assert(s0.spec_account(delegator).free >= amount);
            assert(s1.spec_account(delegator) == (AccountBalance {
                free: (s0.spec_account(delegator).free - amount) as Balance,
                held_bond: s0.spec_account(delegator).held_bond,
                held_delegate: (s0.spec_account(delegator).held_delegate + amount) as Balance,
            }));
            assert(s0.spec_account(delegator).held_delegate + amount <= Balance::MAX) by {
                assert(s1.spec_account(delegator).held_delegate == (s0.spec_account(
                    delegator,
                ).held_delegate + amount) as Balance);
            }
        }
    }
    assert(s2.events@ =~= s0.events@ + seq![
        crate::types::Event::CandidateDelegated {
            candidate_id: candidate,
            delegated_by: delegator,
            amount,
            total_delegated_amount: (s0.spec_candidate(candidate).unwrap().total_delegations
                + amount) as Balance,
        },
    ] + seq![
        crate::types::Event::CandidateUndelegated {
            candidate_id: candidate,
            delegator,
            amount,
            left_delegated_amount: 0,
        },
    ]);
}

/// The election is a pure function of the candidate pool and the
/// configuration: two elections with no state change in between return the
/// same ordered list.
pub proof fn lemma_election_deterministic(s: Pallet, r1: Seq<ValidatorEntry>, r2: Seq<
    ValidatorEntry,
>)
    requires
        r1 == spec_select(s.candidate_pool@, s.config),
        r2 == spec_select(s.candidate_pool@, s.config),
    ensures
        r1 == r2,
{
}

} // verus!
