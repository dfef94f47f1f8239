//! The delegation ledger: one record per (delegator, candidate) pair, in
//! insertion order.
//!
//! The candidate's delegator list is the projection of this ledger to one
//! candidate, so the ledger is the single source of truth for delegations;
//! the stored per-candidate totals and per-delegator counts elsewhere in the
//! state are proved equal to the sums and counts defined here.

use vstd::prelude::*;

use crate::{AccountId, Balance};

verus! {

/// One delegation: `delegator` has `amount` staked on `candidate`.
#[derive(Clone, Copy, Debug, PartialEq, Eq, Structural)]
pub struct DelegationRecord {
    pub delegator: AccountId,
    pub candidate: AccountId,
    pub amount: Balance,
}

/// Pairwise-distinct (delegator, candidate) pairs.
pub open spec fn unique_pairs(s: Seq<DelegationRecord>) -> bool {
    forall|i: int, j: int|
        0 <= i < j < s.len() ==> ((#[trigger] s[i]).delegator != (#[trigger] s[j]).delegator
            || s[i].candidate != s[j].candidate)
}

/// The amount `d` has delegated to `c`, if a record exists.
pub open spec fn dget(s: Seq<DelegationRecord>, d: AccountId, c: AccountId) -> Option<Balance>
    decreases s.len(),
{
    if s.len() == 0 {
        None
    } else if s.last().delegator == d && s.last().candidate == c {
        Some(s.last().amount)
    } else {
        dget(s.drop_last(), d, c)
    }
}

/// The index of the record of pair `(d, c)`; meaningful only when the pair
/// exists and the pairs are distinct.
pub open spec fn pair_index(s: Seq<DelegationRecord>, d: AccountId, c: AccountId) -> int {
    choose|i: int|
        0 <= i < s.len() && (#[trigger] s[i]).delegator == d && s[i].candidate == c
}

/// Sum of the amounts of the records satisfying `p`.
pub open spec fn sum_where(s: Seq<DelegationRecord>, p: spec_fn(DelegationRecord) -> bool) -> int
    decreases s.len(),
{
    if s.len() == 0 {
        0
    } else {
        sum_where(s.drop_last(), p) + if p(s.last()) {
            s.last().amount as int
        } else {
            0
        }
    }
}

/// Number of records satisfying `p`.
pub open spec fn count_where(s: Seq<DelegationRecord>, p: spec_fn(DelegationRecord) -> bool) -> int
    decreases s.len(),
{
    if s.len() == 0 {
        0
    } else {
        count_where(s.drop_last(), p) + if p(s.last()) {
            1int
        } else {
            0
        }
    }
}

/// Total stake delegated to candidate `c`.
pub open spec fn sum_to_candidate(s: Seq<DelegationRecord>, c: AccountId) -> int {
    sum_where(s, |r: DelegationRecord| r.candidate == c)
}

/// Total stake delegator `d` has spread over all candidates.
pub open spec fn sum_of_delegator(s: Seq<DelegationRecord>, d: AccountId) -> int {
    sum_where(s, |r: DelegationRecord| r.delegator == d)
}

/// Number of candidates delegator `d` delegates to.
pub open spec fn count_of_delegator(s: Seq<DelegationRecord>, d: AccountId) -> int {
    count_where(s, |r: DelegationRecord| r.delegator == d)
}

/// Number of delegators candidate `c` has.
pub open spec fn count_delegators_of(s: Seq<DelegationRecord>, c: AccountId) -> int {
    count_where(s, |r: DelegationRecord| r.candidate == c)
}

/// The delegators of candidate `c`, in the order their delegations were
/// created.
pub open spec fn delegators_of(s: Seq<DelegationRecord>, c: AccountId) -> Seq<AccountId>
    decreases s.len(),
{
    if s.len() == 0 {
        Seq::empty()
    } else if s.last().candidate == c {
        delegators_of(s.drop_last(), c).push(s.last().delegator)
    } else {
        delegators_of(s.drop_last(), c)
    }
}

/// The records delegating to candidate `c`, in creation order.
pub open spec fn records_of(s: Seq<DelegationRecord>, c: AccountId) -> Seq<DelegationRecord>
    decreases s.len(),
{
    if s.len() == 0 {
        Seq::empty()
    } else if s.last().candidate == c {
        records_of(s.drop_last(), c).push(s.last())
    } else {
        records_of(s.drop_last(), c)
    }
}

/// What the projection to one candidate carries: every record of it is a
/// ledger record of that candidate, the delegators are pairwise distinct, and
/// every delegation to the candidate appears.
pub proof fn lemma_records_of(s: Seq<DelegationRecord>, c: AccountId)
    requires
        unique_pairs(s),
    ensures
        forall|i: int|
            0 <= i < records_of(s, c).len() ==> {
                &&& (#[trigger] records_of(s, c)[i]).candidate == c
                &&& dget(s, records_of(s, c)[i].delegator, c) == Some(records_of(s, c)[i].amount)
            },
        forall|i: int, j: int|
            0 <= i < j < records_of(s, c).len() ==> (#[trigger] records_of(s, c)[i]).delegator
                != (#[trigger] records_of(s, c)[j]).delegator,
        forall|d: AccountId|
            #[trigger] dget(s, d, c).is_some() ==> exists|i: int|
                0 <= i < records_of(s, c).len() && (#[trigger] records_of(s, c)[i]).delegator
                    == d,
        records_of(s, c).len() == count_delegators_of(s, c),
    decreases s.len(),
{
    if s.len() > 0 {
        let t = s.drop_last();
        lemma_records_of(t, c);
        assert(count_delegators_of(s, c) == count_where(
            s,
            |r: DelegationRecord| r.candidate == c,
        ));
        // Every fact of the prefix projection lifts: a record of the prefix
        // is a record of `s`, and its lookup is unchanged by the last entry.
        assert forall|d: AccountId, c2: AccountId|
            #[trigger] dget(t, d, c2).is_some() implies dget(s, d, c2) == dget(t, d, c2) by {
            lemma_dget_some_exists(t, d, c2);
            let i = choose|i: int|
                0 <= i < t.len() && (#[trigger] t[i]) == (DelegationRecord {
                    delegator: d,
                    candidate: c2,
                    amount: dget(t, d, c2).unwrap(),
                });
            assert(s[i] == t[i]);
            lemma_dget_at(s, d, c2, i);
        }
        if s.last().candidate == c {
            let r = s.last();
            assert(records_of(s, c) == records_of(t, c).push(r));
            assert(dget(s, r.delegator, c) == Some(r.amount)) by {
                lemma_dget_at(s, r.delegator, c, s.len() - 1);
            }
            // The last record's delegator is fresh among the prefix ones.
            assert forall|i: int| 0 <= i < records_of(t, c).len() implies (
            #[trigger] records_of(t, c)[i]).delegator != r.delegator by {
                if records_of(t, c)[i].delegator == r.delegator {
                    lemma_dget_some_exists(t, r.delegator, c);
                    let j = choose|j: int|
                        0 <= j < t.len() && (#[trigger] t[j]) == (DelegationRecord {
                            delegator: r.delegator,
                            candidate: c,
                            amount: dget(t, r.delegator, c).unwrap(),
                        });
                    assert(s[j] == t[j]);
                }
            }
            assert forall|d: AccountId| #[trigger] dget(s, d, c).is_some() implies exists|i: int|
                0 <= i < records_of(s, c).len() && (#[trigger] records_of(s, c)[i]).delegator
                    == d by {
                if d == r.delegator {
                    assert(records_of(s, c)[records_of(s, c).len() - 1].delegator == d);
                } else {
                    assert(dget(t, d, c) == dget(s, d, c));
                    let i = choose|i: int|
                        0 <= i < records_of(t, c).len() && (#[trigger] records_of(t, c)[i]).delegator
                            == d;
                    assert(records_of(s, c)[i].delegator == d);
                }
            }
        } else {
            assert forall|d: AccountId| #[trigger] dget(s, d, c).is_some() implies exists|i: int|
                0 <= i < records_of(s, c).len() && (#[trigger] records_of(s, c)[i]).delegator
                    == d by {
                assert(dget(s, d, c) == dget(t, d, c));
            }
        }
    }
}

/// The ledger without any delegation to candidate `c`; the others keep their
/// order.
pub open spec fn without_candidate(s: Seq<DelegationRecord>, c: AccountId) -> Seq<DelegationRecord>
    decreases s.len(),
{
    if s.len() == 0 {
        Seq::empty()
    } else if s.last().candidate == c {
        without_candidate(s.drop_last(), c)
    } else {
        without_candidate(s.drop_last(), c).push(s.last())
    }
}

/// Dropping one candidate's records drops exactly their lookups, sums and
/// counts, and keeps the pairs distinct.
pub proof fn lemma_without_candidate(s: Seq<DelegationRecord>, c: AccountId)
    requires
        unique_pairs(s),
    ensures
        unique_pairs(without_candidate(s, c)),
        forall|d2: AccountId, c2: AccountId|
            #[trigger] dget(without_candidate(s, c), d2, c2) == if c2 == c {
                None::<Balance>
            } else {
                dget(s, d2, c2)
            },
        forall|c2: AccountId|
            #[trigger] sum_to_candidate(without_candidate(s, c), c2) == if c2 == c {
                0
            } else {
                sum_to_candidate(s, c2)
            },
        forall|d2: AccountId|
            #[trigger] sum_of_delegator(without_candidate(s, c), d2) == sum_of_delegator(s, d2)
                - (if dget(s, d2, c).is_some() {
                dget(s, d2, c).unwrap() as int
            } else {
                0
            }),
        forall|d2: AccountId|
            #[trigger] count_of_delegator(without_candidate(s, c), d2) == count_of_delegator(
                s,
                d2,
            ) - (if dget(s, d2, c).is_some() {
                1int
            } else {
                0
            }),
        forall|i: int|
            0 <= i < without_candidate(s, c).len() ==> (#[trigger] without_candidate(
                s,
                c,
            )[i]).candidate != c && exists|j: int|
                0 <= j < s.len() && without_candidate(s, c)[i] == (#[trigger] s[j]),
    decreases s.len(),
{
    let t = without_candidate(s, c);
    if s.len() == 0 {
        assert forall|d2: AccountId, c2: AccountId|
            #[trigger] dget(t, d2, c2) == (if c2 == c {
                None::<Balance>
            } else {
                dget(s, d2, c2)
            }) by {}
        assert forall|d2: AccountId|
            #[trigger] sum_of_delegator(t, d2) == sum_of_delegator(s, d2) - (if dget(
                s,
                d2,
                c,
            ).is_some() {
                dget(s, d2, c).unwrap() as int
            } else {
                0
            }) by {}
    } else {
        let p = s.drop_last();
        let tp = without_candidate(p, c);
        lemma_without_candidate(p, c);
        let last = s.last();
        // `unique_pairs` carries to the prefix, and the last record's pair is
        // fresh among the prefix.
        assert forall|d2: AccountId, c2: AccountId| #[trigger]
            dget(s, d2, c2) == (if d2 == last.delegator && c2 == last.candidate {
                Some(last.amount)
            } else {
                dget(p, d2, c2)
            }) by {
            if d2 == last.delegator && c2 == last.candidate {
            } else {
            }
        }
        if last.candidate == c {
            assert(t == tp);
            assert forall|d2: AccountId, c2: AccountId|
                #[trigger] dget(t, d2, c2) == (if c2 == c {
                    None::<Balance>
                } else {
                    dget(s, d2, c2)
                }) by {}
            assert forall|c2: AccountId|
                #[trigger] sum_to_candidate(t, c2) == (if c2 == c {
                    0
                } else {
                    sum_to_candidate(s, c2)
                }) by {
                lemma_sum_push(p, last, |q: DelegationRecord| q.candidate == c2);
                assert(s == p.push(last));
            }
            assert forall|d2: AccountId|
                #[trigger] sum_of_delegator(t, d2) == sum_of_delegator(s, d2) - (if dget(
                    s,
                    d2,
                    c,
                ).is_some() {
                    dget(s, d2, c).unwrap() as int
                } else {
                    0
                }) by {
                lemma_sum_push(p, last, |q: DelegationRecord| q.delegator == d2);
                assert(s == p.push(last));
                if d2 == last.delegator {
                    // the last record is the one delegation of `d2` to `c`
                    assert(dget(p, d2, c).is_none()) by {
                        if dget(p, d2, c).is_some() {
                            lemma_dget_some_exists(p, d2, c);
                            let j = choose|j: int|
                                0 <= j < p.len() && (#[trigger] p[j]) == (DelegationRecord {
                                    delegator: d2,
                                    candidate: c,
                                    amount: dget(p, d2, c).unwrap(),
                                });
                            assert(s[j] == p[j]);
                            assert(s[j].delegator != s[s.len() - 1].delegator || s[j].candidate
                                != s[s.len() - 1].candidate);
                        }
                    }
                }
            }
            assert forall|d2: AccountId|
                #[trigger] count_of_delegator(t, d2) == count_of_delegator(s, d2) - (if dget(
                    s,
                    d2,
                    c,
                ).is_some() {
                    1int
                } else {
                    0
                }) by {
                lemma_sum_push(p, last, |q: DelegationRecord| q.delegator == d2);
                assert(s == p.push(last));
                if d2 == last.delegator {
                    assert(dget(p, d2, c).is_none()) by {
                        if dget(p, d2, c).is_some() {
                            lemma_dget_some_exists(p, d2, c);
                            let j = choose|j: int|
                                0 <= j < p.len() && (#[trigger] p[j]) == (DelegationRecord {
                                    delegator: d2,
                                    candidate: c,
                                    amount: dget(p, d2, c).unwrap(),
                                });
                            assert(s[j] == p[j]);
                            assert(s[j].delegator != s[s.len() - 1].delegator || s[j].candidate
                                != s[s.len() - 1].candidate);
                        }
                    }
                }
            }
            assert forall|i: int| 0 <= i < t.len() implies (#[trigger] t[i]).candidate != c
                && exists|j: int| 0 <= j < s.len() && t[i] == (#[trigger] s[j]) by {
                let j0 = choose|j0: int|
                    0 <= j0 < p.len() && tp[i] == (#[trigger] p[j0]);
                assert(t[i] == s[j0]);
            }
        } else {
            assert(t == tp.push(last));
            assert(unique_pairs(t)) by {
                assert forall|a: int, b: int| 0 <= a < b < t.len() implies ((
                #[trigger] t[a]).delegator != (#[trigger] t[b]).delegator || t[a].candidate
                    != t[b].candidate) by {
                    if b < t.len() - 1 {
                    } else {
                        // `t[b]` is the last record; `t[a]` comes from the
                        // prefix, where its pair is resolvable
                        let j0 = choose|j0: int| 0 <= j0 < p.len() && (#[trigger] tp[a]) == p[j0];
                        assert(s[j0] == p[j0]);
                        assert(s[j0].delegator != s[s.len() - 1].delegator || s[j0].candidate
                            != s[s.len() - 1].candidate);
                    }
                }
            }
            assert(t.drop_last() == tp);
            assert forall|d2: AccountId, c2: AccountId|
                #[trigger] dget(t, d2, c2) == (if c2 == c {
                    None::<Balance>
                } else {
                    dget(s, d2, c2)
                }) by {
                assert(t.last() == last);
                assert(dget(tp, d2, c2) == if c2 == c {
                    None::<Balance>
                } else {
                    dget(p, d2, c2)
                });
                if d2 == last.delegator && c2 == last.candidate {
                    assert(dget(s, d2, c2) == Some(last.amount));
                } else {
                    assert(dget(t, d2, c2) == dget(tp, d2, c2));
                }
            }
            assert forall|c2: AccountId|
                #[trigger] sum_to_candidate(t, c2) == (if c2 == c {
                    0
                } else {
                    sum_to_candidate(s, c2)
                }) by {
                assert(sum_to_candidate(tp, c2) == if c2 == c {
                    0int
                } else {
                    sum_to_candidate(p, c2)
                });
                lemma_sum_push(p, last, |q: DelegationRecord| q.candidate == c2);
                lemma_sum_push(tp, last, |q: DelegationRecord| q.candidate == c2);
                assert(s == p.push(last));
            }
            assert forall|d2: AccountId|
                #[trigger] sum_of_delegator(t, d2) == sum_of_delegator(s, d2) - (if dget(
                    s,
                    d2,
                    c,
                ).is_some() {
                    dget(s, d2, c).unwrap() as int
                } else {
                    0
                }) by {
                assert(sum_of_delegator(tp, d2) == sum_of_delegator(p, d2) - (if dget(
                    p,
                    d2,
                    c,
                ).is_some() {
                    dget(p, d2, c).unwrap() as int
                } else {
                    0
                }));
                assert(dget(tp, d2, c).is_none());
                lemma_sum_push(p, last, |q: DelegationRecord| q.delegator == d2);
                lemma_sum_push(tp, last, |q: DelegationRecord| q.delegator == d2);
                assert(s == p.push(last));
            }
            assert forall|d2: AccountId|
                #[trigger] count_of_delegator(t, d2) == count_of_delegator(s, d2) - (if dget(
                    s,
                    d2,
                    c,
                ).is_some() {
                    1int
                } else {
                    0
                }) by {
                assert(count_of_delegator(tp, d2) == count_of_delegator(p, d2) - (if dget(
                    p,
                    d2,
                    c,
                ).is_some() {
                    1int
                } else {
                    0
                }));
                lemma_sum_push(p, last, |q: DelegationRecord| q.delegator == d2);
                lemma_sum_push(tp, last, |q: DelegationRecord| q.delegator == d2);
                assert(s == p.push(last));
            }
            assert forall|i: int| 0 <= i < t.len() implies (#[trigger] t[i]).candidate != c
                && exists|j: int| 0 <= j < s.len() && t[i] == (#[trigger] s[j]) by {
                if i < t.len() - 1 {
                    let j0 = choose|j0: int|
                        0 <= j0 < p.len() && tp[i] == (#[trigger] p[j0]);
                    assert(t[i] == s[j0]);
                } else {
                    assert(t[i] == s[s.len() - 1]);
                }
            }
        }
    }
}

/// If `s[i]` is the record of `(d, c)`, the lookup returns its amount.
pub proof fn lemma_dget_at(s: Seq<DelegationRecord>, d: AccountId, c: AccountId, i: int)
    requires
        unique_pairs(s),
        0 <= i < s.len(),
        s[i].delegator == d,
        s[i].candidate == c,
    ensures
        dget(s, d, c) == Some(s[i].amount),
        pair_index(s, d, c) == i,
    decreases s.len(),
{
    assert(pair_index(s, d, c) == i) by {
        let j = pair_index(s, d, c);
        assert(0 <= j < s.len() && s[j].delegator == d && s[j].candidate == c);
    }
    if i == s.len() - 1 {
    } else {
        assert(s.drop_last()[i] == s[i]);
        lemma_dget_at(s.drop_last(), d, c, i);
    }
}

/// If no record carries pair `(d, c)`, the lookup misses.
pub proof fn lemma_dget_none(s: Seq<DelegationRecord>, d: AccountId, c: AccountId)
    requires
        forall|i: int|
            0 <= i < s.len() ==> ((#[trigger] s[i]).delegator != d || s[i].candidate != c),
    ensures
        dget(s, d, c) == None::<Balance>,
    decreases s.len(),
{
    if s.len() > 0 {
        assert(forall|i: int|
            0 <= i < s.drop_last().len() ==> ((#[trigger] s.drop_last()[i]).delegator != d
                || s.drop_last()[i].candidate != c));
        lemma_dget_none(s.drop_last(), d, c);
    }
}

/// A hit names a record.
pub proof fn lemma_dget_some_exists(s: Seq<DelegationRecord>, d: AccountId, c: AccountId)
    requires
        dget(s, d, c).is_some(),
    ensures
        exists|i: int|
            0 <= i < s.len() && (#[trigger] s[i]) == (DelegationRecord {
                delegator: d,
                candidate: c,
                amount: dget(s, d, c).unwrap(),
            }),
    decreases s.len(),
{
    if s.len() > 0 {
        if s.last().delegator == d && s.last().candidate == c {
            assert(s[s.len() - 1] == (DelegationRecord {
                delegator: d,
                candidate: c,
                amount: dget(s, d, c).unwrap(),
            }));
        } else {
            lemma_dget_some_exists(s.drop_last(), d, c);
            let i = choose|i: int|
                0 <= i < s.drop_last().len() && (#[trigger] s.drop_last()[i]) == (
                DelegationRecord {
                    delegator: d,
                    candidate: c,
                    amount: dget(s.drop_last(), d, c).unwrap(),
                });
            assert(s[i] == s.drop_last()[i]);
        }
    }
}

/// Pushing a record extends sums by its (conditional) amount.
pub proof fn lemma_sum_push(
    s: Seq<DelegationRecord>,
    r: DelegationRecord,
    p: spec_fn(DelegationRecord) -> bool,
)
    ensures
        sum_where(s.push(r), p) == sum_where(s, p) + if p(r) {
            r.amount as int
        } else {
            0
        },
        count_where(s.push(r), p) == count_where(s, p) + if p(r) {
            1int
        } else {
            0
        },
{
    assert(s.push(r).drop_last() =~= s);
}

/// Replacing the record at `i` shifts sums by the difference of the old and
/// new record.
pub proof fn lemma_sum_update(
    s: Seq<DelegationRecord>,
    i: int,
    r: DelegationRecord,
    p: spec_fn(DelegationRecord) -> bool,
)
    requires
        0 <= i < s.len(),
    ensures
        sum_where(s.update(i, r), p) == sum_where(s, p) - (if p(s[i]) {
            s[i].amount as int
        } else {
            0
        }) + if p(r) {
            r.amount as int
        } else {
            0
        },
        count_where(s.update(i, r), p) == count_where(s, p) - (if p(s[i]) {
            1int
        } else {
            0
        }) + if p(r) {
            1int
        } else {
            0
        },
    decreases s.len(),
{
    let t = s.update(i, r);
    if i == s.len() - 1 {
        assert(t.drop_last() =~= s.drop_last());
        assert(t.last() == r);
    } else {
        assert(t.drop_last() =~= s.drop_last().update(i, r));
        assert(t.last() == s.last());
        assert(s.drop_last()[i] == s[i]);
        lemma_sum_update(s.drop_last(), i, r, p);
    }
}

/// Removing the record at `i` shrinks sums by its (conditional) amount.
pub proof fn lemma_sum_remove(
    s: Seq<DelegationRecord>,
    i: int,
    p: spec_fn(DelegationRecord) -> bool,
)
    requires
        0 <= i < s.len(),
    ensures
        sum_where(s.remove(i), p) == sum_where(s, p) - if p(s[i]) {
            s[i].amount as int
        } else {
            0
        },
        count_where(s.remove(i), p) == count_where(s, p) - if p(s[i]) {
            1int
        } else {
            0
        },
    decreases s.len(),
{
    let t = s.remove(i);
    if i == s.len() - 1 {
        assert(t =~= s.drop_last());
    } else {
        assert(t.drop_last() =~= s.drop_last().remove(i));
        assert(t.last() == s.last());
        assert(s.drop_last()[i] == s[i]);
        lemma_sum_remove(s.drop_last(), i, p);
    }
}

/// A sum over a predicate no record satisfies is zero.
pub proof fn lemma_sum_zero(s: Seq<DelegationRecord>, p: spec_fn(DelegationRecord) -> bool)
    requires
        forall|i: int| 0 <= i < s.len() ==> !p(#[trigger] s[i]),
    ensures
        sum_where(s, p) == 0,
        count_where(s, p) == 0,
    decreases s.len(),
{
    if s.len() > 0 {
        assert(forall|i: int|
            0 <= i < s.drop_last().len() ==> !p(#[trigger] s.drop_last()[i]));
        lemma_sum_zero(s.drop_last(), p);
    }
}

/// Sums are never negative, and a record satisfying `p` bounds them below.
pub proof fn lemma_sum_nonneg(s: Seq<DelegationRecord>, p: spec_fn(DelegationRecord) -> bool)
    ensures
        sum_where(s, p) >= 0,
        count_where(s, p) >= 0,
    decreases s.len(),
{
    if s.len() > 0 {
        lemma_sum_nonneg(s.drop_last(), p);
    }
}

/// A record satisfying `p` contributes all of its amount to the sum.
pub proof fn lemma_sum_lower_bound(
    s: Seq<DelegationRecord>,
    i: int,
    p: spec_fn(DelegationRecord) -> bool,
)
    requires
        0 <= i < s.len(),
        p(s[i]),
    ensures
        sum_where(s, p) >= s[i].amount,
        count_where(s, p) >= 1,
    decreases s.len(),
{
    if i == s.len() - 1 {
        lemma_sum_nonneg(s.drop_last(), p);
    } else {
        assert(s.drop_last()[i] == s[i]);
        lemma_sum_lower_bound(s.drop_last(), i, p);
    }
}

/// The delegation ledger.  The view is the record sequence in insertion
/// order.
pub struct Delegations {
    pub records: Vec<DelegationRecord>,
}

impl View for Delegations {
    type V = Seq<DelegationRecord>;

    open spec fn view(&self) -> Seq<DelegationRecord> {
        self.records@
    }
}

impl Delegations {
    /// Pairs are pairwise distinct.
    pub open spec fn wf(&self) -> bool {
        unique_pairs(self@)
    }

    /// The amount `d` has delegated to `c`.
    pub open spec fn spec_get(&self, d: AccountId, c: AccountId) -> Option<Balance> {
        dget(self@, d, c)
    }

    pub fn new() -> (r: Delegations)
        ensures
            r@ == Seq::<DelegationRecord>::empty(),
            r.wf(),
    {
        Delegations { records: Vec::new() }
    }

    pub fn len(&self) -> (r: usize)
        ensures
            r == self@.len(),
    {
        self.records.len()
    }

    pub fn rec_at(&self, i: usize) -> (r: DelegationRecord)
        requires
            i < self@.len(),
        ensures
            r == self@[i as int],
    {
        self.records[i]
    }

    /// The position of the record of `(d, c)`, if any.
    pub fn find(&self, d: AccountId, c: AccountId) -> (r: Option<usize>)
        requires
            self.wf(),
        ensures
            match r {
                Some(i) => {
                    &&& i < self@.len()
                    &&& self@[i as int].delegator == d
                    &&& self@[i as int].candidate == c
                    &&& i == pair_index(self@, d, c)
                    &&& self.spec_get(d, c) == Some(self@[i as int].amount)
                },
                None => self.spec_get(d, c) == None::<Balance>,
            },
    {
        let n = self.records.len();
        for i in 0..n
            invariant
                n == self@.len(),
                self.wf(),
                forall|j: int|
                    0 <= j < i ==> ((#[trigger] self@[j]).delegator != d || self@[j].candidate
                        != c),
        {
            if self.records[i].delegator == d && self.records[i].candidate == c {
                proof {
                    lemma_dget_at(self@, d, c, i as int);
                }
                return Some(i);
            }
        }
        proof {
            lemma_dget_none(self@, d, c);
        }
        None
    }

    pub fn get(&self, d: AccountId, c: AccountId) -> (r: Option<Balance>)
        requires
            self.wf(),
        ensures
            r == self.spec_get(d, c),
    {
        match self.find(d, c) {
            Some(i) => Some(self.records[i].amount),
            None => None,
        }
    }

    /// Appends a record of a pair not yet present.
    pub fn insert(&mut self, r: DelegationRecord)
        requires
            old(self).wf(),
            old(self).spec_get(r.delegator, r.candidate) == None::<Balance>,
        ensures
            final(self).wf(),
            final(self)@ =~= old(self)@.push(r),
            forall|d: AccountId, c: AccountId|
                #[trigger] dget(final(self)@, d, c) == if d == r.delegator && c == r.candidate {
                    Some(r.amount)
                } else {
                    dget(old(self)@, d, c)
                },
            forall|c: AccountId|
                #[trigger] sum_to_candidate(final(self)@, c) == sum_to_candidate(old(self)@, c)
                    + if c == r.candidate {
                    r.amount as int
                } else {
                    0
                },
            forall|d: AccountId|
                #[trigger] sum_of_delegator(final(self)@, d) == sum_of_delegator(old(self)@, d)
                    + if d == r.delegator {
                    r.amount as int
                } else {
                    0
                },
            forall|d: AccountId|
                #[trigger] count_of_delegator(final(self)@, d) == count_of_delegator(
                    old(self)@,
                    d,
                ) + if d == r.delegator {
                    1int
                } else {
                    0
                },
            forall|c: AccountId|
                #[trigger] count_delegators_of(final(self)@, c) == count_delegators_of(
                    old(self)@,
                    c,
                ) + if c == r.candidate {
                    1int
                } else {
                    0
                },
    {
        let ghost s0 = self@;
        self.records.push(r);
        proof {
            assert(unique_pairs(s0.push(r))) by {
                assert forall|i: int, j: int| 0 <= i < j < s0.push(r).len() implies ((
                #[trigger] s0.push(r)[i]).delegator != (#[trigger] s0.push(r)[j]).delegator || s0.push(
                    r,
                )[i].candidate != s0.push(r)[j].candidate) by {
                    if j == s0.len() {
                        if s0[i].delegator == r.delegator && s0[i].candidate == r.candidate {
                            lemma_dget_at(s0, r.delegator, r.candidate, i);
                        }
                    }
                }
            }
            assert forall|d: AccountId, c: AccountId| #[trigger]
                dget(s0.push(r), d, c) == if d == r.delegator && c == r.candidate {
                    Some(r.amount)
                } else {
                    dget(s0, d, c)
                } by {
                assert(s0.push(r).drop_last() =~= s0);
            }
            assert forall|c: AccountId| #[trigger]
                sum_to_candidate(s0.push(r), c) == sum_to_candidate(s0, c) + (if c == r.candidate {
                    r.amount as int
                } else {
                    0
                }) by {
                lemma_sum_push(s0, r, |q: DelegationRecord| q.candidate == c);
            }
            assert forall|d: AccountId| #[trigger]
                sum_of_delegator(s0.push(r), d) == sum_of_delegator(s0, d) + (if d == r.delegator {
                    r.amount as int
                } else {
                    0
                }) by {
                lemma_sum_push(s0, r, |q: DelegationRecord| q.delegator == d);
            }
            assert forall|d: AccountId| #[trigger]
                count_of_delegator(s0.push(r), d) == count_of_delegator(s0, d) + (if d
                    == r.delegator {
                    1int
                } else {
                    0
                }) by {
                lemma_sum_push(s0, r, |q: DelegationRecord| q.delegator == d);
            }
            assert forall|c: AccountId| #[trigger]
                count_delegators_of(s0.push(r), c) == count_delegators_of(s0, c) + (if c
                    == r.candidate {
                    1int
                } else {
                    0
                }) by {
                lemma_sum_push(s0, r, |q: DelegationRecord| q.candidate == c);
            }
        }
    }

    /// Replaces the amount of the existing record of `(d, c)`.
    pub fn update_amount(&mut self, d: AccountId, c: AccountId, amount: Balance)
        requires
            old(self).wf(),
            old(self).spec_get(d, c).is_some(),
        ensures
            final(self).wf(),
            final(self)@ =~= old(self)@.update(
                pair_index(old(self)@, d, c),
                DelegationRecord { delegator: d, candidate: c, amount },
            ),
            final(self)@.len() == old(self)@.len(),
            forall|d2: AccountId, c2: AccountId|
                #[trigger] dget(final(self)@, d2, c2) == if d2 == d && c2 == c {
                    Some(amount)
                } else {
                    dget(old(self)@, d2, c2)
                },
            forall|c2: AccountId|
                #[trigger] sum_to_candidate(final(self)@, c2) == sum_to_candidate(old(self)@, c2)
                    - (if c2 == c {
                    old(self).spec_get(d, c).unwrap() as int
                } else {
                    0
                }) + if c2 == c {
                    amount as int
                } else {
                    0
                },
            forall|d2: AccountId|
                #[trigger] sum_of_delegator(final(self)@, d2) == sum_of_delegator(old(self)@, d2)
                    - (if d2 == d {
                    old(self).spec_get(d, c).unwrap() as int
                } else {
                    0
                }) + if d2 == d {
                    amount as int
                } else {
                    0
                },
            forall|d2: AccountId|
                #[trigger] count_of_delegator(final(self)@, d2) == count_of_delegator(
                    old(self)@,
                    d2,
                ),
            forall|c2: AccountId|
                #[trigger] count_delegators_of(final(self)@, c2) == count_delegators_of(
                    old(self)@,
                    c2,
                ),
    {
        let ghost s0 = self@;
        let r = DelegationRecord { delegator: d, candidate: c, amount };
        let i = self.find(d, c).unwrap();
        self.records[i] = r;
        proof {
            let ii = i as int;
            let t = s0.update(ii, r);
            assert(unique_pairs(t)) by {
                assert forall|a: int, b: int| 0 <= a < b < t.len() implies ((
                #[trigger] t[a]).delegator != (#[trigger] t[b]).delegator || t[a].candidate
                    != t[b].candidate) by {
                    assert(t[a].delegator == s0[a].delegator && t[a].candidate == s0[a].candidate);
                    assert(t[b].delegator == s0[b].delegator && t[b].candidate == s0[b].candidate);
                }
            }
            assert forall|d2: AccountId, c2: AccountId| #[trigger]
                dget(t, d2, c2) == if d2 == d && c2 == c {
                    Some(amount)
                } else {
                    dget(s0, d2, c2)
                } by {
                if d2 == d && c2 == c {
                    lemma_dget_at(t, d2, c2, ii);
                } else {
                    if dget(s0, d2, c2).is_some() {
                        lemma_dget_some_exists(s0, d2, c2);
                        let j = choose|j: int|
                            0 <= j < s0.len() && (#[trigger] s0[j]) == (DelegationRecord {
                                delegator: d2,
                                candidate: c2,
                                amount: dget(s0, d2, c2).unwrap(),
                            });
                        assert(t[j] == s0[j]);
                        lemma_dget_at(t, d2, c2, j);
                    } else {
                        assert forall|j: int| 0 <= j < s0.len() implies ((
                        #[trigger] s0[j]).delegator != d2 || s0[j].candidate != c2) by {
                            if s0[j].delegator == d2 && s0[j].candidate == c2 {
                                lemma_dget_at(s0, d2, c2, j);
                            }
                        }
                        assert(forall|j: int|
                            0 <= j < t.len() ==> ((#[trigger] t[j]).delegator != d2
                                || t[j].candidate != c2));
                        lemma_dget_none(t, d2, c2);
                    }
                }
            }
            assert forall|c2: AccountId| #[trigger]
                sum_to_candidate(t, c2) == sum_to_candidate(s0, c2) - (if c2 == c {
                    dget(s0, d, c).unwrap() as int
                } else {
                    0
                }) + (if c2 == c {
                    amount as int
                } else {
                    0
                }) by {
                lemma_sum_update(s0, ii, r, |q: DelegationRecord| q.candidate == c2);
            }
            assert forall|d2: AccountId| #[trigger]
                sum_of_delegator(t, d2) == sum_of_delegator(s0, d2) - (if d2 == d {
                    dget(s0, d, c).unwrap() as int
                } else {
                    0
                }) + (if d2 == d {
                    amount as int
                } else {
                    0
                }) by {
                lemma_sum_update(s0, ii, r, |q: DelegationRecord| q.delegator == d2);
            }
            assert forall|d2: AccountId| #[trigger]
                count_of_delegator(t, d2) == count_of_delegator(s0, d2) by {
                lemma_sum_update(s0, ii, r, |q: DelegationRecord| q.delegator == d2);
            }
            assert forall|c2: AccountId| #[trigger]
                count_delegators_of(t, c2) == count_delegators_of(s0, c2) by {
                lemma_sum_update(s0, ii, r, |q: DelegationRecord| q.candidate == c2);
            }
        }
    }

    /// Removes the existing record of `(d, c)`; the others keep their order.
    pub fn remove(&mut self, d: AccountId, c: AccountId)
        requires
            old(self).wf(),
            old(self).spec_get(d, c).is_some(),
        ensures
            final(self).wf(),
            final(self)@ =~= old(self)@.remove(pair_index(old(self)@, d, c)),
            final(self)@.len() == old(self)@.len() - 1,
            forall|d2: AccountId, c2: AccountId|
                #[trigger] dget(final(self)@, d2, c2) == if d2 == d && c2 == c {
                    None::<Balance>
                } else {
                    dget(old(self)@, d2, c2)
                },
            forall|c2: AccountId|
                #[trigger] sum_to_candidate(final(self)@, c2) == sum_to_candidate(old(self)@, c2)
                    - if c2 == c {
                    old(self).spec_get(d, c).unwrap() as int
                } else {
                    0
                },
            forall|d2: AccountId|
                #[trigger] sum_of_delegator(final(self)@, d2) == sum_of_delegator(old(self)@, d2)
                    - if d2 == d {
                    old(self).spec_get(d, c).unwrap() as int
                } else {
                    0
                },
            forall|d2: AccountId|
                #[trigger] count_of_delegator(final(self)@, d2) == count_of_delegator(
                    old(self)@,
                    d2,
                ) - if d2 == d {
                    1int
                } else {
                    0
                },
            forall|c2: AccountId|
                #[trigger] count_delegators_of(final(self)@, c2) == count_delegators_of(
                    old(self)@,
                    c2,
                ) - if c2 == c {
                    1int
                } else {
                    0
                },
    {
        let ghost s0 = self@;
        let i = self.find(d, c).unwrap();
        self.records.remove(i);
        proof {
            let ii = i as int;
            let t = s0.remove(ii);
            assert(unique_pairs(t)) by {
                assert forall|a: int, b: int| 0 <= a < b < t.len() implies ((
                #[trigger] t[a]).delegator != (#[trigger] t[b]).delegator || t[a].candidate
                    != t[b].candidate) by {
                    let a0 = if a < ii {
                        a
                    } else {
                        a + 1
                    };
                    let b0 = if b < ii {
                        b
                    } else {
                        b + 1
                    };
                    assert(t[a] == s0[a0] && t[b] == s0[b0]);
                }
            }
            assert forall|d2: AccountId, c2: AccountId| #[trigger]
                dget(t, d2, c2) == if d2 == d && c2 == c {
                    None::<Balance>
                } else {
                    dget(s0, d2, c2)
                } by {
                if d2 == d && c2 == c {
                    assert forall|j: int| 0 <= j < t.len() implies ((#[trigger] t[j]).delegator
                        != d2 || t[j].candidate != c2) by {
                        let j0 = if j < ii {
                            j
                        } else {
                            j + 1
                        };
                        assert(t[j] == s0[j0]);
                        assert(j0 != ii);
                    }
                    lemma_dget_none(t, d2, c2);
                } else {
                    if dget(s0, d2, c2).is_some() {
                        lemma_dget_some_exists(s0, d2, c2);
                        let j = choose|j: int|
                            0 <= j < s0.len() && (#[trigger] s0[j]) == (DelegationRecord {
                                delegator: d2,
                                candidate: c2,
                                amount: dget(s0, d2, c2).unwrap(),
                            });
                        assert(j != ii);
                        let j1 = if j < ii {
                            j
                        } else {
                            j - 1
                        };
                        assert(t[j1] == s0[j]);
                        lemma_dget_at(t, d2, c2, j1);
                    } else {
                        assert forall|j: int| 0 <= j < s0.len() implies ((
                        #[trigger] s0[j]).delegator != d2 || s0[j].candidate != c2) by {
                            if s0[j].delegator == d2 && s0[j].candidate == c2 {
                                lemma_dget_at(s0, d2, c2, j);
                            }
                        }
                        assert forall|j: int| 0 <= j < t.len() implies ((#[trigger] t[j]).delegator
                            != d2 || t[j].candidate != c2) by {
                            let j0 = if j < ii {
                                j
                            } else {
                                j + 1
                            };
                            assert(t[j] == s0[j0]);
                        }
                        lemma_dget_none(t, d2, c2);
                    }
                }
            }
            assert forall|c2: AccountId| #[trigger]
                sum_to_candidate(t, c2) == sum_to_candidate(s0, c2) - (if c2 == c {
                    dget(s0, d, c).unwrap() as int
                } else {
                    0
                }) by {
                lemma_sum_remove(s0, ii, |q: DelegationRecord| q.candidate == c2);
            }
            assert forall|d2: AccountId| #[trigger]
                sum_of_delegator(t, d2) == sum_of_delegator(s0, d2) - (if d2 == d {
                    dget(s0, d, c).unwrap() as int
                } else {
                    0
                }) by {
                lemma_sum_remove(s0, ii, |q: DelegationRecord| q.delegator == d2);
            }
            assert forall|d2: AccountId| #[trigger]
                count_of_delegator(t, d2) == count_of_delegator(s0, d2) - (if d2 == d {
                    1int
                } else {
                    0
                }) by {
                lemma_sum_remove(s0, ii, |q: DelegationRecord| q.delegator == d2);
            }
            assert forall|c2: AccountId| #[trigger]
                count_delegators_of(t, c2) == count_delegators_of(s0, c2) - (if c2 == c {
                    1int
                } else {
                    0
                }) by {
                lemma_sum_remove(s0, ii, |q: DelegationRecord| q.candidate == c2);
            }
        }
    }

    /// The number of delegators of candidate `c`.
    pub fn count_for_candidate(&self, c: AccountId) -> (r: usize)
        ensures
            r == count_delegators_of(self@, c),
    {
        let n = self.records.len();
        let mut count: usize = 0;
        for i in 0..n
            invariant
                n == self@.len(),
                count == count_delegators_of(self@.take(i as int), c),
                count <= i,
        {
            proof {
                assert(self@.take(i + 1).drop_last() =~= self@.take(i as int));
                assert(self@.take(i + 1).last() == self@[i as int]);
            }
            if self.records[i].candidate == c {
                count = count + 1;
            }
        }
        proof {
            assert(self@.take(n as int) =~= self@);
        }
        count
    }

    /// Deletes every delegation to candidate `c`; the others keep their
    /// order.
    pub fn remove_candidate(&mut self, c: AccountId)
        requires
            old(self).wf(),
        ensures
            final(self).wf(),
            final(self)@ == without_candidate(old(self)@, c),
    {
        let n = self.records.len();
        let mut out: Vec<DelegationRecord> = Vec::new();
        for i in 0..n
            invariant
                n == self@.len(),
                self@ == old(self)@,
                out@ == without_candidate(self@.take(i as int), c),
        {
            proof {
                assert(self@.take(i + 1).drop_last() =~= self@.take(i as int));
                assert(self@.take(i + 1).last() == self@[i as int]);
            }
            if self.records[i].candidate != c {
                out.push(self.records[i]);
            }
        }
        proof {
            assert(self@.take(n as int) =~= self@);
        }
        self.records = out;
        proof {
            lemma_without_candidate(old(self)@, c);
        }
    }

    /// The records delegating to candidate `c`, in delegation order.
    pub fn records_for(&self, c: AccountId) -> (r: Vec<DelegationRecord>)
        ensures
            r@ == records_of(self@, c),
    {
        let n = self.records.len();
        let mut out: Vec<DelegationRecord> = Vec::new();
        for i in 0..n
            invariant
                n == self@.len(),
                out@ == records_of(self@.take(i as int), c),
        {
            proof {
                assert(self@.take(i + 1).drop_last() =~= self@.take(i as int));
                assert(self@.take(i + 1).last() == self@[i as int]);
            }
            if self.records[i].candidate == c {
                out.push(self.records[i]);
            }
        }
        proof {
            assert(self@.take(n as int) =~= self@);
        }
        out
    }

    /// The delegators of candidate `c`, in delegation order.
    pub fn delegators_for(&self, c: AccountId) -> (r: Vec<AccountId>)
        ensures
            r@ == delegators_of(self@, c),
    {
        let n = self.records.len();
        let mut out: Vec<AccountId> = Vec::new();
        for i in 0..n
            invariant
                n == self@.len(),
                out@ == delegators_of(self@.take(i as int), c),
        {
            proof {
                assert(self@.take(i + 1).drop_last() =~= self@.take(i as int));
                assert(self@.take(i + 1).last() == self@[i as int]);
            }
            if self.records[i].candidate == c {
                out.push(self.records[i].delegator);
            }
        }
        proof {
            assert(self@.take(n as int) =~= self@);
        }
        out
    }
}

} // verus!
