//! Insertion-ordered association maps backed by vectors.
//!
//! Every map of the staking core (candidate pool, reward ledger, balance
//! ledger, delayed requests) is a [`UMap`]: a vector of key/value entries with
//! pairwise-distinct keys.  Insertion order is part of the model — the
//! validator election reads the candidate pool in registration order — so the
//! view of a map is its entry sequence, and the unordered [`Map`] view is
//! derived from it.

use vstd::prelude::*;

use crate::AccountId;

verus! {

/// Association-list lookup: the value at key `k`, scanning from the end.
///
/// With distinct keys the scan direction is irrelevant; recursion over
/// `drop_last` matches how `push` extends a sequence.
pub open spec fn seq_get<V>(s: Seq<(AccountId, V)>, k: AccountId) -> Option<V>
    decreases s.len(),
{
    if s.len() == 0 {
        None
    } else if s.last().0 == k {
        Some(s.last().1)
    } else {
        seq_get(s.drop_last(), k)
    }
}

/// Pairwise-distinct keys.
pub open spec fn unique_keys<V>(s: Seq<(AccountId, V)>) -> bool {
    forall|i: int, j: int|
        0 <= i < j < s.len() ==> (#[trigger] s[i]).0 != (#[trigger] s[j]).0
}

/// If `s[i]` carries key `k`, the lookup returns that entry's value.
pub proof fn lemma_seq_get_at<V>(s: Seq<(AccountId, V)>, k: AccountId, i: int)
    requires
        unique_keys(s),
        0 <= i < s.len(),
        s[i].0 == k,
    ensures
        seq_get(s, k) == Some(s[i].1),
    decreases s.len(),
{
    if i == s.len() - 1 {
    } else {
        assert(s.last().0 != k);
        assert(s.drop_last()[i] == s[i]);
        lemma_seq_get_at(s.drop_last(), k, i);
    }
}

/// If no entry carries key `k`, the lookup misses.
pub proof fn lemma_seq_get_none<V>(s: Seq<(AccountId, V)>, k: AccountId)
    requires
        forall|i: int| 0 <= i < s.len() ==> (#[trigger] s[i]).0 != k,
    ensures
        seq_get(s, k) == None::<V>,
    decreases s.len(),
{
    if s.len() > 0 {
        assert(forall|i: int|
            0 <= i < s.drop_last().len() ==> (#[trigger] s.drop_last()[i]).0 != k);
        lemma_seq_get_none(s.drop_last(), k);
    }
}

/// A hit names an entry.
pub proof fn lemma_seq_get_some_exists<V>(s: Seq<(AccountId, V)>, k: AccountId)
    requires
        seq_get(s, k).is_some(),
    ensures
        exists|i: int| 0 <= i < s.len() && (#[trigger] s[i]) == (k, seq_get(s, k).unwrap()),
    decreases s.len(),
{
    if s.len() > 0 {
        if s.last().0 == k {
            assert(s[s.len() - 1] == (k, seq_get(s, k).unwrap()));
        } else {
            lemma_seq_get_some_exists(s.drop_last(), k);
            let i = choose|i: int|
                0 <= i < s.drop_last().len() && (#[trigger] s.drop_last()[i]) == (
                k,
                seq_get(s.drop_last(), k).unwrap(),
            );
            assert(s[i] == (k, seq_get(s, k).unwrap()));
        }
    }
}

/// A lookup ignores entries beyond a suffix that misses the key.
pub proof fn lemma_seq_get_prefix<V>(s: Seq<(AccountId, V)>, k: AccountId, i: int)
    requires
        0 <= i <= s.len(),
        forall|j: int| i <= j < s.len() ==> (#[trigger] s[j]).0 != k,
    ensures
        seq_get(s, k) == seq_get(s.take(i), k),
    decreases s.len(),
{
    if i == s.len() {
        assert(s.take(i) =~= s);
    } else {
        assert(s.last().0 != k);
        assert(s.drop_last().take(i) =~= s.take(i));
        lemma_seq_get_prefix(s.drop_last(), k, i);
    }
}

/// An insertion-ordered map from account ids to values.
///
/// The view is the entry sequence; `spec_get` is the map reading of it.
pub struct UMap<V> {
    entries: Vec<(AccountId, V)>,
}

impl<V: Copy> View for UMap<V> {
    type V = Seq<(AccountId, V)>;

    closed spec fn view(&self) -> Seq<(AccountId, V)> {
        self.entries@
    }
}

impl<V: Copy> UMap<V> {
    /// Keys are pairwise distinct.
    pub open spec fn wf(&self) -> bool {
        unique_keys(self@)
    }

    /// The value stored at `k`, if any.
    pub open spec fn spec_get(&self, k: AccountId) -> Option<V> {
        seq_get(self@, k)
    }

    /// Whether `k` has an entry.
    pub open spec fn spec_contains(&self, k: AccountId) -> bool {
        self.spec_get(k).is_some()
    }

    pub fn new() -> (r: UMap<V>)
        ensures
            r@ == Seq::<(AccountId, V)>::empty(),
            r.wf(),
    {
        UMap { entries: Vec::new() }
    }

    pub fn len(&self) -> (r: usize)
        ensures
            r == self@.len(),
    {
        self.entries.len()
    }

    /// The key of the `i`-th entry in insertion order.
    pub fn key_at(&self, i: usize) -> (r: AccountId)
        requires
            i < self@.len(),
        ensures
            r == self@[i as int].0,
    {
        self.entries[i].0
    }

    /// The value of the `i`-th entry in insertion order.
    pub fn val_at(&self, i: usize) -> (r: V)
        requires
            i < self@.len(),
        ensures
            r == self@[i as int].1,
    {
        self.entries[i].1
    }

    pub fn get(&self, k: AccountId) -> (r: Option<V>)
        requires
            self.wf(),
        ensures
            r == self.spec_get(k),
    {
        let n = self.entries.len();
        for i in 0..n
            invariant
                n == self@.len(),
                self.wf(),
                forall|j: int| 0 <= j < i ==> (#[trigger] self@[j]).0 != k,
        {
            if self.entries[i].0 == k {
                proof {
                    lemma_seq_get_at(self@, k, i as int);
                }
                return Some(self.entries[i].1);
            }
        }
        proof {
            lemma_seq_get_none(self@, k);
        }
        None
    }

    /// The value stored at `k`, found by scanning from the most recent
    /// entry: sound whether or not the keys are distinct.
    pub fn get_last(&self, k: AccountId) -> (r: Option<V>)
        ensures
            r == self.spec_get(k),
    {
        let mut i = self.entries.len();
        while i > 0
            invariant
                i <= self@.len(),
                forall|j: int| i <= j < self@.len() ==> (#[trigger] self@[j]).0 != k,
            decreases i,
        {
            if self.entries[i - 1].0 == k {
                proof {
                    lemma_seq_get_prefix(self@, k, i as int);
                    assert(self@.take(i as int).last() == self@[i - 1]);
                }
                return Some(self.entries[i - 1].1);
            }
            i = i - 1;
        }
        proof {
            lemma_seq_get_prefix(self@, k, 0);
            assert(self@.take(0) =~= Seq::<(AccountId, V)>::empty());
        }
        None
    }

    pub fn contains_key(&self, k: AccountId) -> (r: bool)
        requires
            self.wf(),
        ensures
            r == self.spec_contains(k),
    {
        self.get(k).is_some()
    }

    /// Inserts or replaces the value at `k`.  A new key is appended at the
    /// end; an existing entry keeps its position.
    pub fn set(&mut self, k: AccountId, v: V)
        requires
            old(self).wf(),
        ensures
            final(self).wf(),
            old(self).spec_contains(k) ==> {
                &&& final(self)@ =~= old(self)@.update(key_index(old(self)@, k), (k, v))
                &&& final(self)@.len() == old(self)@.len()
            },
            !old(self).spec_contains(k) ==> final(self)@ =~= old(self)@.push((k, v)),
            forall|k2: AccountId|
                #[trigger] final(self).spec_get(k2) == if k2 == k {
                    Some(v)
                } else {
                    old(self).spec_get(k2)
                },
    {
        let ghost s0 = self@;
        let n = self.entries.len();
        for i in 0..n
            invariant
                n == self@.len(),
                self@ == s0,
                old(self)@ == s0,
                unique_keys(s0),
                forall|j: int| 0 <= j < i ==> (#[trigger] s0[j]).0 != k,
        {
            if self.entries[i].0 == k {
                self.entries[i] = (k, v);
                proof {
                    lemma_seq_get_at(s0, k, i as int);
                    assert(key_index(s0, k) == i as int) by {
                        lemma_key_index(s0, k, i as int);
                    }
                    lemma_update_get(s0, k, v, i as int);
                }
                return ;
            }
        }
        proof {
            lemma_seq_get_none(s0, k);
        }
        self.entries.push((k, v));
        proof {
            assert forall|k2: AccountId| #[trigger]
                seq_get(s0.push((k, v)), k2) == if k2 == k {
                    Some(v)
                } else {
                    seq_get(s0, k2)
                } by {
                assert(s0.push((k, v)).drop_last() =~= s0);
            }
        }
    }

    /// Removes the entry at `k`, if any; the other entries keep their order.
    pub fn remove(&mut self, k: AccountId)
        requires
            old(self).wf(),
        ensures
            final(self).wf(),
            old(self).spec_contains(k) ==> final(self)@ =~= old(self)@.remove(
                key_index(old(self)@, k),
            ),
            !old(self).spec_contains(k) ==> final(self)@ == old(self)@,
            forall|k2: AccountId|
                #[trigger] final(self).spec_get(k2) == if k2 == k {
                    None::<V>
                } else {
                    old(self).spec_get(k2)
                },
    {
        let ghost s0 = self@;
        let n = self.entries.len();
        for i in 0..n
            invariant
                n == self@.len(),
                self@ == s0,
                old(self)@ == s0,
                unique_keys(s0),
                forall|j: int| 0 <= j < i ==> (#[trigger] s0[j]).0 != k,
        {
            if self.entries[i].0 == k {
                self.entries.remove(i);
                proof {
                    lemma_seq_get_at(s0, k, i as int);
                    assert(key_index(s0, k) == i as int) by {
                        lemma_key_index(s0, k, i as int);
                    }
                    lemma_remove_get(s0, k, i as int);
                }
                return ;
            }
        }
        proof {
            lemma_seq_get_none(s0, k);
        }
    }
}

/// The index of the entry with key `k`; meaningful only when the key exists
/// and the keys are distinct.
pub open spec fn key_index<V>(s: Seq<(AccountId, V)>, k: AccountId) -> int {
    choose|i: int| 0 <= i < s.len() && (#[trigger] s[i]).0 == k
}

/// With distinct keys, `key_index` names the one entry that carries `k`.
pub proof fn lemma_key_index<V>(s: Seq<(AccountId, V)>, k: AccountId, i: int)
    requires
        unique_keys(s),
        0 <= i < s.len(),
        s[i].0 == k,
    ensures
        key_index(s, k) == i,
{
    let j = key_index(s, k);
    assert(0 <= j < s.len() && s[j].0 == k);
    if i < j {
        assert(s[i].0 != s[j].0);
    } else if j < i {
        assert(s[j].0 != s[i].0);
    }
}

/// Replacing the value at the entry of `k` changes only that key's lookup,
/// and keeps the keys distinct.
proof fn lemma_update_get<V>(s: Seq<(AccountId, V)>, k: AccountId, v: V, i: int)
    requires
        unique_keys(s),
        0 <= i < s.len(),
        s[i].0 == k,
    ensures
        unique_keys(s.update(i, (k, v))),
        forall|k2: AccountId|
            #[trigger] seq_get(s.update(i, (k, v)), k2) == if k2 == k {
                Some(v)
            } else {
                seq_get(s, k2)
            },
{
    let t = s.update(i, (k, v));
    assert(unique_keys(t)) by {
        assert forall|a: int, b: int| 0 <= a < b < t.len() implies (#[trigger] t[a]).0 != (
        #[trigger] t[b]).0 by {
            assert(t[a].0 == s[a].0 && t[b].0 == s[b].0);
        }
    }
    assert forall|k2: AccountId| #[trigger]
        seq_get(t, k2) == if k2 == k {
            Some(v)
        } else {
            seq_get(s, k2)
        } by {
        if k2 == k {
            lemma_seq_get_at(t, k2, i);
        } else {
            if seq_get(s, k2).is_some() {
                lemma_seq_get_some_exists(s, k2);
                let j = choose|j: int|
                    0 <= j < s.len() && (#[trigger] s[j]) == (k2, seq_get(s, k2).unwrap());
                assert(t[j] == s[j]);
                lemma_seq_get_at(t, k2, j);
            } else {
                assert forall|j: int| 0 <= j < s.len() implies (#[trigger] s[j]).0 != k2 by {
                    if s[j].0 == k2 {
                        lemma_seq_get_at(s, k2, j);
                    }
                }
                assert(forall|j: int| 0 <= j < t.len() ==> (#[trigger] t[j]).0 != k2);
                lemma_seq_get_none(t, k2);
            }
        }
    }
}

/// Removing the entry of `k` misses that key afterwards and keeps every other
/// lookup, and the keys stay distinct.
proof fn lemma_remove_get<V>(s: Seq<(AccountId, V)>, k: AccountId, i: int)
    requires
        unique_keys(s),
        0 <= i < s.len(),
        s[i].0 == k,
    ensures
        unique_keys(s.remove(i)),
        forall|k2: AccountId|
            #[trigger] seq_get(s.remove(i), k2) == if k2 == k {
                None::<V>
            } else {
                seq_get(s, k2)
            },
{
    let t = s.remove(i);
    assert(unique_keys(t)) by {
        assert forall|a: int, b: int| 0 <= a < b < t.len() implies (#[trigger] t[a]).0 != (
        #[trigger] t[b]).0 by {
            let a0 = if a < i {
                a
            } else {
                a + 1
            };
            let b0 = if b < i {
                b
            } else {
                b + 1
            };
            assert(t[a] == s[a0] && t[b] == s[b0]);
        }
    }
    assert forall|k2: AccountId| #[trigger]
        seq_get(t, k2) == if k2 == k {
            None::<V>
        } else {
            seq_get(s, k2)
        } by {
        if k2 == k {
            assert forall|j: int| 0 <= j < t.len() implies (#[trigger] t[j]).0 != k by {
                let j0 = if j < i {
                    j
                } else {
                    j + 1
                };
                assert(t[j] == s[j0]);
                assert(j0 != i);
            }
            lemma_seq_get_none(t, k2);
        } else {
            if seq_get(s, k2).is_some() {
                lemma_seq_get_some_exists(s, k2);
                let j = choose|j: int|
                    0 <= j < s.len() && (#[trigger] s[j]) == (k2, seq_get(s, k2).unwrap());
                assert(j != i);
                let j1 = if j < i {
                    j
                } else {
                    j - 1
                };
                assert(t[j1] == s[j]);
                lemma_seq_get_at(t, k2, j1);
            } else {
                assert forall|j: int| 0 <= j < s.len() implies (#[trigger] s[j]).0 != k2 by {
                    if s[j].0 == k2 {
                        lemma_seq_get_at(s, k2, j);
                    }
                }
                assert forall|j: int| 0 <= j < t.len() implies (#[trigger] t[j]).0 != k2 by {
                    let j0 = if j < i {
                        j
                    } else {
                        j + 1
                    };
                    assert(t[j] == s[j0]);
                }
                lemma_seq_get_none(t, k2);
            }
        }
    }
}

} // verus!
