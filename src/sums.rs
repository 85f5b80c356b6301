//! Sums of amounts over all keys of a map.
use crate::pool::ShareModel;
use crate::{AccountId, Balance};
use vstd::prelude::*;

verus! {

/// Sum of the amounts of every key in `m`.
pub open spec fn sum_values<K>(m: Map<K, Balance>) -> int
    decreases m.dom().len(),
    when m.dom().finite()
{
    if m.dom().len() == 0 {
        0
    } else {
        let k = m.dom().choose();
        m[k] as int + sum_values(m.remove(k))
    }
}

/// Sum of the share amounts of every account in `m`.
pub open spec fn sum_shares(m: Map<AccountId, ShareModel>) -> int {
    sum_values(m.map_values(|r: ShareModel| r.share))
}

/// The sum splits off any one key.
pub proof fn lemma_sum_remove<K>(m: Map<K, Balance>, k: K)
    requires
        m.dom().finite(),
        m.contains_key(k),
    ensures
        sum_values(m) == m[k] as int + sum_values(m.remove(k)),
    decreases m.dom().len(),
{
    assert(m.dom().len() > 0) by {
        assert(m.dom().contains(k));
    }
    let j = m.dom().choose();
    if j != k {
        lemma_sum_remove(m.remove(j), k);
        lemma_sum_remove(m.remove(k), j);
        assert(m.remove(j).remove(k) =~= m.remove(k).remove(j));
    }
}

/// Replacing one key's amount changes the sum by the difference.
pub proof fn lemma_sum_insert<K>(m: Map<K, Balance>, k: K, v: Balance)
    requires
        m.dom().finite(),
    ensures
        sum_values(m.insert(k, v)) == sum_values(m) + v - (if m.contains_key(k) {
            m[k] as int
        } else {
            0
        }),
{
    let n = m.insert(k, v);
    lemma_sum_remove(n, k);
    if m.contains_key(k) {
        lemma_sum_remove(m, k);
        assert(n.remove(k) =~= m.remove(k));
    } else {
        assert(n.remove(k) =~= m);
    }
}

/// Removing a key, present or not.
pub proof fn lemma_sum_remove_any<K>(m: Map<K, Balance>, k: K)
    requires
        m.dom().finite(),
    ensures
        sum_values(m.remove(k)) == sum_values(m) - (if m.contains_key(k) {
            m[k] as int
        } else {
            0
        }),
{
    if m.contains_key(k) {
        lemma_sum_remove(m, k);
    } else {
        assert(m.remove(k) =~= m);
    }
}

/// Amounts are non-negative, so their sum is too.
pub proof fn lemma_sum_nonneg<K>(m: Map<K, Balance>)
    requires
        m.dom().finite(),
    ensures
        sum_values(m) >= 0,
    decreases m.dom().len(),
{
    if m.dom().len() > 0 {
        let k = m.dom().choose();
        lemma_sum_nonneg(m.remove(k));
    }
}

/// One key's amount never exceeds the sum.
pub proof fn lemma_le_sum<K>(m: Map<K, Balance>, k: K)
    requires
        m.dom().finite(),
        m.contains_key(k),
    ensures
        m[k] <= sum_values(m),
{
    lemma_sum_remove(m, k);
    lemma_sum_nonneg(m.remove(k));
}

/// The empty map sums to zero.
pub proof fn lemma_sum_empty<K>(m: Map<K, Balance>)
    requires
        m.dom().finite(),
        m.dom().len() == 0,
    ensures
        sum_values(m) == 0,
{
}

pub proof fn lemma_share_sum_insert(m: Map<AccountId, ShareModel>, k: AccountId, v: ShareModel)
    requires
        m.dom().finite(),
    ensures
        sum_shares(m.insert(k, v)) == sum_shares(m) + v.share - (if m.contains_key(k) {
            m[k].share as int
        } else {
            0
        }),
{
    let f = |r: ShareModel| r.share;
    assert(m.insert(k, v).map_values(f) =~= m.map_values(f).insert(k, v.share));
    assert(m.map_values(f).dom() =~= m.dom());
    lemma_sum_insert(m.map_values(f), k, v.share);
}

pub proof fn lemma_share_sum_remove_any(m: Map<AccountId, ShareModel>, k: AccountId)
    requires
        m.dom().finite(),
    ensures
        sum_shares(m.remove(k)) == sum_shares(m) - (if m.contains_key(k) {
            m[k].share as int
        } else {
            0
        }),
{
    let f = |r: ShareModel| r.share;
    assert(m.remove(k).map_values(f) =~= m.map_values(f).remove(k));
    assert(m.map_values(f).dom() =~= m.dom());
    lemma_sum_remove_any(m.map_values(f), k);
}

pub proof fn lemma_share_le_sum(m: Map<AccountId, ShareModel>, k: AccountId)
    requires
        m.dom().finite(),
        m.contains_key(k),
    ensures
        m[k].share <= sum_shares(m),
{
    let f = |r: ShareModel| r.share;
    assert(m.map_values(f).dom() =~= m.dom());
    lemma_le_sum(m.map_values(f), k);
}

} // verus!
