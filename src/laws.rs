//! Properties of the reward pool that hold across operations.
use crate::arith::mul_div_spec;
use crate::pool::{
    add_share_model, add_share_overflows, amount_in, claim_model, claim_of, claimed_entry, currencies_distinct,
    inflate, inflation, lemma_position, listed, listed_before, model_wf, pending_of, rewards_of,
    saturating_add_spec, total_shares_of, withdrawn_of, RewardInfo, RewardPoolModel,
};
use crate::pallet::{round_after, Pallet};
use crate::sums::sum_shares;
use crate::types::{AccountId, Error, EstateId, RoundIndex};
use crate::{Balance, FungibleTokenId};
use vstd::arithmetic::div_mod::{lemma_fundamental_div_mod, lemma_mod_bound};
use vstd::prelude::*;

verus! {

/// Claiming a second time, with nothing issued in between, pays nothing
/// and changes nothing.
pub proof fn lemma_claim_twice_pays_nothing(m: RewardPoolModel, who: AccountId)
    requires
        model_wf(m),
    ensures
        forall|c: FungibleTokenId| #[trigger] claim_of(claim_model(m, who), who, c) == 0,
        claim_model(claim_model(m, who), who) == claim_model(m, who),
{
    let m1 = claim_model(m, who);
    if !m.shares.contains_key(who) || m.pool is None {
        return;
    }
    let rs = rewards_of(m.pool);
    let rs1 = rewards_of(m1.pool);
    assert forall|c: FungibleTokenId| #[trigger] claim_of(m1, who, c) == 0 by {
        if listed(rs1, c) {
            let j = choose|j: int| 0 <= j < rs1.len() && #[trigger] rs1[j].currency == c;
            assert(rs1[j] == claimed_entry(m, who, rs[j]));
            assert(currencies_distinct(rs1)) by {
                assert forall|i: int, k: int|
                    0 <= i < rs1.len() && 0 <= k < rs1.len() && i != k implies #[trigger] rs1[i].currency
                        != #[trigger] rs1[k].currency by {
                    assert(rs1[i].currency == rs[i].currency);
                    assert(rs1[k].currency == rs[k].currency);
                }
            }
            lemma_position(rs1, j);
            lemma_position(rs, j);
        }
    }
    let w1 = withdrawn_of(m1, who);
    assert(rs1.map_values(|e: RewardInfo| claimed_entry(m1, who, e)) =~= rs1);
    assert(Map::new(
        |c: FungibleTokenId| w1.contains_key(c) || claim_of(m1, who, c) > 0,
        |c: FungibleTokenId|
            if claim_of(m1, who, c) > 0 {
                (amount_in(w1, c) + claim_of(m1, who, c)) as u128
            } else {
                w1[c]
            },
    ) =~= w1);
    assert(claim_model(m1, who).shares =~= m1.shares);
    let pend1 = pending_of(m1, who);
    assert(Map::new(
        |c: FungibleTokenId| pend1.contains_key(c) || claim_of(m1, who, c) > 0,
        |c: FungibleTokenId|
            if claim_of(m1, who, c) > 0 {
                saturating_add_spec(amount_in(pend1, c), claim_of(m1, who, c)) as u128
            } else {
                pend1[c]
            },
    ) =~= pend1);
    assert(claim_model(m1, who).pending =~= m1.pending);
}

/// `a` parts of the rewards over `p` shares, issued again over `p + a`
/// shares, give no more than the first part.
pub proof fn lemma_join_gains_nothing(a: int, r: int, p: int)
    requires
        a > 0,
        r >= 0,
        p > 0,
    ensures
        a * (r + a * r / p) / (p + a) <= a * r / p,
{
    let q = a * r / p;
    lemma_fundamental_div_mod(a * r, p);
    lemma_mod_bound(a * r, p);
    assert(a * r >= 0) by (nonlinear_arith)
        requires
            a > 0,
            r >= 0,
    ;
    assert(q >= 0) by (nonlinear_arith)
        requires
            q == a * r / p,
            a * r >= 0,
            p > 0,
    ;
    assert(a * r < (q + 1) * p) by (nonlinear_arith)
        requires
            a * r == p * q + (a * r) % p,
            (a * r) % p < p,
    ;
    let y = a * (r + q);
    let d = p + a;
    assert(y < (q + 1) * d) by (nonlinear_arith)
        requires
            a * r < (q + 1) * p,
            a > 0,
            q >= 0,
            y == a * (r + q),
            d == p + a,
    ;
    lemma_fundamental_div_mod(y, d);
    lemma_mod_bound(y, d);
    assert(y / d <= q) by (nonlinear_arith)
        requires
            y == d * (y / d) + y % d,
            y % d >= 0,
            y < (q + 1) * d,
            d > 0,
    ;
}

/// An account that joins after rewards were issued has nothing to claim
/// from them: right after `add_share` its claim is zero in every currency.
pub proof fn lemma_no_retroactive_reward(m: RewardPoolModel, who: AccountId, a: int)
    requires
        model_wf(m),
        !m.shares.contains_key(who),
        0 < a,
        !add_share_overflows(m, who, a),
    ensures
        forall|c: FungibleTokenId| #[trigger] claim_of(add_share_model(m, who, a), who, c) == 0,
{
    let m1 = add_share_model(m, who, a);
    let prev = total_shares_of(m.pool);
    let rs = rewards_of(m.pool);
    let rs1 = rewards_of(m1.pool);
    assert forall|c: FungibleTokenId| #[trigger] claim_of(m1, who, c) == 0 by {
        if listed(rs1, c) {
            let j = choose|j: int| 0 <= j < rs1.len() && #[trigger] rs1[j].currency == c;
            let e = rs[j];
            assert(rs1[j] == inflate(prev, a, e));
            assert(currencies_distinct(rs1)) by {
                assert forall|i: int, k: int|
                    0 <= i < rs1.len() && 0 <= k < rs1.len() && i != k implies #[trigger] rs1[i].currency
                        != #[trigger] rs1[k].currency by {
                    assert(rs1[i].currency == rs[i].currency);
                    assert(rs1[k].currency == rs[k].currency);
                }
            }
            lemma_position(rs1, j);
            lemma_position(rs, j);
            assert(listed_before(rs, c, rs.len() as int));
            let i = inflation(prev, a, e);
            assert(prev > 0);
            assert(!(e.total_reward + i > u128::MAX));
            let q = a * e.total_reward / prev;
            if q > u128::MAX {
                assert(i == u128::MAX);
            }
            assert(i == q);
            assert(amount_in(withdrawn_of(m1, who), c) == i);
            lemma_join_gains_nothing(a, e.total_reward as int, prev);
            assert(mul_div_spec(a, (e.total_reward + i) as int, prev + a) <= i);
        }
    }
}


/// In every reachable state (every operation keeps `wf`), each reward
/// currency's withdrawn total stays within its issued total.
pub proof fn lemma_withdrawn_within_issued(p: &Pallet)
    requires
        p.wf(),
    ensures
        forall|i: int|
            0 <= i < rewards_of(p.pool().pool).len() ==> #[trigger] rewards_of(p.pool().pool)[i].total_withdrawn_reward
                <= rewards_of(p.pool().pool)[i].total_reward,
{
}

/// In every reachable state (every operation keeps `wf`), the accounts'
/// share amounts add up to the pool's total shares.
pub proof fn lemma_shares_add_up(p: &Pallet)
    requires
        p.wf(),
    ensures
        sum_shares(p.pool().shares) == total_shares_of(p.pool().pool),
{
}

/// At most one pending self-stake exit per account and round: an unstake
/// that would otherwise go through is refused with a duplicate-exit error
/// exactly while an entry for its target round exists, and goes through
/// once that entry is withdrawn.
pub proof fn lemma_self_exit_unique(p: &Pallet, who: AccountId, amount: Balance, current_round: RoundIndex, estate_exists: bool)
    requires
        0 < amount <= p.self_staked(who),
    ensures
        p.ledger.exit_queue@.contains_key((who, round_after(current_round, 1))) ==> p.unstake_error(
            who,
            amount,
            None,
            current_round,
            estate_exists,
        ) == Some(Error::ExitQueueAlreadyScheduled),
        !p.ledger.exit_queue@.contains_key((who, round_after(current_round, 1))) ==> p.unstake_error(
            who,
            amount,
            None,
            current_round,
            estate_exists,
        ) is None,
{
}

/// At most one pending estate exit per account, round and estate, in the
/// same way as for self-stake.
pub proof fn lemma_estate_exit_unique(p: &Pallet, who: AccountId, amount: Balance, estate: EstateId, current_round: RoundIndex)
    requires
        0 < amount <= p.estate_bonded(estate),
        p.ledger.estate_staking_info@.contains_key(estate) ==> p.ledger.estate_staking_info@[estate].staker == who,
    ensures
        p.ledger.estate_exit_queue@.contains_key(((who, round_after(current_round, 1)), estate)) ==> p.unstake_error(
            who,
            amount,
            Some(estate),
            current_round,
            true,
        ) == Some(Error::ExitQueueAlreadyScheduled),
        !p.ledger.estate_exit_queue@.contains_key(((who, round_after(current_round, 1)), estate)) ==> p.unstake_error(
            who,
            amount,
            Some(estate),
            current_round,
            true,
        ) is None,
{
}

} // verus!
