//! Innovation staking, kept in lock-step with the reward pool's shares, and
//! the pool's operations at the level of the whole module.
use crate::pallet::{round_after, Pallet};
use crate::pool::{
    accumulate_error, accumulate_model, add_share_model, add_share_overflows, claim_model, model_wf, nonzero_entries,
    paid_out_model, remove_share_model, share_of,
};
use crate::sums::{lemma_le_sum, lemma_share_le_sum, lemma_sum_insert, lemma_sum_remove_any};
use crate::types::{AccountId, Error, Event, RoundIndex};
use crate::{Balance, FungibleTokenId};
use vstd::prelude::*;

verus! {

broadcast use vstd::std_specs::btree::group_btree_axioms, vstd::laws_cmp::group_laws_cmp;

/// Rounds an innovation exit waits before its funds are released.
pub const INNOVATION_EXIT_DELAY: RoundIndex = 28;

/// Claiming never changes anyone's share amount.
pub proof fn lemma_claim_keeps_shares(m: crate::pool::RewardPoolModel, who: AccountId, a: AccountId)
    ensures
        share_of(claim_model(m, who), a) == share_of(m, a),
{
}

impl Pallet {
    /// Every account's innovation stake equals its share amount in the
    /// reward pool.
    pub open spec fn innovation_in_step(&self) -> bool {
        forall|a: AccountId| #[trigger] self.innovation_staked(a) == share_of(self.pool(), a)
    }

    /// Everything but the reward pool and the event log is as in `other`.
    pub open spec fn same_outside_pool(&self, other: &Pallet) -> bool {
        &&& self.config == other.config
        &&& self.ledger == other.ledger
        &&& self.innovation == other.innovation
        &&& self.era == other.era
        &&& self.bit_power_exchange_rate == other.bit_power_exchange_rate
        &&& self.power_balance == other.power_balance
    }

    /// Everything but the innovation ledger, the reward pool and the event
    /// log is as in `other`.
    pub open spec fn same_outside_innovation(&self, other: &Pallet) -> bool {
        &&& self.config == other.config
        &&& self.ledger == other.ledger
        &&& self.era == other.era
        &&& self.bit_power_exchange_rate == other.bit_power_exchange_rate
        &&& self.power_balance == other.power_balance
    }

    /// Adds `add_amount` shares for `who` to the reward pool.
    pub fn add_share(&mut self, who: AccountId, add_amount: Balance) -> (r: Result<(), Error>)
        requires
            old(self).wf(),
        ensures
            final(self).wf(),
            final(self).same_outside_pool(old(self)),
            final(self).events == old(self).events,
            r is Err <==> add_amount > 0 && add_share_overflows(old(self).pool(), who, add_amount as int),
            r is Err ==> r == Err::<(), Error>(Error::ArithmeticOverflow) && *final(self) == *old(self),
            r is Ok ==> final(self).pool() == add_share_model(old(self).pool(), who, add_amount as int),
    {
        self.reward_pool.add_share(who, add_amount)
    }

    /// Removes up to `remove_amount` of `who`'s shares, settling its
    /// rewards into its pending rewards first.
    pub fn remove_share(&mut self, who: AccountId, remove_amount: Balance)
        requires
            old(self).wf(),
        ensures
            final(self).wf(),
            final(self).same_outside_pool(old(self)),
            final(self).events == old(self).events,
            final(self).pool() == remove_share_model(old(self).pool(), who, remove_amount as int),
    {
        self.reward_pool.remove_share(who, remove_amount)
    }

    /// Realizes `who`'s entitlement in every reward currency into its
    /// pending rewards.
    pub fn claim_rewards(&mut self, who: AccountId)
        requires
            old(self).wf(),
        ensures
            final(self).wf(),
            final(self).same_outside_pool(old(self)),
            final(self).events == old(self).events,
            final(self).pool() == claim_model(old(self).pool(), who),
    {
        self.reward_pool.claim_rewards(who)
    }

    /// Issues `reward_increment` more reward in `reward_currency`; fails
    /// when no pool exists yet.
    pub fn accumulate_reward(&mut self, reward_currency: FungibleTokenId, reward_increment: Balance) -> (r: Result<(), Error>)
        requires
            old(self).wf(),
        ensures
            final(self).wf(),
            final(self).same_outside_pool(old(self)),
            final(self).events == old(self).events,
            match accumulate_error(old(self).pool(), reward_currency, reward_increment as int) {
                Some(e) => r == Err::<(), Error>(e) && *final(self) == *old(self),
                None => r is Ok && final(self).pool() == accumulate_model(old(self).pool(), reward_currency, reward_increment as int),
            },
    {
        self.reward_pool.accumulate_reward(reward_currency, reward_increment)
    }

    /// Why `stake_on_innovation` fails, if it does.
    pub open spec fn stake_on_innovation_error(
        &self,
        who: AccountId,
        amount: Balance,
        free_balance: Balance,
        current_round: RoundIndex,
    ) -> Option<Error> {
        let total = self.innovation_staked(who) + amount;
        if free_balance < amount {
            Some(Error::InsufficientBalanceForStaking)
        } else if amount == 0 && amount < self.config.minimum_stake {
            Some(Error::StakeBelowMinimum)
        } else if self.innovation.innovation_staking_exit_queue@.contains_key((who, current_round)) {
            Some(Error::ExitQueueAlreadyScheduled)
        } else if total > u128::MAX {
            Some(Error::ArithmeticOverflow)
        } else if total < self.config.minimum_stake {
            Some(Error::StakeBelowMinimum)
        } else if self.innovation.total_innovation_staking + amount > u128::MAX {
            Some(Error::ArithmeticOverflow)
        } else if amount > 0 && add_share_overflows(self.pool(), who, amount as int) {
            Some(Error::ArithmeticOverflow)
        } else {
            None
        }
    }

    /// Stakes `amount` of `who`'s free balance on innovation; the staked
    /// amount joins the reward pool as shares. On success the caller
    /// reserves `amount` in the asset ledger.
    pub fn stake_on_innovation(
        &mut self,
        who: AccountId,
        amount: Balance,
        free_balance: Balance,
        current_round: RoundIndex,
    ) -> (r: Result<(), Error>)
        requires
            old(self).wf(),
        ensures
            final(self).wf(),
            old(self).innovation_in_step() ==> final(self).innovation_in_step(),
            match old(self).stake_on_innovation_error(who, amount, free_balance, current_round) {
                Some(e) => r == Err::<(), Error>(e) && *final(self) == *old(self),
                None => {
                    &&& r is Ok
                    &&& final(self).same_outside_innovation(old(self))
                    &&& final(self).innovation.innovation_staking_info@ == old(self).innovation.innovation_staking_info@.insert(
                        who,
                        (old(self).innovation_staked(who) + amount) as u128,
                    )
                    &&& final(self).innovation.total_innovation_staking == old(self).innovation.total_innovation_staking + amount
                    &&& final(self).innovation.innovation_staking_exit_queue == old(self).innovation.innovation_staking_exit_queue
                    &&& final(self).pool() == add_share_model(old(self).pool(), who, amount as int)
                    &&& final(self).events@ == old(self).events@.push(Event::StakedInnovation(who, amount))
                },
            },
    {
        if free_balance < amount {
            return Err(Error::InsufficientBalanceForStaking);
        }
        if amount == 0 && amount < self.config.minimum_stake {
            return Err(Error::StakeBelowMinimum);
        }
        if self.innovation.innovation_staking_exit_queue.contains_key(&(who, current_round)) {
            return Err(Error::ExitQueueAlreadyScheduled);
        }
        let staked = Pallet::staked_of(&self.innovation.innovation_staking_info, who);
        if staked > u128::MAX - amount {
            return Err(Error::ArithmeticOverflow);
        }
        let total = staked + amount;
        if total < self.config.minimum_stake {
            return Err(Error::StakeBelowMinimum);
        }
        if self.innovation.total_innovation_staking > u128::MAX - amount {
            return Err(Error::ArithmeticOverflow);
        }
        match self.reward_pool.add_share(who, amount) {
            Ok(()) => {},
            Err(e) => {
                return Err(e);
            },
        }
        proof {
            lemma_sum_insert(self.innovation.innovation_staking_info@, who, total);
        }
        self.innovation.innovation_staking_info.insert(who, total);
        self.innovation.total_innovation_staking = self.innovation.total_innovation_staking + amount;
        self.events.push(Event::StakedInnovation(who, amount));
        proof {
            if old(self).innovation_in_step() {
                assert forall|a: AccountId| #[trigger] self.innovation_staked(a) == share_of(self.pool(), a) by {
                    assert(old(self).innovation_staked(a) == share_of(old(self).pool(), a));
                }
            }
        }
        Ok(())
    }

    /// Why `unstake_on_innovation` fails, if it does.
    pub open spec fn unstake_on_innovation_error(&self, who: AccountId, amount: Balance, current_round: RoundIndex) -> Option<Error> {
        if amount == 0 {
            Some(Error::UnstakeAmountIsZero)
        } else if amount > self.innovation_staked(who) {
            Some(Error::UnstakeAmountExceedStakedAmount)
        } else if self.innovation.innovation_staking_exit_queue@.contains_key(
            (who, round_after(current_round, INNOVATION_EXIT_DELAY as int)),
        ) {
            Some(Error::ExitQueueAlreadyScheduled)
        } else {
            None
        }
    }

    /// Moves `amount` of `who`'s innovation stake (all of it when the rest
    /// would fall under the minimum) into the innovation exit queue, and
    /// removes as many shares, settling rewards now.
    pub fn unstake_on_innovation(&mut self, who: AccountId, amount: Balance, current_round: RoundIndex) -> (r: Result<(), Error>)
        requires
            old(self).wf(),
        ensures
            final(self).wf(),
            old(self).innovation_in_step() ==> final(self).innovation_in_step(),
            match old(self).unstake_on_innovation_error(who, amount, current_round) {
                Some(e) => r == Err::<(), Error>(e) && *final(self) == *old(self),
                None => {
                    let staked = old(self).innovation_staked(who);
                    let x = crate::pallet::amount_to_unstake(staked, amount as int, old(self).config.minimum_stake as int);
                    &&& r is Ok
                    &&& final(self).same_outside_innovation(old(self))
                    &&& final(self).innovation.innovation_staking_exit_queue@
                        == old(self).innovation.innovation_staking_exit_queue@.insert(
                        (who, round_after(current_round, INNOVATION_EXIT_DELAY as int)),
                        x as u128,
                    )
                    &&& final(self).innovation.innovation_staking_info@ == if x == staked {
                        old(self).innovation.innovation_staking_info@.remove(who)
                    } else {
                        old(self).innovation.innovation_staking_info@.insert(who, (staked - amount) as u128)
                    }
                    &&& final(self).innovation.total_innovation_staking == old(self).innovation.total_innovation_staking - x
                    &&& final(self).pool() == remove_share_model(old(self).pool(), who, x)
                    &&& final(self).events@ == old(self).events@.push(Event::UnstakedInnovation(who, amount))
                },
            },
    {
        if amount == 0 {
            return Err(Error::UnstakeAmountIsZero);
        }
        let staked = Pallet::staked_of(&self.innovation.innovation_staking_info, who);
        if amount > staked {
            return Err(Error::UnstakeAmountExceedStakedAmount);
        }
        let remaining = staked - amount;
        let x = if remaining < self.config.minimum_stake { staked } else { amount };
        let next: RoundIndex = match current_round.checked_add(INNOVATION_EXIT_DELAY) {
            Some(v) => v,
            None => u32::MAX,
        };
        if self.innovation.innovation_staking_exit_queue.contains_key(&(who, next)) {
            return Err(Error::ExitQueueAlreadyScheduled);
        }
        proof {
            lemma_le_sum(self.innovation.innovation_staking_info@, who);
            lemma_sum_insert(self.innovation.innovation_staking_info@, who, remaining);
            lemma_sum_remove_any(self.innovation.innovation_staking_info@, who);
        }
        self.innovation.innovation_staking_exit_queue.insert((who, next), x);
        if x == staked {
            self.innovation.innovation_staking_info.remove(&who);
        } else {
            self.innovation.innovation_staking_info.insert(who, remaining);
        }
        self.innovation.total_innovation_staking = self.innovation.total_innovation_staking - x;
        let ghost m0 = self.pool();
        self.reward_pool.remove_share(who, x);
        self.events.push(Event::UnstakedInnovation(who, amount));
        proof {
            if old(self).innovation_in_step() {
                let m1 = claim_model(m0, who);
                assert(old(self).innovation_staked(who) == share_of(m0, who));
                assert(m0.shares.contains_key(who));
                lemma_claim_keeps_shares(m0, who, who);
                assert(model_wf(m0));
                lemma_share_le_sum(m0.shares, who);
                assert(m0.pool is Some);
                assert(m1.shares.contains_key(who));
                assert(m1.pool is Some);
                assert forall|a: AccountId| #[trigger] self.innovation_staked(a) == share_of(self.pool(), a) by {
                    assert(old(self).innovation_staked(a) == share_of(m0, a));
                    lemma_claim_keeps_shares(m0, who, a);
                }
            }
        }
        Ok(())
    }

    /// Claims `who`'s rewards into its pending rewards and returns the
    /// pending amounts now due, per currency. The caller transfers each from
    /// the reward payout account and, for each transfer that succeeds,
    /// calls `reward_paid_out`; a failed transfer stays pending.
    pub fn claim_reward(&mut self, who: AccountId) -> (r: Vec<(FungibleTokenId, Balance)>)
        requires
            old(self).wf(),
        ensures
            final(self).wf(),
            final(self).same_outside_pool(old(self)),
            final(self).events == old(self).events,
            final(self).pool() == claim_model(old(self).pool(), who),
            final(self).reward_pool.pending_rewards@.contains_key(who) ==> r@ == nonzero_entries(
                final(self).reward_pool.pending_rewards@[who].entries@,
            ),
            !final(self).reward_pool.pending_rewards@.contains_key(who) ==> r@.len() == 0,
    {
        self.reward_pool.claim_rewards(who);
        self.reward_pool.pending_payouts(who)
    }

    /// Records that `who`'s pending reward in `currency_id` was transferred:
    /// the pending amount drops to zero and a `ClaimRewards` event is
    /// emitted. Returns the amount that was pending.
    pub fn reward_paid_out(&mut self, who: AccountId, currency_id: FungibleTokenId) -> (r: Balance)
        requires
            old(self).wf(),
        ensures
            final(self).wf(),
            final(self).same_outside_pool(old(self)),
            r == crate::pool::amount_in(crate::pool::pending_of(old(self).pool(), who), currency_id),
            final(self).pool() == paid_out_model(old(self).pool(), who, currency_id),
            r > 0 ==> final(self).events@ == old(self).events@.push(Event::ClaimRewards(who, currency_id, r)),
            r == 0 ==> final(self).events == old(self).events,
    {
        let paid = self.reward_pool.clear_pending(who, currency_id);
        if paid > 0 {
            self.events.push(Event::ClaimRewards(who, currency_id, paid));
        }
        paid
    }
}

} // verus!
