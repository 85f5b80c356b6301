//! The era clock: turns elapsed blocks into eras and issues the reward of
//! each elapsed era into the reward pool.
use crate::pallet::{round_after, Pallet};
use crate::pool::{accumulate_error, accumulate_model};
use crate::types::{AccountId, BlockNumber, EraIndex, Error, Event, NATIVE_TOKEN_ID};
use crate::Balance;
use vstd::prelude::*;

verus! {

broadcast use vstd::std_specs::btree::group_btree_axioms, vstd::laws_cmp::group_laws_cmp;

pub open spec fn min_spec(a: int, b: int) -> int {
    if a < b { a } else { b }
}

/// `a * b`, held at the largest balance.
pub open spec fn saturating_mul_spec(a: int, b: int) -> int {
    if a * b > u128::MAX { u128::MAX as int } else { a * b }
}

impl Pallet {
    /// Everything but the era state, the reward pool and the event log is
    /// as in `other`.
    pub open spec fn same_outside_era(&self, other: &Pallet) -> bool {
        &&& self.config == other.config
        &&& self.ledger == other.ledger
        &&& self.innovation == other.innovation
        &&& self.bit_power_exchange_rate == other.bit_power_exchange_rate
        &&& self.power_balance == other.power_balance
    }

    /// Whole eras elapsed at `block_number` since the last era update; zero
    /// before it or while the frequency is zero.
    pub open spec fn era_index_at(&self, block_number: BlockNumber) -> EraIndex {
        if block_number < self.era.last_era_updated_block || self.era.update_era_frequency == 0 {
            0
        } else {
            ((block_number - self.era.last_era_updated_block) / self.era.update_era_frequency as int) as u32
        }
    }

    pub fn get_era_index(&self, block_number: BlockNumber) -> (r: EraIndex)
        ensures
            r == self.era_index_at(block_number),
    {
        if block_number < self.era.last_era_updated_block || self.era.update_era_frequency == 0 {
            return 0;
        }
        (block_number - self.era.last_era_updated_block) / self.era.update_era_frequency
    }

    /// Era reached after `era_index` more eras, held at the last era.
    pub open spec fn new_era(&self, era_index: EraIndex) -> EraIndex {
        round_after(self.era.current_era, era_index as int)
    }

    /// Reward issued for the eras between the current one and `new_era`:
    /// the per-era reward times the eras elapsed, capped at the holding
    /// account's balance.
    pub open spec fn era_reward(&self, new_era: EraIndex, reward_holding_balance: Balance) -> int {
        min_spec(
            saturating_mul_spec(
                self.era.estimated_staking_reward_per_era as int,
                new_era - self.era.current_era,
            ),
            reward_holding_balance as int,
        )
    }

    /// Why `update_current_era` fails, if it does.
    pub open spec fn update_current_era_error(&self, era_index: EraIndex, reward_holding_balance: Balance) -> Option<Error> {
        let new_era = self.new_era(era_index);
        if new_era == self.era.current_era {
            Some(Error::Unexpected)
        } else if reward_holding_balance == 0 {
            None
        } else {
            accumulate_error(self.pool(), NATIVE_TOKEN_ID, self.era_reward(new_era, reward_holding_balance))
        }
    }

    /// The state after a successful `update_current_era`.
    pub open spec fn era_updated(&self, after: &Pallet, era_index: EraIndex, current_block: BlockNumber, reward_holding_balance: Balance) -> bool {
        let new_era = self.new_era(era_index);
        &&& after.same_outside_era(self)
        &&& after.era.current_era == new_era
        &&& after.era.last_era_updated_block == current_block
        &&& after.era.update_era_frequency == self.era.update_era_frequency
        &&& after.era.estimated_staking_reward_per_era == self.era.estimated_staking_reward_per_era
        &&& after.pool() == if reward_holding_balance == 0 {
            self.pool()
        } else {
            accumulate_model(self.pool(), NATIVE_TOKEN_ID, self.era_reward(new_era, reward_holding_balance))
        }
        &&& after.events@ == self.events@.push(Event::CurrentInnovationStakingEraUpdated(new_era))
    }

    /// Issues the reward of the eras between `previous_era` and `new_era`
    /// into the pool, capped at what the holding account holds; nothing
    /// when it holds nothing.
    fn handle_reward_distribution_to_reward_pool_every_era(
        &mut self,
        previous_era: EraIndex,
        new_era: EraIndex,
        reward_holding_balance: Balance,
    ) -> (r: Result<(), Error>)
        requires
            old(self).wf(),
            previous_era == old(self).era.current_era,
            previous_era <= new_era,
        ensures
            final(self).wf(),
            final(self).same_outside_era(old(self)),
            final(self).era == old(self).era,
            final(self).events == old(self).events,
            new_era == previous_era ==> r == Err::<(), Error>(Error::Unexpected) && *final(self) == *old(self),
            new_era != previous_era && reward_holding_balance == 0 ==> r is Ok && *final(self) == *old(self),
            new_era != previous_era && reward_holding_balance != 0 ==> match accumulate_error(
                old(self).pool(),
                NATIVE_TOKEN_ID,
                old(self).era_reward(new_era, reward_holding_balance),
            ) {
                Some(e) => r == Err::<(), Error>(e) && *final(self) == *old(self),
                None => r is Ok && final(self).pool() == accumulate_model(
                    old(self).pool(),
                    NATIVE_TOKEN_ID,
                    old(self).era_reward(new_era, reward_holding_balance),
                ),
            },
    {
        let era_changes = new_era - previous_era;
        if era_changes == 0 {
            return Err(Error::Unexpected);
        }
        if reward_holding_balance == 0 {
            return Ok(());
        }
        let total_reward: Balance = match self.era.estimated_staking_reward_per_era.checked_mul(era_changes as u128) {
            Some(v) => v,
            None => u128::MAX,
        };
        let amount_to_send = if total_reward > reward_holding_balance { reward_holding_balance } else { total_reward };
        self.reward_pool.accumulate_reward(NATIVE_TOKEN_ID, amount_to_send)
    }

    /// Advances the era clock by `era_index` eras at block `current_block`,
    /// issuing their reward into the pool. Nothing changes on failure.
    pub fn update_current_era(
        &mut self,
        era_index: EraIndex,
        current_block: BlockNumber,
        reward_holding_balance: Balance,
    ) -> (r: Result<(), Error>)
        requires
            old(self).wf(),
        ensures
            final(self).wf(),
            match old(self).update_current_era_error(era_index, reward_holding_balance) {
                Some(e) => r == Err::<(), Error>(e) && *final(self) == *old(self),
                None => r is Ok && old(self).era_updated(final(self), era_index, current_block, reward_holding_balance),
            },
    {
        let previous_era = self.era.current_era;
        let new_era: EraIndex = match previous_era.checked_add(era_index) {
            Some(v) => v,
            None => u32::MAX,
        };
        match self.handle_reward_distribution_to_reward_pool_every_era(previous_era, new_era, reward_holding_balance) {
            Ok(()) => {},
            Err(e) => {
                return Err(e);
            },
        }
        self.era.current_era = new_era;
        self.era.last_era_updated_block = current_block;
        self.events.push(Event::CurrentInnovationStakingEraUpdated(new_era));
        Ok(())
    }

    /// Start-of-block hook: when whole eras have elapsed at `block_number`,
    /// advances the era clock; a failed advance is dropped and changes
    /// nothing.
    pub fn on_initialize(&mut self, block_number: BlockNumber, reward_holding_balance: Balance)
        requires
            old(self).wf(),
        ensures
            final(self).wf(),
            ({
                let idx = old(self).era_index_at(block_number);
                if idx == 0 || old(self).update_current_era_error(idx, reward_holding_balance) is Some {
                    *final(self) == *old(self)
                } else {
                    old(self).era_updated(final(self), idx, block_number, reward_holding_balance)
                }
            }),
    {
        let era_number = self.get_era_index(block_number);
        if era_number != 0 {
            let _ = self.update_current_era(era_number, block_number, reward_holding_balance);
        }
    }

    /// Why `update_era_config` fails, if it does: a new last-update block
    /// must lie within the last era's span before `current_block`.
    pub open spec fn update_era_config_error(
        &self,
        last_era_updated_block: Option<BlockNumber>,
        frequency: Option<BlockNumber>,
        current_block: BlockNumber,
    ) -> Option<Error> {
        let freq = match frequency {
            Some(f) => f,
            None => self.era.update_era_frequency,
        };
        let earliest = if current_block >= freq { current_block - freq } else { 0 };
        match last_era_updated_block {
            Some(b) => if freq != 0 && !(b > earliest && b <= current_block) {
                Some(Error::InvalidLastEraUpdatedBlock)
            } else {
                None
            },
            None => None,
        }
    }

    /// Events of a successful `update_era_config`, in order.
    pub open spec fn era_config_events(
        &self,
        last_era_updated_block: Option<BlockNumber>,
        frequency: Option<BlockNumber>,
        estimated_reward_rate_per_era: Option<Balance>,
    ) -> Seq<Event> {
        let freq = match frequency {
            Some(f) => f,
            None => self.era.update_era_frequency,
        };
        let s1 = match frequency {
            Some(f) => seq![Event::UpdatedInnovationStakingEraFrequency(f)],
            None => Seq::empty(),
        };
        let s2 = match last_era_updated_block {
            Some(b) => if freq != 0 { s1.push(Event::LastInnovationStakingEraUpdated(b)) } else { s1 },
            None => s1,
        };
        match estimated_reward_rate_per_era {
            Some(r) => s2.push(Event::EstimatedRewardPerEraUpdated(r)),
            None => s2,
        }
    }

    /// Privileged: sets the era frequency, the last era-update block (taken
    /// only while the frequency is non-zero) and the reward per era.
    pub fn update_era_config(
        &mut self,
        last_era_updated_block: Option<BlockNumber>,
        frequency: Option<BlockNumber>,
        estimated_reward_rate_per_era: Option<Balance>,
        current_block: BlockNumber,
    ) -> (r: Result<(), Error>)
        requires
            old(self).wf(),
        ensures
            final(self).wf(),
            match old(self).update_era_config_error(last_era_updated_block, frequency, current_block) {
                Some(e) => r == Err::<(), Error>(e) && *final(self) == *old(self),
                None => {
                    let freq = match frequency {
                        Some(f) => f,
                        None => old(self).era.update_era_frequency,
                    };
                    &&& r is Ok
                    &&& final(self).same_outside_era(old(self))
                    &&& final(self).reward_pool == old(self).reward_pool
                    &&& final(self).era.current_era == old(self).era.current_era
                    &&& final(self).era.update_era_frequency == freq
                    &&& final(self).era.last_era_updated_block == match last_era_updated_block {
                        Some(b) => if freq != 0 { b } else { old(self).era.last_era_updated_block },
                        None => old(self).era.last_era_updated_block,
                    }
                    &&& final(self).era.estimated_staking_reward_per_era == match estimated_reward_rate_per_era {
                        Some(v) => v,
                        None => old(self).era.estimated_staking_reward_per_era,
                    }
                    &&& final(self).events@ == old(self).events@ + old(self).era_config_events(
                        last_era_updated_block,
                        frequency,
                        estimated_reward_rate_per_era,
                    )
                },
            },
    {
        let freq: BlockNumber = match frequency {
            Some(f) => f,
            None => self.era.update_era_frequency,
        };
        let earliest: BlockNumber = if current_block >= freq { current_block - freq } else { 0 };
        match last_era_updated_block {
            Some(b) => {
                if freq != 0 && !(b > earliest && b <= current_block) {
                    return Err(Error::InvalidLastEraUpdatedBlock);
                }
            },
            None => {},
        }
        let ghost events0 = self.events@;
        match frequency {
            Some(f) => {
                self.era.update_era_frequency = f;
                self.events.push(Event::UpdatedInnovationStakingEraFrequency(f));
            },
            None => {},
        }
        match last_era_updated_block {
            Some(b) => {
                if freq != 0 {
                    self.era.last_era_updated_block = b;
                    self.events.push(Event::LastInnovationStakingEraUpdated(b));
                }
            },
            None => {},
        }
        match estimated_reward_rate_per_era {
            Some(v) => {
                self.era.estimated_staking_reward_per_era = v;
                self.events.push(Event::EstimatedRewardPerEraUpdated(v));
            },
            None => {},
        }
        assert(self.events@ =~= events0 + old(self).era_config_events(last_era_updated_block, frequency, estimated_reward_rate_per_era));
        Ok(())
    }

    /// Account of the economy treasury.
    pub fn economy_pallet_account_id(&self) -> (r: AccountId)
        ensures
            r == self.config.economy_treasury_account,
    {
        self.config.economy_treasury_account
    }

    /// Account that holds and pays out innovation staking rewards.
    pub fn get_reward_payout_account_id(&self) -> (r: AccountId)
        ensures
            r == self.config.reward_payout_account,
    {
        self.config.reward_payout_account
    }
}

} // verus!
