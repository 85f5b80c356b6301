//! Unstaking into the round-keyed exit queues, withdrawal from them, and the
//! privileged paths that bypass them.
use crate::pallet::{amount_to_unstake, bond_amounts, lemma_bond_sum_insert, lemma_bond_sum_remove, round_after, Pallet};
use crate::sums::{lemma_le_sum, lemma_sum_insert, lemma_sum_remove_any};
use crate::types::{AccountId, Bond, Error, EstateFacts, EstateId, Event, RoundIndex};
use crate::Balance;
use vstd::prelude::*;

verus! {

broadcast use vstd::std_specs::btree::group_btree_axioms, vstd::laws_cmp::group_laws_cmp;

/// The round after `r`, held at the last round.
fn next_round(r: RoundIndex, d: RoundIndex) -> (n: RoundIndex)
    ensures
        n == round_after(r, d as int),
{
    match r.checked_add(d) {
        Some(v) => v,
        None => u32::MAX,
    }
}

impl Pallet {
    /// Why `unstake` fails, if it does.
    pub open spec fn unstake_error(
        &self,
        who: AccountId,
        amount: Balance,
        estate: Option<EstateId>,
        current_round: RoundIndex,
        estate_exists: bool,
    ) -> Option<Error> {
        let next = round_after(current_round, 1);
        if amount == 0 {
            Some(Error::UnstakeAmountIsZero)
        } else {
            match estate {
                None => if amount > self.self_staked(who) {
                    Some(Error::UnstakeAmountExceedStakedAmount)
                } else if self.ledger.exit_queue@.contains_key((who, next)) {
                    Some(Error::ExitQueueAlreadyScheduled)
                } else {
                    None
                },
                Some(id) => {
                    let bonds = self.ledger.estate_staking_info@;
                    if !estate_exists {
                        Some(Error::StakeEstateDoesNotExist)
                    } else if bonds.contains_key(id) && bonds[id].staker != who {
                        Some(Error::NoFundsStakedAtEstate)
                    } else if amount > self.estate_bonded(id) {
                        Some(Error::UnstakeAmountExceedStakedAmount)
                    } else if self.ledger.estate_exit_queue@.contains_key(((who, next), id)) {
                        Some(Error::ExitQueueAlreadyScheduled)
                    } else {
                        None
                    }
                },
            }
        }
    }

    /// Moves `amount` of `who`'s self-stake, or of its stake on `estate`,
    /// into the exit queue of the next round. When the stake left would fall
    /// under the minimum, the whole stake leaves.
    pub fn unstake(
        &mut self,
        who: AccountId,
        amount: Balance,
        estate: Option<EstateId>,
        current_round: RoundIndex,
        estate_exists: bool,
    ) -> (r: Result<(), Error>)
        requires
            old(self).wf(),
        ensures
            final(self).wf(),
            match old(self).unstake_error(who, amount, estate, current_round, estate_exists) {
                Some(e) => r == Err::<(), Error>(e) && *final(self) == *old(self),
                None => r is Ok && final(self).same_outside_ledger(old(self)) && match estate {
                    None => {
                        let staked = old(self).self_staked(who);
                        let x = amount_to_unstake(staked, amount as int, old(self).config.minimum_stake as int);
                        &&& final(self).ledger.exit_queue@ == old(self).ledger.exit_queue@.insert(
                            (who, round_after(current_round, 1)),
                            x as u128,
                        )
                        &&& final(self).ledger.staking_info@ == if x == staked {
                            old(self).ledger.staking_info@.remove(who)
                        } else {
                            old(self).ledger.staking_info@.insert(who, (staked - amount) as u128)
                        }
                        &&& final(self).ledger.total_stake == old(self).ledger.total_stake - x
                        &&& final(self).ledger.estate_staking_info == old(self).ledger.estate_staking_info
                        &&& final(self).ledger.estate_exit_queue == old(self).ledger.estate_exit_queue
                        &&& final(self).ledger.total_estate_stake == old(self).ledger.total_estate_stake
                        &&& final(self).events@ == old(self).events@.push(Event::SelfStakingRemovedFromEconomy101(who, amount))
                    },
                    Some(id) => {
                        let staked = old(self).estate_bonded(id);
                        let x = amount_to_unstake(staked, amount as int, old(self).config.minimum_stake as int);
                        &&& final(self).ledger.estate_exit_queue@ == old(self).ledger.estate_exit_queue@.insert(
                            ((who, round_after(current_round, 1)), id),
                            x as u128,
                        )
                        &&& final(self).ledger.estate_staking_info@ == if x == staked {
                            old(self).ledger.estate_staking_info@.remove(id)
                        } else {
                            old(self).ledger.estate_staking_info@.insert(id, Bond { staker: who, amount: (staked - amount) as u128 })
                        }
                        &&& final(self).ledger.total_estate_stake == old(self).ledger.total_estate_stake - x
                        &&& final(self).ledger.staking_info == old(self).ledger.staking_info
                        &&& final(self).ledger.exit_queue == old(self).ledger.exit_queue
                        &&& final(self).ledger.total_stake == old(self).ledger.total_stake
                        &&& final(self).events@ == old(self).events@.push(Event::EstateStakingRemovedFromEconomy101(who, id, amount))
                    },
                },
            },
    {
        if amount == 0 {
            return Err(Error::UnstakeAmountIsZero);
        }
        let next = next_round(current_round, 1);
        match estate {
            None => {
                let staked = Pallet::staked_of(&self.ledger.staking_info, who);
                if amount > staked {
                    return Err(Error::UnstakeAmountExceedStakedAmount);
                }
                let remaining = staked - amount;
                let x = if remaining < self.config.minimum_stake { staked } else { amount };
                if self.ledger.exit_queue.contains_key(&(who, next)) {
                    return Err(Error::ExitQueueAlreadyScheduled);
                }
                proof {
                    lemma_le_sum(self.ledger.staking_info@, who);
                    lemma_sum_insert(self.ledger.staking_info@, who, remaining);
                    lemma_sum_remove_any(self.ledger.staking_info@, who);
                }
                self.ledger.exit_queue.insert((who, next), x);
                if x == staked {
                    self.ledger.staking_info.remove(&who);
                } else {
                    self.ledger.staking_info.insert(who, remaining);
                }
                self.ledger.total_stake = self.ledger.total_stake - x;
                self.events.push(Event::SelfStakingRemovedFromEconomy101(who, amount));
            },
            Some(id) => {
                if !estate_exists {
                    return Err(Error::StakeEstateDoesNotExist);
                }
                let staked: Balance = match self.ledger.estate_staking_info.get(&id) {
                    Some(bond) => {
                        if bond.staker != who {
                            return Err(Error::NoFundsStakedAtEstate);
                        }
                        bond.amount
                    },
                    None => 0,
                };
                if amount > staked {
                    return Err(Error::UnstakeAmountExceedStakedAmount);
                }
                let remaining = staked - amount;
                let x = if remaining < self.config.minimum_stake { staked } else { amount };
                if self.ledger.estate_exit_queue.contains_key(&((who, next), id)) {
                    return Err(Error::ExitQueueAlreadyScheduled);
                }
                proof {
                    assert(bond_amounts(self.ledger.estate_staking_info@).dom() =~= self.ledger.estate_staking_info@.dom());
                    lemma_le_sum(bond_amounts(self.ledger.estate_staking_info@), id);
                    lemma_bond_sum_insert(self.ledger.estate_staking_info@, id, Bond { staker: who, amount: remaining });
                    lemma_bond_sum_remove(self.ledger.estate_staking_info@, id);
                }
                self.ledger.estate_exit_queue.insert(((who, next), id), x);
                if x == staked {
                    self.ledger.estate_staking_info.remove(&id);
                } else {
                    self.ledger.estate_staking_info.insert(id, Bond { staker: who, amount: remaining });
                }
                self.ledger.total_estate_stake = self.ledger.total_estate_stake - x;
                self.events.push(Event::EstateStakingRemovedFromEconomy101(who, id, amount));
            },
        }
        Ok(())
    }

    /// Why `unstake_new_estate_owner` fails, if it does.
    pub open spec fn unstake_new_estate_owner_error(
        &self,
        who: AccountId,
        estate_id: EstateId,
        current_round: RoundIndex,
        facts: EstateFacts,
    ) -> Option<Error> {
        let bonds = self.ledger.estate_staking_info@;
        if !facts.exists {
            Some(Error::StakeEstateDoesNotExist)
        } else if !facts.caller_is_owner {
            Some(Error::StakerNotEstateOwner)
        } else if !bonds.contains_key(estate_id) {
            Some(Error::StakeEstateDoesNotExist)
        } else if bonds[estate_id].staker == who {
            Some(Error::StakerNotPreviousOwner)
        } else if self.ledger.estate_exit_queue@.contains_key(
            ((bonds[estate_id].staker, round_after(current_round, 1)), estate_id),
        ) {
            Some(Error::ExitQueueAlreadyScheduled)
        } else {
            None
        }
    }

    /// Lets the current owner `who` of `estate_id` clear a bond left by a
    /// previous owner: the previous staker's whole bond goes into the estate
    /// exit queue under the previous staker, for the next round.
    pub fn unstake_new_estate_owner(
        &mut self,
        who: AccountId,
        estate_id: EstateId,
        current_round: RoundIndex,
        facts: EstateFacts,
    ) -> (r: Result<(), Error>)
        requires
            old(self).wf(),
        ensures
            final(self).wf(),
            match old(self).unstake_new_estate_owner_error(who, estate_id, current_round, facts) {
                Some(e) => r == Err::<(), Error>(e) && *final(self) == *old(self),
                None => {
                    let bond = old(self).ledger.estate_staking_info@[estate_id];
                    &&& r is Ok
                    &&& final(self).same_outside_ledger(old(self))
                    &&& final(self).ledger.estate_exit_queue@ == old(self).ledger.estate_exit_queue@.insert(
                        ((bond.staker, round_after(current_round, 1)), estate_id),
                        bond.amount,
                    )
                    &&& final(self).ledger.estate_staking_info@ == old(self).ledger.estate_staking_info@.remove(estate_id)
                    &&& final(self).ledger.total_estate_stake == old(self).ledger.total_estate_stake - bond.amount
                    &&& final(self).ledger.staking_info == old(self).ledger.staking_info
                    &&& final(self).ledger.exit_queue == old(self).ledger.exit_queue
                    &&& final(self).ledger.total_stake == old(self).ledger.total_stake
                    &&& final(self).events@ == old(self).events@.push(
                        Event::EstateStakingRemovedFromEconomy101(bond.staker, estate_id, bond.amount),
                    )
                },
            },
    {
        if !facts.exists {
            return Err(Error::StakeEstateDoesNotExist);
        }
        if !facts.caller_is_owner {
            return Err(Error::StakerNotEstateOwner);
        }
        let bond: Bond = match self.ledger.estate_staking_info.get(&estate_id) {
            Some(b) => *b,
            None => {
                return Err(Error::StakeEstateDoesNotExist);
            },
        };
        if bond.staker == who {
            return Err(Error::StakerNotPreviousOwner);
        }
        let next = next_round(current_round, 1);
        if self.ledger.estate_exit_queue.contains_key(&((bond.staker, next), estate_id)) {
            return Err(Error::ExitQueueAlreadyScheduled);
        }
        proof {
            assert(bond_amounts(self.ledger.estate_staking_info@).dom() =~= self.ledger.estate_staking_info@.dom());
            lemma_le_sum(bond_amounts(self.ledger.estate_staking_info@), estate_id);
            lemma_bond_sum_remove(self.ledger.estate_staking_info@, estate_id);
        }
        self.ledger.estate_exit_queue.insert(((bond.staker, next), estate_id), bond.amount);
        self.ledger.estate_staking_info.remove(&estate_id);
        self.ledger.total_estate_stake = self.ledger.total_estate_stake - bond.amount;
        // The event names the staker whose bond was removed, not the caller.
        self.events.push(Event::EstateStakingRemovedFromEconomy101(bond.staker, estate_id, bond.amount));
        Ok(())
    }

    /// Takes `who`'s self-stake exit entry for `round_index` out of the
    /// queue; the caller unreserves the amount returned.
    pub fn withdraw_unreserved(&mut self, who: AccountId, round_index: RoundIndex) -> (r: Result<Balance, Error>)
        requires
            old(self).wf(),
        ensures
            final(self).wf(),
            !old(self).ledger.exit_queue@.contains_key((who, round_index)) ==> r == Err::<Balance, Error>(
                Error::ExitQueueDoesNotExit,
            ) && *final(self) == *old(self),
            old(self).ledger.exit_queue@.contains_key((who, round_index)) ==> {
                let v = old(self).ledger.exit_queue@[(who, round_index)];
                &&& r == Ok::<Balance, Error>(v)
                &&& final(self).ledger.exit_queue@ == old(self).ledger.exit_queue@.remove((who, round_index))
                &&& final(self).ledger.staking_info == old(self).ledger.staking_info
                &&& final(self).ledger.estate_staking_info == old(self).ledger.estate_staking_info
                &&& final(self).ledger.estate_exit_queue == old(self).ledger.estate_exit_queue
                &&& final(self).ledger.total_stake == old(self).ledger.total_stake
                &&& final(self).ledger.total_estate_stake == old(self).ledger.total_estate_stake
                &&& final(self).same_outside_ledger(old(self))
                &&& final(self).events@ == old(self).events@.push(Event::UnstakedAmountWithdrew(who, v))
            },
    {
        let exit_balance: Balance = match self.ledger.exit_queue.get(&(who, round_index)) {
            Some(v) => *v,
            None => {
                return Err(Error::ExitQueueDoesNotExit);
            },
        };
        self.ledger.exit_queue.remove(&(who, round_index));
        self.events.push(Event::UnstakedAmountWithdrew(who, exit_balance));
        Ok(exit_balance)
    }

    /// Takes `who`'s exit entry for `estate_id` at `round_index` out of the
    /// estate exit queue; the caller unreserves the amount returned.
    pub fn withdraw_estate_unreserved(
        &mut self,
        who: AccountId,
        round_index: RoundIndex,
        estate_id: EstateId,
    ) -> (r: Result<Balance, Error>)
        requires
            old(self).wf(),
        ensures
            final(self).wf(),
            !old(self).ledger.estate_exit_queue@.contains_key(((who, round_index), estate_id)) ==> r == Err::<
                Balance,
                Error,
            >(Error::EstateExitQueueDoesNotExit) && *final(self) == *old(self),
            old(self).ledger.estate_exit_queue@.contains_key(((who, round_index), estate_id)) ==> {
                let v = old(self).ledger.estate_exit_queue@[((who, round_index), estate_id)];
                &&& r == Ok::<Balance, Error>(v)
                &&& final(self).ledger.estate_exit_queue@ == old(self).ledger.estate_exit_queue@.remove(
                    ((who, round_index), estate_id),
                )
                &&& final(self).ledger.staking_info == old(self).ledger.staking_info
                &&& final(self).ledger.estate_staking_info == old(self).ledger.estate_staking_info
                &&& final(self).ledger.exit_queue == old(self).ledger.exit_queue
                &&& final(self).ledger.total_stake == old(self).ledger.total_stake
                &&& final(self).ledger.total_estate_stake == old(self).ledger.total_estate_stake
                &&& final(self).same_outside_ledger(old(self))
                &&& final(self).events@ == old(self).events@.push(Event::UnstakedAmountWithdrew(who, v))
            },
    {
        let key = ((who, round_index), estate_id);
        let exit_balance: Balance = match self.ledger.estate_exit_queue.get(&key) {
            Some(v) => *v,
            None => {
                return Err(Error::EstateExitQueueDoesNotExit);
            },
        };
        self.ledger.estate_exit_queue.remove(&key);
        self.events.push(Event::UnstakedAmountWithdrew(who, exit_balance));
        Ok(exit_balance)
    }

    /// Why `force_unstake` fails, if it does.
    pub open spec fn force_unstake_error(
        &self,
        amount: Balance,
        who: AccountId,
        estate: Option<EstateId>,
        estate_exists: bool,
    ) -> Option<Error> {
        if amount == 0 {
            Some(Error::UnstakeAmountIsZero)
        } else {
            match estate {
                None => if amount > self.self_staked(who) {
                    Some(Error::UnstakeAmountExceedStakedAmount)
                } else {
                    None
                },
                Some(id) => {
                    let bonds = self.ledger.estate_staking_info@;
                    if !estate_exists {
                        Some(Error::StakeEstateDoesNotExist)
                    } else if bonds.contains_key(id) && bonds[id].staker != who {
                        Some(Error::NoFundsStakedAtEstate)
                    } else if amount > self.estate_bonded(id) {
                        Some(Error::UnstakeAmountExceedStakedAmount)
                    } else {
                        None
                    }
                },
            }
        }
    }

    /// Privileged: removes stake from `who` at once, bypassing the exit
    /// queue. Returns the amount the caller unreserves.
    pub fn force_unstake(
        &mut self,
        amount: Balance,
        who: AccountId,
        estate: Option<EstateId>,
        estate_exists: bool,
    ) -> (r: Result<Balance, Error>)
        requires
            old(self).wf(),
        ensures
            final(self).wf(),
            match old(self).force_unstake_error(amount, who, estate, estate_exists) {
                Some(e) => r == Err::<Balance, Error>(e) && *final(self) == *old(self),
                None => final(self).same_outside_ledger(old(self))
                    && final(self).ledger.exit_queue == old(self).ledger.exit_queue
                    && final(self).ledger.estate_exit_queue == old(self).ledger.estate_exit_queue
                    && match estate {
                    None => {
                        let staked = old(self).self_staked(who);
                        let x = amount_to_unstake(staked, amount as int, old(self).config.minimum_stake as int);
                        &&& r == Ok::<Balance, Error>(x as u128)
                        &&& final(self).ledger.staking_info@ == if x == staked {
                            old(self).ledger.staking_info@.remove(who)
                        } else {
                            old(self).ledger.staking_info@.insert(who, (staked - amount) as u128)
                        }
                        &&& final(self).ledger.total_stake == old(self).ledger.total_stake - x
                        &&& final(self).ledger.estate_staking_info == old(self).ledger.estate_staking_info
                        &&& final(self).ledger.total_estate_stake == old(self).ledger.total_estate_stake
                        &&& final(self).events@ == old(self).events@.push(Event::UnstakedAmountWithdrew(who, x as u128)).push(
                            Event::SelfStakingRemovedFromEconomy101(who, amount),
                        )
                    },
                    Some(id) => {
                        let staked = old(self).estate_bonded(id);
                        let x = amount_to_unstake(staked, amount as int, old(self).config.minimum_stake as int);
                        &&& r == Ok::<Balance, Error>(x as u128)
                        &&& final(self).ledger.estate_staking_info@ == if x == staked {
                            old(self).ledger.estate_staking_info@.remove(id)
                        } else {
                            old(self).ledger.estate_staking_info@.insert(id, Bond { staker: who, amount: (staked - amount) as u128 })
                        }
                        &&& final(self).ledger.total_estate_stake == old(self).ledger.total_estate_stake - x
                        &&& final(self).ledger.staking_info == old(self).ledger.staking_info
                        &&& final(self).ledger.total_stake == old(self).ledger.total_stake
                        &&& final(self).events@ == old(self).events@.push(Event::UnstakedAmountWithdrew(who, x as u128)).push(
                            Event::EstateStakingRemovedFromEconomy101(who, id, amount),
                        )
                    },
                },
            },
    {
        if amount == 0 {
            return Err(Error::UnstakeAmountIsZero);
        }
        match estate {
            None => {
                let staked = Pallet::staked_of(&self.ledger.staking_info, who);
                if amount > staked {
                    return Err(Error::UnstakeAmountExceedStakedAmount);
                }
                let remaining = staked - amount;
                let x = if remaining < self.config.minimum_stake { staked } else { amount };
                proof {
                    lemma_le_sum(self.ledger.staking_info@, who);
                    lemma_sum_insert(self.ledger.staking_info@, who, remaining);
                    lemma_sum_remove_any(self.ledger.staking_info@, who);
                }
                if x == staked {
                    self.ledger.staking_info.remove(&who);
                } else {
                    self.ledger.staking_info.insert(who, remaining);
                }
                self.ledger.total_stake = self.ledger.total_stake - x;
                self.events.push(Event::UnstakedAmountWithdrew(who, x));
                self.events.push(Event::SelfStakingRemovedFromEconomy101(who, amount));
                Ok(x)
            },
            Some(id) => {
                if !estate_exists {
                    return Err(Error::StakeEstateDoesNotExist);
                }
                let staked: Balance = match self.ledger.estate_staking_info.get(&id) {
                    Some(bond) => {
                        if bond.staker != who {
                            return Err(Error::NoFundsStakedAtEstate);
                        }
                        bond.amount
                    },
                    None => 0,
                };
                if amount > staked {
                    return Err(Error::UnstakeAmountExceedStakedAmount);
                }
                let remaining = staked - amount;
                let x = if remaining < self.config.minimum_stake { staked } else { amount };
                proof {
                    assert(bond_amounts(self.ledger.estate_staking_info@).dom() =~= self.ledger.estate_staking_info@.dom());
                    lemma_le_sum(bond_amounts(self.ledger.estate_staking_info@), id);
                    lemma_bond_sum_insert(self.ledger.estate_staking_info@, id, Bond { staker: who, amount: remaining });
                    lemma_bond_sum_remove(self.ledger.estate_staking_info@, id);
                }
                if x == staked {
                    self.ledger.estate_staking_info.remove(&id);
                } else {
                    self.ledger.estate_staking_info.insert(id, Bond { staker: who, amount: remaining });
                }
                self.ledger.total_estate_stake = self.ledger.total_estate_stake - x;
                self.events.push(Event::UnstakedAmountWithdrew(who, x));
                self.events.push(Event::EstateStakingRemovedFromEconomy101(who, id, amount));
                Ok(x)
            },
        }
    }

    /// Privileged: checks that `amount` of `who`'s reserved balance
    /// (`reserved_balance`) may be unreserved at once, and returns the
    /// amount the caller unreserves. The ledger is left as it is.
    pub fn force_unreserved_staking(&self, amount: Balance, who: AccountId, reserved_balance: Balance) -> (r: Result<Balance, Error>)
        ensures
            amount == 0 ==> r == Err::<Balance, Error>(Error::UnstakeAmountIsZero),
            amount != 0 && amount > reserved_balance ==> r == Err::<Balance, Error>(Error::UnstakeAmountExceedStakedAmount),
            amount != 0 && amount <= reserved_balance ==> r == Ok::<Balance, Error>(amount),
    {
        if amount == 0 {
            return Err(Error::UnstakeAmountIsZero);
        }
        if amount > reserved_balance {
            return Err(Error::UnstakeAmountExceedStakedAmount);
        }
        Ok(amount)
    }
}

} // verus!
