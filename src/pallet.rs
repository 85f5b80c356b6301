//! The module's state and its staking ledger with delayed exits.
use crate::pool::{RewardPool, RewardPoolModel};
use crate::sums::{lemma_sum_empty, lemma_sum_insert, lemma_sum_remove_any, sum_values};
use crate::types::{AccountId, BlockNumber, Bond, Config, EraIndex, Error, EstateFacts, EstateId, Event, PowerAmount, RoundIndex};
use crate::Balance;
use std::collections::BTreeMap;
use vstd::prelude::*;

verus! {

broadcast use vstd::std_specs::btree::group_btree_axioms, vstd::laws_cmp::group_laws_cmp;

/// Self-stake and estate-stake records with their exit queues.
#[derive(Clone)]
pub struct StakingLedger {
    /// Self-stake per account.
    pub staking_info: BTreeMap<AccountId, Balance>,
    /// Estate bonds per estate.
    pub estate_staking_info: BTreeMap<EstateId, Bond>,
    /// Self-stake exits per (account, round).
    pub exit_queue: BTreeMap<(AccountId, RoundIndex), Balance>,
    /// Estate-stake exits per ((account, round), estate).
    pub estate_exit_queue: BTreeMap<((AccountId, RoundIndex), EstateId), Balance>,
    pub total_stake: Balance,
    pub total_estate_stake: Balance,
}

/// Innovation-stake records and their exit queue.
#[derive(Clone)]
pub struct InnovationLedger {
    pub innovation_staking_info: BTreeMap<AccountId, Balance>,
    pub total_innovation_staking: Balance,
    /// Innovation exits per (account, round).
    pub innovation_staking_exit_queue: BTreeMap<(AccountId, RoundIndex), Balance>,
}

/// The era clock that drives reward issuance.
#[derive(Clone, Copy, Debug, PartialEq, Eq, Structural)]
pub struct EraState {
    pub current_era: EraIndex,
    pub last_era_updated_block: BlockNumber,
    /// Blocks per era.
    pub update_era_frequency: BlockNumber,
    /// Reward issued per elapsed era.
    pub estimated_staking_reward_per_era: Balance,
}

/// The whole state of the economy module.
#[derive(Clone)]
pub struct Pallet {
    pub config: Config,
    pub ledger: StakingLedger,
    pub innovation: InnovationLedger,
    pub reward_pool: RewardPool,
    pub era: EraState,
    pub bit_power_exchange_rate: Balance,
    pub power_balance: BTreeMap<AccountId, PowerAmount>,
    /// Events of the operations so far, oldest first.
    pub events: Vec<Event>,
}

pub open spec fn value_or_zero<K>(m: Map<K, Balance>, k: K) -> int {
    if m.contains_key(k) {
        m[k] as int
    } else {
        0
    }
}

/// Stake left behind when `amount` of `staked` leaves: all of it goes when
/// the remainder would fall under the minimum.
pub open spec fn amount_to_unstake(staked: int, amount: int, minimum: int) -> int {
    if staked - amount < minimum {
        staked
    } else {
        amount
    }
}

/// Bonded amount per estate.
pub open spec fn bond_amounts(m: Map<EstateId, Bond>) -> Map<EstateId, Balance> {
    m.map_values(|b: Bond| b.amount)
}

pub proof fn lemma_bond_sum_insert(m: Map<EstateId, Bond>, k: EstateId, b: Bond)
    requires
        m.dom().finite(),
    ensures
        sum_values(bond_amounts(m.insert(k, b))) == sum_values(bond_amounts(m)) + b.amount - (if m.contains_key(k) {
            m[k].amount as int
        } else {
            0
        }),
{
    assert(bond_amounts(m.insert(k, b)) =~= bond_amounts(m).insert(k, b.amount));
    assert(bond_amounts(m).dom() =~= m.dom());
    lemma_sum_insert(bond_amounts(m), k, b.amount);
}

pub proof fn lemma_bond_sum_remove(m: Map<EstateId, Bond>, k: EstateId)
    requires
        m.dom().finite(),
    ensures
        sum_values(bond_amounts(m.remove(k))) == sum_values(bond_amounts(m)) - (if m.contains_key(k) {
            m[k].amount as int
        } else {
            0
        }),
{
    assert(bond_amounts(m.remove(k)) =~= bond_amounts(m).remove(k));
    assert(bond_amounts(m).dom() =~= m.dom());
    lemma_sum_remove_any(bond_amounts(m), k);
}

/// The round `d` rounds after `r`, held at the last round.
pub open spec fn round_after(r: RoundIndex, d: int) -> RoundIndex {
    if r + d > u32::MAX {
        u32::MAX
    } else {
        (r + d) as u32
    }
}

impl Pallet {
    /// Everything outside the self- and estate-staking ledger is as in `other`.
    pub open spec fn same_outside_ledger(&self, other: &Pallet) -> bool {
        &&& self.config == other.config
        &&& self.innovation == other.innovation
        &&& self.reward_pool == other.reward_pool
        &&& self.era == other.era
        &&& self.bit_power_exchange_rate == other.bit_power_exchange_rate
        &&& self.power_balance == other.power_balance
    }

    /// Every recorded self-stake, estate bond and innovation stake is at
    /// least the minimum stake.
    pub open spec fn stakes_at_least_minimum(&self) -> bool {
        let min = self.config.minimum_stake;
        &&& forall|a: AccountId| #[trigger] self.ledger.staking_info@.contains_key(a) ==> self.ledger.staking_info@[a] >= min
        &&& forall|e: EstateId| #[trigger] self.ledger.estate_staking_info@.contains_key(e)
            ==> self.ledger.estate_staking_info@[e].amount >= min
        &&& forall|a: AccountId| #[trigger] self.innovation.innovation_staking_info@.contains_key(a)
            ==> self.innovation.innovation_staking_info@[a] >= min
    }

    /// Each running total equals the sum of its entries, every recorded
    /// stake reaches the minimum, and the reward pool's invariants hold.
    pub open spec fn wf(&self) -> bool {
        &&& self.stakes_at_least_minimum()
        &&& self.ledger.total_stake == sum_values(self.ledger.staking_info@)
        &&& self.ledger.total_estate_stake == sum_values(bond_amounts(self.ledger.estate_staking_info@))
        &&& self.innovation.total_innovation_staking == sum_values(self.innovation.innovation_staking_info@)
        &&& self.reward_pool.wf()
    }

    pub open spec fn pool(&self) -> RewardPoolModel {
        self.reward_pool@
    }

    pub open spec fn self_staked(&self, who: AccountId) -> int {
        value_or_zero(self.ledger.staking_info@, who)
    }

    pub open spec fn estate_bonded(&self, estate: EstateId) -> int {
        if self.ledger.estate_staking_info@.contains_key(estate) {
            self.ledger.estate_staking_info@[estate].amount as int
        } else {
            0
        }
    }

    pub open spec fn innovation_staked(&self, who: AccountId) -> int {
        value_or_zero(self.innovation.innovation_staking_info@, who)
    }

    /// A module with no stake, no pool and era parameters at zero.
    pub fn new(config: Config) -> (r: Pallet)
        ensures
            r.wf(),
            r.config == config,
            r.ledger.staking_info@.is_empty(),
            r.ledger.estate_staking_info@.is_empty(),
            r.ledger.exit_queue@.is_empty(),
            r.ledger.estate_exit_queue@.is_empty(),
            r.ledger.total_stake == 0,
            r.ledger.total_estate_stake == 0,
            r.innovation.innovation_staking_info@.is_empty(),
            r.innovation.innovation_staking_exit_queue@.is_empty(),
            r.innovation.total_innovation_staking == 0,
            r.pool().pool is None,
            r.pool().shares.is_empty(),
            r.pool().pending.is_empty(),
            r.era == (EraState { current_era: 0, last_era_updated_block: 0, update_era_frequency: 0, estimated_staking_reward_per_era: 0 }),
            r.events@.len() == 0,
    {
        let r = Pallet {
            config,
            ledger: StakingLedger {
                staking_info: BTreeMap::new(),
                estate_staking_info: BTreeMap::new(),
                exit_queue: BTreeMap::new(),
                estate_exit_queue: BTreeMap::new(),
                total_stake: 0,
                total_estate_stake: 0,
            },
            innovation: InnovationLedger {
                innovation_staking_info: BTreeMap::new(),
                total_innovation_staking: 0,
                innovation_staking_exit_queue: BTreeMap::new(),
            },
            reward_pool: RewardPool::new(),
            era: EraState { current_era: 0, last_era_updated_block: 0, update_era_frequency: 0, estimated_staking_reward_per_era: 0 },
            bit_power_exchange_rate: 0,
            power_balance: BTreeMap::new(),
            events: Vec::new(),
        };
        assert(r.ledger.staking_info@ =~= Map::empty());
        assert(r.ledger.estate_staking_info@ =~= Map::empty());
        assert(r.ledger.exit_queue@ =~= Map::empty());
        assert(r.ledger.estate_exit_queue@ =~= Map::empty());
        assert(r.innovation.innovation_staking_info@ =~= Map::empty());
        assert(r.innovation.innovation_staking_exit_queue@ =~= Map::empty());
        proof {
            lemma_sum_empty(r.ledger.staking_info@);
            lemma_sum_empty(r.innovation.innovation_staking_info@);
            assert(bond_amounts(r.ledger.estate_staking_info@) =~= Map::empty());
            lemma_sum_empty(bond_amounts(r.ledger.estate_staking_info@));
        }
        r
    }

    pub(crate) fn staked_of(m: &BTreeMap<AccountId, Balance>, who: AccountId) -> (r: Balance)
        ensures
            r == value_or_zero(m@, who),
    {
        match m.get(&who) {
            Some(v) => *v,
            None => 0,
        }
    }

    /// Why `stake` fails, if it does.
    pub open spec fn stake_error(
        &self,
        who: AccountId,
        amount: Balance,
        estate: Option<EstateId>,
        free_balance: Balance,
        current_round: RoundIndex,
        facts: EstateFacts,
    ) -> Option<Error> {
        if free_balance < amount {
            Some(Error::InsufficientBalanceForStaking)
        } else {
            match estate {
                None => {
                    let total = self.self_staked(who) + amount;
                    if self.ledger.exit_queue@.contains_key((who, current_round)) {
                        Some(Error::ExitQueueAlreadyScheduled)
                    } else if total > u128::MAX {
                        Some(Error::ArithmeticOverflow)
                    } else if total < self.config.minimum_stake {
                        Some(Error::StakeBelowMinimum)
                    } else if self.ledger.total_stake + amount > u128::MAX {
                        Some(Error::ArithmeticOverflow)
                    } else {
                        None
                    }
                },
                Some(id) => {
                    let bonds = self.ledger.estate_staking_info@;
                    let total = self.estate_bonded(id) + amount;
                    if self.ledger.estate_exit_queue@.contains_key(((who, current_round), id)) {
                        Some(Error::EstateExitQueueAlreadyScheduled)
                    } else if !facts.exists {
                        Some(Error::StakeEstateDoesNotExist)
                    } else if !facts.caller_is_owner {
                        Some(Error::StakerNotEstateOwner)
                    } else if bonds.contains_key(id) && bonds[id].staker != who {
                        Some(Error::PreviousOwnerStillStakesAtEstate)
                    } else if total > u128::MAX {
                        Some(Error::ArithmeticOverflow)
                    } else if total < self.config.minimum_stake {
                        Some(Error::StakeBelowMinimum)
                    } else if facts.land_units == 0 {
                        Some(Error::StakeEstateDoesNotExist)
                    } else if total > self.config.maximum_estate_stake * facts.land_units {
                        Some(Error::StakeAmountExceedMaximumAmount)
                    } else if self.ledger.total_estate_stake + amount > u128::MAX {
                        Some(Error::ArithmeticOverflow)
                    } else {
                        None
                    }
                },
            }
        }
    }

    /// Locks `amount` of `who`'s free balance as self-stake, or as stake on
    /// estate `estate`. On success the caller reserves `amount` in the asset
    /// ledger.
    pub fn stake(
        &mut self,
        who: AccountId,
        amount: Balance,
        estate: Option<EstateId>,
        free_balance: Balance,
        current_round: RoundIndex,
        facts: EstateFacts,
    ) -> (r: Result<(), Error>)
        requires
            old(self).wf(),
        ensures
            final(self).wf(),
            match old(self).stake_error(who, amount, estate, free_balance, current_round, facts) {
                Some(e) => r == Err::<(), Error>(e) && *final(self) == *old(self),
                None => r is Ok && match estate {
                    None => {
                        &&& final(self).ledger.staking_info@ == old(self).ledger.staking_info@.insert(
                            who,
                            (old(self).self_staked(who) + amount) as u128,
                        )
                        &&& final(self).ledger.total_stake == old(self).ledger.total_stake + amount
                        &&& final(self).ledger.estate_staking_info == old(self).ledger.estate_staking_info
                        &&& final(self).ledger.total_estate_stake == old(self).ledger.total_estate_stake
                        &&& final(self).events@ == old(self).events@.push(Event::SelfStakedToEconomy101(who, amount))
                    },
                    Some(id) => {
                        &&& final(self).ledger.estate_staking_info@ == old(self).ledger.estate_staking_info@.insert(
                            id,
                            Bond { staker: who, amount: (old(self).estate_bonded(id) + amount) as u128 },
                        )
                        &&& final(self).ledger.total_estate_stake == old(self).ledger.total_estate_stake + amount
                        &&& final(self).ledger.staking_info == old(self).ledger.staking_info
                        &&& final(self).ledger.total_stake == old(self).ledger.total_stake
                        &&& final(self).events@ == old(self).events@.push(Event::EstateStakedToEconomy101(who, id, amount))
                    },
                } && final(self).ledger.exit_queue == old(self).ledger.exit_queue
                  && final(self).ledger.estate_exit_queue == old(self).ledger.estate_exit_queue
                  && final(self).same_outside_ledger(old(self)),
            },
    {
        if free_balance < amount {
            return Err(Error::InsufficientBalanceForStaking);
        }
        match estate {
            None => {
                if self.ledger.exit_queue.contains_key(&(who, current_round)) {
                    return Err(Error::ExitQueueAlreadyScheduled);
                }
                let staked = Pallet::staked_of(&self.ledger.staking_info, who);
                if staked > u128::MAX - amount {
                    return Err(Error::ArithmeticOverflow);
                }
                let total = staked + amount;
                if total < self.config.minimum_stake {
                    return Err(Error::StakeBelowMinimum);
                }
                if self.ledger.total_stake > u128::MAX - amount {
                    return Err(Error::ArithmeticOverflow);
                }
                proof {
                    lemma_sum_insert(self.ledger.staking_info@, who, total);
                }
                self.ledger.staking_info.insert(who, total);
                self.ledger.total_stake = self.ledger.total_stake + amount;
                self.events.push(Event::SelfStakedToEconomy101(who, amount));
            },
            Some(id) => {
                if self.ledger.estate_exit_queue.contains_key(&((who, current_round), id)) {
                    return Err(Error::EstateExitQueueAlreadyScheduled);
                }
                if !facts.exists {
                    return Err(Error::StakeEstateDoesNotExist);
                }
                if !facts.caller_is_owner {
                    return Err(Error::StakerNotEstateOwner);
                }
                let staked: Balance = match self.ledger.estate_staking_info.get(&id) {
                    Some(bond) => {
                        if bond.staker != who {
                            return Err(Error::PreviousOwnerStillStakesAtEstate);
                        }
                        bond.amount
                    },
                    None => 0,
                };
                if staked > u128::MAX - amount {
                    return Err(Error::ArithmeticOverflow);
                }
                let total = staked + amount;
                if total < self.config.minimum_stake {
                    return Err(Error::StakeBelowMinimum);
                }
                if facts.land_units == 0 {
                    return Err(Error::StakeEstateDoesNotExist);
                }
                let allowance: Balance = match self.config.maximum_estate_stake.checked_mul(facts.land_units as u128) {
                    Some(v) => v,
                    None => u128::MAX,
                };
                if total > allowance {
                    return Err(Error::StakeAmountExceedMaximumAmount);
                }
                if self.ledger.total_estate_stake > u128::MAX - amount {
                    return Err(Error::ArithmeticOverflow);
                }
                proof {
                    lemma_bond_sum_insert(self.ledger.estate_staking_info@, id, Bond { staker: who, amount: total });
                }
                self.ledger.estate_staking_info.insert(id, Bond { staker: who, amount: total });
                self.ledger.total_estate_stake = self.ledger.total_estate_stake + amount;
                self.events.push(Event::EstateStakedToEconomy101(who, id, amount));
            },
        }
        Ok(())
    }
}

} // verus!
