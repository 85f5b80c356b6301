//! Power bookkeeping and the conversion between power and BIT.
use crate::pallet::Pallet;
use crate::types::{AccountId, BlockNumber, Error, Event, PowerAmount};
use crate::Balance;
use sp_runtime::Perbill;
use vstd::prelude::*;

verus! {

broadcast use vstd::std_specs::btree::group_btree_axioms, vstd::laws_cmp::group_laws_cmp;

/// Parts in a whole, for a `Perbill`.
pub const BILLION: u32 = 1_000_000_000;

/// `x` scaled by `parts` parts per billion, rounded to the nearest integer
/// with ties rounded down: the whole billions of `x` scale exactly, and the
/// remainder's scaled value is rounded.
pub open spec fn perbill_of(parts: int, x: int) -> int {
    let a = BILLION as int;
    let rem = x % a;
    x / a * parts + rem * parts / a + if (rem * parts) % a > a / 2 { 1int } else { 0int }
}

/// Relies on sp_runtime::Perbill: `from_parts` caps the parts at one
/// billion, and `Mul<u128>` computes `perbill_of` (its rounding is
/// `NearestPrefDown`).
#[verifier::external_body]
fn perbill_mul(parts: u32, x: u128) -> (r: u128)
    ensures
        r == perbill_of(if parts > BILLION { BILLION as int } else { parts as int }, x as int),
{
    Perbill::from_parts(parts) * x
}

impl Pallet {
    /// BIT needed for `power_amount` of power at the stored exchange rate
    /// (zero when the product overflows), plus a commission of
    /// `commission` parts per billion of it; returns the total, held at the
    /// largest balance, and the commission.
    pub fn convert_power_to_bit(&self, power_amount: Balance, commission: u32) -> (r: (Balance, Balance))
        ensures
            ({
                let product = power_amount * self.bit_power_exchange_rate;
                let bit_required = if product > u128::MAX { 0 } else { product };
                let parts = if commission > BILLION { BILLION as int } else { commission as int };
                let fee = perbill_of(parts, bit_required);
                &&& r.1 == fee
                &&& r.0 == if bit_required + fee > u128::MAX { u128::MAX as int } else { bit_required + fee }
            }),
    {
        let bit_required: Balance = match power_amount.checked_mul(self.bit_power_exchange_rate) {
            Some(v) => v,
            None => 0,
        };
        let commission_fee = perbill_mul(commission, bit_required);
        let total: Balance = match bit_required.checked_add(commission_fee) {
            Some(v) => v,
            None => u128::MAX,
        };
        (total, commission_fee)
    }

    /// Records that `amount` of mining resource was burned; nothing for zero.
    pub fn do_burn(&mut self, who: AccountId, amount: Balance) -> (r: Result<(), Error>)
        ensures
            r is Ok,
            amount == 0 ==> *final(self) == *old(self),
            amount != 0 ==> final(self).events@ == old(self).events@.push(Event::MiningResourceBurned(amount)),
            final(self).same_outside_era(old(self)),
            final(self).era == old(self).era,
            final(self).reward_pool == old(self).reward_pool,
    {
        if amount == 0 {
            return Ok(());
        }
        self.events.push(Event::MiningResourceBurned(amount));
        Ok(())
    }

    /// Sets `beneficiary`'s power balance to `power_amount`, failing when
    /// adding it to the balance held would overflow.
    pub fn distribute_power_by_network(&mut self, power_amount: PowerAmount, beneficiary: AccountId) -> (r: Result<(), Error>)
        ensures
            ({
                let held = if old(self).power_balance@.contains_key(beneficiary) {
                    old(self).power_balance@[beneficiary] as int
                } else {
                    0
                };
                if held + power_amount > u64::MAX {
                    r == Err::<(), Error>(Error::ArithmeticOverflow) && *final(self) == *old(self)
                } else {
                    &&& r is Ok
                    &&& final(self).power_balance@ == old(self).power_balance@.insert(beneficiary, power_amount)
                    &&& final(self).config == old(self).config
                    &&& final(self).ledger == old(self).ledger
                    &&& final(self).innovation == old(self).innovation
                    &&& final(self).reward_pool == old(self).reward_pool
                    &&& final(self).era == old(self).era
                    &&& final(self).events == old(self).events
                }
            }),
    {
        let held: PowerAmount = match self.power_balance.get(&beneficiary) {
            Some(v) => *v,
            None => 0,
        };
        if held > u64::MAX - power_amount {
            return Err(Error::ArithmeticOverflow);
        }
        self.power_balance.insert(beneficiary, power_amount);
        Ok(())
    }

    /// Block at which a power order of `power_amount` may execute, from
    /// `current_block`: the next block for an amount one block can process,
    /// else as many blocks ahead as the amount needs.
    pub fn get_target_execution_order(&self, power_amount: PowerAmount, current_block: BlockNumber) -> (r: Result<BlockNumber, Error>)
        ensures
            ({
                let per_block = self.config.power_amount_per_block;
                if power_amount <= per_block {
                    if current_block + 1 > u32::MAX {
                        r == Err::<BlockNumber, Error>(Error::ArithmeticOverflow)
                    } else {
                        r == Ok::<BlockNumber, Error>((current_block + 1) as u32)
                    }
                } else if per_block == 0 {
                    r == Err::<BlockNumber, Error>(Error::ArithmeticOverflow)
                } else {
                    let q: int = power_amount as int / per_block as int;
                    let blocks: int = if q > u32::MAX { 0 } else { q };
                    if current_block + blocks > u32::MAX {
                        r == Err::<BlockNumber, Error>(Error::ArithmeticOverflow)
                    } else {
                        r == Ok::<BlockNumber, Error>((current_block + blocks) as u32)
                    }
                }
            }),
    {
        let per_block = self.config.power_amount_per_block;
        if power_amount <= per_block {
            match current_block.checked_add(1) {
                Some(v) => Ok(v),
                None => Err(Error::ArithmeticOverflow),
            }
        } else {
            if per_block == 0 {
                return Err(Error::ArithmeticOverflow);
            }
            let blocks_required = power_amount / per_block;
            let blocks: BlockNumber = if blocks_required > u32::MAX as u64 { 0 } else { blocks_required as u32 };
            match current_block.checked_add(blocks) {
                Some(v) => Ok(v),
                None => Err(Error::ArithmeticOverflow),
            }
        }
    }

    /// Whether `target` has been reached at `current_block`.
    pub fn check_target_execution(target: BlockNumber, current_block: BlockNumber) -> (r: bool)
        ensures
            r == (current_block >= target),
    {
        current_block >= target
    }
}

} // verus!
