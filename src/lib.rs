//! Staking ledger, delayed exit queues and a share-weighted, multi-currency
//! reward pool, as one deterministic state-transition module.
pub mod arith;
pub mod balances;
pub mod era;
pub mod exits;
pub mod innovation;
pub mod laws;
pub mod pallet;
pub mod pool;
pub mod power;
pub mod sums;
pub mod types;

pub use balances::CurrencyBalances;
pub use pallet::Pallet;
pub use types::{AccountId, BlockNumber, Bond, Config, EraIndex, Error, EstateFacts, EstateId, Event, PowerAmount, RoundIndex};

use vstd::prelude::*;

verus! {

/// Amount of the native asset or of any reward currency.
pub type Balance = u128;

/// Identifier of a fungible reward currency.
pub type FungibleTokenId = u64;

} // verus!
