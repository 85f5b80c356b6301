//! Identifiers, errors and events of the economy module.
use crate::{Balance, FungibleTokenId};
use vstd::prelude::*;

verus! {

/// An account of the ledger.
pub type AccountId = u64;

/// A land parcel grouping.
pub type EstateId = u64;

/// Discrete round of the round source.
pub type RoundIndex = u32;

/// Discrete era of the reward clock.
pub type EraIndex = u32;

/// Block height.
pub type BlockNumber = u32;

/// Amount of power.
pub type PowerAmount = u64;

/// What can make an operation fail; a failed operation changes nothing.
#[derive(Clone, Copy, Debug, PartialEq, Eq, Structural)]
pub enum Error {
    /// NFT asset does not exist
    NFTAssetDoesNotExist,
    /// NFT class does not exist
    NFTClassDoesNotExist,
    /// NFT collection does not exist
    NFTCollectionDoesNotExist,
    /// No permission
    NoPermission,
    /// No authorization
    NoAuthorization,
    /// Insufficient power balance
    AccountHasNoPowerBalance,
    /// Power amount is zero
    PowerAmountIsZero,
    /// Not enough free balance for staking
    InsufficientBalanceForStaking,
    /// Unstake amount greater than staked amount
    UnstakeAmountExceedStakedAmount,
    /// Has scheduled exit staking, only stake after queue exit
    ExitQueueAlreadyScheduled,
    /// Stake amount below minimum staking required
    StakeBelowMinimum,
    /// Withdraw future round
    WithdrawFutureRound,
    /// Exit queue does not exist
    ExitQueueDoesNotExit,
    /// Unstaked amount is zero
    UnstakeAmountIsZero,
    /// Request already exists
    RequestAlreadyExist,
    /// Order has not reach target
    NotReadyToExecute,
    /// Staker is not estate owner
    StakerNotEstateOwner,
    /// Staking estate does not exist
    StakeEstateDoesNotExist,
    /// Stake is not previous owner
    StakerNotPreviousOwner,
    /// No funds staked at estate
    NoFundsStakedAtEstate,
    /// Previous owner still stakes at estate
    PreviousOwnerStillStakesAtEstate,
    /// Has scheduled exit estate staking, only stake after queue exit
    EstateExitQueueAlreadyScheduled,
    /// Estate exit queue does not exist
    EstateExitQueueDoesNotExit,
    /// Stake amount exceed estate max amount
    StakeAmountExceedMaximumAmount,
    /// Invalid era set up config
    InvalidLastEraUpdatedBlock,
    /// Unexpected error
    Unexpected,
    /// Reward pool does not exist
    RewardPoolDoesNotExist,
    /// Invalid reward set up
    InvalidEstimatedRewardSetup,
    /// An addition or multiplication left the range of its type
    ArithmeticOverflow,
    /// A subtraction went below zero
    ArithmeticUnderflow,
}


/// Class of an NFT.
pub type ClassId = u32;

/// Token of an NFT class.
pub type TokenId = u64;

/// The native currency, in which era rewards are issued.
pub const NATIVE_TOKEN_ID: FungibleTokenId = 0;

/// Staked funds attached to an estate.
#[derive(Clone, Copy, Debug, PartialEq, Eq, Structural)]
pub struct Bond {
    pub staker: AccountId,
    pub amount: Balance,
}

/// What the estate authority reports about an estate, for the caller of an
/// operation.
#[derive(Clone, Copy, Debug, PartialEq, Eq, Structural)]
pub struct EstateFacts {
    pub exists: bool,
    pub caller_is_owner: bool,
    pub land_units: u64,
}

/// Parameters of the module.
#[derive(Clone, Copy, Debug, PartialEq, Eq, Structural)]
pub struct Config {
    /// Account of the economy treasury.
    pub economy_treasury_account: AccountId,
    /// Account that holds and pays out innovation staking rewards.
    pub reward_payout_account: AccountId,
    /// The least any stake may amount to.
    pub minimum_stake: Balance,
    /// The most that may be staked per land unit of an estate.
    pub maximum_estate_stake: Balance,
    /// Power processed per block.
    pub power_amount_per_block: PowerAmount,
}

/// What the module reports of a completed operation.
#[derive(Clone, Copy, Debug, PartialEq, Eq, Structural)]
pub enum Event {
    /// Mining resource burned [amount]
    MiningResourceBurned(Balance),
    /// Self staking [staker, amount]
    SelfStakedToEconomy101(AccountId, Balance),
    /// Estate staking [staker, estate_id, amount]
    EstateStakedToEconomy101(AccountId, EstateId, Balance),
    /// Self staking removed [staker, amount]
    SelfStakingRemovedFromEconomy101(AccountId, Balance),
    /// Estate staking removed [staker, estate_id, amount]
    EstateStakingRemovedFromEconomy101(AccountId, EstateId, Balance),
    /// New BIT to Power exchange rate [amount]
    BitPowerExchangeRateUpdated(Balance),
    /// Unstaked amount withdrawn [account, amount]
    UnstakedAmountWithdrew(AccountId, Balance),
    /// Power balance set [account, power_amount]
    SetPowerBalance(AccountId, PowerAmount),
    /// Power conversion request cancelled [class_id, token_id, account]
    CancelPowerConversionRequest(ClassId, TokenId, AccountId),
    /// Innovation staking [staker, amount]
    StakedInnovation(AccountId, Balance),
    /// Unstaked from innovation [staker, amount]
    UnstakedInnovation(AccountId, Balance),
    /// Reward paid out [account, currency, amount]
    ClaimRewards(AccountId, FungibleTokenId, Balance),
    /// Current innovation staking era updated
    CurrentInnovationStakingEraUpdated(EraIndex),
    /// Innovation staking era frequency updated
    UpdatedInnovationStakingEraFrequency(BlockNumber),
    /// Last innovation staking era block updated
    LastInnovationStakingEraUpdated(BlockNumber),
    /// Estimated reward per era updated
    EstimatedRewardPerEraUpdated(Balance),
}

} // verus!
