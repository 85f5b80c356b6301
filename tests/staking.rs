use economy::{Config, Error, EstateFacts, Event, Pallet};

const ALICE: u64 = 1;
const BOB: u64 = 2;
const ESTATE: u64 = 7;

fn config() -> Config {
    Config {
        economy_treasury_account: 1000,
        reward_payout_account: 2000,
        minimum_stake: 10,
        maximum_estate_stake: 100,
        power_amount_per_block: 100,
    }
}

fn no_estate() -> EstateFacts {
    EstateFacts { exists: false, caller_is_owner: false, land_units: 0 }
}

fn owned_estate(land_units: u64) -> EstateFacts {
    EstateFacts { exists: true, caller_is_owner: true, land_units }
}

#[test]
fn self_stake_records_amount_and_total() {
    let mut p = Pallet::new(config());
    assert_eq!(p.stake(ALICE, 50, None, 100, 1, no_estate()), Ok(()));
    assert_eq!(p.stake(ALICE, 20, None, 100, 1, no_estate()), Ok(()));
    assert_eq!(p.ledger.staking_info.get(&ALICE), Some(&70));
    assert_eq!(p.ledger.total_stake, 70);
    assert_eq!(p.events, vec![
        Event::SelfStakedToEconomy101(ALICE, 50),
        Event::SelfStakedToEconomy101(ALICE, 20),
    ]);
}

#[test]
fn stake_errors() {
    let mut p = Pallet::new(config());
    assert_eq!(p.stake(ALICE, 50, None, 49, 1, no_estate()), Err(Error::InsufficientBalanceForStaking));
    assert_eq!(p.stake(ALICE, 5, None, 100, 1, no_estate()), Err(Error::StakeBelowMinimum));
    assert_eq!(p.ledger.total_stake, 0);
    assert!(p.ledger.staking_info.is_empty());
    assert!(p.events.is_empty());
}

#[test]
fn stake_refused_while_exit_pending_in_current_round() {
    let mut p = Pallet::new(config());
    p.stake(ALICE, 50, None, 100, 1, no_estate()).unwrap();
    p.unstake(ALICE, 10, None, 1, false).unwrap();
    assert_eq!(p.stake(ALICE, 10, None, 100, 2, no_estate()), Err(Error::ExitQueueAlreadyScheduled));
    assert_eq!(p.stake(ALICE, 10, None, 100, 3, no_estate()), Ok(()));
}

#[test]
fn unstake_below_minimum_sweeps_whole_stake() {
    // minimum 10: staking 50 and unstaking 45 leaves 5, so all 50 leave
    let mut p = Pallet::new(config());
    p.stake(ALICE, 50, None, 100, 4, no_estate()).unwrap();
    assert_eq!(p.unstake(ALICE, 45, None, 4, false), Ok(()));
    assert_eq!(p.ledger.exit_queue.get(&(ALICE, 5)), Some(&50));
    assert_eq!(p.ledger.staking_info.get(&ALICE), None);
    assert_eq!(p.ledger.total_stake, 0);
}

#[test]
fn unstake_down_to_dust_queues_everything() {
    let mut p = Pallet::new(config());
    p.stake(ALICE, 100, None, 100, 1, no_estate()).unwrap();
    p.unstake(ALICE, 95, None, 1, false).unwrap();
    assert_eq!(p.ledger.exit_queue.get(&(ALICE, 2)), Some(&100));
    assert!(p.ledger.staking_info.is_empty());
}

#[test]
fn partial_unstake_keeps_remainder() {
    let mut p = Pallet::new(config());
    p.stake(ALICE, 100, None, 100, 1, no_estate()).unwrap();
    p.unstake(ALICE, 30, None, 1, false).unwrap();
    assert_eq!(p.ledger.exit_queue.get(&(ALICE, 2)), Some(&30));
    assert_eq!(p.ledger.staking_info.get(&ALICE), Some(&70));
    assert_eq!(p.ledger.total_stake, 70);
    assert_eq!(p.events.last(), Some(&Event::SelfStakingRemovedFromEconomy101(ALICE, 30)));
}

#[test]
fn duplicate_exit_refused_until_withdrawn() {
    let mut p = Pallet::new(config());
    p.stake(ALICE, 100, None, 100, 1, no_estate()).unwrap();
    assert_eq!(p.unstake(ALICE, 20, None, 1, false), Ok(()));
    assert_eq!(p.unstake(ALICE, 20, None, 1, false), Err(Error::ExitQueueAlreadyScheduled));
    assert_eq!(p.withdraw_unreserved(ALICE, 2), Ok(20));
    assert_eq!(p.ledger.exit_queue.get(&(ALICE, 2)), None);
    assert_eq!(p.unstake(ALICE, 20, None, 1, false), Ok(()));
    assert_eq!(p.ledger.exit_queue.get(&(ALICE, 2)), Some(&20));
    assert_eq!(p.ledger.staking_info.get(&ALICE), Some(&60));
}

#[test]
fn unstake_errors() {
    let mut p = Pallet::new(config());
    p.stake(ALICE, 100, None, 100, 1, no_estate()).unwrap();
    assert_eq!(p.unstake(ALICE, 0, None, 1, false), Err(Error::UnstakeAmountIsZero));
    assert_eq!(p.unstake(ALICE, 101, None, 1, false), Err(Error::UnstakeAmountExceedStakedAmount));
    assert_eq!(p.unstake(BOB, 1, None, 1, false), Err(Error::UnstakeAmountExceedStakedAmount));
}

#[test]
fn withdraw_missing_entry_fails() {
    let mut p = Pallet::new(config());
    assert_eq!(p.withdraw_unreserved(ALICE, 3), Err(Error::ExitQueueDoesNotExit));
    assert_eq!(p.withdraw_estate_unreserved(ALICE, 3, ESTATE), Err(Error::EstateExitQueueDoesNotExit));
}

#[test]
fn estate_stake_and_unstake() {
    let mut p = Pallet::new(config());
    assert_eq!(p.stake(ALICE, 150, Some(ESTATE), 1000, 1, owned_estate(2)), Ok(()));
    let bond = p.ledger.estate_staking_info.get(&ESTATE).unwrap();
    assert_eq!((bond.staker, bond.amount), (ALICE, 150));
    assert_eq!(p.ledger.total_estate_stake, 150);
    assert_eq!(p.stake(ALICE, 60, Some(ESTATE), 1000, 1, owned_estate(2)), Err(Error::StakeAmountExceedMaximumAmount));
    assert_eq!(p.stake(ALICE, 50, Some(ESTATE), 1000, 1, owned_estate(2)), Ok(()));
    assert_eq!(p.unstake(ALICE, 195, Some(ESTATE), 1, true), Ok(()));
    assert_eq!(p.ledger.estate_exit_queue.get(&((ALICE, 2), ESTATE)), Some(&200));
    assert!(p.ledger.estate_staking_info.is_empty());
    assert_eq!(p.ledger.total_estate_stake, 0);
    assert_eq!(p.withdraw_estate_unreserved(ALICE, 2, ESTATE), Ok(200));
    assert!(p.ledger.estate_exit_queue.is_empty());
}

#[test]
fn estate_stake_errors() {
    let mut p = Pallet::new(config());
    assert_eq!(p.stake(ALICE, 50, Some(ESTATE), 1000, 1, no_estate()), Err(Error::StakeEstateDoesNotExist));
    let not_owner = EstateFacts { exists: true, caller_is_owner: false, land_units: 1 };
    assert_eq!(p.stake(ALICE, 50, Some(ESTATE), 1000, 1, not_owner), Err(Error::StakerNotEstateOwner));
    assert_eq!(p.stake(ALICE, 50, Some(ESTATE), 1000, 1, owned_estate(0)), Err(Error::StakeEstateDoesNotExist));
    assert_eq!(p.stake(ALICE, 5, Some(ESTATE), 1000, 1, owned_estate(1)), Err(Error::StakeBelowMinimum));
    p.stake(ALICE, 50, Some(ESTATE), 1000, 1, owned_estate(1)).unwrap();
    assert_eq!(p.stake(BOB, 20, Some(ESTATE), 1000, 1, owned_estate(1)), Err(Error::PreviousOwnerStillStakesAtEstate));
    assert_eq!(p.unstake(BOB, 20, Some(ESTATE), 1, true), Err(Error::NoFundsStakedAtEstate));
    assert_eq!(p.unstake(ALICE, 20, Some(ESTATE), 1, false), Err(Error::StakeEstateDoesNotExist));
}

#[test]
fn estate_duplicate_exit_refused() {
    let mut p = Pallet::new(config());
    p.stake(ALICE, 100, Some(ESTATE), 1000, 1, owned_estate(1)).unwrap();
    p.unstake(ALICE, 20, Some(ESTATE), 1, true).unwrap();
    assert_eq!(p.stake(ALICE, 20, Some(ESTATE), 1000, 2, owned_estate(1)), Err(Error::EstateExitQueueAlreadyScheduled));
    assert_eq!(p.unstake(ALICE, 20, Some(ESTATE), 1, true), Err(Error::ExitQueueAlreadyScheduled));
    assert_eq!(p.withdraw_estate_unreserved(ALICE, 2, ESTATE), Ok(20));
    assert_eq!(p.unstake(ALICE, 20, Some(ESTATE), 1, true), Ok(()));
}

#[test]
fn new_owner_clears_previous_bond() {
    let mut p = Pallet::new(config());
    p.stake(ALICE, 80, Some(ESTATE), 1000, 3, owned_estate(1)).unwrap();
    assert_eq!(p.unstake_new_estate_owner(ALICE, ESTATE, 3, owned_estate(1)), Err(Error::StakerNotPreviousOwner));
    let not_owner = EstateFacts { exists: true, caller_is_owner: false, land_units: 1 };
    assert_eq!(p.unstake_new_estate_owner(BOB, ESTATE, 3, not_owner), Err(Error::StakerNotEstateOwner));
    assert_eq!(p.unstake_new_estate_owner(BOB, ESTATE, 3, no_estate()), Err(Error::StakeEstateDoesNotExist));
    assert_eq!(p.unstake_new_estate_owner(BOB, ESTATE, 3, owned_estate(1)), Ok(()));
    assert_eq!(p.ledger.estate_exit_queue.get(&((ALICE, 4), ESTATE)), Some(&80));
    assert!(p.ledger.estate_staking_info.is_empty());
    assert_eq!(p.ledger.total_estate_stake, 0);
    assert_eq!(p.events.last(), Some(&Event::EstateStakingRemovedFromEconomy101(ALICE, ESTATE, 80)));
    assert_eq!(p.unstake_new_estate_owner(BOB, ESTATE, 3, owned_estate(1)), Err(Error::StakeEstateDoesNotExist));
    assert_eq!(p.stake(BOB, 30, Some(ESTATE), 1000, 3, owned_estate(1)), Ok(()));
}

#[test]
fn force_unstake_skips_queue() {
    let mut p = Pallet::new(config());
    p.stake(ALICE, 100, None, 100, 1, no_estate()).unwrap();
    assert_eq!(p.force_unstake(0, ALICE, None, false), Err(Error::UnstakeAmountIsZero));
    assert_eq!(p.force_unstake(101, ALICE, None, false), Err(Error::UnstakeAmountExceedStakedAmount));
    assert_eq!(p.force_unstake(95, ALICE, None, false), Ok(100));
    assert!(p.ledger.exit_queue.is_empty());
    assert!(p.ledger.staking_info.is_empty());
    assert_eq!(p.ledger.total_stake, 0);
    let n = p.events.len();
    assert_eq!(p.events[n - 2], Event::UnstakedAmountWithdrew(ALICE, 100));
    assert_eq!(p.events[n - 1], Event::SelfStakingRemovedFromEconomy101(ALICE, 95));
}

#[test]
fn force_unstake_estate() {
    let mut p = Pallet::new(config());
    p.stake(ALICE, 100, Some(ESTATE), 1000, 1, owned_estate(1)).unwrap();
    assert_eq!(p.force_unstake(30, BOB, Some(ESTATE), true), Err(Error::NoFundsStakedAtEstate));
    assert_eq!(p.force_unstake(30, ALICE, Some(ESTATE), false), Err(Error::StakeEstateDoesNotExist));
    assert_eq!(p.force_unstake(30, ALICE, Some(ESTATE), true), Ok(30));
    assert_eq!(p.ledger.estate_staking_info.get(&ESTATE).unwrap().amount, 70);
    assert_eq!(p.ledger.total_estate_stake, 70);
    assert_eq!(p.ledger.total_stake, 0);
}

#[test]
fn force_unreserve_checks_amount() {
    let p = Pallet::new(config());
    assert_eq!(p.force_unreserved_staking(0, ALICE, 50), Err(Error::UnstakeAmountIsZero));
    assert_eq!(p.force_unreserved_staking(51, ALICE, 50), Err(Error::UnstakeAmountExceedStakedAmount));
    assert_eq!(p.force_unreserved_staking(50, ALICE, 50), Ok(50));
}

#[test]
fn stake_overflow_is_an_error() {
    let mut p = Pallet::new(config());
    p.stake(ALICE, u128::MAX, None, u128::MAX, 1, no_estate()).unwrap();
    assert_eq!(p.stake(ALICE, 1, None, u128::MAX, 1, no_estate()), Err(Error::ArithmeticOverflow));
    assert_eq!(p.stake(BOB, 10, None, u128::MAX, 1, no_estate()), Err(Error::ArithmeticOverflow));
    assert_eq!(p.ledger.total_stake, u128::MAX);
}

#[test]
fn account_getters() {
    let p = Pallet::new(config());
    assert_eq!(p.economy_pallet_account_id(), 1000);
    assert_eq!(p.get_reward_payout_account_id(), 2000);
}
