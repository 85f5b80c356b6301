use economy::arith::mul_div;
use economy::pool::RewardInfo;
use economy::{Config, Error, Event, Pallet};

const ALICE: u64 = 1;
const BOB: u64 = 2;
const X: u64 = 5;
const NATIVE: u64 = 0;

fn config() -> Config {
    Config {
        economy_treasury_account: 1000,
        reward_payout_account: 2000,
        minimum_stake: 10,
        maximum_estate_stake: 100,
        power_amount_per_block: 100,
    }
}

fn reward(p: &Pallet, c: u64) -> Option<RewardInfo> {
    p.reward_pool.pool_info.as_ref().and_then(|i| i.rewards.iter().find(|e| e.currency == c).copied())
}

fn pending(p: &Pallet, who: u64, c: u64) -> u128 {
    p.reward_pool.pending_rewards.get(&who).map(|b| b.get(c)).unwrap_or(0)
}

fn withdrawn(p: &Pallet, who: u64, c: u64) -> u128 {
    p.reward_pool.shares.get(&who).map(|r| r.withdrawn_rewards.get(c)).unwrap_or(0)
}

fn share(p: &Pallet, who: u64) -> u128 {
    p.reward_pool.shares.get(&who).map(|r| r.share).unwrap_or(0)
}

fn total_shares(p: &Pallet) -> u128 {
    p.reward_pool.pool_info.as_ref().map(|i| i.total_shares).unwrap_or(0)
}

#[test]
fn late_joiner_gets_no_earlier_reward() {
    let mut p = Pallet::new(config());
    assert_eq!(p.stake_on_innovation(ALICE, 100, 1000, 1), Ok(()));
    assert_eq!(total_shares(&p), 100);
    assert_eq!(share(&p, ALICE), 100);
    assert_eq!(p.accumulate_reward(X, 1000), Ok(()));
    assert_eq!(reward(&p, X), Some(RewardInfo { currency: X, total_reward: 1000, total_withdrawn_reward: 0 }));
    assert_eq!(p.stake_on_innovation(BOB, 100, 1000, 1), Ok(()));
    assert_eq!(total_shares(&p), 200);
    assert_eq!(reward(&p, X), Some(RewardInfo { currency: X, total_reward: 2000, total_withdrawn_reward: 1000 }));
    assert_eq!(withdrawn(&p, BOB, X), 1000);
    p.claim_rewards(ALICE);
    assert_eq!(pending(&p, ALICE, X), 1000);
    p.claim_rewards(BOB);
    assert_eq!(pending(&p, BOB, X), 0);
    assert_eq!(reward(&p, X), Some(RewardInfo { currency: X, total_reward: 2000, total_withdrawn_reward: 2000 }));
}

#[test]
fn first_share_brings_no_inflation() {
    let mut p = Pallet::new(config());
    assert_eq!(p.add_share(ALICE, 0), Ok(()));
    assert!(p.reward_pool.pool_info.is_none());
    assert_eq!(p.add_share(ALICE, 40), Ok(()));
    assert_eq!(total_shares(&p), 40);
    assert!(p.reward_pool.pool_info.as_ref().unwrap().rewards.is_empty());
}

#[test]
fn second_claim_pays_nothing() {
    let mut p = Pallet::new(config());
    p.add_share(ALICE, 30).unwrap();
    p.add_share(BOB, 70).unwrap();
    p.accumulate_reward(X, 1000).unwrap();
    p.claim_rewards(ALICE);
    assert_eq!(pending(&p, ALICE, X), 300);
    assert_eq!(withdrawn(&p, ALICE, X), 300);
    p.claim_rewards(ALICE);
    assert_eq!(pending(&p, ALICE, X), 300);
    assert_eq!(withdrawn(&p, ALICE, X), 300);
    assert_eq!(reward(&p, X).unwrap().total_withdrawn_reward, 300);
}

#[test]
fn claim_rounds_down() {
    let mut p = Pallet::new(config());
    p.add_share(ALICE, 1).unwrap();
    p.add_share(BOB, 2).unwrap();
    p.accumulate_reward(X, 10).unwrap();
    p.claim_rewards(ALICE);
    p.claim_rewards(BOB);
    assert_eq!(pending(&p, ALICE, X), 3);
    assert_eq!(pending(&p, BOB, X), 6);
    assert_eq!(reward(&p, X).unwrap().total_withdrawn_reward, 9);
}

#[test]
fn accumulate_without_pool_fails() {
    let mut p = Pallet::new(config());
    assert_eq!(p.accumulate_reward(X, 0), Ok(()));
    assert_eq!(p.accumulate_reward(X, 10), Err(Error::RewardPoolDoesNotExist));
    p.add_share(ALICE, 10).unwrap();
    assert_eq!(p.accumulate_reward(X, 10), Ok(()));
    assert_eq!(p.accumulate_reward(X, 5), Ok(()));
    assert_eq!(reward(&p, X).unwrap().total_reward, 15);
    assert_eq!(p.accumulate_reward(X, u128::MAX), Err(Error::ArithmeticOverflow));
    assert_eq!(reward(&p, X).unwrap().total_reward, 15);
}

#[test]
fn add_share_overflow_changes_nothing() {
    let mut p = Pallet::new(config());
    p.add_share(ALICE, 1).unwrap();
    p.accumulate_reward(X, 1000).unwrap();
    assert_eq!(p.add_share(BOB, u128::MAX / 2), Err(Error::ArithmeticOverflow));
    assert_eq!(total_shares(&p), 1);
    assert!(p.reward_pool.shares.get(&BOB).is_none());
    assert_eq!(p.add_share(BOB, u128::MAX), Err(Error::ArithmeticOverflow));
}

#[test]
fn remove_all_shares_deletes_records() {
    let mut p = Pallet::new(config());
    p.add_share(ALICE, 100).unwrap();
    p.accumulate_reward(X, 500).unwrap();
    p.remove_share(ALICE, 1000);
    assert_eq!(pending(&p, ALICE, X), 500);
    assert!(p.reward_pool.shares.is_empty());
    assert!(p.reward_pool.pool_info.is_none());
}

#[test]
fn remove_share_takes_baseline_part() {
    let mut p = Pallet::new(config());
    p.add_share(ALICE, 100).unwrap();
    p.accumulate_reward(X, 1000).unwrap();
    p.add_share(BOB, 100).unwrap();
    // Bob's baseline is 1000; removing half of his shares takes half of it
    p.remove_share(BOB, 50);
    assert_eq!(share(&p, BOB), 50);
    assert_eq!(withdrawn(&p, BOB, X), 500);
    assert_eq!(total_shares(&p), 150);
    assert_eq!(reward(&p, X), Some(RewardInfo { currency: X, total_reward: 1500, total_withdrawn_reward: 500 }));
    assert_eq!(pending(&p, BOB, X), 0);
    p.claim_rewards(ALICE);
    assert_eq!(pending(&p, ALICE, X), 1000);
}

#[test]
fn remove_zero_shares_is_a_no_op() {
    let mut p = Pallet::new(config());
    p.add_share(ALICE, 100).unwrap();
    p.accumulate_reward(X, 1000).unwrap();
    p.remove_share(ALICE, 0);
    assert_eq!(pending(&p, ALICE, X), 0);
    assert_eq!(share(&p, ALICE), 100);
}

#[test]
fn innovation_unstake_settles_rewards() {
    let mut p = Pallet::new(config());
    p.stake_on_innovation(ALICE, 100, 1000, 1).unwrap();
    p.accumulate_reward(X, 400).unwrap();
    assert_eq!(p.unstake_on_innovation(ALICE, 95, 1), Ok(()));
    assert_eq!(p.innovation.innovation_staking_exit_queue.get(&(ALICE, 29)), Some(&100));
    assert!(p.innovation.innovation_staking_info.is_empty());
    assert_eq!(p.innovation.total_innovation_staking, 0);
    assert_eq!(pending(&p, ALICE, X), 400);
    assert!(p.reward_pool.pool_info.is_none());
    assert_eq!(p.unstake_on_innovation(ALICE, 1, 1), Err(Error::UnstakeAmountExceedStakedAmount));
}

#[test]
fn innovation_stake_errors() {
    let mut p = Pallet::new(config());
    assert_eq!(p.stake_on_innovation(ALICE, 100, 99, 1), Err(Error::InsufficientBalanceForStaking));
    assert_eq!(p.stake_on_innovation(ALICE, 0, 99, 1), Err(Error::StakeBelowMinimum));
    assert_eq!(p.stake_on_innovation(ALICE, 5, 99, 1), Err(Error::StakeBelowMinimum));
    p.stake_on_innovation(ALICE, 50, 100, 1).unwrap();
    assert_eq!(p.unstake_on_innovation(ALICE, 0, 1), Err(Error::UnstakeAmountIsZero));
    p.unstake_on_innovation(ALICE, 10, 1).unwrap();
    assert_eq!(p.unstake_on_innovation(ALICE, 10, 1), Err(Error::ExitQueueAlreadyScheduled));
    assert_eq!(p.stake_on_innovation(ALICE, 10, 100, 29), Err(Error::ExitQueueAlreadyScheduled));
    assert_eq!(p.stake_on_innovation(ALICE, 10, 100, 2), Ok(()));
    assert_eq!(p.innovation.innovation_staking_info.get(&ALICE), Some(&50));
    assert_eq!(share(&p, ALICE), 50);
    assert_eq!(p.events.last(), Some(&Event::StakedInnovation(ALICE, 10)));
}

#[test]
fn claim_reward_lists_and_settles_payouts() {
    let mut p = Pallet::new(config());
    p.stake_on_innovation(ALICE, 100, 1000, 1).unwrap();
    p.accumulate_reward(X, 700).unwrap();
    p.accumulate_reward(NATIVE, 300).unwrap();
    let due = p.claim_reward(ALICE);
    assert_eq!(due, vec![(X, 700), (NATIVE, 300)]);
    assert_eq!(p.reward_paid_out(ALICE, X), 700);
    assert_eq!(p.events.last(), Some(&Event::ClaimRewards(ALICE, X, 700)));
    assert_eq!(pending(&p, ALICE, X), 0);
    assert_eq!(pending(&p, ALICE, NATIVE), 300);
    assert_eq!(p.claim_reward(ALICE), vec![(NATIVE, 300)]);
    assert_eq!(p.reward_paid_out(ALICE, X), 0);
    assert_eq!(p.claim_reward(BOB), vec![]);
}

#[test]
fn mul_div_keeps_wide_products() {
    assert_eq!(mul_div(3, 5, 2), 7);
    assert_eq!(mul_div(1u128 << 127, 4, 8), 1u128 << 126);
    assert_eq!(mul_div(u128::MAX, u128::MAX, u128::MAX), u128::MAX);
    assert_eq!(mul_div(u128::MAX, 2, 1), u128::MAX);
    assert_eq!(mul_div(7, 9, 0), 0);
}
