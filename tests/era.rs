use economy::pool::RewardInfo;
use economy::{Config, Error, Event, Pallet};

const ALICE: u64 = 1;
const NATIVE: u64 = 0;

fn config() -> Config {
    Config {
        economy_treasury_account: 1000,
        reward_payout_account: 2000,
        minimum_stake: 10,
        maximum_estate_stake: 100,
        power_amount_per_block: 100,
    }
}

fn native_reward(p: &Pallet) -> Option<RewardInfo> {
    p.reward_pool.pool_info.as_ref().and_then(|i| i.rewards.iter().find(|e| e.currency == NATIVE).copied())
}

#[test]
fn era_index_counts_whole_eras() {
    let mut p = Pallet::new(config());
    assert_eq!(p.get_era_index(50), 0);
    p.update_era_config(None, Some(10), Some(5), 0).unwrap();
    assert_eq!(p.get_era_index(9), 0);
    assert_eq!(p.get_era_index(10), 1);
    assert_eq!(p.get_era_index(35), 3);
}

#[test]
fn era_config_checks_last_block() {
    let mut p = Pallet::new(config());
    assert_eq!(p.update_era_config(Some(80), Some(10), None, 100), Err(Error::InvalidLastEraUpdatedBlock));
    assert_eq!(p.era.update_era_frequency, 0);
    assert_eq!(p.update_era_config(Some(101), Some(10), None, 100), Err(Error::InvalidLastEraUpdatedBlock));
    assert_eq!(p.update_era_config(Some(95), Some(10), Some(7), 100), Ok(()));
    assert_eq!(p.era.last_era_updated_block, 95);
    assert_eq!(p.era.update_era_frequency, 10);
    assert_eq!(p.era.estimated_staking_reward_per_era, 7);
    assert_eq!(p.events, vec![
        Event::UpdatedInnovationStakingEraFrequency(10),
        Event::LastInnovationStakingEraUpdated(95),
        Event::EstimatedRewardPerEraUpdated(7),
    ]);
}

#[test]
fn era_config_ignores_last_block_without_frequency() {
    let mut p = Pallet::new(config());
    assert_eq!(p.update_era_config(Some(3), None, None, 100), Ok(()));
    assert_eq!(p.era.last_era_updated_block, 0);
    assert!(p.events.is_empty());
}

#[test]
fn era_update_issues_capped_reward() {
    let mut p = Pallet::new(config());
    p.add_share(ALICE, 100).unwrap();
    p.update_era_config(None, Some(10), Some(50), 0).unwrap();
    p.on_initialize(30, 1000);
    assert_eq!(p.era.current_era, 3);
    assert_eq!(p.era.last_era_updated_block, 30);
    assert_eq!(native_reward(&p).unwrap().total_reward, 150);
    assert_eq!(p.events.last(), Some(&Event::CurrentInnovationStakingEraUpdated(3)));
    p.on_initialize(50, 60);
    assert_eq!(p.era.current_era, 5);
    assert_eq!(native_reward(&p).unwrap().total_reward, 210);
}

#[test]
fn era_update_without_pool_changes_nothing() {
    let mut p = Pallet::new(config());
    p.update_era_config(None, Some(10), Some(50), 0).unwrap();
    assert_eq!(p.update_current_era(2, 20, 1000), Err(Error::RewardPoolDoesNotExist));
    p.on_initialize(20, 1000);
    assert_eq!(p.era.current_era, 0);
    assert_eq!(p.era.last_era_updated_block, 0);
}

#[test]
fn era_update_with_empty_holding_advances_only() {
    let mut p = Pallet::new(config());
    p.update_era_config(None, Some(10), Some(50), 0).unwrap();
    assert_eq!(p.update_current_era(2, 20, 0), Ok(()));
    assert_eq!(p.era.current_era, 2);
    assert!(p.reward_pool.pool_info.is_none());
    assert_eq!(p.update_current_era(0, 20, 0), Err(Error::Unexpected));
}

#[test]
fn power_helpers() {
    let mut p = Pallet::new(config());
    assert_eq!(p.get_target_execution_order(50, 10), Ok(11));
    assert_eq!(p.get_target_execution_order(350, 10), Ok(13));
    assert_eq!(p.get_target_execution_order(50, u32::MAX), Err(Error::ArithmeticOverflow));
    assert!(Pallet::check_target_execution(5, 5));
    assert!(!Pallet::check_target_execution(6, 5));
    assert_eq!(p.distribute_power_by_network(30, ALICE), Ok(()));
    assert_eq!(p.power_balance.get(&ALICE), Some(&30));
    assert_eq!(p.distribute_power_by_network(u64::MAX, ALICE), Err(Error::ArithmeticOverflow));
    assert_eq!(p.do_burn(ALICE, 0), Ok(()));
    assert!(p.events.is_empty());
    assert_eq!(p.do_burn(ALICE, 9), Ok(()));
    assert_eq!(p.events, vec![Event::MiningResourceBurned(9)]);
}

#[test]
fn power_converts_to_bit_with_rounded_commission() {
    let mut p = Pallet::new(config());
    p.bit_power_exchange_rate = 3;
    // 5% of 30 is 1.5, which rounds down on the tie
    assert_eq!(p.convert_power_to_bit(10, 50_000_000), (31, 1));
    // 6% of 30 is 1.8, which rounds up
    assert_eq!(p.convert_power_to_bit(10, 60_000_000), (32, 2));
    // parts above one billion count as the whole
    assert_eq!(p.convert_power_to_bit(10, 2_000_000_000), (60, 30));
    assert_eq!(p.convert_power_to_bit(u128::MAX, 50_000_000), (0, 0));
    assert_eq!(p.convert_power_to_bit(10, 0), (30, 0));
}
