use nft_staking::contract::{
    DurationMultiplier, StakingContract, StakingError, TierBonus, GAS_FOR_NFT_TRANSFER,
    GAS_FOR_RESOLVE_TRANSFER, LOCK_10_DAYS, LOCK_20_DAYS, LOCK_30_DAYS,
};
use nft_staking::events::{ClaimData, RewardDepositData, StakeData, StakeEvent};
use nft_staking::promise::{PromiseAction, ONE_YOCTO};

const DAY_NS: u64 = 86_400_000_000_000;

/// One unit of weight, 1x in basis points: pools are multiples of it so that the reward per
/// unit of weight is whole.
const U: u128 = 10_000;

fn s(x: &str) -> String {
    x.to_string()
}

fn fresh() -> StakingContract {
    StakingContract::new(s("owner.near"), s("reward.near"), 0)
}

fn stake_one(c: &mut StakingContract, owner: &str, token: &str, duration: u64, ts: u64) {
    let msg = format!("{}:{}", duration, owner);
    let r = c.nft_on_transfer(&s("nft.near"), s(owner), s(owner), s(token), msg, ts);
    assert_eq!(
        r,
        Ok(StakeEvent::Stake(StakeData { owner_id: s(owner), token_id: s(token), lock_duration: duration }))
    );
}

#[test]
fn defaults() {
    let c = fresh();
    let m = c.get_contract_metadata();
    assert_eq!(m.owner_id, "owner.near");
    assert_eq!(m.reward_token, "reward.near");
    assert_eq!(m.epoch_duration, 86_400);
    assert_eq!(m.total_staked, 0);
    assert_eq!(m.duration_multipliers.len(), 3);
    assert_eq!(m.duration_multipliers[1], DurationMultiplier { duration_sec: 1_728_000, multiplier_bps: 15_000 });
    assert_eq!(m.tier_bonuses.len(), 5);
    assert_eq!(m.tier_bonuses[4], TierBonus { min_nfts: 50, bonus_bps: 10_000 });
    assert_eq!(c.to_epoch(172_800), 2);
}

#[test]
fn stake_checks_duration() {
    let c = fresh();
    assert_eq!(
        c.stake(&s("alice.near"), s("nft.near"), s("t1"), 5, s("staking.near")),
        Err(StakingError::InvalidLockDuration)
    );
    assert_eq!(
        c.stake(&s("alice.near"), s("nft.near"), s("t1"), LOCK_30_DAYS, s("staking.near")),
        Ok(PromiseAction::NftTransferCall {
            nft_contract_id: s("nft.near"),
            receiver_id: s("staking.near"),
            token_id: s("t1"),
            msg: s("2592000:alice.near"),
            deposit: ONE_YOCTO,
            gas: GAS_FOR_NFT_TRANSFER,
        })
    );
}

#[test]
fn transfer_callback_errors() {
    let mut c = fresh();
    let nft = s("nft.near");
    assert_eq!(c.nft_on_transfer(&nft, s("a"), s("a"), s("t1"), s("864000"), 0), Err(StakingError::MissingOwner));
    assert_eq!(c.nft_on_transfer(&nft, s("a"), s("a"), s("t1"), s("864000:ALICE"), 0), Err(StakingError::InvalidOwner));
    assert_eq!(c.nft_on_transfer(&nft, s("a"), s("a"), s("t1"), s("abc:alice.near"), 0), Err(StakingError::InvalidLockDuration));
    assert_eq!(c.nft_on_transfer(&nft, s("a"), s("a"), s("t1"), s("7:alice.near"), 0), Err(StakingError::InvalidLockDuration));
    stake_one(&mut c, "alice.near", "t1", LOCK_10_DAYS, 0);
    assert_eq!(
        c.nft_on_transfer(&nft, s("a"), s("a"), s("t1"), s("864000:bob.near"), 0),
        Err(StakingError::AlreadyStaked)
    );
    assert_eq!(c.get_stake(&s("t1")).unwrap().owner_id, "alice.near");
    assert_eq!(StakingError::AlreadyStaked.message(), "Token already staked");
}

#[test]
fn zero_duration_allowed_when_configured() {
    let mut c = fresh();
    c.set_duration_multipliers(&s("owner.near"), vec![DurationMultiplier { duration_sec: 0, multiplier_bps: 10_000 }]).unwrap();
    let r = c.nft_on_transfer(&s("nft.near"), s("a"), s("a"), s("t1"), s("junk:alice.near"), 0);
    assert_eq!(r, Ok(StakeEvent::Stake(StakeData { owner_id: s("alice.near"), token_id: s("t1"), lock_duration: 0 })));
}

#[test]
fn stake_is_recorded() {
    let mut c = fresh();
    stake_one(&mut c, "alice.near", "t1", LOCK_10_DAYS, 2 * DAY_NS);
    let st = c.get_stake(&s("t1")).unwrap();
    assert_eq!(st.owner_id, "alice.near");
    assert_eq!(st.nft_contract_id, "nft.near");
    assert_eq!(st.staked_at, 172_800);
    assert_eq!(st.unlocked_at, 172_800 + 864_000);
    assert_eq!(st.last_claim_epoch, 2);
    assert!(st.active);
    assert_eq!(c.get_total_staked(), 1);
    assert_eq!(c.get_user_stake_count(&s("alice.near")), 1);
    assert_eq!(c.get_user_stake_count(&s("bob.near")), 0);
    assert_eq!(c.get_user_stakes(&s("alice.near")).len(), 1);
}

#[test]
fn weights() {
    let mut c = fresh();
    assert_eq!(c.get_total_weight(), Ok(0));
    stake_one(&mut c, "alice.near", "t1", LOCK_10_DAYS, 0);
    stake_one(&mut c, "alice.near", "t2", LOCK_30_DAYS, 0);
    // in basis points: 10000 * 10000 / 10000 = 10000 (1x) and 20000 * 10000 / 10000 = 20000 (2x)
    assert_eq!(c.get_user_weight(&s("alice.near")), Ok(30_000));
    assert_eq!(c.calculate_total_weight(), Ok(30_000));
    assert_eq!(c.get_user_weight(&s("bob.near")), Ok(0));
    assert_eq!(c.get_duration_multiplier(LOCK_30_DAYS), 20_000);
    assert_eq!(c.get_duration_multiplier(1), 10_000);
    assert_eq!(c.get_tier_bonus(4), Ok(10_000));
    assert_eq!(c.get_tier_bonus(10), Ok(15_000));
    assert_eq!(c.get_tier_bonus(50), Ok(20_000));
}

#[test]
fn twenty_day_lock_weighs_one_and_a_half() {
    let mut ten = fresh();
    stake_one(&mut ten, "alice.near", "t1", LOCK_10_DAYS, 0);
    let mut twenty = fresh();
    stake_one(&mut twenty, "alice.near", "t1", LOCK_20_DAYS, 0);
    assert_eq!(ten.get_user_weight(&s("alice.near")), Ok(10_000));
    assert_eq!(twenty.get_user_weight(&s("alice.near")), Ok(15_000));
    assert_eq!(twenty.get_total_weight(), Ok(15_000));
    // a tiny multiplier still weighs at least 1x
    let mut low = fresh();
    low.set_duration_multipliers(&s("owner.near"), vec![DurationMultiplier { duration_sec: 0, multiplier_bps: 100 }]).unwrap();
    stake_one(&mut low, "alice.near", "t1", 0, 0);
    assert_eq!(low.get_user_weight(&s("alice.near")), Ok(10_000));
}

#[test]
fn total_weight_is_the_sum_of_user_weights() {
    let mut c = fresh();
    stake_one(&mut c, "alice.near", "t1", LOCK_10_DAYS, 0);
    stake_one(&mut c, "bob.near", "t2", LOCK_30_DAYS, 0);
    stake_one(&mut c, "bob.near", "t3", LOCK_20_DAYS, 0);
    assert_eq!(c.get_user_weight(&s("alice.near")), Ok(10_000));
    assert_eq!(c.get_user_weight(&s("bob.near")), Ok(35_000));
    assert_eq!(c.calculate_total_weight(), Ok(45_000));
    // alice's stake processed to its lock's end stops counting, in both
    assert_eq!(c.process_rewards(&s("alice.near"), 12 * DAY_NS), Ok(0));
    assert!(!c.get_stake(&s("t1")).unwrap().active);
    assert_eq!(c.get_user_weight(&s("alice.near")), Ok(0));
    assert_eq!(c.calculate_total_weight(), Ok(35_000));
}

#[test]
fn tier_overflow_is_an_error() {
    let mut c = fresh();
    c.set_tier_bonuses(&s("owner.near"), vec![TierBonus { min_nfts: 0, bonus_bps: u32::MAX }]).unwrap();
    assert_eq!(c.get_tier_bonus(0), Err(StakingError::ArithmeticOverflow));
    stake_one(&mut c, "alice.near", "t1", LOCK_10_DAYS, 0);
    assert_eq!(c.calculate_total_weight(), Err(StakingError::ArithmeticOverflow));
}

#[test]
fn processing_marks_epochs_claimed() {
    let mut c = fresh();
    stake_one(&mut c, "alice.near", "t1", LOCK_10_DAYS, 0);
    c.deposit_rewards(&s("owner.near"), 1000 * U).unwrap();
    // a stake weighs 1 * 10000 * 10000 / 10000 = 10000 (1x), the total weight is 10000:
    // 1000 * U per epoch, 5 epochs
    assert_eq!(c.get_user_rewards(&s("alice.near"), 5 * DAY_NS), Ok(5_000 * U));
    assert_eq!(c.process_rewards(&s("alice.near"), 5 * DAY_NS), Ok(5_000 * U));
    let st = c.get_stake(&s("t1")).unwrap();
    assert_eq!(st.last_claim_epoch, 5);
    assert!(st.active);
    assert_eq!(c.last_epoch_update, 5);
    assert_eq!(c.process_rewards(&s("alice.near"), 5 * DAY_NS), Ok(0));
    assert_eq!(c.process_rewards(&s("nobody.near"), 5 * DAY_NS), Ok(0));
    assert_eq!(c.get_user_rewards(&s("alice.near"), 5 * DAY_NS), Ok(5_000 * U));
    assert_eq!(c.epoch_rewards.get(&s("alice.near")), Some(&(5_000 * U)));
}

#[test]
fn processing_scales_with_pending_epochs() {
    let mut one = fresh();
    stake_one(&mut one, "alice.near", "t1", LOCK_10_DAYS, 0);
    one.deposit_rewards(&s("owner.near"), 1000 * U).unwrap();
    let mut three = fresh();
    stake_one(&mut three, "alice.near", "t1", LOCK_10_DAYS, 0);
    three.deposit_rewards(&s("owner.near"), 1000 * U).unwrap();
    assert_eq!(one.process_rewards(&s("alice.near"), DAY_NS), Ok(1_000 * U));
    assert_eq!(three.process_rewards(&s("alice.near"), 3 * DAY_NS), Ok(3_000 * U));
    // past the lock's end only the epochs up to its end count, and the stake is done
    let mut late = fresh();
    stake_one(&mut late, "alice.near", "t1", LOCK_10_DAYS, 0);
    late.deposit_rewards(&s("owner.near"), 7 * U).unwrap();
    assert_eq!(late.process_rewards(&s("alice.near"), 40 * DAY_NS), Ok(70 * U));
    let st = late.get_stake(&s("t1")).unwrap();
    assert_eq!(st.last_claim_epoch, 10);
    assert!(!st.active);
}

#[test]
fn claim_more_than_pool_fails() {
    let mut c = fresh();
    stake_one(&mut c, "alice.near", "t1", LOCK_10_DAYS, 0);
    c.deposit_rewards(&s("owner.near"), 1000 * U).unwrap();
    assert_eq!(c.claim(&s("alice.near"), 5 * DAY_NS), Err(StakingError::ArithmeticOverflow));
    assert_eq!(c.get_reward_pool(), 1000 * U);
    assert_eq!(c.get_stake(&s("t1")).unwrap().last_claim_epoch, 0);
    assert_eq!(c.claim(&s("bob.near"), 5 * DAY_NS), Err(StakingError::NoRewardsToClaim));
}

#[test]
fn claim_pays_the_processed_balance() {
    let mut c = fresh();
    stake_one(&mut c, "alice.near", "t1", LOCK_10_DAYS, 0);
    c.deposit_rewards(&s("owner.near"), 1000 * U).unwrap();
    assert_eq!(c.process_rewards(&s("alice.near"), DAY_NS), Ok(1_000 * U));
    c.deposit_rewards(&s("owner.near"), 1000 * U).unwrap();
    // nothing new to process in the same epoch: the claim pays the balance processed before
    let (a, e) = c.claim(&s("alice.near"), DAY_NS).unwrap();
    assert_eq!(a, PromiseAction::Transfer { receiver_id: s("alice.near"), amount: 1000 * U });
    assert_eq!(e, StakeEvent::Claim(ClaimData { owner_id: s("alice.near"), amount: 1000 * U }));
    assert_eq!(c.get_reward_pool(), 1000 * U);
    assert_eq!(c.epoch_rewards.get(&s("alice.near")), Some(&0));
    assert_eq!(c.get_user_rewards(&s("alice.near"), DAY_NS), Ok(0));
    assert_eq!(c.claim(&s("alice.near"), DAY_NS), Err(StakingError::NoRewardsToClaim));
    assert_eq!(c.get_reward_pool(), 1000 * U);
}

#[test]
fn claim_adds_new_processing_to_the_balance() {
    let mut c = fresh();
    stake_one(&mut c, "alice.near", "t1", LOCK_10_DAYS, 0);
    stake_one(&mut c, "bob.near", "t2", LOCK_10_DAYS, 0);
    c.deposit_rewards(&s("owner.near"), 1000 * U).unwrap();
    // two stakes of weight 1x: each earns 10000 * (1000 * U / 20000) per epoch
    assert_eq!(c.process_rewards(&s("alice.near"), DAY_NS), Ok(500 * U));
    // the second epoch adds 500 to the 500 processed before
    let (a, _) = c.claim(&s("alice.near"), 2 * DAY_NS).unwrap();
    assert_eq!(a, PromiseAction::Transfer { receiver_id: s("alice.near"), amount: 1000 * U });
    assert_eq!(c.get_reward_pool(), 0);
    assert_eq!(c.epoch_rewards.get(&s("alice.near")), Some(&0));
    assert_eq!(c.get_stake(&s("t1")).unwrap().last_claim_epoch, 2);
    // the pool is empty now: bob's two epochs earn nothing
    assert_eq!(c.claim(&s("bob.near"), 2 * DAY_NS), Err(StakingError::NoRewardsToClaim));
    assert_eq!(c.get_stake(&s("t2")).unwrap().last_claim_epoch, 0);
}

#[test]
fn rewards_processed_by_unstake_stay_claimable() {
    let mut c = fresh();
    stake_one(&mut c, "alice.near", "t1", LOCK_10_DAYS, 0);
    c.deposit_rewards(&s("owner.near"), 100 * U).unwrap();
    // ten epochs up to the lock's end at 100 each
    assert_eq!(c.process_rewards(&s("alice.near"), 12 * DAY_NS), Ok(1_000 * U));
    assert!(!c.get_stake(&s("t1")).unwrap().active);
    c.deposit_rewards(&s("owner.near"), 900 * U).unwrap();
    c.unstake(&s("alice.near"), s("t1"), 12 * DAY_NS).unwrap();
    assert_eq!(c.get_user_stake_count(&s("alice.near")), 0);
    let (a, _) = c.claim(&s("alice.near"), 12 * DAY_NS).unwrap();
    assert_eq!(a, PromiseAction::Transfer { receiver_id: s("alice.near"), amount: 1000 * U });
    assert_eq!(c.get_reward_pool(), 0);
    assert_eq!(c.claim(&s("alice.near"), 12 * DAY_NS), Err(StakingError::NoRewardsToClaim));
}

#[test]
fn claim_then_unstake() {
    let mut c = fresh();
    stake_one(&mut c, "alice.near", "t1", LOCK_10_DAYS, 0);
    c.deposit_rewards(&s("owner.near"), 1000 * U).unwrap();
    assert_eq!(c.unstake(&s("alice.near"), s("t1"), DAY_NS), Err(StakingError::MustClaimFirst));
    assert_eq!(c.unstake(&s("bob.near"), s("t1"), DAY_NS), Err(StakingError::NotYourStake));
    assert_eq!(c.unstake(&s("alice.near"), s("t2"), DAY_NS), Err(StakingError::StakeNotFound));
    // one epoch at weight 1x of a total weight of 1x: the whole pool
    let (a, e) = c.claim(&s("alice.near"), DAY_NS).unwrap();
    assert_eq!(a, PromiseAction::Transfer { receiver_id: s("alice.near"), amount: 1000 * U });
    assert_eq!(e, StakeEvent::Claim(ClaimData { owner_id: s("alice.near"), amount: 1000 * U }));
    assert_eq!(c.get_reward_pool(), 0);
    assert_eq!(c.claim(&s("alice.near"), DAY_NS), Err(StakingError::NoRewardsToClaim));
    // with an empty pool the remaining epochs earn nothing, but the stake is settled
    assert_eq!(c.process_rewards(&s("alice.near"), 12 * DAY_NS), Ok(0));
    assert!(!c.get_stake(&s("t1")).unwrap().active);
    let back = c.unstake(&s("alice.near"), s("t1"), 12 * DAY_NS).unwrap();
    assert_eq!(
        back,
        PromiseAction::NftTransfer {
            nft_contract_id: s("nft.near"),
            receiver_id: s("alice.near"),
            token_id: s("t1"),
            deposit: ONE_YOCTO,
            gas: GAS_FOR_RESOLVE_TRANSFER,
        }
    );
    assert_eq!(c.get_total_staked(), 0);
    assert_eq!(c.get_user_stake_count(&s("alice.near")), 0);
    assert!(c.get_stake(&s("t1")).is_none());
}

#[test]
fn admin_checks() {
    let mut c = fresh();
    let o = s("owner.near");
    assert_eq!(c.deposit_rewards(&s("x.near"), 5), Err(StakingError::OnlyOwner));
    assert_eq!(c.deposit_rewards(&o, 0), Err(StakingError::MustAttachNear));
    assert_eq!(
        c.deposit_rewards(&o, 5),
        Ok(StakeEvent::RewardDeposit(RewardDepositData { depositor_id: o.clone(), amount: 5 }))
    );
    assert_eq!(c.set_duration_multipliers(&o, vec![]), Err(StakingError::NoDurations));
    assert_eq!(c.set_tier_bonuses(&o, vec![]), Err(StakingError::NoTiers));
    assert_eq!(c.set_epoch_duration(&o, 100), Err(StakingError::EpochTooShort));
    assert_eq!(c.set_epoch_duration(&o, 7200), Ok(()));
    assert_eq!(c.withdraw_rewards(&o, 6), Err(StakingError::NotEnoughInPool));
    assert_eq!(c.withdraw_rewards(&o, 5), Ok(PromiseAction::Transfer { receiver_id: o.clone(), amount: 5 }));
    assert_eq!(c.get_reward_pool(), 0);
    assert_eq!(c.get_contract_metadata().epoch_duration, 7200);
}

#[test]
fn force_owner_change_moves_listing() {
    let mut c = fresh();
    stake_one(&mut c, "alice.near", "t1", LOCK_10_DAYS, 0);
    stake_one(&mut c, "alice.near", "t2", LOCK_10_DAYS, 0);
    assert_eq!(c.force_update_stake_owner(&s("x.near"), s("t1"), s("bob.near")), Err(StakingError::OnlyOwner));
    assert_eq!(c.force_update_stake_owner(&s("owner.near"), s("t9"), s("bob.near")), Err(StakingError::StakeNotFound));
    assert_eq!(c.force_update_stake_owner(&s("owner.near"), s("t1"), s("bob.near")), Ok(()));
    assert_eq!(c.get_stake(&s("t1")).unwrap().owner_id, "bob.near");
    assert_eq!(c.get_user_stake_count(&s("alice.near")), 1);
    assert_eq!(c.get_user_stakes(&s("bob.near"))[0].token_id, "t1");
    assert_eq!(c.force_update_stake_owner(&s("owner.near"), s("t2"), s("alice.near")), Ok(()));
    assert_eq!(c.get_user_stake_count(&s("alice.near")), 1);
}

#[test]
fn paging_all_stakes() {
    let mut c = fresh();
    assert_eq!(c.get_all_stakes(0, 10).unwrap_err(), StakingError::ArithmeticOverflow);
    stake_one(&mut c, "alice.near", "t1", LOCK_10_DAYS, 0);
    stake_one(&mut c, "bob.near", "t2", LOCK_10_DAYS, 0);
    stake_one(&mut c, "carol.near", "t3", LOCK_10_DAYS, 0);
    let page: Vec<String> = c.get_all_stakes(1, 5).unwrap().into_iter().map(|x| x.token_id).collect();
    assert_eq!(page, vec![s("t2"), s("t3")]);
    let page: Vec<String> = c.get_all_stakes(9, 2).unwrap().into_iter().map(|x| x.token_id).collect();
    assert_eq!(page, vec![s("t3")]);
    let page: Vec<String> = c.get_all_stakes(0, 2).unwrap().into_iter().map(|x| x.token_id).collect();
    assert_eq!(page, vec![s("t1"), s("t2")]);
}

#[test]
fn unstake_moves_last_stake_into_gap() {
    let mut c = fresh();
    c.set_duration_multipliers(&s("owner.near"), vec![DurationMultiplier { duration_sec: 0, multiplier_bps: 100 }]).unwrap();
    for (o, t) in [("alice.near", "t1"), ("bob.near", "t2"), ("carol.near", "t3")] {
        stake_one(&mut c, o, t, 0, 0);
    }
    // a zero lock ends in epoch 0, before any epoch to claim: it earns nothing and stays active
    assert_eq!(c.process_rewards(&s("alice.near"), DAY_NS), Ok(0));
    assert!(c.get_stake(&s("t1")).unwrap().active);
    assert_eq!(c.unstake(&s("alice.near"), s("t1"), DAY_NS), Err(StakingError::MustClaimFirst));
    c.stakes.entries[0].1.active = false;
    c.unstake(&s("alice.near"), s("t1"), DAY_NS).unwrap();
    let page: Vec<String> = c.get_all_stakes(0, 5).unwrap().into_iter().map(|x| x.token_id).collect();
    assert_eq!(page, vec![s("t3"), s("t2")]);
}
