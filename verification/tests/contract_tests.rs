use nft_staking::promise::{PromiseAction, NFT_CALL_GAS, ONE_YOCTO};
use nft_staking::{Contract, ContractError, LOCK_10D, LOCK_20D, LOCK_30D};

const DAY_NS: u64 = 86_400_000_000_000;

fn s(x: &str) -> String {
    x.to_string()
}

fn staked_contract() -> Contract {
    let mut c = Contract::new(s("owner.near"), 0);
    let r = c.nft_on_transfer(&s("nft.near"), s("alice.near"), s("alice.near"), s("t1"), s("864000:alice.near"), 0);
    assert_eq!(r, Ok(true));
    c
}

#[test]
fn new_contract_is_empty() {
    let c = Contract::new(s("owner.near"), 3 * DAY_NS + 5);
    assert_eq!(c.get_total_staked(), 0);
    assert_eq!(c.get_reward_pool(), 0);
    let m = c.get_metadata();
    assert_eq!(m.owner_id, "owner.near");
    assert_eq!(m.epoch_duration, 86_400);
    assert_eq!(c.last_update, 3);
}

#[test]
fn lock_periods() {
    assert_eq!(LOCK_10D, 864_000);
    assert_eq!(LOCK_20D, 1_728_000);
    assert_eq!(LOCK_30D, 2_592_000);
}

#[test]
fn owner_only_admin() {
    let mut c = Contract::new(s("owner.near"), 0);
    assert_eq!(c.deposit_rewards(&s("mallory.near"), 10), Err(ContractError::OwnerOnly));
    assert_eq!(c.set_epoch_duration(&s("mallory.near"), 7200), Err(ContractError::OwnerOnly));
    assert_eq!(c.withdraw_rewards(&s("mallory.near"), 0), Err(ContractError::OwnerOnly));
    assert_eq!(ContractError::OwnerOnly.message(), "owner only");
}

#[test]
fn deposit_and_withdraw() {
    let mut c = Contract::new(s("owner.near"), 0);
    assert_eq!(c.deposit_rewards(&s("owner.near"), 500), Ok(()));
    assert_eq!(c.get_reward_pool(), 500);
    assert_eq!(c.withdraw_rewards(&s("owner.near"), 501), Err(ContractError::NotEnough));
    assert_eq!(
        c.withdraw_rewards(&s("owner.near"), 200),
        Ok(PromiseAction::Transfer { receiver_id: s("owner.near"), amount: 200 })
    );
    assert_eq!(c.get_reward_pool(), 300);
    c.reward_pool = u128::MAX;
    assert_eq!(c.deposit_rewards(&s("owner.near"), 1), Err(ContractError::ArithmeticOverflow));
    assert_eq!(c.get_reward_pool(), u128::MAX);
}

#[test]
fn epoch_duration_minimum() {
    let mut c = Contract::new(s("owner.near"), 0);
    assert_eq!(c.set_epoch_duration(&s("owner.near"), 3599), Err(ContractError::EpochTooShort));
    assert_eq!(c.set_epoch_duration(&s("owner.near"), 3600), Ok(()));
    assert_eq!(c.get_metadata().epoch_duration, 3600);
}

#[test]
fn stake_sends_transfer_call() {
    let c = Contract::new(s("owner.near"), 0);
    let a = c.stake(&s("alice.near"), s("nft.near"), s("t1"), LOCK_20D, s("staking.near"));
    assert_eq!(
        a,
        PromiseAction::NftTransferCall {
            nft_contract_id: s("nft.near"),
            receiver_id: s("staking.near"),
            token_id: s("t1"),
            msg: s("1728000:alice.near"),
            deposit: ONE_YOCTO,
            gas: NFT_CALL_GAS,
        }
    );
}

#[test]
fn transfer_callback_records_stake() {
    let c = staked_contract();
    assert_eq!(c.get_total_staked(), 1);
    let v = c.get_stake(&s("t1"), 0).unwrap();
    assert_eq!(v.owner_id, "alice.near");
    assert_eq!(v.nft_contract_id, "nft.near");
    assert_eq!(v.staked_at, 0);
    assert_eq!(v.lock_duration, LOCK_10D);
    assert_eq!(v.unlocked_at, 864_000);
    assert!(v.active);
    let later = c.get_stake(&s("t1"), 864_000 * 1_000_000_000).unwrap();
    assert!(!later.active);
    let list = c.get_user_stakes(&s("alice.near"), 0);
    assert_eq!(list.len(), 1);
    assert_eq!(list[0].token_id, "t1");
    assert!(c.get_user_stakes(&s("bob.near"), 0).is_empty());
    assert!(c.get_stake(&s("t2"), 0).is_none());
}

#[test]
fn transfer_callback_refuses_bad_messages() {
    let mut c = Contract::new(s("owner.near"), 0);
    let nft = s("nft.near");
    for msg in ["864000", "864000:alice.near:x", "5:alice.near", "x:alice.near", "864000:Alice", "864000:"] {
        let r = c.nft_on_transfer(&nft, s("a"), s("a"), s("t1"), s(msg), 0);
        assert_eq!(r, Ok(false), "{}", msg);
    }
    assert_eq!(c.get_total_staked(), 0);
    assert!(c.get_stake(&s("t1"), 0).is_none());
}

#[test]
fn restake_overwrites_without_listing() {
    let mut c = staked_contract();
    let r = c.nft_on_transfer(&s("nft.near"), s("bob.near"), s("bob.near"), s("t1"), s("2592000:bob.near"), DAY_NS);
    assert_eq!(r, Ok(false));
    let v = c.get_stake(&s("t1"), DAY_NS).unwrap();
    assert_eq!(v.owner_id, "bob.near");
    assert_eq!(v.lock_duration, LOCK_30D);
    assert_eq!(c.get_total_staked(), 1);
    assert!(c.get_user_stakes(&s("bob.near"), DAY_NS).is_empty());
    assert_eq!(c.all_stakes, vec![s("t1")]);
}

#[test]
fn claim_pays_the_epoch_share_once() {
    let mut c = staked_contract();
    c.deposit_rewards(&s("owner.near"), 1000).unwrap();
    let a = c.claim(&s("alice.near"), DAY_NS).unwrap();
    assert_eq!(a, PromiseAction::Transfer { receiver_id: s("alice.near"), amount: 1000 });
    assert_eq!(c.get_reward_pool(), 0);
    assert_eq!(c.get_user_rewards(&s("alice.near")), 0);
    assert_eq!(c.last_update, 1);
    assert_eq!(c.claim(&s("alice.near"), DAY_NS), Err(ContractError::NoRewards));
}

#[test]
fn claim_without_stake_has_nothing() {
    let mut c = staked_contract();
    c.deposit_rewards(&s("owner.near"), 1000).unwrap();
    assert_eq!(c.claim(&s("bob.near"), DAY_NS), Err(ContractError::NoRewards));
    assert_eq!(c.last_update, 0);
}

#[test]
fn two_owners_share_by_list_length() {
    let mut c = Contract::new(s("owner.near"), 0);
    let nft = s("nft.near");
    assert_eq!(c.nft_on_transfer(&nft, s("a"), s("a"), s("t1"), s("864000:alice.near"), 0), Ok(true));
    assert_eq!(c.nft_on_transfer(&nft, s("a"), s("a"), s("t2"), s("864000:alice.near"), 0), Ok(true));
    assert_eq!(c.nft_on_transfer(&nft, s("b"), s("b"), s("t3"), s("1728000:bob.near"), 0), Ok(true));
    c.deposit_rewards(&s("owner.near"), 300).unwrap();
    // alice: 300 * 2 / 3 = 200, bob: 300 * 1 / 3 = 100
    let a = c.claim(&s("bob.near"), DAY_NS).unwrap();
    assert_eq!(a, PromiseAction::Transfer { receiver_id: s("bob.near"), amount: 100 });
    assert_eq!(c.get_user_rewards(&s("alice.near")), 200);
    assert_eq!(c.get_reward_pool(), 200);
}

#[test]
fn unstake_returns_the_nft() {
    let mut c = staked_contract();
    assert_eq!(c.unstake(&s("bob.near"), s("t1"), DAY_NS), Err(ContractError::NotYours));
    assert_eq!(c.unstake(&s("alice.near"), s("t9"), DAY_NS), Err(ContractError::NotFound));
    let a = c.unstake(&s("alice.near"), s("t1"), DAY_NS).unwrap();
    assert_eq!(
        a,
        PromiseAction::NftTransfer {
            nft_contract_id: s("nft.near"),
            receiver_id: s("alice.near"),
            token_id: s("t1"),
            deposit: ONE_YOCTO,
            gas: NFT_CALL_GAS,
        }
    );
    assert_eq!(c.get_total_staked(), 0);
    assert!(c.get_stake(&s("t1"), DAY_NS).is_none());
    assert!(c.all_stakes.is_empty());
    assert!(c.get_user_stakes(&s("alice.near"), DAY_NS).is_empty());
    assert_eq!(c.last_update, 1);
}

#[test]
fn accrual_overflow_fails_claim() {
    let mut c = Contract::new(s("owner.near"), 0);
    let nft = s("nft.near");
    c.nft_on_transfer(&nft, s("a"), s("a"), s("t1"), s("864000:alice.near"), 0).unwrap();
    c.nft_on_transfer(&nft, s("a"), s("a"), s("t2"), s("864000:alice.near"), 0).unwrap();
    c.reward_pool = u128::MAX;
    assert_eq!(c.claim(&s("alice.near"), DAY_NS), Err(ContractError::ArithmeticOverflow));
    assert_eq!(c.last_update, 0);
    assert_eq!(ContractError::ArithmeticOverflow.message(), "arithmetic operation overflowed");
}

#[test]
fn record_stake_directly() {
    let mut c = Contract::new(s("owner.near"), 0);
    assert_eq!(c.record_stake(s("alice.near"), s("t1"), s("nft.near"), 5, 2_000_000_000), Ok(true));
    let v = c.get_stake(&s("t1"), 0).unwrap();
    assert_eq!(v.staked_at, 2);
    assert_eq!(v.unlocked_at, 7);
}
