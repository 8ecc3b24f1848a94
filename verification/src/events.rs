//! The events `StakingContract` logs, as NEP-297 style `EVENT_JSON` entries.
use vstd::prelude::*;
use crate::contract::TokenId;

verus! {

/// A token was staked.
#[derive(Debug, PartialEq, Eq)]
pub struct StakeData {
    pub owner_id: String,
    pub token_id: TokenId,
    pub lock_duration: u64,
}

/// A token was unstaked.
#[derive(Debug, PartialEq, Eq)]
pub struct UnstakeData {
    pub owner_id: String,
    pub token_id: TokenId,
}

/// Rewards were claimed.
#[derive(Debug, PartialEq, Eq)]
pub struct ClaimData {
    pub owner_id: String,
    pub amount: u128,
}

/// NEAR was added to the reward pool.
#[derive(Debug, PartialEq, Eq)]
pub struct RewardDepositData {
    pub depositor_id: String,
    pub amount: u128,
}

/// An event, logged as `EVENT_JSON:{"event": <snake_case name>, "data": {...}}`.
#[derive(Debug, PartialEq, Eq)]
pub enum StakeEvent {
    Stake(StakeData),
    Unstake(UnstakeData),
    Claim(ClaimData),
    RewardDeposit(RewardDepositData),
}

} // verus!
