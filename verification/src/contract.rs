//! The staking contract with lock-duration multipliers and tier bonuses.
//!
//! Each staked NFT earns, for every epoch of its lock, a share of the reward pool weighed by
//! its lock duration and by how many NFTs its owner has staked; processing adds what it earned
//! to its owner's balance, and a claim pays that balance out.
use vstd::prelude::*;
use crate::events::{StakeEvent, StakeData, ClaimData};
use crate::lists::{copy_strings, strings_without, without, lemma_without_contains, lemma_without_no_dups, lemma_without_len_le};
use crate::promise::{PromiseAction, ONE_YOCTO};
use crate::rewards::lists_fit;
use crate::text::{lemma_account_chars_no_colon, lemma_lock_msg_roundtrip, lemma_split_nonempty};
use crate::strmap::{StrMap, entries_map, swap_removed, key_pos};
use crate::text::{
    account_id_from_str, is_account_id, format_lock_msg, lock_msg, parse_decimal_u64,
    parse_u64_spec, split_at_sep, split_on, str_views,
};
use crate::{tokens_of, secs, NANOS_PER_SEC, MIN_EPOCH_SECS};

verus! {

/// Storage cost of one stake, 0.001 NEAR in yoctoNEAR.
pub const STORAGE_COST: u128 = 1_000_000_000_000_000_000_000;

/// Gas for the NFT transfer that brings a token in, 10 TGas.
pub const GAS_FOR_NFT_TRANSFER: u64 = 10_000_000_000_000;

/// Gas for the NFT transfer that gives a token back, 10 TGas.
pub const GAS_FOR_RESOLVE_TRANSFER: u64 = 10_000_000_000_000;

/// Gas for the `nft_on_transfer` callback, 25 TGas.
pub const GAS_FOR_NFT_ON_TRANSFER: u64 = 25_000_000_000_000;

/// Lock period of ten days, in seconds.
pub const LOCK_10_DAYS: u64 = 864_000;

/// Lock period of twenty days, in seconds.
pub const LOCK_20_DAYS: u64 = 1_728_000;

/// Lock period of thirty days, in seconds.
pub const LOCK_30_DAYS: u64 = 2_592_000;

/// Multiplier of the ten-day lock, in basis points (10000 = 1x).
pub const MULT_10D: u32 = 10_000;

/// Multiplier of the twenty-day lock, in basis points.
pub const MULT_20D: u32 = 15_000;

/// Multiplier of the thirty-day lock, in basis points.
pub const MULT_30D: u32 = 20_000;

/// Tier bonus for owners of fewer than five NFTs, in basis points.
pub const TIER_1_9: u32 = 0;

/// Tier bonus from five NFTs on.
pub const TIER_5_PLUS: u32 = 2_500;

/// Tier bonus from ten NFTs on.
pub const TIER_10_PLUS: u32 = 5_000;

/// Tier bonus from twenty-five NFTs on.
pub const TIER_25_PLUS: u32 = 7_500;

/// Tier bonus from fifty NFTs on.
pub const TIER_50_PLUS: u32 = 10_000;

pub type TokenId = String;

pub type EpochTimestamp = u64;

/// A lock duration and the reward multiplier it earns, in basis points (10000 = 1x).
#[derive(Clone, Copy, Debug, PartialEq, Eq, Structural)]
pub struct DurationMultiplier {
    pub duration_sec: u64,
    pub multiplier_bps: u32,
}

/// A tier: owners of at least `min_nfts` staked NFTs earn `bonus_bps` extra, in basis points.
#[derive(Clone, Copy, Debug, PartialEq, Eq, Structural)]
pub struct TierBonus {
    pub min_nfts: u32,
    pub bonus_bps: u32,
}

/// A staked NFT. It stays `active` until its rewards have been claimed up to its lock's end.
#[derive(Debug)]
pub struct Stake {
    pub owner_id: String,
    pub token_id: TokenId,
    pub nft_contract_id: String,
    pub staked_at: EpochTimestamp,
    pub lock_duration: u64,
    pub unlocked_at: EpochTimestamp,
    pub last_claim_epoch: EpochTimestamp,
    pub active: bool,
}

impl Stake {
    /// A field-by-field copy.
    pub fn copy(&self) -> (r: Stake)
        ensures
            r == *self,
    {
        Stake {
            owner_id: self.owner_id.clone(),
            token_id: self.token_id.clone(),
            nft_contract_id: self.nft_contract_id.clone(),
            staked_at: self.staked_at,
            lock_duration: self.lock_duration,
            unlocked_at: self.unlocked_at,
            last_claim_epoch: self.last_claim_epoch,
            active: self.active,
        }
    }
}

/// The contract's settings and totals.
#[derive(Debug)]
pub struct ContractMetadata {
    pub owner_id: String,
    pub reward_token: String,
    pub total_staked: u64,
    pub reward_pool: u128,
    pub epoch_duration: u64,
    pub duration_multipliers: Vec<DurationMultiplier>,
    pub tier_bonuses: Vec<TierBonus>,
}

/// Why a `StakingContract` method fails; the transaction then fails and changes nothing.
#[derive(Debug, Clone, Copy, PartialEq, Eq, Structural)]
pub enum StakingError {
    /// The caller is not the contract owner.
    OnlyOwner,
    /// A reward deposit came without NEAR.
    MustAttachNear,
    /// An empty list of duration multipliers.
    NoDurations,
    /// An empty list of tier bonuses.
    NoTiers,
    /// An epoch shorter than one hour.
    EpochTooShort,
    /// The reward pool holds less than was asked for.
    NotEnoughInPool,
    /// No stake of that token.
    StakeNotFound,
    /// The stake belongs to someone else.
    NotYourStake,
    /// The stake still has rewards to claim.
    MustClaimFirst,
    /// The caller has no rewards to claim.
    NoRewardsToClaim,
    /// The lock duration has no multiplier.
    InvalidLockDuration,
    /// The owner in the staking message is not an account id.
    InvalidOwner,
    /// The staking message has no owner part.
    MissingOwner,
    /// The token is staked already.
    AlreadyStaked,
    /// A token list is full.
    IndexOutOfBounds,
    /// An amount does not fit in its integer type.
    ArithmeticOverflow,
}

impl StakingError {
    /// The panic message the contract fails with.
    pub fn message(&self) -> (m: &'static str)
        ensures
            m@ == match *self {
                StakingError::OnlyOwner => "Only owner"@,
                StakingError::MustAttachNear => "Must attach NEAR"@,
                StakingError::NoDurations => "At least one duration required"@,
                StakingError::NoTiers => "At least one tier required"@,
                StakingError::EpochTooShort => "Epoch min 1 hour"@,
                StakingError::NotEnoughInPool => "Not enough in pool"@,
                StakingError::StakeNotFound => "Stake not found"@,
                StakingError::NotYourStake => "Not your stake"@,
                StakingError::MustClaimFirst => "Must claim rewards first"@,
                StakingError::NoRewardsToClaim => "No rewards to claim"@,
                StakingError::InvalidLockDuration => "Invalid lock duration"@,
                StakingError::InvalidOwner => "Invalid owner in msg"@,
                StakingError::MissingOwner => "index out of bounds: the len is 1 but the index is 1"@,
                StakingError::AlreadyStaked => "Token already staked"@,
                StakingError::IndexOutOfBounds => "Index out of bounds"@,
                StakingError::ArithmeticOverflow => "arithmetic operation overflowed"@,
            },
    {
        match self {
            StakingError::OnlyOwner => "Only owner",
            StakingError::MustAttachNear => "Must attach NEAR",
            StakingError::NoDurations => "At least one duration required",
            StakingError::NoTiers => "At least one tier required",
            StakingError::EpochTooShort => "Epoch min 1 hour",
            StakingError::NotEnoughInPool => "Not enough in pool",
            StakingError::StakeNotFound => "Stake not found",
            StakingError::NotYourStake => "Not your stake",
            StakingError::MustClaimFirst => "Must claim rewards first",
            StakingError::NoRewardsToClaim => "No rewards to claim",
            StakingError::InvalidLockDuration => "Invalid lock duration",
            StakingError::InvalidOwner => "Invalid owner in msg",
            StakingError::MissingOwner => "index out of bounds: the len is 1 but the index is 1",
            StakingError::AlreadyStaked => "Token already staked",
            StakingError::IndexOutOfBounds => "Index out of bounds",
            StakingError::ArithmeticOverflow => "arithmetic operation overflowed",
        }
    }
}

/// The outcome of a `StakingContract` method.
pub type StakingResult<T> = Result<T, StakingError>;

/// The contract state.
pub struct StakingContract {
    pub owner_id: String,
    pub reward_token: String,
    /// Stakes by token id, in the order their tokens were first staked (removal moves the last
    /// one into the gap).
    pub stakes: StrMap<Stake>,
    /// Token lists by owner account.
    pub user_stakes: StrMap<Vec<String>>,
    pub total_staked: u64,
    pub reward_pool: u128,
    /// Epoch length in seconds.
    pub epoch_duration: u64,
    pub last_epoch_update: EpochTimestamp,
    pub duration_multipliers: Vec<DurationMultiplier>,
    pub tier_bonuses: Vec<TierBonus>,
    /// Rewards processed so far, by owner account.
    pub epoch_rewards: StrMap<u128>,
}

impl StakingContract {
    /// The tokens listed for owner `o`.
    pub open spec fn user_tokens(&self, o: Seq<char>) -> Seq<Seq<char>> {
        tokens_of(self.user_stakes@, o)
    }

    /// The owner lists index the stakes exactly: every stake is listed once, for its owner,
    /// and every listed token is a stake of that owner.
    pub open spec fn lists_match_stakes(&self) -> bool {
        &&& forall|t: Seq<char>| #[trigger]
            self.stakes@.contains_key(t) ==> self.user_stakes@.contains_key(
                self.stakes@[t].owner_id@,
            ) && self.user_tokens(self.stakes@[t].owner_id@).contains(t)
        &&& forall|o: Seq<char>, t: Seq<char>| #[trigger]
            self.user_tokens(o).contains(t) ==> self.stakes@.contains_key(t)
                && self.stakes@[t].owner_id@ == o
        &&& forall|o: Seq<char>| #[trigger] self.user_tokens(o).no_duplicates()
    }

    /// The invariant every method keeps: unique keys, an epoch of at least an hour,
    /// `total_staked` counting the stakes, owner lists that index the stakes and fit a `u32`
    /// length, and each stake stored under its own token id.
    pub open spec fn wf(&self) -> bool {
        &&& self.stakes.wf()
        &&& self.user_stakes.wf()
        &&& self.epoch_rewards.wf()
        &&& self.epoch_duration >= MIN_EPOCH_SECS
        &&& self.total_staked == self.stakes.entries@.len()
        &&& lists_fit(self.user_stakes@)
        &&& self.lists_match_stakes()
        &&& forall|t: Seq<char>| #[trigger]
            self.stakes@.contains_key(t) ==> self.stakes@[t].token_id@ == t
    }

    /// The rewards processed so far for `o`, zero where none were recorded.
    pub open spec fn rewards_of(&self, o: Seq<char>) -> u128 {
        if self.epoch_rewards@.contains_key(o) {
            self.epoch_rewards@[o]
        } else {
            0
        }
    }

    /// The epoch that block time `block_timestamp` falls in.
    pub open spec fn epoch_at(&self, block_timestamp: u64) -> u64 {
        secs(block_timestamp) / self.epoch_duration
    }

    /// Some duration multiplier is for lock duration `d`.
    pub open spec fn has_duration(&self, d: u64) -> bool {
        exists|i: int|
            0 <= i < self.duration_multipliers@.len()
                && (#[trigger] self.duration_multipliers@[i]).duration_sec == d
    }

    /// A fresh contract owned by `owner_id`, created at block time `block_timestamp`: nothing
    /// staked, an empty pool, one-day epochs, the three lock periods with 1x, 1.5x and 2x, and
    /// tier bonuses of 0%, 25%, 50%, 75% and 100% from 0, 5, 10, 25 and 50 NFTs.
    pub fn new(owner_id: String, reward_token: String, block_timestamp: u64) -> (c: Self)
        ensures
            c.wf(),
            c.owner_id == owner_id,
            c.reward_token == reward_token,
            c.stakes.entries@ == Seq::<(String, Stake)>::empty(),
            c.user_stakes@ == Map::<Seq<char>, Vec<String>>::empty(),
            c.epoch_rewards@ == Map::<Seq<char>, u128>::empty(),
            c.total_staked == 0,
            c.reward_pool == 0,
            c.epoch_duration == 86_400,
            c.last_epoch_update == secs(block_timestamp),
            c.duration_multipliers@ == seq![
                DurationMultiplier { duration_sec: LOCK_10_DAYS, multiplier_bps: MULT_10D },
                DurationMultiplier { duration_sec: LOCK_20_DAYS, multiplier_bps: MULT_20D },
                DurationMultiplier { duration_sec: LOCK_30_DAYS, multiplier_bps: MULT_30D },
            ],
            c.tier_bonuses@ == seq![
                TierBonus { min_nfts: 0, bonus_bps: TIER_1_9 },
                TierBonus { min_nfts: 5, bonus_bps: TIER_5_PLUS },
                TierBonus { min_nfts: 10, bonus_bps: TIER_10_PLUS },
                TierBonus { min_nfts: 25, bonus_bps: TIER_25_PLUS },
                TierBonus { min_nfts: 50, bonus_bps: TIER_50_PLUS },
            ],
    {
        let c = StakingContract {
            owner_id,
            reward_token,
            stakes: StrMap::new(),
            user_stakes: StrMap::new(),
            total_staked: 0,
            reward_pool: 0,
            epoch_duration: 86_400,
            last_epoch_update: block_timestamp / NANOS_PER_SEC,
            duration_multipliers: vec![
                DurationMultiplier { duration_sec: LOCK_10_DAYS, multiplier_bps: MULT_10D },
                DurationMultiplier { duration_sec: LOCK_20_DAYS, multiplier_bps: MULT_20D },
                DurationMultiplier { duration_sec: LOCK_30_DAYS, multiplier_bps: MULT_30D },
            ],
            tier_bonuses: vec![
                TierBonus { min_nfts: 0, bonus_bps: TIER_1_9 },
                TierBonus { min_nfts: 5, bonus_bps: TIER_5_PLUS },
                TierBonus { min_nfts: 10, bonus_bps: TIER_10_PLUS },
                TierBonus { min_nfts: 25, bonus_bps: TIER_25_PLUS },
                TierBonus { min_nfts: 50, bonus_bps: TIER_50_PLUS },
            ],
            epoch_rewards: StrMap::new(),
        };
        proof {
            assert forall|o: Seq<char>, t: Seq<char>| #[trigger]
                c.user_tokens(o).contains(t) implies c.stakes@.contains_key(t)
                && c.stakes@[t].owner_id@ == o by {
                assert(!c.user_stakes@.contains_key(o));
            }
            assert forall|o: Seq<char>| #[trigger] c.user_tokens(o).no_duplicates() by {
                assert(!c.user_stakes@.contains_key(o));
            }
        }
        c
    }

    /// Converts a time in seconds to its epoch.
    pub fn to_epoch(&self, timestamp: EpochTimestamp) -> (e: u64)
        requires
            self.wf(),
        ensures
            e == timestamp / self.epoch_duration,
    {
        timestamp / self.epoch_duration
    }

    /// Fails unless some duration multiplier is for `duration`.
    fn validate_duration(&self, duration: u64) -> (r: StakingResult<()>)
        ensures
            r is Ok <==> self.has_duration(duration),
            r is Err ==> r == Err::<(), StakingError>(StakingError::InvalidLockDuration),
    {
        let mut i: usize = 0;
        while i < self.duration_multipliers.len()
            invariant
                i <= self.duration_multipliers@.len(),
                forall|j: int|
                    0 <= j < i ==> (#[trigger] self.duration_multipliers@[j]).duration_sec
                        != duration,
            decreases self.duration_multipliers@.len() - i,
        {
            if self.duration_multipliers[i].duration_sec == duration {
                assert(self.duration_multipliers@[i as int].duration_sec == duration);
                return Ok(());
            }
            i = i + 1;
        }
        Err(StakingError::InvalidLockDuration)
    }

    /// Asks `nft_contract_id` to transfer `token_id` to this contract (`current_account_id`),
    /// with the lock duration and the caller in the message; fails on a lock duration that has
    /// no multiplier.
    pub fn stake(
        &self,
        caller: &String,
        nft_contract_id: String,
        token_id: TokenId,
        lock_duration_sec: u64,
        current_account_id: String,
    ) -> (r: StakingResult<PromiseAction>)
        ensures
            r is Err <==> !self.has_duration(lock_duration_sec),
            r is Err ==> r == Err::<PromiseAction, StakingError>(StakingError::InvalidLockDuration),
            r matches Ok(a) ==> a matches PromiseAction::NftTransferCall {
                nft_contract_id: n,
                receiver_id: rcv,
                token_id: t,
                msg: m,
                deposit: d,
                gas: g,
            } && n == nft_contract_id && rcv == current_account_id && t == token_id && m@
                == lock_msg(lock_duration_sec, caller@) && d == ONE_YOCTO && g
                == GAS_FOR_NFT_TRANSFER,
    {
        let msg = format_lock_msg(lock_duration_sec, caller.as_str());
        self.validate_duration(lock_duration_sec)?;
        Ok(
            PromiseAction::NftTransferCall {
                nft_contract_id,
                receiver_id: current_account_id,
                token_id,
                msg,
                deposit: ONE_YOCTO,
                gas: GAS_FOR_NFT_TRANSFER,
            },
        )
    }
}

impl StakingContract {
    /// `new` has this state's owner, reward token, pool, epoch settings, multipliers, tiers and
    /// processed rewards.
    pub open spec fn keeps_accounts(&self, new: &StakingContract) -> bool {
        &&& new.owner_id == self.owner_id
        &&& new.reward_token == self.reward_token
        &&& new.reward_pool == self.reward_pool
        &&& new.epoch_duration == self.epoch_duration
        &&& new.last_epoch_update == self.last_epoch_update
        &&& new.duration_multipliers == self.duration_multipliers
        &&& new.tier_bonuses == self.tier_bonuses
        &&& new.epoch_rewards == self.epoch_rewards
    }

    /// `new` is this state with `token` staked by `owner` through `nft_contract` for `duration`
    /// seconds at this time: the stake comes last in `stakes`, is active, claimed up to the
    /// current epoch, and is listed last for `owner`.
    pub open spec fn stake_recorded(
        &self,
        new: &StakingContract,
        owner: Seq<char>,
        token: Seq<char>,
        nft_contract: Seq<char>,
        duration: u64,
        block_timestamp: u64,
    ) -> bool {
        let now = secs(block_timestamp);
        let s = new.stakes@[token];
        &&& new.stakes.entries@.drop_last() == self.stakes.entries@
        &&& new.stakes.entries@.len() == self.stakes.entries@.len() + 1
        &&& new.stakes@ == self.stakes@.insert(token, s)
        &&& s.owner_id@ == owner
        &&& s.token_id@ == token
        &&& s.nft_contract_id@ == nft_contract
        &&& s.staked_at == now
        &&& s.lock_duration == duration
        &&& s.unlocked_at == now + duration
        &&& s.last_claim_epoch == now / self.epoch_duration
        &&& s.active
        &&& new.user_stakes@ == self.user_stakes@.insert(owner, new.user_stakes@[owner])
        &&& new.user_tokens(owner) == self.user_tokens(owner).push(token)
        &&& new.total_staked == self.total_staked + 1
        &&& self.keeps_accounts(new)
    }

    /// What recording a stake does, failing as the contract does.
    pub open spec fn record_outcome(
        &self,
        new: &StakingContract,
        r: StakingResult<StakeEvent>,
        owner: Seq<char>,
        token: Seq<char>,
        nft_contract: Seq<char>,
        duration: u64,
        block_timestamp: u64,
    ) -> bool {
        if !self.has_duration(duration) {
            r == Err::<StakeEvent, StakingError>(StakingError::InvalidLockDuration) && *new == *self
        } else if secs(block_timestamp) + duration > u64::MAX {
            r == Err::<StakeEvent, StakingError>(StakingError::ArithmeticOverflow) && *new == *self
        } else if self.stakes@.contains_key(token) {
            r == Err::<StakeEvent, StakingError>(StakingError::AlreadyStaked) && *new == *self
        } else if self.user_tokens(owner).len() >= u32::MAX {
            r == Err::<StakeEvent, StakingError>(StakingError::IndexOutOfBounds) && *new == *self
        } else if self.total_staked == u64::MAX {
            r == Err::<StakeEvent, StakingError>(StakingError::ArithmeticOverflow) && *new == *self
        } else {
            &&& r matches Ok(StakeEvent::Stake(d))
            &&& d.owner_id@ == owner
            &&& d.token_id@ == token
            &&& d.lock_duration == duration
            &&& self.stake_recorded(new, owner, token, nft_contract, duration, block_timestamp)
        }
    }

    /// What `nft_on_transfer` does with message `msg`: the part before the first colon is the
    /// lock duration (0 where it is not a number), the part after it the owner.
    pub open spec fn on_transfer_outcome(
        &self,
        new: &StakingContract,
        r: StakingResult<StakeEvent>,
        nft_contract: Seq<char>,
        token: Seq<char>,
        msg: Seq<char>,
        block_timestamp: u64,
    ) -> bool {
        let parts = split_at_sep(msg, ':');
        let duration = match parse_u64_spec(parts[0]) {
            Some(d) => d,
            None => 0,
        };
        if parts.len() < 2 {
            r == Err::<StakeEvent, StakingError>(StakingError::MissingOwner) && *new == *self
        } else if !is_account_id(parts[1]) {
            r == Err::<StakeEvent, StakingError>(StakingError::InvalidOwner) && *new == *self
        } else {
            self.record_outcome(new, r, parts[1], token, nft_contract, duration, block_timestamp)
        }
    }

    /// Records that `owner_id` staked `token_id` of `nft_contract_id` for `lock_duration`
    /// seconds, and gives the stake event to log.
    pub fn record_stake(
        &mut self,
        owner_id: String,
        token_id: TokenId,
        nft_contract_id: String,
        lock_duration: u64,
        block_timestamp: u64,
    ) -> (r: StakingResult<StakeEvent>)
        requires
            old(self).wf(),
        ensures
            final(self).wf(),
            old(self).record_outcome(
                final(self),
                r,
                owner_id@,
                token_id@,
                nft_contract_id@,
                lock_duration,
                block_timestamp,
            ),
            r matches Ok(e) ==> e == StakeEvent::Stake(
                StakeData { owner_id: owner_id, token_id: token_id, lock_duration },
            ),
    {
        self.validate_duration(lock_duration)?;
        let now = block_timestamp / NANOS_PER_SEC;
        let unlocked_at = match now.checked_add(lock_duration) {
            Some(u) => u,
            None => {
                return Err(StakingError::ArithmeticOverflow);
            },
        };
        if self.stakes.contains_key(&token_id) {
            return Err(StakingError::AlreadyStaked);
        }
        let mut list: Vec<String> = match self.user_stakes.get(&owner_id) {
            Some(v) => copy_strings(v),
            None => Vec::new(),
        };
        assert(str_views(list@) == self.user_tokens(owner_id@));
        if list.len() >= 4_294_967_295usize {
            return Err(StakingError::IndexOutOfBounds);
        }
        if self.total_staked == u64::MAX {
            return Err(StakingError::ArithmeticOverflow);
        }
        let stake = Stake {
            owner_id: owner_id.clone(),
            token_id: token_id.clone(),
            nft_contract_id,
            staked_at: now,
            lock_duration,
            unlocked_at,
            last_claim_epoch: self.to_epoch(now),
            active: true,
        };
        let ghost old_self = *self;
        assert(!old_self.user_tokens(owner_id@).contains(token_id@));
        list.push(token_id.clone());
        assert(str_views(list@) =~= old_self.user_tokens(owner_id@).push(token_id@));
        self.stakes.insert(token_id.clone(), stake);
        self.user_stakes.insert(owner_id.clone(), list);
        self.total_staked = self.total_staked + 1;
        proof {
            let ot = old_self.user_tokens(owner_id@);
            assert(self.stakes.entries@.drop_last() =~= old_self.stakes.entries@);
            assert forall|t: Seq<char>| #[trigger] self.stakes@.contains_key(t) implies self.user_stakes@.contains_key(
                self.stakes@[t].owner_id@,
            ) && self.user_tokens(self.stakes@[t].owner_id@).contains(t) by {
                if t == token_id@ {
                    assert(self.user_tokens(owner_id@)[ot.len() as int] == t);
                } else {
                    assert(old_self.stakes@.contains_key(t));
                    let o = old_self.stakes@[t].owner_id@;
                    assert(old_self.user_tokens(o).contains(t));
                    if o == owner_id@ {
                        let w = choose|w: int| 0 <= w < ot.len() && ot[w] == t;
                        assert(self.user_tokens(owner_id@)[w] == t);
                    }
                }
            }
            assert forall|o: Seq<char>, t: Seq<char>| #[trigger]
                self.user_tokens(o).contains(t) implies self.stakes@.contains_key(t)
                && self.stakes@[t].owner_id@ == o by {
                if o == owner_id@ {
                    let nt = self.user_tokens(o);
                    let w = choose|w: int| 0 <= w < nt.len() && nt[w] == t;
                    if w < ot.len() {
                        assert(ot[w] == t);
                        assert(old_self.user_tokens(o).contains(t));
                    }
                } else {
                    assert(old_self.user_tokens(o).contains(t));
                }
            }
            assert forall|o: Seq<char>| #[trigger] self.user_tokens(o).no_duplicates() by {
                if o != owner_id@ {
                    assert(old_self.user_tokens(o).no_duplicates());
                } else {
                    assert(ot.no_duplicates());
                    let nt = self.user_tokens(o);
                    assert forall|a: int, b: int|
                        0 <= a < nt.len() && 0 <= b < nt.len() && a != b implies nt[a] != nt[b] by {
                        if a < ot.len() && b < ot.len() {
                            assert(nt[a] == ot[a] && nt[b] == ot[b]);
                        } else if a < ot.len() {
                            assert(ot.contains(nt[a]));
                        } else {
                            assert(ot.contains(nt[b]));
                        }
                    }
                }
            }
        }
        Ok(StakeEvent::Stake(StakeData { owner_id, token_id, lock_duration }))
    }
}

impl StakingContract {
    /// The NFT contract (`caller`) reports that `token_id` was transferred here with `msg`
    /// `"{lock_duration}:{owner_id}"`. Records the stake and gives the stake event to log; the
    /// callback then answers `true`.
    pub fn nft_on_transfer(
        &mut self,
        caller: &String,
        sender_id: String,
        previous_owner_id: String,
        token_id: TokenId,
        msg: String,
        block_timestamp: u64,
    ) -> (r: StakingResult<StakeEvent>)
        requires
            old(self).wf(),
        ensures
            final(self).wf(),
            old(self).on_transfer_outcome(
                final(self),
                r,
                caller@,
                token_id@,
                msg@,
                block_timestamp,
            ),
    {
        let parts = split_on(msg.as_str(), ':');
        proof {
            lemma_split_nonempty(msg@, ':');
        }
        assert(parts@[0]@ == split_at_sep(msg@, ':')[0]);
        let lock_duration: u64 = match parse_decimal_u64(parts[0].as_str()) {
            Some(v) => v,
            None => 0,
        };
        if parts.len() < 2 {
            return Err(StakingError::MissingOwner);
        }
        assert(parts@[1]@ == split_at_sep(msg@, ':')[1]);
        let owner_id = match account_id_from_str(parts[1].as_str()) {
            Some(a) => a,
            None => {
                return Err(StakingError::InvalidOwner);
            },
        };
        self.record_stake(owner_id, token_id, caller.clone(), lock_duration, block_timestamp)
    }

    /// `new` is this state after processing `owner`'s rewards at this time and removing the
    /// stake of `token`, which leaves `owner`'s list and moves the last stake into its place.
    pub open spec fn unstaked(
        &self,
        new: &StakingContract,
        owner: Seq<char>,
        token: Seq<char>,
        block_timestamp: u64,
    ) -> bool {
        let es = self.stakes_after(owner, block_timestamp);
        &&& new.stakes.entries@ == swap_removed(es, key_pos(es, token))
        &&& new.stakes@ == entries_map(es).remove(token)
        &&& new.user_stakes@ == self.user_stakes@.insert(owner, new.user_stakes@[owner])
        &&& new.user_tokens(owner) == without(self.user_tokens(owner), token)
        &&& new.total_staked == self.total_staked - 1
        &&& new.epoch_rewards@ == self.rewards_after(owner, block_timestamp)
        &&& new.last_epoch_update == self.epoch_update_after(owner, block_timestamp)
        &&& new.owner_id == self.owner_id
        &&& new.reward_token == self.reward_token
        &&& new.reward_pool == self.reward_pool
        &&& new.epoch_duration == self.epoch_duration
        &&& new.duration_multipliers == self.duration_multipliers
        &&& new.tier_bonuses == self.tier_bonuses
    }

    /// The staker takes back `token_id` once its rewards are claimed: the caller's rewards are
    /// processed, the stake removed, and the NFT sent back to the caller.
    pub fn unstake(&mut self, caller: &String, token_id: TokenId, block_timestamp: u64) -> (r:
        StakingResult<PromiseAction>)
        requires
            old(self).wf(),
        ensures
            r is Ok <==> old(self).stakes@.contains_key(token_id@)
                && old(self).stakes@[token_id@].owner_id@ == caller@ && !old(self).stakes@[token_id@].active
                && !old(self).process_fails(caller@, block_timestamp),
            final(self).wf(),
            !old(self).stakes@.contains_key(token_id@) ==> r == Err::<PromiseAction, StakingError>(
                StakingError::StakeNotFound,
            ),
            old(self).stakes@.contains_key(token_id@) && old(self).stakes@[token_id@].owner_id@
                != caller@ ==> r == Err::<PromiseAction, StakingError>(StakingError::NotYourStake),
            old(self).stakes@.contains_key(token_id@) && old(self).stakes@[token_id@].owner_id@
                == caller@ && old(self).stakes@[token_id@].active ==> r == Err::<
                PromiseAction,
                StakingError,
            >(StakingError::MustClaimFirst),
            old(self).stakes@.contains_key(token_id@) && old(self).stakes@[token_id@].owner_id@
                == caller@ && !old(self).stakes@[token_id@].active && old(self).process_fails(
                caller@,
                block_timestamp,
            ) ==> r == Err::<PromiseAction, StakingError>(StakingError::ArithmeticOverflow),
            r is Err ==> *final(self) == *old(self),
            r is Ok ==> old(self).unstaked(final(self), caller@, token_id@, block_timestamp),
            r matches Ok(a) ==> a == (PromiseAction::NftTransfer {
                nft_contract_id: old(self).stakes@[token_id@].nft_contract_id,
                receiver_id: *caller,
                token_id: token_id,
                deposit: ONE_YOCTO,
                gas: GAS_FOR_RESOLVE_TRANSFER,
            }),
    {
        let nft_contract_id = match self.stakes.get(&token_id) {
            None => {
                return Err(StakingError::StakeNotFound);
            },
            Some(stake) => {
                if stake.owner_id != *caller {
                    return Err(StakingError::NotYourStake);
                }
                if stake.active {
                    return Err(StakingError::MustClaimFirst);
                }
                stake.nft_contract_id.clone()
            },
        };
        let ghost orig = *self;
        self.process_rewards(caller, block_timestamp)?;
        let ghost mid = *self;
        proof {
            crate::rewards::lemma_only_claims_differ(mid.stakes.entries@, orig.stakes.entries@);
            assert(mid.stakes@.contains_key(token_id@));
            assert(mid.stakes@[token_id@].owner_id@ == caller@);
            assert(mid.user_stakes@.contains_key(caller@));
            assert(mid.user_tokens(caller@).contains(token_id@));
        }
        self.stakes.remove(&token_id);
        let items: Vec<String> = match self.user_stakes.get(caller) {
            Some(v) => strings_without(v, &token_id),
            None => Vec::new(),
        };
        let ghost ot = mid.user_tokens(caller@);
        proof {
            lemma_without_len_le(ot, token_id@);
            lemma_without_no_dups(ot, token_id@);
        }
        self.user_stakes.insert(caller.clone(), items);
        self.total_staked = self.total_staked - 1;
        proof {
            assert forall|t: Seq<char>| #[trigger] self.stakes@.contains_key(t) implies self.user_stakes@.contains_key(
                self.stakes@[t].owner_id@,
            ) && self.user_tokens(self.stakes@[t].owner_id@).contains(t) by {
                assert(mid.stakes@.contains_key(t));
                let o = mid.stakes@[t].owner_id@;
                assert(mid.user_tokens(o).contains(t));
                if o == caller@ {
                    lemma_without_contains(ot, token_id@, t);
                }
            }
            assert forall|o: Seq<char>, t: Seq<char>| #[trigger]
                self.user_tokens(o).contains(t) implies self.stakes@.contains_key(t)
                && self.stakes@[t].owner_id@ == o by {
                if o == caller@ {
                    lemma_without_contains(ot, token_id@, t);
                    assert(mid.user_tokens(o).contains(t));
                } else {
                    assert(mid.user_tokens(o).contains(t));
                    assert(mid.stakes@[t].owner_id@ == o);
                }
            }
            assert forall|o: Seq<char>| #[trigger] self.user_tokens(o).no_duplicates() by {
                if o != caller@ {
                    assert(mid.user_tokens(o).no_duplicates());
                }
            }
        }
        Ok(
            PromiseAction::NftTransfer {
                nft_contract_id,
                receiver_id: caller.clone(),
                token_id,
                deposit: ONE_YOCTO,
                gas: GAS_FOR_RESOLVE_TRANSFER,
            },
        )
    }

    /// The caller claims its rewards: they are processed, and its whole balance of processed
    /// rewards is paid out of the pool, set back to zero, and logged.
    pub fn claim(&mut self, caller: &String, block_timestamp: u64) -> (r: StakingResult<
        (PromiseAction, StakeEvent),
    >)
        requires
            old(self).wf(),
        ensures
            final(self).wf(),
            r is Ok <==> !old(self).process_fails(caller@, block_timestamp) && 0 < old(
                self,
            ).claim_balance(caller@, block_timestamp) <= old(self).reward_pool,
            old(self).process_fails(caller@, block_timestamp) ==> r == Err::<
                (PromiseAction, StakeEvent),
                StakingError,
            >(StakingError::ArithmeticOverflow),
            !old(self).process_fails(caller@, block_timestamp) && old(self).claim_balance(
                caller@,
                block_timestamp,
            ) == 0 ==> r == Err::<(PromiseAction, StakeEvent), StakingError>(
                StakingError::NoRewardsToClaim,
            ),
            !old(self).process_fails(caller@, block_timestamp) && old(self).claim_balance(
                caller@,
                block_timestamp,
            ) > old(self).reward_pool ==> r == Err::<(PromiseAction, StakeEvent), StakingError>(
                StakingError::ArithmeticOverflow,
            ),
            r is Err ==> *final(self) == *old(self),
            r matches Ok(p) ==> p.0 == (PromiseAction::Transfer {
                receiver_id: *caller,
                amount: old(self).claim_balance(caller@, block_timestamp) as u128,
            }) && p.1 == StakeEvent::Claim(
                ClaimData {
                    owner_id: *caller,
                    amount: old(self).claim_balance(caller@, block_timestamp) as u128,
                },
            ),
            r is Ok ==> {
                &&& final(self).keeps_settings(old(self))
                &&& final(self).reward_pool == old(self).reward_pool - old(self).claim_balance(
                    caller@,
                    block_timestamp,
                )
                &&& final(self).stakes.entries@ == old(self).stakes_after(caller@, block_timestamp)
                &&& final(self).epoch_rewards@ == old(self).rewards_after(
                    caller@,
                    block_timestamp,
                ).insert(caller@, 0)
                &&& final(self).last_epoch_update == old(self).epoch_update_after(
                    caller@,
                    block_timestamp,
                )
            },
    {
        let cur = self.to_epoch(block_timestamp / NANOS_PER_SEC);
        let plan = self.plan_processing(caller, block_timestamp)?;
        let prev: u128 = match self.epoch_rewards.get(caller) {
            Some(v) => *v,
            None => 0,
        };
        let balance: u128;
        match plan {
            None => {
                if prev == 0 {
                    return Err(StakingError::NoRewardsToClaim);
                }
                if prev > self.reward_pool {
                    return Err(StakingError::ArithmeticOverflow);
                }
                balance = prev;
            },
            Some((work, total)) => {
                let new_total = if total > 0 {
                    match prev.checked_add(total) {
                        Some(x) => x,
                        None => {
                            return Err(StakingError::ArithmeticOverflow);
                        },
                    }
                } else {
                    prev
                };
                if new_total == 0 {
                    return Err(StakingError::NoRewardsToClaim);
                }
                if new_total > self.reward_pool {
                    return Err(StakingError::ArithmeticOverflow);
                }
                self.commit_processing(caller, work, total, new_total, cur);
                balance = new_total;
            },
        }
        let ghost before = *self;
        self.epoch_rewards.insert(caller.clone(), 0);
        self.reward_pool = self.reward_pool - balance;
        proof {
            lemma_wf_same_registry(before, *self);
        }
        Ok(
            (
                PromiseAction::Transfer { receiver_id: caller.clone(), amount: balance },
                StakeEvent::Claim(ClaimData { owner_id: caller.clone(), amount: balance }),
            ),
        )
    }
}

/// The invariant depends only on the stakes, the owner lists, the stake count and the epoch
/// length, besides well-formed processed rewards.
pub proof fn lemma_wf_same_registry(a: StakingContract, b: StakingContract)
    requires
        a.wf(),
        a.stakes == b.stakes,
        a.user_stakes == b.user_stakes,
        b.epoch_rewards.wf(),
        a.total_staked == b.total_staked,
        b.epoch_duration >= MIN_EPOCH_SECS,
    ensures
        b.wf(),
{
    assert forall|t: Seq<char>| #[trigger] b.stakes@.contains_key(t) implies b.user_stakes@.contains_key(
        b.stakes@[t].owner_id@,
    ) && b.user_tokens(b.stakes@[t].owner_id@).contains(t) by {
        assert(a.stakes@.contains_key(t));
    }
    assert forall|o: Seq<char>, t: Seq<char>| #[trigger]
        b.user_tokens(o).contains(t) implies b.stakes@.contains_key(t) && b.stakes@[t].owner_id@
        == o by {
        assert(a.user_tokens(o).contains(t));
    }
    assert forall|o: Seq<char>| #[trigger] b.user_tokens(o).no_duplicates() by {
        assert(a.user_tokens(o).no_duplicates());
    }
}

/// The message that `stake` sends along is read back by `nft_on_transfer`: the NFT contract's
/// callback records the stake of the staker for the duration that was asked for.
pub proof fn lemma_stake_message_records_stake(
    c: StakingContract,
    new: StakingContract,
    r: StakingResult<StakeEvent>,
    nft_contract: Seq<char>,
    token: Seq<char>,
    owner: Seq<char>,
    duration: u64,
    block_timestamp: u64,
)
    requires
        is_account_id(owner),
    ensures
        c.on_transfer_outcome(&new, r, nft_contract, token, lock_msg(duration, owner), block_timestamp)
            == c.record_outcome(&new, r, owner, token, nft_contract, duration, block_timestamp),
{
    lemma_account_chars_no_colon(owner);
    lemma_lock_msg_roundtrip(duration, owner);
}

} // verus!
