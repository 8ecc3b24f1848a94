//! NFT staking: the verified state machines of two NFT staking contracts.
//!
//! `Contract` (this file) splits a reward pool among the owners of locked stakes once per
//! epoch. `contract::StakingContract` weighs stakes by lock duration and by how many NFTs
//! their owner has staked. Both take what the chain supplies (the caller, the block time,
//! the attached deposit) as arguments and return the calls to make as `PromiseAction`s.

pub mod contract;
pub mod admin;
pub mod events;
pub mod lists;
pub mod promise;
pub mod rewards;
pub mod strmap;
pub mod text;
pub mod views;
pub mod weights;

use vstd::prelude::*;
use crate::lists::{
    copy_strings, strings_without, without, lemma_without_contains, lemma_without_no_dups,
    lemma_without_len, lemma_without_len_le,
};
use crate::promise::{PromiseAction, ONE_YOCTO, NFT_CALL_GAS};
use crate::strmap::StrMap;
use crate::text::{
    account_id_from_str, is_account_id, format_lock_msg, is_account_char, lock_msg,
    parse_decimal_u64, parse_u64_spec, split_at_sep, split_on, str_views,
    lemma_account_chars_no_colon, lemma_lock_msg_roundtrip, lemma_split_nonempty,
};

verus! {

pub type TokenId = String;

/// Lock period of ten days, in seconds.
pub const LOCK_10D: u64 = 864_000;

/// Lock period of twenty days, in seconds.
pub const LOCK_20D: u64 = 1_728_000;

/// Lock period of thirty days, in seconds.
pub const LOCK_30D: u64 = 2_592_000;

/// Nanoseconds in a second: block timestamps count nanoseconds.
pub const NANOS_PER_SEC: u64 = 1_000_000_000;

/// Nanoseconds in a day.
pub const NANOS_PER_DAY: u64 = 86_400_000_000_000;

/// The shortest epoch an owner may set, in seconds.
pub const MIN_EPOCH_SECS: u64 = 3600;

/// Block time in whole seconds.
pub open spec fn secs(block_timestamp: u64) -> u64 {
    block_timestamp / NANOS_PER_SEC
}

/// One of the three lock periods that `Contract` accepts.
pub open spec fn is_lock_period(d: u64) -> bool {
    d == LOCK_10D || d == LOCK_20D || d == LOCK_30D
}

/// The tokens listed for `o` in a map of token lists, empty where `o` has no list.
pub open spec fn tokens_of(m: Map<Seq<char>, Vec<String>>, o: Seq<char>) -> Seq<Seq<char>> {
    if m.contains_key(o) {
        str_views(m[o]@)
    } else {
        Seq::empty()
    }
}

/// A staked NFT.
#[derive(Debug)]
pub struct Stake {
    pub owner_id: String,
    pub token_id: TokenId,
    pub nft_contract: String,
    pub staked_at: u64,
    pub lock_duration: u64,
    pub unlocked_at: u64,
    pub last_epoch: u64,
}

impl Stake {
    /// A field-by-field copy.
    pub fn copy(&self) -> (r: Stake)
        ensures
            r == *self,
    {
        Stake {
            owner_id: self.owner_id.clone(),
            token_id: self.token_id.clone(),
            nft_contract: self.nft_contract.clone(),
            staked_at: self.staked_at,
            lock_duration: self.lock_duration,
            unlocked_at: self.unlocked_at,
            last_epoch: self.last_epoch,
        }
    }

    /// The view that `get_stake` and `get_user_stakes` give of this stake at time `now`.
    pub open spec fn view_at(self, now: u64) -> StakeView {
        StakeView {
            owner_id: self.owner_id,
            token_id: self.token_id,
            nft_contract_id: self.nft_contract,
            staked_at: self.staked_at,
            lock_duration: self.lock_duration,
            unlocked_at: self.unlocked_at,
            active: self.unlocked_at > now,
        }
    }
}

/// A stake as the view methods report it: `active` while its lock has not ended.
#[derive(Debug)]
pub struct StakeView {
    pub owner_id: String,
    pub token_id: TokenId,
    pub nft_contract_id: String,
    pub staked_at: u64,
    pub lock_duration: u64,
    pub unlocked_at: u64,
    pub active: bool,
}

/// The contract's settings and totals.
#[derive(Debug)]
pub struct Metadata {
    pub owner_id: String,
    pub total_staked: u64,
    pub reward_pool: u128,
    pub epoch_duration: u64,
}

/// Why a `Contract` method fails; the transaction then fails and changes nothing.
#[derive(Debug, Clone, Copy, PartialEq, Eq, Structural)]
pub enum ContractError {
    /// The caller is not the contract owner.
    OwnerOnly,
    /// The reward pool holds less than was asked for.
    NotEnough,
    /// An epoch shorter than one hour was asked for.
    EpochTooShort,
    /// No stake of that token.
    NotFound,
    /// The stake belongs to someone else.
    NotYours,
    /// The caller has no rewards to claim.
    NoRewards,
    /// A token list is full.
    IndexOutOfBounds,
    /// An amount does not fit in its integer type.
    ArithmeticOverflow,
}

impl ContractError {
    /// The panic message the contract fails with.
    pub fn message(&self) -> (m: &'static str)
        ensures
            m@ == match *self {
                ContractError::OwnerOnly => "owner only"@,
                ContractError::NotEnough => "not enough"@,
                ContractError::EpochTooShort => "min 1h"@,
                ContractError::NotFound => "not found"@,
                ContractError::NotYours => "not yours"@,
                ContractError::NoRewards => "no rewards"@,
                ContractError::IndexOutOfBounds => "Index out of bounds"@,
                ContractError::ArithmeticOverflow => "arithmetic operation overflowed"@,
            },
    {
        match self {
            ContractError::OwnerOnly => "owner only",
            ContractError::NotEnough => "not enough",
            ContractError::EpochTooShort => "min 1h",
            ContractError::NotFound => "not found",
            ContractError::NotYours => "not yours",
            ContractError::NoRewards => "no rewards",
            ContractError::IndexOutOfBounds => "Index out of bounds",
            ContractError::ArithmeticOverflow => "arithmetic operation overflowed",
        }
    }
}

/// The outcome of a `Contract` method.
pub type ContractResult<T> = Result<T, ContractError>;

/// The contract state.
pub struct Contract {
    pub owner_id: String,
    /// Stakes by token id.
    pub stakes: StrMap<Stake>,
    /// Token lists by owner account.
    pub user_stakes: StrMap<Vec<String>>,
    /// Every staked token, in staking order.
    pub all_stakes: Vec<String>,
    pub total_staked: u64,
    pub reward_pool: u128,
    /// Epoch length in seconds.
    pub epoch_duration: u64,
    /// The epoch up to which rewards have been accrued.
    pub last_update: u64,
    /// Accrued, unclaimed rewards by owner account.
    pub pending: StrMap<u128>,
}

impl Contract {
    /// The invariant every method keeps: unique keys, an epoch of at least an hour, `all_stakes`
    /// listing each staked token once, each stake stored under its own token id, `total_staked`
    /// counting them, and token lists that fit a `u32` length.
    pub open spec fn wf(&self) -> bool {
        &&& self.stakes.wf()
        &&& self.user_stakes.wf()
        &&& self.pending.wf()
        &&& self.epoch_duration >= MIN_EPOCH_SECS
        &&& self.all_tokens().no_duplicates()
        &&& forall|t: Seq<char>| #[trigger]
            self.stakes@.contains_key(t) <==> self.all_tokens().contains(t)
        &&& forall|t: Seq<char>| #[trigger]
            self.stakes@.contains_key(t) ==> self.stakes@[t].token_id@ == t
        &&& self.total_staked == self.all_stakes@.len()
        &&& self.all_stakes@.len() <= u32::MAX
        &&& forall|o: Seq<char>| #[trigger]
            self.user_stakes@.contains_key(o) ==> self.user_stakes@[o]@.len() <= u32::MAX
    }

    /// Every staked token, in staking order.
    pub open spec fn all_tokens(&self) -> Seq<Seq<char>> {
        str_views(self.all_stakes@)
    }

    /// The tokens listed for owner `o`.
    pub open spec fn user_tokens(&self, o: Seq<char>) -> Seq<Seq<char>> {
        tokens_of(self.user_stakes@, o)
    }

    /// The rewards pending for `o`, zero where none were recorded.
    pub open spec fn pending_of(&self, o: Seq<char>) -> u128 {
        if self.pending@.contains_key(o) {
            self.pending@[o]
        } else {
            0
        }
    }

    /// The epoch that block time `block_timestamp` falls in.
    pub open spec fn epoch_at(&self, block_timestamp: u64) -> u64 {
        secs(block_timestamp) / self.epoch_duration
    }

    /// The fields that reward accrual and claiming leave alone are those of `other`.
    pub open spec fn same_stakes_as(&self, other: &Contract) -> bool {
        &&& self.owner_id == other.owner_id
        &&& self.stakes == other.stakes
        &&& self.user_stakes == other.user_stakes
        &&& self.all_stakes == other.all_stakes
        &&& self.total_staked == other.total_staked
        &&& self.epoch_duration == other.epoch_duration
    }

    // ---- Reward accrual ----
    /// How many tokens `o` has listed; the share of the pool scales with it.
    pub open spec fn owner_count(&self, o: Seq<char>) -> int {
        self.user_tokens(o).len() as int
    }

    /// The share of the pool that an epoch adds for owner `o`.
    pub open spec fn share_of(&self, o: Seq<char>) -> int {
        (self.reward_pool * self.owner_count(o)) / (self.total_staked as int)
    }

    /// What accrual sets `o`'s pending rewards to.
    pub open spec fn accrual_amount(&self, o: Seq<char>) -> int {
        self.pending_of(o) + self.share_of(o)
    }

    /// Staked token `t` earns rewards at time `now`: its lock runs and its owner has a list.
    pub open spec fn qualifies(&self, t: Seq<char>, now: u64) -> bool {
        &&& self.stakes@.contains_key(t)
        &&& self.stakes@[t].unlocked_at > now
        &&& self.owner_count(self.stakes@[t].owner_id@) > 0
    }

    /// Accruing for token `t` overflows a `u128`.
    pub open spec fn overflows_at(&self, t: Seq<char>) -> bool {
        let o = self.stakes@[t].owner_id@;
        ||| self.reward_pool * self.owner_count(o) > u128::MAX
        ||| (self.share_of(o) > 0 && self.accrual_amount(o) > u128::MAX)
    }

    /// Owner `o` earns from one of the first `n` tokens of `all_stakes`.
    pub open spec fn rewarded_upto(&self, o: Seq<char>, now: u64, n: int) -> bool {
        exists|i: int|
            0 <= i < n && self.qualifies(#[trigger] self.all_tokens()[i], now)
                && self.stakes@[self.all_tokens()[i]].owner_id@ == o && self.share_of(o) > 0
    }

    /// Owner `o` earns in this accrual.
    pub open spec fn rewarded(&self, o: Seq<char>, now: u64) -> bool {
        self.rewarded_upto(o, now, self.all_stakes@.len() as int)
    }

    /// Accrual overflows on one of the first `n` tokens of `all_stakes`.
    pub open spec fn overflow_upto(&self, now: u64, n: int) -> bool {
        exists|i: int|
            0 <= i < n && self.qualifies(#[trigger] self.all_tokens()[i], now)
                && self.overflows_at(self.all_tokens()[i])
    }

    /// A new epoch has begun and there is something to share.
    pub open spec fn accrues(&self, block_timestamp: u64) -> bool {
        &&& self.epoch_at(block_timestamp) > self.last_update
        &&& self.total_staked > 0
        &&& self.reward_pool > 0
    }

    /// Accrual at this time fails with an overflow.
    pub open spec fn accrual_fails(&self, block_timestamp: u64) -> bool {
        self.accrues(block_timestamp) && self.overflow_upto(
            secs(block_timestamp),
            self.all_stakes@.len() as int,
        )
    }

    /// Owner `o` gets new pending rewards from accrual at this time.
    pub open spec fn gains(&self, o: Seq<char>, block_timestamp: u64) -> bool {
        self.accrues(block_timestamp) && self.rewarded(o, secs(block_timestamp))
    }

    /// The pending rewards of `o` after accrual at this time.
    pub open spec fn pending_after(&self, o: Seq<char>, block_timestamp: u64) -> int {
        if self.gains(o, block_timestamp) {
            self.accrual_amount(o)
        } else {
            self.pending_of(o) as int
        }
    }

    /// The epoch recorded after accrual at this time.
    pub open spec fn last_update_after(&self, block_timestamp: u64) -> u64 {
        if self.epoch_at(block_timestamp) > self.last_update {
            self.epoch_at(block_timestamp)
        } else {
            self.last_update
        }
    }

    /// `new` is this state after a successful accrual at this time.
    pub open spec fn accrued(&self, new: &Contract, block_timestamp: u64) -> bool {
        &&& new.same_stakes_as(self)
        &&& new.reward_pool == self.reward_pool
        &&& new.last_update == self.last_update_after(block_timestamp)
        &&& forall|o: Seq<char>| #[trigger]
            new.pending@.contains_key(o) == (self.pending@.contains_key(o) || self.gains(
                o,
                block_timestamp,
            ))
        &&& forall|o: Seq<char>| #[trigger]
            new.pending@.contains_key(o) ==> new.pending@[o] == self.pending_after(
                o,
                block_timestamp,
            )
    }

    // ---- Staking ----
    /// `new` is this state with `token` staked by `owner` through `nft_contract` for `duration`
    /// seconds at block time `block_timestamp`, listed last for `owner` and in `all_stakes`.
    pub open spec fn staked(
        &self,
        new: &Contract,
        owner: Seq<char>,
        token: Seq<char>,
        nft_contract: Seq<char>,
        duration: u64,
        block_timestamp: u64,
    ) -> bool {
        let now = secs(block_timestamp);
        &&& new.stakes@ == self.stakes@.insert(token, new.stakes@[token])
        &&& new.stakes@[token].owner_id@ == owner
        &&& new.stakes@[token].token_id@ == token
        &&& new.stakes@[token].nft_contract@ == nft_contract
        &&& new.stakes@[token].staked_at == now
        &&& new.stakes@[token].lock_duration == duration
        &&& new.stakes@[token].unlocked_at == now + duration
        &&& new.stakes@[token].last_epoch == 0
        &&& new.user_stakes@ == self.user_stakes@.insert(owner, new.user_stakes@[owner])
        &&& new.user_tokens(owner) == self.user_tokens(owner).push(token)
        &&& new.all_tokens() == self.all_tokens().push(token)
        &&& new.total_staked == self.total_staked + 1
        &&& new.owner_id == self.owner_id
        &&& new.reward_pool == self.reward_pool
        &&& new.epoch_duration == self.epoch_duration
        &&& new.last_update == self.last_update
        &&& new.pending == self.pending
    }

    /// `new` is this state with the stake of an already staked `token` overwritten by a stake of
    /// `owner`, while the token lists stay as they were.
    pub open spec fn restaked(
        &self,
        new: &Contract,
        owner: Seq<char>,
        token: Seq<char>,
        nft_contract: Seq<char>,
        duration: u64,
        block_timestamp: u64,
    ) -> bool {
        let now = secs(block_timestamp);
        &&& new.stakes@ == self.stakes@.insert(token, new.stakes@[token])
        &&& new.stakes@[token].owner_id@ == owner
        &&& new.stakes@[token].token_id@ == token
        &&& new.stakes@[token].nft_contract@ == nft_contract
        &&& new.stakes@[token].staked_at == now
        &&& new.stakes@[token].lock_duration == duration
        &&& new.stakes@[token].unlocked_at == now + duration
        &&& new.stakes@[token].last_epoch == 0
        &&& new.owner_id == self.owner_id
        &&& new.user_stakes == self.user_stakes
        &&& new.all_stakes == self.all_stakes
        &&& new.total_staked == self.total_staked
        &&& new.reward_pool == self.reward_pool
        &&& new.epoch_duration == self.epoch_duration
        &&& new.last_update == self.last_update
        &&& new.pending == self.pending
    }

    /// What recording a stake does: on a new token `Ok(true)` and `staked`, unless a token list is
    /// full; on a staked token `Ok(false)` and `restaked`.
    pub open spec fn record_outcome(
        &self,
        new: &Contract,
        r: Result<bool, ContractError>,
        owner: Seq<char>,
        token: Seq<char>,
        nft_contract: Seq<char>,
        duration: u64,
        block_timestamp: u64,
    ) -> bool {
        if self.stakes@.contains_key(token) {
            r == Ok::<bool, ContractError>(false) && self.restaked(
                new,
                owner,
                token,
                nft_contract,
                duration,
                block_timestamp,
            )
        } else if self.user_tokens(owner).len() >= u32::MAX || self.all_stakes@.len() >= u32::MAX {
            r == Err::<bool, ContractError>(ContractError::IndexOutOfBounds) && *new == *self
        } else {
            r == Ok::<bool, ContractError>(true) && self.staked(
                new,
                owner,
                token,
                nft_contract,
                duration,
                block_timestamp,
            )
        }
    }

    /// What `nft_on_transfer` does with message `msg`: it answers `false` and changes nothing
    /// unless the message is a lock period and a valid account id joined by one colon.
    pub open spec fn on_transfer_outcome(
        &self,
        new: &Contract,
        r: Result<bool, ContractError>,
        nft_contract: Seq<char>,
        token: Seq<char>,
        msg: Seq<char>,
        block_timestamp: u64,
    ) -> bool {
        let parts = split_at_sep(msg, ':');
        if parts.len() != 2 {
            r == Ok::<bool, ContractError>(false) && *new == *self
        } else {
            match parse_u64_spec(parts[0]) {
                Some(d) => if is_lock_period(d) && is_account_id(parts[1]) {
                    self.record_outcome(new, r, parts[1], token, nft_contract, d, block_timestamp)
                } else {
                    r == Ok::<bool, ContractError>(false) && *new == *self
                },
                None => r == Ok::<bool, ContractError>(false) && *new == *self,
            }
        }
    }

    /// `new` is this state after accrual at this time and the removal of `token`'s stake,
    /// with `token` taken out of `owner`'s list and of `all_stakes`.
    pub open spec fn unstaked(
        &self,
        new: &Contract,
        owner: Seq<char>,
        token: Seq<char>,
        block_timestamp: u64,
    ) -> bool {
        &&& new.stakes@ == self.stakes@.remove(token)
        &&& new.user_stakes@ == self.user_stakes@.insert(owner, new.user_stakes@[owner])
        &&& new.user_tokens(owner) == without(self.user_tokens(owner), token)
        &&& new.all_tokens() == without(self.all_tokens(), token)
        &&& new.total_staked == self.total_staked - 1
        &&& new.owner_id == self.owner_id
        &&& new.reward_pool == self.reward_pool
        &&& new.epoch_duration == self.epoch_duration
        &&& new.last_update == self.last_update_after(block_timestamp)
        &&& forall|o: Seq<char>| #[trigger]
            new.pending@.contains_key(o) == (self.pending@.contains_key(o) || self.gains(
                o,
                block_timestamp,
            ))
        &&& forall|o: Seq<char>| #[trigger]
            new.pending@.contains_key(o) ==> new.pending@[o] == self.pending_after(
                o,
                block_timestamp,
            )
    }

    /// What a claim by `caller` at this time pays out, when accrual does not overflow.
    pub open spec fn claimable(&self, caller: Seq<char>, block_timestamp: u64) -> int {
        self.pending_after(caller, block_timestamp)
    }
}

/// The views of the stakes of `tokens` that exist, in order, at time `now`.
pub open spec fn stake_views(tokens: Seq<Seq<char>>, stakes: Map<Seq<char>, Stake>, now: u64) -> Seq<
    StakeView,
>
    decreases tokens.len(),
{
    if tokens.len() == 0 {
        Seq::empty()
    } else {
        let prev = stake_views(tokens.drop_last(), stakes, now);
        if stakes.contains_key(tokens.last()) {
            prev.push(stakes[tokens.last()].view_at(now))
        } else {
            prev
        }
    }
}

impl Contract {
    /// A fresh contract owned by `owner_id`, created at block time `block_timestamp`: nothing
    /// staked, an empty pool, one-day epochs, and the day number as last accrual epoch.
    pub fn new(owner_id: String, block_timestamp: u64) -> (c: Self)
        ensures
            c.wf(),
            c.owner_id == owner_id,
            c.stakes@ == Map::<Seq<char>, Stake>::empty(),
            c.user_stakes@ == Map::<Seq<char>, Vec<String>>::empty(),
            c.all_stakes@ == Seq::<String>::empty(),
            c.total_staked == 0,
            c.reward_pool == 0,
            c.epoch_duration == 86_400,
            c.last_update == block_timestamp / NANOS_PER_DAY,
            c.pending@ == Map::<Seq<char>, u128>::empty(),
    {
        let c = Contract {
            owner_id,
            stakes: StrMap::new(),
            user_stakes: StrMap::new(),
            all_stakes: Vec::new(),
            total_staked: 0,
            reward_pool: 0,
            epoch_duration: 86_400,
            last_update: block_timestamp / NANOS_PER_DAY,
            pending: StrMap::new(),
        };
        assert(c.all_tokens() =~= Seq::<Seq<char>>::empty());
        c
    }

    fn only_owner(&self, caller: &String) -> (r: Result<(), ContractError>)
        ensures
            r is Ok <==> caller@ == self.owner_id@,
            r is Err ==> r == Err::<(), ContractError>(ContractError::OwnerOnly),
    {
        if *caller == self.owner_id {
            Ok(())
        } else {
            Err(ContractError::OwnerOnly)
        }
    }

    fn cur_epoch(&self, block_timestamp: u64) -> (e: u64)
        requires
            self.wf(),
        ensures
            e == self.epoch_at(block_timestamp),
    {
        (block_timestamp / NANOS_PER_SEC) / self.epoch_duration
    }

    fn is_locked(&self, s: &Stake, block_timestamp: u64) -> (b: bool)
        ensures
            b == (s.unlocked_at > secs(block_timestamp)),
    {
        let now = block_timestamp / NANOS_PER_SEC;
        s.unlocked_at > now
    }

    /// Adds the attached deposit to the reward pool; owner only.
    pub fn deposit_rewards(&mut self, caller: &String, attached_deposit: u128) -> (r: ContractResult<()>)
        requires
            old(self).wf(),
        ensures
            r is Ok <==> caller@ == old(self).owner_id@ && old(self).reward_pool + attached_deposit
                <= u128::MAX,
            final(self).wf(),
            caller@ != old(self).owner_id@ ==> r == Err::<(), ContractError>(
                ContractError::OwnerOnly,
            ),
            caller@ == old(self).owner_id@ && old(self).reward_pool + attached_deposit
                > u128::MAX ==> r == Err::<(), ContractError>(ContractError::ArithmeticOverflow),
            r is Err ==> *final(self) == *old(self),
            r is Ok ==> *final(self) == (Contract {
                reward_pool: (old(self).reward_pool + attached_deposit) as u128,
                ..*old(self)
            }),
    {
        self.only_owner(caller)?;
        match self.reward_pool.checked_add(attached_deposit) {
            Some(p) => {
                self.reward_pool = p;
                Ok(())
            },
            None => Err(ContractError::ArithmeticOverflow),
        }
    }

    /// Takes `amount` out of the reward pool and sends it to the owner; owner only.
    pub fn withdraw_rewards(&mut self, caller: &String, amount: u128) -> (r: ContractResult<PromiseAction>)
        requires
            old(self).wf(),
        ensures
            r is Ok <==> caller@ == old(self).owner_id@ && amount <= old(self).reward_pool,
            final(self).wf(),
            caller@ != old(self).owner_id@ ==> r == Err::<PromiseAction, ContractError>(
                ContractError::OwnerOnly,
            ),
            caller@ == old(self).owner_id@ && amount > old(self).reward_pool ==> r == Err::<
                PromiseAction,
                ContractError,
            >(ContractError::NotEnough),
            r is Err ==> *final(self) == *old(self),
            r is Ok ==> *final(self) == (Contract {
                reward_pool: (old(self).reward_pool - amount) as u128,
                ..*old(self)
            }),
            r matches Ok(a) ==> a == (PromiseAction::Transfer {
                receiver_id: old(self).owner_id,
                amount,
            }),
    {
        self.only_owner(caller)?;
        if amount > self.reward_pool {
            return Err(ContractError::NotEnough);
        }
        self.reward_pool = self.reward_pool - amount;
        Ok(PromiseAction::Transfer { receiver_id: self.owner_id.clone(), amount })
    }

    /// Sets the epoch length, at least one hour; owner only.
    pub fn set_epoch_duration(&mut self, caller: &String, epoch_secs: u64) -> (r: ContractResult<()>)
        requires
            old(self).wf(),
        ensures
            r is Ok <==> caller@ == old(self).owner_id@ && epoch_secs >= MIN_EPOCH_SECS,
            final(self).wf(),
            caller@ != old(self).owner_id@ ==> r == Err::<(), ContractError>(
                ContractError::OwnerOnly,
            ),
            caller@ == old(self).owner_id@ && epoch_secs < MIN_EPOCH_SECS ==> r == Err::<
                (),
                ContractError,
            >(ContractError::EpochTooShort),
            r is Err ==> *final(self) == *old(self),
            r is Ok ==> *final(self) == (Contract { epoch_duration: epoch_secs, ..*old(self) }),
    {
        self.only_owner(caller)?;
        if epoch_secs < MIN_EPOCH_SECS {
            return Err(ContractError::EpochTooShort);
        }
        self.epoch_duration = epoch_secs;
        Ok(())
    }

    /// Asks `nft_contract_id` to transfer `token_id` to this contract (`current_account_id`),
    /// with the lock duration and the caller in the message; the NFT contract then calls
    /// `nft_on_transfer`.
    pub fn stake(
        &self,
        caller: &String,
        nft_contract_id: String,
        token_id: TokenId,
        lock_duration_sec: u64,
        current_account_id: String,
    ) -> (a: PromiseAction)
        ensures
            a matches PromiseAction::NftTransferCall {
                nft_contract_id: n,
                receiver_id: rcv,
                token_id: t,
                msg: m,
                deposit: d,
                gas: g,
            } && n == nft_contract_id && rcv == current_account_id && t == token_id && m@
                == lock_msg(lock_duration_sec, caller@) && d == ONE_YOCTO && g == NFT_CALL_GAS,
    {
        let msg = format_lock_msg(lock_duration_sec, caller.as_str());
        PromiseAction::NftTransferCall {
            nft_contract_id,
            receiver_id: current_account_id,
            token_id,
            msg,
            deposit: ONE_YOCTO,
            gas: NFT_CALL_GAS,
        }
    }
}


/// Some of the first `n` planned entries is for `o`.
pub open spec fn listed(adds: Seq<(String, u128)>, o: Seq<char>, n: int) -> bool {
    exists|k: int| 0 <= k < n && (#[trigger] adds[k]).0@ == o
}

impl Contract {
    /// The pending-reward updates of an accrual: each entry is an owner who earns and the
    /// amount its pending rewards become, and every owner who earns has an entry.
    pub open spec fn accrual_plan_of(&self, adds: Seq<(String, u128)>, block_timestamp: u64) -> bool {
        &&& forall|k: int|
            0 <= k < adds.len() ==> self.rewarded((#[trigger] adds[k]).0@, secs(block_timestamp))
                && adds[k].1 == self.accrual_amount(adds[k].0@)
        &&& forall|o: Seq<char>|
            #[trigger] self.rewarded(o, secs(block_timestamp)) ==> listed(adds, o, adds.len() as int)
    }

    /// Works out the pending-reward updates of an accrual without applying them.
    fn accrual_plan(&self, block_timestamp: u64) -> (r: ContractResult<Vec<(String, u128)>>)
        requires
            self.wf(),
            self.accrues(block_timestamp),
        ensures
            r is Err <==> self.accrual_fails(block_timestamp),
            r is Err ==> r == Err::<Vec<(String, u128)>, ContractError>(
                ContractError::ArithmeticOverflow,
            ),
            r matches Ok(adds) ==> self.accrual_plan_of(adds@, block_timestamp),
    {
        let now = block_timestamp / NANOS_PER_SEC;
        let pool = self.reward_pool;
        let total = self.total_staked as u128;
        let mut adds: Vec<(String, u128)> = Vec::new();
        let mut i: usize = 0;
        while i < self.all_stakes.len()
            invariant
                self.wf(),
                self.accrues(block_timestamp),
                now == secs(block_timestamp),
                pool == self.reward_pool,
                total == self.total_staked,
                i <= self.all_stakes@.len(),
                !self.overflow_upto(now, i as int),
                forall|k: int|
                    0 <= k < adds@.len() ==> self.rewarded_upto(
                        (#[trigger] adds@[k]).0@,
                        now,
                        i as int,
                    ) && adds@[k].1 == self.accrual_amount(adds@[k].0@),
                forall|o: Seq<char>|
                    #[trigger] self.rewarded_upto(o, now, i as int) ==> listed(
                        adds@,
                        o,
                        adds@.len() as int,
                    ),
            decreases self.all_stakes@.len() - i,
        {
            let ghost t = self.all_tokens()[i as int];
            assert(self.all_stakes@[i as int]@ == t);
            let ghost n0 = adds@.len();
            let ghost adds0 = adds@;
            match self.stakes.get(&self.all_stakes[i]) {
                Some(stake) => {
                    if stake.unlocked_at > now {
                        let count: usize = match self.user_stakes.get(&stake.owner_id) {
                            Some(v) => v.len(),
                            None => 0,
                        };
                        assert(count == self.owner_count(stake.owner_id@));
                        if count > 0 {
                            match pool.checked_mul(count as u128) {
                                None => {
                                    assert(self.overflow_upto(now, self.all_stakes@.len() as int));
                                    return Err(ContractError::ArithmeticOverflow);
                                },
                                Some(m) => {
                                    let share = m / total;
                                    assert(share == self.share_of(stake.owner_id@));
                                    if share > 0 {
                                        let prev: u128 = match self.pending.get(&stake.owner_id) {
                                            Some(p) => *p,
                                            None => 0,
                                        };
                                        match prev.checked_add(share) {
                                            None => {
                                                assert(self.overflow_upto(
                                                    now,
                                                    self.all_stakes@.len() as int,
                                                ));
                                                return Err(ContractError::ArithmeticOverflow);
                                            },
                                            Some(a) => {
                                                adds.push((stake.owner_id.clone(), a));
                                                assert(adds@[n0 as int].0@ == stake.owner_id@);
                                            },
                                        }
                                    }
                                },
                            }
                        }
                    }
                },
                None => {},
            }
            proof {
                assert forall|j: int| 0 <= j < i + 1 && self.qualifies(
                    #[trigger] self.all_tokens()[j],
                    now,
                ) implies !self.overflows_at(self.all_tokens()[j]) by {
                    if j < i {
                        assert(!self.overflow_upto(now, i as int));
                    }
                }
                assert forall|k: int| 0 <= k < adds@.len() implies self.rewarded_upto(
                    (#[trigger] adds@[k]).0@,
                    now,
                    i + 1,
                ) && adds@[k].1 == self.accrual_amount(adds@[k].0@) by {
                    if k < n0 {
                        assert(adds@[k] == adds0[k]);
                        assert(self.rewarded_upto(adds0[k].0@, now, i as int));
                        let w = choose|w: int|
                            0 <= w < i && self.qualifies(#[trigger] self.all_tokens()[w], now)
                                && self.stakes@[self.all_tokens()[w]].owner_id@ == adds0[k].0@
                                && self.share_of(adds0[k].0@) > 0;
                        assert(self.all_tokens()[w] == self.all_tokens()[w]);
                    } else {
                        assert(self.all_tokens()[i as int] == t);
                    }
                }
                assert forall|o: Seq<char>| #[trigger]
                    self.rewarded_upto(o, now, i + 1) implies listed(
                    adds@,
                    o,
                    adds@.len() as int,
                ) by {
                    let w = choose|w: int|
                        0 <= w < i + 1 && self.qualifies(#[trigger] self.all_tokens()[w], now)
                            && self.stakes@[self.all_tokens()[w]].owner_id@ == o && self.share_of(o)
                            > 0;
                    if w < i {
                        assert(self.rewarded_upto(o, now, i as int));
                        let k = choose|k: int| 0 <= k < adds0.len() && (#[trigger] adds0[k]).0@ == o;
                        assert(adds@[k] == adds0[k]);
                    } else {
                        assert(adds@[n0 as int].0@ == o);
                    }
                }
            }
            i = i + 1;
        }
        Ok(adds)
    }
}

impl Contract {
    /// Applies the updates of an accrual plan and records the new epoch.
    fn apply_accrual(&mut self, adds: &Vec<(String, u128)>, block_timestamp: u64)
        requires
            old(self).wf(),
            old(self).accrues(block_timestamp),
            old(self).accrual_plan_of(adds@, block_timestamp),
        ensures
            final(self).wf(),
            old(self).accrued(final(self), block_timestamp),
    {
        let ghost orig = *self;
        let cur = self.cur_epoch(block_timestamp);
        let mut j: usize = 0;
        while j < adds.len()
            invariant
                self.wf(),
                self.same_stakes_as(&orig),
                self.reward_pool == orig.reward_pool,
                self.last_update == orig.last_update,
                orig.wf(),
                orig.accrues(block_timestamp),
                orig.accrual_plan_of(adds@, block_timestamp),
                cur == orig.epoch_at(block_timestamp),
                j <= adds@.len(),
                forall|o: Seq<char>| #[trigger]
                    self.pending@.contains_key(o) == (orig.pending@.contains_key(o) || listed(
                        adds@,
                        o,
                        j as int,
                    )),
                forall|o: Seq<char>| #[trigger]
                    self.pending@.contains_key(o) ==> self.pending@[o] == (if listed(
                        adds@,
                        o,
                        j as int,
                    ) {
                        orig.accrual_amount(o)
                    } else {
                        orig.pending@[o] as int
                    }),
            decreases adds@.len() - j,
        {
            let ghost e = adds@[j as int];
            let k = adds[j].0.clone();
            let a = adds[j].1;
            assert(a == orig.accrual_amount(e.0@));
            self.pending.insert(k, a);
            proof {
                assert forall|o: Seq<char>| #[trigger]
                    listed(adds@, o, j + 1) == (listed(adds@, o, j as int) || o == e.0@) by {
                    if listed(adds@, o, j + 1) {
                        let w = choose|w: int| 0 <= w < j + 1 && (#[trigger] adds@[w]).0@ == o;
                        if w < j {
                            assert(listed(adds@, o, j as int));
                        }
                    }
                    if listed(adds@, o, j as int) {
                        let w = choose|w: int| 0 <= w < j && (#[trigger] adds@[w]).0@ == o;
                        assert(adds@[w].0@ == o);
                    }
                    if o == e.0@ {
                        assert(adds@[j as int].0@ == o);
                    }
                }
            }
            j = j + 1;
        }
        self.last_update = cur;
        proof {
            assert forall|o: Seq<char>| #[trigger]
                listed(adds@, o, adds@.len() as int) == orig.gains(o, block_timestamp) by {
                if listed(adds@, o, adds@.len() as int) {
                    let w = choose|w: int| 0 <= w < adds@.len() && (#[trigger] adds@[w]).0@ == o;
                    assert(orig.rewarded(adds@[w].0@, secs(block_timestamp)));
                }
                if orig.gains(o, block_timestamp) {
                    assert(orig.rewarded(o, secs(block_timestamp)));
                }
            }
        }
    }

    /// Accrues the rewards of the epochs since the last accrual: when a new epoch has begun and
    /// there is something to share, each owner with a locked stake and a token list gets
    /// `pool * count / total_staked` added to its pending rewards, once.
    fn calc_rewards(&mut self, block_timestamp: u64) -> (r: ContractResult<()>)
        requires
            old(self).wf(),
        ensures
            final(self).wf(),
            r is Err <==> old(self).accrual_fails(block_timestamp),
            r is Err ==> r == Err::<(), ContractError>(ContractError::ArithmeticOverflow),
            r is Err ==> *final(self) == *old(self),
            r is Ok ==> old(self).accrued(final(self), block_timestamp),
    {
        let cur = self.cur_epoch(block_timestamp);
        if cur <= self.last_update {
            return Ok(());
        }
        if self.total_staked == 0 || self.reward_pool == 0 {
            self.last_update = cur;
            return Ok(());
        }
        let adds = self.accrual_plan(block_timestamp)?;
        self.apply_accrual(&adds, block_timestamp);
        Ok(())
    }
}

impl Contract {
    /// Records that `owner_id` staked `token_id` of `nft_contract` for `lock_duration` seconds:
    /// a new token is listed last for its owner and in `all_stakes` and answers `true`; a token
    /// already staked has its stake overwritten, its lists left alone, and answers `false`.
    pub fn record_stake(
        &mut self,
        owner_id: String,
        token_id: TokenId,
        nft_contract: String,
        lock_duration: u64,
        block_timestamp: u64,
    ) -> (r: ContractResult<bool>)
        requires
            old(self).wf(),
            secs(block_timestamp) + lock_duration <= u64::MAX,
        ensures
            final(self).wf(),
            old(self).record_outcome(
                final(self),
                r,
                owner_id@,
                token_id@,
                nft_contract@,
                lock_duration,
                block_timestamp,
            ),
    {
        let now = block_timestamp / NANOS_PER_SEC;
        let stake = Stake {
            owner_id: owner_id.clone(),
            token_id: token_id.clone(),
            nft_contract,
            staked_at: now,
            lock_duration,
            unlocked_at: now + lock_duration,
            last_epoch: 0,
        };
        if self.stakes.contains_key(&token_id) {
            self.stakes.insert(token_id, stake);
            return Ok(false);
        }
        let mut list: Vec<String> = match self.user_stakes.get(&owner_id) {
            Some(v) => copy_strings(v),
            None => Vec::new(),
        };
        assert(str_views(list@) == self.user_tokens(owner_id@));
        if list.len() >= 4_294_967_295usize || self.all_stakes.len() >= 4_294_967_295usize {
            return Err(ContractError::IndexOutOfBounds);
        }
        let ghost old_all = self.all_tokens();
        list.push(token_id.clone());
        assert(str_views(list@) =~= self.user_tokens(owner_id@).push(token_id@));
        self.stakes.insert(token_id.clone(), stake);
        self.user_stakes.insert(owner_id, list);
        self.all_stakes.push(token_id);
        self.total_staked = self.total_staked + 1;
        proof {
            assert(self.all_tokens() =~= old_all.push(token_id@));
            assert(!old_all.contains(token_id@));
            assert forall|t: Seq<char>| #[trigger]
                self.stakes@.contains_key(t) <==> self.all_tokens().contains(t) by {
                if self.all_tokens().contains(t) && t != token_id@ {
                    let w = choose|w: int|
                        0 <= w < self.all_tokens().len() && self.all_tokens()[w] == t;
                    assert(old_all[w] == t);
                }
                if old_all.contains(t) {
                    let w = choose|w: int| 0 <= w < old_all.len() && old_all[w] == t;
                    assert(self.all_tokens()[w] == t);
                }
                if t == token_id@ {
                    assert(self.all_tokens()[old_all.len() as int] == t);
                }
            }
        }
        Ok(true)
    }

    /// The NFT contract (`caller`) reports that `token_id` was transferred here with `msg`.
    /// A message `"{duration}:{owner}"` with one of the three lock periods and a valid account id
    /// records the stake; anything else answers `false` so that the NFT goes back.
    pub fn nft_on_transfer(
        &mut self,
        caller: &String,
        sender_id: String,
        previous_owner_id: String,
        token_id: TokenId,
        msg: String,
        block_timestamp: u64,
    ) -> (r: ContractResult<bool>)
        requires
            old(self).wf(),
        ensures
            final(self).wf(),
            old(self).on_transfer_outcome(
                final(self),
                r,
                caller@,
                token_id@,
                msg@,
                block_timestamp,
            ),
    {
        let parts = split_on(msg.as_str(), ':');
        if parts.len() != 2 {
            return Ok(false);
        }
        assert(parts@[0]@ == split_at_sep(msg@, ':')[0]);
        assert(parts@[1]@ == split_at_sep(msg@, ':')[1]);
        let duration = match parse_decimal_u64(parts[0].as_str()) {
            Some(v) => {
                if v == LOCK_10D || v == LOCK_20D || v == LOCK_30D {
                    v
                } else {
                    return Ok(false);
                }
            },
            None => {
                return Ok(false);
            },
        };
        let owner = match account_id_from_str(parts[1].as_str()) {
            Some(a) => a,
            None => {
                return Ok(false);
            },
        };
        self.record_stake(owner, token_id, caller.clone(), duration, block_timestamp)
    }

    /// The staker takes back `token_id`: rewards are accrued first, then the stake is removed
    /// and the NFT sent back to the caller.
    pub fn unstake(&mut self, caller: &String, token_id: TokenId, block_timestamp: u64) -> (r:
        ContractResult<PromiseAction>)
        requires
            old(self).wf(),
        ensures
            r is Ok <==> old(self).stakes@.contains_key(token_id@)
                && old(self).stakes@[token_id@].owner_id@ == caller@ && !old(self).accrual_fails(
                block_timestamp,
            ),
            final(self).wf(),
            !old(self).stakes@.contains_key(token_id@) ==> r == Err::<PromiseAction, ContractError>(
                ContractError::NotFound,
            ),
            old(self).stakes@.contains_key(token_id@) && old(self).stakes@[token_id@].owner_id@
                != caller@ ==> r == Err::<PromiseAction, ContractError>(ContractError::NotYours),
            old(self).stakes@.contains_key(token_id@) && old(self).stakes@[token_id@].owner_id@
                == caller@ && old(self).accrual_fails(block_timestamp) ==> r == Err::<
                PromiseAction,
                ContractError,
            >(ContractError::ArithmeticOverflow),
            r is Err ==> *final(self) == *old(self),
            r is Ok ==> old(self).unstaked(final(self), caller@, token_id@, block_timestamp),
            r matches Ok(a) ==> a == (PromiseAction::NftTransfer {
                nft_contract_id: old(self).stakes@[token_id@].nft_contract,
                receiver_id: *caller,
                token_id: old(self).stakes@[token_id@].token_id,
                deposit: ONE_YOCTO,
                gas: NFT_CALL_GAS,
            }),
            r matches Ok(a) ==> a matches PromiseAction::NftTransfer { token_id: t, .. } && t@
                == token_id@,
    {
        let (nft_contract, token) = match self.stakes.get(&token_id) {
            None => {
                return Err(ContractError::NotFound);
            },
            Some(existing) => {
                if existing.owner_id != *caller {
                    return Err(ContractError::NotYours);
                }
                (existing.nft_contract.clone(), existing.token_id.clone())
            },
        };
        let ghost orig = *self;
        self.calc_rewards(block_timestamp)?;
        let ghost mid = *self;
        self.stakes.remove(&token_id);
        let items: Vec<String> = match self.user_stakes.get(caller) {
            Some(v) => strings_without(v, &token_id),
            None => Vec::new(),
        };
        proof {
            if !mid.user_stakes@.contains_key(caller@) {
                assert(str_views(items@) =~= without(Seq::<Seq<char>>::empty(), token_id@));
            }
            lemma_without_len_le(mid.user_tokens(caller@), token_id@);
        }
        self.user_stakes.insert(caller.clone(), items);
        let remaining = strings_without(&self.all_stakes, &token_id);
        self.all_stakes = remaining;
        self.total_staked = self.total_staked - 1;
        proof {
            let old_all = mid.all_tokens();
            assert(old_all.contains(token_id@));
            lemma_without_len(old_all, token_id@);
            lemma_without_no_dups(old_all, token_id@);
            lemma_without_len_le(old_all, token_id@);
            assert forall|t: Seq<char>| #[trigger]
                self.stakes@.contains_key(t) <==> self.all_tokens().contains(t) by {
                lemma_without_contains(old_all, token_id@, t);
            }
        }
        Ok(PromiseAction::NftTransfer {
            nft_contract_id: nft_contract,
            receiver_id: caller.clone(),
            token_id: token,
            deposit: ONE_YOCTO,
            gas: NFT_CALL_GAS,
        })
    }
}

/// The amount planned for `o`, if the plan has an entry for it.
fn planned_amount(adds: &Vec<(String, u128)>, o: &String) -> (r: Option<u128>)
    ensures
        r is Some <==> listed(adds@, o@, adds@.len() as int),
        r matches Some(a) ==> exists|k: int|
            0 <= k < adds@.len() && (#[trigger] adds@[k]).0@ == o@ && adds@[k].1 == a,
{
    let mut i: usize = 0;
    while i < adds.len()
        invariant
            i <= adds@.len(),
            forall|k: int| 0 <= k < i ==> (#[trigger] adds@[k]).0@ != o@,
        decreases adds@.len() - i,
    {
        if adds[i].0 == *o {
            assert(adds@[i as int].0@ == o@);
            return Some(adds[i].1);
        }
        i = i + 1;
    }
    None
}

impl Contract {
    /// The caller claims its pending rewards: rewards are accrued first, then everything pending
    /// for the caller is paid out of the pool and its pending rewards drop to zero.
    pub fn claim(&mut self, caller: &String, block_timestamp: u64) -> (r: ContractResult<
        PromiseAction,
    >)
        requires
            old(self).wf(),
        ensures
            r is Ok <==> !old(self).accrual_fails(block_timestamp) && old(self).claimable(
                caller@,
                block_timestamp,
            ) > 0 && old(self).claimable(caller@, block_timestamp) <= old(self).reward_pool,
            final(self).wf(),
            old(self).accrual_fails(block_timestamp) ==> r == Err::<PromiseAction, ContractError>(
                ContractError::ArithmeticOverflow,
            ),
            !old(self).accrual_fails(block_timestamp) && old(self).claimable(
                caller@,
                block_timestamp,
            ) == 0 ==> r == Err::<PromiseAction, ContractError>(ContractError::NoRewards),
            !old(self).accrual_fails(block_timestamp) && old(self).claimable(
                caller@,
                block_timestamp,
            ) > old(self).reward_pool ==> r == Err::<PromiseAction, ContractError>(
                ContractError::ArithmeticOverflow,
            ),
            r is Err ==> *final(self) == *old(self),
            r matches Ok(a) ==> a == (PromiseAction::Transfer {
                receiver_id: *caller,
                amount: old(self).claimable(caller@, block_timestamp) as u128,
            }),
            r is Ok ==> {
                &&& final(self).same_stakes_as(old(self))
                &&& final(self).reward_pool == old(self).reward_pool - old(self).claimable(
                    caller@,
                    block_timestamp,
                )
                &&& final(self).last_update == old(self).last_update_after(block_timestamp)
                &&& forall|o: Seq<char>| #[trigger]
                    final(self).pending@.contains_key(o) == (o == caller@
                        || old(self).pending@.contains_key(o) || old(self).gains(
                        o,
                        block_timestamp,
                    ))
                &&& forall|o: Seq<char>| #[trigger]
                    final(self).pending@.contains_key(o) ==> final(self).pending@[o] == (if o
                        == caller@ {
                        0
                    } else {
                        old(self).pending_after(o, block_timestamp)
                    })
            },
    {
        let cur = self.cur_epoch(block_timestamp);
        let accrues = cur > self.last_update && self.total_staked > 0 && self.reward_pool > 0;
        let adds: Vec<(String, u128)> = if accrues {
            self.accrual_plan(block_timestamp)?
        } else {
            Vec::new()
        };
        let current: u128 = match self.pending.get(caller) {
            Some(p) => *p,
            None => 0,
        };
        let amount = match planned_amount(&adds, caller) {
            Some(a) => a,
            None => current,
        };
        proof {
            if accrues {
                if listed(adds@, caller@, adds@.len() as int) {
                    let k = choose|k: int|
                        0 <= k < adds@.len() && (#[trigger] adds@[k]).0@ == caller@ && adds@[k].1
                            == amount;
                    assert(self.rewarded(adds@[k].0@, secs(block_timestamp)));
                } else {
                    assert(!self.rewarded(caller@, secs(block_timestamp)));
                }
            }
        }
        assert(amount == self.claimable(caller@, block_timestamp));
        if amount == 0 {
            return Err(ContractError::NoRewards);
        }
        if amount > self.reward_pool {
            return Err(ContractError::ArithmeticOverflow);
        }
        let ghost orig = *self;
        if accrues {
            self.apply_accrual(&adds, block_timestamp);
        } else if cur > self.last_update {
            self.last_update = cur;
        }
        let ghost mid = *self;
        assert(orig.accrued(&mid, block_timestamp));
        self.pending.insert(caller.clone(), 0);
        self.reward_pool = self.reward_pool - amount;
        Ok(PromiseAction::Transfer { receiver_id: caller.clone(), amount })
    }

    /// The stakes listed for `account_id` that exist, in list order, as seen at this time.
    pub fn get_user_stakes(&self, account_id: &String, block_timestamp: u64) -> (r: Vec<StakeView>)
        requires
            self.wf(),
        ensures
            r@ == stake_views(self.user_tokens(account_id@), self.stakes@, secs(block_timestamp)),
    {
        let mut result: Vec<StakeView> = Vec::new();
        let now = block_timestamp / NANOS_PER_SEC;
        match self.user_stakes.get(account_id) {
            Some(list) => {
                let ghost tokens = str_views(list@);
                let mut i: usize = 0;
                while i < list.len()
                    invariant
                        self.wf(),
                        tokens == str_views(list@),
                        now == secs(block_timestamp),
                        i <= list@.len(),
                        result@ == stake_views(tokens.take(i as int), self.stakes@, now),
                    decreases list@.len() - i,
                {
                    assert(tokens.take(i + 1).drop_last() =~= tokens.take(i as int));
                    assert(tokens.take(i + 1).last() == list@[i as int]@);
                    match self.stakes.get(&list[i]) {
                        Some(s) => {
                            let active = self.is_locked(s, block_timestamp);
                            result.push(
                                StakeView {
                                    owner_id: s.owner_id.clone(),
                                    token_id: s.token_id.clone(),
                                    nft_contract_id: s.nft_contract.clone(),
                                    staked_at: s.staked_at,
                                    lock_duration: s.lock_duration,
                                    unlocked_at: s.unlocked_at,
                                    active,
                                },
                            );
                        },
                        None => {},
                    }
                    i = i + 1;
                }
                assert(tokens.take(list@.len() as int) =~= tokens);
            },
            None => {},
        }
        result
    }

    /// The rewards pending for `account_id`.
    pub fn get_user_rewards(&self, account_id: &String) -> (r: u128)
        requires
            self.wf(),
        ensures
            r == self.pending_of(account_id@),
    {
        match self.pending.get(account_id) {
            Some(p) => *p,
            None => 0,
        }
    }

    /// The owner, number of stakes, reward pool and epoch length.
    pub fn get_metadata(&self) -> (m: Metadata)
        ensures
            m == (Metadata {
                owner_id: self.owner_id,
                total_staked: self.total_staked,
                reward_pool: self.reward_pool,
                epoch_duration: self.epoch_duration,
            }),
    {
        Metadata {
            owner_id: self.owner_id.clone(),
            total_staked: self.total_staked,
            reward_pool: self.reward_pool,
            epoch_duration: self.epoch_duration,
        }
    }

    /// The stake of `token_id`, if it is staked, as seen at this time.
    pub fn get_stake(&self, token_id: &String, block_timestamp: u64) -> (r: Option<StakeView>)
        requires
            self.wf(),
        ensures
            r == if self.stakes@.contains_key(token_id@) {
                Some(self.stakes@[token_id@].view_at(secs(block_timestamp)))
            } else {
                None::<StakeView>
            },
    {
        match self.stakes.get(token_id) {
            Some(s) => Some(
                StakeView {
                    owner_id: s.owner_id.clone(),
                    token_id: s.token_id.clone(),
                    nft_contract_id: s.nft_contract.clone(),
                    staked_at: s.staked_at,
                    lock_duration: s.lock_duration,
                    unlocked_at: s.unlocked_at,
                    active: self.is_locked(s, block_timestamp),
                },
            ),
            None => None,
        }
    }

    /// The number of staked tokens.
    pub fn get_total_staked(&self) -> (n: u64)
        ensures
            n == self.total_staked,
    {
        self.total_staked
    }

    /// The reward pool, in yoctoNEAR.
    pub fn get_reward_pool(&self) -> (p: u128)
        ensures
            p == self.reward_pool,
    {
        self.reward_pool
    }
}

/// The message that `stake` sends along is read back by `nft_on_transfer`: with a lock period
/// and a staker whose account id is valid, the NFT contract's callback records exactly that
/// stake, of that owner, for that duration.
pub proof fn lemma_stake_message_records_stake(
    c: Contract,
    new: Contract,
    r: ContractResult<bool>,
    nft_contract: Seq<char>,
    token: Seq<char>,
    owner: Seq<char>,
    duration: u64,
    block_timestamp: u64,
)
    requires
        is_lock_period(duration),
        is_account_id(owner),
    ensures
        c.on_transfer_outcome(&new, r, nft_contract, token, lock_msg(duration, owner), block_timestamp)
            == c.record_outcome(&new, r, owner, token, nft_contract, duration, block_timestamp),
{
    lemma_account_chars_no_colon(owner);
    lemma_lock_msg_roundtrip(duration, owner);
}

/// A staking message with any other duration is refused: the callback answers `false` and
/// records nothing, so the NFT goes back to its owner.
pub proof fn lemma_other_duration_refused(
    c: Contract,
    new: Contract,
    r: ContractResult<bool>,
    nft_contract: Seq<char>,
    token: Seq<char>,
    owner: Seq<char>,
    duration: u64,
    block_timestamp: u64,
)
    requires
        !is_lock_period(duration),
        forall|i: int| 0 <= i < owner.len() ==> is_account_char(#[trigger] owner[i]),
    ensures
        c.on_transfer_outcome(&new, r, nft_contract, token, lock_msg(duration, owner), block_timestamp)
            == (r == Ok::<bool, ContractError>(false) && new == c),
{
    lemma_account_chars_no_colon(owner);
    lemma_lock_msg_roundtrip(duration, owner);
}

/// Rewards accrue at most once per epoch: right after an accrual, accruing again at the same
/// time adds nothing.
pub proof fn lemma_accrual_once_per_epoch(c: Contract, new: Contract, block_timestamp: u64, o: Seq<char>)
    requires
        c.accrued(&new, block_timestamp),
    ensures
        !new.accrues(block_timestamp),
        new.pending_after(o, block_timestamp) == new.pending_of(o),
        new.last_update_after(block_timestamp) == new.last_update,
{
}

/// A claim leaves nothing more to claim at the same time.
pub proof fn lemma_claim_leaves_nothing(c: Contract, new: Contract, caller: Seq<char>, block_timestamp: u64)
    requires
        new.same_stakes_as(&c),
        new.last_update == c.last_update_after(block_timestamp),
        new.pending@.contains_key(caller),
        new.pending@[caller] == 0,
    ensures
        new.claimable(caller, block_timestamp) == 0,
{
}

/// Only the three lock periods of ten, twenty and thirty days are accepted: a staking message
/// whose duration is any other number, or no number at all, is refused; the callback answers
/// `false` and records nothing, so the NFT goes back to its owner.
pub proof fn lemma_only_three_lock_periods(
    c: Contract,
    new: Contract,
    r: ContractResult<bool>,
    nft_contract: Seq<char>,
    token: Seq<char>,
    msg: Seq<char>,
    block_timestamp: u64,
)
    requires
        match parse_u64_spec(split_at_sep(msg, ':')[0]) {
            Some(d) => d != 864_000 && d != 1_728_000 && d != 2_592_000,
            None => true,
        },
    ensures
        c.on_transfer_outcome(&new, r, nft_contract, token, msg, block_timestamp) == (r == Ok::<
            bool,
            ContractError,
        >(false) && new == c),
{
    lemma_split_nonempty(msg, ':');
}

/// Only stakes still locked earn: where none of `o`'s stakes is locked beyond the accrual time,
/// in seconds, accrual leaves `o`'s pending rewards as they were; and where `o` gains, one of
/// its stakes is locked beyond that time.
pub proof fn lemma_only_locked_stakes_earn(c: Contract, o: Seq<char>, block_timestamp: u64)
    ensures
        c.gains(o, block_timestamp) ==> exists|t: Seq<char>|
            #[trigger] c.stakes@.contains_key(t) && c.stakes@[t].owner_id@ == o
                && c.stakes@[t].unlocked_at > block_timestamp / 1_000_000_000,
        (forall|t: Seq<char>|
            #[trigger] c.stakes@.contains_key(t) && c.stakes@[t].owner_id@ == o
                ==> c.stakes@[t].unlocked_at <= block_timestamp / 1_000_000_000) ==> c.pending_after(
            o,
            block_timestamp,
        ) == c.pending_of(o),
{
    if c.gains(o, block_timestamp) {
        let now = secs(block_timestamp);
        let i = choose|i: int|
            0 <= i < c.all_stakes@.len() && c.qualifies(#[trigger] c.all_tokens()[i], now)
                && c.stakes@[c.all_tokens()[i]].owner_id@ == o && c.share_of(o) > 0;
        let t = c.all_tokens()[i];
        assert(c.stakes@.contains_key(t) && c.stakes@[t].owner_id@ == o);
    }
}

/// Each of the three lock periods of ten, twenty and thirty days is accepted: the message that
/// `stake` sends for one of them and a valid account id records that stake.
pub proof fn lemma_three_lock_periods_accepted(
    c: Contract,
    new: Contract,
    r: ContractResult<bool>,
    nft_contract: Seq<char>,
    token: Seq<char>,
    owner: Seq<char>,
    duration: u64,
    block_timestamp: u64,
)
    requires
        duration == 864_000 || duration == 1_728_000 || duration == 2_592_000,
        is_account_id(owner),
    ensures
        c.on_transfer_outcome(&new, r, nft_contract, token, lock_msg(duration, owner), block_timestamp)
            == c.record_outcome(&new, r, owner, token, nft_contract, duration, block_timestamp),
{
    lemma_account_chars_no_colon(owner);
    lemma_lock_msg_roundtrip(duration, owner);
}

/// Accrual rewards exactly the owners with a stake still locked at the accrual time, in
/// seconds: where a new epoch has begun and the owner's share of the pool is not zero, `o`
/// gains if and only if one of its stakes is locked beyond that time.
pub proof fn lemma_locked_stakes_earn(c: Contract, o: Seq<char>, block_timestamp: u64)
    requires
        c.wf(),
    ensures
        c.gains(o, block_timestamp) <==> (c.accrues(block_timestamp) && c.share_of(o) > 0
            && exists|t: Seq<char>|
            #[trigger] c.stakes@.contains_key(t) && c.stakes@[t].owner_id@ == o
                && c.stakes@[t].unlocked_at > block_timestamp / 1_000_000_000),
{
    let now = secs(block_timestamp);
    lemma_only_locked_stakes_earn(c, o, block_timestamp);
    if c.accrues(block_timestamp) && c.share_of(o) > 0 && exists|t: Seq<char>|
        #[trigger] c.stakes@.contains_key(t) && c.stakes@[t].owner_id@ == o
            && c.stakes@[t].unlocked_at > block_timestamp / 1_000_000_000 {
        let t = choose|t: Seq<char>|
            #[trigger] c.stakes@.contains_key(t) && c.stakes@[t].owner_id@ == o
                && c.stakes@[t].unlocked_at > block_timestamp / 1_000_000_000;
        assert(c.all_tokens().contains(t));
        let i = choose|i: int| 0 <= i < c.all_tokens().len() && c.all_tokens()[i] == t;
        assert(c.owner_count(o) > 0) by {
            if c.owner_count(o) <= 0 {
                assert(c.reward_pool * c.owner_count(o) == 0) by (nonlinear_arith)
                    requires
                        c.owner_count(o) == 0,
                ;
            }
        }
        assert(c.qualifies(c.all_tokens()[i], now));
        assert(c.rewarded_upto(o, now, c.all_stakes@.len() as int));
    }
}

} // verus!
