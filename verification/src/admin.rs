//! Owner-only administration of `StakingContract`.
use vstd::prelude::*;
use crate::contract::{
    StakingContract, StakingError, StakingResult, DurationMultiplier, TierBonus, TokenId, Stake,
    lemma_wf_same_registry,
};
use crate::events::{StakeEvent, RewardDepositData};
use crate::lists::{copy_strings, strings_without, without, lemma_without_contains, lemma_without_no_dups, lemma_without_len_le};
use crate::promise::PromiseAction;
use crate::text::str_views;
use crate::MIN_EPOCH_SECS;
use crate::strmap::key_pos;

verus! {

impl StakingContract {
    /// Fails unless `caller` is the contract owner.
    pub fn only_owner(&self, caller: &String) -> (r: StakingResult<()>)
        ensures
            r is Ok <==> caller@ == self.owner_id@,
            r is Err ==> r == Err::<(), StakingError>(StakingError::OnlyOwner),
    {
        if *caller == self.owner_id {
            Ok(())
        } else {
            Err(StakingError::OnlyOwner)
        }
    }

    /// Adds the attached deposit, which must not be zero, to the reward pool; owner only.
    /// Gives the deposit event to log.
    pub fn deposit_rewards(&mut self, caller: &String, attached_deposit: u128) -> (r:
        StakingResult<StakeEvent>)
        requires
            old(self).wf(),
        ensures
            r is Ok <==> caller@ == old(self).owner_id@ && attached_deposit > 0 && old(
                self,
            ).reward_pool + attached_deposit <= u128::MAX,
            final(self).wf(),
            caller@ != old(self).owner_id@ ==> r == Err::<StakeEvent, StakingError>(
                StakingError::OnlyOwner,
            ),
            caller@ == old(self).owner_id@ && attached_deposit == 0 ==> r == Err::<
                StakeEvent,
                StakingError,
            >(StakingError::MustAttachNear),
            caller@ == old(self).owner_id@ && attached_deposit > 0 && old(self).reward_pool
                + attached_deposit > u128::MAX ==> r == Err::<StakeEvent, StakingError>(
                StakingError::ArithmeticOverflow,
            ),
            r is Err ==> *final(self) == *old(self),
            r is Ok ==> *final(self) == (StakingContract {
                reward_pool: (old(self).reward_pool + attached_deposit) as u128,
                ..*old(self)
            }),
            r matches Ok(e) ==> e == StakeEvent::RewardDeposit(
                RewardDepositData { depositor_id: *caller, amount: attached_deposit },
            ),
    {
        self.only_owner(caller)?;
        if attached_deposit == 0 {
            return Err(StakingError::MustAttachNear);
        }
        let pool = match self.reward_pool.checked_add(attached_deposit) {
            Some(p) => p,
            None => {
                return Err(StakingError::ArithmeticOverflow);
            },
        };
        let ghost before = *self;
        self.reward_pool = pool;
        proof {
            lemma_wf_same_registry(before, *self);
        }
        Ok(
            StakeEvent::RewardDeposit(
                RewardDepositData { depositor_id: caller.clone(), amount: attached_deposit },
            ),
        )
    }

    /// Replaces the duration multipliers with a non-empty list; owner only.
    pub fn set_duration_multipliers(
        &mut self,
        caller: &String,
        multipliers: Vec<DurationMultiplier>,
    ) -> (r: StakingResult<()>)
        requires
            old(self).wf(),
        ensures
            r is Ok <==> caller@ == old(self).owner_id@ && multipliers@.len() > 0,
            final(self).wf(),
            caller@ != old(self).owner_id@ ==> r == Err::<(), StakingError>(
                StakingError::OnlyOwner,
            ),
            caller@ == old(self).owner_id@ && multipliers@.len() == 0 ==> r == Err::<
                (),
                StakingError,
            >(StakingError::NoDurations),
            r is Err ==> *final(self) == *old(self),
            r is Ok ==> *final(self) == (StakingContract {
                duration_multipliers: multipliers,
                ..*old(self)
            }),
    {
        self.only_owner(caller)?;
        if multipliers.len() == 0 {
            return Err(StakingError::NoDurations);
        }
        let ghost before = *self;
        self.duration_multipliers = multipliers;
        proof {
            lemma_wf_same_registry(before, *self);
        }
        Ok(())
    }

    /// Replaces the tier bonuses with a non-empty list; owner only.
    pub fn set_tier_bonuses(&mut self, caller: &String, bonuses: Vec<TierBonus>) -> (r:
        StakingResult<()>)
        requires
            old(self).wf(),
        ensures
            r is Ok <==> caller@ == old(self).owner_id@ && bonuses@.len() > 0,
            final(self).wf(),
            caller@ != old(self).owner_id@ ==> r == Err::<(), StakingError>(
                StakingError::OnlyOwner,
            ),
            caller@ == old(self).owner_id@ && bonuses@.len() == 0 ==> r == Err::<
                (),
                StakingError,
            >(StakingError::NoTiers),
            r is Err ==> *final(self) == *old(self),
            r is Ok ==> *final(self) == (StakingContract { tier_bonuses: bonuses, ..*old(self) }),
    {
        self.only_owner(caller)?;
        if bonuses.len() == 0 {
            return Err(StakingError::NoTiers);
        }
        let ghost before = *self;
        self.tier_bonuses = bonuses;
        proof {
            lemma_wf_same_registry(before, *self);
        }
        Ok(())
    }

    /// Sets the epoch length, at least one hour; owner only.
    pub fn set_epoch_duration(&mut self, caller: &String, epoch_duration: u64) -> (r:
        StakingResult<()>)
        requires
            old(self).wf(),
        ensures
            r is Ok <==> caller@ == old(self).owner_id@ && epoch_duration >= MIN_EPOCH_SECS,
            final(self).wf(),
            caller@ != old(self).owner_id@ ==> r == Err::<(), StakingError>(
                StakingError::OnlyOwner,
            ),
            caller@ == old(self).owner_id@ && epoch_duration < MIN_EPOCH_SECS ==> r == Err::<
                (),
                StakingError,
            >(StakingError::EpochTooShort),
            r is Err ==> *final(self) == *old(self),
            r is Ok ==> *final(self) == (StakingContract { epoch_duration, ..*old(self) }),
    {
        self.only_owner(caller)?;
        if epoch_duration < MIN_EPOCH_SECS {
            return Err(StakingError::EpochTooShort);
        }
        let ghost before = *self;
        self.epoch_duration = epoch_duration;
        proof {
            lemma_wf_same_registry(before, *self);
        }
        Ok(())
    }

    /// Takes `amount` out of the reward pool and sends it to the owner; owner only.
    pub fn withdraw_rewards(&mut self, caller: &String, amount: u128) -> (r: StakingResult<
        PromiseAction,
    >)
        requires
            old(self).wf(),
        ensures
            r is Ok <==> caller@ == old(self).owner_id@ && amount <= old(self).reward_pool,
            final(self).wf(),
            caller@ != old(self).owner_id@ ==> r == Err::<PromiseAction, StakingError>(
                StakingError::OnlyOwner,
            ),
            caller@ == old(self).owner_id@ && amount > old(self).reward_pool ==> r == Err::<
                PromiseAction,
                StakingError,
            >(StakingError::NotEnoughInPool),
            r is Err ==> *final(self) == *old(self),
            r is Ok ==> *final(self) == (StakingContract {
                reward_pool: (old(self).reward_pool - amount) as u128,
                ..*old(self)
            }),
            r matches Ok(a) ==> a == (PromiseAction::Transfer {
                receiver_id: old(self).owner_id,
                amount,
            }),
    {
        self.only_owner(caller)?;
        if amount > self.reward_pool {
            return Err(StakingError::NotEnoughInPool);
        }
        let ghost before = *self;
        self.reward_pool = self.reward_pool - amount;
        proof {
            lemma_wf_same_registry(before, *self);
        }
        Ok(PromiseAction::Transfer { receiver_id: self.owner_id.clone(), amount })
    }
}

impl StakingContract {
    /// Moves the stake of `token_id` to `new_owner`: the token leaves its owner's list and is
    /// listed last for `new_owner`; owner only.
    pub fn force_update_stake_owner(&mut self, caller: &String, token_id: TokenId, new_owner: String) -> (r:
        StakingResult<()>)
        requires
            old(self).wf(),
        ensures
            r is Ok <==> caller@ == old(self).owner_id@ && old(self).stakes@.contains_key(token_id@)
                && (new_owner@ == old(self).stakes@[token_id@].owner_id@ || old(self).user_tokens(
                new_owner@,
            ).len() < u32::MAX),
            final(self).wf(),
            caller@ != old(self).owner_id@ ==> r == Err::<(), StakingError>(
                StakingError::OnlyOwner,
            ),
            caller@ == old(self).owner_id@ && !old(self).stakes@.contains_key(token_id@) ==> r
                == Err::<(), StakingError>(StakingError::StakeNotFound),
            caller@ == old(self).owner_id@ && old(self).stakes@.contains_key(token_id@)
                && new_owner@ != old(self).stakes@[token_id@].owner_id@ && old(self).user_tokens(
                new_owner@,
            ).len() >= u32::MAX ==> r == Err::<(), StakingError>(StakingError::IndexOutOfBounds),
            r is Err ==> *final(self) == *old(self),
            r is Ok ==> {
                let o = old(self).stakes@[token_id@].owner_id@;
                let pos = key_pos(old(self).stakes.entries@, token_id@);
                let moved = Stake { owner_id: new_owner, ..old(self).stakes@[token_id@] };
                &&& final(self).stakes.entries@ == old(self).stakes.entries@.update(
                    pos,
                    (old(self).stakes.entries@[pos].0, moved),
                )
                &&& final(self).stakes@ == old(self).stakes@.insert(token_id@, moved)
                &&& final(self).user_tokens(new_owner@) == (if new_owner@ == o {
                    without(old(self).user_tokens(o), token_id@)
                } else {
                    old(self).user_tokens(new_owner@)
                }).push(token_id@)
                &&& new_owner@ != o ==> final(self).user_tokens(o) == without(
                    old(self).user_tokens(o),
                    token_id@,
                )
                &&& final(self).user_stakes@ == old(self).user_stakes@.insert(
                    o,
                    final(self).user_stakes@[o],
                ).insert(new_owner@, final(self).user_stakes@[new_owner@])
                &&& final(self).total_staked == old(self).total_staked
                &&& old(self).keeps_accounts(final(self))
            },
    {
        self.only_owner(caller)?;
        let pos = match self.stakes.find(&token_id) {
            None => {
                return Err(StakingError::StakeNotFound);
            },
            Some(p) => p,
        };
        let ghost orig = *self;
        proof {
            crate::strmap::lemma_key_pos(orig.stakes.entries@, pos as int);
        }
        let stake = self.stakes.entries[pos].1.copy();
        let old_owner = stake.owner_id.clone();
        let ghost ot = orig.user_tokens(old_owner@);
        assert(orig.user_stakes@.contains_key(old_owner@));
        assert(ot.contains(token_id@));
        let filtered: Vec<String> = match self.user_stakes.get(&old_owner) {
            Some(v) => strings_without(v, &token_id),
            None => Vec::new(),
        };
        let ghost ft = str_views(filtered@);
        proof {
            lemma_without_len_le(ot, token_id@);
            lemma_without_no_dups(ot, token_id@);
            lemma_without_contains(ot, token_id@, token_id@);
            crate::lists::lemma_without_len(ot, token_id@);
        }
        let mut new_list: Vec<String> = if new_owner == old_owner {
            copy_strings(&filtered)
        } else {
            match self.user_stakes.get(&new_owner) {
                Some(v) => copy_strings(v),
                None => Vec::new(),
            }
        };
        let ghost nt0 = str_views(new_list@);
        assert(nt0 == if new_owner@ == old_owner@ {
            ft
        } else {
            orig.user_tokens(new_owner@)
        });
        if new_list.len() >= 4_294_967_295usize {
            return Err(StakingError::IndexOutOfBounds);
        }
        assert(!nt0.contains(token_id@)) by {
            if new_owner@ != old_owner@ && nt0.contains(token_id@) {
                assert(orig.user_tokens(new_owner@).contains(token_id@));
            }
        }
        assert(nt0.no_duplicates()) by {
            if new_owner@ != old_owner@ {
                assert(orig.user_tokens(new_owner@).no_duplicates());
            }
        }
        new_list.push(token_id.clone());
        let ghost nt = str_views(new_list@);
        assert(nt =~= nt0.push(token_id@));
        self.user_stakes.insert(old_owner, filtered);
        let moved = Stake { owner_id: new_owner.clone(), ..stake };
        self.stakes.set_value(pos, moved);
        self.user_stakes.insert(new_owner, new_list);
        proof {
            let no = new_owner@;
            let oo = old_owner@;
            assert(self.user_tokens(no) == nt);
            if no != oo {
                assert(self.user_tokens(oo) == ft);
            }
            assert forall|x: Seq<char>| x != no && x != oo implies #[trigger] self.user_tokens(x)
                == orig.user_tokens(x) by {}
            assert forall|t: Seq<char>| #[trigger] self.stakes@.contains_key(t) implies self.user_stakes@.contains_key(
                self.stakes@[t].owner_id@,
            ) && self.user_tokens(self.stakes@[t].owner_id@).contains(t) by {
                if t == token_id@ {
                    assert(nt[nt0.len() as int] == t);
                } else {
                    assert(orig.stakes@.contains_key(t));
                    let x = orig.stakes@[t].owner_id@;
                    assert(orig.user_tokens(x).contains(t));
                    if x == oo {
                        lemma_without_contains(ot, token_id@, t);
                    }
                    if x == no {
                        let w = choose|w: int| 0 <= w < nt0.len() && nt0[w] == t;
                        assert(nt[w] == t);
                    }
                }
            }
            assert forall|x: Seq<char>, t: Seq<char>| #[trigger]
                self.user_tokens(x).contains(t) implies self.stakes@.contains_key(t)
                && self.stakes@[t].owner_id@ == x by {
                if x == no {
                    let w = choose|w: int| 0 <= w < nt.len() && nt[w] == t;
                    if w < nt0.len() {
                        assert(nt0.contains(t));
                        if no == oo {
                            lemma_without_contains(ot, token_id@, t);
                            assert(orig.user_tokens(oo).contains(t));
                        } else {
                            assert(orig.user_tokens(no).contains(t));
                        }
                    }
                } else if x == oo {
                    lemma_without_contains(ot, token_id@, t);
                    assert(orig.user_tokens(oo).contains(t));
                } else {
                    assert(orig.user_tokens(x).contains(t));
                }
            }
            assert forall|x: Seq<char>| #[trigger] self.user_tokens(x).no_duplicates() by {
                if x == no {
                    assert forall|a: int, b: int|
                        0 <= a < nt.len() && 0 <= b < nt.len() && a != b implies nt[a] != nt[b] by {
                        if a < nt0.len() && b < nt0.len() {
                            assert(nt[a] == nt0[a] && nt[b] == nt0[b]);
                        } else if a < nt0.len() {
                            assert(nt0.contains(nt[a]));
                        } else {
                            assert(nt0.contains(nt[b]));
                        }
                    }
                } else if x != oo {
                    assert(orig.user_tokens(x).no_duplicates());
                }
            }
        }
        Ok(())
    }
}

} // verus!
