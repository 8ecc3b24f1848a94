//! Read-only queries of `StakingContract`.
use vstd::prelude::*;
use crate::contract::{StakingContract, StakingError, StakingResult, Stake, ContractMetadata, DurationMultiplier, TierBonus, TokenId};
use crate::rewards::{duration_multiplier, tier_bonus, total_weight, weight_factor, lemma_weight_factor_bounds, reward_steps, reward_step, lemma_total_weight_positive};
use crate::strmap::{has_key, key_pos, lemma_key_pos};
use crate::strmap::entry_values;
use crate::text::str_views;
use crate::NANOS_PER_SEC;

verus! {

/// The stakes of `tokens` that exist, in order.
pub open spec fn stakes_of(tokens: Seq<Seq<char>>, stakes: Map<Seq<char>, Stake>) -> Seq<Stake>
    decreases tokens.len(),
{
    if tokens.len() == 0 {
        Seq::empty()
    } else {
        let prev = stakes_of(tokens.drop_last(), stakes);
        if stakes.contains_key(tokens.last()) {
            prev.push(stakes[tokens.last()])
        } else {
            prev
        }
    }
}

/// The rewards that the first `n` of an owner's `tokens` would earn if claimed at epoch `cur`
/// with total weight `tw`: each active stake with unclaimed epochs earns
/// `weight * (pool / tw) * epochs`; `None` where an amount overflows.
pub open spec fn simulated_upto(
    c: StakingContract,
    tokens: Seq<Seq<char>>,
    cur: u64,
    tw: int,
    n: int,
) -> Option<int>
    decreases n,
{
    if n <= 0 {
        Some(0)
    } else {
        match simulated_upto(c, tokens, cur, tw, n - 1) {
            None => None,
            Some(acc) => {
                let t = tokens[n - 1];
                if !c.stakes@.contains_key(t) || !c.stakes@[t].active {
                    Some(acc)
                } else {
                    let s = c.stakes@[t];
                    let end = s.unlocked_at / c.epoch_duration;
                    let cu = if end < cur {
                        end
                    } else {
                        cur
                    };
                    if cu <= s.last_claim_epoch {
                        Some(acc)
                    } else {
                        match tier_bonus(c.tier_bonuses@, tokens.len() as int) {
                            None => None,
                            Some(tm) => {
                                let w = weight_factor(
                                    duration_multiplier(c.duration_multipliers@, s.lock_duration),
                                    tm,
                                );
                                let x = w * ((c.reward_pool as int) / tw);
                                let y = x * (cu - s.last_claim_epoch);
                                if x > u128::MAX || y > u128::MAX || acc + y > u128::MAX {
                                    None
                                } else {
                                    Some(acc + y)
                                }
                            },
                        }
                    }
                }
            },
        }
    }
}

proof fn lemma_simulated_none_extends(
    c: StakingContract,
    tokens: Seq<Seq<char>>,
    cur: u64,
    tw: int,
    n: int,
    m: int,
)
    requires
        0 <= n <= m,
        simulated_upto(c, tokens, cur, tw, n) is None,
    ensures
        simulated_upto(c, tokens, cur, tw, m) is None,
    decreases m - n,
{
    if n < m {
        lemma_simulated_none_extends(c, tokens, cur, tw, n, m - 1);
    }
}

impl StakingContract {
    /// What `get_user_rewards` reports for `o` at this time: its processed rewards plus what
    /// its stakes would earn if claimed now; `None` where an amount overflows.
    pub open spec fn rewards_view(&self, o: Seq<char>, block_timestamp: u64) -> Option<int> {
        if !self.has_list(o) {
            Some(0)
        } else {
            match total_weight(
                self.stakes.entries@,
                self.user_stakes@,
                self.duration_multipliers@,
                self.tier_bonuses@,
            ) {
                None => None,
                Some(tw) => if tw == 0 {
                    Some(0)
                } else {
                    match simulated_upto(
                        *self,
                        self.user_tokens(o),
                        self.epoch_at(block_timestamp),
                        tw,
                        self.user_tokens(o).len() as int,
                    ) {
                        None => None,
                        Some(sim) => if self.rewards_of(o) + sim > u128::MAX {
                            None
                        } else {
                            Some(self.rewards_of(o) + sim)
                        },
                    }
                },
            }
        }
    }

    /// The stakes listed for `account_id`, in list order.
    pub fn get_user_stakes(&self, account_id: &String) -> (r: Vec<Stake>)
        requires
            self.wf(),
        ensures
            r@ == stakes_of(self.user_tokens(account_id@), self.stakes@),
    {
        let mut result: Vec<Stake> = Vec::new();
        match self.user_stakes.get(account_id) {
            Some(list) => {
                let ghost tokens = str_views(list@);
                let mut i: usize = 0;
                while i < list.len()
                    invariant
                        self.wf(),
                        tokens == str_views(list@),
                        i <= list@.len(),
                        result@ == stakes_of(tokens.take(i as int), self.stakes@),
                    decreases list@.len() - i,
                {
                    assert(tokens.take(i + 1).drop_last() =~= tokens.take(i as int));
                    assert(tokens.take(i + 1).last() == list@[i as int]@);
                    match self.stakes.get(&list[i]) {
                        Some(s) => {
                            result.push(s.copy());
                        },
                        None => {},
                    }
                    i = i + 1;
                }
                assert(tokens.take(list@.len() as int) =~= tokens);
            },
            None => {},
        }
        result
    }

    /// How many tokens `account_id` has listed.
    pub fn get_user_stake_count(&self, account_id: &String) -> (n: u32)
        requires
            self.wf(),
        ensures
            n == self.user_tokens(account_id@).len(),
    {
        match self.user_stakes.get(account_id) {
            Some(v) => v.len() as u32,
            None => 0,
        }
    }

    /// The stake of `token_id`, if it is staked.
    pub fn get_stake(&self, token_id: &TokenId) -> (r: Option<Stake>)
        requires
            self.wf(),
        ensures
            r == if self.stakes@.contains_key(token_id@) {
                Some(self.stakes@[token_id@])
            } else {
                None::<Stake>
            },
    {
        match self.stakes.get(token_id) {
            Some(s) => Some(s.copy()),
            None => None,
        }
    }

    /// The summed weight of all active stakes.
    pub fn get_total_weight(&self) -> (r: StakingResult<u128>)
        requires
            self.wf(),
        ensures
            r is Ok <==> total_weight(
                self.stakes.entries@,
                self.user_stakes@,
                self.duration_multipliers@,
                self.tier_bonuses@,
            ) is Some,
            r matches Ok(v) ==> total_weight(
                self.stakes.entries@,
                self.user_stakes@,
                self.duration_multipliers@,
                self.tier_bonuses@,
            ) == Some(v as int),
            r is Err ==> r == Err::<u128, StakingError>(StakingError::ArithmeticOverflow),
    {
        self.calculate_total_weight()
    }

    /// `account_id`'s processed rewards plus what its stakes would earn if claimed at this time.
    pub fn get_user_rewards(&self, account_id: &String, block_timestamp: u64) -> (r: StakingResult<
        u128,
    >)
        requires
            self.wf(),
        ensures
            r is Ok <==> self.rewards_view(account_id@, block_timestamp) is Some,
            r matches Ok(v) ==> self.rewards_view(account_id@, block_timestamp) == Some(v as int),
            r is Err ==> r == Err::<u128, StakingError>(StakingError::ArithmeticOverflow),
    {
        let now = block_timestamp / NANOS_PER_SEC;
        let cur = self.to_epoch(now);
        let list = match self.user_stakes.get(account_id) {
            Some(v) => v,
            None => {
                return Ok(0);
            },
        };
        let total_weight = self.calculate_total_weight()?;
        if total_weight == 0 {
            return Ok(0);
        }
        let ghost tokens = str_views(list@);
        let count = list.len() as u32;
        let mut simulated: u128 = 0;
        let mut i: usize = 0;
        while i < list.len()
            invariant
                self.wf(),
                tokens == str_views(list@),
                tokens == self.user_tokens(account_id@),
                count == list@.len(),
                cur == self.epoch_at(block_timestamp),
                total_weight > 0,
                self.has_list(account_id@),
                crate::rewards::total_weight(
                    self.stakes.entries@,
                    self.user_stakes@,
                    self.duration_multipliers@,
                    self.tier_bonuses@,
                ) == Some(total_weight as int),
                i <= list@.len(),
                simulated_upto(*self, tokens, cur, total_weight as int, i as int) == Some(
                    simulated as int,
                ),
            decreases list@.len() - i,
        {
            assert(tokens[i as int] == list@[i as int]@);
            match self.stakes.get(&list[i]) {
                Some(stake) => {
                    if stake.active {
                        let end = stake.unlocked_at / self.epoch_duration;
                        let cu = if end < cur {
                            end
                        } else {
                            cur
                        };
                        if cu > stake.last_claim_epoch {
                            let epochs = cu - stake.last_claim_epoch;
                            let dm = self.get_duration_multiplier(stake.lock_duration);
                            let tm = match self.get_tier_bonus(count) {
                                Ok(b) => b,
                                Err(e) => {
                                    proof {
                                        lemma_simulated_none_extends(
                                            *self,
                                            tokens,
                                            cur,
                                            total_weight as int,
                                            i + 1,
                                            tokens.len() as int,
                                        );
                                    }
                                    return Err(e);
                                },
                            };
                            assert((dm as u128) * (tm as u128) <= 0xffff_ffff * 0xffff_ffff)
                                by (nonlinear_arith)
                                requires
                                    dm <= 0xffff_ffff,
                                    tm <= 0xffff_ffff,
                            ;
                            let factor = (dm as u128) * (tm as u128) / 10_000;
                            let weight = if factor < 10_000 {
                                10_000
                            } else {
                                factor
                            };
                            proof {
                                lemma_weight_factor_bounds(dm, tm);
                            }
                            assert(weight == weight_factor(dm, tm));
                            let per_epoch = self.reward_pool / total_weight;
                            let step = match weight.checked_mul(per_epoch) {
                                Some(x) => match x.checked_mul(epochs as u128) {
                                    Some(y) => y,
                                    None => {
                                        proof {
                                            lemma_simulated_none_extends(
                                                *self,
                                                tokens,
                                                cur,
                                                total_weight as int,
                                                i + 1,
                                                tokens.len() as int,
                                            );
                                        }
                                        return Err(StakingError::ArithmeticOverflow);
                                    },
                                },
                                None => {
                                    proof {
                                        lemma_simulated_none_extends(
                                            *self,
                                            tokens,
                                            cur,
                                            total_weight as int,
                                            i + 1,
                                            tokens.len() as int,
                                        );
                                    }
                                    return Err(StakingError::ArithmeticOverflow);
                                },
                            };
                            simulated = match simulated.checked_add(step) {
                                Some(z) => z,
                                None => {
                                    proof {
                                        lemma_simulated_none_extends(
                                            *self,
                                            tokens,
                                            cur,
                                            total_weight as int,
                                            i + 1,
                                            tokens.len() as int,
                                        );
                                    }
                                    return Err(StakingError::ArithmeticOverflow);
                                },
                            };
                        }
                    }
                },
                None => {},
            }
            i = i + 1;
        }
        let existing: u128 = match self.epoch_rewards.get(account_id) {
            Some(v) => *v,
            None => 0,
        };
        match existing.checked_add(simulated) {
            Some(v) => Ok(v),
            None => Err(StakingError::ArithmeticOverflow),
        }
    }

    /// The owner, reward token, totals and reward settings.
    pub fn get_contract_metadata(&self) -> (m: ContractMetadata)
        ensures
            m.owner_id == self.owner_id,
            m.reward_token == self.reward_token,
            m.total_staked == self.total_staked,
            m.reward_pool == self.reward_pool,
            m.epoch_duration == self.epoch_duration,
            m.duration_multipliers@ == self.duration_multipliers@,
            m.tier_bonuses@ == self.tier_bonuses@,
    {
        let mut dms: Vec<DurationMultiplier> = Vec::new();
        let mut i: usize = 0;
        while i < self.duration_multipliers.len()
            invariant
                i <= self.duration_multipliers@.len(),
                dms@ == self.duration_multipliers@.take(i as int),
            decreases self.duration_multipliers@.len() - i,
        {
            dms.push(self.duration_multipliers[i]);
            i = i + 1;
            assert(dms@ =~= self.duration_multipliers@.take(i as int));
        }
        assert(self.duration_multipliers@.take(i as int) =~= self.duration_multipliers@);
        let mut tiers: Vec<TierBonus> = Vec::new();
        let mut j: usize = 0;
        while j < self.tier_bonuses.len()
            invariant
                j <= self.tier_bonuses@.len(),
                tiers@ == self.tier_bonuses@.take(j as int),
            decreases self.tier_bonuses@.len() - j,
        {
            tiers.push(self.tier_bonuses[j]);
            j = j + 1;
            assert(tiers@ =~= self.tier_bonuses@.take(j as int));
        }
        assert(self.tier_bonuses@.take(j as int) =~= self.tier_bonuses@);
        ContractMetadata {
            owner_id: self.owner_id.clone(),
            reward_token: self.reward_token.clone(),
            total_staked: self.total_staked,
            reward_pool: self.reward_pool,
            epoch_duration: self.epoch_duration,
            duration_multipliers: dms,
            tier_bonuses: tiers,
        }
    }

    /// A page of stakes in storage order: at most `limit` of them from position
    /// `min(from_index, count - 1)` on; fails where nothing is staked.
    pub fn get_all_stakes(&self, from_index: u64, limit: u64) -> (r: StakingResult<Vec<Stake>>)
        requires
            self.wf(),
        ensures
            self.stakes.entries@.len() == 0 ==> r == Err::<Vec<Stake>, StakingError>(
                StakingError::ArithmeticOverflow,
            ),
            self.stakes.entries@.len() > 0 ==> {
                let n = self.stakes.entries@.len() as int;
                let l = if limit < n {
                    limit as int
                } else {
                    n
                };
                let start = if from_index < n - 1 {
                    from_index as int
                } else {
                    n - 1
                };
                let end = if start + l < n {
                    start + l
                } else {
                    n
                };
                &&& start + l > u64::MAX ==> r == Err::<Vec<Stake>, StakingError>(
                    StakingError::ArithmeticOverflow,
                )
                &&& start + l <= u64::MAX ==> (r matches Ok(v) && v@ == entry_values(
                    self.stakes.entries@,
                ).subrange(start, end))
            },
    {
        let n = self.stakes.entries.len() as u64;
        let l = if limit < n {
            limit
        } else {
            n
        };
        if n == 0 {
            return Err(StakingError::ArithmeticOverflow);
        }
        let start = if from_index < n - 1 {
            from_index
        } else {
            n - 1
        };
        let stop = match start.checked_add(l) {
            Some(x) => x,
            None => {
                return Err(StakingError::ArithmeticOverflow);
            },
        };
        let ghost vals = entry_values(self.stakes.entries@);
        let mut result: Vec<Stake> = Vec::new();
        let mut i: u64 = start;
        while i < stop
            invariant
                n == self.stakes.entries@.len(),
                n <= usize::MAX,
                vals == entry_values(self.stakes.entries@),
                start <= i <= stop,
                start < n,
                result@ == vals.subrange(start as int, if i < n {
                    i as int
                } else {
                    n as int
                }),
            decreases stop - i,
        {
            if i < n {
                let idx = i as usize;
                assert(idx as int == i as int);
                assert(vals[i as int] == self.stakes.entries@[i as int].1);
                let ghost before = result@;
                result.push(self.stakes.entries[idx].1.copy());
                assert(before == vals.subrange(start as int, i as int));
                assert(result@ =~= vals.subrange(start as int, i + 1));
            }
            i = i + 1;
        }
        Ok(result)
    }

    /// The number of stakes.
    pub fn get_total_staked(&self) -> (n: u64)
        ensures
            n == self.total_staked,
    {
        self.total_staked
    }

    /// The reward pool, in yoctoNEAR.
    pub fn get_reward_pool(&self) -> (p: u128)
        ensures
            p == self.reward_pool,
    {
        self.reward_pool
    }
}

proof fn lemma_simulated_past_end(
    c: StakingContract,
    tokens: Seq<Seq<char>>,
    cur1: u64,
    cur2: u64,
    tw: int,
    n: int,
)
    requires
        0 <= n <= tokens.len(),
        forall|j: int|
            0 <= j < tokens.len() && c.stakes@.contains_key(#[trigger] tokens[j]) ==> c.stakes@[tokens[j]].unlocked_at
                / c.epoch_duration <= cur1 && c.stakes@[tokens[j]].unlocked_at / c.epoch_duration
                <= cur2,
    ensures
        simulated_upto(c, tokens, cur1, tw, n) == simulated_upto(c, tokens, cur2, tw, n),
    decreases n,
{
    if n > 0 {
        lemma_simulated_past_end(c, tokens, cur1, cur2, tw, n - 1);
        let t = tokens[n - 1];
        if c.stakes@.contains_key(t) {
            assert(c.stakes@[t].unlocked_at / c.epoch_duration <= cur1);
        }
    }
}

/// The rewards view counts no epoch past a lock's end: once every stake of `o` has reached the
/// end epoch of its lock, `get_user_rewards` reports the same amount at any later time.
pub proof fn lemma_view_stops_at_lock_end(
    c: StakingContract,
    o: Seq<char>,
    block_timestamp: u64,
    later: u64,
)
    requires
        forall|t: Seq<char>| #[trigger]
            c.user_tokens(o).contains(t) && c.stakes@.contains_key(t) ==> c.stakes@[t].unlocked_at
                / c.epoch_duration <= c.epoch_at(block_timestamp) && c.stakes@[t].unlocked_at
                / c.epoch_duration <= c.epoch_at(later),
    ensures
        c.rewards_view(o, block_timestamp) == c.rewards_view(o, later),
{
    let tokens = c.user_tokens(o);
    assert forall|j: int|
        0 <= j < tokens.len() && c.stakes@.contains_key(#[trigger] tokens[j]) implies c.stakes@[tokens[j]].unlocked_at
        / c.epoch_duration <= c.epoch_at(block_timestamp) && c.stakes@[tokens[j]].unlocked_at
        / c.epoch_duration <= c.epoch_at(later) by {
        assert(tokens.contains(tokens[j]));
    }
    match total_weight(
        c.stakes.entries@,
        c.user_stakes@,
        c.duration_multipliers@,
        c.tier_bonuses@,
    ) {
        None => {},
        Some(tw) => {
            lemma_simulated_past_end(
                c,
                tokens,
                c.epoch_at(block_timestamp),
                c.epoch_at(later),
                tw,
                tokens.len() as int,
            );
        },
    }
}

/// `get_user_rewards` reports what a claim would pay: for an owner whose only listed token has
/// an active stake weighing at least 1x, at any time where neither the view nor processing
/// overflows, the view is the balance that `claim` would pay out.
pub proof fn lemma_view_is_claim_balance(
    c: StakingContract,
    o: Seq<char>,
    t: Seq<char>,
    tm: u32,
    block_timestamp: u64,
)
    requires
        c.wf(),
        c.user_tokens(o) == seq![t],
        c.stakes@.contains_key(t),
        c.stakes@[t].active,
        tier_bonus(c.tier_bonuses@, 1) == Some(tm),
        duration_multiplier(c.duration_multipliers@, c.stakes@[t].lock_duration) * tm
            >= 100_000_000,
        !c.process_fails(o, block_timestamp),
        c.rewards_view(o, block_timestamp) is Some,
    ensures
        c.rewards_view(o, block_timestamp) == Some(c.claim_balance(o, block_timestamp)),
{
    let tokens = seq![t];
    let es = c.stakes.entries@;
    let cur = c.epoch_at(block_timestamp);
    assert(c.has_list(o));
    assert(has_key(es, t));
    let p = key_pos(es, t);
    lemma_key_pos(es, p);
    let s = es[p].1;
    assert(s == c.stakes@[t]);
    assert(tokens[0] == t && tokens.len() == 1);
    assert(reward_steps(c, tokens, cur, 0) == Some((es, 0int)));
    assert(c.reward_run(o, block_timestamp) == reward_step(c, es, 0, t, 1, cur));
    assert(simulated_upto(c, tokens, cur, 0, 0) == Some(0int));
    lemma_total_weight_positive(es, c.user_stakes@, c.duration_multipliers@, c.tier_bonuses@, p);
    let dm = duration_multiplier(c.duration_multipliers@, s.lock_duration);
    assert(weight_factor(dm, tm) == 1 * dm * tm / 10_000);
    match total_weight(es, c.user_stakes@, c.duration_multipliers@, c.tier_bonuses@) {
        None => {},
        Some(tw) => {
            assert(tw >= 1);
            assert(simulated_upto(c, tokens, cur, tw, 0) == Some(0int));
            assert(simulated_upto(c, tokens, cur, tw, 1) == match reward_step(c, es, 0, t, 1, cur) {
                Some(r) => Some(r.1),
                None => None,
            });
        },
    }
}

} // verus!
