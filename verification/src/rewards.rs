//! Reward weights and reward processing of `StakingContract`.
use vstd::prelude::*;
use crate::contract::{DurationMultiplier, TierBonus, Stake, StakingContract, StakingError, StakingResult};
use crate::strmap::{StrMap, has_key, key_pos, keys_unique, entries_map, lemma_key_pos};
use crate::tokens_of;
use crate::lists::copy_strings;
use crate::text::str_views;
use crate::NANOS_PER_SEC;

verus! {

/// Every token list fits a `u32` length.
pub open spec fn lists_fit(users: Map<Seq<char>, Vec<String>>) -> bool {
    forall|o: Seq<char>| #[trigger] users.contains_key(o) ==> users[o]@.len() <= u32::MAX
}

/// The multiplier of the first entry for duration `d`, or 10000 (1x) where there is none.
pub open spec fn duration_multiplier(dms: Seq<DurationMultiplier>, d: u64) -> u32
    decreases dms.len(),
{
    if dms.len() == 0 {
        10_000
    } else if dms[0].duration_sec == d {
        dms[0].multiplier_bps
    } else {
        duration_multiplier(dms.drop_first(), d)
    }
}

/// The tier multiplier for an owner of `count` NFTs, in basis points: 10000 plus the bonus of
/// the last tier whose minimum `count` reaches, 10000 where none does; `None` where a reached
/// tier's 10000 plus bonus overflows a `u32`.
pub open spec fn tier_bonus(tiers: Seq<TierBonus>, count: int) -> Option<u32>
    decreases tiers.len(),
{
    if tiers.len() == 0 {
        Some(10_000u32)
    } else {
        match tier_bonus(tiers.drop_last(), count) {
            None => None,
            Some(b) => {
                let t = tiers.last();
                if count >= t.min_nfts {
                    if 10_000 + t.bonus_bps > u32::MAX {
                        None
                    } else {
                        Some((10_000 + t.bonus_bps) as u32)
                    }
                } else {
                    Some(b)
                }
            },
        }
    }
}

/// The weight of one stake in basis points (10000 = 1x): the duration multiplier times the
/// tier multiplier, both in basis points, over 10000; at least 1x.
pub open spec fn weight_factor(dm: u32, tm: u32) -> int {
    let w = (dm as int * tm as int) / 10_000;
    if w < 10_000 {
        10_000
    } else {
        w
    }
}

/// An upper bound on `weight_factor`.
pub open spec fn max_weight() -> int {
    1_844_674_407_370_955
}

/// How many tokens `o` has listed.
pub open spec fn owner_count(users: Map<Seq<char>, Vec<String>>, o: Seq<char>) -> int {
    tokens_of(users, o).len() as int
}

/// The weight of stake `s`, `None` where its owner's tier multiplier overflows.
pub open spec fn stake_weight(
    s: Stake,
    users: Map<Seq<char>, Vec<String>>,
    dms: Seq<DurationMultiplier>,
    tiers: Seq<TierBonus>,
) -> Option<int> {
    match tier_bonus(tiers, owner_count(users, s.owner_id@)) {
        None => None,
        Some(tm) => Some(weight_factor(duration_multiplier(dms, s.lock_duration), tm)),
    }
}

/// The summed weight of the active stakes, in order; `None` where a weight overflows.
pub open spec fn total_weight(
    es: Seq<(String, Stake)>,
    users: Map<Seq<char>, Vec<String>>,
    dms: Seq<DurationMultiplier>,
    tiers: Seq<TierBonus>,
) -> Option<int>
    decreases es.len(),
{
    if es.len() == 0 {
        Some(0)
    } else {
        match total_weight(es.drop_last(), users, dms, tiers) {
            None => None,
            Some(acc) => if !es.last().1.active {
                Some(acc)
            } else {
                match stake_weight(es.last().1, users, dms, tiers) {
                    None => None,
                    Some(w) => Some(acc + w),
                }
            },
        }
    }
}

pub proof fn lemma_weight_factor_bounds(dm: u32, tm: u32)
    ensures
        10_000 <= weight_factor(dm, tm) <= max_weight(),
{
    assert(dm as int * tm as int <= 0xffff_ffff * 0xffff_ffff) by (nonlinear_arith)
        requires
            dm <= 0xffff_ffff,
            tm <= 0xffff_ffff,
            0 <= dm,
            0 <= tm,
    ;
}

proof fn lemma_tier_none_extends(tiers: Seq<TierBonus>, count: int, n: int, m: int)
    requires
        0 <= n <= m <= tiers.len(),
        tier_bonus(tiers.take(n), count) is None,
    ensures
        tier_bonus(tiers.take(m), count) is None,
    decreases m - n,
{
    if n < m {
        lemma_tier_none_extends(tiers, count, n, m - 1);
        assert(tiers.take(m).drop_last() =~= tiers.take(m - 1));
    }
}

proof fn lemma_total_weight_none_extends(
    es: Seq<(String, Stake)>,
    users: Map<Seq<char>, Vec<String>>,
    dms: Seq<DurationMultiplier>,
    tiers: Seq<TierBonus>,
    n: int,
    m: int,
)
    requires
        0 <= n <= m <= es.len(),
        total_weight(es.take(n), users, dms, tiers) is None,
    ensures
        total_weight(es.take(m), users, dms, tiers) is None,
    decreases m - n,
{
    if n < m {
        lemma_total_weight_none_extends(es, users, dms, tiers, n, m - 1);
        assert(es.take(m).drop_last() =~= es.take(m - 1));
    }
}

/// The multiplier of the first entry for `duration`, or 10000 where there is none.
pub fn multiplier_for(dms: &Vec<DurationMultiplier>, duration: u64) -> (m: u32)
    ensures
        m == duration_multiplier(dms@, duration),
{
    let mut i: usize = 0;
    assert(dms@.skip(0) =~= dms@);
    while i < dms.len()
        invariant
            i <= dms@.len(),
            duration_multiplier(dms@, duration) == duration_multiplier(dms@.skip(i as int), duration),
        decreases dms@.len() - i,
    {
        assert(dms@.skip(i as int)[0] == dms@[i as int]);
        if dms[i].duration_sec == duration {
            return dms[i].multiplier_bps;
        }
        assert(dms@.skip(i as int).drop_first() =~= dms@.skip(i + 1));
        i = i + 1;
    }
    assert(dms@.skip(i as int) =~= Seq::<DurationMultiplier>::empty());
    10_000
}

/// The tier multiplier for an owner of `nft_count` NFTs; fails where a reached tier overflows.
pub fn tier_bonus_for(tiers: &Vec<TierBonus>, nft_count: u32) -> (r: StakingResult<u32>)
    ensures
        match tier_bonus(tiers@, nft_count as int) {
            Some(b) => r == Ok::<u32, StakingError>(b),
            None => r == Err::<u32, StakingError>(StakingError::ArithmeticOverflow),
        },
{
    let mut bonus: u32 = 10_000;
    let mut i: usize = 0;
    assert(tiers@.take(0) =~= Seq::<TierBonus>::empty());
    while i < tiers.len()
        invariant
            i <= tiers@.len(),
            tier_bonus(tiers@.take(i as int), nft_count as int) == Some(bonus),
        decreases tiers@.len() - i,
    {
        let t = tiers[i];
        assert(tiers@.take(i + 1).drop_last() =~= tiers@.take(i as int));
        assert(tiers@.take(i + 1).last() == t);
        if nft_count >= t.min_nfts {
            match 10_000u32.checked_add(t.bonus_bps) {
                Some(b) => {
                    bonus = b;
                },
                None => {
                    proof {
                        lemma_tier_none_extends(tiers@, nft_count as int, i + 1, tiers@.len() as int);
                        assert(tiers@.take(tiers@.len() as int) =~= tiers@);
                    }
                    return Err(StakingError::ArithmeticOverflow);
                },
            }
        }
        i = i + 1;
    }
    assert(tiers@.take(tiers@.len() as int) =~= tiers@);
    Ok(bonus)
}

/// The summed weight of the active stakes; fails where a tier multiplier overflows.
pub fn total_weight_for(
    stakes: &StrMap<Stake>,
    users: &StrMap<Vec<String>>,
    dms: &Vec<DurationMultiplier>,
    tiers: &Vec<TierBonus>,
) -> (r: StakingResult<u128>)
    requires
        users.wf(),
        lists_fit(users@),
    ensures
        r is Ok <==> total_weight(stakes.entries@, users@, dms@, tiers@) is Some,
        r matches Ok(v) ==> total_weight(stakes.entries@, users@, dms@, tiers@) == Some(v as int)
            && v <= stakes.entries@.len() * max_weight(),
        r is Err ==> r == Err::<u128, StakingError>(StakingError::ArithmeticOverflow),
{
    let mut total: u128 = 0;
    let mut i: usize = 0;
    let ghost es = stakes.entries@;
    assert(es.take(0) =~= Seq::<(String, Stake)>::empty());
    while i < stakes.entries.len()
        invariant
            users.wf(),
            lists_fit(users@),
            es == stakes.entries@,
            i <= es.len(),
            total_weight(es.take(i as int), users@, dms@, tiers@) == Some(total as int),
            total <= i * max_weight(),
        decreases es.len() - i,
    {
        assert(es.take(i + 1).drop_last() =~= es.take(i as int));
        assert(es.take(i + 1).last() == es[i as int]);
        let s = &stakes.entries[i].1;
        if s.active {
            let count: u32 = match users.get(&s.owner_id) {
                Some(v) => v.len() as u32,
                None => 0,
            };
            assert(count == owner_count(users@, s.owner_id@));
            let dm = multiplier_for(dms, s.lock_duration);
            let tm = match tier_bonus_for(tiers, count) {
                Ok(b) => b,
                Err(e) => {
                    proof {
                        lemma_total_weight_none_extends(es, users@, dms@, tiers@, i + 1, es.len() as int);
                        assert(es.take(es.len() as int) =~= es);
                    }
                    return Err(e);
                },
            };
            assert((dm as u128) * (tm as u128) <= 0xffff_ffff * 0xffff_ffff) by (nonlinear_arith)
                requires
                    dm <= 0xffff_ffff,
                    tm <= 0xffff_ffff,
            ;
            let factor = (dm as u128) * (tm as u128) / 10_000;
            let w = if factor < 10_000 {
                10_000
            } else {
                factor
            };
            proof {
                lemma_weight_factor_bounds(dm, tm);
            }
            assert(w == weight_factor(dm, tm));
            total = total + w;
        }
        i = i + 1;
    }
    assert(es.take(es.len() as int) =~= es);
    Ok(total)
}

/// `a` is `b` with, at most, other claim epochs and activity flags.
pub open spec fn only_claims_differ(a: Seq<(String, Stake)>, b: Seq<(String, Stake)>) -> bool {
    &&& a.len() == b.len()
    &&& forall|j: int|
        0 <= j < a.len() ==> {
            &&& (#[trigger] a[j]).0 == b[j].0
            &&& a[j].1.owner_id == b[j].1.owner_id
            &&& a[j].1.token_id == b[j].1.token_id
            &&& a[j].1.nft_contract_id == b[j].1.nft_contract_id
            &&& a[j].1.staked_at == b[j].1.staked_at
            &&& a[j].1.lock_duration == b[j].1.lock_duration
            &&& a[j].1.unlocked_at == b[j].1.unlocked_at
        }
}

pub proof fn lemma_only_claims_differ(a: Seq<(String, Stake)>, b: Seq<(String, Stake)>)
    requires
        only_claims_differ(a, b),
        keys_unique(b),
    ensures
        keys_unique(a),
        forall|k: Seq<char>| #[trigger] has_key(a, k) == has_key(b, k),
        forall|k: Seq<char>| #[trigger]
            entries_map(a).contains_key(k) == entries_map(b).contains_key(k),
        forall|k: Seq<char>| #[trigger]
            entries_map(a).contains_key(k) ==> entries_map(a)[k].owner_id == entries_map(
                b,
            )[k].owner_id && entries_map(a)[k].lock_duration == entries_map(b)[k].lock_duration
                && entries_map(a)[k].unlocked_at == entries_map(b)[k].unlocked_at
                && entries_map(a)[k].token_id == entries_map(b)[k].token_id
                && entries_map(a)[k].nft_contract_id == entries_map(b)[k].nft_contract_id
                && entries_map(a)[k].staked_at == entries_map(b)[k].staked_at,
{
    assert forall|i: int, j: int|
        0 <= i < a.len() && 0 <= j < a.len() && i != j implies (#[trigger] a[i]).0@ != (
        #[trigger] a[j]).0@ by {
        assert(b[i].0@ != b[j].0@);
    }
    assert forall|k: Seq<char>| #[trigger] has_key(a, k) == has_key(b, k) by {
        if has_key(a, k) {
            let i = key_pos(a, k);
            assert(b[i].0@ == k);
        }
        if has_key(b, k) {
            let i = key_pos(b, k);
            assert(a[i].0@ == k);
        }
    }
    assert forall|k: Seq<char>| #[trigger]
        entries_map(a).contains_key(k) implies entries_map(a)[k].owner_id == entries_map(
        b,
    )[k].owner_id && entries_map(a)[k].lock_duration == entries_map(b)[k].lock_duration
        && entries_map(a)[k].unlocked_at == entries_map(b)[k].unlocked_at
        && entries_map(a)[k].token_id == entries_map(b)[k].token_id
        && entries_map(a)[k].nft_contract_id == entries_map(b)[k].nft_contract_id
        && entries_map(a)[k].staked_at == entries_map(b)[k].staked_at by {
        let i = key_pos(a, k);
        lemma_key_pos(a, i);
        lemma_key_pos(b, i);
    }
}

/// Processing token `t` of an owner who lists `count` tokens, up to epoch `cur`, with the
/// stakes `es` and the reward `acc` so far: an active stake with unclaimed epochs earns, for
/// each newly claimed epoch, `weight * (pool / total weight)`, where `weight` is `count *
/// duration multiplier * tier multiplier / 10000`, in basis points like the total weight (the
/// multipliers are in basis points too); it is marked claimed up to the earlier of its lock's end epoch and `cur`, staying
/// active while that is before its end. `None` where an amount overflows.
pub open spec fn reward_step(
    c: StakingContract,
    es: Seq<(String, Stake)>,
    acc: int,
    t: Seq<char>,
    count: int,
    cur: u64,
) -> Option<(Seq<(String, Stake)>, int)> {
    if !has_key(es, t) {
        Some((es, acc))
    } else {
        let p = key_pos(es, t);
        let s = es[p].1;
        let end = s.unlocked_at / c.epoch_duration;
        let cu = if end < cur {
            end
        } else {
            cur
        };
        if !s.active || cu <= s.last_claim_epoch {
            Some((es, acc))
        } else {
            match tier_bonus(c.tier_bonuses@, count) {
                None => None,
                Some(tm) => {
                    let weight = count * duration_multiplier(c.duration_multipliers@, s.lock_duration)
                        * tm / 10_000;
                    match total_weight(es, c.user_stakes@, c.duration_multipliers@, c.tier_bonuses@) {
                        None => None,
                        Some(tw) => if tw == 0 {
                            Some((es, acc))
                        } else {
                            let per_epoch = weight * ((c.reward_pool as int) / tw);
                            let share = per_epoch * (cu - s.last_claim_epoch);
                            if per_epoch > u128::MAX || share > u128::MAX || acc + share
                                > u128::MAX {
                                None
                            } else {
                                Some(
                                    (
                                        es.update(
                                            p,
                                            (
                                                es[p].0,
                                                Stake {
                                                    last_claim_epoch: cu as u64,
                                                    active: cu < end,
                                                    ..s
                                                },
                                            ),
                                        ),
                                        acc + share,
                                    ),
                                )
                            }
                        },
                    }
                },
            }
        }
    }
}

/// The stakes and the total reward after processing the first `n` of `tokens`.
pub open spec fn reward_steps(
    c: StakingContract,
    tokens: Seq<Seq<char>>,
    cur: u64,
    n: int,
) -> Option<(Seq<(String, Stake)>, int)>
    decreases n,
{
    if n <= 0 {
        Some((c.stakes.entries@, 0))
    } else {
        match reward_steps(c, tokens, cur, n - 1) {
            None => None,
            Some(r) => reward_step(c, r.0, r.1, tokens[n - 1], tokens.len() as int, cur),
        }
    }
}

proof fn lemma_reward_steps_none_extends(
    c: StakingContract,
    tokens: Seq<Seq<char>>,
    cur: u64,
    n: int,
    m: int,
)
    requires
        0 <= n <= m,
        reward_steps(c, tokens, cur, n) is None,
    ensures
        reward_steps(c, tokens, cur, m) is None,
    decreases m - n,
{
    if n < m {
        lemma_reward_steps_none_extends(c, tokens, cur, n, m - 1);
    }
}

/// A copy of a stake map.
pub fn copy_stakes(m: &StrMap<Stake>) -> (r: StrMap<Stake>)
    ensures
        r.entries@ == m.entries@,
{
    let mut entries: Vec<(String, Stake)> = Vec::new();
    let mut i: usize = 0;
    while i < m.entries.len()
        invariant
            i <= m.entries@.len(),
            entries@ == m.entries@.take(i as int),
        decreases m.entries@.len() - i,
    {
        entries.push((m.entries[i].0.clone(), m.entries[i].1.copy()));
        i = i + 1;
        assert(entries@ =~= m.entries@.take(i as int));
    }
    assert(m.entries@.take(m.entries@.len() as int) =~= m.entries@);
    StrMap { entries }
}

impl StakingContract {
    /// Processes the stakes of `list` on a copy of the stakes, without touching the contract.
    pub fn reward_plan(&self, list: &Vec<String>, current_epoch: u64) -> (r: StakingResult<
        (StrMap<Stake>, u128),
    >)
        requires
            self.wf(),
            list@.len() <= u32::MAX,
        ensures
            match reward_steps(
                *self,
                crate::text::str_views(list@),
                current_epoch,
                list@.len() as int,
            ) {
                None => r == Err::<(StrMap<Stake>, u128), StakingError>(
                    StakingError::ArithmeticOverflow,
                ),
                Some(res) => r matches Ok(p) && p.0.entries@ == res.0 && p.1 == res.1 && p.0.wf()
                    && only_claims_differ(res.0, self.stakes.entries@),
            },
    {
        let ghost tokens = crate::text::str_views(list@);
        let mut work = copy_stakes(&self.stakes);
        let count: u32 = list.len() as u32;
        let mut total: u128 = 0;
        let mut i: usize = 0;
        while i < list.len()
            invariant
                self.wf(),
                tokens == crate::text::str_views(list@),
                count == list@.len(),
                list@.len() <= u32::MAX,
                i <= list@.len(),
                work.wf(),
                reward_steps(*self, tokens, current_epoch, i as int) == Some(
                    (work.entries@, total as int),
                ),
                only_claims_differ(work.entries@, self.stakes.entries@),
            decreases list@.len() - i,
        {
            let ghost es = work.entries@;
            assert(tokens[i as int] == list@[i as int]@);
            match work.find(&list[i]) {
                None => {},
                Some(p) => {
                    proof {
                        lemma_key_pos(es, p as int);
                    }
                    let active = work.entries[p].1.active;
                    let unlocked_at = work.entries[p].1.unlocked_at;
                    let last = work.entries[p].1.last_claim_epoch;
                    let lock = work.entries[p].1.lock_duration;
                    let end = unlocked_at / self.epoch_duration;
                    let cu = if end < current_epoch {
                        end
                    } else {
                        current_epoch
                    };
                    if active && cu > last {
                        let dm = multiplier_for(&self.duration_multipliers, lock);
                        let tm = match tier_bonus_for(&self.tier_bonuses, count) {
                            Ok(b) => b,
                            Err(e) => {
                                proof {
                                    lemma_reward_steps_none_extends(
                                        *self,
                                        tokens,
                                        current_epoch,
                                        i + 1,
                                        list@.len() as int,
                                    );
                                }
                                return Err(e);
                            },
                        };
                        assert((count as u128) * (dm as u128) <= 0xffff_ffff * 0xffff_ffff)
                            by (nonlinear_arith)
                            requires
                                count <= 0xffff_ffff,
                                dm <= 0xffff_ffff,
                        ;
                        assert((count as u128) * (dm as u128) * (tm as u128) <= 0xffff_ffff
                            * 0xffff_ffff * 0xffff_ffff) by (nonlinear_arith)
                            requires
                                count <= 0xffff_ffff,
                                dm <= 0xffff_ffff,
                                tm <= 0xffff_ffff,
                        ;
                        let weight = (count as u128) * (dm as u128) * (tm as u128) / 10_000;
                        let tw = match total_weight_for(
                            &work,
                            &self.user_stakes,
                            &self.duration_multipliers,
                            &self.tier_bonuses,
                        ) {
                            Ok(w) => w,
                                Err(e) => {
                                proof {
                                    assert(has_key(es, tokens[i as int]));
                                    assert(key_pos(es, tokens[i as int]) == p);
                                    assert(tier_bonus(self.tier_bonuses@, tokens.len() as int)
                                        == Some(tm));
                                    assert(total_weight(
                                        es,
                                        self.user_stakes@,
                                        self.duration_multipliers@,
                                        self.tier_bonuses@,
                                    ) is None);
                                    assert(reward_steps(*self, tokens, current_epoch, i + 1) is None);
                                    lemma_reward_steps_none_extends(
                                        *self,
                                        tokens,
                                        current_epoch,
                                        i + 1,
                                        list@.len() as int,
                                    );
                                }
                                return Err(e);
                            },
                        };
                        proof {
                            assert(has_key(es, tokens[i as int]));
                            assert(key_pos(es, tokens[i as int]) == p);
                            assert(tier_bonus(self.tier_bonuses@, tokens.len() as int) == Some(tm));
                            assert(weight == tokens.len() * duration_multiplier(
                                self.duration_multipliers@,
                                es[p as int].1.lock_duration,
                            ) * tm / 10_000);
                            assert(total_weight(
                                es,
                                self.user_stakes@,
                                self.duration_multipliers@,
                                self.tier_bonuses@,
                            ) == Some(tw as int));
                        }
                        if tw > 0 {
                            let rpw = self.reward_pool / tw;
                            assert(rpw == (self.reward_pool as int) / (tw as int));
                            let epochs = (cu - last) as u128;
                            let share = match weight.checked_mul(rpw) {
                                Some(x) => match x.checked_mul(epochs) {
                                    Some(y) => y,
                                    None => {
                                        proof {
                                            lemma_reward_steps_none_extends(
                                                *self,
                                                tokens,
                                                current_epoch,
                                                i + 1,
                                                list@.len() as int,
                                            );
                                        }
                                        return Err(StakingError::ArithmeticOverflow);
                                    },
                                },
                                None => {
                                    proof {
                                        lemma_reward_steps_none_extends(
                                            *self,
                                            tokens,
                                            current_epoch,
                                            i + 1,
                                            list@.len() as int,
                                        );
                                    }
                                    return Err(StakingError::ArithmeticOverflow);
                                },
                            };
                            total = match total.checked_add(share) {
                                Some(x) => x,
                                None => {
                                    proof {
                                        lemma_reward_steps_none_extends(
                                            *self,
                                            tokens,
                                            current_epoch,
                                            i + 1,
                                            list@.len() as int,
                                        );
                                    }
                                    return Err(StakingError::ArithmeticOverflow);
                                },
                            };
                            let old_stake = work.entries[p].1.copy();
                            let updated = Stake {
                                last_claim_epoch: cu,
                                active: cu < end,
                                ..old_stake
                            };
                            work.set_value(p, updated);
                            assert(only_claims_differ(work.entries@, self.stakes.entries@)) by {
                                assert forall|j: int| 0 <= j < work.entries@.len() implies {
                                    &&& (#[trigger] work.entries@[j]).0
                                        == self.stakes.entries@[j].0
                                    &&& work.entries@[j].1.owner_id
                                        == self.stakes.entries@[j].1.owner_id
                                    &&& work.entries@[j].1.token_id
                                        == self.stakes.entries@[j].1.token_id
                                    &&& work.entries@[j].1.nft_contract_id
                                        == self.stakes.entries@[j].1.nft_contract_id
                                    &&& work.entries@[j].1.staked_at
                                        == self.stakes.entries@[j].1.staked_at
                                    &&& work.entries@[j].1.lock_duration
                                        == self.stakes.entries@[j].1.lock_duration
                                    &&& work.entries@[j].1.unlocked_at
                                        == self.stakes.entries@[j].1.unlocked_at
                                } by {
                                    assert(es[j] == es[j]);
                                }
                            }
                        }
                    }
                },
            }
            i = i + 1;
        }
        Ok((work, total))
    }
}

/// The weight of the stakes among the first `n` of an owner's `tokens`: each active stake adds
/// `weight_factor` of its duration multiplier and of the tier multiplier for `tokens.len()` NFTs.
pub open spec fn user_weight_upto(c: StakingContract, tokens: Seq<Seq<char>>, n: int) -> Option<int>
    decreases n,
{
    if n <= 0 {
        Some(0)
    } else {
        match user_weight_upto(c, tokens, n - 1) {
            None => None,
            Some(acc) => {
                let t = tokens[n - 1];
                if !c.stakes@.contains_key(t) || !c.stakes@[t].active {
                    Some(acc)
                } else {
                    match tier_bonus(c.tier_bonuses@, tokens.len() as int) {
                        None => None,
                        Some(tm) => Some(
                            acc + weight_factor(
                                duration_multiplier(
                                    c.duration_multipliers@,
                                    c.stakes@[t].lock_duration,
                                ),
                                tm,
                            ),
                        ),
                    }
                }
            },
        }
    }
}

proof fn lemma_user_weight_none_extends(c: StakingContract, tokens: Seq<Seq<char>>, n: int, m: int)
    requires
        0 <= n <= m,
        user_weight_upto(c, tokens, n) is None,
    ensures
        user_weight_upto(c, tokens, m) is None,
    decreases m - n,
{
    if n < m {
        lemma_user_weight_none_extends(c, tokens, n, m - 1);
    }
}

impl StakingContract {
    /// The weight of `o`'s stakes; zero where `o` lists no tokens.
    pub open spec fn user_weight(&self, o: Seq<char>) -> Option<int> {
        if self.user_tokens(o).len() == 0 {
            Some(0)
        } else {
            user_weight_upto(*self, self.user_tokens(o), self.user_tokens(o).len() as int)
        }
    }

    /// Processing `o`'s stakes at this time.
    pub open spec fn reward_run(&self, o: Seq<char>, block_timestamp: u64) -> Option<
        (Seq<(String, Stake)>, int),
    > {
        reward_steps(
            *self,
            self.user_tokens(o),
            self.epoch_at(block_timestamp),
            self.user_tokens(o).len() as int,
        )
    }

    /// `o` has a token list.
    pub open spec fn has_list(&self, o: Seq<char>) -> bool {
        self.user_stakes@.contains_key(o)
    }

    /// Processing `o`'s rewards at this time overflows.
    pub open spec fn process_fails(&self, o: Seq<char>, block_timestamp: u64) -> bool {
        &&& self.has_list(o)
        &&& match self.reward_run(o, block_timestamp) {
            None => true,
            Some(r) => r.1 > 0 && self.rewards_of(o) + r.1 > u128::MAX,
        }
    }

    /// The rewards that processing `o`'s stakes at this time yields.
    pub open spec fn reward_total(&self, o: Seq<char>, block_timestamp: u64) -> int {
        if self.has_list(o) {
            match self.reward_run(o, block_timestamp) {
                Some(r) => r.1,
                None => 0,
            }
        } else {
            0
        }
    }

    /// The stakes after processing `o`'s rewards at this time.
    pub open spec fn stakes_after(&self, o: Seq<char>, block_timestamp: u64) -> Seq<
        (String, Stake),
    > {
        match self.reward_run(o, block_timestamp) {
            Some(r) => if self.has_list(o) {
                r.0
            } else {
                self.stakes.entries@
            },
            None => self.stakes.entries@,
        }
    }

    /// The processed rewards after processing `o`'s rewards at this time.
    pub open spec fn rewards_after(&self, o: Seq<char>, block_timestamp: u64) -> Map<
        Seq<char>,
        u128,
    > {
        if self.reward_total(o, block_timestamp) > 0 {
            self.epoch_rewards@.insert(
                o,
                (self.rewards_of(o) + self.reward_total(o, block_timestamp)) as u128,
            )
        } else {
            self.epoch_rewards@
        }
    }

    /// What `o` can claim at this time: its processed rewards once this processing is added.
    pub open spec fn claim_balance(&self, o: Seq<char>, block_timestamp: u64) -> int {
        self.rewards_of(o) + self.reward_total(o, block_timestamp)
    }

    /// The last update epoch after processing `o`'s rewards at this time.
    pub open spec fn epoch_update_after(&self, o: Seq<char>, block_timestamp: u64) -> u64 {
        if self.has_list(o) {
            self.epoch_at(block_timestamp)
        } else {
            self.last_epoch_update
        }
    }

    /// `self` has the owner, settings, owner lists and stake count of `other`.
    pub open spec fn keeps_settings(&self, other: &StakingContract) -> bool {
        &&& self.owner_id == other.owner_id
        &&& self.reward_token == other.reward_token
        &&& self.user_stakes == other.user_stakes
        &&& self.total_staked == other.total_staked
        &&& self.epoch_duration == other.epoch_duration
        &&& self.duration_multipliers == other.duration_multipliers
        &&& self.tier_bonuses == other.tier_bonuses
    }

    /// `new` is this state after processing `o`'s rewards at this time.
    pub open spec fn processed(&self, new: &StakingContract, o: Seq<char>, block_timestamp: u64) -> bool {
        &&& new.keeps_settings(self)
        &&& new.reward_pool == self.reward_pool
        &&& new.stakes.entries@ == self.stakes_after(o, block_timestamp)
        &&& new.epoch_rewards@ == self.rewards_after(o, block_timestamp)
        &&& new.last_epoch_update == self.epoch_update_after(o, block_timestamp)
    }

    /// The multiplier of `duration`, 10000 where it has none.
    pub fn get_duration_multiplier(&self, duration: u64) -> (m: u32)
        ensures
            m == duration_multiplier(self.duration_multipliers@, duration),
    {
        multiplier_for(&self.duration_multipliers, duration)
    }

    /// The tier multiplier for an owner of `nft_count` NFTs.
    pub fn get_tier_bonus(&self, nft_count: u32) -> (r: StakingResult<u32>)
        ensures
            match tier_bonus(self.tier_bonuses@, nft_count as int) {
                Some(b) => r == Ok::<u32, StakingError>(b),
                None => r == Err::<u32, StakingError>(StakingError::ArithmeticOverflow),
            },
    {
        tier_bonus_for(&self.tier_bonuses, nft_count)
    }

    /// The summed weight of all active stakes.
    pub fn calculate_total_weight(&self) -> (r: StakingResult<u128>)
        requires
            self.wf(),
        ensures
            r is Ok <==> total_weight(
                self.stakes.entries@,
                self.user_stakes@,
                self.duration_multipliers@,
                self.tier_bonuses@,
            ) is Some,
            r matches Ok(v) ==> total_weight(
                self.stakes.entries@,
                self.user_stakes@,
                self.duration_multipliers@,
                self.tier_bonuses@,
            ) == Some(v as int),
            r is Err ==> r == Err::<u128, StakingError>(StakingError::ArithmeticOverflow),
    {
        total_weight_for(
            &self.stakes,
            &self.user_stakes,
            &self.duration_multipliers,
            &self.tier_bonuses,
        )
    }

    /// The weight of `owner_id`'s stakes, counting every listed token whose stake is active, as
    /// the total weight does.
    pub fn get_user_weight(&self, owner_id: &String) -> (r: StakingResult<u128>)
        requires
            self.wf(),
        ensures
            r is Ok <==> self.user_weight(owner_id@) is Some,
            r matches Ok(v) ==> self.user_weight(owner_id@) == Some(v as int),
            r is Err ==> r == Err::<u128, StakingError>(StakingError::ArithmeticOverflow),
    {
        let list = match self.user_stakes.get(owner_id) {
            Some(v) => v,
            None => {
                return Ok(0);
            },
        };
        let count = list.len() as u32;
        if count == 0 {
            return Ok(0);
        }
        let ghost tokens = str_views(list@);
        let mut weighted: u128 = 0;
        let mut i: usize = 0;
        while i < list.len()
            invariant
                self.wf(),
                tokens == str_views(list@),
                tokens == self.user_tokens(owner_id@),
                count == list@.len(),
                i <= list@.len(),
                user_weight_upto(*self, tokens, i as int) == Some(weighted as int),
                weighted <= i * max_weight(),
            decreases list@.len() - i,
        {
            assert(tokens[i as int] == list@[i as int]@);
            match self.stakes.get(&list[i]) {
                Some(stake) if stake.active => {
                    let dm = self.get_duration_multiplier(stake.lock_duration);
                    let tm = match self.get_tier_bonus(count) {
                        Ok(b) => b,
                        Err(e) => {
                            proof {
                                lemma_user_weight_none_extends(
                                    *self,
                                    tokens,
                                    i + 1,
                                    tokens.len() as int,
                                );
                            }
                            return Err(e);
                        },
                    };
                    assert((dm as u128) * (tm as u128) <= 0xffff_ffff * 0xffff_ffff)
                        by (nonlinear_arith)
                        requires
                            dm <= 0xffff_ffff,
                            tm <= 0xffff_ffff,
                    ;
                    let factor = (dm as u128) * (tm as u128) / 10_000;
                    let w = if factor < 10_000 {
                        10_000
                    } else {
                        factor
                    };
                    proof {
                        lemma_weight_factor_bounds(dm, tm);
                    }
                    assert(w == weight_factor(dm, tm));
                    weighted = weighted + w;
                },
                Some(_) => {},
                None => {},
            }
            i = i + 1;
        }
        Ok(weighted)
    }

    /// Works out the processing of `owner_id`'s rewards at this time without applying it:
    /// `None` where `owner_id` has no token list.
    pub(crate) fn plan_processing(&self, owner_id: &String, block_timestamp: u64) -> (r: StakingResult<
        Option<(StrMap<Stake>, u128)>,
    >)
        requires
            self.wf(),
        ensures
            r is Err <==> (self.has_list(owner_id@) && self.reward_run(owner_id@, block_timestamp)
                is None),
            r is Err ==> r == Err::<Option<(StrMap<Stake>, u128)>, StakingError>(
                StakingError::ArithmeticOverflow,
            ),
            r matches Ok(None) ==> !self.has_list(owner_id@),
            r matches Ok(Some(p)) ==> self.has_list(owner_id@) && self.reward_run(
                owner_id@,
                block_timestamp,
            ) == Some((p.0.entries@, p.1 as int)) && p.0.wf() && only_claims_differ(
                p.0.entries@,
                self.stakes.entries@,
            ),
    {
        let now = block_timestamp / NANOS_PER_SEC;
        let cur = self.to_epoch(now);
        match self.user_stakes.get(owner_id) {
            None => Ok(None),
            Some(l) => {
                let list = copy_strings(l);
                let p = self.reward_plan(&list, cur)?;
                Ok(Some(p))
            },
        }
    }

    /// Applies a processing of `owner_id`'s rewards: the processed stakes, `new_total` as its
    /// processed rewards where it earned something, and `cur` as last update epoch.
    pub(crate) fn commit_processing(
        &mut self,
        owner_id: &String,
        work: StrMap<Stake>,
        earned: u128,
        new_total: u128,
        cur: u64,
    )
        requires
            old(self).wf(),
            work.wf(),
            only_claims_differ(work.entries@, old(self).stakes.entries@),
        ensures
            final(self).wf(),
            final(self).keeps_settings(old(self)),
            final(self).reward_pool == old(self).reward_pool,
            final(self).stakes.entries@ == work.entries@,
            final(self).epoch_rewards@ == if earned > 0 {
                old(self).epoch_rewards@.insert(owner_id@, new_total)
            } else {
                old(self).epoch_rewards@
            },
            final(self).last_epoch_update == cur,
    {
        let ghost old_stakes = self.stakes.entries@;
        proof {
            lemma_only_claims_differ(work.entries@, old_stakes);
        }
        self.stakes = work;
        if earned > 0 {
            self.epoch_rewards.insert(owner_id.clone(), new_total);
        }
        self.last_epoch_update = cur;
        proof {
            let o0 = old(self);
            assert forall|t: Seq<char>| #[trigger] self.stakes@.contains_key(t) implies self.user_stakes@.contains_key(
                self.stakes@[t].owner_id@,
            ) && self.user_tokens(self.stakes@[t].owner_id@).contains(t) by {
                assert(o0.stakes@.contains_key(t));
            }
            assert forall|o: Seq<char>, t: Seq<char>| #[trigger]
                self.user_tokens(o).contains(t) implies self.stakes@.contains_key(t)
                && self.stakes@[t].owner_id@ == o by {
                assert(o0.user_tokens(o).contains(t));
                assert(o0.stakes@.contains_key(t));
            }
            assert forall|o: Seq<char>| #[trigger] self.user_tokens(o).no_duplicates() by {
                assert(o0.user_tokens(o).no_duplicates());
            }
            assert forall|t: Seq<char>| #[trigger] self.stakes@.contains_key(t) implies self.stakes@[
                t].token_id@ == t by {
                assert(o0.stakes@.contains_key(t));
            }
        }
    }

    /// Processes `owner_id`'s rewards: each of its active stakes earns its per-epoch share for
    /// every epoch not yet claimed and is marked claimed; the sum is added to its processed
    /// rewards and returned.
    pub fn process_rewards(&mut self, owner_id: &String, block_timestamp: u64) -> (r:
        StakingResult<u128>)
        requires
            old(self).wf(),
        ensures
            final(self).wf(),
            r is Err <==> old(self).process_fails(owner_id@, block_timestamp),
            r is Err ==> r == Err::<u128, StakingError>(StakingError::ArithmeticOverflow),
            r is Err ==> *final(self) == *old(self),
            r matches Ok(v) ==> v == old(self).reward_total(owner_id@, block_timestamp),
            r is Ok ==> old(self).processed(final(self), owner_id@, block_timestamp),
            r is Ok ==> only_claims_differ(final(self).stakes.entries@, old(self).stakes.entries@),
    {
        let cur = self.to_epoch(block_timestamp / NANOS_PER_SEC);
        match self.plan_processing(owner_id, block_timestamp)? {
            None => {
                assert(only_claims_differ(self.stakes.entries@, self.stakes.entries@));
                Ok(0)
            },
            Some((work, total)) => {
                let prev: u128 = match self.epoch_rewards.get(owner_id) {
                    Some(v) => *v,
                    None => 0,
                };
                let new_total = if total > 0 {
                    match prev.checked_add(total) {
                        Some(x) => x,
                        None => {
                            return Err(StakingError::ArithmeticOverflow);
                        },
                    }
                } else {
                    prev
                };
                self.commit_processing(owner_id, work, total, new_total, cur);
                Ok(total)
            },
        }
    }
}

proof fn lemma_total_weight_nonneg(
    es: Seq<(String, Stake)>,
    users: Map<Seq<char>, Vec<String>>,
    dms: Seq<DurationMultiplier>,
    tiers: Seq<TierBonus>,
)
    ensures
        total_weight(es, users, dms, tiers) matches Some(w) ==> w >= 0,
    decreases es.len(),
{
    if es.len() > 0 {
        lemma_total_weight_nonneg(es.drop_last(), users, dms, tiers);
        let s = es.last().1;
        match tier_bonus(tiers, owner_count(users, s.owner_id@)) {
            Some(tm) => lemma_weight_factor_bounds(duration_multiplier(dms, s.lock_duration), tm),
            None => {},
        }
    }
}

/// While some stake is active the total weight is at least 1.
pub(crate) proof fn lemma_total_weight_positive(
    es: Seq<(String, Stake)>,
    users: Map<Seq<char>, Vec<String>>,
    dms: Seq<DurationMultiplier>,
    tiers: Seq<TierBonus>,
    p: int,
)
    requires
        0 <= p < es.len(),
        es[p].1.active,
    ensures
        total_weight(es, users, dms, tiers) matches Some(w) ==> w >= 1,
    decreases es.len(),
{
    lemma_total_weight_nonneg(es.drop_last(), users, dms, tiers);
    if p < es.len() - 1 {
        assert(es.drop_last()[p] == es[p]);
        lemma_total_weight_positive(es.drop_last(), users, dms, tiers, p);
    } else {
        let s = es.last().1;
        match tier_bonus(tiers, owner_count(users, s.owner_id@)) {
            Some(tm) => lemma_weight_factor_bounds(duration_multiplier(dms, s.lock_duration), tm),
            None => {},
        }
    }
}

/// Token `t`'s stake in `es` has nothing left to claim up to epoch `cur`.
pub open spec fn settled(es: Seq<(String, Stake)>, t: Seq<char>, cur: u64, epoch_duration: u64) -> bool {
    has_key(es, t) ==> {
        let s = es[key_pos(es, t)].1;
        let end = s.unlocked_at / epoch_duration;
        let cu = if end < cur {
            end
        } else {
            cur
        };
        !s.active || cu <= s.last_claim_epoch
    }
}

/// After processing the first `n` tokens, each of them is settled, and only claim epochs and
/// activity flags have changed.
proof fn lemma_steps_settle(c: StakingContract, tokens: Seq<Seq<char>>, cur: u64, n: int)
    requires
        0 <= n <= tokens.len(),
        keys_unique(c.stakes.entries@),
        c.epoch_duration > 0,
        reward_steps(c, tokens, cur, n) is Some,
    ensures
        ({
            let run = reward_steps(c, tokens, cur, n).unwrap();
            let es = run.0;
            &&& only_claims_differ(es, c.stakes.entries@)
            &&& keys_unique(es)
            &&& forall|j: int| 0 <= j < n ==> settled(es, #[trigger] tokens[j], cur, c.epoch_duration)
        }),
    decreases n,
{
    if n == 0 {
        assert(only_claims_differ(c.stakes.entries@, c.stakes.entries@));
    } else {
        lemma_steps_settle(c, tokens, cur, n - 1);
        let prev = reward_steps(c, tokens, cur, n - 1).unwrap();
        let es0 = prev.0;
        let t = tokens[n - 1];
        let run = reward_steps(c, tokens, cur, n).unwrap();
        let es = run.0;
        lemma_only_claims_differ(es0, c.stakes.entries@);
        if has_key(es0, t) {
            let p = key_pos(es0, t);
            let s = es0[p].1;
            let end = s.unlocked_at / c.epoch_duration;
            let cu = if end < cur {
                end
            } else {
                cur
            };
            if s.active && cu > s.last_claim_epoch {
                lemma_total_weight_positive(
                    es0,
                    c.user_stakes@,
                    c.duration_multipliers@,
                    c.tier_bonuses@,
                    p,
                );
                let ns = Stake { last_claim_epoch: cu as u64, active: cu < end, ..s };
                assert(es == es0.update(p, (es0[p].0, ns)));
                crate::strmap::lemma_update_same_key(es0, p, (es0[p].0, ns));
                assert(only_claims_differ(es, c.stakes.entries@)) by {
                    assert forall|j: int| 0 <= j < es.len() implies {
                        &&& (#[trigger] es[j]).0 == c.stakes.entries@[j].0
                        &&& es[j].1.owner_id == c.stakes.entries@[j].1.owner_id
                        &&& es[j].1.token_id == c.stakes.entries@[j].1.token_id
                        &&& es[j].1.nft_contract_id == c.stakes.entries@[j].1.nft_contract_id
                        &&& es[j].1.staked_at == c.stakes.entries@[j].1.staked_at
                        &&& es[j].1.lock_duration == c.stakes.entries@[j].1.lock_duration
                        &&& es[j].1.unlocked_at == c.stakes.entries@[j].1.unlocked_at
                    } by {
                        assert(es0[j] == es0[j]);
                    }
                }
                lemma_key_pos(es, p);
                assert forall|j: int| 0 <= j < n implies settled(
                    es,
                    #[trigger] tokens[j],
                    cur,
                    c.epoch_duration,
                ) by {
                    let tj = tokens[j];
                    if tj != t && has_key(es, tj) {
                        assert(has_key(es0, tj)) by {
                            let q = key_pos(es, tj);
                            assert(es0[q].0@ == tj);
                        }
                        let q = key_pos(es0, tj);
                        lemma_key_pos(es0, q);
                        assert(q != p);
                        assert(es[q] == es0[q]);
                        lemma_key_pos(es, q);
                        assert(settled(es0, tj, cur, c.epoch_duration));
                    }
                }
            }
        }
    }
}

/// The epoch up to which processing at epoch `cur` claims stake `s`: the earlier of its lock's
/// end epoch and `cur`.
pub open spec fn claimed_upto(s: Stake, epoch_duration: u64, cur: u64) -> int {
    let end = s.unlocked_at / epoch_duration;
    if end < cur {
        end as int
    } else {
        cur as int
    }
}

/// After processing the first `n` tokens, the entries of the tokens not yet processed are as
/// they were, and each processed one that was active with epochs to claim is claimed up to
/// `claimed_upto` and active exactly while `cur` is before its lock's end epoch.
proof fn lemma_steps_exact(c: StakingContract, tokens: Seq<Seq<char>>, cur: u64, n: int)
    requires
        0 <= n <= tokens.len(),
        tokens.no_duplicates(),
        keys_unique(c.stakes.entries@),
        c.epoch_duration > 0,
        reward_steps(c, tokens, cur, n) is Some,
    ensures
        ({
            let es = reward_steps(c, tokens, cur, n).unwrap().0;
            let b = c.stakes.entries@;
            &&& only_claims_differ(es, b)
            &&& forall|q: int|
                0 <= q < b.len() && !tokens.take(n).contains(#[trigger] b[q].0@) ==> es[q] == b[q]
            &&& forall|q: int|
                0 <= q < b.len() && tokens.take(n).contains(#[trigger] b[q].0@) && b[q].1.active
                    && claimed_upto(b[q].1, c.epoch_duration, cur) > b[q].1.last_claim_epoch ==> {
                    &&& es[q].1.last_claim_epoch == claimed_upto(b[q].1, c.epoch_duration, cur)
                    &&& es[q].1.active == (cur < b[q].1.unlocked_at / c.epoch_duration)
                }
        }),
    decreases n,
{
    let b = c.stakes.entries@;
    if n == 0 {
        assert(only_claims_differ(b, b));
        assert(tokens.take(0) =~= Seq::<Seq<char>>::empty());
    } else {
        lemma_steps_exact(c, tokens, cur, n - 1);
        lemma_steps_settle(c, tokens, cur, n - 1);
        let prev = reward_steps(c, tokens, cur, n - 1).unwrap();
        let es0 = prev.0;
        let t = tokens[n - 1];
        let es = reward_steps(c, tokens, cur, n).unwrap().0;
        lemma_only_claims_differ(es0, b);
        assert forall|k: Seq<char>| tokens.take(n).contains(k) <==> (tokens.take(n - 1).contains(k)
            || k == t) by {
            if tokens.take(n).contains(k) {
                let j = choose|j: int| 0 <= j < n && #[trigger] tokens.take(n)[j] == k;
                if j < n - 1 {
                    assert(tokens.take(n - 1)[j] == k);
                }
            }
            if tokens.take(n - 1).contains(k) {
                let j = choose|j: int| 0 <= j < n - 1 && #[trigger] tokens.take(n - 1)[j] == k;
                assert(tokens.take(n)[j] == k);
            }
            if k == t {
                assert(tokens.take(n)[n - 1] == k);
            }
        }
        assert(!tokens.take(n - 1).contains(t)) by {
            if tokens.take(n - 1).contains(t) {
                let j = choose|j: int| 0 <= j < n - 1 && #[trigger] tokens.take(n - 1)[j] == t;
                assert(tokens[j] == t);
            }
        }
        if has_key(es0, t) {
            let p = key_pos(es0, t);
            lemma_key_pos(es0, p);
            assert(b[p].0@ == t);
            assert(es0[p] == b[p]);
            let s = es0[p].1;
            let end = s.unlocked_at / c.epoch_duration;
            let cu = if end < cur {
                end
            } else {
                cur
            };
            if s.active && cu > s.last_claim_epoch {
                lemma_total_weight_positive(
                    es0,
                    c.user_stakes@,
                    c.duration_multipliers@,
                    c.tier_bonuses@,
                    p,
                );
                let ns = Stake { last_claim_epoch: cu as u64, active: cu < end, ..s };
                assert(es == es0.update(p, (es0[p].0, ns)));
                assert(only_claims_differ(es, b)) by {
                    assert forall|j: int| 0 <= j < es.len() implies {
                        &&& (#[trigger] es[j]).0 == b[j].0
                        &&& es[j].1.owner_id == b[j].1.owner_id
                        &&& es[j].1.token_id == b[j].1.token_id
                        &&& es[j].1.nft_contract_id == b[j].1.nft_contract_id
                        &&& es[j].1.staked_at == b[j].1.staked_at
                        &&& es[j].1.lock_duration == b[j].1.lock_duration
                        &&& es[j].1.unlocked_at == b[j].1.unlocked_at
                    } by {
                        assert(es0[j] == es0[j]);
                    }
                }
                assert forall|q: int|
                    0 <= q < b.len() && !tokens.take(n).contains(#[trigger] b[q].0@) implies es[q]
                    == b[q] by {
                    assert(q != p);
                }
                assert forall|q: int|
                    0 <= q < b.len() && tokens.take(n).contains(#[trigger] b[q].0@) && b[q].1.active
                        && claimed_upto(b[q].1, c.epoch_duration, cur) > b[q].1.last_claim_epoch implies {
                    &&& es[q].1.last_claim_epoch == claimed_upto(b[q].1, c.epoch_duration, cur)
                    &&& es[q].1.active == (cur < b[q].1.unlocked_at / c.epoch_duration)
                } by {
                    if q != p {
                        assert(es[q] == es0[q]);
                        if b[q].0@ == t {
                            assert(b[p].0@ == b[q].0@);
                        }
                        assert(tokens.take(n - 1).contains(b[q].0@));
                    }
                }
            } else {
                assert forall|q: int|
                    0 <= q < b.len() && tokens.take(n).contains(#[trigger] b[q].0@) && b[q].1.active
                        && claimed_upto(b[q].1, c.epoch_duration, cur) > b[q].1.last_claim_epoch implies {
                    &&& es[q].1.last_claim_epoch == claimed_upto(b[q].1, c.epoch_duration, cur)
                    &&& es[q].1.active == (cur < b[q].1.unlocked_at / c.epoch_duration)
                } by {
                    if q != p && b[q].0@ == t {
                        assert(b[p].0@ == b[q].0@);
                    }
                    assert(tokens.take(n - 1).contains(b[q].0@));
                }
                assert forall|q: int|
                    0 <= q < b.len() && !tokens.take(n).contains(#[trigger] b[q].0@) implies es[q]
                    == b[q] by {
                    assert(!tokens.take(n - 1).contains(b[q].0@));
                }
            }
        } else {
            assert forall|q: int|
                0 <= q < b.len() && tokens.take(n).contains(#[trigger] b[q].0@) && b[q].1.active
                    && claimed_upto(b[q].1, c.epoch_duration, cur) > b[q].1.last_claim_epoch implies {
                &&& es[q].1.last_claim_epoch == claimed_upto(b[q].1, c.epoch_duration, cur)
                &&& es[q].1.active == (cur < b[q].1.unlocked_at / c.epoch_duration)
            } by {
                if b[q].0@ == t {
                    assert(es0[q].0@ == t);
                }
                assert(tokens.take(n - 1).contains(b[q].0@));
            }
            assert forall|q: int|
                0 <= q < b.len() && !tokens.take(n).contains(#[trigger] b[q].0@) implies es[q]
                == b[q] by {
                assert(!tokens.take(n - 1).contains(b[q].0@));
            }
        }
    }
}

/// Processing claims each active stake of the owner with epochs to claim up to the earlier of
/// its lock's end epoch and the current epoch, and leaves it active exactly while the current
/// epoch is before that end: a stake processed in or after its lock's end epoch comes out
/// inactive, so `unstake` accepts it afterwards.
pub proof fn lemma_processing_settles_stake(
    c: StakingContract,
    new: StakingContract,
    o: Seq<char>,
    t: Seq<char>,
    block_timestamp: u64,
)
    requires
        c.wf(),
        !c.process_fails(o, block_timestamp),
        c.processed(&new, o, block_timestamp),
        c.user_tokens(o).contains(t),
        c.stakes@.contains_key(t),
        c.stakes@[t].active,
        c.stakes@[t].last_claim_epoch < c.stakes@[t].unlocked_at / c.epoch_duration,
        c.stakes@[t].last_claim_epoch < c.epoch_at(block_timestamp),
    ensures
        new.stakes@.contains_key(t),
        new.stakes@[t].owner_id == c.stakes@[t].owner_id,
        new.stakes@[t].last_claim_epoch == if c.stakes@[t].unlocked_at / c.epoch_duration
            < c.epoch_at(block_timestamp) {
            c.stakes@[t].unlocked_at / c.epoch_duration
        } else {
            c.epoch_at(block_timestamp)
        },
        new.stakes@[t].active == (c.epoch_at(block_timestamp) < c.stakes@[t].unlocked_at
            / c.epoch_duration),
{
    let tokens = c.user_tokens(o);
    let cur = c.epoch_at(block_timestamp);
    let n = tokens.len() as int;
    let b = c.stakes.entries@;
    assert(c.has_list(o));
    lemma_steps_exact(c, tokens, cur, n);
    let es = reward_steps(c, tokens, cur, n).unwrap().0;
    assert(new.stakes.entries@ == es);
    assert(tokens.take(n) =~= tokens);
    assert(has_key(b, t));
    let q = key_pos(b, t);
    lemma_key_pos(b, q);
    lemma_only_claims_differ(es, b);
    assert(es[q].0@ == t);
    lemma_key_pos(es, q);
}

/// Processing an owner's stakes twice at the same time: the second pass succeeds, earns
/// nothing and changes neither the stakes nor the processed rewards, because the first one
/// marked every stake claimed up to the current epoch. This holds whatever else changed in
/// between (the pool, the processed rewards, the settings), as long as the stakes, the owner
/// lists and the epoch length are those that the first pass left.
pub proof fn lemma_second_processing_earns_nothing(
    c: StakingContract,
    mid: StakingContract,
    o: Seq<char>,
    block_timestamp: u64,
)
    requires
        c.wf(),
        !c.process_fails(o, block_timestamp),
        mid.stakes.entries@ == c.stakes_after(o, block_timestamp),
        mid.user_stakes == c.user_stakes,
        mid.epoch_duration == c.epoch_duration,
    ensures
        !mid.process_fails(o, block_timestamp),
        mid.reward_total(o, block_timestamp) == 0,
        mid.stakes_after(o, block_timestamp) == mid.stakes.entries@,
        mid.rewards_after(o, block_timestamp) == mid.epoch_rewards@,
{
    if c.has_list(o) {
        let tokens = c.user_tokens(o);
        let cur = c.epoch_at(block_timestamp);
        let n = tokens.len() as int;
        lemma_steps_settle(c, tokens, cur, n);
        let run = c.reward_run(o, block_timestamp).unwrap();
        let es = run.0;
        assert(mid.stakes.entries@ == es);
        assert(mid.user_tokens(o) == tokens);
        assert(mid.epoch_at(block_timestamp) == cur);
        assert forall|k: int| 0 <= k <= n implies #[trigger] reward_steps(mid, tokens, cur, k) == Some(
            (es, 0int),
        ) by {
            lemma_second_pass_steps(mid, tokens, cur, k, es);
        }
        assert(mid.reward_run(o, block_timestamp) == Some((es, 0int)));
    }
}

/// The last epoch that processing at block time `block_timestamp` claims for token `t`: the
/// earlier of its lock's end epoch and the current epoch.
pub open spec fn claim_epoch(c: StakingContract, t: Seq<char>, block_timestamp: u64) -> int {
    let end = c.stakes@[t].unlocked_at / c.epoch_duration;
    let cur = c.epoch_at(block_timestamp);
    if end < cur {
        end as int
    } else {
        cur as int
    }
}

/// Rewards are an amount per epoch times the number of newly claimed epochs: from one state,
/// for an owner whose only listed token has an active stake, processing at a time that claims
/// `k` new epochs yields `k` times what processing at a time that claims one epoch yields,
/// where neither processing overflows.
pub proof fn lemma_reward_per_epoch(
    c: StakingContract,
    o: Seq<char>,
    t: Seq<char>,
    one_epoch_at: u64,
    block_timestamp: u64,
)
    requires
        c.wf(),
        c.user_tokens(o) == seq![t],
        c.stakes@.contains_key(t),
        c.stakes@[t].active,
        claim_epoch(c, t, one_epoch_at) == c.stakes@[t].last_claim_epoch + 1,
        claim_epoch(c, t, block_timestamp) > c.stakes@[t].last_claim_epoch,
        !c.process_fails(o, one_epoch_at),
        !c.process_fails(o, block_timestamp),
    ensures
        c.reward_total(o, block_timestamp) == (claim_epoch(c, t, block_timestamp)
            - c.stakes@[t].last_claim_epoch) * c.reward_total(o, one_epoch_at),
{
    let tokens = seq![t];
    let es = c.stakes.entries@;
    assert(c.has_list(o));
    assert(has_key(es, t));
    let p = key_pos(es, t);
    lemma_key_pos(es, p);
    let s = es[p].1;
    assert(s == c.stakes@[t]);
    let k = claim_epoch(c, t, block_timestamp) - s.last_claim_epoch;
    let cur1 = c.epoch_at(one_epoch_at);
    let cur2 = c.epoch_at(block_timestamp);
    assert(tokens[0] == t && tokens.len() == 1);
    assert(reward_steps(c, tokens, cur1, 0) == Some((es, 0int)));
    assert(reward_steps(c, tokens, cur2, 0) == Some((es, 0int)));
    assert(reward_steps(c, tokens, cur1, 1) == reward_step(c, es, 0, t, 1, cur1));
    assert(reward_steps(c, tokens, cur2, 1) == reward_step(c, es, 0, t, 1, cur2));
    assert(c.reward_run(o, one_epoch_at) == reward_step(c, es, 0, t, 1, cur1));
    assert(c.reward_run(o, block_timestamp) == reward_step(c, es, 0, t, 1, cur2));
    assert(claim_epoch(c, t, one_epoch_at) > s.last_claim_epoch);
    match tier_bonus(c.tier_bonuses@, 1) {
        None => {
            assert(reward_step(c, es, 0, t, 1, cur1) is None);
        },
        Some(tm) => {
            let weight = 1 * duration_multiplier(c.duration_multipliers@, s.lock_duration) * tm
                / 10_000;
            match total_weight(es, c.user_stakes@, c.duration_multipliers@, c.tier_bonuses@) {
                None => {
                    assert(reward_step(c, es, 0, t, 1, cur1) is None);
                },
                Some(tw) => if tw == 0 {
                    assert(c.reward_total(o, one_epoch_at) == 0);
                    assert(c.reward_total(o, block_timestamp) == 0);
                    assert(k * 0 == 0) by (nonlinear_arith);
                } else {
                    let per_epoch = weight * ((c.reward_pool as int) / tw);
                    assert(c.reward_total(o, one_epoch_at) == per_epoch * 1);
                    assert(c.reward_total(o, block_timestamp) == per_epoch * k);
                    assert(per_epoch * k == k * (per_epoch * 1)) by (nonlinear_arith);
                    assert(k == claim_epoch(c, t, block_timestamp) - c.stakes@[t].last_claim_epoch);
                },
            }
        },
    }
}

/// Claiming twice at the same time: once a claim has paid out the balance and processed the
/// stakes, a second claim finds a balance of zero, so it is refused as having nothing to claim.
pub proof fn lemma_second_claim_finds_nothing(
    c: StakingContract,
    new: StakingContract,
    o: Seq<char>,
    block_timestamp: u64,
)
    requires
        c.wf(),
        !c.process_fails(o, block_timestamp),
        new.keeps_settings(&c),
        new.stakes.entries@ == c.stakes_after(o, block_timestamp),
        new.epoch_rewards@ == c.rewards_after(o, block_timestamp).insert(o, 0),
    ensures
        !new.process_fails(o, block_timestamp),
        new.claim_balance(o, block_timestamp) == 0,
{
    lemma_second_processing_earns_nothing(c, new, o, block_timestamp);
    assert(new.rewards_of(o) == 0);
}

proof fn lemma_second_pass_steps(
    mid: StakingContract,
    tokens: Seq<Seq<char>>,
    cur: u64,
    k: int,
    es: Seq<(String, Stake)>,
)
    requires
        0 <= k <= tokens.len(),
        mid.stakes.entries@ == es,
        forall|j: int| 0 <= j < tokens.len() ==> settled(es, #[trigger] tokens[j], cur, mid.epoch_duration),
    ensures
        reward_steps(mid, tokens, cur, k) == Some((es, 0int)),
    decreases k,
{
    if k > 0 {
        lemma_second_pass_steps(mid, tokens, cur, k - 1, es);
        assert(settled(es, tokens[k - 1], cur, mid.epoch_duration));
    }
}

/// A stake that processing turned inactive has been claimed up to its lock's end epoch.
pub open spec fn deactivated_when_done(
    before: Seq<(String, Stake)>,
    after: Seq<(String, Stake)>,
    epoch_duration: u64,
) -> bool {
    forall|j: int|
        0 <= j < before.len() && j < after.len() && (#[trigger] before[j]).1.active
            && !after[j].1.active ==> after[j].1.last_claim_epoch == after[j].1.unlocked_at
            / epoch_duration
}

proof fn lemma_steps_deactivate_when_done(c: StakingContract, tokens: Seq<Seq<char>>, cur: u64, n: int)
    requires
        0 <= n <= tokens.len(),
        keys_unique(c.stakes.entries@),
        c.epoch_duration > 0,
        reward_steps(c, tokens, cur, n) is Some,
    ensures
        ({
            let run = reward_steps(c, tokens, cur, n).unwrap();
            &&& run.0.len() == c.stakes.entries@.len()
            &&& deactivated_when_done(c.stakes.entries@, run.0, c.epoch_duration)
        }),
    decreases n,
{
    if n > 0 {
        lemma_steps_deactivate_when_done(c, tokens, cur, n - 1);
        lemma_steps_settle(c, tokens, cur, n - 1);
        let prev = reward_steps(c, tokens, cur, n - 1).unwrap();
        let es0 = prev.0;
        let t = tokens[n - 1];
        let run = reward_steps(c, tokens, cur, n).unwrap();
        let es = run.0;
        let b = c.stakes.entries@;
        if has_key(es0, t) {
            let p = key_pos(es0, t);
            let s0 = es0[p].1;
            let end = s0.unlocked_at / c.epoch_duration;
            let cu = if end < cur {
                end
            } else {
                cur
            };
            if s0.active && cu > s0.last_claim_epoch && es != es0 {
                assert forall|j: int|
                    0 <= j < b.len() && j < es.len() && (#[trigger] b[j]).1.active
                        && !es[j].1.active implies es[j].1.last_claim_epoch == es[j].1.unlocked_at
                    / c.epoch_duration by {
                    if j != p {
                        assert(es[j] == es0[j]);
                    }
                }
            }
        }
    } else {
        assert(deactivated_when_done(c.stakes.entries@, c.stakes.entries@, c.epoch_duration));
    }
}

/// Processing turns a stake inactive only once its rewards are claimed up to the end epoch
/// of its lock; an inactive stake is what `unstake` asks for.
pub proof fn lemma_processing_deactivates_when_done(
    c: StakingContract,
    new: StakingContract,
    o: Seq<char>,
    block_timestamp: u64,
)
    requires
        c.wf(),
        !c.process_fails(o, block_timestamp),
        c.processed(&new, o, block_timestamp),
    ensures
        deactivated_when_done(c.stakes.entries@, new.stakes.entries@, c.epoch_duration),
{
    if c.has_list(o) {
        let tokens = c.user_tokens(o);
        lemma_steps_deactivate_when_done(
            c,
            tokens,
            c.epoch_at(block_timestamp),
            tokens.len() as int,
        );
    } else {
        assert(deactivated_when_done(c.stakes.entries@, c.stakes.entries@, c.epoch_duration));
    }
}

} // verus!
