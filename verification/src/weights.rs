//! How the total weight of `StakingContract` splits over its stakers: it is the sum of the
//! weights of the owners that have token lists.
use vstd::prelude::*;
use crate::contract::{Stake, StakingContract};
use crate::rewards::{duration_multiplier, stake_weight, tier_bonus, total_weight, user_weight_upto};
use crate::strmap::{has_key, keys_unique, lemma_key_pos};

verus! {

/// The sum of two weights, `None` where either is.
pub open spec fn opt_add(a: Option<int>, b: Option<int>) -> Option<int> {
    match a {
        None => None,
        Some(x) => match b {
            None => None,
            Some(y) => Some(x + y),
        },
    }
}

/// What token `t` adds to the weights: the weight of its stake where that is active, else 0.
pub open spec fn token_weight(c: StakingContract, t: Seq<char>) -> Option<int> {
    if c.stakes@.contains_key(t) && c.stakes@[t].active {
        stake_weight(c.stakes@[t], c.user_stakes@, c.duration_multipliers@, c.tier_bonuses@)
    } else {
        Some(0)
    }
}

/// The summed weight of the tokens `ts`.
pub open spec fn tokens_weight(c: StakingContract, ts: Seq<Seq<char>>) -> Option<int>
    decreases ts.len(),
{
    if ts.len() == 0 {
        Some(0)
    } else {
        opt_add(tokens_weight(c, ts.drop_last()), token_weight(c, ts.last()))
    }
}

proof fn lemma_opt_add_zero(a: Option<int>)
    ensures
        opt_add(a, Some(0)) == a,
{
}

proof fn lemma_opt_add_assoc(a: Option<int>, b: Option<int>, d: Option<int>)
    ensures
        opt_add(opt_add(a, b), d) == opt_add(a, opt_add(b, d)),
        opt_add(opt_add(a, b), d) == opt_add(opt_add(a, d), b),
{
}

/// The weight of a concatenation is the sum of the weights of its parts.
proof fn lemma_tokens_weight_concat(c: StakingContract, a: Seq<Seq<char>>, b: Seq<Seq<char>>)
    ensures
        tokens_weight(c, a + b) == opt_add(tokens_weight(c, a), tokens_weight(c, b)),
    decreases b.len(),
{
    if b.len() == 0 {
        assert(a + b =~= a);
        lemma_opt_add_zero(tokens_weight(c, a));
    } else {
        lemma_tokens_weight_concat(c, a, b.drop_last());
        assert((a + b).drop_last() =~= a + b.drop_last());
        assert((a + b).last() == b.last());
        lemma_opt_add_assoc(
            tokens_weight(c, a),
            tokens_weight(c, b.drop_last()),
            token_weight(c, b.last()),
        );
    }
}

/// Reordering tokens keeps their weight: two duplicate-free sequences of the same tokens weigh
/// the same.
proof fn lemma_tokens_weight_perm(c: StakingContract, a: Seq<Seq<char>>, b: Seq<Seq<char>>)
    requires
        a.no_duplicates(),
        b.no_duplicates(),
        forall|x: Seq<char>| a.contains(x) <==> b.contains(x),
    ensures
        tokens_weight(c, a) == tokens_weight(c, b),
    decreases a.len(),
{
    if a.len() == 0 {
        if b.len() > 0 {
            assert(b.contains(b[0]));
        }
    } else {
        let x = a.last();
        assert(a.contains(x));
        let i = choose|i: int| 0 <= i < b.len() && b[i] == x;
        let t = b.take(i);
        let r = b.skip(i + 1);
        let b2 = t + r;
        let a2 = a.drop_last();
        assert forall|j: int| 0 <= j < b2.len() implies #[trigger] b2[j] == (if j < i {
            b[j]
        } else {
            b[j + 1]
        }) by {}
        assert forall|y: Seq<char>| a2.contains(y) <==> b2.contains(y) by {
            if a2.contains(y) {
                let j = choose|j: int| 0 <= j < a2.len() && a2[j] == y;
                assert(a[j] == y);
                assert(a.contains(y));
                assert(y != x);
                let m = choose|m: int| 0 <= m < b.len() && b[m] == y;
                assert(m != i);
                if m < i {
                    assert(b2[m] == y);
                } else {
                    assert(b2[m - 1] == y);
                }
            }
            if b2.contains(y) {
                let j = choose|j: int| 0 <= j < b2.len() && b2[j] == y;
                let m = if j < i {
                    j
                } else {
                    j + 1
                };
                assert(b[m] == y);
                assert(m != i);
                assert(y != x);
                assert(b.contains(y));
                assert(a.contains(y));
                let q = choose|q: int| 0 <= q < a.len() && a[q] == y;
                assert(q != a.len() - 1);
                assert(a2[q] == y);
            }
        }
        assert(a2.no_duplicates()) by {
            assert forall|j: int, k: int| 0 <= j < a2.len() && 0 <= k < a2.len() && j != k implies a2[j]
                != a2[k] by {
                assert(a[j] == a2[j] && a[k] == a2[k]);
            }
        }
        assert(b2.no_duplicates()) by {
            assert forall|j: int, k: int| 0 <= j < b2.len() && 0 <= k < b2.len() && j != k implies b2[j]
                != b2[k] by {
                let mj = if j < i {
                    j
                } else {
                    j + 1
                };
                let mk = if k < i {
                    k
                } else {
                    k + 1
                };
                assert(b[mj] == b2[j] && b[mk] == b2[k]);
            }
        }
        lemma_tokens_weight_perm(c, a2, b2);
        lemma_tokens_weight_concat(c, t, r);
        lemma_tokens_weight_concat(c, t.push(x), r);
        assert(b =~= t.push(x) + r);
        assert(t.push(x).drop_last() =~= t);
        lemma_opt_add_assoc(tokens_weight(c, t), token_weight(c, x), tokens_weight(c, r));
        lemma_opt_add_assoc(tokens_weight(c, t), tokens_weight(c, r), token_weight(c, x));
    }
}

/// The tokens of the stakes, in the order of the stake map.
pub open spec fn stake_keys(c: StakingContract) -> Seq<Seq<char>> {
    c.stakes.entries@.map_values(|e: (String, Stake)| e.0@)
}

/// The owners that have a token list, in the order of the owner map.
pub open spec fn owner_keys(c: StakingContract) -> Seq<Seq<char>> {
    c.user_stakes.entries@.map_values(|e: (String, Vec<String>)| e.0@)
}

/// The token lists of the owners `os`, one after the other.
pub open spec fn listed_tokens(c: StakingContract, os: Seq<Seq<char>>) -> Seq<Seq<char>>
    decreases os.len(),
{
    if os.len() == 0 {
        Seq::empty()
    } else {
        listed_tokens(c, os.drop_last()) + c.user_tokens(os.last())
    }
}

/// The summed weight of the owners `os`, as `get_user_weight` gives each one.
pub open spec fn owners_weight(c: StakingContract, os: Seq<Seq<char>>) -> Option<int>
    decreases os.len(),
{
    if os.len() == 0 {
        Some(0)
    } else {
        opt_add(owners_weight(c, os.drop_last()), c.user_weight(os.last()))
    }
}

/// The total weight counts the tokens of the stake map.
proof fn lemma_total_weight_as_tokens(c: StakingContract, n: int)
    requires
        keys_unique(c.stakes.entries@),
        0 <= n <= c.stakes.entries@.len(),
    ensures
        total_weight(
            c.stakes.entries@.take(n),
            c.user_stakes@,
            c.duration_multipliers@,
            c.tier_bonuses@,
        ) == tokens_weight(c, stake_keys(c).take(n)),
    decreases n,
{
    let es = c.stakes.entries@;
    if n == 0 {
        assert(es.take(0) =~= Seq::<(String, Stake)>::empty());
        assert(stake_keys(c).take(0) =~= Seq::<Seq<char>>::empty());
    } else {
        lemma_total_weight_as_tokens(c, n - 1);
        assert(es.take(n).drop_last() =~= es.take(n - 1));
        assert(stake_keys(c).take(n).drop_last() =~= stake_keys(c).take(n - 1));
        assert(es.take(n).last() == es[n - 1]);
        assert(stake_keys(c).take(n).last() == es[n - 1].0@);
        lemma_key_pos(es, n - 1);
    }
}

/// An owner's weight counts the tokens of its list.
proof fn lemma_user_weight_as_tokens(c: StakingContract, o: Seq<char>, n: int)
    requires
        c.wf(),
        0 <= n <= c.user_tokens(o).len(),
    ensures
        user_weight_upto(c, c.user_tokens(o), n) == tokens_weight(c, c.user_tokens(o).take(n)),
    decreases n,
{
    let ts = c.user_tokens(o);
    if n == 0 {
        assert(ts.take(0) =~= Seq::<Seq<char>>::empty());
    } else {
        lemma_user_weight_as_tokens(c, o, n - 1);
        assert(ts.take(n).drop_last() =~= ts.take(n - 1));
        let t = ts[n - 1];
        assert(ts.take(n).last() == t);
        assert(ts.contains(t));
        if c.stakes@.contains_key(t) {
            assert(c.stakes@[t].owner_id@ == o);
        }
    }
}

proof fn lemma_user_weight_is_tokens_weight(c: StakingContract, o: Seq<char>)
    requires
        c.wf(),
    ensures
        c.user_weight(o) == tokens_weight(c, c.user_tokens(o)),
{
    let ts = c.user_tokens(o);
    lemma_user_weight_as_tokens(c, o, ts.len() as int);
    assert(ts.take(ts.len() as int) =~= ts);
}

proof fn lemma_owners_weight_as_tokens(c: StakingContract, os: Seq<Seq<char>>)
    requires
        c.wf(),
    ensures
        owners_weight(c, os) == tokens_weight(c, listed_tokens(c, os)),
    decreases os.len(),
{
    if os.len() > 0 {
        lemma_owners_weight_as_tokens(c, os.drop_last());
        lemma_user_weight_is_tokens_weight(c, os.last());
        lemma_tokens_weight_concat(c, listed_tokens(c, os.drop_last()), c.user_tokens(os.last()));
    }
}

proof fn lemma_listed_contains(c: StakingContract, os: Seq<Seq<char>>, t: Seq<char>)
    ensures
        listed_tokens(c, os).contains(t) <==> exists|j: int|
            0 <= j < os.len() && #[trigger] c.user_tokens(os[j]).contains(t),
    decreases os.len(),
{
    if os.len() > 0 {
        let pre = os.drop_last();
        lemma_listed_contains(c, pre, t);
        let a = listed_tokens(c, pre);
        let b = c.user_tokens(os.last());
        if (a + b).contains(t) {
            let i = choose|i: int| 0 <= i < (a + b).len() && (a + b)[i] == t;
            if i < a.len() {
                assert(a[i] == t);
                let j = choose|j: int| 0 <= j < pre.len() && #[trigger] c.user_tokens(pre[j]).contains(t);
                assert(os[j] == pre[j]);
            } else {
                assert(b[i - a.len()] == t);
                assert(c.user_tokens(os[os.len() - 1]).contains(t));
            }
        }
        if exists|j: int| 0 <= j < os.len() && #[trigger] c.user_tokens(os[j]).contains(t) {
            let j = choose|j: int| 0 <= j < os.len() && #[trigger] c.user_tokens(os[j]).contains(t);
            if j < os.len() - 1 {
                assert(pre[j] == os[j]);
                assert(a.contains(t));
                let i = choose|i: int| 0 <= i < a.len() && a[i] == t;
                assert((a + b)[i] == t);
            } else {
                let i = choose|i: int| 0 <= i < b.len() && b[i] == t;
                assert((a + b)[a.len() + i] == t);
            }
        }
    }
}

proof fn lemma_listed_no_duplicates(c: StakingContract, os: Seq<Seq<char>>)
    requires
        c.wf(),
        os.no_duplicates(),
    ensures
        listed_tokens(c, os).no_duplicates(),
    decreases os.len(),
{
    if os.len() > 0 {
        let pre = os.drop_last();
        let o = os.last();
        assert(pre.no_duplicates()) by {
            assert forall|j: int, k: int| 0 <= j < pre.len() && 0 <= k < pre.len() && j != k implies pre[j]
                != pre[k] by {
                assert(os[j] == pre[j] && os[k] == pre[k]);
            }
        }
        lemma_listed_no_duplicates(c, pre);
        let a = listed_tokens(c, pre);
        let b = c.user_tokens(o);
        assert(b.no_duplicates());
        assert forall|j: int, k: int| 0 <= j < (a + b).len() && 0 <= k < (a + b).len() && j != k implies (
        a + b)[j] != (a + b)[k] by {
            if j < a.len() && k >= a.len() {
                let t = a[j];
                assert(b[k - a.len()] == (a + b)[k]);
                if t == (a + b)[k] {
                    assert(b.contains(t));
                    assert(c.stakes@[t].owner_id@ == o);
                    lemma_listed_contains(c, pre, t);
                    assert(a.contains(t));
                    let q = choose|q: int| 0 <= q < pre.len() && #[trigger] c.user_tokens(pre[q]).contains(t);
                    assert(c.stakes@[t].owner_id@ == pre[q]);
                    assert(os[q] == pre[q]);
                    assert(os[os.len() - 1] == o);
                }
            } else if k < a.len() && j >= a.len() {
                let t = a[k];
                assert(b[j - a.len()] == (a + b)[j]);
                if t == (a + b)[j] {
                    assert(b.contains(t));
                    assert(c.stakes@[t].owner_id@ == o);
                    lemma_listed_contains(c, pre, t);
                    assert(a.contains(t));
                    let q = choose|q: int| 0 <= q < pre.len() && #[trigger] c.user_tokens(pre[q]).contains(t);
                    assert(c.stakes@[t].owner_id@ == pre[q]);
                    assert(os[q] == pre[q]);
                    assert(os[os.len() - 1] == o);
                }
            } else if j >= a.len() && k >= a.len() {
                assert(b[j - a.len()] == (a + b)[j]);
                assert(b[k - a.len()] == (a + b)[k]);
            }
        }
    }
}

/// The total weight is the sum of the stakers' weights: `get_user_weight` of each owner with a
/// token list, added up in the order of the owner map, gives `calculate_total_weight`, and one
/// of them fails on overflow exactly where the other does. Both count the active stakes, each
/// at the weight of its duration and of its owner's tier.
pub proof fn lemma_total_weight_sums_user_weights(c: StakingContract)
    requires
        c.wf(),
    ensures
        total_weight(c.stakes.entries@, c.user_stakes@, c.duration_multipliers@, c.tier_bonuses@)
            == owners_weight(c, owner_keys(c)),
{
    let es = c.stakes.entries@;
    let ks = stake_keys(c);
    let os = owner_keys(c);
    lemma_total_weight_as_tokens(c, es.len() as int);
    assert(es.take(es.len() as int) =~= es);
    assert(ks.take(ks.len() as int) =~= ks);
    lemma_owners_weight_as_tokens(c, os);
    let ls = listed_tokens(c, os);
    assert(os.no_duplicates()) by {
        assert forall|j: int, k: int| 0 <= j < os.len() && 0 <= k < os.len() && j != k implies os[j]
            != os[k] by {
            assert(c.user_stakes.entries@[j].0@ != c.user_stakes.entries@[k].0@);
        }
    }
    lemma_listed_no_duplicates(c, os);
    assert(ks.no_duplicates()) by {
        assert forall|j: int, k: int| 0 <= j < ks.len() && 0 <= k < ks.len() && j != k implies ks[j]
            != ks[k] by {
            assert(es[j].0@ != es[k].0@);
        }
    }
    assert forall|t: Seq<char>| ls.contains(t) <==> ks.contains(t) by {
        lemma_listed_contains(c, os, t);
        if ks.contains(t) {
            let i = choose|i: int| 0 <= i < ks.len() && ks[i] == t;
            assert(es[i].0@ == t);
            assert(has_key(es, t));
            assert(c.stakes@.contains_key(t));
            let o = c.stakes@[t].owner_id@;
            assert(c.user_stakes@.contains_key(o));
            assert(c.user_tokens(o).contains(t));
            let ue = c.user_stakes.entries@;
            assert(has_key(ue, o));
            let j = choose|j: int| 0 <= j < ue.len() && (#[trigger] ue[j]).0@ == o;
            assert(os[j] == o);
            assert(c.user_tokens(os[j]).contains(t));
        }
        if ls.contains(t) {
            let j = choose|j: int| 0 <= j < os.len() && #[trigger] c.user_tokens(os[j]).contains(t);
            assert(c.stakes@.contains_key(t));
            assert(has_key(es, t));
            let i = choose|i: int| 0 <= i < es.len() && (#[trigger] es[i]).0@ == t;
            assert(ks[i] == t);
        }
    }
    lemma_tokens_weight_perm(c, ls, ks);
}

proof fn lemma_uniform_weight_upto(c: StakingContract, o: Seq<char>, d: u64, tm: u32, n: int)
    requires
        0 <= n <= c.user_tokens(o).len(),
        tier_bonus(c.tier_bonuses@, c.user_tokens(o).len() as int) == Some(tm),
        forall|t: Seq<char>| #[trigger]
            c.user_tokens(o).contains(t) ==> c.stakes@.contains_key(t) && c.stakes@[t].active
                && c.stakes@[t].lock_duration == d,
    ensures
        ({
            let w = duration_multiplier(c.duration_multipliers@, d) * tm / 10_000;
            user_weight_upto(c, c.user_tokens(o), n) == Some(
                n * (if w < 10_000 {
                    10_000
                } else {
                    w
                }),
            )
        }),
    decreases n,
{
    let w0 = duration_multiplier(c.duration_multipliers@, d) * tm / 10_000;
    let f0 = if w0 < 10_000 {
        10_000
    } else {
        w0
    };
    if n == 0 {
        assert(0 * f0 == 0) by (nonlinear_arith);
    } else {
        lemma_uniform_weight_upto(c, o, d, tm, n - 1);
        let t = c.user_tokens(o)[n - 1];
        assert(c.user_tokens(o).contains(t));
        let w = duration_multiplier(c.duration_multipliers@, d) * tm / 10_000;
        let f = if w < 10_000 {
            10_000
        } else {
            w
        };
        assert((n - 1) * f + f == n * f) by (nonlinear_arith);
        assert(crate::rewards::weight_factor(duration_multiplier(c.duration_multipliers@, d), tm) == f);
        assert(user_weight_upto(c, c.user_tokens(o), n - 1) == Some((n - 1) * f));
    }
}

/// A stake's weight is its duration multiplier times its owner's tier multiplier, in basis
/// points and at least 1x: an owner of `n` listed tokens, all staked, active and locked for
/// `d` seconds, weighs `n` times `max(10000, dm * tm / 10000)`, where `dm` is the multiplier of
/// `d` and `tm` the tier multiplier for `n` NFTs.
pub proof fn lemma_uniform_owner_weight(c: StakingContract, o: Seq<char>, d: u64, tm: u32)
    requires
        tier_bonus(c.tier_bonuses@, c.user_tokens(o).len() as int) == Some(tm),
        forall|t: Seq<char>| #[trigger]
            c.user_tokens(o).contains(t) ==> c.stakes@.contains_key(t) && c.stakes@[t].active
                && c.stakes@[t].lock_duration == d,
    ensures
        ({
            let w = duration_multiplier(c.duration_multipliers@, d) * tm / 10_000;
            c.user_weight(o) == Some(
                c.user_tokens(o).len() * (if w < 10_000 {
                    10_000
                } else {
                    w
                }),
            )
        }),
{
    lemma_uniform_weight_upto(c, o, d, tm, c.user_tokens(o).len() as int);
}

} // verus!
