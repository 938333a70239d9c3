//! The combo value model.
//!
//! An ordered combo is scored prefix by prefix: for every prefix, the
//! rewards of its modifiers are unioned (later entries for the same reward
//! category overwrite earlier ones), the active effects are gathered, and
//! every reward contributes
//! `base * (count + additional) * (2 if doubled) * (1 + rerolls / 4)`.
//! The total is the sum over every prefix, not only the full combo.
//!
//! All values are kept in quarter units (four times the contribution), so
//! the reroll factor stays an exact integer; arithmetic saturates at
//! `u64::MAX` instead of overflowing.

use vstd::prelude::*;
use crate::catalog::{
    has_id, lemma_index_of_upto_props, spec_index_of, Effect, Modifier, ModifierId, Modifiers,
    Reward, reward_value, spec_reward_value,
};
use crate::seqs::{sat_add, sat_mul, saturating_add, saturating_mul};

verus! {

/// The modifier a well-formed catalog holds under this id.
pub open spec fn spec_mod(list: Seq<Modifier>, id: ModifierId) -> Modifier {
    list[spec_index_of(list, id).unwrap()]
}

/// Every id of `combo` resolves in the catalog.
pub open spec fn ids_resolve(list: Seq<Modifier>, combo: Seq<ModifierId>) -> bool {
    forall|k: int| 0 <= k < combo.len() ==> has_id(list, #[trigger] combo[k])
}

/// Index of the modifier with this id; the id must resolve.
pub fn mod_index(m: &Modifiers, id: ModifierId) -> (r: usize)
    requires
        has_id(m.by_id@, id),
    ensures
        r < m.by_id@.len(),
        spec_index_of(m.by_id@, id) == Some(r as int),
        m.by_id@[r as int].id == id,
        m.by_id@[r as int] == spec_mod(m.by_id@, id),
{
    match m.index_of(id) {
        Some(i) => i,
        None => {
            proof {
                assert(false);
            }
            0
        },
    }
}

/// How many `AdditionalReward` effects the list holds.
pub open spec fn count_additional(es: Seq<Effect>) -> u64
    decreases es.len(),
{
    if es.len() == 0 {
        0
    } else {
        sat_add(
            count_additional(es.drop_last()),
            if es.last() == Effect::AdditionalReward {
                1
            } else {
                0
            },
        )
    }
}

/// Whether the list holds a `DoubledReward` effect.
pub open spec fn has_doubled(es: Seq<Effect>) -> bool
    decreases es.len(),
{
    if es.len() == 0 {
        false
    } else {
        has_doubled(es.drop_last()) || es.last() == Effect::DoubledReward
    }
}

/// Sum of all `Reroll` counts in the list.
pub open spec fn reroll_total(es: Seq<Effect>) -> u64
    decreases es.len(),
{
    if es.len() == 0 {
        0
    } else {
        sat_add(
            reroll_total(es.drop_last()),
            match es.last() {
                Effect::Reroll { count } => count,
                _ => 0,
            },
        )
    }
}

/// Target of the last `Convert` effect in the list, if any.
pub open spec fn last_convert(es: Seq<Effect>) -> Option<Reward>
    decreases es.len(),
{
    if es.len() == 0 {
        None
    } else {
        match es.last() {
            Effect::Convert { to } => Some(to),
            _ => last_convert(es.drop_last()),
        }
    }
}

/// The effects of the first `n` modifiers of the combo, in order.
pub open spec fn effects_upto(list: Seq<Modifier>, combo: Seq<ModifierId>, n: int) -> Seq<Effect>
    decreases n,
{
    if n <= 0 {
        Seq::empty()
    } else {
        effects_upto(list, combo, n - 1) + (match spec_mod(list, combo[n - 1]).effect {
            Some(e) => seq![e],
            None => Seq::empty(),
        })
    }
}

/// First index with the given reward key, scanning `rs[..n]`.
pub open spec fn spec_rkey_index_upto(rs: Seq<(Reward, u64)>, key: Reward, n: int) -> Option<int>
    decreases n,
{
    if n <= 0 {
        None
    } else {
        match spec_rkey_index_upto(rs, key, n - 1) {
            Some(i) => Some(i),
            None => if rs[n - 1].0 == key {
                Some(n - 1)
            } else {
                None
            },
        }
    }
}

/// First index with the given reward key.
pub open spec fn spec_rkey_index(rs: Seq<(Reward, u64)>, key: Reward) -> Option<int> {
    spec_rkey_index_upto(rs, key, rs.len() as int)
}

proof fn lemma_rkey_index_extend(rs: Seq<(Reward, u64)>, key: Reward, i: int, n: int)
    requires
        0 <= i < n <= rs.len(),
        spec_rkey_index_upto(rs, key, i) is None,
        rs[i].0 == key,
    ensures
        spec_rkey_index_upto(rs, key, n) == Some(i),
    decreases n,
{
    if n - 1 > i {
        lemma_rkey_index_extend(rs, key, i, n - 1);
    }
}

/// First index with the given reward key.
fn rkey_index(rs: &Vec<(Reward, u64)>, key: Reward) -> (r: Option<usize>)
    ensures
        match r {
            Some(i) => spec_rkey_index(rs@, key) == Some(i as int) && i < rs@.len(),
            None => spec_rkey_index(rs@, key) is None,
        },
{
    let mut i: usize = 0;
    while i < rs.len()
        invariant
            0 <= i <= rs@.len(),
            spec_rkey_index_upto(rs@, key, i as int) is None,
        decreases rs@.len() - i,
    {
        if rs[i].0 == key {
            proof {
                lemma_rkey_index_extend(rs@, key, i as int, rs@.len() as int);
            }
            return Some(i);
        }
        i += 1;
    }
    None
}

/// Write one reward entry into the union: overwrite the entry with the
/// same key, or append.
pub open spec fn spec_upsert(acc: Seq<(Reward, u64)>, key: Reward, val: u64) -> Seq<(Reward, u64)> {
    match spec_rkey_index(acc, key) {
        Some(i) => acc.update(i, (key, val)),
        None => acc.push((key, val)),
    }
}

/// Write the first `n` entries of one modifier's reward bag into the union.
pub open spec fn spec_upsert_entries(
    acc: Seq<(Reward, u64)>,
    entries: Seq<(Reward, u64)>,
    n: int,
) -> Seq<(Reward, u64)>
    decreases n,
{
    if n <= 0 {
        acc
    } else {
        spec_upsert(spec_upsert_entries(acc, entries, n - 1), entries[n - 1].0, entries[n - 1].1)
    }
}

/// The reward union of the first `n` modifiers of the combo: later entries
/// for the same reward category overwrite earlier ones.
pub open spec fn union_rewards_upto(list: Seq<Modifier>, combo: Seq<ModifierId>, n: int) -> Seq<
    (Reward, u64),
>
    decreases n,
{
    if n <= 0 {
        Seq::empty()
    } else {
        let prev = union_rewards_upto(list, combo, n - 1);
        let rs = spec_mod(list, combo[n - 1]).rewards@;
        spec_upsert_entries(prev, rs, rs.len() as int)
    }
}

/// Sum of the reward counts of the union, saturating.
pub open spec fn sum_counts(rs: Seq<(Reward, u64)>) -> u64
    decreases rs.len(),
{
    if rs.len() == 0 {
        0
    } else {
        sat_add(sum_counts(rs.drop_last()), rs.last().1)
    }
}

/// Quarter-unit contribution of one reward entry.
pub open spec fn entry_value(key: Reward, count: u64, additional: u64, doubled: bool, reroll: u64) -> u64 {
    sat_mul(
        sat_mul(
            sat_mul(spec_reward_value(key), sat_add(count, additional)),
            if doubled {
                2
            } else {
                1
            },
        ),
        sat_add(4, reroll),
    )
}

/// Quarter-unit contribution of a reward union under the given effects.
pub open spec fn rewards_value(rs: Seq<(Reward, u64)>, additional: u64, doubled: bool, reroll: u64) -> u64
    decreases rs.len(),
{
    if rs.len() == 0 {
        0
    } else {
        sat_add(
            rewards_value(rs.drop_last(), additional, doubled, reroll),
            entry_value(rs.last().0, rs.last().1, additional, doubled, reroll),
        )
    }
}

/// Quarter-unit contribution of the prefix of length `n` of the combo.
pub open spec fn prefix_value(list: Seq<Modifier>, combo: Seq<ModifierId>, n: int) -> u64 {
    let es = effects_upto(list, combo, n);
    let base = union_rewards_upto(list, combo, n);
    let rs = match last_convert(es) {
        Some(to) => seq![(to, sum_counts(base))],
        None => base,
    };
    rewards_value(rs, count_additional(es), has_doubled(es), reroll_total(es))
}

/// Quarter-unit value of the combo: the sum of every prefix's contribution.
pub open spec fn spec_combo_value_upto(list: Seq<Modifier>, combo: Seq<ModifierId>, n: int) -> u64
    decreases n,
{
    if n <= 0 {
        0
    } else {
        sat_add(spec_combo_value_upto(list, combo, n - 1), prefix_value(list, combo, n))
    }
}

/// Quarter-unit value of the combo: the sum of every prefix's contribution.
pub open spec fn spec_combo_value(list: Seq<Modifier>, combo: Seq<ModifierId>) -> u64 {
    spec_combo_value_upto(list, combo, combo.len() as int)
}

/// Value of an ordered combo, in quarter units: the sum, over every prefix
/// of the combo, of the prefix's reward contribution under its active
/// effects.
pub fn get_combo_value(m: &Modifiers, combo: &Vec<ModifierId>) -> (v: u64)
    requires
        m.wf(),
        ids_resolve(m.by_id@, combo@),
    ensures
        v == spec_combo_value(m.by_id@, combo@),
{
    let mut total: u64 = 0;
    let mut p: usize = 0;
    while p < combo.len()
        invariant
            m.wf(),
            ids_resolve(m.by_id@, combo@),
            0 <= p <= combo@.len(),
            total == spec_combo_value_upto(m.by_id@, combo@, p as int),
        decreases combo@.len() - p,
    {
        // aggregate the effects and the reward union of combo[..p + 1]
        let mut additional: u64 = 0;
        let mut doubled: bool = false;
        let mut reroll: u64 = 0;
        let mut converted: Option<Reward> = None;
        let mut union: Vec<(Reward, u64)> = Vec::new();
        let mut j: usize = 0;
        proof {
            assert(effects_upto(m.by_id@, combo@, 0) =~= Seq::<Effect>::empty());
            assert(union@ =~= union_rewards_upto(m.by_id@, combo@, 0));
        }
        while j <= p
            invariant
                m.wf(),
                ids_resolve(m.by_id@, combo@),
                p < combo@.len(),
                combo@.len() <= usize::MAX,
                0 <= j <= p + 1,
                additional == count_additional(effects_upto(m.by_id@, combo@, j as int)),
                doubled == has_doubled(effects_upto(m.by_id@, combo@, j as int)),
                reroll == reroll_total(effects_upto(m.by_id@, combo@, j as int)),
                converted == last_convert(effects_upto(m.by_id@, combo@, j as int)),
                union@ == union_rewards_upto(m.by_id@, combo@, j as int),
            decreases p + 1 - j,
        {
            let mi = mod_index(m, combo[j]);
            let ghost es_old = effects_upto(m.by_id@, combo@, j as int);
            match m.by_id[mi].effect {
                None => {
                    proof {
                        assert(effects_upto(m.by_id@, combo@, j + 1) =~= es_old);
                    }
                },
                Some(e) => {
                    proof {
                        let es_new = effects_upto(m.by_id@, combo@, j + 1);
                        assert(es_new =~= es_old + seq![e]);
                        assert(es_new.drop_last() =~= es_old);
                        assert(es_new.last() == e);
                    }
                    match e {
                        Effect::AdditionalReward => {
                            additional = saturating_add(additional, 1);
                        },
                        Effect::DoubledReward => {
                            doubled = true;
                        },
                        Effect::Reroll { count } => {
                            reroll = saturating_add(reroll, count);
                        },
                        Effect::Convert { to } => {
                            converted = Some(to);
                        },
                    }
                },
            }
            // fold this modifier's reward bag into the union
            let ghost union_base = union@;
            let rlen = m.by_id[mi].rewards.len();
            let mut t: usize = 0;
            while t < rlen
                invariant
                    m.wf(),
                    mi < m.by_id@.len(),
                    rlen == m.by_id@[mi as int].rewards@.len(),
                    0 <= t <= rlen,
                    union@ == spec_upsert_entries(
                        union_base,
                        m.by_id@[mi as int].rewards@,
                        t as int,
                    ),
                decreases rlen - t,
            {
                let (key, val) = m.by_id[mi].rewards[t];
                match rkey_index(&union, key) {
                    Some(ui) => {
                        union.set(ui, (key, val));
                    },
                    None => {
                        union.push((key, val));
                    },
                }
                t += 1;
            }
            proof {
                assert(m.by_id@[mi as int] == spec_mod(m.by_id@, combo@[j as int]));
                assert(union@ == union_rewards_upto(m.by_id@, combo@, j + 1));
            }
            j += 1;
        }
        // contribution of this prefix
        let ghost es = effects_upto(m.by_id@, combo@, p + 1);
        let prefix_total: u64;
        match converted {
            Some(to) => {
                // collapse all counts into the converted reward
                let mut csum: u64 = 0;
                let mut t: usize = 0;
                while t < union.len()
                    invariant
                        0 <= t <= union@.len(),
                        csum == sum_counts(union@.subrange(0, t as int)),
                    decreases union@.len() - t,
                {
                    csum = saturating_add(csum, union[t].1);
                    proof {
                        let sub = union@.subrange(0, t + 1);
                        assert(sub.drop_last() =~= union@.subrange(0, t as int));
                    }
                    t += 1;
                }
                proof {
                    assert(union@.subrange(0, union@.len() as int) =~= union@);
                }
                let ev = saturating_mul(
                    saturating_mul(
                        saturating_mul(reward_value(to), saturating_add(csum, additional)),
                        if doubled {
                            2
                        } else {
                            1
                        },
                    ),
                    saturating_add(4, reroll),
                );
                prefix_total = ev;
                proof {
                    let rs = seq![(to, sum_counts(union@))];
                    assert(rs.len() == 1);
                    assert(rs.last() == (to, sum_counts(union@)));
                    assert(rs.drop_last() =~= Seq::<(Reward, u64)>::empty());
                    assert(rewards_value(rs.drop_last(), additional, doubled, reroll) == 0);
                    assert(rewards_value(rs, additional, doubled, reroll) == sat_add(
                        0,
                        entry_value(to, sum_counts(union@), additional, doubled, reroll),
                    ));
                    assert(ev == entry_value(to, sum_counts(union@), additional, doubled, reroll));
                }
            },
            None => {
                let mut acc: u64 = 0;
                let mut t: usize = 0;
                while t < union.len()
                    invariant
                        0 <= t <= union@.len(),
                        acc == rewards_value(
                            union@.subrange(0, t as int),
                            additional,
                            doubled,
                            reroll,
                        ),
                    decreases union@.len() - t,
                {
                    let (key, val) = union[t];
                    let ev = saturating_mul(
                        saturating_mul(
                            saturating_mul(reward_value(key), saturating_add(val, additional)),
                            if doubled {
                                2
                            } else {
                                1
                            },
                        ),
                        saturating_add(4, reroll),
                    );
                    acc = saturating_add(acc, ev);
                    proof {
                        let sub = union@.subrange(0, t + 1);
                        assert(sub.drop_last() =~= union@.subrange(0, t as int));
                    }
                    t += 1;
                }
                proof {
                    assert(union@.subrange(0, union@.len() as int) =~= union@);
                }
                prefix_total = acc;
            },
        }
        proof {
            assert(prefix_total == prefix_value(m.by_id@, combo@, p + 1));
        }
        total = saturating_add(total, prefix_total);
        p += 1;
    }
    total
}

} // verus!
