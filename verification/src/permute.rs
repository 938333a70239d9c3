//! Orderings of a candidate id set: the queue stays in front, the
//! remaining ids are tried in every order, and the most valuable ordering
//! that still produces every required id wins.

use vstd::prelude::*;
use crate::catalog::{Modifier, ModifierId, Modifiers};
use crate::produce::{get_produced_modifier_ids, spec_produced, spec_produces_id};
use crate::seqs::contains_id;
use crate::value::{get_combo_value, ids_resolve, spec_combo_value};

verus! {

/// The permutations of `0..k`, in lexicographic order of positions.
pub open spec fn spec_perms(k: int) -> Seq<Seq<usize>> {
    if k <= 0 {
        seq![seq![]]
    } else if k == 1 {
        seq![seq![0usize]]
    } else if k == 2 {
        seq![seq![0usize, 1], seq![1usize, 0]]
    } else if k == 3 {
        seq![
            seq![0usize, 1, 2],
            seq![0usize, 2, 1],
            seq![1usize, 0, 2],
            seq![1usize, 2, 0],
            seq![2usize, 0, 1],
            seq![2usize, 1, 0],
        ]
    } else {
        seq![
            seq![0usize, 1, 2, 3],
            seq![0usize, 1, 3, 2],
            seq![0usize, 2, 1, 3],
            seq![0usize, 2, 3, 1],
            seq![0usize, 3, 1, 2],
            seq![0usize, 3, 2, 1],
            seq![1usize, 0, 2, 3],
            seq![1usize, 0, 3, 2],
            seq![1usize, 2, 0, 3],
            seq![1usize, 2, 3, 0],
            seq![1usize, 3, 0, 2],
            seq![1usize, 3, 2, 0],
            seq![2usize, 0, 1, 3],
            seq![2usize, 0, 3, 1],
            seq![2usize, 1, 0, 3],
            seq![2usize, 1, 3, 0],
            seq![2usize, 3, 0, 1],
            seq![2usize, 3, 1, 0],
            seq![3usize, 0, 1, 2],
            seq![3usize, 0, 2, 1],
            seq![3usize, 1, 0, 2],
            seq![3usize, 1, 2, 0],
            seq![3usize, 2, 0, 1],
            seq![3usize, 2, 1, 0],
        ]
    }
}

/// Every position named by the table for `k` is below `k`, every row has
/// length `k`, and no row repeats a position.
pub proof fn lemma_perms_positions(k: int)
    requires
        0 <= k <= 4,
    ensures
        forall|pi: int, t: int|
            0 <= pi < spec_perms(k).len() && 0 <= t < spec_perms(k)[pi].len()
                ==> (#[trigger] spec_perms(k)[pi][t]) < k,
        forall|pi: int| 0 <= pi < spec_perms(k).len() ==> (#[trigger] spec_perms(k)[pi]).len() == k,
        forall|pi: int, a: int, b: int|
            0 <= pi < spec_perms(k).len() && 0 <= a < b < spec_perms(k)[pi].len()
                ==> (#[trigger] spec_perms(k)[pi][a]) != (#[trigger] spec_perms(k)[pi][b]),
{
}

fn four(a: usize, b: usize, c: usize, d: usize) -> (r: Vec<usize>)
    ensures
        r@ == seq![a, b, c, d],
{
    let mut r: Vec<usize> = Vec::new();
    r.push(a);
    r.push(b);
    r.push(c);
    r.push(d);
    proof {
        assert(r@ =~= seq![a, b, c, d]);
    }
    r
}

fn push_tail_perms(r: &mut Vec<Vec<usize>>, first: usize, x: usize, y: usize, z: usize)
    ensures
        final(r)@.len() == old(r)@.len() + 6,
        forall|i: int| 0 <= i < old(r)@.len() ==> (#[trigger] final(r)@[i])@ == old(r)@[i]@,
        final(r)@[old(r)@.len() as int]@ == seq![first, x, y, z],
        final(r)@[old(r)@.len() + 1 as int]@ == seq![first, x, z, y],
        final(r)@[old(r)@.len() + 2 as int]@ == seq![first, y, x, z],
        final(r)@[old(r)@.len() + 3 as int]@ == seq![first, y, z, x],
        final(r)@[old(r)@.len() + 4 as int]@ == seq![first, z, x, y],
        final(r)@[old(r)@.len() + 5 as int]@ == seq![first, z, y, x],
{
    r.push(four(first, x, y, z));
    r.push(four(first, x, z, y));
    r.push(four(first, y, x, z));
    r.push(four(first, y, z, x));
    r.push(four(first, z, x, y));
    r.push(four(first, z, y, x));
}

/// The position permutations for `k` remaining slots.
fn position_perms(k: usize) -> (r: Vec<Vec<usize>>)
    requires
        k <= 4,
    ensures
        r@.len() == spec_perms(k as int).len(),
        forall|pi: int| 0 <= pi < r@.len() ==> (#[trigger] r@[pi])@ == spec_perms(k as int)[pi],
{
    let mut r: Vec<Vec<usize>> = Vec::new();
    if k == 0 {
        r.push(Vec::new());
    } else if k == 1 {
        let mut s: Vec<usize> = Vec::new();
        s.push(0);
        r.push(s);
    } else if k == 2 {
        let mut s: Vec<usize> = Vec::new();
        s.push(0);
        s.push(1);
        r.push(s);
        let mut s: Vec<usize> = Vec::new();
        s.push(1);
        s.push(0);
        r.push(s);
    } else if k == 3 {
        let mut s: Vec<usize> = Vec::new();
        s.push(0);
        s.push(1);
        s.push(2);
        r.push(s);
        let mut s: Vec<usize> = Vec::new();
        s.push(0);
        s.push(2);
        s.push(1);
        r.push(s);
        let mut s: Vec<usize> = Vec::new();
        s.push(1);
        s.push(0);
        s.push(2);
        r.push(s);
        let mut s: Vec<usize> = Vec::new();
        s.push(1);
        s.push(2);
        s.push(0);
        r.push(s);
        let mut s: Vec<usize> = Vec::new();
        s.push(2);
        s.push(0);
        s.push(1);
        r.push(s);
        let mut s: Vec<usize> = Vec::new();
        s.push(2);
        s.push(1);
        s.push(0);
        r.push(s);
    } else {
        push_tail_perms(&mut r, 0, 1, 2, 3);
        push_tail_perms(&mut r, 1, 0, 2, 3);
        push_tail_perms(&mut r, 2, 0, 1, 3);
        push_tail_perms(&mut r, 3, 0, 1, 2);
    }
    proof {
        let tbl = spec_perms(k as int);
        assert forall|pi: int| 0 <= pi < r@.len() implies (#[trigger] r@[pi])@ == tbl[pi] by {
            assert(r@[pi]@ =~= tbl[pi]);
        }
    }
    r
}

/// The elements of the sorted set that are not queued, in ascending order.
pub open spec fn spec_diff_upto(s: Seq<ModifierId>, queue: Seq<ModifierId>, n: int) -> Seq<
    ModifierId,
>
    decreases n,
{
    if n <= 0 {
        Seq::empty()
    } else {
        let prev = spec_diff_upto(s, queue, n - 1);
        if !queue.contains(s[n - 1]) {
            prev.push(s[n - 1])
        } else {
            prev
        }
    }
}

/// The elements of the sorted set that are not queued, in ascending order.
pub open spec fn spec_diff(s: Seq<ModifierId>, queue: Seq<ModifierId>) -> Seq<ModifierId> {
    spec_diff_upto(s, queue, s.len() as int)
}

/// The ids of `elems` at the positions of one permutation.
pub open spec fn spec_perm_ids_upto(elems: Seq<ModifierId>, perm: Seq<usize>, n: int) -> Seq<
    ModifierId,
>
    decreases n,
{
    if n <= 0 {
        Seq::empty()
    } else {
        spec_perm_ids_upto(elems, perm, n - 1).push(elems[perm[n - 1] as int])
    }
}

/// The ids of `elems` at the positions of one permutation.
pub open spec fn spec_perm_ids(elems: Seq<ModifierId>, perm: Seq<usize>) -> Seq<ModifierId> {
    spec_perm_ids_upto(elems, perm, perm.len() as int)
}

/// The combo produces every required id.
pub open spec fn spec_covers(
    list: Seq<Modifier>,
    combo: Seq<ModifierId>,
    required: Seq<ModifierId>,
) -> bool {
    forall|t: int|
        0 <= t < required.len() ==> spec_produces_id(
            spec_produced(list, combo),
            #[trigger] required[t],
        )
}

/// The best ordering of the first `n` permutations: the queue first, a
/// permutation of the rest after it; only orderings that produce every
/// required id count, and among them the last one whose whole-unit value
/// is maximal wins.
pub open spec fn spec_best_perm_upto(
    list: Seq<Modifier>,
    queue: Seq<ModifierId>,
    elems: Seq<ModifierId>,
    required: Seq<ModifierId>,
    n: int,
) -> Option<(Seq<ModifierId>, u64)>
    decreases n,
{
    if n <= 0 {
        None
    } else {
        let prev = spec_best_perm_upto(list, queue, elems, required, n - 1);
        let combo = queue + spec_perm_ids(elems, spec_perms(elems.len() as int)[n - 1]);
        if spec_covers(list, combo, required) {
            let v = spec_combo_value(list, combo);
            match prev {
                None => Some((combo, v)),
                Some((pc, pv)) => if v / 4 >= pv / 4 {
                    Some((combo, v))
                } else {
                    prev
                },
            }
        } else {
            prev
        }
    }
}

/// The best valid ordering of an unordered candidate set, or `None` when
/// the set cannot keep the queue in front inside four slots or no ordering
/// produces every required id.
pub open spec fn spec_unordered_value(
    m: Modifiers,
    queue: Seq<ModifierId>,
    unordered: Seq<ModifierId>,
    required: Seq<ModifierId>,
) -> Option<(Seq<ModifierId>, u64)> {
    let elems = spec_diff(unordered, queue);
    if queue.len() + elems.len() > 4 {
        None
    } else {
        spec_best_perm_upto(
            m.by_id@,
            queue,
            elems,
            required,
            spec_perms(elems.len() as int).len() as int,
        )
    }
}

/// Order an unordered candidate set: keep the queue in front, try every
/// permutation of the remaining ids, drop orderings that fail to produce
/// every required id, and return the most valuable ordering (the last one
/// on whole-unit ties) with its quarter-unit value.
pub fn get_unordered_combo_value(
    m: &Modifiers,
    queue: &Vec<ModifierId>,
    unordered_combo: &Vec<ModifierId>,
    required_modifier_ids: &Vec<ModifierId>,
) -> (r: Option<(Vec<ModifierId>, u64)>)
    requires
        m.wf(),
        ids_resolve(m.by_id@, queue@),
        ids_resolve(m.by_id@, unordered_combo@),
    ensures
        match r {
            Some(p) => Some((p.0@, p.1)) == spec_unordered_value(
                *m,
                queue@,
                unordered_combo@,
                required_modifier_ids@,
            ),
            None => spec_unordered_value(*m, queue@, unordered_combo@, required_modifier_ids@)
                is None,
        },
{
    // the un-queued elements, in ascending order
    let mut elems: Vec<ModifierId> = Vec::new();
    let mut i: usize = 0;
    while i < unordered_combo.len()
        invariant
            0 <= i <= unordered_combo@.len(),
            elems@ == spec_diff_upto(unordered_combo@, queue@, i as int),
        decreases unordered_combo@.len() - i,
    {
        let id = unordered_combo[i];
        if !contains_id(queue, id) {
            elems.push(id);
        }
        i += 1;
    }
    proof {
        assert(forall|k: int|
            0 <= k < spec_diff_upto(unordered_combo@, queue@, unordered_combo@.len() as int).len()
                ==> unordered_combo@.contains(
                #[trigger] spec_diff_upto(
                    unordered_combo@,
                    queue@,
                    unordered_combo@.len() as int,
                )[k],
            )) by {
            lemma_diff_members(unordered_combo@, queue@, unordered_combo@.len() as int);
        }
    }
    if queue.len() > 4 || elems.len() > 4 - queue.len() {
        return None;
    }
    let k = elems.len();
    let perms = position_perms(k);
    proof {
        lemma_perms_positions(k as int);
    }
    let mut best: Option<(Vec<ModifierId>, u64)> = None;
    let mut pi: usize = 0;
    while pi < perms.len()
        invariant
            m.wf(),
            ids_resolve(m.by_id@, queue@),
            ids_resolve(m.by_id@, unordered_combo@),
            elems@ == spec_diff(unordered_combo@, queue@),
            forall|t: int| 0 <= t < elems@.len() ==> unordered_combo@.contains(#[trigger] elems@[t]),
            k == elems@.len(),
            queue@.len() + k <= 4,
            perms@.len() == spec_perms(k as int).len(),
            forall|a: int|
                0 <= a < perms@.len() ==> (#[trigger] perms@[a])@ == spec_perms(k as int)[a],
            forall|a: int, t: int|
                0 <= a < spec_perms(k as int).len() && 0 <= t < spec_perms(k as int)[a].len()
                    ==> (#[trigger] spec_perms(k as int)[a][t]) < k,
            forall|a: int|
                0 <= a < spec_perms(k as int).len() ==> (#[trigger] spec_perms(k as int)[a]).len()
                    == k,
            0 <= pi <= perms@.len(),
            match best {
                Some(p) => Some((p.0@, p.1)) == spec_best_perm_upto(
                    m.by_id@,
                    queue@,
                    elems@,
                    required_modifier_ids@,
                    pi as int,
                ),
                None => spec_best_perm_upto(
                    m.by_id@,
                    queue@,
                    elems@,
                    required_modifier_ids@,
                    pi as int,
                ) is None,
            },
        decreases perms@.len() - pi,
    {
        // combo = queue ++ permuted elements
        let mut combo: Vec<ModifierId> = Vec::new();
        let mut t: usize = 0;
        while t < queue.len()
            invariant
                0 <= t <= queue@.len(),
                combo@ == queue@.subrange(0, t as int),
            decreases queue@.len() - t,
        {
            combo.push(queue[t]);
            proof {
                assert(combo@ =~= queue@.subrange(0, t + 1));
            }
            t += 1;
        }
        proof {
            assert(queue@.subrange(0, queue@.len() as int) =~= queue@);
        }
        let perm = &perms[pi];
        let mut t: usize = 0;
        while t < perm.len()
            invariant
                pi < perms@.len(),
                perms@[pi as int]@ == spec_perms(k as int)[pi as int],
                perm@ == spec_perms(k as int)[pi as int],
                forall|a: int, t2: int|
                    0 <= a < spec_perms(k as int).len() && 0 <= t2 < spec_perms(k as int)[a].len()
                        ==> (#[trigger] spec_perms(k as int)[a][t2]) < k,
                k == elems@.len(),
                0 <= t <= perm@.len(),
                pi < spec_perms(k as int).len(),
                combo@ == queue@ + spec_perm_ids_upto(elems@, perm@, t as int),
                combo@.len() == queue@.len() + t,
            decreases perm@.len() - t,
        {
            let pos = perm[t];
            assert(pos < k);
            combo.push(elems[pos]);
            proof {
                assert(combo@ =~= queue@ + spec_perm_ids_upto(elems@, perm@, t + 1));
            }
            t += 1;
        }
        proof {
            assert(combo@ == queue@ + spec_perm_ids(elems@, spec_perms(k as int)[pi as int]));
            assert(combo@.len() <= 4);
            assert(ids_resolve(m.by_id@, combo@)) by {
                assert forall|a: int| 0 <= a < combo@.len() implies crate::catalog::has_id(
                    m.by_id@,
                    #[trigger] combo@[a],
                ) by {
                    if a < queue@.len() {
                        assert(combo@[a] == queue@[a]);
                    } else {
                        let ids = spec_perm_ids(elems@, spec_perms(k as int)[pi as int]);
                        lemma_perm_ids_members(elems@, spec_perms(k as int)[pi as int], k as int);
                        assert(combo@[a] == ids[a - queue@.len()]);
                        assert(elems@.contains(combo@[a]));
                        let w = choose|w: int| 0 <= w < elems@.len() && elems@[w] == combo@[a];
                        assert(unordered_combo@.contains(elems@[w]));
                    }
                }
            }
        }
        // does this ordering produce everything required?
        let produced = get_produced_modifier_ids(m, &combo);
        let mut covers = true;
        let mut t: usize = 0;
        while t < required_modifier_ids.len()
            invariant
                produced@.len() == spec_produced(m.by_id@, combo@).len(),
                forall|a: int|
                    0 <= a < produced@.len() ==> ((#[trigger] produced@[a]).0@, produced@[a].1)
                        == spec_produced(m.by_id@, combo@)[a],
                0 <= t <= required_modifier_ids@.len(),
                covers == (forall|a: int|
                    0 <= a < t ==> spec_produces_id(
                        spec_produced(m.by_id@, combo@),
                        #[trigger] required_modifier_ids@[a],
                    )),
            decreases required_modifier_ids@.len() - t,
        {
            let need = required_modifier_ids[t];
            let mut found = false;
            let mut u: usize = 0;
            while u < produced.len()
                invariant
                    produced@.len() == spec_produced(m.by_id@, combo@).len(),
                    forall|a: int|
                        0 <= a < produced@.len() ==> ((#[trigger] produced@[a]).0@, produced@[a].1)
                            == spec_produced(m.by_id@, combo@)[a],
                    0 <= u <= produced@.len(),
                    found == exists|a: int|
                        0 <= a < u && (#[trigger] spec_produced(m.by_id@, combo@)[a]).1 == need,
                decreases produced@.len() - u,
            {
                if produced[u].1 == need {
                    proof {
                        assert((spec_produced(m.by_id@, combo@)[u as int]).1 == need);
                    }
                    found = true;
                }
                u += 1;
            }
            if !found {
                covers = false;
            }
            t += 1;
        }
        if covers {
            let v = get_combo_value(m, &combo);
            let replace = match &best {
                None => true,
                Some(p) => v / 4 >= p.1 / 4,
            };
            if replace {
                best = Some((combo, v));
            }
        }
        pi += 1;
    }
    best
}

/// A permutation's id list is as long as the prefix read.
pub proof fn lemma_perm_ids_len(elems: Seq<ModifierId>, perm: Seq<usize>, n: int)
    requires
        0 <= n <= perm.len(),
    ensures
        spec_perm_ids_upto(elems, perm, n).len() == n,
    decreases n,
{
    if n > 0 {
        lemma_perm_ids_len(elems, perm, n - 1);
    }
}

/// A permutation's id list reads `elems` at the row's positions.
pub proof fn lemma_perm_ids_index(elems: Seq<ModifierId>, perm: Seq<usize>, n: int)
    requires
        0 <= n <= perm.len(),
    ensures
        spec_perm_ids_upto(elems, perm, n).len() == n,
        forall|t: int|
            0 <= t < n ==> spec_perm_ids_upto(elems, perm, n)[t] == elems[#[trigger] perm[t] as int],
    decreases n,
{
    if n > 0 {
        lemma_perm_ids_index(elems, perm, n - 1);
        let prev = spec_perm_ids_upto(elems, perm, n - 1);
        let cur = spec_perm_ids_upto(elems, perm, n);
        assert forall|t: int| 0 <= t < n implies cur[t] == elems[#[trigger] perm[t] as int] by {
            if t < n - 1 {
                assert(cur[t] == prev[t]);
            }
        }
    }
}

/// The difference of a strictly sorted set stays strictly sorted, keeps
/// only members of the set, and holds nothing queued.
pub proof fn lemma_diff_props(s: Seq<ModifierId>, queue: Seq<ModifierId>, n: int)
    requires
        0 <= n <= s.len(),
        crate::seqs::strictly_sorted(s),
    ensures
        crate::seqs::strictly_sorted(spec_diff_upto(s, queue, n)),
        forall|k: int|
            0 <= k < spec_diff_upto(s, queue, n).len() ==> s.subrange(0, n).contains(
                #[trigger] spec_diff_upto(s, queue, n)[k],
            ),
        forall|k: int|
            0 <= k < spec_diff_upto(s, queue, n).len() ==> !queue.contains(
                #[trigger] spec_diff_upto(s, queue, n)[k],
            ),
    decreases n,
{
    if n > 0 {
        lemma_diff_props(s, queue, n - 1);
        let prev = spec_diff_upto(s, queue, n - 1);
        let cur = spec_diff_upto(s, queue, n);
        assert forall|k: int| 0 <= k < prev.len() implies prev[k] < s[n - 1] by {
            assert(s.subrange(0, n - 1).contains(prev[k]));
            let j = choose|j: int| 0 <= j < n - 1 && #[trigger] s.subrange(0, n - 1)[j] == prev[k];
            assert(s[j] == prev[k]);
        }
        if !queue.contains(s[n - 1]) {
            assert forall|a: int, b: int| 0 <= a < b < cur.len() implies cur[a] < cur[b] by {
                if b < prev.len() {
                    assert(cur[a] == prev[a] && cur[b] == prev[b]);
                } else {
                    assert(cur[a] == prev[a] && cur[b] == s[n - 1]);
                }
            }
            assert forall|k: int| 0 <= k < cur.len() implies s.subrange(0, n).contains(cur[k]) by {
                if k < prev.len() {
                    let j = choose|j: int|
                        0 <= j < n - 1 && #[trigger] s.subrange(0, n - 1)[j] == prev[k];
                    assert(s.subrange(0, n)[j] == cur[k]);
                } else {
                    assert(s.subrange(0, n)[n - 1] == cur[k]);
                }
            }
        } else {
            assert forall|k: int| 0 <= k < cur.len() implies s.subrange(0, n).contains(cur[k]) by {
                let j = choose|j: int|
                    0 <= j < n - 1 && #[trigger] s.subrange(0, n - 1)[j] == prev[k];
                assert(s.subrange(0, n)[j] == cur[k]);
            }
        }
    }
}

/// Members of the difference come from the set itself.
proof fn lemma_diff_members(s: Seq<ModifierId>, queue: Seq<ModifierId>, n: int)
    requires
        0 <= n <= s.len(),
    ensures
        forall|k: int|
            0 <= k < spec_diff_upto(s, queue, n).len() ==> s.contains(
                #[trigger] spec_diff_upto(s, queue, n)[k],
            ),
    decreases n,
{
    if n > 0 {
        lemma_diff_members(s, queue, n - 1);
        let prev = spec_diff_upto(s, queue, n - 1);
        let cur = spec_diff_upto(s, queue, n);
        assert(s.contains(s[n - 1]));
        assert forall|k: int| 0 <= k < cur.len() implies s.contains(cur[k]) by {
            if !queue.contains(s[n - 1]) {
                if k < prev.len() {
                    assert(cur[k] == prev[k]);
                } else {
                    assert(cur[k] == s[n - 1]);
                }
            } else {
                assert(cur[k] == prev[k]);
            }
        }
    }
}

/// Members of a permutation's id list come from `elems`.
proof fn lemma_perm_ids_members(elems: Seq<ModifierId>, perm: Seq<usize>, k: int)
    requires
        forall|t: int| 0 <= t < perm.len() ==> (#[trigger] perm[t]) < elems.len(),
    ensures
        forall|a: int|
            0 <= a < spec_perm_ids(elems, perm).len() ==> elems.contains(
                #[trigger] spec_perm_ids(elems, perm)[a],
            ),
{
    lemma_perm_ids_members_upto(elems, perm, perm.len() as int);
}

proof fn lemma_perm_ids_members_upto(elems: Seq<ModifierId>, perm: Seq<usize>, n: int)
    requires
        0 <= n <= perm.len(),
        forall|t: int| 0 <= t < perm.len() ==> (#[trigger] perm[t]) < elems.len(),
    ensures
        forall|a: int|
            0 <= a < spec_perm_ids_upto(elems, perm, n).len() ==> elems.contains(
                #[trigger] spec_perm_ids_upto(elems, perm, n)[a],
            ),
    decreases n,
{
    if n > 0 {
        lemma_perm_ids_members_upto(elems, perm, n - 1);
        let prev = spec_perm_ids_upto(elems, perm, n - 1);
        let cur = spec_perm_ids_upto(elems, perm, n);
        assert(elems.contains(elems[perm[n - 1] as int]));
        assert forall|a: int| 0 <= a < cur.len() implies elems.contains(cur[a]) by {
            if a < prev.len() {
                assert(cur[a] == prev[a]);
            } else {
                assert(cur[a] == elems[perm[n - 1] as int]);
            }
        }
    }
}

} // verus!
