//! The production resolver: which higher-tier modifiers an ordered combo
//! produces.
//!
//! The subsets of the combo's positions are enumerated in a fixed order —
//! ascending size, then position order — and the first subset whose id set
//! equals a known recipe, none of whose members has been claimed by an
//! earlier accepted subset, is accepted greedily.  The order-sensitive
//! greedy claim is a deliberate tie-break for overlapping recipes.  The
//! queue is hard-bounded at four slots, so the enumeration is a plain
//! sixteen-row table.

use vstd::prelude::*;
use crate::catalog::{spec_index_of_recipe, Modifier, ModifierId, Modifiers};
use crate::seqs::{contains_id, insert_sorted, spec_insert_sorted};

verus! {

/// The subsets of `0..n`, ascending by size, then by position order.
pub open spec fn spec_subsets(n: int) -> Seq<Seq<usize>> {
    if n <= 0 {
        seq![seq![]]
    } else if n == 1 {
        seq![seq![], seq![0usize]]
    } else if n == 2 {
        seq![seq![], seq![0usize], seq![1usize], seq![0usize, 1]]
    } else if n == 3 {
        seq![
            seq![],
            seq![0usize],
            seq![1usize],
            seq![2usize],
            seq![0usize, 1],
            seq![0usize, 2],
            seq![1usize, 2],
            seq![0usize, 1, 2],
        ]
    } else {
        seq![
            seq![],
            seq![0usize],
            seq![1usize],
            seq![2usize],
            seq![3usize],
            seq![0usize, 1],
            seq![0usize, 2],
            seq![0usize, 3],
            seq![1usize, 2],
            seq![1usize, 3],
            seq![2usize, 3],
            seq![0usize, 1, 2],
            seq![0usize, 1, 3],
            seq![0usize, 2, 3],
            seq![1usize, 2, 3],
            seq![0usize, 1, 2, 3],
        ]
    }
}

/// Every position named by the table for `n` is below `n`, and every row
/// has at most four entries.
pub proof fn lemma_subsets_positions(n: int)
    requires
        0 <= n <= 4,
    ensures
        forall|si: int, k: int|
            0 <= si < spec_subsets(n).len() && 0 <= k < spec_subsets(n)[si].len()
                ==> (#[trigger] spec_subsets(n)[si][k]) < n,
        forall|si: int| 0 <= si < spec_subsets(n).len() ==> (#[trigger] spec_subsets(n)[si]).len()
            <= 4,
        spec_subsets(n).len() <= 16,
{
}

/// The position subsets of a combo of length `n`, in enumeration order.
fn position_subsets(n: usize) -> (r: Vec<Vec<usize>>)
    requires
        n <= 4,
    ensures
        r@.len() == spec_subsets(n as int).len(),
        forall|si: int| 0 <= si < r@.len() ==> (#[trigger] r@[si])@ == spec_subsets(n as int)[si],
{
    let mut r: Vec<Vec<usize>> = Vec::new();
    r.push(Vec::new());
    if n >= 1 {
        r.push(one(0));
    }
    if n >= 2 {
        r.push(one(1));
    }
    if n >= 3 {
        r.push(one(2));
    }
    if n >= 4 {
        r.push(one(3));
    }
    if n >= 2 {
        r.push(two(0, 1));
    }
    if n >= 3 {
        r.push(two(0, 2));
        if n >= 4 {
            r.push(two(0, 3));
        }
        r.push(two(1, 2));
        if n >= 4 {
            r.push(two(1, 3));
            r.push(two(2, 3));
        }
        r.push(three(0, 1, 2));
        if n >= 4 {
            r.push(three(0, 1, 3));
            r.push(three(0, 2, 3));
            r.push(three(1, 2, 3));
            let mut s = three(0, 1, 2);
            s.push(3);
            r.push(s);
        }
    }
    proof {
        let tbl = spec_subsets(n as int);
        assert forall|si: int| 0 <= si < r@.len() implies (#[trigger] r@[si])@ == tbl[si] by {
            assert(r@[si]@ =~= tbl[si]);
        }
    }
    r
}

fn one(a: usize) -> (r: Vec<usize>)
    ensures
        r@ == seq![a],
{
    let mut r: Vec<usize> = Vec::new();
    r.push(a);
    proof {
        assert(r@ =~= seq![a]);
    }
    r
}

fn two(a: usize, b: usize) -> (r: Vec<usize>)
    ensures
        r@ == seq![a, b],
{
    let mut r: Vec<usize> = Vec::new();
    r.push(a);
    r.push(b);
    proof {
        assert(r@ =~= seq![a, b]);
    }
    r
}

fn three(a: usize, b: usize, c: usize) -> (r: Vec<usize>)
    ensures
        r@ == seq![a, b, c],
{
    let mut r: Vec<usize> = Vec::new();
    r.push(a);
    r.push(b);
    r.push(c);
    proof {
        assert(r@ =~= seq![a, b, c]);
    }
    r
}

/// Ids of the combo at the positions of one subset.
pub open spec fn spec_subset_ids_upto(combo: Seq<ModifierId>, subset: Seq<usize>, n: int) -> Seq<
    ModifierId,
>
    decreases n,
{
    if n <= 0 {
        Seq::empty()
    } else {
        spec_subset_ids_upto(combo, subset, n - 1).push(combo[subset[n - 1] as int])
    }
}

/// Ids of the combo at the positions of one subset.
pub open spec fn spec_subset_ids(combo: Seq<ModifierId>, subset: Seq<usize>) -> Seq<ModifierId> {
    spec_subset_ids_upto(combo, subset, subset.len() as int)
}

/// The ids, sorted and deduplicated: the canonical set key of a subset.
pub open spec fn spec_sorted_key_upto(ids: Seq<ModifierId>, n: int) -> Seq<ModifierId>
    decreases n,
{
    if n <= 0 {
        Seq::empty()
    } else {
        spec_insert_sorted(spec_sorted_key_upto(ids, n - 1), ids[n - 1])
    }
}

/// The ids, sorted and deduplicated: the canonical set key of a subset.
pub open spec fn spec_sorted_key(ids: Seq<ModifierId>) -> Seq<ModifierId> {
    spec_sorted_key_upto(ids, ids.len() as int)
}

/// None of the ids has been claimed yet.
pub open spec fn spec_none_used(used: Seq<ModifierId>, ids: Seq<ModifierId>) -> bool {
    forall|k: int| 0 <= k < ids.len() ==> !used.contains(#[trigger] ids[k])
}

/// One enumeration step of the resolver: accept the subset if its members
/// are unclaimed and its id set is a known recipe.
pub open spec fn spec_produce_step(
    list: Seq<Modifier>,
    combo: Seq<ModifierId>,
    used: Seq<ModifierId>,
    acc: Seq<(Seq<ModifierId>, ModifierId)>,
    subset: Seq<usize>,
) -> (Seq<ModifierId>, Seq<(Seq<ModifierId>, ModifierId)>) {
    let ids = spec_subset_ids(combo, subset);
    if spec_none_used(used, ids) {
        let key = spec_sorted_key(ids);
        match spec_index_of_recipe(list, key) {
            Some(mi) => (used + ids, acc.push((key, list[mi].id))),
            None => (used, acc),
        }
    } else {
        (used, acc)
    }
}

/// The resolver state after the first `n` subsets of the enumeration.
pub open spec fn spec_produced_upto(list: Seq<Modifier>, combo: Seq<ModifierId>, n: int) -> (
    Seq<ModifierId>,
    Seq<(Seq<ModifierId>, ModifierId)>,
)
    decreases n,
{
    if n <= 0 {
        (Seq::empty(), Seq::empty())
    } else {
        let prev = spec_produced_upto(list, combo, n - 1);
        spec_produce_step(list, combo, prev.0, prev.1, spec_subsets(combo.len() as int)[n - 1])
    }
}

/// The accepted subsets of the combo, as pairs of the claimed id set and
/// the produced modifier id, in enumeration order.
pub open spec fn spec_produced(list: Seq<Modifier>, combo: Seq<ModifierId>) -> Seq<
    (Seq<ModifierId>, ModifierId),
> {
    spec_produced_upto(list, combo, spec_subsets(combo.len() as int).len() as int).1
}

/// Some accepted subset produced this id.
pub open spec fn spec_produces_id(
    acc: Seq<(Seq<ModifierId>, ModifierId)>,
    id: ModifierId,
) -> bool {
    exists|k: int| 0 <= k < acc.len() && (#[trigger] acc[k]).1 == id
}

/// Which modifiers the combo produces: enumerate the position subsets in
/// ascending size then position order, and greedily accept each subset
/// whose id set equals a known recipe and whose members are still
/// unclaimed.  Returns the claimed id set and the produced id of each
/// accepted subset, in enumeration order.
pub fn get_produced_modifier_ids(m: &Modifiers, combo: &Vec<ModifierId>) -> (r: Vec<
    (Vec<ModifierId>, ModifierId),
>)
    requires
        combo@.len() <= 4,
    ensures
        r@.len() == spec_produced(m.by_id@, combo@).len(),
        forall|k: int|
            0 <= k < r@.len() ==> ((#[trigger] r@[k]).0@, r@[k].1) == spec_produced(
                m.by_id@,
                combo@,
            )[k],
{
    let tbl = position_subsets(combo.len());
    let mut used: Vec<ModifierId> = Vec::new();
    let mut acc: Vec<(Vec<ModifierId>, ModifierId)> = Vec::new();
    let mut si: usize = 0;
    proof {
        lemma_subsets_positions(combo@.len() as int);
    }
    while si < tbl.len()
        invariant
            combo@.len() <= 4,
            tbl@.len() == spec_subsets(combo@.len() as int).len(),
            forall|a: int|
                0 <= a < tbl@.len() ==> (#[trigger] tbl@[a])@ == spec_subsets(
                    combo@.len() as int,
                )[a],
            forall|a: int, k: int|
                0 <= a < spec_subsets(combo@.len() as int).len() && 0 <= k < spec_subsets(
                    combo@.len() as int,
                )[a].len() ==> (#[trigger] spec_subsets(combo@.len() as int)[a][k])
                    < combo@.len(),
            0 <= si <= tbl@.len(),
            used@ == spec_produced_upto(m.by_id@, combo@, si as int).0,
            acc@.len() == spec_produced_upto(m.by_id@, combo@, si as int).1.len(),
            forall|k: int|
                0 <= k < acc@.len() ==> ((#[trigger] acc@[k]).0@, acc@[k].1) == spec_produced_upto(
                    m.by_id@,
                    combo@,
                    si as int,
                ).1[k],
        decreases tbl@.len() - si,
    {
        let subset = &tbl[si];
        // the ids at the subset's positions
        let mut ids: Vec<ModifierId> = Vec::new();
        let mut k: usize = 0;
        while k < subset.len()
            invariant
                subset@ == spec_subsets(combo@.len() as int)[si as int],
                si < spec_subsets(combo@.len() as int).len(),
                forall|a: int, k2: int|
                    0 <= a < spec_subsets(combo@.len() as int).len() && 0 <= k2 < spec_subsets(
                        combo@.len() as int,
                    )[a].len() ==> (#[trigger] spec_subsets(combo@.len() as int)[a][k2])
                        < combo@.len(),
                0 <= k <= subset@.len(),
                ids@ == spec_subset_ids_upto(combo@, subset@, k as int),
            decreases subset@.len() - k,
        {
            let pos = subset[k];
            assert(pos < combo@.len());
            ids.push(combo[pos]);
            k += 1;
        }
        // claimed members bar the subset
        let mut free = true;
        let mut k: usize = 0;
        while k < ids.len()
            invariant
                0 <= k <= ids@.len(),
                free == (forall|a: int| 0 <= a < k ==> !used@.contains(#[trigger] ids@[a])),
            decreases ids@.len() - k,
        {
            if contains_id(&used, ids[k]) {
                free = false;
            }
            k += 1;
        }
        if free {
            // canonical set key of the subset
            let mut key: Vec<ModifierId> = Vec::new();
            let mut k: usize = 0;
            while k < ids.len()
                invariant
                    0 <= k <= ids@.len(),
                    key@ == spec_sorted_key_upto(ids@, k as int),
                decreases ids@.len() - k,
            {
                insert_sorted(&mut key, ids[k]);
                k += 1;
            }
            match m.index_of_recipe(&key) {
                Some(mi) => {
                    let produced = m.by_id[mi].id;
                    acc.push((key, produced));
                    let mut k: usize = 0;
                    let ghost used_before = used@;
                    while k < ids.len()
                        invariant
                            0 <= k <= ids@.len(),
                            used@ == used_before + ids@.subrange(0, k as int),
                        decreases ids@.len() - k,
                    {
                        used.push(ids[k]);
                        proof {
                            assert(used@ =~= used_before + ids@.subrange(0, k + 1));
                        }
                        k += 1;
                    }
                    proof {
                        assert(ids@.subrange(0, ids@.len() as int) =~= ids@);
                        assert(used@ =~= used_before + ids@);
                    }
                },
                None => {},
            }
        }
        proof {
            let step = spec_produce_step(
                m.by_id@,
                combo@,
                spec_produced_upto(m.by_id@, combo@, si as int).0,
                spec_produced_upto(m.by_id@, combo@, si as int).1,
                spec_subsets(combo@.len() as int)[si as int],
            );
            assert(spec_produced_upto(m.by_id@, combo@, si + 1) == step);
        }
        si += 1;
    }
    acc
}

} // verus!
