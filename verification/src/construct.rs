//! Catalog construction: validation of the raw modifier list and the
//! precomputation of each modifier's recursive component bag.

use vstd::prelude::*;
use crate::catalog::{
    has_id, modifier_wf, rewards_distinct, spec_index_of, spec_index_of_upto,
    lemma_index_of_upto_props, Modifier, ModifierId, Modifiers,
};
use crate::seqs::{ids_eq, sat_add, saturating_add, strictly_sorted, lemma_sorted_from_adjacent};

verus! {

/// Cap on the number of expansion steps spent on one modifier's component
/// bag.  A recipe graph that exceeds it (in particular, a cyclic one, which
/// would never finish) is rejected as malformed.
pub const EXPAND_FUEL: u64 = 65536;

/// One step per recursion: pop the last id of the stack, record the visit,
/// push the id's recipe.  `None` when an id is unknown or the fuel runs
/// out; otherwise the ids in visit order, the root first.
pub open spec fn spec_expand(
    list: Seq<Modifier>,
    stack: Seq<ModifierId>,
    visits: Seq<ModifierId>,
    fuel: nat,
) -> Option<Seq<ModifierId>>
    decreases fuel,
{
    if stack.len() == 0 {
        Some(visits)
    } else if fuel == 0 {
        None
    } else {
        let id = stack.last();
        match spec_index_of(list, id) {
            None => None,
            Some(i) => spec_expand(
                list,
                stack.drop_last() + list[i].recipe@,
                visits.push(id),
                (fuel - 1) as nat,
            ),
        }
    }
}

/// First index with the given key in an id-to-count row, scanning
/// `row[..n]`.
pub open spec fn spec_key_index_upto(row: Seq<(ModifierId, u64)>, id: ModifierId, n: int) -> Option<
    int,
>
    decreases n,
{
    if n <= 0 {
        None
    } else {
        match spec_key_index_upto(row, id, n - 1) {
            Some(i) => Some(i),
            None => if row[n - 1].0 == id {
                Some(n - 1)
            } else {
                None
            },
        }
    }
}

/// First index with the given key in an id-to-count row.
pub open spec fn spec_key_index(row: Seq<(ModifierId, u64)>, id: ModifierId) -> Option<int> {
    spec_key_index_upto(row, id, row.len() as int)
}

pub proof fn lemma_key_index_props(row: Seq<(ModifierId, u64)>, id: ModifierId, n: int)
    requires
        0 <= n <= row.len(),
    ensures
        match spec_key_index_upto(row, id, n) {
            Some(i) => 0 <= i < n && row[i].0 == id,
            None => forall|j: int| 0 <= j < n ==> row[j].0 != id,
        },
    decreases n,
{
    if n > 0 {
        lemma_key_index_props(row, id, n - 1);
    }
}

proof fn lemma_key_index_extend(row: Seq<(ModifierId, u64)>, id: ModifierId, i: int, n: int)
    requires
        0 <= i < n <= row.len(),
        spec_key_index_upto(row, id, i) is None,
        row[i].0 == id,
    ensures
        spec_key_index_upto(row, id, n) == Some(i),
    decreases n,
{
    if n - 1 > i {
        lemma_key_index_extend(row, id, i, n - 1);
    }
}

/// First index with the given key.
pub fn key_index(row: &Vec<(ModifierId, u64)>, id: ModifierId) -> (r: Option<usize>)
    ensures
        match r {
            Some(i) => spec_key_index(row@, id) == Some(i as int) && i < row@.len(),
            None => spec_key_index(row@, id) is None,
        },
{
    let mut i: usize = 0;
    while i < row.len()
        invariant
            0 <= i <= row@.len(),
            spec_key_index_upto(row@, id, i as int) is None,
        decreases row@.len() - i,
    {
        if row[i].0 == id {
            proof {
                lemma_key_index_extend(row@, id, i as int, row@.len() as int);
            }
            return Some(i);
        }
        i += 1;
    }
    None
}

/// Add one occurrence of `id` to the row: bump the existing entry or
/// append a new one with count 1.
pub open spec fn spec_bump(row: Seq<(ModifierId, u64)>, id: ModifierId) -> Seq<(ModifierId, u64)> {
    match spec_key_index(row, id) {
        Some(i) => row.update(i, (id, sat_add(row[i].1, 1))),
        None => row.push((id, 1)),
    }
}

/// The occurrence counts of `visits[..n]`, keyed in first-visit order.
pub open spec fn spec_counts(visits: Seq<ModifierId>, n: int) -> Seq<(ModifierId, u64)>
    decreases n,
{
    if n <= 0 {
        Seq::empty()
    } else {
        spec_bump(spec_counts(visits, n - 1), visits[n - 1])
    }
}

/// The component row of the modifier at `root`: expand the recipe graph
/// from it, drop the root's own visit, and count the rest.
pub open spec fn spec_component_row(list: Seq<Modifier>, root: ModifierId) -> Option<
    Seq<(ModifierId, u64)>,
> {
    match spec_expand(list, seq![root], Seq::empty(), EXPAND_FUEL as nat) {
        None => None,
        Some(visits) => Some(spec_counts(visits.drop_first(), visits.len() - 1)),
    }
}

/// The raw modifier list is acceptable: ids distinct, each modifier
/// well-formed, recipes resolving in the list, non-empty recipes pairwise
/// distinct, and every component expansion finishing within its fuel.
pub open spec fn spec_catalog_data_ok(list: Seq<Modifier>) -> bool {
    &&& forall|i: int, j: int| 0 <= i < j < list.len() ==> list[i].id != list[j].id
    &&& forall|i: int| 0 <= i < list.len() ==> modifier_wf(#[trigger] list[i])
    &&& forall|i: int, k: int|
        0 <= i < list.len() && 0 <= k < list[i].recipe@.len() ==> has_id(
            list,
            #[trigger] list[i].recipe@[k],
        )
    &&& forall|i: int, j: int|
        0 <= i < j < list.len() && list[i].recipe@.len() > 0 ==> list[i].recipe@
            != list[j].recipe@
    &&& forall|i: int|
        0 <= i < list.len() ==> spec_expand(
            list,
            seq![(#[trigger] list[i]).id],
            Seq::empty(),
            EXPAND_FUEL as nat,
        ) is Some
}

/// All ids on the stack and in the visit list resolve in the catalog, so
/// the ids of a successful expansion do too.
proof fn lemma_expand_ids_resolve(
    list: Seq<Modifier>,
    stack: Seq<ModifierId>,
    visits: Seq<ModifierId>,
    fuel: nat,
)
    requires
        forall|i: int, k: int|
            0 <= i < list.len() && 0 <= k < list[i].recipe@.len() ==> has_id(
                list,
                #[trigger] list[i].recipe@[k],
            ),
        forall|k: int| 0 <= k < stack.len() ==> has_id(list, #[trigger] stack[k]),
        forall|k: int| 0 <= k < visits.len() ==> has_id(list, #[trigger] visits[k]),
        spec_expand(list, stack, visits, fuel) is Some,
    ensures
        forall|k: int|
            0 <= k < spec_expand(list, stack, visits, fuel).unwrap().len() ==> has_id(
                list,
                #[trigger] spec_expand(list, stack, visits, fuel).unwrap()[k],
            ),
    decreases fuel,
{
    if stack.len() == 0 {
    } else {
        let id = stack.last();
        let i = spec_index_of(list, id).unwrap();
        lemma_index_of_upto_props(list, id, list.len() as int);
        let stack2 = stack.drop_last() + list[i].recipe@;
        assert(forall|k: int| 0 <= k < stack2.len() ==> has_id(list, #[trigger] stack2[k]));
        lemma_expand_ids_resolve(list, stack2, visits.push(id), (fuel - 1) as nat);
    }
}

/// Keys of a count row over `visits` are visit ids.
pub proof fn lemma_counts_keys(visits: Seq<ModifierId>, n: int)
    requires
        0 <= n <= visits.len(),
    ensures
        forall|k: int|
            0 <= k < spec_counts(visits, n).len() ==> visits.contains(
                (#[trigger] spec_counts(visits, n)[k]).0,
            ),
    decreases n,
{
    if n > 0 {
        lemma_counts_keys(visits, n - 1);
        let prev = spec_counts(visits, n - 1);
        let id = visits[n - 1];
        assert(visits.contains(id));
        match spec_key_index(prev, id) {
            Some(i) => {
                lemma_key_index_props(prev, id, prev.len() as int);
            },
            None => {},
        }
    }
}

/// Rows with the same keys agree on where a key first occurs.
pub proof fn lemma_key_index_same_keys(
    r1: Seq<(ModifierId, u64)>,
    r2: Seq<(ModifierId, u64)>,
    id: ModifierId,
    n: int,
)
    requires
        r1.len() == r2.len(),
        forall|t: int| 0 <= t < r1.len() ==> (#[trigger] r1[t]).0 == r2[t].0,
        n <= r1.len(),
    ensures
        spec_key_index_upto(r1, id, n) == spec_key_index_upto(r2, id, n),
    decreases n,
{
    if n > 0 {
        lemma_key_index_same_keys(r1, r2, id, n - 1);
    }
}

/// A prefix hit stays a hit for any longer scan.
pub proof fn lemma_key_index_monotone(row: Seq<(ModifierId, u64)>, id: ModifierId, a: int, b: int)
    requires
        0 <= a <= b,
        spec_key_index_upto(row, id, a) is Some,
    ensures
        spec_key_index_upto(row, id, b) == spec_key_index_upto(row, id, a),
    decreases b - a,
{
    if a < b {
        lemma_key_index_monotone(row, id, a, b - 1);
    }
}

/// Scans read only the prefix.
pub proof fn lemma_key_index_prefix(
    row: Seq<(ModifierId, u64)>,
    ext: Seq<(ModifierId, u64)>,
    id: ModifierId,
    n: int,
)
    requires
        0 <= n <= row.len(),
        ext.len() >= row.len(),
        forall|t: int| 0 <= t < row.len() ==> #[trigger] ext[t] == row[t],
    ensures
        spec_key_index_upto(ext, id, n) == spec_key_index_upto(row, id, n),
    decreases n,
{
    if n > 0 {
        lemma_key_index_prefix(row, ext, id, n - 1);
    }
}

/// Every visited id keys an entry of its count row.
pub proof fn lemma_counts_have_keys(visits: Seq<ModifierId>, n: int)
    requires
        0 <= n <= visits.len(),
    ensures
        forall|j: int|
            0 <= j < n ==> spec_key_index(spec_counts(visits, n), #[trigger] visits[j]) is Some,
    decreases n,
{
    if n > 0 {
        lemma_counts_have_keys(visits, n - 1);
        let prev = spec_counts(visits, n - 1);
        let cur = spec_counts(visits, n);
        let id = visits[n - 1];
        assert forall|j: int|
            0 <= j < n implies spec_key_index(cur, #[trigger] visits[j]) is Some by {
            match spec_key_index(prev, id) {
                Some(i) => {
                    lemma_key_index_props(prev, id, prev.len() as int);
                    let upd = prev.update(i, (id, sat_add(prev[i].1, 1)));
                    assert(forall|t: int| 0 <= t < prev.len() ==> (#[trigger] prev[t]).0 == upd[t].0);
                    lemma_key_index_same_keys(prev, upd, visits[j], prev.len() as int);
                    if j < n - 1 {
                        assert(spec_key_index(prev, visits[j]) is Some);
                    } else {
                        assert(spec_key_index(prev, id) is Some);
                    }
                },
                None => {
                    let ext = prev.push((id, 1));
                    lemma_key_index_prefix(prev, ext, visits[j], prev.len() as int);
                    if j < n - 1 {
                        assert(spec_key_index(prev, visits[j]) is Some);
                        lemma_key_index_monotone(
                            ext,
                            visits[j],
                            prev.len() as int,
                            ext.len() as int,
                        );
                    } else {
                        assert(spec_key_index_upto(ext, id, prev.len() as int) is None);
                        assert(ext[ext.len() - 1].0 == id);
                    }
                },
            }
        }
    }
}

/// Every id a finished expansion reaches appears in the result, together
/// with its whole recipe.
pub proof fn lemma_expand_closure(
    list: Seq<Modifier>,
    stack: Seq<ModifierId>,
    visits: Seq<ModifierId>,
    fuel: nat,
)
    requires
        spec_expand(list, stack, visits, fuel) is Some,
    ensures
        forall|x: ModifierId|
            stack.contains(x) ==> spec_expand(list, stack, visits, fuel).unwrap().contains(x),
        forall|x: ModifierId|
            visits.contains(x) ==> spec_expand(list, stack, visits, fuel).unwrap().contains(x),
        forall|x: ModifierId|
            spec_expand(list, stack, visits, fuel).unwrap().contains(x) && !visits.contains(x)
                ==> spec_index_of(list, x) is Some && (forall|k: int|
                0 <= k < list[spec_index_of(list, x).unwrap()].recipe@.len() ==> spec_expand(
                    list,
                    stack,
                    visits,
                    fuel,
                ).unwrap().contains(
                    #[trigger] list[spec_index_of(list, x).unwrap()].recipe@[k],
                )),
    decreases fuel,
{
    let v = spec_expand(list, stack, visits, fuel).unwrap();
    if stack.len() == 0 {
    } else {
        let id = stack.last();
        let ix = spec_index_of(list, id).unwrap();
        let stack2 = stack.drop_last() + list[ix].recipe@;
        let visits2 = visits.push(id);
        lemma_expand_closure(list, stack2, visits2, (fuel - 1) as nat);
        assert(visits2.contains(id)) by {
            assert(visits2[visits2.len() - 1] == id);
        }
        assert forall|x: ModifierId| stack.contains(x) implies v.contains(x) by {
            let j = choose|j: int| 0 <= j < stack.len() && stack[j] == x;
            if j < stack.len() - 1 {
                assert(stack2[j] == x);
                assert(stack2.contains(x));
            } else {
                assert(x == id);
            }
        }
        assert forall|x: ModifierId| visits.contains(x) implies v.contains(x) by {
            let j = choose|j: int| 0 <= j < visits.len() && visits[j] == x;
            assert(visits2[j] == x);
            assert(visits2.contains(x));
        }
        assert forall|x: ModifierId|
            v.contains(x) && !visits.contains(x) implies spec_index_of(list, x) is Some && (
        forall|k: int|
            0 <= k < list[spec_index_of(list, x).unwrap()].recipe@.len() ==> v.contains(
                #[trigger] list[spec_index_of(list, x).unwrap()].recipe@[k],
            )) by {
            if x == id {
                assert forall|k: int|
                    0 <= k < list[ix].recipe@.len() implies v.contains(
                    #[trigger] list[ix].recipe@[k],
                ) by {
                    assert(stack2[stack.len() - 1 + k] == list[ix].recipe@[k]);
                    assert(stack2.contains(list[ix].recipe@[k]));
                }
            } else {
                assert(!visits2.contains(x)) by {
                    if visits2.contains(x) {
                        let j = choose|j: int| 0 <= j < visits2.len() && visits2[j] == x;
                        if j < visits.len() {
                            assert(visits[j] == x);
                        }
                    }
                }
            }
        }
    }
}

impl Modifiers {
    /// Build the catalog from the raw modifier list.  Malformed data — a
    /// duplicate id, an unsorted or unresolved or duplicated recipe,
    /// duplicate reward keys, or a recipe graph whose expansion does not
    /// finish (a cycle) — yields `None`; this mirrors the fatal startup
    /// error the surrounding application turns it into.
    pub fn new(modifiers: Vec<Modifier>) -> (r: Option<Modifiers>)
        ensures
            r is Some <==> spec_catalog_data_ok(modifiers@),
            match r {
                Some(m) => {
                    &&& m.by_id@ == modifiers@
                    &&& m.wf()
                    &&& m.components@.len() == modifiers@.len()
                    &&& forall|i: int|
                        0 <= i < modifiers@.len() ==> Some((#[trigger] m.components@[i])@)
                            == spec_component_row(modifiers@, modifiers@[i].id)
                },
                None => true,
            },
    {
        let n = modifiers.len();
        // distinct ids
        let mut i: usize = 0;
        while i < n
            invariant
                n == modifiers@.len(),
                0 <= i <= n,
                forall|a: int, b: int| 0 <= a < b < i ==> modifiers@[a].id != modifiers@[b].id,
            decreases n - i,
        {
            let mut j: usize = 0;
            while j < i
                invariant
                    n == modifiers@.len(),
                    0 <= j <= i < n,
                    forall|b: int| 0 <= b < j ==> modifiers@[b].id != modifiers@[i as int].id,
                decreases i - j,
            {
                if modifiers[j].id == modifiers[i].id {
                    return None;
                }
                j += 1;
            }
            i += 1;
        }
        // per-modifier shape
        let mut i: usize = 0;
        while i < n
            invariant
                n == modifiers@.len(),
                0 <= i <= n,
                forall|a: int| 0 <= a < i ==> modifier_wf(#[trigger] modifiers@[a]),
            decreases n - i,
        {
            let recipe = &modifiers[i].recipe;
            if recipe.len() > 0 {
                let mut k: usize = 0;
                while k < recipe.len() - 1
                    invariant
                        n == modifiers@.len(),
                        i < n,
                        recipe@ == modifiers@[i as int].recipe@,
                        recipe@.len() > 0,
                        0 <= k <= recipe@.len() - 1,
                        forall|a: int| 0 <= a < k ==> #[trigger] recipe@[a] < recipe@[a + 1],
                    decreases recipe@.len() - k,
                {
                    if recipe[k] >= recipe[k + 1] {
                        proof {
                            assert(!strictly_sorted(recipe@));
                            assert(!modifier_wf(modifiers@[i as int]));
                        }
                        return None;
                    }
                    k += 1;
                }
            }
            proof {
                lemma_sorted_from_adjacent(recipe@);
            }
            let rewards = &modifiers[i].rewards;
            let mut a: usize = 0;
            while a < rewards.len()
                invariant
                    n == modifiers@.len(),
                    i < n,
                    rewards@ == modifiers@[i as int].rewards@,
                    0 <= a <= rewards@.len(),
                    forall|x: int, y: int| 0 <= x < y < a ==> rewards@[x].0 != rewards@[y].0,
                decreases rewards@.len() - a,
            {
                let mut b: usize = 0;
                while b < a
                    invariant
                        n == modifiers@.len(),
                        i < n,
                        rewards@ == modifiers@[i as int].rewards@,
                        0 <= b <= a < rewards@.len(),
                        forall|x: int| 0 <= x < b ==> rewards@[x].0 != rewards@[a as int].0,
                    decreases a - b,
                {
                    if rewards[b].0 == rewards[a].0 {
                        proof {
                            assert(!rewards_distinct(rewards@));
                            assert(!modifier_wf(modifiers@[i as int]));
                        }
                        return None;
                    }
                    b += 1;
                }
                a += 1;
            }
            i += 1;
        }
        // recipe members resolve
        let mut i: usize = 0;
        while i < n
            invariant
                n == modifiers@.len(),
                0 <= i <= n,
                forall|a: int, k: int|
                    0 <= a < i && 0 <= k < modifiers@[a].recipe@.len() ==> has_id(
                        modifiers@,
                        #[trigger] modifiers@[a].recipe@[k],
                    ),
            decreases n - i,
        {
            let recipe_len = modifiers[i].recipe.len();
            let mut k: usize = 0;
            while k < recipe_len
                invariant
                    n == modifiers@.len(),
                    i < n,
                    recipe_len == modifiers@[i as int].recipe@.len(),
                    0 <= k <= recipe_len,
                    forall|a: int|
                        0 <= a < k ==> has_id(modifiers@, #[trigger] modifiers@[i as int].recipe@[a]),
                decreases recipe_len - k,
            {
                let member = modifiers[i].recipe[k];
                if find_modifier_index(&modifiers, member).is_none() {
                    return None;
                }
                k += 1;
            }
            i += 1;
        }
        // non-empty recipes pairwise distinct
        let mut i: usize = 0;
        while i < n
            invariant
                n == modifiers@.len(),
                0 <= i <= n,
                forall|a: int, b: int|
                    0 <= a < b < i && modifiers@[a].recipe@.len() > 0 ==> modifiers@[a].recipe@
                        != modifiers@[b].recipe@,
            decreases n - i,
        {
            let mut j: usize = 0;
            while j < i
                invariant
                    n == modifiers@.len(),
                    0 <= j <= i < n,
                    forall|b: int|
                        0 <= b < j && modifiers@[b].recipe@.len() > 0 ==> modifiers@[b].recipe@
                            != modifiers@[i as int].recipe@,
                decreases i - j,
            {
                if modifiers[j].recipe.len() > 0 && ids_eq(&modifiers[j].recipe, &modifiers[i].recipe)
                {
                    return None;
                }
                j += 1;
            }
            i += 1;
        }
        // component rows
        let mut components: Vec<Vec<(ModifierId, u64)>> = Vec::new();
        let mut i: usize = 0;
        while i < n
            invariant
                n == modifiers@.len(),
                0 <= i <= n,
                components@.len() == i,
                forall|i2: int, k: int|
                    0 <= i2 < modifiers@.len() && 0 <= k < modifiers@[i2].recipe@.len() ==> has_id(
                        modifiers@,
                        #[trigger] modifiers@[i2].recipe@[k],
                    ),
                forall|a: int|
                    0 <= a < i ==> Some((#[trigger] components@[a])@) == spec_component_row(
                        modifiers@,
                        modifiers@[a].id,
                    ),
                forall|a: int, k: int|
                    0 <= a < i && 0 <= k < components@[a]@.len() ==> has_id(
                        modifiers@,
                        (#[trigger] components@[a]@[k]).0,
                    ),
            decreases n - i,
        {
            let root = modifiers[i].id;
            match component_row(&modifiers, root) {
                None => {
                    return None;
                },
                Some(row) => {
                    components.push(row);
                },
            }
            i += 1;
        }
        proof {
            assert forall|i2: int|
                0 <= i2 < modifiers@.len() implies spec_expand(
                modifiers@,
                seq![(#[trigger] modifiers@[i2]).id],
                Seq::empty(),
                EXPAND_FUEL as nat,
            ) is Some by {
                assert(Some(components@[i2]@) == spec_component_row(modifiers@, modifiers@[i2].id));
            }
        }
        Some(Modifiers { by_id: modifiers, components })
    }
}

/// First index of the modifier with the given id in a raw list.
pub fn find_modifier_index(list: &Vec<Modifier>, id: ModifierId) -> (r: Option<usize>)
    ensures
        match r {
            Some(i) => spec_index_of(list@, id) == Some(i as int) && i < list@.len()
                && list@[i as int].id == id,
            None => spec_index_of(list@, id) is None,
        },
{
    let mut i: usize = 0;
    while i < list.len()
        invariant
            0 <= i <= list@.len(),
            spec_index_of_upto(list@, id, i as int) is None,
        decreases list@.len() - i,
    {
        if list[i].id == id {
            proof {
                lemma_index_of_extend_free(list@, id, i as int, list@.len() as int);
            }
            return Some(i);
        }
        i += 1;
    }
    None
}

proof fn lemma_index_of_extend_free(list: Seq<Modifier>, id: ModifierId, i: int, n: int)
    requires
        0 <= i < n <= list.len(),
        spec_index_of_upto(list, id, i) is None,
        list[i].id == id,
    ensures
        spec_index_of_upto(list, id, n) == Some(i),
    decreases n,
{
    if n - 1 > i {
        lemma_index_of_extend_free(list, id, i, n - 1);
    }
}

/// The component row of one modifier, or `None` when an id fails to
/// resolve or the expansion exceeds its fuel.
fn component_row(list: &Vec<Modifier>, root: ModifierId) -> (r: Option<Vec<(ModifierId, u64)>>)
    ensures
        match r {
            Some(row) => {
                &&& Some(row@) == spec_component_row(list@, root)
                &&& ((forall|a: int, b: int|
                    0 <= a < list@.len() && 0 <= b < list@[a].recipe@.len() ==> has_id(
                        list@,
                        #[trigger] list@[a].recipe@[b],
                    )) && has_id(list@, root)) ==> forall|k: int|
                    0 <= k < row@.len() ==> has_id(list@, (#[trigger] row@[k]).0)
            },
            None => spec_component_row(list@, root) is None || spec_expand(
                list@,
                seq![root],
                Seq::empty(),
                EXPAND_FUEL as nat,
            ) is None,
        },
{
    let mut stack: Vec<ModifierId> = Vec::new();
    stack.push(root);
    let mut visits: Vec<ModifierId> = Vec::new();
    let mut fuel: u64 = EXPAND_FUEL;
    proof {
        assert(stack@ =~= seq![root]);
        assert(visits@ =~= Seq::<ModifierId>::empty());
    }
    loop
        invariant
            spec_expand(list@, stack@, visits@, fuel as nat) == spec_expand(
                list@,
                seq![root],
                Seq::empty(),
                EXPAND_FUEL as nat,
            ),
            visits@.len() + stack@.len() >= 1,
        ensures
            spec_expand(list@, seq![root], Seq::empty(), EXPAND_FUEL as nat) == Some(visits@),
            visits@.len() >= 1,
        decreases fuel,
    {
        if stack.len() == 0 {
            break;
        }
        if fuel == 0 {
            return None;
        }
        let ghost old_stack = stack@;
        let id = stack.pop().unwrap();
        match find_modifier_index(list, id) {
            None => {
                return None;
            },
            Some(mi) => {
                visits.push(id);
                let recipe_len = list[mi].recipe.len();
                let mut k: usize = 0;
                while k < recipe_len
                    invariant
                        mi < list@.len(),
                        recipe_len == list@[mi as int].recipe@.len(),
                        0 <= k <= recipe_len,
                        stack@ == old_stack.drop_last() + list@[mi as int].recipe@.subrange(
                            0,
                            k as int,
                        ),
                    decreases recipe_len - k,
                {
                    stack.push(list[mi].recipe[k]);
                    proof {
                        assert(list@[mi as int].recipe@.subrange(0, k + 1 as int)
                            =~= list@[mi as int].recipe@.subrange(0, k as int).push(
                            list@[mi as int].recipe@[k as int],
                        ));
                        assert(stack@ =~= old_stack.drop_last() + list@[mi as int].recipe@.subrange(
                            0,
                            k + 1 as int,
                        ));
                    }
                    k += 1;
                }
                proof {
                    assert(list@[mi as int].recipe@.subrange(0, recipe_len as int)
                        =~= list@[mi as int].recipe@);
                    assert(stack@ =~= old_stack.drop_last() + list@[mi as int].recipe@);
                }
                fuel = fuel - 1;
            },
        }
    }
    // count the visits, skipping the root's own first visit
    let ghost full_visits = visits@;
    let mut row: Vec<(ModifierId, u64)> = Vec::new();
    let mut v: usize = 1;
    proof {
        assert(row@ =~= spec_counts(full_visits.drop_first(), 0));
    }
    while v < visits.len()
        invariant
            visits@ == full_visits,
            full_visits.len() >= 1,
            1 <= v <= full_visits.len(),
            row@ == spec_counts(full_visits.drop_first(), v - 1),
        decreases full_visits.len() - v,
    {
        let id = visits[v];
        match key_index(&row, id) {
            Some(ki) => {
                let c = row[ki].1;
                row.set(ki, (id, saturating_add(c, 1)));
            },
            None => {
                row.push((id, 1));
            },
        }
        proof {
            assert(full_visits.drop_first()[v - 1] == full_visits[v as int]);
            let ghost vid = full_visits[v as int];
            assert(row@ =~= spec_bump(spec_counts(full_visits.drop_first(), v - 1), vid));
        }
        v += 1;
    }
    proof {
        assert(row@ == spec_counts(full_visits.drop_first(), full_visits.len() - 1));
        lemma_counts_keys(full_visits.drop_first(), full_visits.len() - 1);
        if (forall|a: int, b: int|
            0 <= a < list@.len() && 0 <= b < list@[a].recipe@.len() ==> has_id(
                list@,
                #[trigger] list@[a].recipe@[b],
            )) && has_id(list@, root) {
            lemma_expand_ids_resolve(list@, seq![root], Seq::empty(), EXPAND_FUEL as nat);
            assert forall|k: int| 0 <= k < row@.len() implies has_id(list@, (#[trigger] row@[k]).0)
            by {
                assert(full_visits.drop_first().contains(row@[k].0));
                let w = choose|w: int|
                    0 <= w < full_visits.drop_first().len() && full_visits.drop_first()[w]
                        == row@[k].0;
                assert(full_visits[w + 1] == row@[k].0);
            }
        }
    }
    Some(row)
}

} // verus!
