//! Candidate move generation for the combo search.
//!
//! Roster-derived candidates come first: for every roster combo, each
//! recursively required component whose (non-empty) recipe survives the
//! queue and is fully owned, ranked by roster priority plus its ownership
//! ratio (owned along the recipe chain over required count, ascending —
//! least satisfied first, ties in discovery order).  Filler candidates
//! follow: owned ids no roster combo needs, by descending owned count;
//! when fewer than two exist, base modifiers owned in quantity above three
//! take their place.

use vstd::prelude::*;
use crate::catalog::{has_id, lemma_index_of_upto_props, spec_index_of, Modifier, ModifierId, Modifiers};
use crate::construct::{key_index, spec_key_index};
use crate::permute::{spec_diff, spec_diff_upto};
use crate::seqs::{contains_id, sat_add, saturating_add, strictly_sorted};
use crate::settings::{
    combo_index, spec_combo_index, spec_components_of, spec_filler_ids, spec_roster_combo,
    spec_stash_count, owned_modifier_count, settings_wf, UserSettings,
};
use crate::value::{ids_resolve, mod_index, spec_mod};

verus! {

/// Cap on the number of ownership-chain expansion steps per roster combo.
/// A recipe graph that exceeds it yields no suggestion.
pub const CHAIN_FUEL: u64 = 1048576;

/// One candidate move: the modifier it produces (`None` for a filler) and
/// the id set it claims from the queue.
pub struct Candidate {
    pub produced: Option<ModifierId>,
    pub recipe: Vec<ModifierId>,
}

/// Candidates, at the spec level.
pub type SpecCand = (Option<ModifierId>, Seq<ModifierId>);

/// The vector holds exactly these candidates.
pub open spec fn cands_match(cands: Seq<Candidate>, spec: Seq<SpecCand>) -> bool {
    &&& cands.len() == spec.len()
    &&& forall|i: int|
        0 <= i < cands.len() ==> ((#[trigger] cands[i]).produced, cands[i].recipe@) == spec[i]
}

/// Every candidate claims a non-empty, strictly sorted id set that
/// resolves in the catalog.
pub open spec fn cands_wf(list: Seq<Modifier>, spec: Seq<SpecCand>) -> bool {
    forall|i: int|
        0 <= i < spec.len() ==> {
            &&& (#[trigger] spec[i]).1.len() > 0
            &&& strictly_sorted(spec[i].1)
            &&& forall|k: int| 0 <= k < spec[i].1.len() ==> has_id(list, #[trigger] spec[i].1[k])
        }
}

/// A catalog entry's own id always resolves.
pub proof fn lemma_own_id_resolves(list: Seq<Modifier>, i: int)
    requires
        0 <= i < list.len(),
    ensures
        has_id(list, list[i].id),
{
    lemma_index_of_upto_props(list, list[i].id, list.len() as int);
    if spec_index_of(list, list[i].id) is None {
        assert(false);
    }
}

// --- descending stable ordering by owned count ---------------------------

/// First position in `s[..n]` whose owned count is strictly below that of
/// `x`: the insertion point that keeps a descending order stable.
pub open spec fn spec_desc_pos_upto(
    s: Seq<ModifierId>,
    stash: Seq<(ModifierId, u64)>,
    x: ModifierId,
    n: int,
) -> Option<int>
    decreases n,
{
    if n <= 0 {
        None
    } else {
        match spec_desc_pos_upto(s, stash, x, n - 1) {
            Some(i) => Some(i),
            None => if spec_stash_count(stash, s[n - 1]) < spec_stash_count(stash, x) {
                Some(n - 1)
            } else {
                None
            },
        }
    }
}

/// Insert `x` into a list ordered by descending owned count, stably.
pub open spec fn spec_ins_desc(
    s: Seq<ModifierId>,
    stash: Seq<(ModifierId, u64)>,
    x: ModifierId,
) -> Seq<ModifierId> {
    match spec_desc_pos_upto(s, stash, x, s.len() as int) {
        None => s.push(x),
        Some(i) => s.insert(i, x),
    }
}

/// The ids sorted by descending owned count, stably.
pub open spec fn spec_sort_desc_upto(
    ids: Seq<ModifierId>,
    stash: Seq<(ModifierId, u64)>,
    n: int,
) -> Seq<ModifierId>
    decreases n,
{
    if n <= 0 {
        Seq::empty()
    } else {
        spec_ins_desc(spec_sort_desc_upto(ids, stash, n - 1), stash, ids[n - 1])
    }
}

/// The ids sorted by descending owned count, stably.
pub open spec fn spec_sort_desc(ids: Seq<ModifierId>, stash: Seq<(ModifierId, u64)>) -> Seq<
    ModifierId,
> {
    spec_sort_desc_upto(ids, stash, ids.len() as int)
}

/// Sorting keeps exactly the input's members.
pub proof fn lemma_ins_desc_members(s: Seq<ModifierId>, stash: Seq<(ModifierId, u64)>, x: ModifierId)
    ensures
        forall|y: ModifierId|
            spec_ins_desc(s, stash, x).contains(y) <==> (s.contains(y) || y == x),
{
    let r = spec_ins_desc(s, stash, x);
    match spec_desc_pos_upto(s, stash, x, s.len() as int) {
        None => {
            assert forall|y: ModifierId| r.contains(y) <==> (s.contains(y) || y == x) by {
                if s.contains(y) {
                    let j = choose|j: int| 0 <= j < s.len() && s[j] == y;
                    assert(r[j] == y);
                }
                if y == x {
                    assert(r[s.len() as int] == x);
                }
                if r.contains(y) {
                    let j = choose|j: int| 0 <= j < r.len() && r[j] == y;
                    if j < s.len() {
                        assert(s[j] == y);
                    }
                }
            }
        },
        Some(i) => {
            crate::candidates::lemma_desc_pos_bounds(s, stash, x, s.len() as int);
            assert forall|y: ModifierId| r.contains(y) <==> (s.contains(y) || y == x) by {
                if s.contains(y) {
                    let j = choose|j: int| 0 <= j < s.len() && s[j] == y;
                    if j < i {
                        assert(r[j] == y);
                    } else {
                        assert(r[j + 1] == y);
                    }
                }
                if y == x {
                    assert(r[i] == x);
                }
                if r.contains(y) {
                    let j = choose|j: int| 0 <= j < r.len() && r[j] == y;
                    if j < i {
                        assert(s[j] == y);
                    } else if j > i {
                        assert(s[j - 1] == y);
                    }
                }
            }
        },
    }
}

pub proof fn lemma_desc_pos_bounds(
    s: Seq<ModifierId>,
    stash: Seq<(ModifierId, u64)>,
    x: ModifierId,
    n: int,
)
    requires
        0 <= n <= s.len(),
    ensures
        match spec_desc_pos_upto(s, stash, x, n) {
            Some(i) => 0 <= i < n,
            None => true,
        },
    decreases n,
{
    if n > 0 {
        lemma_desc_pos_bounds(s, stash, x, n - 1);
    }
}

pub proof fn lemma_sort_desc_members(
    ids: Seq<ModifierId>,
    stash: Seq<(ModifierId, u64)>,
    n: int,
)
    requires
        0 <= n <= ids.len(),
    ensures
        forall|y: ModifierId|
            spec_sort_desc_upto(ids, stash, n).contains(y) <==> exists|j: int|
                0 <= j < n && #[trigger] ids[j] == y,
    decreases n,
{
    if n > 0 {
        lemma_sort_desc_members(ids, stash, n - 1);
        let prev = spec_sort_desc_upto(ids, stash, n - 1);
        let cur = spec_sort_desc_upto(ids, stash, n);
        lemma_ins_desc_members(prev, stash, ids[n - 1]);
        assert(cur == spec_ins_desc(prev, stash, ids[n - 1]));
        assert forall|y: ModifierId|
            cur.contains(y) <==> exists|j: int| 0 <= j < n && #[trigger] ids[j] == y by {
            assert(cur.contains(y) <==> (prev.contains(y) || y == ids[n - 1]));
            if cur.contains(y) {
                if prev.contains(y) {
                    let j = choose|j: int| 0 <= j < n - 1 && #[trigger] ids[j] == y;
                    assert(0 <= j < n && ids[j] == y);
                } else {
                    assert(ids[n - 1] == y);
                }
            }
            if exists|j: int| 0 <= j < n && #[trigger] ids[j] == y {
                let j = choose|j: int| 0 <= j < n && #[trigger] ids[j] == y;
                if j < n - 1 {
                    assert(prev.contains(y));
                }
            }
        }
    }
}

fn desc_pos(s: &Vec<ModifierId>, stash: &Vec<(ModifierId, u64)>, x: ModifierId) -> (r: Option<
    usize,
>)
    ensures
        match r {
            Some(i) => spec_desc_pos_upto(s@, stash@, x, s@.len() as int) == Some(i as int) && i
                < s@.len(),
            None => spec_desc_pos_upto(s@, stash@, x, s@.len() as int) is None,
        },
{
    let cx = owned_modifier_count(stash, x);
    let mut i: usize = 0;
    while i < s.len()
        invariant
            cx == spec_stash_count(stash@, x),
            0 <= i <= s@.len(),
            spec_desc_pos_upto(s@, stash@, x, i as int) is None,
        decreases s@.len() - i,
    {
        if owned_modifier_count(stash, s[i]) < cx {
            proof {
                lemma_desc_pos_extend(s@, stash@, x, i as int, s@.len() as int);
            }
            return Some(i);
        }
        i += 1;
    }
    None
}

proof fn lemma_desc_pos_extend(
    s: Seq<ModifierId>,
    stash: Seq<(ModifierId, u64)>,
    x: ModifierId,
    i: int,
    n: int,
)
    requires
        0 <= i < n <= s.len(),
        spec_desc_pos_upto(s, stash, x, i) is None,
        spec_stash_count(stash, s[i]) < spec_stash_count(stash, x),
    ensures
        spec_desc_pos_upto(s, stash, x, n) == Some(i),
    decreases n,
{
    if n - 1 > i {
        lemma_desc_pos_extend(s, stash, x, i, n - 1);
    }
}

/// Sort ids by descending owned count, stably.
pub fn sort_desc(ids: &Vec<ModifierId>, stash: &Vec<(ModifierId, u64)>) -> (r: Vec<ModifierId>)
    ensures
        r@ == spec_sort_desc(ids@, stash@),
{
    let mut r: Vec<ModifierId> = Vec::new();
    let mut i: usize = 0;
    while i < ids.len()
        invariant
            0 <= i <= ids@.len(),
            r@ == spec_sort_desc_upto(ids@, stash@, i as int),
        decreases ids@.len() - i,
    {
        let x = ids[i];
        match desc_pos(&r, stash, x) {
            Some(j) => {
                r.insert(j, x);
            },
            None => {
                r.push(x);
            },
        }
        i += 1;
    }
    r
}

// --- filler candidates ----------------------------------------------------

/// The owned ids among `sorted`, in order.
pub open spec fn spec_owned_filter_upto(
    sorted: Seq<ModifierId>,
    stash: Seq<(ModifierId, u64)>,
    n: int,
) -> Seq<ModifierId>
    decreases n,
{
    if n <= 0 {
        Seq::empty()
    } else {
        let prev = spec_owned_filter_upto(sorted, stash, n - 1);
        if spec_stash_count(stash, sorted[n - 1]) > 0 {
            prev.push(sorted[n - 1])
        } else {
            prev
        }
    }
}

/// Base modifiers owned in quantity above three, in catalog order.
pub open spec fn spec_fallback_upto(m: Modifiers, stash: Seq<(ModifierId, u64)>, n: int) -> Seq<
    ModifierId,
>
    decreases n,
{
    if n <= 0 {
        Seq::empty()
    } else {
        let prev = spec_fallback_upto(m, stash, n - 1);
        if m.by_id@[n - 1].recipe@.len() == 0 && spec_stash_count(stash, m.by_id@[n - 1].id) > 3 {
            prev.push(m.by_id@[n - 1].id)
        } else {
            prev
        }
    }
}

/// The filler ids the search may actually spend, most abundant first: the
/// owned fillers, or — when fewer than two exist — base modifiers owned
/// in quantity above three.
pub open spec fn spec_usable_fillers(
    m: Modifiers,
    s: UserSettings,
    stash: Seq<(ModifierId, u64)>,
) -> Seq<ModifierId> {
    let fillers = spec_filler_ids(m, s);
    let sorted = spec_sort_desc(fillers, stash);
    let usable = spec_owned_filter_upto(sorted, stash, sorted.len() as int);
    if usable.len() < 2 {
        spec_sort_desc(spec_fallback_upto(m, stash, m.by_id@.len() as int), stash)
    } else {
        usable
    }
}

// --- required counts and ownership chains --------------------------------

/// Set the count under `key` to `val`, or append the entry.
pub open spec fn spec_set_count(
    acc: Seq<(ModifierId, u64)>,
    key: ModifierId,
    val: u64,
) -> Seq<(ModifierId, u64)> {
    match spec_key_index(acc, key) {
        Some(i) => acc.update(i, (key, val)),
        None => acc.push((key, val)),
    }
}

/// Add `c` to the count under `key`, or append the entry.
pub open spec fn spec_bump_by(
    acc: Seq<(ModifierId, u64)>,
    key: ModifierId,
    c: u64,
) -> Seq<(ModifierId, u64)> {
    match spec_key_index(acc, key) {
        Some(i) => acc.update(i, (key, sat_add(acc[i].1, c))),
        None => acc.push((key, c)),
    }
}

/// Fold the first `t` entries of a component row into the counts.
pub open spec fn spec_add_row_upto(
    acc: Seq<(ModifierId, u64)>,
    row: Seq<(ModifierId, u64)>,
    t: int,
) -> Seq<(ModifierId, u64)>
    decreases t,
{
    if t <= 0 {
        acc
    } else {
        spec_bump_by(spec_add_row_upto(acc, row, t - 1), row[t - 1].0, row[t - 1].1)
    }
}

/// The ids a roster combo requires, with multiplicities: each member once
/// (reset, not summed, when a member repeats), plus its full component
/// bag.
pub open spec fn spec_required_upto(m: Modifiers, combo: Seq<ModifierId>, j: int) -> Seq<
    (ModifierId, u64),
>
    decreases j,
{
    if j <= 0 {
        Seq::empty()
    } else {
        let a = spec_set_count(spec_required_upto(m, combo, j - 1), combo[j - 1], 1);
        let row = spec_components_of(m, combo[j - 1]);
        spec_add_row_upto(a, row, row.len() as int)
    }
}

/// The first `t` ids of a recipe, each paired with the same chain count.
pub open spec fn spec_pairs_upto(recipe: Seq<ModifierId>, v: u64, t: int) -> Seq<(ModifierId, u64)>
    decreases t,
{
    if t <= 0 {
        Seq::empty()
    } else {
        spec_pairs_upto(recipe, v, t - 1).push((recipe[t - 1], v))
    }
}

/// The combo members, each paired with a zero chain count: the seed of
/// the ownership-chain walk.
pub open spec fn spec_seed_upto(combo: Seq<ModifierId>, t: int) -> Seq<(ModifierId, u64)>
    decreases t,
{
    if t <= 0 {
        Seq::empty()
    } else {
        spec_seed_upto(combo, t - 1).push((combo[t - 1], 0))
    }
}

/// One step per recursion of the ownership-chain walk: take the front of
/// the work queue, add the carried chain count to the id's entry (seeded
/// with its stash count), and enqueue the id's recipe members carrying
/// the updated count.  `None` when an id is unknown or the fuel runs out.
pub open spec fn spec_bfs(
    m: Modifiers,
    stash: Seq<(ModifierId, u64)>,
    q: Seq<(ModifierId, u64)>,
    owned: Seq<(ModifierId, u64)>,
    fuel: nat,
) -> Option<Seq<(ModifierId, u64)>>
    decreases fuel,
{
    if q.len() == 0 {
        Some(owned)
    } else if fuel == 0 {
        None
    } else {
        let id = q[0].0;
        let pc = q[0].1;
        if !has_id(m.by_id@, id) {
            None
        } else {
            let base = match spec_key_index(owned, id) {
                Some(i) => owned[i].1,
                None => spec_stash_count(stash, id),
            };
            let nv = sat_add(base, pc);
            let owned2 = spec_set_count(owned, id, nv);
            let rec = spec_mod(m.by_id@, id).recipe@;
            spec_bfs(
                m,
                stash,
                q.drop_first() + spec_pairs_upto(rec, nv, rec.len() as int),
                owned2,
                (fuel - 1) as nat,
            )
        }
    }
}

/// Owned-along-chain counts for a roster combo.
pub open spec fn spec_owned_map(
    m: Modifiers,
    stash: Seq<(ModifierId, u64)>,
    combo: Seq<ModifierId>,
) -> Option<Seq<(ModifierId, u64)>> {
    spec_bfs(m, stash, spec_seed_upto(combo, combo.len() as int), Seq::empty(), CHAIN_FUEL as nat)
}

/// Walk the ownership chains of a roster combo.  Mirrors `spec_bfs`.
fn owned_chain(
    m: &Modifiers,
    stash: &Vec<(ModifierId, u64)>,
    combo: &Vec<ModifierId>,
) -> (r: Option<Vec<(ModifierId, u64)>>)
    ensures
        match r {
            Some(v) => spec_owned_map(*m, stash@, combo@) == Some(v@),
            None => spec_owned_map(*m, stash@, combo@) is None,
        },
{
    let mut q: Vec<(ModifierId, u64)> = Vec::new();
    let mut t: usize = 0;
    while t < combo.len()
        invariant
            0 <= t <= combo@.len(),
            q@ == spec_seed_upto(combo@, t as int),
        decreases combo@.len() - t,
    {
        q.push((combo[t], 0));
        t += 1;
    }
    let mut owned: Vec<(ModifierId, u64)> = Vec::new();
    let mut fuel: u64 = CHAIN_FUEL;
    proof {
        assert(owned@ =~= Seq::<(ModifierId, u64)>::empty());
    }
    loop
        invariant
            spec_bfs(*m, stash@, q@, owned@, fuel as nat) == spec_owned_map(*m, stash@, combo@),
        ensures
            q@.len() == 0,
            spec_owned_map(*m, stash@, combo@) == Some(owned@),
        decreases fuel,
    {
        if q.len() == 0 {
            break ;
        }
        if fuel == 0 {
            return None;
        }
        let ghost q_old = q@;
        let (id, pc) = q.remove(0);
        proof {
            assert(q@ =~= q_old.drop_first());
        }
        let mi = match m.index_of(id) {
            None => {
                return None;
            },
            Some(mi) => mi,
        };
        let base = match key_index(&owned, id) {
            Some(i) => owned[i].1,
            None => owned_modifier_count(stash, id),
        };
        let nv = saturating_add(base, pc);
        match key_index(&owned, id) {
            Some(i) => {
                owned.set(i, (id, nv));
            },
            None => {
                owned.push((id, nv));
            },
        }
        let ghost q_mid = q@;
        let rec_len = m.by_id[mi].recipe.len();
        let mut t: usize = 0;
        while t < rec_len
            invariant
                mi < m.by_id@.len(),
                rec_len == m.by_id@[mi as int].recipe@.len(),
                0 <= t <= rec_len,
                q@ == q_mid + spec_pairs_upto(m.by_id@[mi as int].recipe@, nv, t as int),
            decreases rec_len - t,
        {
            q.push((m.by_id[mi].recipe[t], nv));
            t += 1;
        }
        proof {
            assert(m.by_id@[mi as int] == spec_mod(m.by_id@, id));
        }
        fuel = fuel - 1;
    }
    Some(owned)
}

// --- candidate entries and their priorities ------------------------------

/// Chain count recorded for this id, or zero.
pub open spec fn spec_owned_of(owned: Seq<(ModifierId, u64)>, id: ModifierId) -> u64 {
    match spec_key_index(owned, id) {
        Some(i) => owned[i].1,
        None => 0,
    }
}

/// Whether a required id becomes a candidate: it is known, its recipe is
/// non-empty, and the recipe members not already queued are a non-empty,
/// fully owned set.
pub open spec fn spec_entry_keep(
    m: Modifiers,
    queue: Seq<ModifierId>,
    stash: Seq<(ModifierId, u64)>,
    id: ModifierId,
) -> bool {
    &&& has_id(m.by_id@, id)
    &&& {
        let rec = spec_mod(m.by_id@, id).recipe@;
        let rem = spec_diff(rec, queue);
        rec.len() > 0 && rem.len() > 0 && forall|t: int|
            0 <= t < rem.len() ==> spec_stash_count(stash, #[trigger] rem[t]) > 0
    }
}

/// The candidate entries of one roster combo: `(id, whole, num, den)`
/// where the priority is `whole + num / den`.
pub open spec fn spec_entries_upto(
    m: Modifiers,
    queue: Seq<ModifierId>,
    stash: Seq<(ModifierId, u64)>,
    req: Seq<(ModifierId, u64)>,
    owned: Seq<(ModifierId, u64)>,
    whole: u64,
    t: int,
) -> Seq<(ModifierId, u64, u64, u64)>
    decreases t,
{
    if t <= 0 {
        Seq::empty()
    } else {
        let prev = spec_entries_upto(m, queue, stash, req, owned, whole, t - 1);
        let id = req[t - 1].0;
        if spec_entry_keep(m, queue, stash, id) {
            prev.push((id, whole, spec_owned_of(owned, id), req[t - 1].1))
        } else {
            prev
        }
    }
}

/// The raw candidate entries of the first `r` roster combos, or `None`
/// when an ownership-chain walk exceeded its fuel.
pub open spec fn spec_raw_upto(
    m: Modifiers,
    s: UserSettings,
    stash: Seq<(ModifierId, u64)>,
    queue: Seq<ModifierId>,
    r: int,
) -> Option<Seq<(ModifierId, u64, u64, u64)>>
    decreases r,
{
    if r <= 0 {
        Some(Seq::empty())
    } else {
        match spec_raw_upto(m, s, stash, queue, r - 1) {
            None => None,
            Some(p) => {
                let combo = spec_roster_combo(s, r - 1);
                let req = spec_required_upto(m, combo, combo.len() as int);
                match spec_owned_map(m, stash, combo) {
                    None => None,
                    Some(owned) => Some(
                        p + spec_entries_upto(m, queue, stash, req, owned, r as u64, req.len() as int),
                    ),
                }
            },
        }
    }
}

/// Cross product used to compare two priorities `w + n / d` exactly,
/// capped at `u128::MAX`.
pub open spec fn spec_cross(w: u64, n: u64, d: u64, e: u64) -> u128 {
    if (w * d + n) * e > u128::MAX {
        u128::MAX
    } else {
        ((w * d + n) * e) as u128
    }
}

/// `a`'s priority is strictly above `b`'s.
pub open spec fn spec_prio_gt(a: (ModifierId, u64, u64, u64), b: (ModifierId, u64, u64, u64)) -> bool {
    spec_cross(a.1, a.2, a.3, b.3) > spec_cross(b.1, b.2, b.3, a.3)
}

fn cross(w: u64, n: u64, d: u64, e: u64) -> (r: u128)
    ensures
        r == spec_cross(w, n, d, e),
{
    proof {
        assert((w as int) * (d as int) <= (u64::MAX as int) * (u64::MAX as int))
            by (nonlinear_arith)
            requires
                w <= u64::MAX,
                d <= u64::MAX,
        {
        }
    }
    let a: u128 = (w as u128) * (d as u128) + (n as u128);
    let e128: u128 = e as u128;
    if e128 == 0 {
        return 0;
    }
    if a > u128::MAX / e128 {
        proof {
            assert((a as int) * (e128 as int) > u128::MAX) by (nonlinear_arith)
                requires
                    e128 > 0,
                    a > u128::MAX / e128,
                    u128::MAX / e128 == u128::MAX as int / e128 as int,
            {
            }
        }
        u128::MAX
    } else {
        proof {
            assert((a as int) * (e128 as int) <= u128::MAX) by (nonlinear_arith)
                requires
                    e128 > 0,
                    a <= u128::MAX / e128,
                    u128::MAX / e128 == u128::MAX as int / e128 as int,
            {
            }
        }
        a * e128
    }
}

fn prio_gt(a: &(ModifierId, u64, u64, u64), b: &(ModifierId, u64, u64, u64)) -> (r: bool)
    ensures
        r == spec_prio_gt(*a, *b),
{
    let (_, w1, n1, d1) = *a;
    let (_, w2, n2, d2) = *b;
    cross(w1, n1, d1, d2) > cross(w2, n2, d2, d1)
}

/// First position whose priority is strictly above that of `x`: the
/// insertion point of a stable ascending sort.
pub open spec fn spec_prio_pos_upto(
    s: Seq<(ModifierId, u64, u64, u64)>,
    x: (ModifierId, u64, u64, u64),
    n: int,
) -> Option<int>
    decreases n,
{
    if n <= 0 {
        None
    } else {
        match spec_prio_pos_upto(s, x, n - 1) {
            Some(i) => Some(i),
            None => if spec_prio_gt(s[n - 1], x) {
                Some(n - 1)
            } else {
                None
            },
        }
    }
}

/// Insert an entry into an ascending priority order, stably.
pub open spec fn spec_ins_prio(
    s: Seq<(ModifierId, u64, u64, u64)>,
    x: (ModifierId, u64, u64, u64),
) -> Seq<(ModifierId, u64, u64, u64)> {
    match spec_prio_pos_upto(s, x, s.len() as int) {
        None => s.push(x),
        Some(i) => s.insert(i, x),
    }
}

/// The entries sorted by ascending priority, stably.
pub open spec fn spec_sort_prio_upto(s: Seq<(ModifierId, u64, u64, u64)>, n: int) -> Seq<
    (ModifierId, u64, u64, u64),
>
    decreases n,
{
    if n <= 0 {
        Seq::empty()
    } else {
        spec_ins_prio(spec_sort_prio_upto(s, n - 1), s[n - 1])
    }
}

/// The entries sorted by ascending priority, stably.
pub open spec fn spec_sort_prio(s: Seq<(ModifierId, u64, u64, u64)>) -> Seq<
    (ModifierId, u64, u64, u64),
> {
    spec_sort_prio_upto(s, s.len() as int)
}

pub proof fn lemma_prio_pos_bounds(
    s: Seq<(ModifierId, u64, u64, u64)>,
    x: (ModifierId, u64, u64, u64),
    n: int,
)
    requires
        0 <= n <= s.len(),
    ensures
        match spec_prio_pos_upto(s, x, n) {
            Some(i) => 0 <= i < n,
            None => true,
        },
    decreases n,
{
    if n > 0 {
        lemma_prio_pos_bounds(s, x, n - 1);
    }
}

/// Sorting keeps exactly the input's members.
pub proof fn lemma_ins_prio_members(
    s: Seq<(ModifierId, u64, u64, u64)>,
    x: (ModifierId, u64, u64, u64),
)
    ensures
        forall|y: (ModifierId, u64, u64, u64)|
            spec_ins_prio(s, x).contains(y) <==> (s.contains(y) || y == x),
{
    let r = spec_ins_prio(s, x);
    match spec_prio_pos_upto(s, x, s.len() as int) {
        None => {
            assert forall|y: (ModifierId, u64, u64, u64)|
                r.contains(y) <==> (s.contains(y) || y == x) by {
                if s.contains(y) {
                    let j = choose|j: int| 0 <= j < s.len() && s[j] == y;
                    assert(r[j] == y);
                }
                if y == x {
                    assert(r[s.len() as int] == x);
                }
                if r.contains(y) {
                    let j = choose|j: int| 0 <= j < r.len() && r[j] == y;
                    if j < s.len() {
                        assert(s[j] == y);
                    }
                }
            }
        },
        Some(i) => {
            lemma_prio_pos_bounds(s, x, s.len() as int);
            assert forall|y: (ModifierId, u64, u64, u64)|
                r.contains(y) <==> (s.contains(y) || y == x) by {
                if s.contains(y) {
                    let j = choose|j: int| 0 <= j < s.len() && s[j] == y;
                    if j < i {
                        assert(r[j] == y);
                    } else {
                        assert(r[j + 1] == y);
                    }
                }
                if y == x {
                    assert(r[i] == x);
                }
                if r.contains(y) {
                    let j = choose|j: int| 0 <= j < r.len() && r[j] == y;
                    if j < i {
                        assert(s[j] == y);
                    } else if j > i {
                        assert(s[j - 1] == y);
                    }
                }
            }
        },
    }
}

pub proof fn lemma_sort_prio_members(s: Seq<(ModifierId, u64, u64, u64)>, n: int)
    requires
        0 <= n <= s.len(),
    ensures
        forall|y: (ModifierId, u64, u64, u64)|
            spec_sort_prio_upto(s, n).contains(y) <==> exists|j: int|
                0 <= j < n && #[trigger] s[j] == y,
    decreases n,
{
    if n > 0 {
        lemma_sort_prio_members(s, n - 1);
        let prev = spec_sort_prio_upto(s, n - 1);
        let cur = spec_sort_prio_upto(s, n);
        lemma_ins_prio_members(prev, s[n - 1]);
        assert(cur == spec_ins_prio(prev, s[n - 1]));
        assert forall|y: (ModifierId, u64, u64, u64)|
            cur.contains(y) <==> exists|j: int| 0 <= j < n && #[trigger] s[j] == y by {
            assert(cur.contains(y) <==> (prev.contains(y) || y == s[n - 1]));
            if cur.contains(y) {
                if prev.contains(y) {
                    let j = choose|j: int| 0 <= j < n - 1 && #[trigger] s[j] == y;
                    assert(0 <= j < n && s[j] == y);
                } else {
                    assert(s[n - 1] == y);
                }
            }
            if exists|j: int| 0 <= j < n && #[trigger] s[j] == y {
                let j = choose|j: int| 0 <= j < n && #[trigger] s[j] == y;
                if j < n - 1 {
                    assert(prev.contains(y));
                }
            }
        }
    }
}

/// Sort raw candidate entries by ascending priority, stably.
fn sort_prio(s: &Vec<(ModifierId, u64, u64, u64)>) -> (r: Vec<(ModifierId, u64, u64, u64)>)
    ensures
        r@ == spec_sort_prio(s@),
{
    let mut r: Vec<(ModifierId, u64, u64, u64)> = Vec::new();
    let mut i: usize = 0;
    while i < s.len()
        invariant
            0 <= i <= s@.len(),
            r@ == spec_sort_prio_upto(s@, i as int),
        decreases s@.len() - i,
    {
        let x = s[i];
        let pos = prio_pos(&r, &x);
        match pos {
            Some(j) => {
                r.insert(j, x);
            },
            None => {
                r.push(x);
            },
        }
        i += 1;
    }
    r
}

fn prio_pos(
    r: &Vec<(ModifierId, u64, u64, u64)>,
    x: &(ModifierId, u64, u64, u64),
) -> (pos: Option<usize>)
    ensures
        match pos {
            Some(j) => spec_prio_pos_upto(r@, *x, r@.len() as int) == Some(j as int) && j
                < r@.len(),
            None => spec_prio_pos_upto(r@, *x, r@.len() as int) is None,
        },
{
    let mut j: usize = 0;
    while j < r.len()
        invariant
            0 <= j <= r@.len(),
            spec_prio_pos_upto(r@, *x, j as int) is None,
        decreases r@.len() - j,
    {
        if prio_gt(&r[j], x) {
            proof {
                lemma_prio_pos_extend(r@, *x, j as int, r@.len() as int);
            }
            return Some(j);
        }
        j += 1;
    }
    None
}

// --- the assembled candidate list ----------------------------------------

/// Roster candidates in priority order: each sorted entry mapped to its
/// produced id and recipe, consecutive repeats collapsed.
pub open spec fn spec_roster_cands_upto(
    list: Seq<Modifier>,
    sorted: Seq<(ModifierId, u64, u64, u64)>,
    n: int,
) -> Seq<SpecCand>
    decreases n,
{
    if n <= 0 {
        Seq::empty()
    } else {
        let prev = spec_roster_cands_upto(list, sorted, n - 1);
        let id = sorted[n - 1].0;
        let pair = (Some(id), spec_mod(list, id).recipe@);
        if prev.len() > 0 && prev.last() == pair {
            prev
        } else {
            prev.push(pair)
        }
    }
}

/// Filler candidates: each id claims only itself and produces nothing.
pub open spec fn spec_filler_cands_upto(ids: Seq<ModifierId>, n: int) -> Seq<SpecCand>
    decreases n,
{
    if n <= 0 {
        Seq::empty()
    } else {
        spec_filler_cands_upto(ids, n - 1).push((None, seq![ids[n - 1]]))
    }
}

/// The whole candidate list: roster candidates in priority order, then
/// the usable fillers.  `None` when an ownership-chain walk exceeded its
/// fuel.
pub open spec fn spec_build_cands(
    m: Modifiers,
    s: UserSettings,
    stash: Seq<(ModifierId, u64)>,
    queue: Seq<ModifierId>,
) -> Option<Seq<SpecCand>> {
    match spec_raw_upto(m, s, stash, queue, s.combo_roster@.len() as int) {
        None => None,
        Some(raw) => {
            let sorted = spec_sort_prio(raw);
            let rc = spec_roster_cands_upto(m.by_id@, sorted, sorted.len() as int);
            let uf = spec_usable_fillers(m, s, stash);
            Some(rc + spec_filler_cands_upto(uf, uf.len() as int))
        },
    }
}

/// Entries of the raw candidate list satisfy the keep predicate.
proof fn lemma_entries_keep(
    m: Modifiers,
    queue: Seq<ModifierId>,
    stash: Seq<(ModifierId, u64)>,
    req: Seq<(ModifierId, u64)>,
    owned: Seq<(ModifierId, u64)>,
    whole: u64,
    t: int,
)
    requires
        0 <= t <= req.len(),
    ensures
        forall|k: int|
            0 <= k < spec_entries_upto(m, queue, stash, req, owned, whole, t).len()
                ==> spec_entry_keep(
                m,
                queue,
                stash,
                (#[trigger] spec_entries_upto(m, queue, stash, req, owned, whole, t)[k]).0,
            ),
    decreases t,
{
    if t > 0 {
        lemma_entries_keep(m, queue, stash, req, owned, whole, t - 1);
        let prev = spec_entries_upto(m, queue, stash, req, owned, whole, t - 1);
        let cur = spec_entries_upto(m, queue, stash, req, owned, whole, t);
        assert forall|k: int| 0 <= k < cur.len() implies spec_entry_keep(m, queue, stash, cur[k].0)
        by {
            if k < prev.len() {
                assert(cur[k] == prev[k]);
            }
        }
    }
}

proof fn lemma_raw_entries_keep(
    m: Modifiers,
    s: UserSettings,
    stash: Seq<(ModifierId, u64)>,
    queue: Seq<ModifierId>,
    r: int,
)
    requires
        0 <= r,
        spec_raw_upto(m, s, stash, queue, r) is Some,
    ensures
        forall|k: int|
            0 <= k < spec_raw_upto(m, s, stash, queue, r).unwrap().len() ==> spec_entry_keep(
                m,
                queue,
                stash,
                (#[trigger] spec_raw_upto(m, s, stash, queue, r).unwrap()[k]).0,
            ),
    decreases r,
{
    if r > 0 {
        lemma_raw_entries_keep(m, s, stash, queue, r - 1);
        let prev = spec_raw_upto(m, s, stash, queue, r - 1).unwrap();
        let cur = spec_raw_upto(m, s, stash, queue, r).unwrap();
        let combo = spec_roster_combo(s, r - 1);
        let req = spec_required_upto(m, combo, combo.len() as int);
        let owned = spec_owned_map(m, stash, combo).unwrap();
        let ents = spec_entries_upto(m, queue, stash, req, owned, r as u64, req.len() as int);
        lemma_entries_keep(m, queue, stash, req, owned, r as u64, req.len() as int);
        assert(cur == prev + ents);
        assert forall|k: int| 0 <= k < cur.len() implies spec_entry_keep(m, queue, stash, cur[k].0)
        by {
            if k < prev.len() {
                assert(cur[k] == prev[k]);
            } else {
                assert(cur[k] == ents[k - prev.len()]);
            }
        }
    }
}

/// The roster candidates are well-formed.
proof fn lemma_roster_cands_wf(
    m: Modifiers,
    sorted: Seq<(ModifierId, u64, u64, u64)>,
    queue: Seq<ModifierId>,
    stash: Seq<(ModifierId, u64)>,
    n: int,
)
    requires
        m.wf(),
        0 <= n <= sorted.len(),
        forall|k: int|
            0 <= k < sorted.len() ==> spec_entry_keep(m, queue, stash, (#[trigger] sorted[k]).0),
    ensures
        cands_wf(m.by_id@, spec_roster_cands_upto(m.by_id@, sorted, n)),
    decreases n,
{
    if n > 0 {
        lemma_roster_cands_wf(m, sorted, queue, stash, n - 1);
        let prev = spec_roster_cands_upto(m.by_id@, sorted, n - 1);
        let cur = spec_roster_cands_upto(m.by_id@, sorted, n);
        let id = sorted[n - 1].0;
        let pair = (Some(id), spec_mod(m.by_id@, id).recipe@);
        if prev.len() > 0 && prev.last() == pair {
        } else {
            assert(spec_entry_keep(m, queue, stash, id));
            lemma_index_of_upto_props(m.by_id@, id, m.by_id@.len() as int);
            let idx = spec_index_of(m.by_id@, id).unwrap();
            assert(crate::catalog::modifier_wf(m.by_id@[idx]));
            assert forall|i: int| 0 <= i < cur.len() implies {
                &&& (#[trigger] cur[i]).1.len() > 0
                &&& strictly_sorted(cur[i].1)
                &&& forall|k: int| 0 <= k < cur[i].1.len() ==> has_id(m.by_id@, #[trigger] cur[i].1[k])
            } by {
                if i < prev.len() {
                    assert(cur[i] == prev[i]);
                } else {
                    assert(cur[i] == pair);
                }
            }
        }
    }
}

/// Fillers resolve in the catalog.
proof fn lemma_filler_ids_resolve(m: Modifiers, s: UserSettings, n: int)
    requires
        0 <= n <= m.by_id@.len(),
    ensures
        forall|k: int|
            0 <= k < crate::settings::spec_filler_ids_upto(m, s, n).len() ==> has_id(
                m.by_id@,
                #[trigger] crate::settings::spec_filler_ids_upto(m, s, n)[k],
            ),
    decreases n,
{
    if n > 0 {
        lemma_filler_ids_resolve(m, s, n - 1);
        let prev = crate::settings::spec_filler_ids_upto(m, s, n - 1);
        let cur = crate::settings::spec_filler_ids_upto(m, s, n);
        lemma_own_id_resolves(m.by_id@, n - 1);
        assert forall|k: int| 0 <= k < cur.len() implies has_id(m.by_id@, cur[k]) by {
            if k < prev.len() {
                assert(cur[k] == prev[k]);
            }
        }
    }
}

/// Fallback base modifiers resolve in the catalog.
proof fn lemma_fallback_resolve(m: Modifiers, stash: Seq<(ModifierId, u64)>, n: int)
    requires
        0 <= n <= m.by_id@.len(),
    ensures
        forall|k: int|
            0 <= k < spec_fallback_upto(m, stash, n).len() ==> has_id(
                m.by_id@,
                #[trigger] spec_fallback_upto(m, stash, n)[k],
            ),
    decreases n,
{
    if n > 0 {
        lemma_fallback_resolve(m, stash, n - 1);
        let prev = spec_fallback_upto(m, stash, n - 1);
        let cur = spec_fallback_upto(m, stash, n);
        lemma_own_id_resolves(m.by_id@, n - 1);
        assert forall|k: int| 0 <= k < cur.len() implies has_id(m.by_id@, cur[k]) by {
            if k < prev.len() {
                assert(cur[k] == prev[k]);
            }
        }
    }
}

/// Members of the owned filter come from the sorted list.
proof fn lemma_owned_filter_members(
    sorted: Seq<ModifierId>,
    stash: Seq<(ModifierId, u64)>,
    n: int,
)
    requires
        0 <= n <= sorted.len(),
    ensures
        forall|k: int|
            0 <= k < spec_owned_filter_upto(sorted, stash, n).len() ==> sorted.contains(
                #[trigger] spec_owned_filter_upto(sorted, stash, n)[k],
            ),
    decreases n,
{
    if n > 0 {
        lemma_owned_filter_members(sorted, stash, n - 1);
        let prev = spec_owned_filter_upto(sorted, stash, n - 1);
        let cur = spec_owned_filter_upto(sorted, stash, n);
        assert(sorted.contains(sorted[n - 1]));
        assert forall|k: int| 0 <= k < cur.len() implies sorted.contains(cur[k]) by {
            if k < prev.len() {
                assert(cur[k] == prev[k]);
            }
        }
    }
}

/// Every usable filler resolves in the catalog.
pub proof fn lemma_usable_fillers_resolve(
    m: Modifiers,
    s: UserSettings,
    stash: Seq<(ModifierId, u64)>,
)
    ensures
        forall|k: int|
            0 <= k < spec_usable_fillers(m, s, stash).len() ==> has_id(
                m.by_id@,
                #[trigger] spec_usable_fillers(m, s, stash)[k],
            ),
{
    let fillers = spec_filler_ids(m, s);
    let sorted = spec_sort_desc(fillers, stash);
    let usable = spec_owned_filter_upto(sorted, stash, sorted.len() as int);
    lemma_filler_ids_resolve(m, s, m.by_id@.len() as int);
    lemma_sort_desc_members(fillers, stash, fillers.len() as int);
    lemma_owned_filter_members(sorted, stash, sorted.len() as int);
    let fb = spec_fallback_upto(m, stash, m.by_id@.len() as int);
    lemma_fallback_resolve(m, stash, m.by_id@.len() as int);
    lemma_sort_desc_members(fb, stash, fb.len() as int);
    assert forall|k: int|
        0 <= k < spec_usable_fillers(m, s, stash).len() implies has_id(
        m.by_id@,
        #[trigger] spec_usable_fillers(m, s, stash)[k],
    ) by {
        let y = spec_usable_fillers(m, s, stash)[k];
        if usable.len() < 2 {
            let sfb = spec_sort_desc(fb, stash);
            assert(sfb.contains(y));
            let j = choose|j: int| 0 <= j < fb.len() && #[trigger] fb[j] == y;
            assert(has_id(m.by_id@, fb[j]));
        } else {
            assert(usable.contains(y));
            assert(sorted.contains(y));
            let j = choose|j: int| 0 <= j < fillers.len() && #[trigger] fillers[j] == y;
            assert(has_id(m.by_id@, fillers[j]));
        }
    }
}

/// The filler candidates are well-formed.
proof fn lemma_filler_cands_wf(list: Seq<Modifier>, ids: Seq<ModifierId>, n: int)
    requires
        0 <= n <= ids.len(),
        forall|k: int| 0 <= k < ids.len() ==> has_id(list, #[trigger] ids[k]),
    ensures
        cands_wf(list, spec_filler_cands_upto(ids, n)),
    decreases n,
{
    if n > 0 {
        lemma_filler_cands_wf(list, ids, n - 1);
        let prev = spec_filler_cands_upto(ids, n - 1);
        let cur = spec_filler_cands_upto(ids, n);
        assert forall|i: int| 0 <= i < cur.len() implies {
            &&& (#[trigger] cur[i]).1.len() > 0
            &&& strictly_sorted(cur[i].1)
            &&& forall|k: int| 0 <= k < cur[i].1.len() ==> has_id(list, #[trigger] cur[i].1[k])
        } by {
            if i < prev.len() {
                assert(cur[i] == prev[i]);
            } else {
                assert(cur[i] == (None::<ModifierId>, seq![ids[n - 1]]));
                assert(cur[i].1 =~= seq![ids[n - 1]]);
                assert(cur[i].1[0] == ids[n - 1]);
            }
        }
    }
}

/// The whole candidate list is well-formed when it exists.
pub proof fn lemma_build_cands_wf(
    m: Modifiers,
    s: UserSettings,
    stash: Seq<(ModifierId, u64)>,
    queue: Seq<ModifierId>,
)
    requires
        m.wf(),
        spec_build_cands(m, s, stash, queue) is Some,
    ensures
        cands_wf(m.by_id@, spec_build_cands(m, s, stash, queue).unwrap()),
{
    let raw = spec_raw_upto(m, s, stash, queue, s.combo_roster@.len() as int).unwrap();
    let sorted = spec_sort_prio(raw);
    lemma_raw_entries_keep(m, s, stash, queue, s.combo_roster@.len() as int);
    lemma_sort_prio_members(raw, raw.len() as int);
    assert forall|k: int|
        0 <= k < sorted.len() implies spec_entry_keep(m, queue, stash, (#[trigger] sorted[k]).0)
    by {
        assert(sorted.contains(sorted[k]));
        let j = choose|j: int| 0 <= j < raw.len() && #[trigger] raw[j] == sorted[k];
        assert(spec_entry_keep(m, queue, stash, raw[j].0));
    }
    let rc = spec_roster_cands_upto(m.by_id@, sorted, sorted.len() as int);
    lemma_roster_cands_wf(m, sorted, queue, stash, sorted.len() as int);
    let uf = spec_usable_fillers(m, s, stash);
    lemma_usable_fillers_resolve(m, s, stash);
    let fc = spec_filler_cands_upto(uf, uf.len() as int);
    lemma_filler_cands_wf(m.by_id@, uf, uf.len() as int);
    let whole = spec_build_cands(m, s, stash, queue).unwrap();
    assert(whole == rc + fc);
    assert forall|i: int| 0 <= i < whole.len() implies {
        &&& (#[trigger] whole[i]).1.len() > 0
        &&& strictly_sorted(whole[i].1)
        &&& forall|k: int| 0 <= k < whole[i].1.len() ==> has_id(m.by_id@, #[trigger] whole[i].1[k])
    } by {
        if i < rc.len() {
            assert(whole[i] == rc[i]);
        } else {
            assert(whole[i] == fc[i - rc.len()]);
        }
    }
}

/// Build the whole candidate list, or `None` when an ownership-chain walk
/// exceeded its fuel.
pub fn build_candidates(
    m: &Modifiers,
    s: &UserSettings,
    stash: &Vec<(ModifierId, u64)>,
    queue: &Vec<ModifierId>,
    fillers: &Vec<ModifierId>,
) -> (r: Option<Vec<Candidate>>)
    requires
        m.wf(),
        settings_wf(m.by_id@, *s),
        fillers@ == spec_filler_ids(*m, *s),
    ensures
        match r {
            Some(v) => {
                &&& spec_build_cands(*m, *s, stash@, queue@) is Some
                &&& cands_match(v@, spec_build_cands(*m, *s, stash@, queue@).unwrap())
            },
            None => spec_build_cands(*m, *s, stash@, queue@) is None,
        },
{
    // usable fillers
    let sorted_f = sort_desc(fillers, stash);
    let mut usable: Vec<ModifierId> = Vec::new();
    let mut i: usize = 0;
    while i < sorted_f.len()
        invariant
            0 <= i <= sorted_f@.len(),
            usable@ == spec_owned_filter_upto(sorted_f@, stash@, i as int),
        decreases sorted_f@.len() - i,
    {
        if crate::settings::owns_modifier(stash, sorted_f[i]) {
            usable.push(sorted_f[i]);
        }
        i += 1;
    }
    let filler_list: Vec<ModifierId>;
    if usable.len() < 2 {
        let mut fb: Vec<ModifierId> = Vec::new();
        let mut i: usize = 0;
        while i < m.by_id.len()
            invariant
                0 <= i <= m.by_id@.len(),
                fb@ == spec_fallback_upto(*m, stash@, i as int),
            decreases m.by_id@.len() - i,
        {
            if m.by_id[i].recipe.len() == 0 && owned_modifier_count(stash, m.by_id[i].id) > 3 {
                fb.push(m.by_id[i].id);
            }
            i += 1;
        }
        filler_list = sort_desc(&fb, stash);
    } else {
        filler_list = usable;
    }
    proof {
        assert(filler_list@ == spec_usable_fillers(*m, *s, stash@));
    }
    // raw candidate entries, roster combo by roster combo
    let mut raw: Vec<(ModifierId, u64, u64, u64)> = Vec::new();
    let mut ri: usize = 0;
    while ri < s.combo_roster.len()
        invariant
            m.wf(),
            settings_wf(m.by_id@, *s),
            0 <= ri <= s.combo_roster@.len(),
            Some(raw@) == spec_raw_upto(*m, *s, stash@, queue@, ri as int),
        decreases s.combo_roster@.len() - ri,
    {
        let ci = match combo_index(&s.combo_catalog, s.combo_roster[ri]) {
            Some(ci) => ci,
            None => {
                proof {
                    assert(false);
                }
                0
            },
        };
        let ghost combo_gh = spec_roster_combo(*s, ri as int);
        proof {
            assert(s.combo_catalog@[ci as int].combo@ == combo_gh);
            assert(crate::settings::combo_ok(m.by_id@, combo_gh));
        }
        // required counts of this combo
        let combo_len = s.combo_catalog[ci].combo.len();
        let mut req: Vec<(ModifierId, u64)> = Vec::new();
        let mut j: usize = 0;
        proof {
            assert(req@ =~= spec_required_upto(*m, combo_gh, 0));
        }
        while j < combo_len
            invariant
                m.wf(),
                ci < s.combo_catalog@.len(),
                s.combo_catalog@[ci as int].combo@ == combo_gh,
                crate::settings::combo_ok(m.by_id@, combo_gh),
                combo_len == combo_gh.len(),
                0 <= j <= combo_len,
                req@ == spec_required_upto(*m, combo_gh, j as int),
            decreases combo_len - j,
        {
            let member = s.combo_catalog[ci].combo[j];
            match key_index(&req, member) {
                Some(ki) => {
                    req.set(ki, (member, 1));
                },
                None => {
                    req.push((member, 1));
                },
            }
            let ghost a1 = req@;
            proof {
                assert(a1 == spec_set_count(spec_required_upto(*m, combo_gh, j as int), member, 1));
            }
            let mi = match m.index_of(member) {
                Some(mi) => mi,
                None => {
                    proof {
                        assert(false);
                    }
                    0
                },
            };
            let ghost row = spec_components_of(*m, member);
            proof {
                assert(m.components@[mi as int]@ == row);
            }
            let row_len = m.components[mi].len();
            let mut t: usize = 0;
            while t < row_len
                invariant
                    mi < m.components@.len(),
                    m.components@[mi as int]@ == row,
                    row_len == row.len(),
                    0 <= t <= row_len,
                    req@ == spec_add_row_upto(a1, row, t as int),
                decreases row_len - t,
            {
                let (k, cc) = m.components[mi][t];
                match key_index(&req, k) {
                    Some(ki) => {
                        let c = req[ki].1;
                        req.set(ki, (k, saturating_add(c, cc)));
                    },
                    None => {
                        req.push((k, cc));
                    },
                }
                t += 1;
            }
            proof {
                assert(req@ == spec_required_upto(*m, combo_gh, j + 1));
            }
            j += 1;
        }
        // owned-along-chain counts
        let owned = match owned_chain(m, stash, &s.combo_catalog[ci].combo) {
            None => {
                proof {
                    assert(spec_raw_upto(*m, *s, stash@, queue@, s.combo_roster@.len() as int)
                        is None) by {
                        lemma_raw_none_propagates(
                            *m,
                            *s,
                            stash@,
                            queue@,
                            ri + 1,
                            s.combo_roster@.len() as int,
                        );
                    }
                }
                return None;
            },
            Some(o) => o,
        };
        // candidate entries of this combo
        let whole: u64 = (ri as u64) + 1;
        let ghost raw_prev = raw@;
        let req_len = req.len();
        let mut t: usize = 0;
        while t < req_len
            invariant
                m.wf(),
                req_len == req@.len(),
                0 <= t <= req_len,
                spec_owned_map(*m, stash@, combo_gh) == Some(owned@),
                raw@ == raw_prev + spec_entries_upto(
                    *m,
                    queue@,
                    stash@,
                    req@,
                    owned@,
                    whole,
                    t as int,
                ),
            decreases req_len - t,
        {
            let (id, rc) = req[t];
            let keep: bool;
            match m.index_of(id) {
                None => {
                    keep = false;
                },
                Some(mi) => {
                    if m.by_id[mi].recipe.len() == 0 {
                        keep = false;
                        proof {
                            assert(m.by_id@[mi as int] == spec_mod(m.by_id@, id));
                        }
                    } else {
                        let rec = &m.by_id[mi].recipe;
                        let mut rem: Vec<ModifierId> = Vec::new();
                        let mut k: usize = 0;
                        while k < rec.len()
                            invariant
                                mi < m.by_id@.len(),
                                rec@ == m.by_id@[mi as int].recipe@,
                                0 <= k <= rec@.len(),
                                rem@ == spec_diff_upto(rec@, queue@, k as int),
                            decreases rec@.len() - k,
                        {
                            if !contains_id(queue, rec[k]) {
                                rem.push(rec[k]);
                            }
                            k += 1;
                        }
                        if rem.len() == 0 {
                            keep = false;
                        } else {
                            let mut allowned = true;
                            let mut k: usize = 0;
                            while k < rem.len()
                                invariant
                                    0 <= k <= rem@.len(),
                                    allowned == (forall|a: int|
                                        0 <= a < k ==> spec_stash_count(
                                            stash@,
                                            #[trigger] rem@[a],
                                        ) > 0),
                                decreases rem@.len() - k,
                            {
                                if !crate::settings::owns_modifier(stash, rem[k]) {
                                    allowned = false;
                                }
                                k += 1;
                            }
                            keep = allowned;
                        }
                        proof {
                            assert(m.by_id@[mi as int] == spec_mod(m.by_id@, id));
                        }
                    }
                },
            }
            proof {
                assert(keep == spec_entry_keep(*m, queue@, stash@, id));
            }
            if keep {
                let ow = match key_index(&owned, id) {
                    Some(oi) => owned[oi].1,
                    None => 0,
                };
                raw.push((id, whole, ow, rc));
                proof {
                    assert(ow == spec_owned_of(owned@, id));
                    assert(raw@ =~= raw_prev + spec_entries_upto(
                        *m,
                        queue@,
                        stash@,
                        req@,
                        owned@,
                        whole,
                        t + 1,
                    ));
                }
            }
            t += 1;
        }
        proof {
            assert(Some(raw@) == spec_raw_upto(*m, *s, stash@, queue@, ri + 1)) by {
                assert(req@ == spec_required_upto(*m, combo_gh, combo_gh.len() as int));
                assert(whole == (ri + 1) as u64);
            }
        }
        ri += 1;
    }
    // sort by priority, map to candidates, collapse consecutive repeats
    let sorted_raw = sort_prio(&raw);
    proof {
        lemma_raw_entries_keep(*m, *s, stash@, queue@, s.combo_roster@.len() as int);
        lemma_sort_prio_members(raw@, raw@.len() as int);
        assert forall|k: int|
            0 <= k < sorted_raw@.len() implies spec_entry_keep(
            *m,
            queue@,
            stash@,
            (#[trigger] sorted_raw@[k]).0,
        ) by {
            assert(sorted_raw@.contains(sorted_raw@[k]));
            let j = choose|j: int| 0 <= j < raw@.len() && #[trigger] raw@[j] == sorted_raw@[k];
            assert(spec_entry_keep(*m, queue@, stash@, raw@[j].0));
        }
    }
    let mut cands: Vec<Candidate> = Vec::new();
    let mut n: usize = 0;
    while n < sorted_raw.len()
        invariant
            m.wf(),
            forall|k: int|
                0 <= k < sorted_raw@.len() ==> spec_entry_keep(
                    *m,
                    queue@,
                    stash@,
                    (#[trigger] sorted_raw@[k]).0,
                ),
            0 <= n <= sorted_raw@.len(),
            cands_match(cands@, spec_roster_cands_upto(m.by_id@, sorted_raw@, n as int)),
        decreases sorted_raw@.len() - n,
    {
        let id = sorted_raw[n].0;
        let mi = match m.index_of(id) {
            Some(mi) => mi,
            None => {
                proof {
                    assert(spec_entry_keep(*m, queue@, stash@, id));
                    assert(false);
                }
                0
            },
        };
        let rec = crate::seqs::copy_ids(&m.by_id[mi].recipe);
        proof {
            assert(m.by_id@[mi as int] == spec_mod(m.by_id@, id));
        }
        let mut dup = false;
        if cands.len() > 0 {
            let last = &cands[cands.len() - 1];
            let same_id = match last.produced {
                Some(lid) => lid == id,
                None => false,
            };
            if same_id && crate::seqs::ids_eq(&last.recipe, &rec) {
                dup = true;
            }
        }
        proof {
            let prev = spec_roster_cands_upto(m.by_id@, sorted_raw@, n as int);
            let pair = (Some(id), spec_mod(m.by_id@, id).recipe@);
            if cands@.len() > 0 {
                assert((cands@.last().produced, cands@.last().recipe@) == prev.last());
            }
            assert(dup == (prev.len() > 0 && prev.last() == pair));
        }
        if !dup {
            cands.push(Candidate { produced: Some(id), recipe: rec });
        }
        n += 1;
    }
    let ghost rc_gh = spec_roster_cands_upto(m.by_id@, sorted_raw@, sorted_raw@.len() as int);
    // filler candidates
    let mut n: usize = 0;
    while n < filler_list.len()
        invariant
            0 <= n <= filler_list@.len(),
            cands_match(cands@, rc_gh + spec_filler_cands_upto(filler_list@, n as int)),
        decreases filler_list@.len() - n,
    {
        cands.push(Candidate { produced: None, recipe: crate::seqs::single_id(filler_list[n]) });
        n += 1;
    }
    proof {
        assert(rc_gh + spec_filler_cands_upto(filler_list@, filler_list@.len() as int)
            == spec_build_cands(*m, *s, stash@, queue@).unwrap());
    }
    Some(cands)
}

/// Once one roster combo's walk fails, the whole raw list is `None`.
proof fn lemma_raw_none_propagates(
    m: Modifiers,
    s: UserSettings,
    stash: Seq<(ModifierId, u64)>,
    queue: Seq<ModifierId>,
    from: int,
    to: int,
)
    requires
        0 < from <= to,
        spec_raw_upto(m, s, stash, queue, from) is None,
    ensures
        spec_raw_upto(m, s, stash, queue, to) is None,
    decreases to - from,
{
    if from < to {
        lemma_raw_none_propagates(m, s, stash, queue, from + 1, to);
    }
}

proof fn lemma_prio_pos_extend(
    s: Seq<(ModifierId, u64, u64, u64)>,
    x: (ModifierId, u64, u64, u64),
    i: int,
    n: int,
)
    requires
        0 <= i < n <= s.len(),
        spec_prio_pos_upto(s, x, i) is None,
        spec_prio_gt(s[i], x),
    ensures
        spec_prio_pos_upto(s, x, n) == Some(i),
    decreases n,
{
    if n - 1 > i {
        lemma_prio_pos_extend(s, x, i, n - 1);
    }
}

} // verus!
