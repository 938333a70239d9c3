//! The combo search engine.
//!
//! The fast path scans the roster in priority order and returns the first
//! combo the queue is a literal prefix of whose remaining ids are all
//! owned.  Otherwise a backtracking search over the candidate list builds
//! a four-slot combo: candidates are chosen as long as their claimed id
//! sets stay pairwise disjoint and inside the four slots, every chosen
//! state must produce all required ids, and complete combos are kept by
//! filler count, then value.  The search is budgeted by a fixed number of
//! loop steps; exhausting the budget returns the best combo found so far,
//! or nothing — a valid no-suggestion outcome, never an error.

use vstd::prelude::*;
use crate::candidates::{
    build_candidates, cands_wf, spec_build_cands, Candidate, SpecCand,
};
use crate::catalog::{has_id, Modifier, ModifierId, Modifiers};
use crate::permute::{get_unordered_combo_value, spec_unordered_value};
use crate::produce::{get_produced_modifier_ids, spec_produced};
use crate::seqs::{
    contains_id, copy_ids, insert_sorted, sat_add, saturating_add, spec_insert_sorted,
    strictly_sorted, lemma_insert_sorted_props,
};
use crate::settings::{
    combo_index, owns_modifier, roster_resolves, settings_wf, spec_combo_index, spec_filler_ids,
    spec_roster_combo, spec_stash_count, UserSettings,
};
use crate::value::ids_resolve;

verus! {

/// Cap on the number of search-loop steps.  Exhausting it returns the
/// best combo found so far, or nothing: the time-boxed anytime cutoff as
/// a deterministic step count.
pub const STEP_BUDGET: u64 = 100000;

// --- the fast path --------------------------------------------------------

/// The queue is a literal prefix of the combo and every remaining id is
/// owned.
pub open spec fn spec_active_match(
    stash: Seq<(ModifierId, u64)>,
    queue: Seq<ModifierId>,
    combo: Seq<ModifierId>,
) -> bool {
    &&& combo.len() >= queue.len()
    &&& forall|i: int| 0 <= i < queue.len() ==> combo[i] == queue[i]
    &&& forall|i: int|
        queue.len() <= i < combo.len() ==> spec_stash_count(stash, #[trigger] combo[i]) > 0
}

/// The first roster combo (among the first `n`) the queue is a prefix of
/// with its remainder fully owned.
pub open spec fn spec_active_upto(
    s: UserSettings,
    stash: Seq<(ModifierId, u64)>,
    queue: Seq<ModifierId>,
    n: int,
) -> Option<Seq<ModifierId>>
    decreases n,
{
    if n <= 0 {
        None
    } else {
        match spec_active_upto(s, stash, queue, n - 1) {
            Some(c) => Some(c),
            None => {
                let combo = spec_roster_combo(s, n - 1);
                if spec_active_match(stash, queue, combo) {
                    Some(combo)
                } else {
                    None
                }
            },
        }
    }
}

/// The fast-path suggestion, if any.
pub open spec fn spec_active(
    s: UserSettings,
    stash: Seq<(ModifierId, u64)>,
    queue: Seq<ModifierId>,
) -> Option<Seq<ModifierId>> {
    spec_active_upto(s, stash, queue, s.combo_roster@.len() as int)
}

pub proof fn lemma_active_extend(
    s: UserSettings,
    stash: Seq<(ModifierId, u64)>,
    queue: Seq<ModifierId>,
    i: int,
    n: int,
)
    requires
        0 <= i < n <= s.combo_roster@.len(),
        spec_active_upto(s, stash, queue, i) is None,
        spec_active_match(stash, queue, spec_roster_combo(s, i)),
    ensures
        spec_active_upto(s, stash, queue, n) == Some(spec_roster_combo(s, i)),
    decreases n,
{
    if n - 1 > i {
        lemma_active_extend(s, stash, queue, i, n - 1);
    }
}

/// The fast path: scan the roster in priority order and return the first
/// combo the queue is a literal prefix of whose remaining ids are all
/// owned, unaffected by lower-priority roster entries.
pub fn suggest_active_combo(
    user_settings: &UserSettings,
    stash: &Vec<(ModifierId, u64)>,
    queue: &Vec<ModifierId>,
) -> (r: Option<Vec<ModifierId>>)
    requires
        roster_resolves(*user_settings),
    ensures
        match r {
            Some(c) => spec_active(*user_settings, stash@, queue@) == Some(c@),
            None => spec_active(*user_settings, stash@, queue@) is None,
        },
{
    let mut ri: usize = 0;
    while ri < user_settings.combo_roster.len()
        invariant
            roster_resolves(*user_settings),
            0 <= ri <= user_settings.combo_roster@.len(),
            spec_active_upto(*user_settings, stash@, queue@, ri as int) is None,
        decreases user_settings.combo_roster@.len() - ri,
    {
        let ci = match combo_index(&user_settings.combo_catalog, user_settings.combo_roster[ri]) {
            Some(ci) => ci,
            None => {
                proof {
                    assert(false);
                }
                0
            },
        };
        let combo = &user_settings.combo_catalog[ci].combo;
        let ghost combo_gh = spec_roster_combo(*user_settings, ri as int);
        proof {
            assert(combo@ == combo_gh);
        }
        let mut matches_here = combo.len() >= queue.len();
        if matches_here {
            let mut i: usize = 0;
            while i < queue.len()
                invariant
                    combo@ == combo_gh,
                    combo@.len() >= queue@.len(),
                    0 <= i <= queue@.len(),
                    matches_here == (forall|a: int| 0 <= a < i ==> combo@[a] == queue@[a]),
                decreases queue@.len() - i,
            {
                if combo[i] != queue[i] {
                    matches_here = false;
                }
                i += 1;
            }
            if matches_here {
                let mut i: usize = queue.len();
                while i < combo.len()
                    invariant
                        combo@ == combo_gh,
                        combo@.len() >= queue@.len(),
                        queue@.len() <= i <= combo@.len(),
                        matches_here == (forall|a: int|
                            queue@.len() <= a < i ==> spec_stash_count(
                                stash@,
                                #[trigger] combo@[a],
                            ) > 0),
                    decreases combo@.len() - i,
                {
                    if !owns_modifier(stash, combo[i]) {
                        matches_here = false;
                    }
                    i += 1;
                }
            }
        }
        if matches_here {
            proof {
                assert(spec_active_match(stash@, queue@, combo_gh));
                lemma_active_extend(
                    *user_settings,
                    stash@,
                    queue@,
                    ri as int,
                    user_settings.combo_roster@.len() as int,
                );
            }
            return Some(copy_ids(combo));
        }
        proof {
            assert(spec_active_upto(*user_settings, stash@, queue@, ri + 1) is None);
        }
        ri += 1;
    }
    None
}

// --- the backtracking search ----------------------------------------------

/// The candidates a vector holds, as spec values.
pub open spec fn cands_view(cands: Seq<Candidate>) -> Seq<SpecCand> {
    Seq::new(cands.len(), |i: int| (cands[i].produced, cands[i].recipe@))
}

/// The produced ids of the resolver's output, in order.
pub open spec fn spec_prod_values_upto(acc: Seq<(Seq<ModifierId>, ModifierId)>, t: int) -> Seq<
    ModifierId,
>
    decreases t,
{
    if t <= 0 {
        Seq::empty()
    } else {
        spec_prod_values_upto(acc, t - 1).push(acc[t - 1].1)
    }
}

/// The produced ids of the chosen candidates (stack entries are candidate
/// indices shifted up by one).
pub open spec fn spec_chosen_prod_upto(
    cands: Seq<SpecCand>,
    chosen: Seq<usize>,
    t: int,
) -> Seq<ModifierId>
    decreases t,
{
    if t <= 0 {
        Seq::empty()
    } else {
        let prev = spec_chosen_prod_upto(cands, chosen, t - 1);
        match cands[chosen[t - 1] - 1].0 {
            Some(id) => prev.push(id),
            None => prev,
        }
    }
}

/// Fold the first `t` ids into a sorted id set.
pub open spec fn spec_add_sorted_upto(acc: Seq<ModifierId>, ids: Seq<ModifierId>, t: int) -> Seq<
    ModifierId,
>
    decreases t,
{
    if t <= 0 {
        acc
    } else {
        spec_insert_sorted(spec_add_sorted_upto(acc, ids, t - 1), ids[t - 1])
    }
}

/// The union of the chosen candidates' claimed id sets.
pub open spec fn spec_union_upto(cands: Seq<SpecCand>, chosen: Seq<usize>, t: int) -> Seq<
    ModifierId,
>
    decreases t,
{
    if t <= 0 {
        Seq::empty()
    } else {
        let prev = spec_union_upto(cands, chosen, t - 1);
        let rec = cands[chosen[t - 1] - 1].1;
        spec_add_sorted_upto(prev, rec, rec.len() as int)
    }
}

/// The total size of the chosen candidates' claimed id sets.
pub open spec fn spec_len_sum_upto(cands: Seq<SpecCand>, chosen: Seq<usize>, t: int) -> u64
    decreases t,
{
    if t <= 0 {
        0
    } else {
        sat_add(
            spec_len_sum_upto(cands, chosen, t - 1),
            cands[chosen[t - 1] - 1].1.len() as u64,
        )
    }
}

/// Whether the candidate at `i` extends the chosen set: its claimed ids
/// must not overlap the chosen sets, the union with the queue must fit in
/// four slots, and some ordering must produce every required id.  Yields
/// that ordering and its value.
pub open spec fn spec_accept(
    m: Modifiers,
    cands: Seq<SpecCand>,
    queue: Seq<ModifierId>,
    qprod: Seq<ModifierId>,
    chosen: Seq<usize>,
    i: int,
) -> Option<(Seq<ModifierId>, u64)> {
    let cand = cands[i];
    let required = qprod + spec_chosen_prod_upto(cands, chosen, chosen.len() as int) + (match cand.0 {
        Some(id) => seq![id],
        None => Seq::empty(),
    });
    let u0 = spec_union_upto(cands, chosen, chosen.len() as int);
    let l0 = spec_len_sum_upto(cands, chosen, chosen.len() as int);
    let u1 = spec_add_sorted_upto(u0, cand.1, cand.1.len() as int);
    let l1 = sat_add(l0, cand.1.len() as u64);
    if u1.len() as int != l1 as int {
        None
    } else {
        let uq = spec_add_sorted_upto(u1, queue, queue.len() as int);
        if uq.len() > 4 {
            None
        } else {
            spec_unordered_value(m, queue, uq, required)
        }
    }
}

/// The first candidate from `i` on that the chosen set accepts.
pub open spec fn spec_scan(
    m: Modifiers,
    cands: Seq<SpecCand>,
    queue: Seq<ModifierId>,
    qprod: Seq<ModifierId>,
    chosen: Seq<usize>,
    i: int,
) -> Option<(int, Seq<ModifierId>, u64)>
    decreases cands.len() - i,
{
    if i >= cands.len() {
        None
    } else {
        match spec_accept(m, cands, queue, qprod, chosen, if i < 0 {
            0
        } else {
            i
        }) {
            Some((c, v)) => Some(
                (
                    if i < 0 {
                        0
                    } else {
                        i
                    },
                    c,
                    v,
                ),
            ),
            None => spec_scan(m, cands, queue, qprod, chosen, i + 1),
        }
    }
}

/// Total size of the claimed id sets of the resolver's output.
pub open spec fn spec_claimed_total(prod: Seq<(Seq<ModifierId>, ModifierId)>, t: int) -> u64
    decreases t,
{
    if t <= 0 {
        0
    } else {
        sat_add(spec_claimed_total(prod, t - 1), prod[t - 1].0.len() as u64)
    }
}

/// Total size of the claimed id sets whose produced id is a filler.
pub open spec fn spec_filler_claimed(
    prod: Seq<(Seq<ModifierId>, ModifierId)>,
    fillers: Seq<ModifierId>,
    t: int,
) -> u64
    decreases t,
{
    if t <= 0 {
        0
    } else {
        sat_add(
            spec_filler_claimed(prod, fillers, t - 1),
            if fillers.contains(prod[t - 1].1) {
                prod[t - 1].0.len() as u64
            } else {
                0
            },
        )
    }
}

/// The suggestion carried by the best-so-far state.
pub open spec fn opt_first(best: Option<(Seq<ModifierId>, u64)>) -> Option<Seq<ModifierId>> {
    match best {
        Some(p) => Some(p.0),
        None => None,
    }
}

/// The search's stack machine, one step per recursion.  The stack holds
/// scan starts (candidate index plus one; zero seeds the whole scan).  A
/// complete combo with no filler slots ends the search at once; otherwise
/// a complete combo with at most two filler slots replaces a best-so-far
/// it is not dominated by, and the search continues until the stack or
/// the step budget is exhausted.
pub open spec fn spec_search(
    m: Modifiers,
    cands: Seq<SpecCand>,
    queue: Seq<ModifierId>,
    qprod: Seq<ModifierId>,
    fillers: Seq<ModifierId>,
    stack: Seq<usize>,
    best: Option<(Seq<ModifierId>, u64)>,
    fuel: nat,
) -> Option<Seq<ModifierId>>
    decreases fuel,
{
    if fuel == 0 {
        opt_first(best)
    } else if stack.len() == 0 {
        opt_first(best)
    } else {
        let start = stack.last();
        let rest = stack.drop_last();
        match spec_scan(m, cands, queue, qprod, rest, start as int) {
            None => spec_search(m, cands, queue, qprod, fillers, rest, best, (fuel - 1) as nat),
            Some((i, combo, v)) => {
                let pushed = rest.push((i + 1) as usize).push((i + 1) as usize);
                if combo.len() == 4 {
                    let prod = spec_produced(m.by_id@, combo);
                    let covered = spec_claimed_total(prod, prod.len() as int);
                    let fcov = spec_filler_claimed(prod, fillers, prod.len() as int);
                    if sat_add(fcov, 4) == covered {
                        Some(combo)
                    } else {
                        let keep = sat_add(fcov, 4) <= sat_add(covered, 2) && (match best {
                            Some(p) => p.1 <= v,
                            None => true,
                        });
                        spec_search(
                            m,
                            cands,
                            queue,
                            qprod,
                            fillers,
                            pushed,
                            if keep {
                                Some((combo, v))
                            } else {
                                best
                            },
                            (fuel - 1) as nat,
                        )
                    }
                } else {
                    spec_search(m, cands, queue, qprod, fillers, pushed, best, (fuel - 1) as nat)
                }
            },
        }
    }
}

/// The full search result: `None` also when the candidate list could not
/// be built because an ownership-chain walk exceeded its fuel.
pub open spec fn spec_custom(
    m: Modifiers,
    s: UserSettings,
    stash: Seq<(ModifierId, u64)>,
    queue: Seq<ModifierId>,
) -> Option<Seq<ModifierId>> {
    match spec_build_cands(m, s, stash, queue) {
        None => None,
        Some(cands) => {
            let qp = spec_produced(m.by_id@, queue);
            spec_search(
                m,
                cands,
                queue,
                spec_prod_values_upto(qp, qp.len() as int),
                spec_filler_ids(m, s),
                seq![0usize],
                None,
                STEP_BUDGET as nat,
            )
        },
    }
}

/// What the engine suggests: nothing for a full queue; otherwise the fast
/// path, then the search.
pub open spec fn spec_suggest(
    m: Modifiers,
    s: UserSettings,
    stash: Seq<(ModifierId, u64)>,
    queue: Seq<ModifierId>,
) -> Option<Seq<ModifierId>> {
    if queue.len() == 4 {
        None
    } else {
        match spec_active(s, stash, queue) {
            Some(c) => Some(c),
            None => spec_custom(m, s, stash, queue),
        }
    }
}

/// Scan the candidate list from `start` for the first candidate the
/// chosen set accepts, returning its index, the best ordering of the
/// extended set and that ordering's value.
fn scan_candidates(
    m: &Modifiers,
    cands: &Vec<Candidate>,
    queue: &Vec<ModifierId>,
    qprod: &Vec<ModifierId>,
    chosen: &Vec<usize>,
    start: usize,
) -> (r: Option<(usize, Vec<ModifierId>, u64)>)
    requires
        m.wf(),
        cands_wf(m.by_id@, cands_view(cands@)),
        ids_resolve(m.by_id@, queue@),
        forall|t: int| 0 <= t < chosen@.len() ==> 1 <= #[trigger] chosen@[t] <= cands@.len(),
    ensures
        match r {
            Some(p) => spec_scan(*m, cands_view(cands@), queue@, qprod@, chosen@, start as int)
                == Some((p.0 as int, p.1@, p.2)) && p.0 < cands@.len() && start <= p.0,
            None => spec_scan(*m, cands_view(cands@), queue@, qprod@, chosen@, start as int)
                is None,
        },
{
    let ghost cv = cands_view(cands@);
    // the produced ids every acceptance must cover, bar the candidate's own
    let mut req_base: Vec<ModifierId> = copy_ids(qprod);
    let mut t: usize = 0;
    while t < chosen.len()
        invariant
            forall|a: int| 0 <= a < chosen@.len() ==> 1 <= #[trigger] chosen@[a] <= cands@.len(),
            cv == cands_view(cands@),
            0 <= t <= chosen@.len(),
            req_base@ == qprod@ + spec_chosen_prod_upto(cv, chosen@, t as int),
        decreases chosen@.len() - t,
    {
        let e = chosen[t];
        match cands[e - 1].produced {
            Some(id) => {
                req_base.push(id);
            },
            None => {},
        }
        proof {
            assert(cv[e - 1] == (cands@[e - 1].produced, cands@[e - 1].recipe@));
            assert(req_base@ =~= qprod@ + spec_chosen_prod_upto(cv, chosen@, t + 1));
        }
        t += 1;
    }
    // the union and total size of the chosen candidates' claimed sets
    let mut u0: Vec<ModifierId> = Vec::new();
    let mut l0: u64 = 0;
    let mut t: usize = 0;
    proof {
        assert(u0@ =~= Seq::<ModifierId>::empty());
    }
    while t < chosen.len()
        invariant
            m.wf(),
            cands_wf(m.by_id@, cv),
            forall|a: int| 0 <= a < chosen@.len() ==> 1 <= #[trigger] chosen@[a] <= cands@.len(),
            cv == cands_view(cands@),
            0 <= t <= chosen@.len(),
            u0@ == spec_union_upto(cv, chosen@, t as int),
            l0 == spec_len_sum_upto(cv, chosen@, t as int),
            strictly_sorted(u0@),
            ids_resolve(m.by_id@, u0@),
        decreases chosen@.len() - t,
    {
        let e = chosen[t];
        let rec = &cands[e - 1].recipe;
        proof {
            assert(cv[e - 1] == (cands@[e - 1].produced, cands@[e - 1].recipe@));
        }
        let ghost u_base = u0@;
        let mut k: usize = 0;
        while k < rec.len()
            invariant
                m.wf(),
                1 <= e,
                e <= cands@.len(),
                cands_wf(m.by_id@, cv),
                cv == cands_view(cands@),
                cv[e - 1].1 == rec@,
                rec@ == cands@[e - 1 as int].recipe@,
                0 <= k <= rec@.len(),
                u0@ == spec_add_sorted_upto(u_base, rec@, k as int),
                strictly_sorted(u0@),
                ids_resolve(m.by_id@, u0@),
            decreases rec@.len() - k,
        {
            let x = rec[k];
            proof {
                lemma_insert_sorted_props(u0@, x);
                assert(has_id(m.by_id@, x)) by {
                    assert(cv[e - 1].1[k as int] == x);
                }
            }
            let ghost u_old = u0@;
            insert_sorted(&mut u0, x);
            proof {
                assert(ids_resolve(m.by_id@, u0@)) by {
                    assert forall|a: int| 0 <= a < u0@.len() implies has_id(
                        m.by_id@,
                        #[trigger] u0@[a],
                    ) by {
                        assert(u0@.contains(u0@[a]));
                        if u_old.contains(u0@[a]) {
                            let w = choose|w: int|
                                0 <= w < u_old.len() && u_old[w] == u0@[a];
                        } else {
                            assert(u0@[a] == x);
                        }
                    }
                }
            }
            k += 1;
        }
        l0 = saturating_add(l0, rec.len() as u64);
        t += 1;
    }
    // scan forward from `start`
    let mut i: usize = start;
    while i < cands.len()
        invariant
            m.wf(),
            cands_wf(m.by_id@, cv),
            ids_resolve(m.by_id@, queue@),
            cv == cands_view(cands@),
            start <= i,
            req_base@ == qprod@ + spec_chosen_prod_upto(cv, chosen@, chosen@.len() as int),
            u0@ == spec_union_upto(cv, chosen@, chosen@.len() as int),
            l0 == spec_len_sum_upto(cv, chosen@, chosen@.len() as int),
            strictly_sorted(u0@),
            ids_resolve(m.by_id@, u0@),
            spec_scan(*m, cv, queue@, qprod@, chosen@, start as int) == spec_scan(
                *m,
                cv,
                queue@,
                qprod@,
                chosen@,
                i as int,
            ),
        decreases cands@.len() - i,
    {
        let cand = &cands[i];
        proof {
            assert(cv[i as int] == (cands@[i as int].produced, cands@[i as int].recipe@));
        }
        // required ids, including the candidate's own product
        let mut required: Vec<ModifierId> = copy_ids(&req_base);
        match cand.produced {
            Some(id) => {
                required.push(id);
            },
            None => {},
        }
        let ghost req_spec = qprod@ + spec_chosen_prod_upto(cv, chosen@, chosen@.len() as int) + (
        match cv[i as int].0 {
            Some(id) => seq![id],
            None => Seq::<ModifierId>::empty(),
        });
        proof {
            assert(required@ =~= req_spec);
        }
        // extend the union with the candidate's claimed set
        let mut u1: Vec<ModifierId> = copy_ids(&u0);
        let rec = &cand.recipe;
        let ghost u1_base = u1@;
        let mut k: usize = 0;
        while k < rec.len()
            invariant
                m.wf(),
                i < cands@.len(),
                cands_wf(m.by_id@, cv),
                cv == cands_view(cands@),
                cv[i as int].1 == rec@,
                rec@ == cands@[i as int].recipe@,
                0 <= k <= rec@.len(),
                u1@ == spec_add_sorted_upto(u1_base, rec@, k as int),
                strictly_sorted(u1@),
                ids_resolve(m.by_id@, u1@),
            decreases rec@.len() - k,
        {
            let x = rec[k];
            proof {
                lemma_insert_sorted_props(u1@, x);
                assert(has_id(m.by_id@, x)) by {
                    assert(cv[i as int].1[k as int] == x);
                }
            }
            let ghost u_old = u1@;
            insert_sorted(&mut u1, x);
            proof {
                assert(ids_resolve(m.by_id@, u1@)) by {
                    assert forall|a: int| 0 <= a < u1@.len() implies has_id(
                        m.by_id@,
                        #[trigger] u1@[a],
                    ) by {
                        assert(u1@.contains(u1@[a]));
                        if u_old.contains(u1@[a]) {
                            let w = choose|w: int|
                                0 <= w < u_old.len() && u_old[w] == u1@[a];
                        } else {
                            assert(u1@[a] == x);
                        }
                    }
                }
            }
            k += 1;
        }
        let l1 = saturating_add(l0, rec.len() as u64);
        let mut accepted: Option<(Vec<ModifierId>, u64)> = None;
        let mut overlap = false;
        if (u1.len() as u64) != l1 {
            overlap = true;
        }
        if !overlap {
            // add the queue and keep it inside the four slots
            let mut k: usize = 0;
            let ghost uq_base = u1@;
            while k < queue.len()
                invariant
                    m.wf(),
                    ids_resolve(m.by_id@, queue@),
                    0 <= k <= queue@.len(),
                    u1@ == spec_add_sorted_upto(uq_base, queue@, k as int),
                    strictly_sorted(u1@),
                    ids_resolve(m.by_id@, u1@),
                decreases queue@.len() - k,
            {
                let x = queue[k];
                proof {
                    lemma_insert_sorted_props(u1@, x);
                }
                let ghost u_old = u1@;
                insert_sorted(&mut u1, x);
                proof {
                    assert(ids_resolve(m.by_id@, u1@)) by {
                        assert forall|a: int| 0 <= a < u1@.len() implies has_id(
                            m.by_id@,
                            #[trigger] u1@[a],
                        ) by {
                            assert(u1@.contains(u1@[a]));
                            if u_old.contains(u1@[a]) {
                                let w = choose|w: int|
                                    0 <= w < u_old.len() && u_old[w] == u1@[a];
                            } else {
                                assert(u1@[a] == x);
                            }
                        }
                    }
                }
                k += 1;
            }
            if u1.len() <= 4 {
                accepted = get_unordered_combo_value(m, queue, &u1, &required);
            }
        }
        match accepted {
            Some((combo, v)) => {
                proof {
                    assert(spec_accept(*m, cv, queue@, qprod@, chosen@, i as int) == Some(
                        (combo@, v),
                    ));
                    assert(spec_scan(*m, cv, queue@, qprod@, chosen@, i as int) == Some(
                        (i as int, combo@, v),
                    ));
                }
                return Some((i, combo, v));
            },
            None => {
                proof {
                    assert(spec_accept(*m, cv, queue@, qprod@, chosen@, i as int) is None);
                    assert(spec_scan(*m, cv, queue@, qprod@, chosen@, i as int) == spec_scan(
                        *m,
                        cv,
                        queue@,
                        qprod@,
                        chosen@,
                        i + 1,
                    ));
                }
            },
        }
        i += 1;
    }
    None
}

/// The suggestion carried by an executable best-so-far state.
pub open spec fn opt_pair_view(o: Option<(Vec<ModifierId>, u64)>) -> Option<(Seq<ModifierId>, u64)> {
    match o {
        Some(p) => Some((p.0@, p.1)),
        None => None,
    }
}

/// The backtracking search: build a four-slot combo from the candidate
/// list, keeping claimed id sets disjoint and production complete, and
/// return the best complete combo found within the step budget.
pub fn suggest_custom_combo(
    m: &Modifiers,
    user_settings: &UserSettings,
    stash: &Vec<(ModifierId, u64)>,
    queue: &Vec<ModifierId>,
) -> (r: Option<Vec<ModifierId>>)
    requires
        m.wf(),
        settings_wf(m.by_id@, *user_settings),
        queue@.len() <= 4,
        ids_resolve(m.by_id@, queue@),
    ensures
        match r {
            Some(c) => spec_custom(*m, *user_settings, stash@, queue@) == Some(c@),
            None => spec_custom(*m, *user_settings, stash@, queue@) is None,
        },
{
    let fillers = user_settings.get_filler_modifier_ids(m);
    let cands = match build_candidates(m, user_settings, stash, queue, &fillers) {
        None => {
            return None;
        },
        Some(c) => c,
    };
    let ghost cv = cands_view(cands@);
    proof {
        assert(cv =~= spec_build_cands(*m, *user_settings, stash@, queue@).unwrap());
        crate::candidates::lemma_build_cands_wf(*m, *user_settings, stash@, queue@);
    }
    // the produced ids of the queue alone
    let qprodlist = get_produced_modifier_ids(m, queue);
    let mut qprod: Vec<ModifierId> = Vec::new();
    let mut t: usize = 0;
    while t < qprodlist.len()
        invariant
            qprodlist@.len() == spec_produced(m.by_id@, queue@).len(),
            forall|k: int|
                0 <= k < qprodlist@.len() ==> ((#[trigger] qprodlist@[k]).0@, qprodlist@[k].1)
                    == spec_produced(m.by_id@, queue@)[k],
            0 <= t <= qprodlist@.len(),
            qprod@ == spec_prod_values_upto(spec_produced(m.by_id@, queue@), t as int),
        decreases qprodlist@.len() - t,
    {
        qprod.push(qprodlist[t].1);
        t += 1;
    }
    // the stack machine
    let ghost goal = spec_search(
        *m,
        cv,
        queue@,
        qprod@,
        fillers@,
        seq![0usize],
        None,
        STEP_BUDGET as nat,
    );
    let mut stack: Vec<usize> = Vec::new();
    stack.push(0);
    let mut best: Option<(Vec<ModifierId>, u64)> = None;
    let mut steps: u64 = 0;
    proof {
        assert(stack@ =~= seq![0usize]);
    }
    loop
        invariant_except_break
            spec_search(
                *m,
                cv,
                queue@,
                qprod@,
                fillers@,
                stack@,
                opt_pair_view(best),
                (STEP_BUDGET - steps) as nat,
            ) == goal,
        invariant
            m.wf(),
            cands_wf(m.by_id@, cv),
            cv == cands_view(cands@),
            ids_resolve(m.by_id@, queue@),
            queue@.len() <= 4,
            qprod@ == spec_prod_values_upto(
                spec_produced(m.by_id@, queue@),
                spec_produced(m.by_id@, queue@).len() as int,
            ),
            steps <= STEP_BUDGET,
            forall|a: int| 0 <= a < stack@.len() ==> #[trigger] stack@[a] <= cands@.len(),
            forall|a: int| 0 <= a < stack@.len() && #[trigger] stack@[a] == 0 ==> stack@.len() == 1,
        ensures
            opt_first(opt_pair_view(best)) == goal,
        decreases STEP_BUDGET - steps,
    {
        if steps >= STEP_BUDGET {
            proof {
                assert((STEP_BUDGET - steps) as nat == 0);
                assert(opt_first(opt_pair_view(best)) == goal);
            }
            break ;
        }
        if stack.len() == 0 {
            proof {
                assert(opt_first(opt_pair_view(best)) == goal);
            }
            break ;
        }
        let ghost stack_old = stack@;
        let ghost best_old = opt_pair_view(best);
        let ghost fuel_old = (STEP_BUDGET - steps) as nat;
        let start = stack.pop().unwrap();
        steps += 1;
        proof {
            assert(stack@ =~= stack_old.drop_last());
            assert(forall|a: int| 0 <= a < stack@.len() ==> 1 <= #[trigger] stack@[a]
                <= cands@.len()) by {
                assert(forall|a: int|
                    0 <= a < stack@.len() ==> stack@[a] == stack_old[a]
                        && stack@[a] <= cands@.len());
            }
        }
        match scan_candidates(m, &cands, queue, &qprod, &stack, start) {
            None => {
                proof {
                    assert(spec_search(
                        *m,
                        cv,
                        queue@,
                        qprod@,
                        fillers@,
                        stack@,
                        opt_pair_view(best),
                        (STEP_BUDGET - steps) as nat,
                    ) == goal);
                }
            },
            Some((i, combo, v)) => {
                if combo.len() == 4 {
                    let prod = get_produced_modifier_ids(m, &combo);
                    let ghost prod_spec = spec_produced(m.by_id@, combo@);
                    let mut covered: u64 = 0;
                    let mut fcov: u64 = 0;
                    let mut t: usize = 0;
                    while t < prod.len()
                        invariant
                            prod@.len() == prod_spec.len(),
                            forall|k: int|
                                0 <= k < prod@.len() ==> ((#[trigger] prod@[k]).0@, prod@[k].1)
                                    == prod_spec[k],
                            0 <= t <= prod@.len(),
                            covered == spec_claimed_total(prod_spec, t as int),
                            fcov == spec_filler_claimed(prod_spec, fillers@, t as int),
                        decreases prod@.len() - t,
                    {
                        covered = saturating_add(covered, prod[t].0.len() as u64);
                        if contains_id(&fillers, prod[t].1) {
                            fcov = saturating_add(fcov, prod[t].0.len() as u64);
                        }
                        t += 1;
                    }
                    if saturating_add(fcov, 4) == covered {
                        proof {
                            assert(spec_search(
                                *m,
                                cv,
                                queue@,
                                qprod@,
                                fillers@,
                                stack_old,
                                best_old,
                                fuel_old,
                            ) == Some(combo@));
                        }
                        best = Some((combo, v));
                        proof {
                            assert(opt_first(opt_pair_view(best)) == goal);
                        }
                        break ;
                    } else {
                        let keep = saturating_add(fcov, 4) <= saturating_add(covered, 2) && (
                        match &best {
                            Some(p) => p.1 <= v,
                            None => true,
                        });
                        if keep {
                            best = Some((combo, v));
                        }
                        stack.push(i + 1);
                        stack.push(i + 1);
                        proof {
                            assert(stack@ =~= stack_old.drop_last().push((i + 1) as usize).push(
                                (i + 1) as usize,
                            ));
                        }
                    }
                } else {
                    stack.push(i + 1);
                    stack.push(i + 1);
                    proof {
                        assert(stack@ =~= stack_old.drop_last().push((i + 1) as usize).push(
                            (i + 1) as usize,
                        ));
                    }
                }
            },
        }
    }
    proof {
        assert(goal == spec_custom(*m, *user_settings, stash@, queue@));
    }
    match best {
        Some(p) => Some(p.0),
        None => None,
    }
}

/// Suggest how to complete the queue: nothing when it is already full;
/// otherwise the first fully owned roster combo the queue is a prefix of,
/// or the best combo the search finds.  The caller reads slot
/// `queue.len()` of the result as the next modifier to add.
pub fn suggest_combo(
    m: &Modifiers,
    user_settings: &UserSettings,
    stash: &Vec<(ModifierId, u64)>,
    queue: &Vec<ModifierId>,
) -> (r: Option<Vec<ModifierId>>)
    requires
        m.wf(),
        settings_wf(m.by_id@, *user_settings),
        queue@.len() <= 4,
        queue@.len() == 4 || ids_resolve(m.by_id@, queue@),
    ensures
        match r {
            Some(c) => spec_suggest(*m, *user_settings, stash@, queue@) == Some(c@),
            None => spec_suggest(*m, *user_settings, stash@, queue@) is None,
        },
{
    if queue.len() == 4 {
        None
    } else {
        match suggest_active_combo(user_settings, stash, queue) {
            Some(c) => Some(c),
            None => suggest_custom_combo(m, user_settings, stash, queue),
        }
    }
}

/// A sorted id-set fold stays sorted and holds exactly the old and the
/// new ids.
pub proof fn lemma_add_sorted_props(acc: Seq<ModifierId>, ids: Seq<ModifierId>, t: int)
    requires
        0 <= t <= ids.len(),
        strictly_sorted(acc),
    ensures
        strictly_sorted(spec_add_sorted_upto(acc, ids, t)),
        forall|y: ModifierId|
            #[trigger] spec_add_sorted_upto(acc, ids, t).contains(y) ==> (acc.contains(y)
                || ids.subrange(0, t).contains(y)),
        forall|y: ModifierId|
            acc.contains(y) ==> #[trigger] spec_add_sorted_upto(acc, ids, t).contains(y),
        forall|j: int|
            0 <= j < t ==> spec_add_sorted_upto(acc, ids, t).contains(#[trigger] ids[j]),
    decreases t,
{
    if t > 0 {
        lemma_add_sorted_props(acc, ids, t - 1);
        let prev = spec_add_sorted_upto(acc, ids, t - 1);
        let cur = spec_add_sorted_upto(acc, ids, t);
        lemma_insert_sorted_props(prev, ids[t - 1]);
        assert forall|y: ModifierId| #[trigger] cur.contains(y) implies (acc.contains(y)
            || ids.subrange(0, t).contains(y)) by {
            if prev.contains(y) {
                if !acc.contains(y) {
                    let j = choose|j: int|
                        0 <= j < t - 1 && #[trigger] ids.subrange(0, t - 1)[j] == y;
                    assert(ids.subrange(0, t)[j] == y);
                }
            } else {
                assert(y == ids[t - 1]);
                assert(ids.subrange(0, t)[t - 1] == y);
            }
        }
        assert forall|j: int| 0 <= j < t implies cur.contains(#[trigger] ids[j]) by {
            if j < t - 1 {
                assert(prev.contains(ids[j]));
            }
        }
        assert forall|y: ModifierId| acc.contains(y) implies #[trigger] cur.contains(y) by {
            assert(prev.contains(y));
        }
    }
}

} // verus!
