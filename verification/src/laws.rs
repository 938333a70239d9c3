//! Engine-wide properties, stated and proved once and for all.

use vstd::prelude::*;
use crate::cache::{lemma_suggest_agree, settings_agree};
use crate::construct::{
    lemma_counts_have_keys, lemma_counts_keys, lemma_expand_closure, lemma_key_index_props,
    spec_component_row, spec_counts, spec_expand, spec_key_index, EXPAND_FUEL,
};
use crate::catalog::{Modifier, ModifierId, Modifiers};
use crate::engine::{
    lemma_active_extend, lemma_add_sorted_props, spec_accept, spec_active, spec_active_match,
    spec_active_upto, spec_add_sorted_upto, spec_chosen_prod_upto, spec_scan,
    spec_search, spec_suggest, spec_union_upto,
};
use crate::candidates::{
    spec_add_row_upto, spec_build_cands, spec_bump_by, spec_entries_upto, spec_entry_keep,
    spec_raw_upto, spec_required_upto, spec_set_count, SpecCand,
};
use crate::permute::{
    lemma_diff_props, lemma_perm_ids_index, lemma_perms_positions, spec_best_perm_upto, spec_diff,
    spec_diff_upto, spec_perm_ids, spec_perms, spec_unordered_value,
};
use crate::produce::spec_produced;
use crate::seqs::strictly_sorted;
use crate::catalog::{lemma_index_of_upto_props, spec_index_of};
use crate::settings::{
    combo_ok, lemma_combo_index_props, settings_wf, spec_combo_index, spec_combo_used_upto,
    spec_components_of, spec_filler_ids, spec_filler_ids_upto, spec_roster_combo,
    spec_row_keys_upto, spec_stash_count, spec_used_ids, spec_used_ids_upto, UserSettings,
};
use crate::value::spec_mod;

verus! {

/// Shape of an acceptable suggestion: at most four slots, the queue as a
/// literal prefix, and no id twice.
pub open spec fn combo_shape(queue: Seq<ModifierId>, c: Seq<ModifierId>) -> bool {
    &&& c.len() <= 4
    &&& queue.len() <= c.len()
    &&& forall|i: int| 0 <= i < queue.len() ==> c[i] == queue[i]
    &&& forall|i: int, j: int| 0 <= i < j < c.len() ==> c[i] != c[j]
}

/// A full queue yields no suggestion, whatever the settings and the
/// stash.
pub proof fn law_full_queue(
    m: Modifiers,
    s: UserSettings,
    stash: Seq<(ModifierId, u64)>,
    queue: Seq<ModifierId>,
)
    requires
        queue.len() == 4,
    ensures
        spec_suggest(m, s, stash, queue) is None,
{
}

/// When the queue is a literal prefix of the roster's first combo and
/// every remaining id of that combo is owned, the suggestion is exactly
/// that combo, unaffected by lower-priority roster entries.  (With a full
/// queue no suggestion is made at all, so the queue is shorter here.)
pub proof fn law_first_roster_combo(
    m: Modifiers,
    s: UserSettings,
    stash: Seq<(ModifierId, u64)>,
    queue: Seq<ModifierId>,
)
    requires
        queue.len() < 4,
        s.combo_roster@.len() > 0,
        spec_active_match(stash, queue, spec_roster_combo(s, 0)),
    ensures
        spec_suggest(m, s, stash, queue) == Some(spec_roster_combo(s, 0)),
{
    assert(spec_active_upto(s, stash, queue, 0) is None);
    lemma_active_extend(s, stash, queue, 0, s.combo_roster@.len() as int);
}

/// Identical engine-visible inputs always yield an identical result: the
/// suggestion is a function of the curated combos, the roster, the
/// forbidden ids, the stash and the queue alone.  Together with the
/// cache's contract this covers the cached path as well.
pub proof fn law_deterministic(
    m: Modifiers,
    s1: UserSettings,
    s2: UserSettings,
    stash: Seq<(ModifierId, u64)>,
    queue: Seq<ModifierId>,
)
    requires
        settings_agree(s1, s2),
    ensures
        spec_suggest(m, s1, stash, queue) == spec_suggest(m, s2, stash, queue),
{
    lemma_suggest_agree(m, s1, s2, stash, queue);
}

proof fn lemma_combo_from_perm_shape(queue: Seq<ModifierId>, elems: Seq<ModifierId>, row: Seq<usize>)
    requires
        forall|i: int, j: int| 0 <= i < j < queue.len() ==> queue[i] != queue[j],
        strictly_sorted(elems),
        forall|k: int| 0 <= k < elems.len() ==> !queue.contains(#[trigger] elems[k]),
        row.len() == elems.len(),
        forall|t: int| 0 <= t < row.len() ==> (#[trigger] row[t]) < elems.len(),
        forall|a: int, b: int| 0 <= a < b < row.len() ==> row[a] != row[b],
        queue.len() + elems.len() <= 4,
    ensures
        combo_shape(queue, queue + spec_perm_ids(elems, row)),
{
    lemma_perm_ids_index(elems, row, row.len() as int);
    let ids = spec_perm_ids(elems, row);
    let c = queue + ids;
    assert forall|i: int, j: int| 0 <= i < j < c.len() implies c[i] != c[j] by {
        if j < queue.len() {
        } else if i >= queue.len() {
            assert(c[i] == elems[row[i - queue.len()] as int]);
            assert(c[j] == elems[row[j - queue.len()] as int]);
            assert(row[i - queue.len()] != row[j - queue.len()]);
        } else {
            assert(c[j] == elems[row[j - queue.len()] as int]);
            assert(elems.contains(c[j])) by {
                assert(elems[row[j - queue.len()] as int] == c[j]);
            }
            assert(!queue.contains(c[j]));
            if c[i] == c[j] {
                assert(queue.contains(c[j])) by {
                    assert(queue[i] == c[j]);
                }
            }
        }
    }
}

proof fn lemma_best_perm_shape(
    list: Seq<Modifier>,
    queue: Seq<ModifierId>,
    elems: Seq<ModifierId>,
    required: Seq<ModifierId>,
    n: int,
)
    requires
        forall|i: int, j: int| 0 <= i < j < queue.len() ==> queue[i] != queue[j],
        strictly_sorted(elems),
        forall|k: int| 0 <= k < elems.len() ==> !queue.contains(#[trigger] elems[k]),
        queue.len() + elems.len() <= 4,
        0 <= n <= spec_perms(elems.len() as int).len(),
    ensures
        match spec_best_perm_upto(list, queue, elems, required, n) {
            Some(p) => combo_shape(queue, p.0),
            None => true,
        },
    decreases n,
{
    if n > 0 {
        lemma_best_perm_shape(list, queue, elems, required, n - 1);
        let k = elems.len() as int;
        lemma_perms_positions(k);
        let row = spec_perms(k)[n - 1];
        lemma_combo_from_perm_shape(queue, elems, row);
    }
}

proof fn lemma_unordered_shape(
    m: Modifiers,
    queue: Seq<ModifierId>,
    unordered: Seq<ModifierId>,
    required: Seq<ModifierId>,
)
    requires
        forall|i: int, j: int| 0 <= i < j < queue.len() ==> queue[i] != queue[j],
        strictly_sorted(unordered),
    ensures
        match spec_unordered_value(m, queue, unordered, required) {
            Some(p) => combo_shape(queue, p.0),
            None => true,
        },
{
    lemma_diff_props(unordered, queue, unordered.len() as int);
    let elems = spec_diff(unordered, queue);
    if queue.len() + elems.len() <= 4 {
        lemma_best_perm_shape(
            m.by_id@,
            queue,
            elems,
            required,
            spec_perms(elems.len() as int).len() as int,
        );
    }
}

proof fn lemma_union_sorted(cands: Seq<SpecCand>, chosen: Seq<usize>, t: int)
    requires
        0 <= t,
    ensures
        strictly_sorted(spec_union_upto(cands, chosen, t)),
    decreases t,
{
    if t > 0 {
        lemma_union_sorted(cands, chosen, t - 1);
        let rec = cands[chosen[t - 1] - 1].1;
        lemma_add_sorted_props(spec_union_upto(cands, chosen, t - 1), rec, rec.len() as int);
    }
}

proof fn lemma_accept_shape(
    m: Modifiers,
    cands: Seq<SpecCand>,
    queue: Seq<ModifierId>,
    qprod: Seq<ModifierId>,
    chosen: Seq<usize>,
    i: int,
)
    requires
        forall|a: int, b: int| 0 <= a < b < queue.len() ==> queue[a] != queue[b],
    ensures
        match spec_accept(m, cands, queue, qprod, chosen, i) {
            Some(p) => combo_shape(queue, p.0),
            None => true,
        },
{
    lemma_union_sorted(cands, chosen, chosen.len() as int);
    let u0 = spec_union_upto(cands, chosen, chosen.len() as int);
    let cand = cands[i];
    lemma_add_sorted_props(u0, cand.1, cand.1.len() as int);
    let u1 = spec_add_sorted_upto(u0, cand.1, cand.1.len() as int);
    lemma_add_sorted_props(u1, queue, queue.len() as int);
    let uq = spec_add_sorted_upto(u1, queue, queue.len() as int);
    let required = qprod + spec_chosen_prod_upto(cands, chosen, chosen.len() as int) + (
    match cand.0 {
        Some(id) => seq![id],
        None => Seq::<ModifierId>::empty(),
    });
    lemma_unordered_shape(m, queue, uq, required);
}

proof fn lemma_scan_shape(
    m: Modifiers,
    cands: Seq<SpecCand>,
    queue: Seq<ModifierId>,
    qprod: Seq<ModifierId>,
    chosen: Seq<usize>,
    i: int,
)
    requires
        forall|a: int, b: int| 0 <= a < b < queue.len() ==> queue[a] != queue[b],
    ensures
        match spec_scan(m, cands, queue, qprod, chosen, i) {
            Some(p) => combo_shape(queue, p.1),
            None => true,
        },
    decreases cands.len() - i,
{
    if i >= cands.len() {
    } else {
        lemma_accept_shape(m, cands, queue, qprod, chosen, if i < 0 {
            0
        } else {
            i
        });
        lemma_scan_shape(m, cands, queue, qprod, chosen, i + 1);
    }
}

proof fn lemma_search_shape(
    m: Modifiers,
    cands: Seq<SpecCand>,
    queue: Seq<ModifierId>,
    qprod: Seq<ModifierId>,
    fillers: Seq<ModifierId>,
    stack: Seq<usize>,
    best: Option<(Seq<ModifierId>, u64)>,
    fuel: nat,
)
    requires
        forall|a: int, b: int| 0 <= a < b < queue.len() ==> queue[a] != queue[b],
        match best {
            Some(p) => combo_shape(queue, p.0),
            None => true,
        },
    ensures
        match spec_search(m, cands, queue, qprod, fillers, stack, best, fuel) {
            Some(c) => combo_shape(queue, c),
            None => true,
        },
    decreases fuel,
{
    if fuel == 0 || stack.len() == 0 {
    } else {
        let start = stack.last();
        let rest = stack.drop_last();
        lemma_scan_shape(m, cands, queue, qprod, rest, start as int);
        match spec_scan(m, cands, queue, qprod, rest, start as int) {
            None => {
                lemma_search_shape(m, cands, queue, qprod, fillers, rest, best, (fuel - 1) as nat);
            },
            Some((i, combo, v)) => {
                let pushed = rest.push((i + 1) as usize).push((i + 1) as usize);
                if combo.len() == 4 {
                    let prod = spec_produced(m.by_id@, combo);
                    let covered = crate::engine::spec_claimed_total(prod, prod.len() as int);
                    let fcov = crate::engine::spec_filler_claimed(prod, fillers, prod.len() as int);
                    if crate::seqs::sat_add(fcov, 4) == covered {
                    } else {
                        let keep = crate::seqs::sat_add(fcov, 4) <= crate::seqs::sat_add(covered, 2)
                            && (match best {
                            Some(p) => p.1 <= v,
                            None => true,
                        });
                        let best2 = if keep {
                            Some((combo, v))
                        } else {
                            best
                        };
                        lemma_search_shape(
                            m,
                            cands,
                            queue,
                            qprod,
                            fillers,
                            pushed,
                            best2,
                            (fuel - 1) as nat,
                        );
                    }
                } else {
                    lemma_search_shape(
                        m,
                        cands,
                        queue,
                        qprod,
                        fillers,
                        pushed,
                        best,
                        (fuel - 1) as nat,
                    );
                }
            },
        }
    }
}

proof fn lemma_active_shape(
    list: Seq<Modifier>,
    s: UserSettings,
    stash: Seq<(ModifierId, u64)>,
    queue: Seq<ModifierId>,
    n: int,
)
    requires
        settings_wf(list, s),
        0 <= n <= s.combo_roster@.len(),
    ensures
        match spec_active_upto(s, stash, queue, n) {
            Some(c) => combo_shape(queue, c),
            None => true,
        },
    decreases n,
{
    if n > 0 {
        lemma_active_shape(list, s, stash, queue, n - 1);
        if spec_active_upto(s, stash, queue, n - 1) is None {
            let combo = spec_roster_combo(s, n - 1);
            if spec_active_match(stash, queue, combo) {
                lemma_combo_index_props(
                    s.combo_catalog@,
                    s.combo_roster@[n - 1],
                    s.combo_catalog@.len() as int,
                );
                match spec_combo_index(s.combo_catalog@, s.combo_roster@[n - 1]) {
                    Some(ci) => {
                        assert(combo_ok(list, s.combo_catalog@[ci].combo@));
                    },
                    None => {},
                }
            }
        }
    }
}

/// Any combo the engine returns fits four slots, extends the queue
/// literally, and repeats no id.  (A queue with a repeated id — which a
/// recognizer never hands over — could only be extended to a repeating
/// combo, so the queue is required clean here.)
pub proof fn law_combo_shape(
    m: Modifiers,
    s: UserSettings,
    stash: Seq<(ModifierId, u64)>,
    queue: Seq<ModifierId>,
)
    requires
        m.wf(),
        settings_wf(m.by_id@, s),
        forall|i: int, j: int| 0 <= i < j < queue.len() ==> queue[i] != queue[j],
    ensures
        match spec_suggest(m, s, stash, queue) {
            Some(c) => combo_shape(queue, c),
            None => true,
        },
{
    if queue.len() == 4 {
    } else {
        lemma_active_shape(m.by_id@, s, stash, queue, s.combo_roster@.len() as int);
        if spec_active(s, stash, queue) is None {
            match spec_build_cands(m, s, stash, queue) {
                None => {},
                Some(cands) => {
                    let qp = spec_produced(m.by_id@, queue);
                    lemma_search_shape(
                        m,
                        cands,
                        queue,
                        crate::engine::spec_prod_values_upto(qp, qp.len() as int),
                        spec_filler_ids(m, s),
                        seq![0usize],
                        None,
                        crate::engine::STEP_BUDGET as nat,
                    );
                },
            }
        }
    }
}

// --- an unrelated stash yields nothing ------------------------------------

/// The component rows are exactly the recipe-graph expansions, as the
/// catalog constructor builds them.
pub open spec fn components_exact(m: Modifiers) -> bool {
    forall|i: int|
        0 <= i < m.by_id@.len() ==> Some((#[trigger] m.components@[i])@) == spec_component_row(
            m.by_id@,
            m.by_id@[i].id,
        )
}

/// The row has an entry under this key.
pub open spec fn row_has_key(row: Seq<(ModifierId, u64)>, x: ModifierId) -> bool {
    spec_key_index(row, x) is Some
}

/// A finished expansion extends its visit list.
proof fn lemma_expand_extends(
    list: Seq<Modifier>,
    stack: Seq<ModifierId>,
    visits: Seq<ModifierId>,
    fuel: nat,
)
    requires
        spec_expand(list, stack, visits, fuel) is Some,
    ensures
        spec_expand(list, stack, visits, fuel).unwrap().len() >= visits.len(),
        forall|j: int|
            0 <= j < visits.len() ==> spec_expand(list, stack, visits, fuel).unwrap()[j]
                == visits[j],
    decreases fuel,
{
    if stack.len() == 0 {
    } else {
        let id = stack.last();
        let ix = spec_index_of(list, id).unwrap();
        lemma_expand_extends(
            list,
            stack.drop_last() + list[ix].recipe@,
            visits.push(id),
            (fuel - 1) as nat,
        );
        let v = spec_expand(list, stack, visits, fuel).unwrap();
        assert forall|j: int| 0 <= j < visits.len() implies v[j] == visits[j] by {
            assert(v[j] == visits.push(id)[j]);
        }
    }
}

/// For a catalog id with an exact component row: every recipe member of
/// the id, and of every id its row keys, is the id itself or keys a row
/// entry.
proof fn lemma_row_closure(m: Modifiers, id: ModifierId)
    requires
        m.wf(),
        components_exact(m),
        crate::catalog::has_id(m.by_id@, id),
    ensures
        forall|k: int|
            0 <= k < spec_mod(m.by_id@, id).recipe@.len() ==> (#[trigger] spec_mod(
                m.by_id@,
                id,
            ).recipe@[k]) == id || row_has_key(
                spec_components_of(m, id),
                spec_mod(m.by_id@, id).recipe@[k],
            ),
        forall|t: int, k: int|
            0 <= t < spec_components_of(m, id).len() && 0 <= k < spec_mod(
                m.by_id@,
                (#[trigger] spec_components_of(m, id)[t]).0,
            ).recipe@.len() ==> (#[trigger] spec_mod(
                m.by_id@,
                spec_components_of(m, id)[t].0,
            ).recipe@[k]) == id || row_has_key(
                spec_components_of(m, id),
                spec_mod(m.by_id@, spec_components_of(m, id)[t].0).recipe@[k],
            ),
{
    let list = m.by_id@;
    let idx = spec_index_of(list, id).unwrap();
    lemma_index_of_upto_props(list, id, list.len() as int);
    assert(Some(m.components@[idx]@) == spec_component_row(list, list[idx].id));
    let v = spec_expand(list, seq![id], Seq::empty(), EXPAND_FUEL as nat).unwrap();
    let row = spec_components_of(m, id);
    assert(row == spec_counts(v.drop_first(), v.len() - 1));
    lemma_expand_closure(list, seq![id], Seq::empty(), EXPAND_FUEL as nat);
    lemma_expand_extends(list, seq![id], Seq::empty(), EXPAND_FUEL as nat);
    assert(v.contains(id)) by {
        assert(seq![id][0] == id);
        assert(seq![id].contains(id));
    }
    lemma_counts_keys(v.drop_first(), v.len() - 1);
    lemma_counts_have_keys(v.drop_first(), v.len() - 1);
    // v[0] is the root itself
    assert(v.len() >= 1);
    assert(v[0] == id) by {
        assert(spec_expand(list, seq![id], Seq::empty(), EXPAND_FUEL as nat) == spec_expand(
            list,
            seq![id].drop_last() + list[idx].recipe@,
            Seq::empty().push(id),
            (EXPAND_FUEL - 1) as nat,
        ));
        lemma_expand_extends(
            list,
            seq![id].drop_last() + list[idx].recipe@,
            Seq::empty().push(id),
            (EXPAND_FUEL - 1) as nat,
        );
        assert(Seq::empty().push(id)[0] == id);
    }
    // membership in v is: the root, or a row key
    assert forall|y: ModifierId| v.contains(y) implies y == id || row_has_key(row, y) by {
        if y != id {
            let j = choose|j: int| 0 <= j < v.len() && v[j] == y;
            assert(v.drop_first()[j - 1] == y);
            assert(spec_key_index(row, v.drop_first()[j - 1]) is Some);
        }
    }
    assert forall|y: ModifierId| row_has_key(row, y) implies v.contains(y) by {
        lemma_key_index_props(row, y, row.len() as int);
        let t = choose|t: int| 0 <= t < row.len() && row[t].0 == y;
        assert(v.drop_first().contains(row[t].0));
        let w = choose|w: int| 0 <= w < v.drop_first().len() && v.drop_first()[w] == y;
        assert(v[w + 1] == y);
    }
    // the closure property, phrased over spec_mod
    assert forall|y: ModifierId| v.contains(y) implies spec_index_of(list, y) is Some && (
    forall|k: int|
        0 <= k < spec_mod(list, y).recipe@.len() ==> v.contains(
            #[trigger] spec_mod(list, y).recipe@[k],
        )) by {
        assert(!Seq::<ModifierId>::empty().contains(y));
    }
    assert forall|k: int|
        0 <= k < spec_mod(list, id).recipe@.len() implies (#[trigger] spec_mod(
        list,
        id,
    ).recipe@[k]) == id || row_has_key(row, spec_mod(list, id).recipe@[k]) by {
        assert(v.contains(spec_mod(list, id).recipe@[k]));
    }
    assert forall|t: int, k: int|
        0 <= t < row.len() && 0 <= k < spec_mod(list, (#[trigger] row[t]).0).recipe@.len() implies (
    #[trigger] spec_mod(list, row[t].0).recipe@[k]) == id || row_has_key(
        row,
        spec_mod(list, row[t].0).recipe@[k],
    ) by {
        assert(row_has_key(row, row[t].0)) by {
            lemma_key_index_props(row, row[t].0, row.len() as int);
            if spec_key_index(row, row[t].0) is None {
                assert(row[t].0 != row[t].0);
            }
        }
        assert(v.contains(row[t].0));
        assert(v.contains(spec_mod(list, row[t].0).recipe@[k]));
    }
}

/// Used-id lists grow along the roster.
proof fn lemma_used_monotone(m: Modifiers, s: UserSettings, a: int, b: int)
    requires
        0 <= a <= b,
    ensures
        forall|x: ModifierId|
            spec_used_ids_upto(m, s, a).contains(x) ==> spec_used_ids_upto(m, s, b).contains(x),
    decreases b - a,
{
    if a < b {
        lemma_used_monotone(m, s, a, b - 1);
        let prev = spec_used_ids_upto(m, s, b - 1);
        let cur = spec_used_ids_upto(m, s, b);
        assert forall|x: ModifierId| prev.contains(x) implies cur.contains(x) by {
            let j = choose|j: int| 0 <= j < prev.len() && prev[j] == x;
            if b - 1 <= 0 {
            } else {
                assert(cur[j] == x);
            }
        }
    }
}

/// What a combo's used-id list holds: each member and its row keys.
proof fn lemma_combo_used_contains(m: Modifiers, combo: Seq<ModifierId>, n: int)
    requires
        0 <= n <= combo.len(),
    ensures
        forall|j: int|
            0 <= j < n ==> spec_combo_used_upto(m, combo, n).contains(#[trigger] combo[j]),
        forall|j: int, t: int|
            0 <= j < n && 0 <= t < spec_components_of(m, combo[j]).len() ==> spec_combo_used_upto(
                m,
                combo,
                n,
            ).contains((#[trigger] spec_components_of(m, combo[j])[t]).0),
    decreases n,
{
    if n > 0 {
        lemma_combo_used_contains(m, combo, n - 1);
        let prev = spec_combo_used_upto(m, combo, n - 1);
        let row = spec_components_of(m, combo[n - 1]);
        let keys = spec_row_keys_upto(row, row.len() as int);
        let cur = spec_combo_used_upto(m, combo, n);
        assert(cur == prev + keys + seq![combo[n - 1]]);
        lemma_row_keys_index(row, row.len() as int);
        assert forall|j: int| 0 <= j < n implies cur.contains(#[trigger] combo[j]) by {
            if j < n - 1 {
                let w = choose|w: int| 0 <= w < prev.len() && prev[w] == combo[j];
                assert(cur[w] == combo[j]);
            } else {
                assert(cur[cur.len() - 1] == combo[n - 1]);
            }
        }
        assert forall|j: int, t: int|
            0 <= j < n && 0 <= t < spec_components_of(m, combo[j]).len() implies cur.contains(
            (#[trigger] spec_components_of(m, combo[j])[t]).0,
        ) by {
            if j < n - 1 {
                let y = spec_components_of(m, combo[j])[t].0;
                assert(prev.contains(y));
                let w = choose|w: int| 0 <= w < prev.len() && prev[w] == y;
                assert(cur[w] == y);
            } else {
                assert(keys[t] == row[t].0);
                assert(cur[prev.len() + t] == row[t].0);
            }
        }
    }
}

/// Row-key lists read the keys in order.
proof fn lemma_row_keys_index(row: Seq<(ModifierId, u64)>, n: int)
    requires
        0 <= n <= row.len(),
    ensures
        spec_row_keys_upto(row, n).len() == n,
        forall|t: int| 0 <= t < n ==> spec_row_keys_upto(row, n)[t] == (#[trigger] row[t]).0,
    decreases n,
{
    if n > 0 {
        lemma_row_keys_index(row, n - 1);
        let prev = spec_row_keys_upto(row, n - 1);
        let cur = spec_row_keys_upto(row, n);
        assert forall|t: int| 0 <= t < n implies cur[t] == (#[trigger] row[t]).0 by {
            if t < n - 1 {
                assert(cur[t] == prev[t]);
            }
        }
    }
}

/// The used-id set holds every roster member and every key of a roster
/// member's component row.
proof fn lemma_used_contains(m: Modifiers, s: UserSettings)
    ensures
        forall|r: int, j: int|
            0 <= r < s.combo_roster@.len() && 0 <= j < spec_roster_combo(s, r).len()
                ==> spec_used_ids(m, s).contains(#[trigger] spec_roster_combo(s, r)[j]),
        forall|r: int, j: int, t: int|
            0 <= r < s.combo_roster@.len() && 0 <= j < spec_roster_combo(s, r).len() && 0 <= t
                < spec_components_of(m, spec_roster_combo(s, r)[j]).len() ==> spec_used_ids(
                m,
                s,
            ).contains(
                (#[trigger] spec_components_of(m, spec_roster_combo(s, r)[j])[t]).0,
            ),
{
    assert forall|r: int, j: int|
        0 <= r < s.combo_roster@.len() && 0 <= j < spec_roster_combo(s, r).len()
            implies spec_used_ids(m, s).contains(#[trigger] spec_roster_combo(s, r)[j]) by {
        lemma_used_one(m, s, r);
        lemma_used_monotone(m, s, r + 1, s.combo_roster@.len() as int);
    }
    assert forall|r: int, j: int, t: int|
        0 <= r < s.combo_roster@.len() && 0 <= j < spec_roster_combo(s, r).len() && 0 <= t
            < spec_components_of(m, spec_roster_combo(s, r)[j]).len() implies spec_used_ids(
        m,
        s,
    ).contains((#[trigger] spec_components_of(m, spec_roster_combo(s, r)[j])[t]).0) by {
        lemma_used_one(m, s, r);
        lemma_used_monotone(m, s, r + 1, s.combo_roster@.len() as int);
    }
}

/// One roster entry's contribution to the used-id set.
proof fn lemma_used_one(m: Modifiers, s: UserSettings, r: int)
    requires
        0 <= r < s.combo_roster@.len(),
    ensures
        forall|j: int|
            0 <= j < spec_roster_combo(s, r).len() ==> spec_used_ids_upto(m, s, r + 1).contains(
                #[trigger] spec_roster_combo(s, r)[j],
            ),
        forall|j: int, t: int|
            0 <= j < spec_roster_combo(s, r).len() && 0 <= t < spec_components_of(
                m,
                spec_roster_combo(s, r)[j],
            ).len() ==> spec_used_ids_upto(m, s, r + 1).contains(
                (#[trigger] spec_components_of(m, spec_roster_combo(s, r)[j])[t]).0,
            ),
{
    let combo = spec_roster_combo(s, r);
    let prev = spec_used_ids_upto(m, s, r);
    let cu = spec_combo_used_upto(m, combo, combo.len() as int);
    let cur = spec_used_ids_upto(m, s, r + 1);
    assert(cur == prev + cu);
    lemma_combo_used_contains(m, combo, combo.len() as int);
    assert forall|j: int|
        0 <= j < combo.len() implies cur.contains(#[trigger] combo[j]) by {
        let w = choose|w: int| 0 <= w < cu.len() && cu[w] == combo[j];
        assert(cur[prev.len() + w] == combo[j]);
    }
    assert forall|j: int, t: int|
        0 <= j < combo.len() && 0 <= t < spec_components_of(m, combo[j]).len() implies cur.contains(
        (#[trigger] spec_components_of(m, combo[j])[t]).0,
    ) by {
        let y = spec_components_of(m, combo[j])[t].0;
        assert(cu.contains(y));
        let w = choose|w: int| 0 <= w < cu.len() && cu[w] == y;
        assert(cur[prev.len() + w] == y);
    }
}

/// Decompose membership in the used-id set.
proof fn lemma_used_decomp(m: Modifiers, s: UserSettings, n: int)
    requires
        0 <= n <= s.combo_roster@.len(),
    ensures
        forall|x: ModifierId|
            #[trigger] spec_used_ids_upto(m, s, n).contains(x) ==> exists|r: int|
                0 <= r < n && #[trigger] spec_combo_used_upto(
                    m,
                    spec_roster_combo(s, r),
                    spec_roster_combo(s, r).len() as int,
                ).contains(x),
    decreases n,
{
    if n > 0 {
        lemma_used_decomp(m, s, n - 1);
        let prev = spec_used_ids_upto(m, s, n - 1);
        let combo = spec_roster_combo(s, n - 1);
        let cu = spec_combo_used_upto(m, combo, combo.len() as int);
        let cur = spec_used_ids_upto(m, s, n);
        assert(cur == prev + cu);
        assert forall|x: ModifierId| #[trigger] cur.contains(x) implies exists|r: int|
            0 <= r < n && #[trigger] spec_combo_used_upto(
                m,
                spec_roster_combo(s, r),
                spec_roster_combo(s, r).len() as int,
            ).contains(x) by {
            let j = choose|j: int| 0 <= j < cur.len() && cur[j] == x;
            if j < prev.len() {
                assert(prev[j] == x);
                assert(prev.contains(x));
            } else {
                assert(cu[j - prev.len()] == x);
                assert(cu.contains(x));
            }
        }
    }
}

/// Decompose membership in one combo's used-id list.
proof fn lemma_combo_used_decomp(m: Modifiers, combo: Seq<ModifierId>, n: int)
    requires
        0 <= n <= combo.len(),
    ensures
        forall|x: ModifierId|
            #[trigger] spec_combo_used_upto(m, combo, n).contains(x) ==> exists|j: int|
                0 <= j < n && (x == #[trigger] combo[j] || row_has_key(
                    spec_components_of(m, combo[j]),
                    x,
                )),
    decreases n,
{
    if n > 0 {
        lemma_combo_used_decomp(m, combo, n - 1);
        let prev = spec_combo_used_upto(m, combo, n - 1);
        let row = spec_components_of(m, combo[n - 1]);
        let keys = spec_row_keys_upto(row, row.len() as int);
        let cur = spec_combo_used_upto(m, combo, n);
        lemma_row_keys_index(row, row.len() as int);
        assert forall|x: ModifierId| #[trigger] cur.contains(x) implies exists|j: int|
            0 <= j < n && (x == #[trigger] combo[j] || row_has_key(
                spec_components_of(m, combo[j]),
                x,
            )) by {
            let w = choose|w: int| 0 <= w < cur.len() && cur[w] == x;
            if w < prev.len() {
                assert(prev.contains(x)) by {
                    assert(prev[w] == x);
                }
            } else if w < prev.len() + keys.len() {
                assert(keys[w - prev.len()] == x);
                assert(row[w - prev.len()].0 == x);
                assert(row_has_key(row, x)) by {
                    lemma_key_index_props(row, x, row.len() as int);
                    if spec_key_index(row, x) is None {
                        assert(row[w - prev.len()].0 != x);
                    }
                }
                assert(0 <= n - 1 < n && (x == combo[n - 1] || row_has_key(
                    spec_components_of(m, combo[n - 1]),
                    x,
                )));
            } else {
                assert(cur[w] == combo[n - 1]);
                assert(0 <= n - 1 < n && x == combo[n - 1]);
            }
        }
    }
}

/// The used-id set is closed under recipes: a used id's recipe members
/// are used as well, and every used id resolves in the catalog.
#[verifier::rlimit(100)]
proof fn lemma_used_closed(m: Modifiers, s: UserSettings)
    requires
        m.wf(),
        settings_wf(m.by_id@, s),
        components_exact(m),
    ensures
        forall|x: ModifierId|
            #[trigger] spec_used_ids(m, s).contains(x) ==> crate::catalog::has_id(m.by_id@, x),
        forall|x: ModifierId, k: int|
            spec_used_ids(m, s).contains(x) && 0 <= k < spec_mod(m.by_id@, x).recipe@.len()
                ==> spec_used_ids(m, s).contains(#[trigger] spec_mod(m.by_id@, x).recipe@[k]),
{
    let list = m.by_id@;
    lemma_used_decomp(m, s, s.combo_roster@.len() as int);
    lemma_used_contains(m, s);
    assert forall|x: ModifierId|
        #[trigger] spec_used_ids(m, s).contains(x) implies crate::catalog::has_id(list, x)
        && (forall|k: int|
        0 <= k < spec_mod(list, x).recipe@.len() ==> spec_used_ids(m, s).contains(
            #[trigger] spec_mod(list, x).recipe@[k],
        )) by {
        let r = choose|r: int|
            0 <= r < s.combo_roster@.len() && #[trigger] spec_combo_used_upto(
                m,
                spec_roster_combo(s, r),
                spec_roster_combo(s, r).len() as int,
            ).contains(x);
        let combo = spec_roster_combo(s, r);
        lemma_combo_used_decomp(m, combo, combo.len() as int);
        let j = choose|j: int|
            0 <= j < combo.len() && (x == #[trigger] combo[j] || row_has_key(
                spec_components_of(m, combo[j]),
                x,
            ));
        let member = combo[j];
        assert(crate::catalog::has_id(list, member)) by {
            lemma_roster_member_resolves(m, s, r, j);
        }
        lemma_row_closure(m, member);
        let row = spec_components_of(m, member);
        let midx = spec_index_of(list, member).unwrap();
        lemma_index_of_upto_props(list, member, list.len() as int);
        if x == member {
            assert forall|k: int|
                0 <= k < spec_mod(list, x).recipe@.len() implies spec_used_ids(m, s).contains(
                #[trigger] spec_mod(list, x).recipe@[k],
            ) by {
                let rm = spec_mod(list, x).recipe@[k];
                assert(rm == member || row_has_key(row, rm));
                if rm != member {
                    lemma_key_index_props(row, rm, row.len() as int);
                    let t = choose|t: int| 0 <= t < row.len() && row[t].0 == rm;
                    assert(spec_used_ids(m, s).contains(row[t].0));
                }
            }
        } else {
            lemma_key_index_props(row, x, row.len() as int);
            let t0 = choose|t0: int| 0 <= t0 < row.len() && row[t0].0 == x;
            assert(crate::catalog::has_id(list, x)) by {
                assert(m.components@[midx]@[t0].0 == x);
            }
            assert forall|k: int|
                0 <= k < spec_mod(list, x).recipe@.len() implies spec_used_ids(m, s).contains(
                #[trigger] spec_mod(list, x).recipe@[k],
            ) by {
                let rm = spec_mod(list, x).recipe@[k];
                assert(rm == member || row_has_key(row, rm));
                if rm != member {
                    lemma_key_index_props(row, rm, row.len() as int);
                    let t = choose|t: int| 0 <= t < row.len() && row[t].0 == rm;
                    assert(spec_used_ids(m, s).contains(row[t].0));
                }
            }
        }
    }
}

/// Nothing related to a roster combo is owned.
pub open spec fn stash_unrelated(
    m: Modifiers,
    s: UserSettings,
    stash: Seq<(ModifierId, u64)>,
) -> bool {
    forall|id: ModifierId|
        #[trigger] spec_stash_count(stash, id) > 0 ==> !spec_used_ids(m, s).contains(id)
}

/// With an empty queue the difference is the set itself.
proof fn lemma_diff_full(sq: Seq<ModifierId>, queue: Seq<ModifierId>, n: int)
    requires
        queue.len() == 0,
        0 <= n <= sq.len(),
    ensures
        spec_diff_upto(sq, queue, n) == sq.subrange(0, n),
    decreases n,
{
    if n > 0 {
        lemma_diff_full(sq, queue, n - 1);
        assert(spec_diff_upto(sq, queue, n) =~= sq.subrange(0, n));
    }
}

/// Setting or bumping a count keeps the keys inside a containing list.
proof fn lemma_set_count_keys(
    acc: Seq<(ModifierId, u64)>,
    key: ModifierId,
    val: u64,
    target: Seq<ModifierId>,
)
    requires
        forall|k: int| 0 <= k < acc.len() ==> target.contains((#[trigger] acc[k]).0),
        target.contains(key),
    ensures
        forall|k: int|
            0 <= k < spec_set_count(acc, key, val).len() ==> target.contains(
                (#[trigger] spec_set_count(acc, key, val)[k]).0,
            ),
{
    lemma_key_index_props(acc, key, acc.len() as int);
}

proof fn lemma_bump_keys(
    acc: Seq<(ModifierId, u64)>,
    key: ModifierId,
    c: u64,
    target: Seq<ModifierId>,
)
    requires
        forall|k: int| 0 <= k < acc.len() ==> target.contains((#[trigger] acc[k]).0),
        target.contains(key),
    ensures
        forall|k: int|
            0 <= k < spec_bump_by(acc, key, c).len() ==> target.contains(
                (#[trigger] spec_bump_by(acc, key, c)[k]).0,
            ),
{
    lemma_key_index_props(acc, key, acc.len() as int);
}

proof fn lemma_add_row_keys(
    acc: Seq<(ModifierId, u64)>,
    row: Seq<(ModifierId, u64)>,
    t: int,
    target: Seq<ModifierId>,
)
    requires
        0 <= t <= row.len(),
        forall|k: int| 0 <= k < acc.len() ==> target.contains((#[trigger] acc[k]).0),
        forall|k: int| 0 <= k < row.len() ==> target.contains((#[trigger] row[k]).0),
    ensures
        forall|k: int|
            0 <= k < spec_add_row_upto(acc, row, t).len() ==> target.contains(
                (#[trigger] spec_add_row_upto(acc, row, t)[k]).0,
            ),
    decreases t,
{
    if t > 0 {
        lemma_add_row_keys(acc, row, t - 1, target);
        lemma_bump_keys(spec_add_row_upto(acc, row, t - 1), row[t - 1].0, row[t - 1].1, target);
    }
}

/// Required counts are keyed by used ids.
proof fn lemma_required_keys(m: Modifiers, s: UserSettings, r: int, j: int)
    requires
        0 <= r < s.combo_roster@.len(),
        0 <= j <= spec_roster_combo(s, r).len(),
    ensures
        forall|k: int|
            0 <= k < spec_required_upto(m, spec_roster_combo(s, r), j).len() ==> spec_used_ids(
                m,
                s,
            ).contains((#[trigger] spec_required_upto(m, spec_roster_combo(s, r), j)[k]).0),
    decreases j,
{
    if j > 0 {
        lemma_required_keys(m, s, r, j - 1);
        lemma_used_contains(m, s);
        let combo = spec_roster_combo(s, r);
        let used = spec_used_ids(m, s);
        let prev = spec_required_upto(m, combo, j - 1);
        let a = spec_set_count(prev, combo[j - 1], 1);
        lemma_set_count_keys(prev, combo[j - 1], 1, used);
        let row = spec_components_of(m, combo[j - 1]);
        assert(forall|k: int| 0 <= k < row.len() ==> used.contains((#[trigger] row[k]).0));
        lemma_add_row_keys(a, row, row.len() as int, used);
    }
}

/// With nothing related owned, no required id survives the candidate
/// filter.
proof fn lemma_entries_empty(
    m: Modifiers,
    s: UserSettings,
    stash: Seq<(ModifierId, u64)>,
    queue: Seq<ModifierId>,
    req: Seq<(ModifierId, u64)>,
    owned: Seq<(ModifierId, u64)>,
    whole: u64,
    t: int,
)
    requires
        m.wf(),
        settings_wf(m.by_id@, s),
        components_exact(m),
        stash_unrelated(m, s, stash),
        queue.len() == 0,
        0 <= t <= req.len(),
        forall|k: int|
            0 <= k < req.len() ==> spec_used_ids(m, s).contains((#[trigger] req[k]).0),
    ensures
        spec_entries_upto(m, queue, stash, req, owned, whole, t) == Seq::<
            (ModifierId, u64, u64, u64),
        >::empty(),
    decreases t,
{
    if t > 0 {
        lemma_entries_empty(m, s, stash, queue, req, owned, whole, t - 1);
        let id = req[t - 1].0;
        assert(spec_used_ids(m, s).contains(id));
        lemma_used_closed(m, s);
        let rec = spec_mod(m.by_id@, id).recipe@;
        if rec.len() > 0 {
            lemma_diff_full(rec, queue, rec.len() as int);
            let rem = spec_diff(rec, queue);
            assert(rem =~= rec);
            assert(spec_used_ids(m, s).contains(rec[0]));
            assert(spec_stash_count(stash, rem[0]) == 0);
            assert(!spec_entry_keep(m, queue, stash, id));
        } else {
            assert(!spec_entry_keep(m, queue, stash, id));
        }
    }
}

/// With nothing related owned, the roster yields no candidate entries.
proof fn lemma_raw_empty(
    m: Modifiers,
    s: UserSettings,
    stash: Seq<(ModifierId, u64)>,
    queue: Seq<ModifierId>,
    n: int,
)
    requires
        m.wf(),
        settings_wf(m.by_id@, s),
        components_exact(m),
        stash_unrelated(m, s, stash),
        queue.len() == 0,
        0 <= n <= s.combo_roster@.len(),
    ensures
        spec_raw_upto(m, s, stash, queue, n) is None || spec_raw_upto(m, s, stash, queue, n)
            == Some(Seq::<(ModifierId, u64, u64, u64)>::empty()),
    decreases n,
{
    if n > 0 {
        lemma_raw_empty(m, s, stash, queue, n - 1);
        match spec_raw_upto(m, s, stash, queue, n - 1) {
            None => {},
            Some(p) => {
                let combo = spec_roster_combo(s, n - 1);
                let req = spec_required_upto(m, combo, combo.len() as int);
                match crate::candidates::spec_owned_map(m, stash, combo) {
                    None => {},
                    Some(owned) => {
                        lemma_required_keys(m, s, n - 1, combo.len() as int);
                        lemma_entries_empty(
                            m,
                            s,
                            stash,
                            queue,
                            req,
                            owned,
                            n as u64,
                            req.len() as int,
                        );
                        assert(spec_raw_upto(m, s, stash, queue, n).unwrap() =~= Seq::<
                            (ModifierId, u64, u64, u64),
                        >::empty());
                    },
                }
            },
        }
    }
}

/// With nothing related owned and no empty roster combo, the fast path
/// finds nothing.
proof fn lemma_active_none(
    m: Modifiers,
    s: UserSettings,
    stash: Seq<(ModifierId, u64)>,
    queue: Seq<ModifierId>,
    n: int,
)
    requires
        m.wf(),
        settings_wf(m.by_id@, s),
        stash_unrelated(m, s, stash),
        queue.len() == 0,
        forall|r: int|
            0 <= r < s.combo_roster@.len() ==> (#[trigger] spec_roster_combo(s, r)).len() > 0,
        0 <= n <= s.combo_roster@.len(),
    ensures
        spec_active_upto(s, stash, queue, n) is None,
    decreases n,
{
    if n > 0 {
        lemma_active_none(m, s, stash, queue, n - 1);
        let combo = spec_roster_combo(s, n - 1);
        lemma_used_contains(m, s);
        assert(spec_used_ids(m, s).contains(combo[0]));
        assert(spec_stash_count(stash, combo[0]) == 0);
        assert(!spec_active_match(stash, queue, combo));
    }
}

/// What the filler set holds: catalog ids that are neither used nor
/// forbidden, and all of them.
proof fn lemma_filler_iff(m: Modifiers, s: UserSettings, n: int)
    requires
        0 <= n <= m.by_id@.len(),
    ensures
        forall|x: ModifierId|
            #[trigger] spec_filler_ids_upto(m, s, n).contains(x) ==> !spec_used_ids(
                m,
                s,
            ).contains(x) && !s.forbidden_modifier_ids@.contains(x),
        forall|i: int|
            0 <= i < n && !spec_used_ids(m, s).contains(#[trigger] m.by_id@[i].id)
                && !s.forbidden_modifier_ids@.contains(m.by_id@[i].id) ==> spec_filler_ids_upto(
                m,
                s,
                n,
            ).contains(m.by_id@[i].id),
    decreases n,
{
    if n > 0 {
        lemma_filler_iff(m, s, n - 1);
        let prev = spec_filler_ids_upto(m, s, n - 1);
        let cur = spec_filler_ids_upto(m, s, n);
        let id = m.by_id@[n - 1].id;
        assert forall|x: ModifierId| #[trigger] cur.contains(x) implies !spec_used_ids(
            m,
            s,
        ).contains(x) && !s.forbidden_modifier_ids@.contains(x) by {
            let j = choose|j: int| 0 <= j < cur.len() && cur[j] == x;
            if j < prev.len() {
                assert(prev[j] == x);
                assert(prev.contains(x));
            } else {
                assert(x == id);
            }
        }
        assert forall|i: int|
            0 <= i < n && !spec_used_ids(m, s).contains(#[trigger] m.by_id@[i].id)
                && !s.forbidden_modifier_ids@.contains(m.by_id@[i].id) implies cur.contains(
            m.by_id@[i].id,
        ) by {
            if i < n - 1 {
                assert(prev.contains(m.by_id@[i].id));
                let j = choose|j: int| 0 <= j < prev.len() && prev[j] == m.by_id@[i].id;
                assert(cur[j] == m.by_id@[i].id);
            } else {
                assert(cur[cur.len() - 1] == id);
            }
        }
    }
}

/// Every usable filler is a filler, when nothing related is owned and
/// nothing is forbidden.
proof fn lemma_usable_in_fillers(m: Modifiers, s: UserSettings, stash: Seq<(ModifierId, u64)>)
    requires
        m.wf(),
        stash_unrelated(m, s, stash),
        s.forbidden_modifier_ids@.len() == 0,
    ensures
        forall|t: int|
            0 <= t < crate::candidates::spec_usable_fillers(m, s, stash).len()
                ==> spec_filler_ids(m, s).contains(
                #[trigger] crate::candidates::spec_usable_fillers(m, s, stash)[t],
            ),
{
    let fillers = spec_filler_ids(m, s);
    let sorted = crate::candidates::spec_sort_desc(fillers, stash);
    let usable = crate::candidates::spec_owned_filter_upto(sorted, stash, sorted.len() as int);
    crate::candidates::lemma_sort_desc_members(fillers, stash, fillers.len() as int);
    lemma_owned_filter_in(sorted, stash, sorted.len() as int);
    lemma_filler_iff(m, s, m.by_id@.len() as int);
    let uf = crate::candidates::spec_usable_fillers(m, s, stash);
    if usable.len() < 2 {
        let fb = crate::candidates::spec_fallback_upto(m, stash, m.by_id@.len() as int);
        lemma_fallback_members(m, stash, m.by_id@.len() as int);
        crate::candidates::lemma_sort_desc_members(fb, stash, fb.len() as int);
        assert forall|t: int| 0 <= t < uf.len() implies fillers.contains(#[trigger] uf[t]) by {
            assert(uf.contains(uf[t]));
            let j = choose|j: int| 0 <= j < fb.len() && #[trigger] fb[j] == uf[t];
            let y = fb[j];
            assert(spec_stash_count(stash, y) > 3);
            assert(spec_stash_count(stash, y) > 0);
            assert(!spec_used_ids(m, s).contains(y));
            assert(!s.forbidden_modifier_ids@.contains(y));
        }
    } else {
        assert forall|t: int| 0 <= t < uf.len() implies fillers.contains(#[trigger] uf[t]) by {
            assert(usable.contains(uf[t]));
            assert(sorted.contains(uf[t]));
        }
    }
}

/// Members of the owned filter come from the sorted list.
proof fn lemma_owned_filter_in(
    sorted: Seq<ModifierId>,
    stash: Seq<(ModifierId, u64)>,
    n: int,
)
    requires
        0 <= n <= sorted.len(),
    ensures
        forall|k: int|
            0 <= k < crate::candidates::spec_owned_filter_upto(sorted, stash, n).len()
                ==> sorted.contains(
                #[trigger] crate::candidates::spec_owned_filter_upto(sorted, stash, n)[k],
            ),
    decreases n,
{
    if n > 0 {
        lemma_owned_filter_in(sorted, stash, n - 1);
        let prev = crate::candidates::spec_owned_filter_upto(sorted, stash, n - 1);
        let cur = crate::candidates::spec_owned_filter_upto(sorted, stash, n);
        assert(sorted.contains(sorted[n - 1]));
        assert forall|k: int| 0 <= k < cur.len() implies sorted.contains(cur[k]) by {
            if k < prev.len() {
                assert(cur[k] == prev[k]);
            }
        }
    }
}

/// Fallback entries are abundantly owned catalog ids.
proof fn lemma_fallback_members(m: Modifiers, stash: Seq<(ModifierId, u64)>, n: int)
    requires
        0 <= n <= m.by_id@.len(),
    ensures
        forall|k: int|
            0 <= k < crate::candidates::spec_fallback_upto(m, stash, n).len() ==> (exists|i: int|
                0 <= i < m.by_id@.len() && #[trigger] m.by_id@[i].id
                    == crate::candidates::spec_fallback_upto(m, stash, n)[k]) && spec_stash_count(
                stash,
                #[trigger] crate::candidates::spec_fallback_upto(m, stash, n)[k],
            ) > 3,
    decreases n,
{
    if n > 0 {
        lemma_fallback_members(m, stash, n - 1);
        let prev = crate::candidates::spec_fallback_upto(m, stash, n - 1);
        let cur = crate::candidates::spec_fallback_upto(m, stash, n);
        assert forall|k: int| 0 <= k < cur.len() implies (exists|i: int|
            0 <= i < m.by_id@.len() && #[trigger] m.by_id@[i].id == cur[k]) && spec_stash_count(
            stash,
            cur[k],
        ) > 3 by {
            if k < prev.len() {
                assert(cur[k] == prev[k]);
            } else {
                assert(cur[k] == m.by_id@[n - 1].id);
                assert(0 <= n - 1 < m.by_id@.len() && m.by_id@[n - 1].id == cur[k]);
            }
        }
    }
}

/// Filler candidates read the usable fillers in order.
proof fn lemma_filler_cands_index(ids: Seq<ModifierId>, n: int)
    requires
        0 <= n <= ids.len(),
    ensures
        crate::candidates::spec_filler_cands_upto(ids, n).len() == n,
        forall|t: int|
            0 <= t < n ==> (#[trigger] crate::candidates::spec_filler_cands_upto(ids, n)[t]) == (
            None::<ModifierId>,
            seq![ids[t]],
        ),
    decreases n,
{
    if n > 0 {
        lemma_filler_cands_index(ids, n - 1);
        let prev = crate::candidates::spec_filler_cands_upto(ids, n - 1);
        let cur = crate::candidates::spec_filler_cands_upto(ids, n);
        assert forall|t: int| 0 <= t < n implies (#[trigger] cur[t]) == (
        None::<ModifierId>,
        seq![ids[t]],
        ) by {
            if t < n - 1 {
                assert(cur[t] == prev[t]);
            }
        }
    }
}

/// Subset id lists read the combo at the subset's positions.
proof fn lemma_subset_ids_index(combo: Seq<ModifierId>, subset: Seq<usize>, n: int)
    requires
        0 <= n <= subset.len(),
    ensures
        crate::produce::spec_subset_ids_upto(combo, subset, n).len() == n,
        forall|t: int|
            0 <= t < n ==> crate::produce::spec_subset_ids_upto(combo, subset, n)[t]
                == combo[#[trigger] subset[t] as int],
    decreases n,
{
    if n > 0 {
        lemma_subset_ids_index(combo, subset, n - 1);
        let prev = crate::produce::spec_subset_ids_upto(combo, subset, n - 1);
        let cur = crate::produce::spec_subset_ids_upto(combo, subset, n);
        assert forall|t: int| 0 <= t < n implies cur[t] == combo[#[trigger] subset[t] as int] by {
            if t < n - 1 {
                assert(cur[t] == prev[t]);
            }
        }
    }
}

/// Sorted keys hold exactly the folded ids, in a strictly sorted list of
/// no greater length.
proof fn lemma_sorted_key_props(ids: Seq<ModifierId>, n: int)
    requires
        0 <= n <= ids.len(),
    ensures
        strictly_sorted(crate::produce::spec_sorted_key_upto(ids, n)),
        crate::produce::spec_sorted_key_upto(ids, n).len() <= n,
        forall|y: ModifierId|
            #[trigger] crate::produce::spec_sorted_key_upto(ids, n).contains(y) ==> exists|j: int|
                0 <= j < n && #[trigger] ids[j] == y,
    decreases n,
{
    if n > 0 {
        lemma_sorted_key_props(ids, n - 1);
        let prev = crate::produce::spec_sorted_key_upto(ids, n - 1);
        let cur = crate::produce::spec_sorted_key_upto(ids, n);
        crate::seqs::lemma_insert_sorted_props(prev, ids[n - 1]);
        assert forall|y: ModifierId| #[trigger] cur.contains(y) implies exists|j: int|
            0 <= j < n && #[trigger] ids[j] == y by {
            if prev.contains(y) {
                let j = choose|j: int| 0 <= j < n - 1 && #[trigger] ids[j] == y;
                assert(0 <= j < n && ids[j] == y);
            } else {
                assert(y == ids[n - 1]);
            }
        }
    }
}

/// What the resolver's entries are: a known non-empty recipe of at most
/// four ids, all from the combo, and the modifier it produces.
proof fn lemma_produced_entries(list: Seq<Modifier>, combo: Seq<ModifierId>, n: int)
    requires
        combo.len() <= 4,
        0 <= n <= crate::produce::spec_subsets(combo.len() as int).len(),
    ensures
        crate::produce::spec_produced_upto(list, combo, n).1.len() <= n,
        forall|k: int|
            0 <= k < crate::produce::spec_produced_upto(list, combo, n).1.len() ==> {
                let e = #[trigger] crate::produce::spec_produced_upto(list, combo, n).1[k];
                &&& (exists|mi: int|
                    0 <= mi < list.len() && (#[trigger] list[mi].recipe)@ == e.0 && list[mi].id
                        == e.1)
                &&& 1 <= e.0.len() <= 4
                &&& forall|w: int| 0 <= w < e.0.len() ==> combo.contains(#[trigger] e.0[w])
            },
    decreases n,
{
    if n > 0 {
        lemma_produced_entries(list, combo, n - 1);
        lemma_perms_positions(0);
        crate::produce::lemma_subsets_positions(combo.len() as int);
        let prev = crate::produce::spec_produced_upto(list, combo, n - 1);
        let cur = crate::produce::spec_produced_upto(list, combo, n);
        let subset = crate::produce::spec_subsets(combo.len() as int)[n - 1];
        let ids = crate::produce::spec_subset_ids(combo, subset);
        lemma_subset_ids_index(combo, subset, subset.len() as int);
        let key = crate::produce::spec_sorted_key(ids);
        lemma_sorted_key_props(ids, ids.len() as int);
        assert forall|k: int| 0 <= k < cur.1.len() implies {
            let e = #[trigger] cur.1[k];
            &&& (exists|mi: int|
                0 <= mi < list.len() && (#[trigger] list[mi].recipe)@ == e.0 && list[mi].id == e.1)
            &&& 1 <= e.0.len() <= 4
            &&& forall|w: int| 0 <= w < e.0.len() ==> combo.contains(#[trigger] e.0[w])
        } by {
            if k < prev.1.len() {
                assert(cur.1[k] == prev.1[k]);
            } else {
                // the newly accepted subset
                crate::catalog::lemma_index_of_recipe_upto_props(list, key, list.len() as int);
                let mi = crate::catalog::spec_index_of_recipe(list, key).unwrap();
                assert(list[mi].recipe@ == key && list[mi].id == cur.1[k].1);
                assert(cur.1[k].0 == key);
                assert(key.len() >= 1);
                assert(key.len() <= ids.len());
                assert forall|w: int| 0 <= w < key.len() implies combo.contains(
                    #[trigger] key[w],
                ) by {
                    assert(key.contains(key[w]));
                    let j = choose|j: int| 0 <= j < ids.len() && #[trigger] ids[j] == key[w];
                    assert(ids[j] == combo[subset[j] as int]);
                    assert(combo.contains(combo[subset[j] as int]));
                }
            }
        }
    }
}

/// When a combo holds only fillers, everything it produces is a filler.
#[verifier::rlimit(100)]
proof fn lemma_produced_fillers(
    m: Modifiers,
    s: UserSettings,
    combo: Seq<ModifierId>,
)
    requires
        m.wf(),
        settings_wf(m.by_id@, s),
        components_exact(m),
        s.forbidden_modifier_ids@.len() == 0,
        combo.len() <= 4,
        forall|t: int| 0 <= t < combo.len() ==> spec_filler_ids(m, s).contains(#[trigger] combo[t]),
    ensures
        forall|k: int|
            0 <= k < spec_produced(m.by_id@, combo).len() ==> spec_filler_ids(m, s).contains(
                (#[trigger] spec_produced(m.by_id@, combo)[k]).1,
            ) && (#[trigger] spec_produced(m.by_id@, combo)[k]).0.len() <= 4,
{
    let list = m.by_id@;
    let tbl_len = crate::produce::spec_subsets(combo.len() as int).len() as int;
    lemma_produced_entries(list, combo, tbl_len);
    lemma_used_closed(m, s);
    lemma_filler_iff(m, s, list.len() as int);
    let prod = spec_produced(list, combo);
    assert forall|k: int| 0 <= k < prod.len() implies spec_filler_ids(m, s).contains(
        (#[trigger] prod[k]).1,
    ) && prod[k].0.len() <= 4 by {
        let e = prod[k];
        let mi = choose|mi: int|
            0 <= mi < list.len() && (#[trigger] list[mi].recipe)@ == e.0 && list[mi].id == e.1;
        let p = e.1;
        if spec_used_ids(m, s).contains(p) {
            // then the recipe that produced it would be used as well
            lemma_index_of_upto_props(list, p, list.len() as int);
            let idx = spec_index_of(list, p).unwrap();
            assert(list[idx].id == p);
            assert(idx == mi) by {
                if idx != mi {
                    assert(list[idx].id != list[mi].id);
                }
            }
            assert(spec_mod(list, p).recipe@ == e.0);
            assert(spec_used_ids(m, s).contains(e.0[0]));
            assert(combo.contains(e.0[0]));
            let w = choose|w: int| 0 <= w < combo.len() && combo[w] == e.0[0];
            assert(spec_filler_ids(m, s).contains(combo[w]));
            assert(false);
        }
        assert(spec_filler_ids_upto(m, s, list.len() as int).contains(list[mi].id));
    }
}

/// Saturated totals over filler-produced entries coincide and stay small.
proof fn lemma_claimed_equal(
    prod: Seq<(Seq<ModifierId>, ModifierId)>,
    fillers: Seq<ModifierId>,
    t: int,
)
    requires
        0 <= t <= prod.len(),
        prod.len() <= 16,
        forall|k: int|
            0 <= k < prod.len() ==> fillers.contains((#[trigger] prod[k]).1) && prod[k].0.len()
                <= 4,
    ensures
        crate::engine::spec_filler_claimed(prod, fillers, t) == crate::engine::spec_claimed_total(
            prod,
            t,
        ),
        crate::engine::spec_claimed_total(prod, t) <= 4 * t,
    decreases t,
{
    if t > 0 {
        lemma_claimed_equal(prod, fillers, t - 1);
    }
}

/// The candidate union reads only the candidates' claimed ids.
proof fn lemma_union_members(
    cands: Seq<SpecCand>,
    fillers: Seq<ModifierId>,
    chosen: Seq<usize>,
    t: int,
)
    requires
        0 <= t <= chosen.len(),
        forall|a: int| 0 <= a < chosen.len() ==> 1 <= #[trigger] chosen[a] <= cands.len(),
        forall|c: int, w: int|
            0 <= c < cands.len() && 0 <= w < (#[trigger] cands[c]).1.len() ==> fillers.contains(
                #[trigger] cands[c].1[w],
            ),
    ensures
        forall|y: ModifierId|
            #[trigger] spec_union_upto(cands, chosen, t).contains(y) ==> fillers.contains(y),
    decreases t,
{
    if t > 0 {
        lemma_union_members(cands, fillers, chosen, t - 1);
        let prev = spec_union_upto(cands, chosen, t - 1);
        let rec = cands[chosen[t - 1] - 1].1;
        lemma_union_sorted(cands, chosen, t - 1);
        lemma_add_sorted_props(prev, rec, rec.len() as int);
        let cur = spec_union_upto(cands, chosen, t);
        assert forall|y: ModifierId| #[trigger] cur.contains(y) implies fillers.contains(y) by {
            if !prev.contains(y) {
                assert(rec.subrange(0, rec.len() as int).contains(y));
                let w = choose|w: int|
                    0 <= w < rec.len() && #[trigger] rec.subrange(0, rec.len() as int)[w] == y;
                assert(rec[w] == y);
                assert(fillers.contains(cands[chosen[t - 1] - 1].1[w]));
            }
        }
    }
}

/// Orderings of a candidate set read only its ids and the queue's.
proof fn lemma_best_perm_members(
    list: Seq<Modifier>,
    queue: Seq<ModifierId>,
    elems: Seq<ModifierId>,
    required: Seq<ModifierId>,
    n: int,
)
    requires
        elems.len() <= 4,
        0 <= n <= spec_perms(elems.len() as int).len(),
    ensures
        match spec_best_perm_upto(list, queue, elems, required, n) {
            Some(p) => forall|t: int|
                0 <= t < p.0.len() ==> queue.contains(#[trigger] p.0[t]) || elems.contains(
                    p.0[t],
                ),
            None => true,
        },
    decreases n,
{
    if n > 0 {
        lemma_best_perm_members(list, queue, elems, required, n - 1);
        let k = elems.len() as int;
        lemma_perms_positions(k);
        let row = spec_perms(k)[n - 1];
        lemma_perm_ids_index(elems, row, row.len() as int);
        let c = queue + spec_perm_ids(elems, row);
        assert forall|t: int| 0 <= t < c.len() implies queue.contains(#[trigger] c[t])
            || elems.contains(c[t]) by {
            if t < queue.len() {
                assert(queue[t] == c[t]);
            } else {
                assert(c[t] == elems[row[t - queue.len()] as int]);
                assert(elems.contains(elems[row[t - queue.len()] as int]));
            }
        }
    }
}

/// A scan hit is an acceptance at its index.
proof fn lemma_scan_gives_accept(
    m: Modifiers,
    cands: Seq<SpecCand>,
    queue: Seq<ModifierId>,
    qprod: Seq<ModifierId>,
    chosen: Seq<usize>,
    i: int,
)
    requires
        0 <= i,
    ensures
        match spec_scan(m, cands, queue, qprod, chosen, i) {
            Some(p) => 0 <= p.0 < cands.len() && spec_accept(m, cands, queue, qprod, chosen, p.0)
                == Some((p.1, p.2)),
            None => true,
        },
    decreases cands.len() - i,
{
    if i >= cands.len() {
    } else {
        lemma_scan_gives_accept(m, cands, queue, qprod, chosen, i + 1);
    }
}

/// A complete combo assembled from filler candidates is never kept: its
/// claimed slots all produce fillers, so its filler count stays four.
#[verifier::rlimit(100)]
proof fn lemma_complete_filler_combo(
    m: Modifiers,
    s: UserSettings,
    cands: Seq<SpecCand>,
    queue: Seq<ModifierId>,
    qprod: Seq<ModifierId>,
    fillers: Seq<ModifierId>,
    rest: Seq<usize>,
    i: int,
    combo: Seq<ModifierId>,
    v: u64,
)
    requires
        m.wf(),
        settings_wf(m.by_id@, s),
        components_exact(m),
        s.forbidden_modifier_ids@.len() == 0,
        fillers == spec_filler_ids(m, s),
        queue.len() == 0,
        forall|c: int, w: int|
            0 <= c < cands.len() && 0 <= w < (#[trigger] cands[c]).1.len() ==> fillers.contains(
                #[trigger] cands[c].1[w],
            ),
        forall|a: int| 0 <= a < rest.len() ==> 1 <= #[trigger] rest[a] <= cands.len(),
        0 <= i < cands.len(),
        spec_accept(m, cands, queue, qprod, rest, i) == Some((combo, v)),
        combo.len() == 4,
    ensures
        ({
            let prod = spec_produced(m.by_id@, combo);
            let covered = crate::engine::spec_claimed_total(prod, prod.len() as int);
            let fcov = crate::engine::spec_filler_claimed(prod, fillers, prod.len() as int);
            crate::seqs::sat_add(fcov, 4) != covered && !(crate::seqs::sat_add(fcov, 4)
                <= crate::seqs::sat_add(covered, 2))
        }),
{
    // every slot of the combo is a filler
    let cand = cands[i];
    let u0 = spec_union_upto(cands, rest, rest.len() as int);
    let u1 = spec_add_sorted_upto(u0, cand.1, cand.1.len() as int);
    let uq = spec_add_sorted_upto(u1, queue, queue.len() as int);
    let required_ = qprod + spec_chosen_prod_upto(cands, rest, rest.len() as int)
        + (match cand.0 {
        Some(id) => seq![id],
        None => Seq::<ModifierId>::empty(),
    });
    lemma_union_sorted(cands, rest, rest.len() as int);
    lemma_union_members(cands, fillers, rest, rest.len() as int);
    lemma_add_sorted_props(u0, cand.1, cand.1.len() as int);
    lemma_add_sorted_props(u1, queue, queue.len() as int);
    let elems = spec_diff(uq, queue);
    lemma_diff_props(uq, queue, uq.len() as int);
    assert(spec_accept(m, cands, queue, qprod, rest, i) == Some((combo, v)));
    assert(spec_unordered_value(m, queue, uq, required_) == Some((combo, v)));
    assert(queue.len() + elems.len() <= 4);
    assert(spec_best_perm_upto(
        m.by_id@,
        queue,
        elems,
        required_,
        spec_perms(elems.len() as int).len() as int,
    ) == Some((combo, v)));
    lemma_best_perm_members(
        m.by_id@,
        queue,
        elems,
        required_,
        spec_perms(elems.len() as int).len() as int,
    );
    let ghost bp = spec_best_perm_upto(
        m.by_id@,
        queue,
        elems,
        required_,
        spec_perms(elems.len() as int).len() as int,
    );
    assert forall|t: int|
        0 <= t < combo.len() implies fillers.contains(#[trigger] combo[t]) by {
        let p0 = bp.unwrap().0;
        assert(p0 == combo);
        assert(queue.contains(p0[t]) || elems.contains(p0[t]));
        assert(queue.contains(combo[t]) || elems.contains(combo[t]));
        if elems.contains(combo[t]) {
            let w = choose|w: int| 0 <= w < elems.len() && elems[w] == combo[t];
            assert(uq.subrange(0, uq.len() as int).contains(elems[w]));
            let w2 = choose|w2: int|
                0 <= w2 < uq.len() && #[trigger] uq.subrange(
                    0,
                    uq.len() as int,
                )[w2] == combo[t];
            assert(uq[w2] == combo[t]);
            assert(uq.contains(combo[t]));
            if u1.contains(combo[t]) {
                if u0.contains(combo[t]) {
                } else {
                    assert(cand.1.subrange(0, cand.1.len() as int).contains(
                        combo[t],
                    ));
                    let w3 = choose|w3: int|
                        0 <= w3 < cand.1.len() && #[trigger] cand.1.subrange(
                            0,
                            cand.1.len() as int,
                        )[w3] == combo[t];
                    assert(cand.1[w3] == combo[t]);
                    assert(fillers.contains(cands[i as int].1[w3]));
                }
            } else {
                assert(queue.subrange(0, queue.len() as int).contains(combo[t]));
            }
        } else {
            let w4 = choose|w4: int|
                0 <= w4 < queue.len() && queue[w4] == combo[t];
            assert(false);
        }
    }
    let prod = spec_produced(m.by_id@, combo);
    lemma_produced_fillers(m, s, combo);
    crate::produce::lemma_subsets_positions(combo.len() as int);
    lemma_produced_entries(
        m.by_id@,
        combo,
        crate::produce::spec_subsets(combo.len() as int).len() as int,
    );
    lemma_claimed_equal(prod, fillers, prod.len() as int);
    let covered = crate::engine::spec_claimed_total(prod, prod.len() as int);
    let fcov = crate::engine::spec_filler_claimed(prod, fillers, prod.len() as int);
    assert(fcov == covered && covered <= 64);
}

/// With only filler candidates and nothing related owned, the search
/// finds nothing to keep.
#[verifier::rlimit(100)]
proof fn lemma_search_none(
    m: Modifiers,
    s: UserSettings,
    cands: Seq<SpecCand>,
    queue: Seq<ModifierId>,
    qprod: Seq<ModifierId>,
    fillers: Seq<ModifierId>,
    stack: Seq<usize>,
    fuel: nat,
)
    requires
        m.wf(),
        settings_wf(m.by_id@, s),
        components_exact(m),
        s.forbidden_modifier_ids@.len() == 0,
        fillers == spec_filler_ids(m, s),
        queue.len() == 0,
        cands.len() < usize::MAX,
        forall|c: int, w: int|
            0 <= c < cands.len() && 0 <= w < (#[trigger] cands[c]).1.len() ==> fillers.contains(
                #[trigger] cands[c].1[w],
            ),
        forall|a: int| 0 <= a < stack.len() ==> #[trigger] stack[a] <= cands.len(),
        forall|a: int| 0 <= a < stack.len() && #[trigger] stack[a] == 0 ==> stack.len() == 1,
    ensures
        spec_search(m, cands, queue, qprod, fillers, stack, None, fuel) is None,
    decreases fuel,
{
    if fuel == 0 || stack.len() == 0 {
    } else {
        let start = stack.last();
        let rest = stack.drop_last();
        assert(forall|a: int| 0 <= a < rest.len() ==> 1 <= #[trigger] rest[a] <= cands.len()) by {
            assert(forall|a: int|
                0 <= a < rest.len() ==> rest[a] == stack[a] && stack[a] <= cands.len());
        }
        lemma_scan_gives_accept(m, cands, queue, qprod, rest, start as int);
        match spec_scan(m, cands, queue, qprod, rest, start as int) {
            None => {
                lemma_search_none(m, s, cands, queue, qprod, fillers, rest, (fuel - 1) as nat);
            },
            Some((i, combo, v)) => {
                let pushed = rest.push((i + 1) as usize).push((i + 1) as usize);
                assert(forall|a: int| 0 <= a < pushed.len() ==> #[trigger] pushed[a]
                    <= cands.len());
                assert forall|a: int|
                    0 <= a < pushed.len() && #[trigger] pushed[a] == 0 implies pushed.len() == 1 by {
                    if a < rest.len() {
                        assert(pushed[a] == rest[a]);
                    } else if a == rest.len() {
                        assert(pushed[a] == (i + 1) as usize);
                    } else {
                        assert(pushed[a] == (i + 1) as usize);
                    }
                }
                if combo.len() == 4 {
                    lemma_complete_filler_combo(m, s, cands, queue, qprod, fillers, rest, i, combo, v);
                    lemma_search_none(m, s, cands, queue, qprod, fillers, pushed, (fuel - 1) as nat);
                } else {
                    lemma_search_none(m, s, cands, queue, qprod, fillers, pushed, (fuel - 1) as nat);
                }
            },
        }
    }
}

/// Lengths of the filler pipeline stay bounded by the catalog size.
proof fn lemma_sort_desc_len(ids: Seq<ModifierId>, stash: Seq<(ModifierId, u64)>, n: int)
    requires
        0 <= n <= ids.len(),
    ensures
        crate::candidates::spec_sort_desc_upto(ids, stash, n).len() == n,
    decreases n,
{
    if n > 0 {
        lemma_sort_desc_len(ids, stash, n - 1);
        let prev = crate::candidates::spec_sort_desc_upto(ids, stash, n - 1);
        crate::candidates::lemma_desc_pos_bounds(prev, stash, ids[n - 1], prev.len() as int);
    }
}

proof fn lemma_owned_filter_len(sorted: Seq<ModifierId>, stash: Seq<(ModifierId, u64)>, n: int)
    requires
        0 <= n <= sorted.len(),
    ensures
        crate::candidates::spec_owned_filter_upto(sorted, stash, n).len() <= n,
    decreases n,
{
    if n > 0 {
        lemma_owned_filter_len(sorted, stash, n - 1);
    }
}

proof fn lemma_filler_len(m: Modifiers, s: UserSettings, n: int)
    requires
        0 <= n <= m.by_id@.len(),
    ensures
        spec_filler_ids_upto(m, s, n).len() <= n,
    decreases n,
{
    if n > 0 {
        lemma_filler_len(m, s, n - 1);
    }
}

proof fn lemma_fallback_len(m: Modifiers, stash: Seq<(ModifierId, u64)>, n: int)
    requires
        0 <= n <= m.by_id@.len(),
    ensures
        crate::candidates::spec_fallback_upto(m, stash, n).len() <= n,
    decreases n,
{
    if n > 0 {
        lemma_fallback_len(m, stash, n - 1);
    }
}

/// A stash holding only ids no roster combo needs — directly or as a
/// nested component — yields no suggestion: with an empty queue, nothing
/// forbidden and no empty roster combo, the fast path finds nothing and
/// the search can complete no target recipe.  (With a forbidden id or a
/// queued roster component the owned ids could still compose a non-filler
/// modifier, so those inputs stay outside this law.)
pub proof fn law_unrelated_stash(
    m: Modifiers,
    s: UserSettings,
    stash: Seq<(ModifierId, u64)>,
    queue: Seq<ModifierId>,
)
    requires
        m.wf(),
        settings_wf(m.by_id@, s),
        components_exact(m),
        m.by_id@.len() < usize::MAX,
        queue.len() == 0,
        s.forbidden_modifier_ids@.len() == 0,
        forall|r: int|
            0 <= r < s.combo_roster@.len() ==> (#[trigger] spec_roster_combo(s, r)).len() > 0,
        stash_unrelated(m, s, stash),
    ensures
        spec_suggest(m, s, stash, queue) is None,
{
    lemma_active_none(m, s, stash, queue, s.combo_roster@.len() as int);
    match spec_build_cands(m, s, stash, queue) {
        None => {},
        Some(cands) => {
            lemma_raw_empty(m, s, stash, queue, s.combo_roster@.len() as int);
            let raw = spec_raw_upto(m, s, stash, queue, s.combo_roster@.len() as int).unwrap();
            assert(raw.len() == 0);
            let sorted = crate::candidates::spec_sort_prio(raw);
            assert(sorted.len() == 0);
            let rc = crate::candidates::spec_roster_cands_upto(m.by_id@, sorted, 0);
            assert(rc.len() == 0);
            let uf = crate::candidates::spec_usable_fillers(m, s, stash);
            let fc = crate::candidates::spec_filler_cands_upto(uf, uf.len() as int);
            assert(cands == rc + fc);
            lemma_filler_cands_index(uf, uf.len() as int);
            lemma_usable_in_fillers(m, s, stash);
            let fillers = spec_filler_ids(m, s);
            assert forall|c: int, w: int|
                0 <= c < cands.len() && 0 <= w < (#[trigger] cands[c]).1.len()
                    implies fillers.contains(#[trigger] cands[c].1[w]) by {
                assert(cands[c] == fc[c]);
                assert(fc[c] == (None::<ModifierId>, seq![uf[c]]));
                assert(cands[c].1[w] == uf[c]);
            }
            // the candidate list stays within the catalog's size
            assert(cands.len() < usize::MAX) by {
                let fillers0 = spec_filler_ids(m, s);
                lemma_filler_len(m, s, m.by_id@.len() as int);
                lemma_sort_desc_len(fillers0, stash, fillers0.len() as int);
                let sorted0 = crate::candidates::spec_sort_desc(fillers0, stash);
                lemma_owned_filter_len(sorted0, stash, sorted0.len() as int);
                let fb = crate::candidates::spec_fallback_upto(m, stash, m.by_id@.len() as int);
                lemma_fallback_len(m, stash, m.by_id@.len() as int);
                lemma_sort_desc_len(fb, stash, fb.len() as int);
            }
            let qp = spec_produced(m.by_id@, queue);
            lemma_search_none(
                m,
                s,
                cands,
                queue,
                crate::engine::spec_prod_values_upto(qp, qp.len() as int),
                fillers,
                seq![0usize],
                crate::engine::STEP_BUDGET as nat,
            );
        },
    }
}

/// Roster combo members resolve in the catalog.
proof fn lemma_roster_member_resolves(m: Modifiers, s: UserSettings, r: int, j: int)
    requires
        m.wf(),
        settings_wf(m.by_id@, s),
        0 <= r < s.combo_roster@.len(),
        0 <= j < spec_roster_combo(s, r).len(),
    ensures
        crate::catalog::has_id(m.by_id@, spec_roster_combo(s, r)[j]),
{
    lemma_combo_index_props(s.combo_catalog@, s.combo_roster@[r], s.combo_catalog@.len() as int);
    match spec_combo_index(s.combo_catalog@, s.combo_roster@[r]) {
        Some(ci) => {
            assert(combo_ok(m.by_id@, s.combo_catalog@[ci].combo@));
        },
        None => {},
    }
}

} // verus!
