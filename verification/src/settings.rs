//! User settings: the curated combo catalog, the prioritized roster, the
//! forbidden ids — and the stash.

use vstd::prelude::*;
use crate::catalog::{has_id, spec_index_of, Modifier, ModifierId, Modifiers};
use crate::construct::{spec_key_index, key_index};

verus! {

/// Identifier of a user-curated combo.
pub type ComboId = u64;

/// A user-curated target combo: an ordered sequence of at most four
/// modifier ids under a label.
pub struct LabeledCombo {
    pub id: ComboId,
    pub label: String,
    pub combo: Vec<ModifierId>,
}

impl LabeledCombo {
    pub fn new(id: u64, label: String, combo: Vec<ModifierId>) -> (r: LabeledCombo)
        ensures
            r.id == id,
            r.label == label,
            r.combo == combo,
    {
        LabeledCombo { id, label, combo }
    }
}

/// The user's settings, as far as the suggestion engine reads them.
pub struct UserSettings {
    pub combo_catalog: Vec<LabeledCombo>,
    pub combo_roster: Vec<ComboId>,
    pub forbidden_modifier_ids: Vec<ModifierId>,
    pub hotkey: String,
    pub show_tiers: bool,
}

/// First combo in the catalog carrying this id, scanning `cs[..n]`.
pub open spec fn spec_combo_index_upto(cs: Seq<LabeledCombo>, cid: ComboId, n: int) -> Option<int>
    decreases n,
{
    if n <= 0 {
        None
    } else {
        match spec_combo_index_upto(cs, cid, n - 1) {
            Some(i) => Some(i),
            None => if cs[n - 1].id == cid {
                Some(n - 1)
            } else {
                None
            },
        }
    }
}

/// First combo in the catalog carrying this id.
pub open spec fn spec_combo_index(cs: Seq<LabeledCombo>, cid: ComboId) -> Option<int> {
    spec_combo_index_upto(cs, cid, cs.len() as int)
}

pub proof fn lemma_combo_index_props(cs: Seq<LabeledCombo>, cid: ComboId, n: int)
    requires
        0 <= n <= cs.len(),
    ensures
        match spec_combo_index_upto(cs, cid, n) {
            Some(i) => 0 <= i < n && cs[i].id == cid,
            None => forall|j: int| 0 <= j < n ==> cs[j].id != cid,
        },
    decreases n,
{
    if n > 0 {
        lemma_combo_index_props(cs, cid, n - 1);
    }
}

proof fn lemma_combo_index_extend(cs: Seq<LabeledCombo>, cid: ComboId, i: int, n: int)
    requires
        0 <= i < n <= cs.len(),
        spec_combo_index_upto(cs, cid, i) is None,
        cs[i].id == cid,
    ensures
        spec_combo_index_upto(cs, cid, n) == Some(i),
    decreases n,
{
    if n - 1 > i {
        lemma_combo_index_extend(cs, cid, i, n - 1);
    }
}

/// First combo in the catalog carrying this id.
pub fn combo_index(cs: &Vec<LabeledCombo>, cid: ComboId) -> (r: Option<usize>)
    ensures
        match r {
            Some(i) => spec_combo_index(cs@, cid) == Some(i as int) && i < cs@.len(),
            None => spec_combo_index(cs@, cid) is None,
        },
{
    let mut i: usize = 0;
    while i < cs.len()
        invariant
            0 <= i <= cs@.len(),
            spec_combo_index_upto(cs@, cid, i as int) is None,
        decreases cs@.len() - i,
    {
        if cs[i].id == cid {
            proof {
                lemma_combo_index_extend(cs@, cid, i as int, cs@.len() as int);
            }
            return Some(i);
        }
        i += 1;
    }
    None
}

/// One combo is acceptable: at most four slots, distinct ids, every id in
/// the catalog.
pub open spec fn combo_ok(list: Seq<Modifier>, combo: Seq<ModifierId>) -> bool {
    &&& combo.len() <= 4
    &&& forall|i: int, j: int| 0 <= i < j < combo.len() ==> combo[i] != combo[j]
    &&& forall|k: int| 0 <= k < combo.len() ==> has_id(list, #[trigger] combo[k])
}

/// The settings are acceptable against a catalog: every roster id resolves
/// to a curated combo and every curated combo is acceptable.  The engine
/// panics on nothing that satisfies this.
pub open spec fn roster_resolves(s: UserSettings) -> bool {
    forall|r: int|
        0 <= r < s.combo_roster@.len() ==> spec_combo_index(
            s.combo_catalog@,
            #[trigger] s.combo_roster@[r],
        ) is Some
}

pub open spec fn settings_wf(list: Seq<Modifier>, s: UserSettings) -> bool {
    &&& roster_resolves(s)
    &&& forall|c: int|
        0 <= c < s.combo_catalog@.len() ==> combo_ok(list, (#[trigger] s.combo_catalog@[c]).combo@)
}

/// The combo the roster entry at `r` points at (empty when the id does
/// not resolve; acceptable settings always resolve).
pub open spec fn spec_roster_combo(s: UserSettings, r: int) -> Seq<ModifierId> {
    match spec_combo_index(s.combo_catalog@, s.combo_roster@[r]) {
        Some(i) => s.combo_catalog@[i].combo@,
        None => Seq::empty(),
    }
}

/// Keys of a component row, in row order.
pub open spec fn spec_row_keys_upto(row: Seq<(ModifierId, u64)>, n: int) -> Seq<ModifierId>
    decreases n,
{
    if n <= 0 {
        Seq::empty()
    } else {
        spec_row_keys_upto(row, n - 1).push(row[n - 1].0)
    }
}

/// The component row of the modifier with this id.
pub open spec fn spec_components_of(m: Modifiers, id: ModifierId) -> Seq<(ModifierId, u64)> {
    m.components@[spec_index_of(m.by_id@, id).unwrap()]@
}

/// Ids a combo uses: for each member, the keys of its component row
/// followed by the member itself.
pub open spec fn spec_combo_used_upto(m: Modifiers, combo: Seq<ModifierId>, n: int) -> Seq<
    ModifierId,
>
    decreases n,
{
    if n <= 0 {
        Seq::empty()
    } else {
        let row = spec_components_of(m, combo[n - 1]);
        spec_combo_used_upto(m, combo, n - 1) + spec_row_keys_upto(row, row.len() as int) + seq![
            combo[n - 1],
        ]
    }
}

/// Ids used by the first `n` roster entries.
pub open spec fn spec_used_ids_upto(m: Modifiers, s: UserSettings, n: int) -> Seq<ModifierId>
    decreases n,
{
    if n <= 0 {
        Seq::empty()
    } else {
        let combo = spec_roster_combo(s, n - 1);
        spec_used_ids_upto(m, s, n - 1) + spec_combo_used_upto(m, combo, combo.len() as int)
    }
}

/// Every id that some roster combo needs, directly or through nested
/// recipes.
pub open spec fn spec_used_ids(m: Modifiers, s: UserSettings) -> Seq<ModifierId> {
    spec_used_ids_upto(m, s, s.combo_roster@.len() as int)
}

/// Catalog ids that are fillers: neither used by a roster combo nor
/// forbidden, in catalog order, up to catalog index `n`.
pub open spec fn spec_filler_ids_upto(m: Modifiers, s: UserSettings, n: int) -> Seq<ModifierId>
    decreases n,
{
    if n <= 0 {
        Seq::empty()
    } else {
        let prev = spec_filler_ids_upto(m, s, n - 1);
        let id = m.by_id@[n - 1].id;
        if !spec_used_ids(m, s).contains(id) && !s.forbidden_modifier_ids@.contains(id) {
            prev.push(id)
        } else {
            prev
        }
    }
}

/// Catalog ids that are fillers, in catalog order.
pub open spec fn spec_filler_ids(m: Modifiers, s: UserSettings) -> Seq<ModifierId> {
    spec_filler_ids_upto(m, s, m.by_id@.len() as int)
}

impl UserSettings {
    /// The catalog ids not required — directly or as a nested component —
    /// by any roster combo and not forbidden: the ids free to fill spare
    /// queue slots.  Returned in catalog order.
    pub fn get_filler_modifier_ids(&self, m: &Modifiers) -> (r: Vec<ModifierId>)
        requires
            m.wf(),
            settings_wf(m.by_id@, *self),
        ensures
            r@ == spec_filler_ids(*m, *self),
    {
        // gather the used ids, roster entry by roster entry
        let mut used: Vec<ModifierId> = Vec::new();
        let mut ri: usize = 0;
        while ri < self.combo_roster.len()
            invariant
                m.wf(),
                settings_wf(m.by_id@, *self),
                0 <= ri <= self.combo_roster@.len(),
                used@ == spec_used_ids_upto(*m, *self, ri as int),
            decreases self.combo_roster@.len() - ri,
        {
            let ci = match combo_index(&self.combo_catalog, self.combo_roster[ri]) {
                Some(ci) => ci,
                None => {
                    proof {
                        assert(false);
                    }
                    0
                },
            };
            let ghost combo_gh = spec_roster_combo(*self, ri as int);
            let combo_len = self.combo_catalog[ci].combo.len();
            let mut j: usize = 0;
            while j < combo_len
                invariant
                    m.wf(),
                    settings_wf(m.by_id@, *self),
                    ri < self.combo_roster@.len(),
                    ci < self.combo_catalog@.len(),
                    combo_gh == spec_roster_combo(*self, ri as int),
                    self.combo_catalog@[ci as int].combo@ == combo_gh,
                    combo_len == combo_gh.len(),
                    combo_ok(m.by_id@, combo_gh),
                    0 <= j <= combo_len,
                    used@ == spec_used_ids_upto(*m, *self, ri as int) + spec_combo_used_upto(
                        *m,
                        combo_gh,
                        j as int,
                    ),
                decreases combo_len - j,
            {
                let member = self.combo_catalog[ci].combo[j];
                let mi = match m.index_of(member) {
                    Some(mi) => mi,
                    None => {
                        proof {
                            assert(false);
                        }
                        0
                    },
                };
                let ghost row = spec_components_of(*m, member);
                let ghost used_mid = used@;
                let row_len = m.components[mi].len();
                let mut t: usize = 0;
                while t < row_len
                    invariant
                        mi < m.components@.len(),
                        row == m.components@[mi as int]@,
                        row_len == row.len(),
                        0 <= t <= row_len,
                        used@ == used_mid + spec_row_keys_upto(row, t as int),
                    decreases row_len - t,
                {
                    used.push(m.components[mi][t].0);
                    proof {
                        assert(used@ =~= used_mid + spec_row_keys_upto(row, t + 1));
                    }
                    t += 1;
                }
                used.push(member);
                proof {
                    assert(used@ =~= used_mid + spec_row_keys_upto(row, row.len() as int) + seq![
                        combo_gh[j as int],
                    ]);
                    assert(used@ =~= spec_used_ids_upto(*m, *self, ri as int)
                        + spec_combo_used_upto(*m, combo_gh, j + 1));
                }
                j += 1;
            }
            proof {
                assert(used@ =~= spec_used_ids_upto(*m, *self, ri + 1));
            }
            ri += 1;
        }
        // keep the catalog ids that are neither used nor forbidden
        let mut r: Vec<ModifierId> = Vec::new();
        let mut i: usize = 0;
        while i < m.by_id.len()
            invariant
                m.wf(),
                settings_wf(m.by_id@, *self),
                used@ == spec_used_ids(*m, *self),
                0 <= i <= m.by_id@.len(),
                r@ == spec_filler_ids_upto(*m, *self, i as int),
            decreases m.by_id@.len() - i,
        {
            let id = m.by_id[i].id;
            let used_here = crate::seqs::contains_id(&used, id);
            let forbidden_here = crate::seqs::contains_id(&self.forbidden_modifier_ids, id);
            if !used_here && !forbidden_here {
                r.push(id);
            }
            i += 1;
        }
        r
    }
}

/// How many of this modifier the stash owns.
pub open spec fn spec_stash_count(stash: Seq<(ModifierId, u64)>, id: ModifierId) -> u64 {
    match spec_key_index(stash, id) {
        Some(i) => stash[i].1,
        None => 0,
    }
}

/// How many of this modifier the stash owns.
pub fn owned_modifier_count(stash: &Vec<(ModifierId, u64)>, modifier_id: ModifierId) -> (r: u64)
    ensures
        r == spec_stash_count(stash@, modifier_id),
{
    match key_index(stash, modifier_id) {
        Some(i) => stash[i].1,
        None => 0,
    }
}

/// Whether the stash owns at least one of this modifier.
pub fn owns_modifier(stash: &Vec<(ModifierId, u64)>, modifier_id: ModifierId) -> (r: bool)
    ensures
        r == (spec_stash_count(stash@, modifier_id) > 0),
{
    owned_modifier_count(stash, modifier_id) > 0
}

} // verus!
