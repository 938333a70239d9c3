//! The suggestion cache: results memoized under a key built from every
//! input the engine reads — the curated combos (ids and sequences), the
//! roster, the forbidden ids, the stash and the queue.  Identical inputs
//! always yield the identical, cached or recomputed, result.

use vstd::prelude::*;
use crate::candidates::{spec_build_cands, spec_raw_upto, spec_usable_fillers};
use crate::catalog::{Modifier, ModifierId, Modifiers};
use crate::engine::{spec_active_upto, spec_custom, spec_suggest, suggest_combo};
use crate::seqs::{copy_ids, ids_eq};
use crate::settings::{
    settings_wf, spec_combo_index_upto, spec_filler_ids, spec_filler_ids_upto, spec_roster_combo,
    spec_used_ids_upto, ComboId, UserSettings,
};
use crate::value::ids_resolve;

verus! {

/// What the engine reads of its inputs, as plain values: the cache key.
pub struct CacheKey {
    pub combo_catalog: Vec<(ComboId, Vec<ModifierId>)>,
    pub combo_roster: Vec<ComboId>,
    pub forbidden_modifier_ids: Vec<ModifierId>,
    pub stash: Vec<(ModifierId, u64)>,
    pub queue: Vec<ModifierId>,
}

/// The memoized suggestions, and whether the cache changed since it was
/// loaded.
pub struct Cache {
    pub suggested_combos: Vec<(CacheKey, Option<Vec<ModifierId>>)>,
    pub modified: bool,
}

/// The key records exactly the engine-visible part of the settings.
pub open spec fn key_matches(k: CacheKey, s: UserSettings) -> bool {
    &&& k.combo_catalog@.len() == s.combo_catalog@.len()
    &&& forall|i: int|
        0 <= i < k.combo_catalog@.len() ==> (#[trigger] k.combo_catalog@[i]).0
            == s.combo_catalog@[i].id && k.combo_catalog@[i].1@ == s.combo_catalog@[i].combo@
    &&& k.combo_roster@ == s.combo_roster@
    &&& k.forbidden_modifier_ids@ == s.forbidden_modifier_ids@
}

/// The key records these inputs.
pub open spec fn key_agrees(
    k: CacheKey,
    s: UserSettings,
    stash: Seq<(ModifierId, u64)>,
    queue: Seq<ModifierId>,
) -> bool {
    &&& key_matches(k, s)
    &&& k.stash@ == stash
    &&& k.queue@ == queue
}

/// Two settings the engine cannot tell apart: same curated combo ids and
/// sequences, same roster, same forbidden ids.  Labels, the hotkey and
/// display flags play no part in a suggestion.
pub open spec fn settings_agree(s1: UserSettings, s2: UserSettings) -> bool {
    &&& s1.combo_catalog@.len() == s2.combo_catalog@.len()
    &&& forall|i: int|
        0 <= i < s1.combo_catalog@.len() ==> (#[trigger] s1.combo_catalog@[i]).id
            == s2.combo_catalog@[i].id && s1.combo_catalog@[i].combo@
            == s2.combo_catalog@[i].combo@
    &&& s1.combo_roster@ == s2.combo_roster@
    &&& s1.forbidden_modifier_ids@ == s2.forbidden_modifier_ids@
}

proof fn lemma_combo_index_agree(s1: UserSettings, s2: UserSettings, cid: ComboId, n: int)
    requires
        settings_agree(s1, s2),
        n <= s1.combo_catalog@.len(),
    ensures
        spec_combo_index_upto(s1.combo_catalog@, cid, n) == spec_combo_index_upto(
            s2.combo_catalog@,
            cid,
            n,
        ),
    decreases n,
{
    if n > 0 {
        lemma_combo_index_agree(s1, s2, cid, n - 1);
    }
}

proof fn lemma_roster_combo_agree(s1: UserSettings, s2: UserSettings, r: int)
    requires
        settings_agree(s1, s2),
        0 <= r < s1.combo_roster@.len(),
        spec_combo_index_upto(
            s1.combo_catalog@,
            s1.combo_roster@[r],
            s1.combo_catalog@.len() as int,
        ) is Some,
    ensures
        spec_roster_combo(s1, r) == spec_roster_combo(s2, r),
{
    lemma_combo_index_agree(s1, s2, s1.combo_roster@[r], s1.combo_catalog@.len() as int);
    crate::settings::lemma_combo_index_props(
        s1.combo_catalog@,
        s1.combo_roster@[r],
        s1.combo_catalog@.len() as int,
    );
}

proof fn lemma_active_agree(
    s1: UserSettings,
    s2: UserSettings,
    stash: Seq<(ModifierId, u64)>,
    queue: Seq<ModifierId>,
    n: int,
)
    requires
        settings_agree(s1, s2),
        n <= s1.combo_roster@.len(),
    ensures
        spec_active_upto(s1, stash, queue, n) == spec_active_upto(s2, stash, queue, n),
    decreases n,
{
    if n > 0 {
        lemma_active_agree(s1, s2, stash, queue, n - 1);
        lemma_combo_index_agree(s1, s2, s1.combo_roster@[n - 1], s1.combo_catalog@.len() as int);
        match spec_combo_index_upto(
            s1.combo_catalog@,
            s1.combo_roster@[n - 1],
            s1.combo_catalog@.len() as int,
        ) {
            Some(_) => {
                lemma_roster_combo_agree(s1, s2, n - 1);
            },
            None => {
                lemma_roster_combo_unresolved(s1, s2, n - 1);
            },
        }
    }
}

/// With an unresolved roster id both settings read the empty combo.
proof fn lemma_roster_combo_unresolved(s1: UserSettings, s2: UserSettings, r: int)
    requires
        settings_agree(s1, s2),
        0 <= r < s1.combo_roster@.len(),
        spec_combo_index_upto(
            s1.combo_catalog@,
            s1.combo_roster@[r],
            s1.combo_catalog@.len() as int,
        ) is None,
    ensures
        spec_roster_combo(s1, r) == spec_roster_combo(s2, r),
{
    lemma_combo_index_agree(s1, s2, s1.combo_roster@[r], s1.combo_catalog@.len() as int);
}

proof fn lemma_used_agree(m: Modifiers, s1: UserSettings, s2: UserSettings, n: int)
    requires
        settings_agree(s1, s2),
        n <= s1.combo_roster@.len(),
    ensures
        spec_used_ids_upto(m, s1, n) == spec_used_ids_upto(m, s2, n),
    decreases n,
{
    if n > 0 {
        lemma_used_agree(m, s1, s2, n - 1);
        match spec_combo_index_upto(
            s1.combo_catalog@,
            s1.combo_roster@[n - 1],
            s1.combo_catalog@.len() as int,
        ) {
            Some(_) => {
                lemma_roster_combo_agree(s1, s2, n - 1);
            },
            None => {
                lemma_roster_combo_unresolved(s1, s2, n - 1);
            },
        }
    }
}

proof fn lemma_fillers_agree(m: Modifiers, s1: UserSettings, s2: UserSettings, n: int)
    requires
        settings_agree(s1, s2),
        0 <= n <= m.by_id@.len(),
    ensures
        spec_filler_ids_upto(m, s1, n) == spec_filler_ids_upto(m, s2, n),
    decreases n,
{
    lemma_used_agree(m, s1, s2, s1.combo_roster@.len() as int);
    if n > 0 {
        lemma_fillers_agree(m, s1, s2, n - 1);
    }
}

proof fn lemma_raw_agree(
    m: Modifiers,
    s1: UserSettings,
    s2: UserSettings,
    stash: Seq<(ModifierId, u64)>,
    queue: Seq<ModifierId>,
    n: int,
)
    requires
        settings_agree(s1, s2),
        n <= s1.combo_roster@.len(),
    ensures
        spec_raw_upto(m, s1, stash, queue, n) == spec_raw_upto(m, s2, stash, queue, n),
    decreases n,
{
    if n > 0 {
        lemma_raw_agree(m, s1, s2, stash, queue, n - 1);
        match spec_combo_index_upto(
            s1.combo_catalog@,
            s1.combo_roster@[n - 1],
            s1.combo_catalog@.len() as int,
        ) {
            Some(_) => {
                lemma_roster_combo_agree(s1, s2, n - 1);
            },
            None => {
                lemma_roster_combo_unresolved(s1, s2, n - 1);
            },
        }
    }
}

/// Settings the engine cannot tell apart yield the same suggestion.
pub proof fn lemma_suggest_agree(
    m: Modifiers,
    s1: UserSettings,
    s2: UserSettings,
    stash: Seq<(ModifierId, u64)>,
    queue: Seq<ModifierId>,
)
    requires
        settings_agree(s1, s2),
    ensures
        spec_suggest(m, s1, stash, queue) == spec_suggest(m, s2, stash, queue),
{
    lemma_active_agree(s1, s2, stash, queue, s1.combo_roster@.len() as int);
    lemma_raw_agree(m, s1, s2, stash, queue, s1.combo_roster@.len() as int);
    lemma_fillers_agree(m, s1, s2, m.by_id@.len() as int);
    assert(spec_filler_ids(m, s1) == spec_filler_ids(m, s2));
    assert(spec_usable_fillers(m, s1, stash) == spec_usable_fillers(m, s2, stash));
    assert(spec_build_cands(m, s1, stash, queue) == spec_build_cands(m, s2, stash, queue));
    assert(spec_custom(m, s1, stash, queue) == spec_custom(m, s2, stash, queue));
}

/// The stored value is what the engine yields for these settings and the
/// key's stash and queue.
pub open spec fn stored_matches(
    m: Modifiers,
    s: UserSettings,
    entry: (CacheKey, Option<Vec<ModifierId>>),
) -> bool {
    match entry.1 {
        Some(v) => spec_suggest(m, s, entry.0.stash@, entry.0.queue@) == Some(v@),
        None => spec_suggest(m, s, entry.0.stash@, entry.0.queue@) is None,
    }
}

/// The entry is the suggestion its key's inputs lead to, for some
/// settings the key records.
pub open spec fn entry_ok(m: Modifiers, entry: (CacheKey, Option<Vec<ModifierId>>)) -> bool {
    exists|s: UserSettings| key_matches(entry.0, s) && #[trigger] stored_matches(m, s, entry)
}

/// Every stored entry is the suggestion its key's inputs lead to, for
/// some settings the key records.
pub open spec fn cache_wf(c: Cache, m: Modifiers) -> bool {
    forall|i: int|
        0 <= i < c.suggested_combos@.len() ==> entry_ok(m, #[trigger] c.suggested_combos@[i])
}

impl Cache {
    /// A fresh, empty cache.
    pub fn new() -> (r: Cache)
        ensures
            r.suggested_combos@.len() == 0,
            !r.modified,
            forall|m: Modifiers| cache_wf(r, m),
    {
        Cache { suggested_combos: Vec::new(), modified: false }
    }
}

/// A copy of a suggestion.
fn copy_suggestion(o: &Option<Vec<ModifierId>>) -> (r: Option<Vec<ModifierId>>)
    ensures
        match r {
            Some(v) => o matches Some(w) && v@ == w@,
            None => o is None,
        },
{
    match o {
        Some(v) => Some(copy_ids(v)),
        None => None,
    }
}

/// Two u64 vectors hold the same values.
fn u64s_eq(a: &Vec<u64>, b: &Vec<u64>) -> (r: bool)
    ensures
        r == (a@ == b@),
{
    if a.len() != b.len() {
        return false;
    }
    let mut i: usize = 0;
    while i < a.len()
        invariant
            a@.len() == b@.len(),
            0 <= i <= a@.len(),
            forall|j: int| 0 <= j < i ==> a@[j] == b@[j],
        decreases a@.len() - i,
    {
        if a[i] != b[i] {
            return false;
        }
        i += 1;
    }
    proof {
        assert(a@ =~= b@);
    }
    true
}

/// Two stash vectors hold the same entries.
fn stash_eq(a: &Vec<(ModifierId, u64)>, b: &Vec<(ModifierId, u64)>) -> (r: bool)
    ensures
        r == (a@ == b@),
{
    if a.len() != b.len() {
        return false;
    }
    let mut i: usize = 0;
    while i < a.len()
        invariant
            a@.len() == b@.len(),
            0 <= i <= a@.len(),
            forall|j: int| 0 <= j < i ==> a@[j] == b@[j],
        decreases a@.len() - i,
    {
        if a[i].0 != b[i].0 || a[i].1 != b[i].1 {
            return false;
        }
        i += 1;
    }
    proof {
        assert(a@ =~= b@);
    }
    true
}

/// The two keys record the same inputs.
pub open spec fn keys_agree(a: CacheKey, b: CacheKey) -> bool {
    &&& a.combo_catalog@.len() == b.combo_catalog@.len()
    &&& forall|i: int|
        0 <= i < a.combo_catalog@.len() ==> (#[trigger] a.combo_catalog@[i]).0
            == b.combo_catalog@[i].0 && a.combo_catalog@[i].1@ == b.combo_catalog@[i].1@
    &&& a.combo_roster@ == b.combo_roster@
    &&& a.forbidden_modifier_ids@ == b.forbidden_modifier_ids@
    &&& a.stash@ == b.stash@
    &&& a.queue@ == b.queue@
}

fn keys_eq(a: &CacheKey, b: &CacheKey) -> (r: bool)
    ensures
        r == keys_agree(*a, *b),
{
    if a.combo_catalog.len() != b.combo_catalog.len() {
        return false;
    }
    let mut i: usize = 0;
    while i < a.combo_catalog.len()
        invariant
            a.combo_catalog@.len() == b.combo_catalog@.len(),
            0 <= i <= a.combo_catalog@.len(),
            forall|j: int|
                0 <= j < i ==> (#[trigger] a.combo_catalog@[j]).0 == b.combo_catalog@[j].0
                    && a.combo_catalog@[j].1@ == b.combo_catalog@[j].1@,
        decreases a.combo_catalog@.len() - i,
    {
        if a.combo_catalog[i].0 != b.combo_catalog[i].0 {
            return false;
        }
        if !ids_eq(&a.combo_catalog[i].1, &b.combo_catalog[i].1) {
            return false;
        }
        i += 1;
    }
    if !u64s_eq(&a.combo_roster, &b.combo_roster) {
        return false;
    }
    if !ids_eq(&a.forbidden_modifier_ids, &b.forbidden_modifier_ids) {
        return false;
    }
    if !stash_eq(&a.stash, &b.stash) {
        return false;
    }
    if !ids_eq(&a.queue, &b.queue) {
        return false;
    }
    true
}

/// Record the engine-visible inputs as a key.
fn make_key(
    user_settings: &UserSettings,
    stash: &Vec<(ModifierId, u64)>,
    queue: &Vec<ModifierId>,
) -> (k: CacheKey)
    ensures
        key_agrees(k, *user_settings, stash@, queue@),
{
    let mut cat: Vec<(ComboId, Vec<ModifierId>)> = Vec::new();
    let mut i: usize = 0;
    while i < user_settings.combo_catalog.len()
        invariant
            0 <= i <= user_settings.combo_catalog@.len(),
            cat@.len() == i,
            forall|j: int|
                0 <= j < i ==> (#[trigger] cat@[j]).0 == user_settings.combo_catalog@[j].id
                    && cat@[j].1@ == user_settings.combo_catalog@[j].combo@,
        decreases user_settings.combo_catalog@.len() - i,
    {
        cat.push(
            (user_settings.combo_catalog[i].id, copy_ids(&user_settings.combo_catalog[i].combo)),
        );
        i += 1;
    }
    let mut roster: Vec<ComboId> = Vec::new();
    let mut i: usize = 0;
    while i < user_settings.combo_roster.len()
        invariant
            0 <= i <= user_settings.combo_roster@.len(),
            roster@ == user_settings.combo_roster@.subrange(0, i as int),
        decreases user_settings.combo_roster@.len() - i,
    {
        roster.push(user_settings.combo_roster[i]);
        proof {
            assert(roster@ =~= user_settings.combo_roster@.subrange(0, i + 1));
        }
        i += 1;
    }
    proof {
        assert(user_settings.combo_roster@.subrange(
            0,
            user_settings.combo_roster@.len() as int,
        ) =~= user_settings.combo_roster@);
    }
    let mut st: Vec<(ModifierId, u64)> = Vec::new();
    let mut i: usize = 0;
    while i < stash.len()
        invariant
            0 <= i <= stash@.len(),
            st@ == stash@.subrange(0, i as int),
        decreases stash@.len() - i,
    {
        st.push(stash[i]);
        proof {
            assert(st@ =~= stash@.subrange(0, i + 1));
        }
        i += 1;
    }
    proof {
        assert(stash@.subrange(0, stash@.len() as int) =~= stash@);
    }
    CacheKey {
        combo_catalog: cat,
        combo_roster: roster,
        forbidden_modifier_ids: copy_ids(&user_settings.forbidden_modifier_ids),
        stash: st,
        queue: copy_ids(queue),
    }
}

/// A key equal to one that records these inputs records them as well.
proof fn lemma_keys_agree_transfer(
    a: CacheKey,
    b: CacheKey,
    s: UserSettings,
    stash: Seq<(ModifierId, u64)>,
    queue: Seq<ModifierId>,
)
    requires
        keys_agree(a, b),
        key_agrees(b, s, stash, queue),
    ensures
        key_agrees(a, s, stash, queue),
{
    assert forall|i: int|
        0 <= i < a.combo_catalog@.len() implies (#[trigger] a.combo_catalog@[i]).0
        == s.combo_catalog@[i].id && a.combo_catalog@[i].1@ == s.combo_catalog@[i].combo@ by {
        assert(a.combo_catalog@[i].0 == b.combo_catalog@[i].0);
        assert(b.combo_catalog@[i].0 == s.combo_catalog@[i].id);
    }
}

/// Two keys that record the same inputs are equal.
proof fn lemma_keys_agree_transfer_back(
    a: CacheKey,
    b: CacheKey,
    s: UserSettings,
    stash: Seq<(ModifierId, u64)>,
    queue: Seq<ModifierId>,
)
    requires
        key_agrees(a, s, stash, queue),
        key_agrees(b, s, stash, queue),
    ensures
        keys_agree(a, b),
{
    assert forall|i: int|
        0 <= i < a.combo_catalog@.len() implies (#[trigger] a.combo_catalog@[i]).0
        == b.combo_catalog@[i].0 && a.combo_catalog@[i].1@ == b.combo_catalog@[i].1@ by {
        assert(a.combo_catalog@[i].0 == s.combo_catalog@[i].id);
        assert(b.combo_catalog@[i].0 == s.combo_catalog@[i].id);
    }
}

/// Whether some cached entry's key records exactly these inputs.
pub open spec fn spec_cache_hit(
    c: Cache,
    s: UserSettings,
    stash: Seq<(ModifierId, u64)>,
    queue: Seq<ModifierId>,
) -> bool {
    exists|i: int|
        0 <= i < c.suggested_combos@.len() && key_agrees(
            (#[trigger] c.suggested_combos@[i]).0,
            s,
            stash,
            queue,
        )
}

/// Look the inputs up in the cache; on a miss, run the engine, store the
/// result (a `None` as well) and mark the cache dirty.  The result is the
/// engine's, cached or not: a hit leaves the cache untouched, a miss
/// appends exactly one entry.
pub fn suggest_combo_cached(
    cache: &mut Cache,
    m: &Modifiers,
    user_settings: &UserSettings,
    stash: &Vec<(ModifierId, u64)>,
    queue: &Vec<ModifierId>,
) -> (r: Option<Vec<ModifierId>>)
    requires
        m.wf(),
        settings_wf(m.by_id@, *user_settings),
        queue@.len() <= 4,
        queue@.len() == 4 || ids_resolve(m.by_id@, queue@),
        cache_wf(*old(cache), *m),
    ensures
        cache_wf(*final(cache), *m),
        match r {
            Some(c) => spec_suggest(*m, *user_settings, stash@, queue@) == Some(c@),
            None => spec_suggest(*m, *user_settings, stash@, queue@) is None,
        },
        spec_cache_hit(*old(cache), *user_settings, stash@, queue@) ==> *final(cache) == *old(
            cache,
        ),
        !spec_cache_hit(*old(cache), *user_settings, stash@, queue@) ==> {
            &&& final(cache).suggested_combos@.len() == old(cache).suggested_combos@.len() + 1
            &&& final(cache).modified
            &&& forall|j: int|
                0 <= j < old(cache).suggested_combos@.len()
                    ==> #[trigger] final(cache).suggested_combos@[j] == old(
                    cache,
                ).suggested_combos@[j]
            &&& key_agrees(
                final(cache).suggested_combos@.last().0,
                *user_settings,
                stash@,
                queue@,
            )
        },
        old(cache).modified ==> final(cache).modified,
{
    let key = make_key(user_settings, stash, queue);
    let mut i: usize = 0;
    while i < cache.suggested_combos.len()
        invariant
            cache_wf(*cache, *m),
            cache == old(cache),
            key_agrees(key, *user_settings, stash@, queue@),
            0 <= i <= cache.suggested_combos@.len(),
            forall|j: int|
                0 <= j < i ==> !key_agrees(
                    (#[trigger] cache.suggested_combos@[j]).0,
                    *user_settings,
                    stash@,
                    queue@,
                ),
        decreases cache.suggested_combos@.len() - i,
    {
        if keys_eq(&cache.suggested_combos[i].0, &key) {
            let stored = copy_suggestion(&cache.suggested_combos[i].1);
            proof {
                let entry = cache.suggested_combos@[i as int];
                assert(entry_ok(*m, entry));
                let s_stored = choose|s: UserSettings|
                    key_matches(entry.0, s) && #[trigger] stored_matches(*m, s, entry);
                assert(keys_agree(entry.0, key));
                assert(settings_agree(s_stored, *user_settings)) by {
                    assert forall|ii: int|
                        0 <= ii < s_stored.combo_catalog@.len() implies (
                    #[trigger] s_stored.combo_catalog@[ii]).id
                        == user_settings.combo_catalog@[ii].id && s_stored.combo_catalog@[ii].combo@
                        == user_settings.combo_catalog@[ii].combo@ by {
                        assert(entry.0.combo_catalog@[ii].0 == s_stored.combo_catalog@[ii].id);
                        assert(key.combo_catalog@[ii].0 == user_settings.combo_catalog@[ii].id);
                        assert(entry.0.combo_catalog@[ii].1@ == key.combo_catalog@[ii].1@);
                    }
                }
                lemma_suggest_agree(*m, s_stored, *user_settings, stash@, queue@);
                assert(entry.0.stash@ == stash@ && entry.0.queue@ == queue@);
            }
            proof {
                assert(key_agrees(
                    cache.suggested_combos@[i as int].0,
                    *user_settings,
                    stash@,
                    queue@,
                )) by {
                    lemma_keys_agree_transfer(
                        cache.suggested_combos@[i as int].0,
                        key,
                        *user_settings,
                        stash@,
                        queue@,
                    );
                }
                assert(spec_cache_hit(*cache, *user_settings, stash@, queue@));
            }
            return stored;
        }
        proof {
            if key_agrees(cache.suggested_combos@[i as int].0, *user_settings, stash@, queue@) {
                lemma_keys_agree_transfer_back(
                    cache.suggested_combos@[i as int].0,
                    key,
                    *user_settings,
                    stash@,
                    queue@,
                );
            }
        }
        i += 1;
    }
    proof {
        assert(!spec_cache_hit(*cache, *user_settings, stash@, queue@));
    }
    let result = suggest_combo(m, user_settings, stash, queue);
    let stored = copy_suggestion(&result);
    let ghost old_entries = cache.suggested_combos@;
    cache.suggested_combos.push((key, stored));
    cache.modified = true;
    proof {
        let entries = cache.suggested_combos@;
        assert forall|j: int| 0 <= j < entries.len() implies entry_ok(*m, #[trigger] entries[j]) by {
            if j < old_entries.len() {
                assert(entries[j] == old_entries[j]);
                assert(entry_ok(*m, old_entries[j]));
            } else {
                assert(entries[j] == (key, stored));
                assert(stored_matches(*m, *user_settings, entries[j]));
                assert(key_matches(entries[j].0, *user_settings));
            }
        }
    }
    result
}

} // verus!
