//! Tests of the value model, the production resolver, the filler set and
//! the cache.

use archbroski::cache::{suggest_combo_cached, Cache};
use archbroski::catalog::{reward_value, Effect, Modifier, ModifierId, Modifiers, Reward};
use archbroski::produce::get_produced_modifier_ids;
use archbroski::settings::{LabeledCombo, UserSettings};
use archbroski::value::get_combo_value;

fn modifier(
    id: ModifierId,
    recipe: Vec<ModifierId>,
    rewards: Vec<(Reward, u64)>,
    effect: Option<Effect>,
) -> Modifier {
    Modifier { id, name: format!("modifier {}", id), recipe, rewards, effect }
}

/// Base modifiers carrying one effect each.
fn effect_catalog() -> Modifiers {
    let mods = vec![
        modifier(0, vec![], vec![(Reward::Gem, 1)], None),
        modifier(1, vec![], vec![(Reward::Maps, 1)], Some(Effect::AdditionalReward)),
        modifier(2, vec![], vec![(Reward::Delve, 1)], Some(Effect::Reroll { count: 2 })),
        modifier(3, vec![], vec![(Reward::Abyss, 1)], Some(Effect::DoubledReward)),
        modifier(4, vec![], vec![(Reward::Heist, 2)], Some(Effect::Convert { to: Reward::Currency })),
        modifier(5, vec![], vec![(Reward::Gem, 7)], None),
    ];
    Modifiers::new(mods).expect("the effect catalog is well-formed")
}

#[test]
fn base_reward_values() {
    assert_eq!(reward_value(Reward::Generic), 1);
    assert_eq!(reward_value(Reward::Gem), 5);
    assert_eq!(reward_value(Reward::Maps), 10);
    assert_eq!(reward_value(Reward::DivinationCard), 25);
    assert_eq!(reward_value(Reward::Currency), 25);
}

#[test]
fn value_sums_every_prefix() {
    let m = effect_catalog();
    // one Gem reward: 5 per prefix, in quarter units
    assert_eq!(get_combo_value(&m, &vec![0]), 20);
    // the second prefix counts the first modifier's reward again
    assert_eq!(get_combo_value(&m, &vec![0, 5]), 20 + 140);
}

#[test]
fn value_additional_reward() {
    let m = effect_catalog();
    // prefix [0]: 5 * 4 = 20; prefix [0, 1]: (Gem 2 * 5 + Maps 2 * 10) * 4
    assert_eq!(get_combo_value(&m, &vec![0, 1]), 20 + 120);
}

#[test]
fn value_reroll() {
    let m = effect_catalog();
    // prefix [0]: 20; prefix [0, 2]: (5 + 5) * (4 + 2)
    assert_eq!(get_combo_value(&m, &vec![0, 2]), 20 + 60);
}

#[test]
fn value_doubled_reward() {
    let m = effect_catalog();
    // prefix [0]: 20; prefix [0, 3]: (5 + 5) * 2 * 4
    assert_eq!(get_combo_value(&m, &vec![0, 3]), 20 + 80);
}

#[test]
fn value_convert_collapses_rewards() {
    let m = effect_catalog();
    // prefix [0]: 20; prefix [0, 4]: all three counts turn into Currency
    assert_eq!(get_combo_value(&m, &vec![0, 4]), 20 + 300);
}

#[test]
fn value_later_rewards_overwrite() {
    let m = effect_catalog();
    // id 5's Gem entry overwrites id 0's in the second prefix
    assert_eq!(get_combo_value(&m, &vec![0, 5]), 20 + 140);
    assert_eq!(get_combo_value(&m, &vec![5, 0]), 140 + 20);
}

/// Two overlapping recipes over base ids.
fn overlap_catalog() -> Modifiers {
    let mods = vec![
        modifier(0, vec![], vec![(Reward::Generic, 1)], None),
        modifier(1, vec![], vec![(Reward::Generic, 1)], None),
        modifier(2, vec![], vec![(Reward::Generic, 1)], None),
        modifier(3, vec![], vec![(Reward::Generic, 1)], None),
        modifier(10, vec![0, 1], vec![(Reward::Generic, 1)], None),
        modifier(11, vec![1, 2], vec![(Reward::Generic, 1)], None),
        modifier(12, vec![2, 3], vec![(Reward::Generic, 1)], None),
    ];
    Modifiers::new(mods).expect("the overlap catalog is well-formed")
}

#[test]
fn produced_greedy_claim_order() {
    let m = overlap_catalog();
    // {0,1} is enumerated first and claims 0 and 1; {1,2} loses its 1,
    // but {2,3} still matches
    let produced = get_produced_modifier_ids(&m, &vec![0, 1, 2, 3]);
    assert_eq!(produced.len(), 2);
    assert_eq!(produced[0], (vec![0, 1], 10));
    assert_eq!(produced[1], (vec![2, 3], 12));
}

#[test]
fn produced_respects_order_not_position() {
    let m = overlap_catalog();
    // the recipe matches as a set, wherever its members sit
    let produced = get_produced_modifier_ids(&m, &vec![1, 3, 0]);
    assert_eq!(produced.len(), 1);
    assert_eq!(produced[0], (vec![0, 1], 10));
}

#[test]
fn produced_empty_combo() {
    let m = overlap_catalog();
    assert_eq!(get_produced_modifier_ids(&m, &vec![]).len(), 0);
}

#[test]
fn components_expand_recursively() {
    // 20 is made of 10 and 2; 10 is made of 0 and 1
    let mods = vec![
        modifier(0, vec![], vec![(Reward::Generic, 1)], None),
        modifier(1, vec![], vec![(Reward::Generic, 1)], None),
        modifier(2, vec![], vec![(Reward::Generic, 1)], None),
        modifier(10, vec![0, 1], vec![(Reward::Generic, 1)], None),
        modifier(20, vec![2, 10], vec![(Reward::Generic, 1)], None),
    ];
    let m = Modifiers::new(mods).expect("well-formed");
    // the row of 20 counts 10, 2, and through 10 also 0 and 1
    let row = &m.components[4];
    let mut keys: Vec<u8> = row.iter().map(|e| e.0).collect();
    keys.sort();
    assert_eq!(keys, vec![0, 1, 2, 10]);
    for e in row.iter() {
        assert_eq!(e.1, 1);
    }
}

#[test]
fn filler_ids_exclude_used_and_forbidden() {
    let m = overlap_catalog();
    let s = UserSettings {
        combo_catalog: vec![LabeledCombo::new(0, "only".to_string(), vec![10])],
        combo_roster: vec![0],
        forbidden_modifier_ids: vec![3],
        hotkey: "".into(),
        show_tiers: false,
    };
    // 10 and its components 0 and 1 are used; 3 is forbidden
    assert_eq!(s.get_filler_modifier_ids(&m), vec![2, 11, 12]);
}

#[test]
fn cached_suggestions_are_stable() {
    let m = overlap_catalog();
    let s = UserSettings {
        combo_catalog: vec![LabeledCombo::new(7, "pair".to_string(), vec![0, 1])],
        combo_roster: vec![7],
        forbidden_modifier_ids: vec![],
        hotkey: "alt + 1".into(),
        show_tiers: false,
    };
    let stash = vec![(0u8, 2u64), (1, 2)];
    let queue: Vec<u8> = vec![];
    let mut cache = Cache::new();
    assert!(!cache.modified);
    let first = suggest_combo_cached(&mut cache, &m, &s, &stash, &queue);
    assert_eq!(first, Some(vec![0, 1]));
    assert!(cache.modified);
    assert_eq!(cache.suggested_combos.len(), 1);
    // a second identical call hits the cache and returns the same result
    let second = suggest_combo_cached(&mut cache, &m, &s, &stash, &queue);
    assert_eq!(second, Some(vec![0, 1]));
    assert_eq!(cache.suggested_combos.len(), 1);
    // a different label does not change the engine-visible inputs
    let relabeled = UserSettings {
        combo_catalog: vec![LabeledCombo::new(7, "renamed".to_string(), vec![0, 1])],
        combo_roster: vec![7],
        forbidden_modifier_ids: vec![],
        hotkey: "alt + 2".into(),
        show_tiers: true,
    };
    let third = suggest_combo_cached(&mut cache, &m, &relabeled, &stash, &queue);
    assert_eq!(third, Some(vec![0, 1]));
}

#[test]
fn cache_stores_missing_suggestions_too() {
    let m = overlap_catalog();
    let s = UserSettings {
        combo_catalog: vec![LabeledCombo::new(0, "pair".to_string(), vec![0, 1])],
        combo_roster: vec![0],
        forbidden_modifier_ids: vec![],
        hotkey: "".into(),
        show_tiers: false,
    };
    let stash: Vec<(u8, u64)> = vec![];
    let queue: Vec<u8> = vec![];
    let mut cache = Cache::new();
    assert_eq!(suggest_combo_cached(&mut cache, &m, &s, &stash, &queue), None);
    assert_eq!(cache.suggested_combos.len(), 1);
    assert!(cache.modified);
    assert_eq!(suggest_combo_cached(&mut cache, &m, &s, &stash, &queue), None);
    assert_eq!(cache.suggested_combos.len(), 1);
}
