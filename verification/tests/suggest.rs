//! Suggestion engine tests over a small sample catalog.

use archbroski::catalog::{Modifier, ModifierId, Modifiers, Reward};
use archbroski::engine::suggest_combo;
use archbroski::settings::{LabeledCombo, UserSettings};

fn base(id: ModifierId, rewards: Vec<(Reward, u64)>) -> Modifier {
    Modifier { id, name: format!("base {}", id), recipe: vec![], rewards, effect: None }
}

fn crafted(id: ModifierId, recipe: Vec<ModifierId>) -> Modifier {
    Modifier {
        id,
        name: format!("crafted {}", id),
        recipe,
        rewards: vec![(Reward::Generic, 1)],
        effect: None,
    }
}

/// A catalog of base modifiers and a few two- or three-ingredient
/// recipes.  Reward weights order the ids the tests care about.
fn sample_catalog() -> Modifiers {
    let mut mods: Vec<Modifier> = Vec::new();
    for id in [0u8, 1, 2, 3, 4, 6, 8, 10, 11, 12, 21, 22, 23, 24, 25, 26, 27, 28] {
        mods.push(base(id, vec![(Reward::Generic, 1)]));
    }
    mods.push(base(5, vec![(Reward::Essence, 1)]));
    mods.push(base(7, vec![(Reward::Generic, 2)]));
    mods.push(base(9, vec![(Reward::Gem, 1)]));
    mods.push(base(19, vec![(Reward::DivinationCard, 2)]));
    mods.push(base(20, vec![(Reward::Maps, 1)]));
    mods.push(base(34, vec![(Reward::Currency, 1)]));
    mods.push(base(51, vec![(Reward::Armour, 1)]));
    mods.push(base(52, vec![(Reward::Weapon, 1)]));
    for id in [54u8, 55, 56, 59, 61, 62] {
        mods.push(base(id, vec![(Reward::Treant, 1)]));
    }
    mods.push(crafted(29, vec![5, 20]));
    mods.push(crafted(31, vec![11, 12]));
    mods.push(crafted(37, vec![27, 28]));
    mods.push(crafted(38, vec![19, 20, 34]));
    mods.push(crafted(46, vec![25, 26]));
    mods.push(crafted(57, vec![23, 24]));
    mods.push(crafted(60, vec![21, 22]));
    Modifiers::new(mods).expect("the sample catalog is well-formed")
}

fn get_suggested_combo(
    combos: Vec<Vec<ModifierId>>,
    forbidden_modifier_ids: Vec<ModifierId>,
    stash: Vec<(ModifierId, u64)>,
    queue: Vec<ModifierId>,
) -> Option<Vec<ModifierId>> {
    let modifiers = sample_catalog();
    let user_settings = UserSettings {
        combo_catalog: combos
            .iter()
            .enumerate()
            .map(|(index, combo)| LabeledCombo {
                id: index as u64,
                label: format!("Combo #{}", index),
                combo: combo.clone(),
            })
            .collect(),
        combo_roster: (0..combos.len() as u64).collect(),
        forbidden_modifier_ids,
        hotkey: "".into(),
        show_tiers: false,
    };
    suggest_combo(&modifiers, &user_settings, &stash, &queue)
}

#[test]
fn empty_stash() {
    assert_eq!(
        None,
        get_suggested_combo(vec![vec![0, 1, 2, 3]], vec![], vec![], vec![])
    );
}

#[test]
fn full_queue() {
    assert_eq!(
        None,
        get_suggested_combo(
            vec![vec![0, 1, 2, 3]],
            vec![],
            vec![(0, 1), (1, 1), (2, 1), (3, 1)],
            vec![7, 8, 9, 10]
        )
    );
}

#[test]
fn high_priority_combo() {
    assert_eq!(
        Some(vec![0, 1, 2, 3]),
        get_suggested_combo(
            vec![vec![0, 1, 2, 3], vec![4, 5, 6, 7]],
            vec![],
            vec![(0, 1), (1, 1), (2, 1), (3, 1), (4, 1), (5, 1), (6, 1), (7, 1)],
            vec![]
        )
    );
}

#[test]
fn complete_queue() {
    assert_eq!(
        Some(vec![0, 1, 2, 3]),
        get_suggested_combo(
            vec![vec![0, 1, 2, 3], vec![4, 5, 6, 7]],
            vec![],
            vec![(0, 1), (1, 1), (2, 1), (3, 1), (4, 1), (5, 1), (6, 1), (7, 1)],
            vec![0, 1, 2]
        )
    );
}

#[test]
fn only_fillers() {
    assert_eq!(
        None,
        get_suggested_combo(
            vec![vec![0, 1, 2, 3]],
            vec![],
            vec![(4, 1), (5, 1), (6, 1), (7, 1)],
            vec![]
        )
    );
}

#[test]
fn recipe_with_fillers() {
    let combo = get_suggested_combo(
        vec![vec![0, 1, 2, 29]],
        vec![],
        vec![(5, 1), (20, 1), (51, 1), (52, 1)],
        vec![],
    );
    assert!(combo.is_some());
    let combo = combo.unwrap();
    assert!(combo.contains(&5));
    assert!(combo.contains(&20));
}

#[test]
fn does_not_mess_up_recipe() {
    let combo = get_suggested_combo(
        vec![vec![38, 60, 57, 46], vec![37, 38, 31, 4]],
        vec![54, 55, 56, 59, 61, 62],
        vec![(19, 1), (34, 1), (20, 1), (9, 1), (7, 1)],
        vec![],
    );
    assert!(combo.is_some());
    let combo = combo.unwrap();
    assert_eq!(combo, vec![19, 34, 20, 9]);

    let combo = get_suggested_combo(
        vec![vec![38, 60, 57, 46], vec![37, 38, 31, 4]],
        vec![54, 55, 56, 59, 61, 62],
        vec![(19, 1), (34, 1), (20, 1), (9, 1), (7, 1)],
        vec![19, 34, 20],
    );
    assert!(combo.is_some());
    let combo = combo.unwrap();
    assert_eq!(combo, vec![19, 34, 20, 9]);
}

#[test]
fn roster_first_combo_wins() {
    // the roster's first combo beats the second even when both are owned
    let combo = get_suggested_combo(
        vec![vec![0, 1, 2, 3], vec![4, 5, 6, 7]],
        vec![],
        vec![(0, 1), (1, 1), (2, 1), (3, 1), (4, 9), (5, 9), (6, 9), (7, 9)],
        vec![],
    );
    assert_eq!(Some(vec![0, 1, 2, 3]), combo);
}

#[test]
fn unrelated_stash_gives_nothing() {
    // nothing the roster needs is owned, and the owned ids compose nothing
    assert_eq!(
        None,
        get_suggested_combo(
            vec![vec![38, 60, 57, 46]],
            vec![],
            vec![(0, 5), (1, 5), (2, 5), (3, 5), (4, 5)],
            vec![]
        )
    );
}

#[test]
fn returned_combo_extends_queue() {
    let combo = get_suggested_combo(
        vec![vec![38, 60, 57, 46]],
        vec![],
        vec![(19, 1), (34, 1), (20, 1), (9, 1), (7, 1)],
        vec![19],
    )
    .unwrap();
    assert!(combo.len() <= 4);
    assert_eq!(combo[0], 19);
    for i in 0..combo.len() {
        for j in 0..i {
            assert_ne!(combo[i], combo[j]);
        }
    }
}

#[test]
fn single_roster_combo_fully_owned() {
    assert_eq!(
        Some(vec![0, 1, 2, 3]),
        get_suggested_combo(
            vec![vec![0, 1, 2, 3]],
            vec![],
            vec![(0, 1), (1, 1), (2, 1), (3, 1)],
            vec![]
        )
    );
}

#[test]
fn malformed_catalog_is_rejected() {
    // a duplicate non-empty recipe is a fatal configuration error
    let mods = vec![
        base(0, vec![(Reward::Generic, 1)]),
        base(1, vec![(Reward::Generic, 1)]),
        crafted(2, vec![0, 1]),
        crafted(3, vec![0, 1]),
    ];
    assert!(Modifiers::new(mods).is_none());
    // a recipe cycle is a fatal configuration error
    let mods = vec![crafted(0, vec![1]), crafted(1, vec![0])];
    assert!(Modifiers::new(mods).is_none());
    // an unknown recipe member is a fatal configuration error
    let mods = vec![crafted(0, vec![9])];
    assert!(Modifiers::new(mods).is_none());
    // a duplicate id is a fatal configuration error
    let mods = vec![base(0, vec![(Reward::Generic, 1)]), base(0, vec![(Reward::Gem, 1)])];
    assert!(Modifiers::new(mods).is_none());
    // an unsorted recipe is a fatal configuration error
    let mods = vec![
        base(0, vec![(Reward::Generic, 1)]),
        base(1, vec![(Reward::Generic, 1)]),
        crafted(2, vec![1, 0]),
    ];
    assert!(Modifiers::new(mods).is_none());
    // duplicate reward keys are a fatal configuration error
    let mods = vec![base(0, vec![(Reward::Gem, 1), (Reward::Gem, 2)])];
    assert!(Modifiers::new(mods).is_none());
}
