//! The modifier catalog: rewards, effects, modifiers and their precomputed
//! component bags.

use vstd::prelude::*;
use crate::seqs::{ids_eq, strictly_sorted};

verus! {

/// Identifier of a craftable modifier; the keyspace is small and dense.
pub type ModifierId = u8;

/// Reward categories; each has a fixed base scalar value.
#[derive(Clone, Copy, PartialEq, Eq, Structural, Debug)]
pub enum Reward {
    Generic,
    Armour,
    Weapon,
    Jewelry,
    Gem,
    Maps,
    DivinationCard,
    Fragment,
    Essence,
    Harbinger,
    Unique,
    Delve,
    Blight,
    Ritual,
    Currency,
    Legion,
    Breach,
    Labyrinth,
    Scarab,
    Abyss,
    Heist,
    Expedition,
    Delirium,
    Metamorph,
    Treant,
}

/// Base scalar value of a reward category.
pub open spec fn spec_reward_value(reward: Reward) -> u64 {
    match reward {
        Reward::Generic => 1,
        Reward::Armour => 1,
        Reward::Weapon => 1,
        Reward::Jewelry => 1,
        Reward::Gem => 5,
        Reward::Maps => 10,
        Reward::DivinationCard => 25,
        Reward::Fragment => 10,
        Reward::Essence => 5,
        Reward::Harbinger => 25,
        Reward::Unique => 10,
        Reward::Delve => 5,
        Reward::Blight => 5,
        Reward::Ritual => 5,
        Reward::Currency => 25,
        Reward::Legion => 10,
        Reward::Breach => 5,
        Reward::Labyrinth => 5,
        Reward::Scarab => 25,
        Reward::Abyss => 5,
        Reward::Heist => 5,
        Reward::Expedition => 10,
        Reward::Delirium => 10,
        Reward::Metamorph => 5,
        Reward::Treant => 1,
    }
}

/// Base scalar value of a reward category.
pub fn reward_value(reward: Reward) -> (v: u64)
    ensures
        v == spec_reward_value(reward),
{
    match reward {
        Reward::Generic => 1,
        Reward::Armour => 1,
        Reward::Weapon => 1,
        Reward::Jewelry => 1,
        Reward::Gem => 5,
        Reward::Maps => 10,
        Reward::DivinationCard => 25,
        Reward::Fragment => 10,
        Reward::Essence => 5,
        Reward::Harbinger => 25,
        Reward::Unique => 10,
        Reward::Delve => 5,
        Reward::Blight => 5,
        Reward::Ritual => 5,
        Reward::Currency => 25,
        Reward::Legion => 10,
        Reward::Breach => 5,
        Reward::Labyrinth => 5,
        Reward::Scarab => 25,
        Reward::Abyss => 5,
        Reward::Heist => 5,
        Reward::Expedition => 10,
        Reward::Delirium => 10,
        Reward::Metamorph => 5,
        Reward::Treant => 1,
    }
}

/// The one special effect a modifier may carry.
#[derive(Clone, Copy, PartialEq, Eq, Structural, Debug)]
pub enum Effect {
    Reroll { count: u64 },
    AdditionalReward,
    DoubledReward,
    Convert { to: Reward },
}

/// A craftable modifier: an id, the exact set of lower-tier ids that
/// produce it (empty for a base modifier), its reward bag and its effect.
pub struct Modifier {
    pub id: ModifierId,
    pub name: String,
    pub recipe: Vec<ModifierId>,
    pub rewards: Vec<(Reward, u64)>,
    pub effect: Option<Effect>,
}

/// Reward keys of one modifier are pairwise distinct.
pub open spec fn rewards_distinct(rs: Seq<(Reward, u64)>) -> bool {
    forall|i: int, j: int| 0 <= i < j < rs.len() ==> rs[i].0 != rs[j].0
}

/// Shape of a single modifier: the recipe is a strictly sorted id vector
/// (the canonical form of a set) and the reward keys are distinct.
pub open spec fn modifier_wf(m: Modifier) -> bool {
    &&& strictly_sorted(m.recipe@)
    &&& rewards_distinct(m.rewards@)
}

/// First index of the modifier with the given id, scanning `list[..n]`.
pub open spec fn spec_index_of_upto(list: Seq<Modifier>, id: ModifierId, n: int) -> Option<int>
    decreases n,
{
    if n <= 0 {
        None
    } else {
        match spec_index_of_upto(list, id, n - 1) {
            Some(i) => Some(i),
            None => if list[n - 1].id == id {
                Some(n - 1)
            } else {
                None
            },
        }
    }
}

/// First index of the modifier with the given id.
pub open spec fn spec_index_of(list: Seq<Modifier>, id: ModifierId) -> Option<int> {
    spec_index_of_upto(list, id, list.len() as int)
}

/// The catalog knows the id.
pub open spec fn has_id(list: Seq<Modifier>, id: ModifierId) -> bool {
    spec_index_of(list, id) is Some
}

pub proof fn lemma_index_of_upto_props(list: Seq<Modifier>, id: ModifierId, n: int)
    requires
        0 <= n <= list.len(),
    ensures
        match spec_index_of_upto(list, id, n) {
            Some(i) => 0 <= i < n && list[i].id == id,
            None => forall|j: int| 0 <= j < n ==> list[j].id != id,
        },
    decreases n,
{
    if n > 0 {
        lemma_index_of_upto_props(list, id, n - 1);
    }
}

/// The catalog of all modifiers, together with the precomputed component
/// bag of each: for `by_id[i]`, `components[i]` counts every base or
/// intermediate ingredient reachable through nested recipes, excluding the
/// modifier itself, with one count per way of reaching it.
pub struct Modifiers {
    pub by_id: Vec<Modifier>,
    pub components: Vec<Vec<(ModifierId, u64)>>,
}

impl Modifiers {
    /// Internal consistency of the catalog: distinct ids, well-formed
    /// modifiers, recipes resolving inside the catalog, non-empty recipes
    /// pairwise distinct, and a component row per modifier whose keys
    /// resolve inside the catalog as well.
    pub open spec fn wf(self) -> bool {
        &&& forall|i: int, j: int|
            0 <= i < j < self.by_id@.len() ==> self.by_id@[i].id != self.by_id@[j].id
        &&& forall|i: int| 0 <= i < self.by_id@.len() ==> modifier_wf(#[trigger] self.by_id@[i])
        &&& forall|i: int, k: int|
            0 <= i < self.by_id@.len() && 0 <= k < self.by_id@[i].recipe@.len()
                ==> has_id(self.by_id@, #[trigger] self.by_id@[i].recipe@[k])
        &&& forall|i: int, j: int|
            0 <= i < j < self.by_id@.len() && self.by_id@[i].recipe@.len() > 0
                ==> self.by_id@[i].recipe@ != self.by_id@[j].recipe@
        &&& self.components@.len() == self.by_id@.len()
        &&& forall|i: int, k: int|
            0 <= i < self.components@.len() && 0 <= k < self.components@[i]@.len()
                ==> has_id(self.by_id@, (#[trigger] self.components@[i]@[k]).0)
    }

    /// Index of the modifier with this id, if the catalog has it.
    pub fn index_of(&self, id: ModifierId) -> (r: Option<usize>)
        ensures
            match r {
                Some(i) => {
                    &&& spec_index_of(self.by_id@, id) == Some(i as int)
                    &&& i < self.by_id@.len()
                    &&& self.by_id@[i as int].id == id
                },
                None => spec_index_of(self.by_id@, id) is None,
            },
    {
        let list = &self.by_id;
        let mut i: usize = 0;
        while i < list.len()
            invariant
                list@ == self.by_id@,
                0 <= i <= list@.len(),
                spec_index_of_upto(list@, id, i as int) is None,
            decreases list@.len() - i,
        {
            if list[i].id == id {
                proof {
                    lemma_index_of_extend(list@, id, i as int, list@.len() as int);
                }
                return Some(i);
            }
            i += 1;
        }
        None
    }

    /// Index of the modifier whose (non-empty) recipe equals the given
    /// sorted id set, if the catalog has one.
    pub fn index_of_recipe(&self, recipe: &Vec<ModifierId>) -> (r: Option<usize>)
        ensures
            match r {
                Some(i) => spec_index_of_recipe(self.by_id@, recipe@) == Some(i as int) && i
                    < self.by_id@.len(),
                None => spec_index_of_recipe(self.by_id@, recipe@) is None,
            },
    {
        if recipe.len() == 0 {
            return None;
        }
        let list = &self.by_id;
        let mut i: usize = 0;
        while i < list.len()
            invariant
                list@ == self.by_id@,
                recipe@.len() > 0,
                0 <= i <= list@.len(),
                spec_index_of_recipe_upto(list@, recipe@, i as int) is None,
            decreases list@.len() - i,
        {
            if ids_eq(&list[i].recipe, recipe) {
                proof {
                    lemma_index_of_recipe_extend(list@, recipe@, i as int, list@.len() as int);
                }
                return Some(i);
            }
            i += 1;
        }
        None
    }
}

proof fn lemma_index_of_extend(list: Seq<Modifier>, id: ModifierId, i: int, n: int)
    requires
        0 <= i < n <= list.len(),
        spec_index_of_upto(list, id, i) is None,
        list[i].id == id,
    ensures
        spec_index_of_upto(list, id, n) == Some(i),
    decreases n,
{
    if n - 1 > i {
        lemma_index_of_extend(list, id, i, n - 1);
    }
}

proof fn lemma_index_of_recipe_extend(list: Seq<Modifier>, recipe: Seq<u8>, i: int, n: int)
    requires
        0 <= i < n <= list.len(),
        recipe.len() > 0,
        spec_index_of_recipe_upto(list, recipe, i) is None,
        list[i].recipe@ == recipe,
    ensures
        spec_index_of_recipe_upto(list, recipe, n) == Some(i),
    decreases n,
{
    if n - 1 > i {
        lemma_index_of_recipe_extend(list, recipe, i, n - 1);
    }
}

/// First index whose non-empty recipe equals `recipe`, scanning `list[..n]`.
pub open spec fn spec_index_of_recipe_upto(list: Seq<Modifier>, recipe: Seq<u8>, n: int) -> Option<
    int,
>
    decreases n,
{
    if recipe.len() == 0 || n <= 0 {
        None
    } else {
        match spec_index_of_recipe_upto(list, recipe, n - 1) {
            Some(i) => Some(i),
            None => if list[n - 1].recipe@ == recipe {
                Some(n - 1)
            } else {
                None
            },
        }
    }
}

/// First index whose non-empty recipe equals `recipe`.
pub open spec fn spec_index_of_recipe(list: Seq<Modifier>, recipe: Seq<u8>) -> Option<int> {
    spec_index_of_recipe_upto(list, recipe, list.len() as int)
}

pub proof fn lemma_index_of_recipe_upto_props(list: Seq<Modifier>, recipe: Seq<u8>, n: int)
    requires
        0 <= n <= list.len(),
    ensures
        match spec_index_of_recipe_upto(list, recipe, n) {
            Some(i) => 0 <= i < n && list[i].recipe@ == recipe && recipe.len() > 0,
            None => recipe.len() == 0 || forall|j: int| 0 <= j < n ==> list[j].recipe@ != recipe,
        },
    decreases n,
{
    if n > 0 {
        lemma_index_of_recipe_upto_props(list, recipe, n - 1);
    }
}

} // verus!
