use vstd::prelude::*;

verus! {

/// An item of the game. Two items are the same item when their ids agree.
#[derive(Clone, Debug)]
pub struct Item {
    pub id: i32,
    pub name: String,
    pub category: i16,
    pub image_id: i32,
}

impl PartialEq for Item {
    fn eq(&self, other: &Item) -> (r: bool) {
        self.id == other.id
    }
}

impl vstd::std_specs::cmp::PartialEqSpecImpl for Item {
    open spec fn obeys_eq_spec() -> bool {
        true
    }

    open spec fn eq_spec(&self, other: &Item) -> bool {
        self.id == other.id
    }
}

/// A monster; identity is its id.
#[derive(Clone, Debug)]
pub struct Monster {
    pub id: i32,
    pub name: String,
}

impl PartialEq for Monster {
    fn eq(&self, other: &Monster) -> (r: bool) {
        self.id == other.id
    }
}

impl vstd::std_specs::cmp::PartialEqSpecImpl for Monster {
    open spec fn obeys_eq_spec() -> bool {
        true
    }

    open spec fn eq_spec(&self, other: &Monster) -> bool {
        self.id == other.id
    }
}

/// An area of the world map.
#[derive(Clone, Debug)]
pub struct Area {
    pub id: i32,
    pub name: String,
}

/// A sub-area of an area; identity is its id, whatever its name says.
#[derive(Clone, Debug)]
pub struct SubArea {
    pub id: i32,
    pub name: String,
    pub area_id: i32,
}

impl PartialEq for SubArea {
    fn eq(&self, other: &SubArea) -> (r: bool) {
        self.id == other.id
    }
}

impl vstd::std_specs::cmp::PartialEqSpecImpl for SubArea {
    open spec fn obeys_eq_spec() -> bool {
        true
    }

    open spec fn eq_spec(&self, other: &SubArea) -> bool {
        self.id == other.id
    }
}

/// One tile of the world map.
#[derive(Clone, Debug)]
pub struct MapTile {
    pub id: i32,
    pub name: Option<String>,
    pub x: i16,
    pub y: i16,
    pub sub_area_id: i32,
}

/// One row of a recipe: one craft of `result_item_id` takes `quantity`
/// of `ingredient_item_id`.
#[derive(Clone, Copy, Debug, PartialEq, Eq, Structural)]
pub struct Recipe {
    pub result_item_id: i32,
    pub ingredient_item_id: i32,
    pub quantity: i16,
}

/// A monster drops an item.
#[derive(Clone, Copy, Debug, PartialEq, Eq, Structural)]
pub struct Drop {
    pub monster_id: i32,
    pub item_id: i32,
}

/// A monster lives in a sub-area.
#[derive(Clone, Copy, Debug, PartialEq, Eq, Structural)]
pub struct MonsterSubArea {
    pub monster_id: i32,
    pub sub_area_id: i32,
}

/// An item on the wish list, with the quantity wanted.
#[derive(Clone, Copy, Debug, PartialEq, Eq, Structural)]
pub struct UserItem {
    pub item_id: i32,
    pub quantity: i16,
}

/// An ingredient held in the inventory, with the quantity held.
#[derive(Clone, Copy, Debug, PartialEq, Eq, Structural)]
pub struct UserIngredient {
    pub item_id: i32,
    pub quantity: i16,
}

} // verus!
