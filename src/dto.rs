use vstd::prelude::*;

verus! {

use crate::models::{Item, MapTile};

/// An item as the game-data web service describes it.
pub struct ItemDto {
    pub id: i32,
    pub name: String,
    pub category: i16,
    pub icon: i32,
}

/// A map position as the game-data web service describes it.
#[derive(Clone, Copy, Debug, PartialEq, Eq, Structural)]
pub struct MapPositionDto {
    pub id: i32,
    pub x: i16,
    pub y: i16,
    pub sub_area_id: i32,
    pub has_priority: bool,
}

impl ItemDto {
    /// The item this description stands for.
    pub fn into_item(self) -> (r: Item)
        ensures
            r.id == self.id,
            r.name == self.name,
            r.category == self.category,
            r.image_id == self.icon,
    {
        Item { id: self.id, name: self.name, category: self.category, image_id: self.icon }
    }
}

impl MapPositionDto {
    /// The map tile this position stands for.
    pub fn into_tile(self) -> (r: MapTile)
        ensures
            r.id == self.id,
            r.name is None,
            r.x == self.x,
            r.y == self.y,
            r.sub_area_id == self.sub_area_id,
    {
        MapTile { id: self.id, name: None, x: self.x, y: self.y, sub_area_id: self.sub_area_id }
    }
}

} // verus!
