//! Crafting planner: recipe expansion, demand aggregation against an
//! inventory, and the monsters and sub-areas that supply base ingredients.

pub mod dto;
pub mod error;
pub mod inventory;
pub mod item_list;
pub mod laws;
pub mod world_map;
pub mod game_data;
pub mod models;
pub mod query_params;
pub mod recipes;
pub mod sources;
pub mod tabs;
pub mod wish_list;
