//! Core engine library for the Modular Game Engine: ECS world model, maps,
//! field of view, loot tables and event plumbing.
use vstd::prelude::*;

pub mod collections;
pub mod config;
pub mod ecs;
pub mod faction;
pub mod input;
pub mod json;
pub mod json_text;
pub mod loot;
pub mod text;
pub mod ui;
pub mod wasm_map;
pub mod map;
pub mod map_json;

verus! {
}
