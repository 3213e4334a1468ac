//! Turn-based dungeon-crawl simulation core: map storage, field of view,
//! pathfinding, initiative, the event pipeline and cave generation.

pub mod grid;
pub mod entity;
pub mod world_map;
pub mod progression;
pub mod dungeon;
pub mod events;
pub mod turn;
pub mod fov;
pub mod pathfind;
pub mod control;
pub mod generation;
pub mod level;
pub mod laws;
