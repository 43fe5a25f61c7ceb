//! Turn engine for a hexagonal-grid roguelike: terrain, actors, items,
//! light and noise propagation, and the three-phase turn lifecycle.

pub mod actor;
pub mod coord_map;
pub mod game;
pub mod generate;
pub mod hex;
pub mod item;
pub mod light;
pub mod tile;
