//! Core game logic of HT Dungeon: the tile map and its generator, grid
//! reachability, tile path search, entity identities, the inventory, and the
//! decisions that the simulation loop takes on each command and tick.

pub mod snapshot;
pub mod entity;
pub mod random;
pub mod grid;
pub mod dungeon;
pub mod pathfinding;
pub mod inventory;
pub mod world;
pub mod inspect;
pub mod settings;
