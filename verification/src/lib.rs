//! Simulation core of a turn-based roguelike.

pub mod ai;
pub mod components;
pub mod determinism;
pub mod entity_ai;
pub mod entity_items;
pub mod forrest;
pub mod game;
pub mod generators;
pub mod horde;
pub mod item;
pub mod monster;
pub mod pathfinding;
pub mod player;
pub mod point;
pub mod point_ops;
pub mod position_index;
pub mod random;
pub mod ranged_int;
pub mod replay;
pub mod scheduler;
pub mod store;
pub mod systems;
pub mod ways;
pub mod world;
