pub mod cached_world;
pub mod debug;
pub mod errors;
pub mod events;
pub mod entities;
pub mod geometry;
pub mod pathfinding;
pub mod keys;
