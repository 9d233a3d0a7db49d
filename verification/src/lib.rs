pub mod game;
pub mod map;
pub mod pathfinding;
pub mod probability;
pub mod random;
pub mod rules;
pub mod tile;
pub mod vec2;

pub use tile::{Direction, Tile};
pub use vec2::{i64vec2, I64Vec2};
