//! Per-turn move decision for a snake on a rectangular grid: occupancy
//! queries, an immediate-collision filter, a flood-fill measure of open space
//! and the policy that combines them.

pub mod flood;
pub mod grid;
pub mod policy;
pub mod safety;

pub use flood::flood_fill_count;
pub use grid::{body_contains, Battlesnake, Board, Coord, Direction, Game};
pub use policy::{
    choose_move, end, get_move, manhattan_distance, nearest_food, preferred_direction, start,
    ReachMap,
};
pub use safety::{move_safety, SafetyMap};
