//! Grid-based pathfinding over a destructible tile map.
//!
//! The library plans short local paths for agents moving on a square grid
//! with 8-directional movement. It offers a bounded A* search
//! ([`planner::plan_path`]) and a cheap greedy fallback
//! ([`planner::next_step`]), both reading a tile-aligned obstacle set
//! ([`obstacles::Chunk`]).

pub mod grid;
pub mod obstacles;
pub mod planner;
