//! Windowed cooperative pathfinding for agents on a 2-D cost grid.
//!
//! The crate has two planners. `a_star` is a plain forward A* search over a
//! cost grid. `world`, `agent` and `open_set` together implement WHCA*:
//! each agent keeps a reverse resumable A* (RRA*) search from its goal, and a
//! cooperative planner resolves the agents' next moves against a shared
//! time-indexed reservation table, a fixed planning window at a time.

pub mod a_star;
pub mod agent;
pub mod grid;
pub mod open_set;
pub mod world;
