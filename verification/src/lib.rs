//! A verified core for a snake game on a toroidal grid: wrap-around
//! geometry, a snake body model, flood-fill reachability, an A*-style
//! path planner, a space-based safety oracle, and the tick state machine
//! that drives them.
pub mod agent;
pub mod game;
pub mod grid;
pub mod path;
pub mod reach;
pub mod snake;
