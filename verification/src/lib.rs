//! A maze game: carving a maze by randomized depth-first search, solving it
//! by heuristic backtracking, and moving a player through it.
pub mod cell;
pub mod grid;
pub mod builder;
pub mod random;
pub mod generator;
pub mod picker;
pub mod scan;
pub mod solver;
pub mod solve;
pub mod setup;
pub mod player;
pub mod render;
pub mod menu;
pub mod laws;
pub mod game;
pub mod checks;
pub mod reach;
pub mod exit;
pub mod answers;
