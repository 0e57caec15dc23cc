//! A verified Minesweeper board engine: mine placement, adjacency
//! derivation, flood reveal with chord expansion, marking, and win/loss
//! detection. Rendering and input handling live outside this crate.
pub mod counting;
pub mod field;
pub mod game;
pub mod laws;
