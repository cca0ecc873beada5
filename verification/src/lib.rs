//! Game-state engine for a falling-block puzzle game: the board grid, the
//! active falling piece, collision and placement rules, row clearing with
//! gravity collapse, and procedural generation of connected polyominoes.
//!
//! Rendering, input handling and frame timing are left to the host
//! application, which drives the engine through the mutators on
//! [`board::GameState`] and reads its state back for display.

pub mod board;
pub mod cell;
pub mod piece;
pub mod rng;
