//! Flat Hypercube: a terminal simulator for `n^d` hypercube puzzles.
//!
//! The verified library holds the puzzle model and its turns, the
//! preference validation, the slash-command line editor and output panel,
//! and the screen layout arithmetic.

pub mod text;
pub mod turns;
pub mod geometry;
pub mod stickers;
pub mod puzzle;
pub mod cycles;
pub mod enumeration;
pub mod commands;
pub mod terminal_ui;
pub mod prefs;
